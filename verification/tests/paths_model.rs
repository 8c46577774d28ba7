use std::path::Path;

use dotsync::paths::{components_of, file_name, join_path, parent, strip_path_prefix};
use dotsync::sync::effective_dir_unit;

fn std_components(p: &str) -> Vec<String> {
    Path::new(p)
        .components()
        .map(|c| c.as_os_str().to_str().unwrap().to_string())
        .collect()
}

const SAMPLES: &[&str] = &[
    "",
    "/",
    ".",
    "..",
    "a",
    "a/b",
    "/a/b",
    "a//b/",
    "./a/./b",
    "/./a",
    "a/../b",
    ".config/nvim/init.lua",
    "//x",
    "./",
    "a/./b/.",
    "a/b//c//",
    "./.",
    "/home/u/.config/./nvim",
    "/home/u",
    "a/.b/./",
];

#[test]
fn components_agree_with_std() {
    for p in SAMPLES {
        assert_eq!(components_of(p), std_components(p), "components of {p:?}");
    }
}

#[test]
fn join_agrees_with_std() {
    for base in ["", "/", "/home/u", "/home/u/", "repo", "."] {
        for rel in ["a", "a/b", "/abs", "", ".config/nvim"] {
            let expected = Path::new(base).join(rel).to_str().unwrap().to_string();
            assert_eq!(join_path(base, rel), expected, "{base:?} join {rel:?}");
        }
    }
}

#[test]
fn strip_prefix_agrees_with_std_on_plain_paths() {
    let cases = [
        ("/home/u/.zshrc", "/home/u"),
        ("/home/u/.config/nvim", "/home/u/"),
        ("/home/u", "/home/u"),
        ("/home/other/.zshrc", "/home/u"),
        ("/home/uu/.zshrc", "/home/u"),
        ("repo/a/b", "repo"),
        ("a/b", ""),
        ("/a", ""),
    ];
    for (path, base) in cases {
        let expected = Path::new(path)
            .strip_prefix(base)
            .ok()
            .map(|p| p.to_str().unwrap().to_string());
        assert_eq!(strip_path_prefix(path, base), expected, "{path:?} minus {base:?}");
    }
}

#[test]
fn strip_prefix_agrees_with_std_on_every_sample_pair() {
    for path in SAMPLES {
        for base in SAMPLES {
            let expected = Path::new(path)
                .strip_prefix(base)
                .ok()
                .map(|p| p.to_str().unwrap().to_string());
            assert_eq!(strip_path_prefix(path, base), expected, "{path:?} minus {base:?}");
        }
    }
}

#[test]
fn strip_prefix_keeps_the_remaining_text() {
    assert_eq!(strip_path_prefix("a/./b", "a"), Some("b".to_string()));
    assert_eq!(
        strip_path_prefix("/home/u/.config/./nvim", "/home/u"),
        Some(".config/./nvim".to_string())
    );
    assert_eq!(strip_path_prefix("r/x//y/", "r"), Some("x//y".to_string()));
    assert_eq!(strip_path_prefix("./a/", ""), Some("./a".to_string()));
    assert_eq!(strip_path_prefix("/", ""), Some("/".to_string()));
}

#[test]
fn file_name_and_parent_agree_with_std() {
    for p in SAMPLES {
        let name = Path::new(p).file_name().map(|n| n.to_str().unwrap().to_string());
        assert_eq!(file_name(p), name, "file name of {p:?}");
    }
    for p in ["a/b", "/a", "a", "/", "", ".config/nvim/init.lua", "a/b/"] {
        let par = Path::new(p).parent().map(|n| n.to_str().unwrap().to_string());
        assert_eq!(parent(p), par, "parent of {p:?}");
    }
}

#[test]
fn dir_unit_rules() {
    assert_eq!(effective_dir_unit(".zshrc"), ".zshrc");
    assert_eq!(effective_dir_unit(".config"), ".config");
    assert_eq!(effective_dir_unit(".config/nvim/init.lua"), ".config/nvim");
    assert_eq!(effective_dir_unit(".config/nvim/lua/plugins/a.lua"), ".config/nvim");
    assert_eq!(effective_dir_unit(".config/starship.toml"), ".config/starship.toml");
    assert_eq!(effective_dir_unit(".local/bin/tool"), ".local/bin");
    assert_eq!(effective_dir_unit("a/b/c/d"), "a/b/c");
}

#[test]
fn add_keeps_path_relative_to_home() {
    let home = "/home/u";
    let rel = strip_path_prefix(&join_path(home, ".config/nvim/init.lua"), home).unwrap();
    assert_eq!(rel, ".config/nvim/init.lua");
    assert_eq!(join_path("/home/u/dotfiles", &rel), "/home/u/dotfiles/.config/nvim/init.lua");
}
