use dotsync::ignore::IgnoreRules;
use dotsync::sync::{
    add_entry_step, add_file_target, add_source_step, apply_entry_step, apply_file_target,
    exit_status_text, home_relative, readd_file_unit,
    is_internal_entry, readd_entry_step, readd_paths, readd_unit_action, rsync_command_text, rsync_options,
    rsync_report_lines, rsync_source, validate_origin_dir, DotSyncError, EntryStep, SyncOptions,
    UnitAction, UnitStep,
};
use dotsync::units::UnitSet;

fn rules(content: &str) -> IgnoreRules {
    IgnoreRules::from_content(content).0
}

#[test]
fn options_builders() {
    let o = SyncOptions::new("/r/x".to_string(), "/h/x".to_string())
        .with_dry_run(true)
        .with_verbose(true)
        .with_ignore_root("/r".to_string());
    assert!(o.dry_run && o.verbose);
    assert_eq!(o.ignore_root.as_deref(), Some("/r"));
    assert_eq!(o.rules_dir(), "/r");
    let p = SyncOptions::new("/r".to_string(), "/h".to_string());
    assert!(!p.dry_run && !p.verbose && p.ignore_root.is_none());
    assert_eq!(p.rules_dir(), "/r");
}

#[test]
fn internal_entries() {
    assert!(is_internal_entry("/r/.git"));
    assert!(is_internal_entry("/r/a/.dotsyncignore"));
    assert!(!is_internal_entry("/r/.gitconfig"));
    assert!(!is_internal_entry("/"));
}

#[test]
fn origin_validation() {
    assert!(validate_origin_dir("/r", true, true).is_ok());
    match validate_origin_dir("/r", true, false) {
        Err(DotSyncError::InvalidOriginDir(p)) => assert_eq!(p, "/r"),
        _ => panic!(),
    }
    assert!(validate_origin_dir("/r", false, false).is_err());
}

#[test]
fn apply_steps() {
    let r = rules("*.log\n");
    assert!(matches!(apply_entry_step("/r/.git", true, "/r", "/r", "/h", &r), Ok(EntryStep::Skip)));
    assert!(matches!(apply_entry_step("/r/a.log", false, "/r", "/r", "/h", &r), Ok(EntryStep::Ignored)));
    assert!(matches!(apply_entry_step("/r/.config", true, "/r", "/r", "/h", &r), Ok(EntryStep::Descend)));
    match apply_entry_step("/r/.config/nvim/init.lua", false, "/r", "/r", "/h", &r) {
        Ok(EntryStep::CopyTo(t)) => assert_eq!(t, "/h/.config/nvim/init.lua"),
        _ => panic!(),
    }
    match apply_entry_step("/x/y", false, "/r", "/r", "/h", &r) {
        Err(DotSyncError::RelativePath { path, base }) => {
            assert_eq!(path, "/x/y");
            assert_eq!(base, "/r");
        }
        _ => panic!(),
    }
}

#[test]
fn scoped_apply_tests_rules_from_the_repository_root() {
    // `dotsync apply .config/nvim`: origin is the scope, rules come from the repository root
    let r = rules(".config/nvim/sessions/\n");
    let origin = "/repo/.config/nvim";
    let dest = "/home/u/.config/nvim";
    assert!(matches!(
        apply_entry_step("/repo/.config/nvim/sessions", true, origin, "/repo", dest, &r),
        Ok(EntryStep::Ignored)
    ));
    match apply_entry_step("/repo/.config/nvim/init.lua", false, origin, "/repo", dest, &r) {
        Ok(EntryStep::CopyTo(t)) => assert_eq!(t, "/home/u/.config/nvim/init.lua"),
        _ => panic!(),
    }
    assert!(matches!(
        apply_entry_step("/repo/.config/nvim/lua", true, origin, "/repo", dest, &r),
        Ok(EntryStep::Descend)
    ));
    // the same rule read relative to the scope would not have matched
    assert!(matches!(
        apply_entry_step("/repo/.config/nvim/sessions", true, origin, origin, dest, &r),
        Ok(EntryStep::Descend)
    ));
}

fn names(ns: &[&str]) -> Vec<String> {
    ns.iter().map(|n| n.to_string()).collect()
}

#[test]
fn file_targets_follow_the_walk() {
    let r = rules("sessions/\n*.log\n!keep.log\n");
    let t = |ns: &[&str]| apply_file_target("/repo", &names(ns), "/repo", "/home/u", &r);
    assert_eq!(t(&[".zshrc"]), Some("/home/u/.zshrc".to_string()));
    assert_eq!(t(&[".config", "nvim", "init.lua"]), Some("/home/u/.config/nvim/init.lua".to_string()));
    // inside an ignored directory: never copied, whatever the file itself is
    assert_eq!(t(&[".config", "nvim", "sessions", "s.vim"]), None);
    assert_eq!(t(&[".config", "nvim", "sessions", "keep.log"]), None);
    // inside the repository's own files
    assert_eq!(t(&[".git", "config"]), None);
    assert_eq!(t(&[".dotsyncignore"]), None);
    // the file itself ignored, or un-ignored by a later rule
    assert_eq!(t(&["a", "debug.log"]), None);
    assert_eq!(t(&["a", "keep.log"]), Some("/home/u/a/keep.log".to_string()));
}

#[test]
fn scoped_file_targets_use_repository_root_rules() {
    let r = rules(".config/nvim/sessions/\n");
    let origin = "/repo/.config/nvim";
    let dest = "/home/u/.config/nvim";
    assert_eq!(apply_file_target(origin, &names(&["sessions", "s.vim"]), "/repo", dest, &r), None);
    assert_eq!(
        apply_file_target(origin, &names(&["lua", "plugins.lua"]), "/repo", dest, &r),
        Some("/home/u/.config/nvim/lua/plugins.lua".to_string())
    );
}

#[test]
fn added_files_follow_the_walk() {
    let r = rules("cache/\n*.tmp\n");
    let t = |ns: &[&str]| add_file_target("/h/.config/nvim", &names(ns), "/h", "/r", &r);
    assert_eq!(t(&["init.lua"]), Some("/r/.config/nvim/init.lua".to_string()));
    assert_eq!(t(&["lua", "a.lua"]), Some("/r/.config/nvim/lua/a.lua".to_string()));
    assert_eq!(t(&["cache", "x.lua"]), None);
    assert_eq!(t(&["lua", "b.tmp"]), None);
    // `add` does not treat a `.git` below the added directory as the repository's own
    assert_eq!(t(&[".git", "config"]), Some("/r/.config/nvim/.git/config".to_string()));
}

#[test]
fn add_then_apply_puts_the_file_back() {
    let r = rules("*.log\n");
    let stored = add_file_target("/h/.config", &names(&["nvim", "init.lua"]), "/h", "/r", &r);
    assert_eq!(stored, Some("/r/.config/nvim/init.lua".to_string()));
    let back = apply_file_target("/r", &names(&[".config", "nvim", "init.lua"]), "/r", "/h", &r);
    assert_eq!(back, Some("/h/.config/nvim/init.lua".to_string()));
}

#[test]
fn readd_units_follow_the_walk() {
    let r = rules("sessions/\n");
    let u = |ns: &[&str], dirs: bool| readd_file_unit("/r", &names(ns), dirs, &r);
    assert_eq!(u(&[".zshrc"], false), Some(".zshrc".to_string()));
    assert_eq!(u(&[".config", "nvim", "init.lua"], false), Some(".config/nvim/init.lua".to_string()));
    assert_eq!(u(&[".config", "nvim", "lua", "a.lua"], true), Some(".config/nvim".to_string()));
    assert_eq!(u(&["bin", "tool"], true), Some("bin".to_string()));
    assert_eq!(u(&[".config", "nvim", "sessions", "s.vim"], false), None);
    assert_eq!(u(&[".git", "HEAD"], false), None);
    assert_eq!(u(&[".dotsyncignore"], true), None);
}

#[test]
fn origin_outside_rules_dir_tests_origin_relative_paths() {
    let r = rules("f\n");
    assert_eq!(apply_file_target("/repo/a", &names(&["f"]), "/other", "/h", &r), None);
    assert_eq!(apply_file_target("/repo/a", &names(&["g"]), "/other", "/h", &r), Some("/h/g".to_string()));
}

#[test]
fn apply_outside_rules_dir_tests_the_path_relative_to_the_origin() {
    let r = rules("/f\n");
    assert!(matches!(
        apply_entry_step("/repo/a/f", false, "/repo/a", "/other", "/h", &r),
        Ok(EntryStep::Ignored)
    ));
    match apply_entry_step("/repo/a/g", false, "/repo/a", "/other", "/h", &r) {
        Ok(EntryStep::CopyTo(t)) => assert_eq!(t, "/h/g"),
        _ => panic!(),
    }
}

#[test]
fn add_steps() {
    let r = rules("/.cache\n");
    assert_eq!(home_relative("/h/.config/nvim", "/h").ok(), Some(".config/nvim".to_string()));
    match home_relative("/tmp/x", "/h") {
        Err(DotSyncError::NotUnderHome { source, home }) => {
            assert_eq!(source, "/tmp/x");
            assert_eq!(home, "/h");
        }
        _ => panic!(),
    }
    assert!(matches!(add_source_step(".cache", true, "/repo", &r), EntryStep::Ignored));
    match add_source_step(".zshrc", false, "/repo", &r) {
        EntryStep::CopyTo(t) => assert_eq!(t, "/repo/.zshrc"),
        _ => panic!(),
    }
    match add_entry_step("/h/.config/nvim/init.lua", false, "/h", "/repo", &r) {
        Ok(EntryStep::CopyTo(t)) => assert_eq!(t, "/repo/.config/nvim/init.lua"),
        _ => panic!(),
    }
    assert!(matches!(add_entry_step("/h/.cache", true, "/h", "/repo", &r), Ok(EntryStep::Ignored)));
    assert!(add_entry_step("/elsewhere/f", false, "/h", "/repo", &r).is_err());
}

#[test]
fn readd_steps_and_units() {
    let r = rules(".DS_Store\n");
    assert!(matches!(readd_entry_step("/repo/.git", true, "/repo", false, &r), Ok(UnitStep::Skip)));
    assert!(matches!(readd_entry_step("/repo/a/.DS_Store", false, "/repo", false, &r), Ok(UnitStep::Skip)));
    assert!(matches!(readd_entry_step("/repo/a", true, "/repo", false, &r), Ok(UnitStep::Descend)));
    match readd_entry_step("/repo/.config/nvim/init.lua", false, "/repo", true, &r) {
        Ok(UnitStep::Unit(u)) => assert_eq!(u, ".config/nvim"),
        _ => panic!(),
    }
    match readd_entry_step("/repo/.config/nvim/init.lua", false, "/repo", false, &r) {
        Ok(UnitStep::Unit(u)) => assert_eq!(u, ".config/nvim/init.lua"),
        _ => panic!(),
    }
    assert_eq!(
        readd_paths(".zshrc", "/h", "/repo"),
        ("/h/.zshrc".to_string(), "/repo/.zshrc".to_string())
    );
}

#[test]
fn unit_set_is_path_ordered_and_unique() {
    let mut s = UnitSet::new();
    for u in ["b", "a.b", "a/b", "a", ".config/nvim", "a//b", "b"] {
        s.insert(u.to_string());
    }
    let got: Vec<String> = (0..s.len()).map(|i| s.get(i).clone()).collect();
    let mut expected: std::collections::BTreeSet<std::path::PathBuf> = std::collections::BTreeSet::new();
    for u in ["b", "a.b", "a/b", "a", ".config/nvim", "a//b", "b"] {
        expected.insert(std::path::PathBuf::from(u));
    }
    let expected: Vec<String> = expected.iter().map(|p| p.to_str().unwrap().to_string()).collect();
    assert_eq!(got, expected);
    assert_eq!(got, vec![".config/nvim", "a", "a/b", "a.b", "b"]);
}

#[test]
fn rsync_pieces() {
    assert_eq!(rsync_source("/h/.config"), "/h/.config/");
    assert_eq!(rsync_options(false), vec!["-a", "--no-links", "--out-format=Copied: %n"]);
    assert_eq!(rsync_options(true), vec!["-a", "--no-links", "--out-format=Copied: %n", "--existing"]);
    assert_eq!(rsync_command_text("/h/x/", "/r/x"), "rsync -a --no-links /h/x/ /r/x");
    assert_eq!(exit_status_text(Some(23)), "23");
    assert_eq!(exit_status_text(None), "unknown");
    assert_eq!(
        rsync_report_lines("/r/x", "Copied: a\r\nCopied: Copied: b\nc\n"),
        vec!["/r/x/a", "/r/x/b", "/r/x/c"]
    );
    assert_eq!(rsync_report_lines("/r", ""), Vec::<String>::new());
    assert_eq!(rsync_report_lines("/r", "x\n\ny"), vec!["/r/x", "/r/", "/r/y"]);
    let out = "Copied: a\r\nb\n\nc\r";
    let expected: Vec<String> = out.lines().map(|l| format!("/d/{}", l.trim_start_matches("Copied: "))).collect();
    assert_eq!(rsync_report_lines("/d", out), expected);
}

#[test]
fn error_message_texts() {
    let e = DotSyncError::NotUnderHome { source: "/tmp/x".to_string(), home: "/h".to_string() };
    assert_eq!(e.message(), "Error: '/tmp/x' is not under HOME '/h'.");
    let e = DotSyncError::RelativePath { path: "/a".to_string(), base: "/b".to_string() };
    assert_eq!(e.message(), "Could not compute relative path for '/a' from base '/b'");
    let e = DotSyncError::CommandFailed { command: "rsync x".to_string(), status: "3".to_string() };
    assert_eq!(e.message(), "Command failed with exit code 3: rsync x");
    let e = DotSyncError::Io {
        context: "Could not read".to_string(),
        source: std::io::Error::new(std::io::ErrorKind::Other, "boom"),
    };
    assert_eq!(e.message(), "Could not read: boom");
}

#[test]
fn readd_unit_actions() {
    assert!(matches!(readd_unit_action(true, true, true), UnitAction::SkipSymlink));
    assert!(matches!(readd_unit_action(false, false, false), UnitAction::SkipMissing));
    assert!(matches!(readd_unit_action(false, true, true), UnitAction::SyncDirectory));
    assert!(matches!(readd_unit_action(false, true, false), UnitAction::CopyFile));
}
