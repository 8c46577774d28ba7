use dotsync::ignore::{
    decide_ignored, normalize_pattern, parse_ignore_line, pattern_lines_fit, IgnoreRules,
    IGNORE_FILE_HEADER,
};

fn matches(pattern: &str, path: &str) -> bool {
    let mut rules = IgnoreRules::new();
    rules.push_glob(&normalize_pattern(pattern), false).unwrap();
    rules.is_ignored(path)
}

fn rules_of(globs: &[(&str, bool)]) -> IgnoreRules {
    let mut rules = IgnoreRules::new();
    for (glob, negated) in globs {
        rules.push_glob(glob, *negated).unwrap();
    }
    rules
}

#[test]
fn no_slash_matches_at_any_depth() {
    assert!(matches(".DS_Store", ".DS_Store"));
    assert!(matches(".DS_Store", ".config/nvim/.DS_Store"));
    assert!(matches("*.log", "debug.log"));
    assert!(matches("*.log", ".config/app/debug.log"));
}

#[test]
fn path_with_slash_anchored_to_root() {
    assert!(matches(".config/nvim", ".config/nvim"));
    assert!(!matches(".config/nvim", ".local/.config/nvim"));
}

#[test]
fn leading_slash_anchored_to_root() {
    assert!(matches("/.zshrc", ".zshrc"));
    assert!(!matches("/.zshrc", "home/.zshrc"));
}

#[test]
fn double_star_passthrough() {
    assert!(matches("**/.DS_Store", ".DS_Store"));
    assert!(matches("**/.DS_Store", "a/b/.DS_Store"));
}

#[test]
fn trailing_slash_stripped() {
    assert!(matches("sessions/", ".config/nvim/sessions"));
    assert!(matches("sessions/", "sessions"));
}

#[test]
fn negation_order_last_wins() {
    let rules = rules_of(&[("**/*.log", false), ("**/keep.log", true)]);
    assert!(rules.is_ignored("debug.log"));
    assert!(!rules.is_ignored("keep.log"));
}

#[test]
fn star_does_not_cross_separator() {
    // .tooling/* must match direct children only
    assert!(matches(".tooling/*", ".tooling/agents"));
    assert!(matches(".tooling/*", ".tooling/settings.json"));
    assert!(!matches(".tooling/*", ".tooling/agents/skill.md"));

    // negation glob must match the directory exactly
    assert!(matches(".tooling/agents/", ".tooling/agents"));
    assert!(!matches(".tooling/agents/", ".tooling/agents/skill.md"));
}

#[test]
fn full_ignore_rules_scenario() {
    // Simulates: .tooling/* + !.tooling/agents/ + !.tooling/skills/
    let rules = rules_of(&[
        (".tooling/*", false),
        (".tooling/agents", true),
        (".tooling/skills", true),
    ]);

    // Direct children that are NOT negated -> ignored
    assert!(rules.is_ignored(".tooling/settings.json"));
    assert!(rules.is_ignored(".tooling/hooks"));
    // Negated directories -> NOT ignored
    assert!(!rules.is_ignored(".tooling/agents"));
    assert!(!rules.is_ignored(".tooling/skills"));
    // Files inside negated dirs -> NOT ignored (star doesn't reach them)
    assert!(!rules.is_ignored(".tooling/agents/skill.md"));
    assert!(!rules.is_ignored(".tooling/skills/foo.md"));
}

#[test]
fn normalize_pattern_exact_forms() {
    assert_eq!(normalize_pattern("sessions/"), "**/sessions");
    assert_eq!(normalize_pattern("/.zshrc"), ".zshrc");
    assert_eq!(normalize_pattern("**/x//"), "**/x");
    assert_eq!(normalize_pattern(".config/nvim"), ".config/nvim");
    assert_eq!(normalize_pattern("*.log"), "**/*.log");
    assert_eq!(normalize_pattern("/"), "**/");
    assert_eq!(normalize_pattern(""), "**/");
}

#[test]
fn content_rules_skip_comments_and_blank_lines() {
    let content = "# comment\n\n   \n*.log\n!keep.log\r\n  /.zshrc  \n";
    let (rules, invalid) = IgnoreRules::from_content(content);
    assert!(invalid.is_empty());
    assert!(rules.is_ignored("a/debug.log"));
    assert!(!rules.is_ignored("a/keep.log"));
    assert!(rules.is_ignored(".zshrc"));
    assert!(!rules.is_ignored("x/.zshrc"));
    assert!(!rules.is_ignored("comment"));
}

#[test]
fn content_rules_report_invalid_patterns() {
    let (rules, invalid) = IgnoreRules::from_content("a[b\n*.tmp\n!{x\n");
    assert_eq!(invalid.len(), 2);
    assert_eq!(invalid[0].raw, "a[b");
    assert_eq!(invalid[1].raw, "{x");
    assert!(rules.is_ignored("d/f.tmp"));
}

#[test]
fn scaffold_header_has_no_rules() {
    let (rules, invalid) = IgnoreRules::from_content(IGNORE_FILE_HEADER);
    assert!(invalid.is_empty());
    assert!(!rules.is_ignored(".DS_Store"));
    assert!(!rules.is_ignored("debug.log"));
    assert!(!rules.is_ignored(".zshrc.bak"));
    assert!(IGNORE_FILE_HEADER.lines().all(|l| l.starts_with('#')));
}

#[test]
fn no_rules_ignore_nothing() {
    let rules = IgnoreRules::new();
    assert!(!rules.is_ignored(".DS_Store"));
}

#[test]
fn later_plain_rule_overrides_negation() {
    let rules = rules_of(&[("**/keep.log", true), ("**/*.log", false)]);
    assert!(rules.is_ignored("keep.log"));
}

#[test]
fn oversized_pattern_is_refused() {
    // a glob whose regular expression is past globset's size limit
    let line = "?".repeat(800_000);
    assert!(pattern_lines_fit(&line));
    let content = format!("{line}\n*.tmp\n");
    assert!(IgnoreRules::try_from_content(&content).is_none());
}

#[test]
fn try_from_content_gives_the_rules() {
    let (rules, invalid) = IgnoreRules::try_from_content("a[b\n*.tmp\n!keep.tmp\n").unwrap();
    assert_eq!(invalid.len(), 1);
    assert_eq!(invalid[0].raw, "a[b");
    assert!(rules.is_ignored("d/f.tmp"));
    assert!(!rules.is_ignored("d/keep.tmp"));
}

#[test]
fn long_literal_pattern_compiles() {
    let name = "n".repeat(20_000);
    let (rules, invalid) = IgnoreRules::from_content(&format!("/{name}\n"));
    assert!(invalid.is_empty());
    assert!(rules.is_ignored(&name));
    assert!(!rules.is_ignored(&format!("x/{name}")));
}

#[test]
fn ordinary_content_fits() {
    assert!(pattern_lines_fit(""));
    assert!(pattern_lines_fit("*.log\n!keep.log\n# c\n"));
}

#[test]
fn push_glob_refuses_unclosed_class() {
    let mut rules = IgnoreRules::new();
    assert!(rules.push_glob("a[b", false).is_err());
    assert!(!rules.is_ignored("a[b"));
}

#[test]
fn last_match_decision_on_outcomes() {
    assert!(!decide_ignored(&[]));
    assert!(decide_ignored(&[(true, false)]));
    assert!(!decide_ignored(&[(true, false), (true, true)]));
    assert!(decide_ignored(&[(true, false), (false, true)]));
    assert!(decide_ignored(&[(true, true), (true, false), (false, true)]));
    assert!(!decide_ignored(&[(false, false), (false, true)]));
}

#[test]
fn ignore_line_forms() {
    assert_eq!(parse_ignore_line("   "), None);
    assert_eq!(parse_ignore_line("  # note"), None);
    assert_eq!(parse_ignore_line(" !keep.log \r"), Some(("keep.log".to_string(), true)));
    assert_eq!(parse_ignore_line("*.log"), Some(("*.log".to_string(), false)));
    assert_eq!(parse_ignore_line("!"), Some((String::new(), true)));
}
