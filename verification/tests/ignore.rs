use rerun::ignore::IgnoreFilter;

#[test]
fn disabled_never_ignores() {
    let filter = IgnoreFilter::disabled();
    assert!(!filter.is_ignored(".git/foo"));
    assert!(!filter.is_ignored("target/debug/bar"));
}

#[test]
fn default_patterns_present() {
    let filter = IgnoreFilter::new(&[], None);
    assert!(filter.is_ignored(".git/config"));
    assert!(filter.is_ignored("target/debug/app"));
    assert!(filter.is_ignored("node_modules/foo"));
    assert!(filter.is_ignored(".DS_Store"));
    assert!(filter.is_ignored("__pycache__/mod.pyc"));
}

#[test]
fn non_ignored_passes() {
    let filter = IgnoreFilter::new(&[], None);
    assert!(!filter.is_ignored("src/main.rs"));
    assert!(!filter.is_ignored("lib/mod.rs"));
}

#[test]
fn nested_path_ignored() {
    let filter = IgnoreFilter::new(&[], None);
    assert!(filter.is_ignored("project/.git/HEAD"));
    assert!(filter.is_ignored("deep/nested/target/foo"));
}

#[test]
fn cli_patterns_extend_defaults() {
    let cli = vec!["dist".to_string()];
    let filter = IgnoreFilter::new(&cli, None);
    assert!(filter.is_ignored("dist/bundle.js"));
    assert!(filter.is_ignored(".git/config"));
}

#[test]
fn cli_comma_separated() {
    let cli = vec!["dist".to_string(), "out".to_string()];
    let filter = IgnoreFilter::new(&cli, None);
    assert!(filter.is_ignored("dist/foo"));
    assert!(filter.is_ignored("out/bar"));
}

#[test]
fn glob_suffix_match() {
    let cli = vec!["*.log".to_string()];
    let filter = IgnoreFilter::new(&cli, None);
    assert!(filter.is_ignored("error.log"));
    assert!(filter.is_ignored("app/debug.log"));
    assert!(!filter.is_ignored("main.rs"));
}

#[test]
fn gitignore_parsed() {
    let filter = IgnoreFilter::new(&[], Some("# comment\n\nbuild\n!important/\n*.tmp\n"));
    assert!(filter.is_ignored("build/output"));
    assert!(filter.is_ignored("foo.tmp"));
    assert!(!filter.is_ignored("important/keep"));
    assert!(!filter.is_ignored("src/main.rs"));
}

#[test]
fn gitignore_disabled() {
    // the .gitignore holds "build\n", but it is not read
    let filter = IgnoreFilter::new(&[], None);
    assert!(!filter.is_ignored("build/output"));
}

#[test]
fn gitignore_trailing_slash_trimmed() {
    let filter = IgnoreFilter::new(&[], Some("build/\n"));
    assert!(filter.is_ignored("build/output"));
}

#[test]
fn no_gitignore_no_error() {
    let filter = IgnoreFilter::new(&[], None);
    assert!(!filter.is_ignored("src/main.rs"));
}

#[test]
fn cli_patterns_are_trimmed_and_blank_ones_dropped() {
    let cli = vec!["  dist \t".to_string(), "   ".to_string(), String::new()];
    let filter = IgnoreFilter::new(&cli, None);
    assert!(filter.is_ignored("dist/x"));
    // a blank pattern would otherwise match nothing but is not kept either
    assert!(!filter.is_ignored("src/x"));
}

#[test]
fn gitignore_crlf_and_spaces() {
    let filter = IgnoreFilter::new(&[], Some("  logs//  \r\n\u{3000}cache\r\n#x\n"));
    assert!(filter.is_ignored("logs/a"));
    assert!(filter.is_ignored("cache/b"));
    assert!(!filter.is_ignored("#x"));
}

#[test]
fn matches_rules() {
    assert!(IgnoreFilter::matches("error.log", "*.log"));
    assert!(IgnoreFilter::matches(".log", "*.log"));
    assert!(!IgnoreFilter::matches("log", "*.log"));
    assert!(IgnoreFilter::matches("anything", "*"));
    assert!(IgnoreFilter::matches("target", "target"));
    assert!(!IgnoreFilter::matches("targets", "target"));
    // only the first star is a wildcard
    assert!(IgnoreFilter::matches("a*.log", "**.log"));
    assert!(!IgnoreFilter::matches("a.log", "**.log"));
}

#[test]
fn components_are_matched_not_substrings() {
    let filter = IgnoreFilter::new(&[], None);
    assert!(!filter.is_ignored("my.git/config"));
    assert!(!filter.is_ignored("targets/x"));
    assert!(filter.is_ignored("/abs/path/.git"));
    assert!(filter.is_ignored("./target//x/"));
}

#[test]
fn clone_keeps_patterns() {
    let cli = vec!["dist".to_string()];
    let filter = IgnoreFilter::new(&cli, None);
    let copy = filter.clone();
    assert!(copy.is_ignored("dist/a"));
    assert!(copy.is_ignored(".git"));
    assert!(!copy.is_ignored("src/a"));
    assert!(!IgnoreFilter::disabled().clone().is_ignored(".git"));
}
