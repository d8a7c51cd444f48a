use howmany::chars::indent_print;
use howmany::config::Config;

fn config(ignores: &[&str], accept: &[&str]) -> Config {
    Config::new(
        ignores.iter().map(|s| s.to_string()).collect(),
        accept.iter().map(|s| s.to_string()).collect(),
        100,
    )
}

#[test]
fn acceptance_is_an_exact_dot_suffix_match() {
    let cfg = config(&[], &["py", "rs"]);
    assert!(cfg.is_accepted("x.py"));
    assert!(cfg.is_accepted("lib.rs"));
    assert!(cfg.is_accepted("a.b.py"));
    assert!(!cfg.is_accepted("x.pyc"));
    assert!(!cfg.is_accepted("xpy"));
    assert!(!cfg.is_accepted("py"));
    assert!(!cfg.is_accepted("x.rss"));
    assert!(!cfg.is_accepted(""));
}

#[test]
fn acceptance_is_case_sensitive() {
    let cfg = config(&[], &["py"]);
    assert!(!cfg.is_accepted("x.PY"));
    assert!(!cfg.is_accepted("x.Py"));
}

#[test]
fn empty_extension_list_accepts_nothing() {
    let cfg = config(&[], &[]);
    assert!(!cfg.is_accepted("x.py"));
    assert!(!cfg.is_accepted("anything"));
}

#[test]
fn ignore_matches_any_configured_name_in_the_basename() {
    let cfg = config(&["node_modules", "target"], &["py"]);
    assert!(cfg.is_ignored_dir("node_modules"));
    assert!(cfg.is_ignored_dir("target"));
    // the union of the alternatives matches anywhere in the name
    assert!(cfg.is_ignored_dir("old_target_dir"));
    assert!(!cfg.is_ignored_dir("src"));
}

#[test]
fn empty_ignore_list_ignores_nothing() {
    let cfg = config(&[], &["py"]);
    assert!(!cfg.is_ignored_dir("node_modules"));
    assert!(!cfg.is_ignored_dir(""));
}

#[test]
fn indent_line_repeats_the_indent_character() {
    let line: String = indent_print("hello", 3, '-').into_iter().collect();
    assert_eq!(line, "---hello");
    let plain: String = indent_print("msg", 0, ' ').into_iter().collect();
    assert_eq!(plain, "msg");
}
