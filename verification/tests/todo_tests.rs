use howmany::journal::{Journal, Report, TodoGroup};
use howmany::todo::TodoCatcher;

fn todo_report(r: Report) -> (Vec<TodoGroup>, usize) {
    match r {
        Report::Todos(t) => (t.groups, t.count),
        Report::Lines(_) => panic!("expected a todo report"),
    }
}

#[test]
fn grouping_by_tag_keeps_file_order() {
    let mut j = TodoCatcher::new();
    let content = "TODO[alice]: fix X\nTODO[bob]: fix Y\nTODO[alice]: fix Z".to_string();
    j.observe("src/m.rs".to_string(), Some(&content));
    let (groups, count) = todo_report(j.summary());
    assert_eq!(count, 3);
    assert_eq!(groups.len(), 2);
    assert_eq!(groups[0].tag, "alice");
    assert_eq!(groups[0].items.len(), 2);
    assert_eq!(groups[0].items[0].message, "TODO[alice]: fix X");
    assert_eq!(groups[0].items[0].line, 1);
    assert_eq!(groups[0].items[1].message, "TODO[alice]: fix Z");
    assert_eq!(groups[0].items[1].line, 3);
    assert_eq!(groups[1].tag, "bob");
    assert_eq!(groups[1].items.len(), 1);
    assert_eq!(groups[1].items[0].message, "TODO[bob]: fix Y");
    assert_eq!(groups[1].items[0].line, 2);
    assert_eq!(groups[0].items[0].path, "src/m.rs");
}

#[test]
fn line_is_trimmed_before_extraction() {
    let mut j = TodoCatcher::new();
    let content = "   TODO[x] do it   \nplain line".to_string();
    j.observe("f".to_string(), Some(&content));
    let (groups, count) = todo_report(j.summary());
    assert_eq!(count, 1);
    assert_eq!(groups[0].tag, "x");
    // the message runs from the marker to the end of the trimmed line
    assert_eq!(groups[0].items[0].message, "TODO[x] do it");
}

#[test]
fn tag_runs_to_last_bracket_of_its_run() {
    let mut j = TodoCatcher::new();
    let content = "TODO[a]b] rest".to_string();
    j.observe("f".to_string(), Some(&content));
    let (groups, _) = todo_report(j.summary());
    assert_eq!(groups[0].tag, "a]b");
    assert_eq!(groups[0].items[0].message, "TODO[a]b] rest");
}

#[test]
fn empty_tag_does_not_match() {
    let mut j = TodoCatcher::new();
    let content = "TODO[] nothing\nTODO[ spaced ] nothing".to_string();
    j.observe("f".to_string(), Some(&content));
    let (groups, count) = todo_report(j.summary());
    assert_eq!(count, 0);
    assert_eq!(groups.len(), 0);
}

#[test]
fn marker_may_start_mid_line() {
    let mut j = TodoCatcher::new();
    let content = "// TODO[core] refactor".to_string();
    j.observe("f".to_string(), Some(&content));
    let (groups, count) = todo_report(j.summary());
    assert_eq!(count, 1);
    assert_eq!(groups[0].tag, "core");
    assert_eq!(groups[0].items[0].message, "TODO[core] refactor");
}

#[test]
fn carriage_returns_are_stripped_per_line() {
    let mut j = TodoCatcher::new();
    let content = "TODO[w] one\r\nTODO[w] two\r\n".to_string();
    j.observe("f".to_string(), Some(&content));
    let (groups, count) = todo_report(j.summary());
    assert_eq!(count, 2);
    assert_eq!(groups.len(), 1);
    assert_eq!(groups[0].items[0].message, "TODO[w] one");
    assert_eq!(groups[0].items[1].message, "TODO[w] two");
    assert_eq!(groups[0].items[1].line, 2);
}

#[test]
fn unreadable_files_contribute_nothing() {
    let mut j = TodoCatcher::new();
    j.observe("gone".to_string(), None);
    let content = "TODO[t] here".to_string();
    j.observe("f".to_string(), Some(&content));
    let (groups, count) = todo_report(j.summary());
    assert_eq!(count, 1);
    assert_eq!(groups[0].items[0].path, "f");
}

#[test]
fn items_group_across_files_in_observation_order() {
    let mut j = TodoCatcher::new();
    let c1 = "TODO[t] first".to_string();
    let c2 = "TODO[u] second\nTODO[t] third".to_string();
    j.observe("a".to_string(), Some(&c1));
    j.observe("b".to_string(), Some(&c2));
    let (groups, count) = todo_report(j.summary());
    assert_eq!(count, 3);
    assert_eq!(groups.len(), 2);
    assert_eq!(groups[0].tag, "t");
    assert_eq!(groups[0].items[0].path, "a");
    assert_eq!(groups[0].items[1].path, "b");
    assert_eq!(groups[0].items[1].line, 2);
    assert_eq!(groups[1].tag, "u");
}
