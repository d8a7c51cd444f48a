use howmany::config::Config;
use howmany::fstree::{DirNode, FileNode, FsEntry};
use howmany::journal::Report;
use howmany::lines::LineCounter;
use howmany::walker::run_journal;

fn file(name: &str, content: &str) -> FsEntry {
    FsEntry::File(FileNode { name: name.to_string(), content: Some(content.to_string()) })
}

fn unreadable(name: &str) -> FsEntry {
    FsEntry::File(FileNode { name: name.to_string(), content: None })
}

fn dir(name: &str, entries: Vec<FsEntry>) -> FsEntry {
    FsEntry::Dir(DirNode { name: name.to_string(), entries })
}

fn config(ignores: &[&str], accept: &[&str], threshold: u64) -> Config {
    Config::new(
        ignores.iter().map(|s| s.to_string()).collect(),
        accept.iter().map(|s| s.to_string()).collect(),
        threshold,
    )
}

fn lines_report(r: Report) -> (Vec<(String, u64)>, u64) {
    match r {
        Report::Lines(l) => {
            (l.records.into_iter().map(|rec| (rec.path, rec.lines)).collect(), l.total)
        },
        Report::Todos(_) => panic!("expected a line report"),
    }
}

#[test]
fn concrete_two_dir_scenario() {
    let root = DirNode {
        name: "r".to_string(),
        entries: vec![
            dir("a", vec![file("x.py", "l1\nl2"), file("y.txt", "ignored")]),
            dir("b", vec![file("z.py", "1\n2\n3\n4\n5")]),
        ],
    };
    let cfg = config(&[], &["py"], 100);
    let mut j = LineCounter::new();
    let (skips, rep) = run_journal(&"r".to_string(), &root, &cfg, &mut j);
    assert_eq!(skips.len(), 0);
    let (recs, total) = lines_report(rep);
    assert_eq!(total, 7);
    assert_eq!(recs.len(), 2);
    assert_eq!(recs[0], ("r/a/x.py".to_string(), 2));
    assert_eq!(recs[1], ("r/b/z.py".to_string(), 5));
}

#[test]
fn skip_heuristic_triggers_and_counter_resets() {
    // threshold - 1 misses, one hit (counter resets), then threshold misses:
    // exactly one skip record, and the middle file is observed.
    let root = DirNode {
        name: "noisy".to_string(),
        entries: vec![
            file("m1.txt", "x"),
            file("m2.txt", "x"),
            file("hit.py", "a\nb"),
            file("m3.txt", "x"),
            file("m4.txt", "x"),
            file("m5.txt", "x"),
        ],
    };
    let cfg = config(&[], &["py"], 3);
    let mut j = LineCounter::new();
    let (skips, rep) = run_journal(&"noisy".to_string(), &root, &cfg, &mut j);
    assert_eq!(skips, vec!["noisy".to_string()]);
    let (recs, total) = lines_report(rep);
    assert_eq!(recs, vec![("noisy/hit.py".to_string(), 2)]);
    assert_eq!(total, 2);
}

#[test]
fn threshold_one_first_miss_abandons_directory() {
    let root = DirNode {
        name: "d".to_string(),
        entries: vec![file("readme.txt", "hello"), file("late.py", "a")],
    };
    let cfg = config(&[], &["py"], 1);
    let mut j = LineCounter::new();
    let (skips, rep) = run_journal(&"d".to_string(), &root, &cfg, &mut j);
    assert_eq!(skips, vec!["d".to_string()]);
    let (recs, total) = lines_report(rep);
    assert_eq!(recs.len(), 0);
    assert_eq!(total, 0);
}

#[test]
fn subdirectories_walked_before_skip_stay_walked() {
    // the subdirectory is processed before the miss streak abandons the
    // parent, and its observation is kept.
    let root = DirNode {
        name: "p".to_string(),
        entries: vec![
            dir("sub", vec![file("keep.py", "a")]),
            file("m1.txt", "x"),
            file("m2.txt", "x"),
        ],
    };
    let cfg = config(&[], &["py"], 2);
    let mut j = LineCounter::new();
    let (skips, rep) = run_journal(&"p".to_string(), &root, &cfg, &mut j);
    assert_eq!(skips, vec!["p".to_string()]);
    let (recs, _) = lines_report(rep);
    assert_eq!(recs, vec![("p/sub/keep.py".to_string(), 1)]);
}

#[test]
fn ignored_directory_not_descended_and_not_recorded() {
    let root = DirNode {
        name: "r".to_string(),
        entries: vec![
            dir("node_modules", vec![file("dep.py", "a\nb\nc")]),
            file("main.py", "x"),
        ],
    };
    let cfg = config(&["node"], &["py"], 100);
    let mut j = LineCounter::new();
    let (skips, rep) = run_journal(&"r".to_string(), &root, &cfg, &mut j);
    assert_eq!(skips.len(), 0);
    let (recs, _) = lines_report(rep);
    assert_eq!(recs, vec![("r/main.py".to_string(), 1)]);
}

#[test]
fn miss_counter_is_per_directory_level() {
    // misses in a subdirectory do not count toward the parent's streak
    let root = DirNode {
        name: "r".to_string(),
        entries: vec![
            file("m1.txt", "x"),
            dir("sub", vec![file("m2.txt", "x")]),
            file("hit.py", "a"),
        ],
    };
    let cfg = config(&[], &["py"], 2);
    let mut j = LineCounter::new();
    let (skips, rep) = run_journal(&"r".to_string(), &root, &cfg, &mut j);
    // the subdirectory itself is abandoned after one miss? no: threshold 2,
    // one miss only, so no skip there; parent saw one miss then a hit.
    assert_eq!(skips.len(), 0);
    let (recs, _) = lines_report(rep);
    assert_eq!(recs, vec![("r/hit.py".to_string(), 1)]);
}

#[test]
fn running_twice_gives_identical_reports() {
    let root = DirNode {
        name: "r".to_string(),
        entries: vec![
            file("a.py", "1\n2\n3"),
            unreadable("broken.py"),
            dir("s", vec![file("b.py", "x")]),
        ],
    };
    let cfg = config(&[], &["py"], 100);
    let mut j1 = LineCounter::new();
    let (sk1, rep1) = run_journal(&"r".to_string(), &root, &cfg, &mut j1);
    let mut j2 = LineCounter::new();
    let (sk2, rep2) = run_journal(&"r".to_string(), &root, &cfg, &mut j2);
    assert_eq!(sk1, sk2);
    let (recs1, t1) = lines_report(rep1);
    let (recs2, t2) = lines_report(rep2);
    assert_eq!(recs1, recs2);
    assert_eq!(t1, t2);
}

#[test]
fn empty_accept_list_collects_nothing() {
    let root = DirNode {
        name: "r".to_string(),
        entries: vec![dir("a", vec![file("x.py", "1\n2")])],
    };
    let cfg = config(&[], &[], 100);
    let mut j = LineCounter::new();
    let (_, rep) = run_journal(&"r".to_string(), &root, &cfg, &mut j);
    let (recs, total) = lines_report(rep);
    assert_eq!(recs.len(), 0);
    assert_eq!(total, 0);
}

#[test]
fn other_entries_count_neither_as_hit_nor_miss() {
    let root = DirNode {
        name: "r".to_string(),
        entries: vec![
            file("m1.txt", "x"),
            FsEntry::Other,
            FsEntry::Other,
            file("m2.txt", "x"),
        ],
    };
    // threshold 2: the two misses reach it even with `Other` entries between
    let cfg = config(&[], &["py"], 2);
    let mut j = LineCounter::new();
    let (skips, _) = run_journal(&"r".to_string(), &root, &cfg, &mut j);
    assert_eq!(skips, vec!["r".to_string()]);
}
