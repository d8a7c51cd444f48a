use howmany::journal::{Journal, Report};
use howmany::lines::{CollectJournal, LineCounter};

fn lines_report(r: Report) -> (Vec<(String, u64)>, u64) {
    match r {
        Report::Lines(l) => {
            (l.records.into_iter().map(|rec| (rec.path, rec.lines)).collect(), l.total)
        },
        Report::Todos(_) => panic!("expected a line report"),
    }
}

#[test]
fn counting_is_by_newline_delimited_segments() {
    let mut j = LineCounter::new();
    let empty = "".to_string();
    let no_trailing = "a\nb".to_string();
    let trailing = "a\nb\n".to_string();
    j.observe("empty".to_string(), Some(&empty));
    j.observe("no_trailing".to_string(), Some(&no_trailing));
    j.observe("trailing".to_string(), Some(&trailing));
    let (recs, total) = lines_report(j.summary());
    // an empty file is one segment; a trailing newline adds one
    assert_eq!(recs[0], ("empty".to_string(), 1));
    assert_eq!(recs[1], ("no_trailing".to_string(), 2));
    assert_eq!(recs[2], ("trailing".to_string(), 3));
    assert_eq!(total, 6);
}

#[test]
fn summary_is_sorted_ascending_by_count() {
    let mut j = LineCounter::new();
    let three = "1\n2\n3".to_string();
    let one = "1".to_string();
    let two = "1\n2".to_string();
    j.observe("three".to_string(), Some(&three));
    j.observe("one".to_string(), Some(&one));
    j.observe("two".to_string(), Some(&two));
    let (recs, total) = lines_report(j.summary());
    assert_eq!(
        recs,
        vec![
            ("one".to_string(), 1),
            ("two".to_string(), 2),
            ("three".to_string(), 3),
        ]
    );
    assert_eq!(total, 6);
    for w in recs.windows(2) {
        assert!(w[0].1 <= w[1].1);
    }
}

#[test]
fn sort_is_stable_on_equal_counts() {
    let mut j = LineCounter::new();
    let a = "x\ny".to_string();
    let b = "p\nq".to_string();
    let small = "s".to_string();
    j.observe("first".to_string(), Some(&a));
    j.observe("second".to_string(), Some(&b));
    j.observe("small".to_string(), Some(&small));
    let (recs, _) = lines_report(j.summary());
    assert_eq!(
        recs,
        vec![
            ("small".to_string(), 1),
            ("first".to_string(), 2),
            ("second".to_string(), 2),
        ]
    );
}

#[test]
fn unreadable_files_are_skipped_silently() {
    let mut j = LineCounter::new();
    let ok = "a\nb".to_string();
    j.observe("gone".to_string(), None);
    j.observe("ok".to_string(), Some(&ok));
    let (recs, total) = lines_report(j.summary());
    assert_eq!(recs, vec![("ok".to_string(), 2)]);
    assert_eq!(total, 2);
}

#[test]
fn deferred_journal_reports_identical_records_and_total() {
    let contents = vec![
        ("a".to_string(), Some("1\n2\n3".to_string())),
        ("b".to_string(), None),
        ("c".to_string(), Some("".to_string())),
        ("d".to_string(), Some("x\n".to_string())),
    ];
    let mut seq_j = LineCounter::new();
    let mut par_j = CollectJournal::new();
    for (path, content) in &contents {
        seq_j.observe(path.clone(), content.as_ref());
        par_j.observe(path.clone(), content.as_ref());
    }
    let (r1, t1) = lines_report(seq_j.summary());
    let (r2, t2) = lines_report(par_j.summary());
    assert_eq!(r1, r2);
    assert_eq!(t1, t2);
    assert_eq!(t1, 6);
}

#[test]
fn deferred_journal_observe_is_pure_bookkeeping() {
    let mut j = CollectJournal::new();
    let content = "a\nb\nc".to_string();
    j.observe("f".to_string(), Some(&content));
    // nothing is counted until summary
    assert_eq!(j.codes.len(), 1);
    let (recs, total) = lines_report(j.summary());
    assert_eq!(recs, vec![("f".to_string(), 3)]);
    assert_eq!(total, 3);
}
