//! The two line-counting journals and their shared counting and sorting
//! logic.
//!
//! Counting convention: a file's line count is the number of
//! newline-delimited segments, i.e. one more than the number of `'\n'`
//! characters, so an empty file counts as one line and a trailing newline
//! adds one. Both journals use this convention, list only readable
//! files, and sort the per-file records ascending by line count with a
//! stable sort. The running total saturates at the machine's largest
//! 64-bit value instead of overflowing.

use vstd::prelude::*;
use crate::chars::to_chars;
use crate::journal::{
    obs_of, recs_view, FileRecord, FileRecordV, Journal, LineReport, LineReportV, Observation,
    Report, ReportV,
};

verus! {

/// Number of `'\n'` characters in `c`.
pub open spec fn newline_count(c: Seq<char>) -> int
    decreases c.len(),
{
    if c.len() == 0 {
        0
    } else {
        newline_count(c.drop_last()) + if c.last() == '\n' {
            1int
        } else {
            0int
        }
    }
}

/// The reported line count of a file's contents: its newline-delimited
/// segments.
pub open spec fn lines_of(c: Seq<char>) -> int {
    newline_count(c) + 1
}

/// Addition that saturates at `u64::MAX`.
pub open spec fn sat_add(a: int, b: int) -> int {
    if a + b > u64::MAX {
        u64::MAX as int
    } else {
        a + b
    }
}

/// The per-file records a line-counting journal owes for a history of
/// observations: one record per readable file, in observation order.
pub open spec fn line_records(obs: Seq<Observation>) -> Seq<FileRecordV>
    decreases obs.len(),
{
    if obs.len() == 0 {
        Seq::empty()
    } else {
        line_records(obs.drop_last()) + match obs.last().content {
            Some(c) => seq![FileRecordV { path: obs.last().path, lines: lines_of(c) }],
            None => Seq::<FileRecordV>::empty(),
        }
    }
}

/// The total line count for a history of observations, saturating.
pub open spec fn total_lines(obs: Seq<Observation>) -> int
    decreases obs.len(),
{
    if obs.len() == 0 {
        0
    } else {
        match obs.last().content {
            Some(c) => sat_add(total_lines(obs.drop_last()), lines_of(c)),
            None => total_lines(obs.drop_last()),
        }
    }
}

/// Insertion of `x` into `s` after every element whose count is at most
/// `x`'s: the step of a stable insertion sort.
pub open spec fn insert_record(s: Seq<FileRecordV>, x: FileRecordV) -> Seq<FileRecordV>
    decreases s.len(),
{
    if s.len() == 0 {
        seq![x]
    } else if s.last().lines <= x.lines {
        s.push(x)
    } else {
        insert_record(s.drop_last(), x).push(s.last())
    }
}

/// The stable sort of the records, ascending by line count.
pub open spec fn sort_records(s: Seq<FileRecordV>) -> Seq<FileRecordV>
    decreases s.len(),
{
    if s.len() == 0 {
        Seq::empty()
    } else {
        insert_record(sort_records(s.drop_last()), s.last())
    }
}

/// Non-decreasing in line count from first to last entry.
pub open spec fn sorted_by_lines(s: Seq<FileRecordV>) -> bool {
    forall|i: int, j: int| 0 <= i <= j < s.len() ==> s[i].lines <= s[j].lines
}

/// The report a line-counting journal owes for a history of observations.
pub open spec fn line_report_of(obs: Seq<Observation>) -> ReportV {
    ReportV::Lines(
        LineReportV { records: sort_records(line_records(obs)), total: total_lines(obs) },
    )
}

/// Counts the newline-delimited segments of `content`.
pub fn count_lines(content: &str) -> (r: u64)
    requires
        content@.len() < usize::MAX,
    ensures
        r as int == lines_of(content@),
{
    let cs = to_chars(content);
    let n: usize = cs.len();
    let mut nl: u64 = 0;
    let mut i: usize = 0;
    while i < n
        invariant
            cs@ == content@,
            n == cs@.len(),
            n < usize::MAX,
            i <= n,
            nl as int == newline_count(cs@.take(i as int)),
            nl <= i,
        decreases n - i,
    {
        proof {
            assert(cs@.take(i + 1).drop_last() =~= cs@.take(i as int));
            assert(cs@.take(i + 1).last() == cs@[i as int]);
        }
        if cs[i] == '\n' {
            nl = nl + 1;
        }
        i = i + 1;
    }
    proof {
        assert(cs@.take(n as int) =~= cs@);
    }
    nl + 1
}

/// Addition on `u64` that saturates instead of overflowing.
pub fn add_sat(a: u64, b: u64) -> (r: u64)
    ensures
        r as int == sat_add(a as int, b as int),
{
    if b > u64::MAX - a {
        u64::MAX
    } else {
        a + b
    }
}

proof fn lemma_insert_record_split(s: Seq<FileRecordV>, x: FileRecordV, j: int)
    requires
        0 <= j <= s.len(),
        forall|k: int| j <= k < s.len() ==> s[k].lines > x.lines,
        j > 0 ==> s[j - 1].lines <= x.lines,
    ensures
        insert_record(s, x) == s.take(j) + seq![x] + s.skip(j),
    decreases s.len(),
{
    if s.len() == 0 {
        assert(insert_record(s, x) =~= s.take(j) + seq![x] + s.skip(j));
    } else if j == s.len() {
        assert(s.last().lines <= x.lines);
        assert(insert_record(s, x) == s.push(x));
        assert(s.push(x) =~= s.take(j) + seq![x] + s.skip(j));
    } else {
        assert(s[s.len() - 1].lines > x.lines);
        lemma_insert_record_split(s.drop_last(), x, j);
        assert(insert_record(s, x) == insert_record(s.drop_last(), x).push(s.last()));
        assert(s.drop_last().take(j) =~= s.take(j));
        assert((s.drop_last().take(j) + seq![x] + s.drop_last().skip(j)).push(s.last()) =~= s.take(
            j,
        ) + seq![x] + s.skip(j));
    }
}

/// Every element of `insert_record(s, x)` is `x` or an element of `s`.
proof fn lemma_insert_record_elems(s: Seq<FileRecordV>, x: FileRecordV)
    ensures
        insert_record(s, x).len() == s.len() + 1,
        forall|k: int|
            0 <= k < insert_record(s, x).len() ==> insert_record(s, x)[k] == x || exists|q: int|
                0 <= q < s.len() && insert_record(s, x)[k] == s[q],
    decreases s.len(),
{
    if s.len() == 0 {
    } else if s.last().lines <= x.lines {
    } else {
        lemma_insert_record_elems(s.drop_last(), x);
        assert forall|k: int| 0 <= k < insert_record(s, x).len() implies insert_record(s, x)[k]
            == x || exists|q: int| 0 <= q < s.len() && insert_record(s, x)[k] == s[q] by {
            let r = insert_record(s.drop_last(), x);
            if k < r.len() {
                if r[k] == x {
                } else {
                    let q = choose|q: int| 0 <= q < s.drop_last().len() && r[k] == s.drop_last()[q];
                    assert(insert_record(s, x)[k] == s[q]);
                }
            } else {
                assert(insert_record(s, x)[k] == s[s.len() - 1]);
            }
        }
    }
}

proof fn lemma_insert_record_sorted(s: Seq<FileRecordV>, x: FileRecordV)
    requires
        sorted_by_lines(s),
    ensures
        sorted_by_lines(insert_record(s, x)),
    decreases s.len(),
{
    if s.len() == 0 {
    } else if s.last().lines <= x.lines {
        assert forall|i: int, j: int|
            0 <= i <= j < s.push(x).len() implies s.push(x)[i].lines <= s.push(x)[j].lines by {
            if j < s.len() {
            } else {
                if i < s.len() {
                    assert(s[i].lines <= s[s.len() - 1].lines);
                }
            }
        }
    } else {
        assert(sorted_by_lines(s.drop_last()));
        lemma_insert_record_sorted(s.drop_last(), x);
        lemma_insert_record_elems(s.drop_last(), x);
        let r = insert_record(s.drop_last(), x);
        assert forall|i: int, j: int|
            0 <= i <= j < r.push(s.last()).len() implies r.push(s.last())[i].lines <= r.push(
            s.last(),
        )[j].lines by {
            if j < r.len() {
            } else {
                if i < r.len() {
                    if r[i] == x {
                        assert(x.lines <= s.last().lines);
                    } else {
                        let q = choose|q: int|
                            0 <= q < s.drop_last().len() && r[i] == s.drop_last()[q];
                        assert(s[q].lines <= s[s.len() - 1].lines);
                    }
                }
            }
        }
    }
}

/// The stable sort always yields a non-decreasing sequence.
pub proof fn lemma_sort_records_sorted(s: Seq<FileRecordV>)
    ensures
        sorted_by_lines(sort_records(s)),
    decreases s.len(),
{
    if s.len() == 0 {
    } else {
        lemma_sort_records_sorted(s.drop_last());
        lemma_insert_record_sorted(sort_records(s.drop_last()), s.last());
    }
}

/// Inserts a copy of `x` into the sorted vector, after every element
/// whose count is at most `x`'s.
fn insert_sorted_record(out: &mut Vec<FileRecord>, x: FileRecord)
    ensures
        recs_view(final(out)@) == insert_record(recs_view(old(out)@), x@),
{
    let mut j: usize = out.len();
    while j > 0 && out[j - 1].lines > x.lines
        invariant
            j <= out@.len(),
            out@.len() <= usize::MAX,
            forall|k: int| j <= k < out@.len() ==> out@[k].lines > x.lines,
        decreases j,
    {
        j = j - 1;
    }
    proof {
        let s = recs_view(out@);
        assert forall|k: int| j <= k < s.len() implies s[k].lines > x@.lines by {
            assert(s[k] == out@[k]@);
        }
        if j > 0 {
            assert(s[j - 1] == out@[j - 1]@);
        }
        lemma_insert_record_split(s, x@, j as int);
    }
    let ghost before = recs_view(out@);
    out.insert(j, x);
    proof {
        assert(recs_view(out@) =~= before.take(j as int) + seq![x@] + before.skip(j as int));
    }
}

/// Stable insertion sort of the records, ascending by line count.
pub fn sort_file_records(v: &Vec<FileRecord>) -> (out: Vec<FileRecord>)
    ensures
        recs_view(out@) == sort_records(recs_view(v@)),
{
    let mut out: Vec<FileRecord> = Vec::new();
    let mut i: usize = 0;
    while i < v.len()
        invariant
            i <= v@.len(),
            recs_view(out@) == sort_records(recs_view(v@.take(i as int))),
        decreases v@.len() - i,
    {
        let x = FileRecord { path: v[i].path.clone(), lines: v[i].lines };
        proof {
            assert(x@ == v@[i as int]@);
            assert(recs_view(v@.take(i + 1)).drop_last() =~= recs_view(v@.take(i as int)));
            assert(recs_view(v@.take(i + 1)).last() == v@[i as int]@);
        }
        insert_sorted_record(&mut out, x);
        i = i + 1;
    }
    proof {
        assert(v@.take(v@.len() as int) =~= v@);
    }
    out
}

/// The sequential line counter: counts each readable file as it is
/// observed and keeps a running, saturating total.
pub struct LineCounter {
    pub total_line: u64,
    pub per_file_log: Vec<FileRecord>,
    pub history: Ghost<Seq<Observation>>,
}

impl LineCounter {
    pub fn new() -> (j: LineCounter)
        ensures
            j.inv(),
            j.obs() == Seq::<Observation>::empty(),
    {
        let j = LineCounter {
            total_line: 0,
            per_file_log: Vec::new(),
            history: Ghost(Seq::empty()),
        };
        proof {
            assert(recs_view(j.per_file_log@) =~= line_records(j.history@));
        }
        j
    }
}

impl Journal for LineCounter {
    open spec fn inv(&self) -> bool {
        &&& recs_view(self.per_file_log@) == line_records(self.history@)
        &&& self.total_line as int == total_lines(self.history@)
    }

    open spec fn obs(&self) -> Seq<Observation> {
        self.history@
    }

    open spec fn report_view(&self) -> ReportV {
        line_report_of(self.history@)
    }

    fn observe(&mut self, fpath: String, content: Option<&String>) {
        let ghost o = obs_of(fpath@, content);
        let ghost h0 = self.history@;
        match content {
            Some(c) => {
                let n = count_lines(c.as_str());
                self.total_line = add_sat(self.total_line, n);
                self.per_file_log.push(FileRecord { path: fpath, lines: n });
                proof {
                    self.history@ = h0.push(o);
                    assert(self.history@.drop_last() =~= h0);
                    assert(recs_view(self.per_file_log@) =~= line_records(self.history@));
                }
            },
            None => {
                proof {
                    self.history@ = h0.push(o);
                    assert(self.history@.drop_last() =~= h0);
                    assert(line_records(self.history@) =~= line_records(h0));
                }
            },
        }
    }

    fn summary(&self) -> (r: Report) {
        let sorted = sort_file_records(&self.per_file_log);
        Report::Lines(LineReport { records: sorted, total: self.total_line })
    }
}

/// One recorded file of the deferred line counter.
pub struct CollectedFile {
    pub path: String,
    pub content: Option<String>,
}

/// What the deferred journal knows of one recorded file.
pub open spec fn collected_obs(f: CollectedFile) -> Observation {
    Observation { path: f.path@, content: crate::fstree::content_view(f.content) }
}

pub open spec fn collected_view(s: Seq<CollectedFile>) -> Seq<Observation> {
    s.map_values(|f: CollectedFile| collected_obs(f))
}

/// The deferred line counter: `observe` is pure bookkeeping, and all
/// counting, filtering of unreadable files, sorting and totalling happen
/// in `summary`. It owes the same report as the sequential counter.
pub struct CollectJournal {
    pub codes: Vec<CollectedFile>,
}

impl CollectJournal {
    pub fn new() -> (j: CollectJournal)
        ensures
            j.inv(),
            j.obs() == Seq::<Observation>::empty(),
    {
        let j = CollectJournal { codes: Vec::new() };
        proof {
            assert(collected_view(j.codes@) =~= Seq::<Observation>::empty());
        }
        j
    }
}

impl Journal for CollectJournal {
    open spec fn inv(&self) -> bool {
        forall|i: int|
            0 <= i < self.codes@.len() ==> ((#[trigger] self.codes@[i]).content is Some
                ==> self.codes@[i].content->0@.len() < usize::MAX)
    }

    open spec fn obs(&self) -> Seq<Observation> {
        collected_view(self.codes@)
    }

    open spec fn report_view(&self) -> ReportV {
        line_report_of(collected_view(self.codes@))
    }

    fn observe(&mut self, fpath: String, content: Option<&String>) {
        let ghost o = obs_of(fpath@, content);
        let stored: Option<String> = match content {
            Some(c) => Some(c.clone()),
            None => None,
        };
        self.codes.push(CollectedFile { path: fpath, content: stored });
        proof {
            assert(collected_view(self.codes@) =~= collected_view(old(self).codes@).push(o));
        }
    }

    fn summary(&self) -> (r: Report) {
        let mut recs: Vec<FileRecord> = Vec::new();
        let mut total: u64 = 0;
        let mut i: usize = 0;
        while i < self.codes.len()
            invariant
                self.inv(),
                i <= self.codes@.len(),
                recs_view(recs@) == line_records(collected_view(self.codes@).take(i as int)),
                total as int == total_lines(collected_view(self.codes@).take(i as int)),
            decreases self.codes@.len() - i,
        {
            let ghost pre = collected_view(self.codes@).take(i as int);
            proof {
                assert(collected_view(self.codes@).take(i + 1).drop_last() =~= pre);
                assert(collected_view(self.codes@).take(i + 1).last() == collected_obs(
                    self.codes@[i as int],
                ));
            }
            match &self.codes[i].content {
                Some(c) => {
                    let n = count_lines(c.as_str());
                    total = add_sat(total, n);
                    recs.push(FileRecord { path: self.codes[i].path.clone(), lines: n });
                    proof {
                        assert(recs_view(recs@) =~= line_records(
                            collected_view(self.codes@).take(i + 1),
                        ));
                    }
                },
                None => {},
            }
            i = i + 1;
        }
        proof {
            assert(collected_view(self.codes@).take(self.codes@.len() as int) =~= collected_view(
                self.codes@,
            ));
        }
        let sorted = sort_file_records(&recs);
        Report::Lines(LineReport { records: sorted, total })
    }
}

/// Sorting law: the record list a line-counting journal owes is
/// non-decreasing in line count from first to last entry, for any
/// history of observations.
pub proof fn lemma_line_report_sorted(obs: Seq<Observation>)
    ensures
        sorted_by_lines(line_report_of(obs)->Lines_0.records),
{
    lemma_sort_records_sorted(line_records(obs));
}

/// Reports depend on the observation history alone: two line counters
/// that observed the same files report identical records and totals, so
/// a second run over an unchanged tree repeats the first run's report.
pub proof fn lemma_line_counter_idempotent(a: LineCounter, b: LineCounter)
    requires
        a.inv(),
        b.inv(),
        a.obs() == b.obs(),
    ensures
        a.report_view() == b.report_view(),
{
}

/// The deferred counter owes exactly the sequential counter's report for
/// the same observation history: identical records and identical total.
pub proof fn lemma_collect_matches_line_counter(a: LineCounter, b: CollectJournal)
    requires
        a.inv(),
        b.inv(),
        a.obs() == b.obs(),
    ensures
        a.report_view() == b.report_view(),
{
}

} // verus!
