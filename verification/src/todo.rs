//! The TODO-comment journal: per-line extraction and tag grouping.
//!
//! A line carries a TODO when, after trimming leading and trailing
//! whitespace, it contains the marker `TODO[` followed by at least one
//! non-whitespace character and a closing `]` inside the same
//! non-whitespace run. The match starts at the first such marker; the
//! tag is the longest candidate, i.e. it runs to the last closing
//! bracket of that run. The recorded message is the whole matched span,
//! from the marker to the end of the trimmed line, and tag and message
//! come from the one parse, so their spans index the same text.
//! Files are split into lines at `'\n'`, dropping one trailing `'\r'`
//! per line; lines are numbered from 1. Unreadable files contribute
//! nothing.

use vstd::prelude::*;
use vstd::string::StrSliceExecFns;
use crate::chars::{is_whitespace_char, is_ws_char, to_chars};
use crate::journal::{
    items_view, obs_of, Journal, Observation, Report, ReportV, TodoGroup, TodoGroupV, TodoItem,
    TodoItemV, TodoReport, TodoReportV,
};

verus! {

/// First `'\n'` at or after `i`, or the length of `c`.
pub open spec fn find_nl(c: Seq<char>, i: int) -> int
    decreases c.len() - i,
{
    if i >= c.len() {
        c.len() as int
    } else if c[i] == '\n' {
        i
    } else {
        find_nl(c, i + 1)
    }
}

/// First index in `[p, hi)` holding a non-whitespace character, or `hi`.
pub open spec fn ws_run_end(c: Seq<char>, p: int, hi: int) -> int
    decreases hi - p,
{
    if p >= hi || !is_ws_char(c[p]) {
        p
    } else {
        ws_run_end(c, p + 1, hi)
    }
}

/// End of the trimmed text in `[lo, q)`: strips trailing whitespace.
pub open spec fn trim_back(c: Seq<char>, lo: int, q: int) -> int
    decreases q - lo,
{
    if q <= lo || !is_ws_char(c[q - 1]) {
        q
    } else {
        trim_back(c, lo, q - 1)
    }
}

/// First index in `[p, hi)` holding a whitespace character, or `hi`: the
/// end of the non-whitespace run starting at `p`.
pub open spec fn nonws_run_end(c: Seq<char>, p: int, hi: int) -> int
    decreases hi - p,
{
    if p >= hi || is_ws_char(c[p]) {
        p
    } else {
        nonws_run_end(c, p + 1, hi)
    }
}

/// Largest index in `[lo, hi)` holding `']'`, or `-1`.
pub open spec fn last_close(c: Seq<char>, lo: int, hi: int) -> int
    decreases hi - lo,
{
    if hi <= lo {
        -1
    } else if c[hi - 1] == ']' {
        hi - 1
    } else {
        last_close(c, lo, hi - 1)
    }
}

/// The literal marker `TODO[` stands at `i`, within bounds `hi`.
pub open spec fn marker_at(c: Seq<char>, i: int, hi: int) -> bool {
    &&& 0 <= i
    &&& i + 5 <= hi
    &&& c[i] == 'T'
    &&& c[i + 1] == 'O'
    &&& c[i + 2] == 'D'
    &&& c[i + 3] == 'O'
    &&& c[i + 4] == '['
}

/// The closing bracket of the tag opened at marker `i`: the last `']'`
/// inside the non-whitespace run after the marker, leaving a non-empty
/// tag; `-1` when there is none.
pub open spec fn close_of(c: Seq<char>, i: int, hi: int) -> int {
    last_close(c, i + 6, nonws_run_end(c, i + 5, hi))
}

/// A complete TODO match starts at `i`.
pub open spec fn valid_at(c: Seq<char>, i: int, hi: int) -> bool {
    marker_at(c, i, hi) && close_of(c, i, hi) >= 0
}

/// First index in `[lo, hi)` where a complete match starts, or `-1`.
pub open spec fn first_marker(c: Seq<char>, lo: int, hi: int) -> int
    decreases hi - lo,
{
    if lo + 5 > hi {
        -1
    } else if valid_at(c, lo, hi) {
        lo
    } else {
        first_marker(c, lo + 1, hi)
    }
}

/// The TODO items of the line `c[lo..hi)` (at most one).
pub open spec fn line_items(path: Seq<char>, line_no: int, c: Seq<char>, lo: int, hi: int) -> Seq<
    TodoItemV,
> {
    let ts = ws_run_end(c, lo, hi);
    let te = trim_back(c, ts, hi);
    let m = first_marker(c, ts, te);
    if m < 0 {
        Seq::empty()
    } else {
        let k = close_of(c, m, te);
        seq![
            TodoItemV {
                tag: c.subrange(m + 5, k),
                message: c.subrange(m, te),
                path: path,
                line: line_no,
            },
        ]
    }
}

proof fn lemma_find_nl_bounds(c: Seq<char>, i: int)
    requires
        i <= c.len(),
    ensures
        i <= find_nl(c, i) <= c.len(),
    decreases c.len() - i,
{
    if i < c.len() && c[i] != '\n' {
        lemma_find_nl_bounds(c, i + 1);
    }
}

/// The TODO items of the lines of `c` from position `i` on, numbering
/// the line at `i` as `line_no`.
pub open spec fn todos_from(path: Seq<char>, c: Seq<char>, i: int, line_no: int) -> Seq<TodoItemV>
    decreases c.len() - i + 1,
    via todos_from_dec
{
    if i >= c.len() {
        Seq::empty()
    } else {
        let e = find_nl(c, i);
        let le = if e > i && c[e - 1] == '\r' {
            e - 1
        } else {
            e
        };
        line_items(path, line_no, c, i, le) + todos_from(path, c, e + 1, line_no + 1)
    }
}

#[via_fn]
proof fn todos_from_dec(path: Seq<char>, c: Seq<char>, i: int, line_no: int) {
    if i < c.len() {
        lemma_find_nl_bounds(c, i);
    }
}

/// The TODO items of one file's contents, in line order.
pub open spec fn todos_of(path: Seq<char>, c: Seq<char>) -> Seq<TodoItemV> {
    todos_from(path, c, 0, 1)
}

/// The items a TODO journal owes for a history of observations: the
/// items of each readable file, in observation order.
pub open spec fn todo_records(obs: Seq<Observation>) -> Seq<TodoItemV>
    decreases obs.len(),
{
    if obs.len() == 0 {
        Seq::empty()
    } else {
        todo_records(obs.drop_last()) + match obs.last().content {
            Some(c) => todos_of(obs.last().path, c),
            None => Seq::<TodoItemV>::empty(),
        }
    }
}

/// Index of the group carrying `tag`, or `-1`.
pub open spec fn find_group(gs: Seq<TodoGroupV>, tag: Seq<char>) -> int
    decreases gs.len(),
{
    if gs.len() == 0 {
        -1
    } else if gs[0].tag == tag {
        0
    } else {
        let r = find_group(gs.drop_first(), tag);
        if r < 0 {
            -1
        } else {
            r + 1
        }
    }
}

/// Groups the items by tag: groups appear in first-seen tag order, and
/// within a group the items keep their recorded order.
pub open spec fn group_todos(items: Seq<TodoItemV>) -> Seq<TodoGroupV>
    decreases items.len(),
{
    if items.len() == 0 {
        Seq::empty()
    } else {
        let gs = group_todos(items.drop_last());
        let it = items.last();
        let idx = find_group(gs, it.tag);
        if idx < 0 {
            gs.push(TodoGroupV { tag: it.tag, items: seq![it] })
        } else {
            gs.update(idx, TodoGroupV { tag: gs[idx].tag, items: gs[idx].items.push(it) })
        }
    }
}

/// The report a TODO journal owes for a history of observations.
pub open spec fn todo_report_of(obs: Seq<Observation>) -> ReportV {
    ReportV::Todos(
        TodoReportV {
            groups: group_todos(todo_records(obs)),
            count: todo_records(obs).len() as int,
        },
    )
}

proof fn lemma_ws_run_end_at(c: Seq<char>, lo: int, r: int, hi: int)
    requires
        lo <= r <= hi,
        forall|k: int| lo <= k < r ==> is_ws_char(c[k]),
        r < hi ==> !is_ws_char(c[r]),
    ensures
        ws_run_end(c, lo, hi) == r,
    decreases r - lo,
{
    if lo < r {
        lemma_ws_run_end_at(c, lo + 1, r, hi);
    }
}

proof fn lemma_trim_back_at(c: Seq<char>, lo: int, r: int, hi: int)
    requires
        lo <= r <= hi,
        forall|k: int| r <= k < hi ==> is_ws_char(c[k]),
        r > lo ==> !is_ws_char(c[r - 1]),
    ensures
        trim_back(c, lo, hi) == r,
    decreases hi - r,
{
    if r < hi {
        lemma_trim_back_at(c, lo, r, hi - 1);
    }
}

proof fn lemma_nonws_run_end_at(c: Seq<char>, lo: int, r: int, hi: int)
    requires
        lo <= r <= hi,
        forall|k: int| lo <= k < r ==> !is_ws_char(c[k]),
        r < hi ==> is_ws_char(c[r]),
    ensures
        nonws_run_end(c, lo, hi) == r,
    decreases r - lo,
{
    if lo < r {
        lemma_nonws_run_end_at(c, lo + 1, r, hi);
    }
}

proof fn lemma_find_nl_at(c: Seq<char>, i: int, r: int)
    requires
        0 <= i <= r <= c.len(),
        forall|k: int| i <= k < r ==> c[k] != '\n',
        r < c.len() ==> c[r] == '\n',
    ensures
        find_nl(c, i) == r,
    decreases r - i,
{
    if i < r {
        lemma_find_nl_at(c, i + 1, r);
    }
}

proof fn lemma_first_marker_at(c: Seq<char>, lo: int, p: int, hi: int)
    requires
        lo <= p,
        p + 5 <= hi,
        forall|q: int| lo <= q < p ==> !valid_at(c, q, hi),
        valid_at(c, p, hi),
    ensures
        first_marker(c, lo, hi) == p,
    decreases p - lo,
{
    if lo < p {
        lemma_first_marker_at(c, lo + 1, p, hi);
    }
}

proof fn lemma_first_marker_none(c: Seq<char>, lo: int, hi: int)
    requires
        forall|q: int| lo <= q && q + 5 <= hi ==> !valid_at(c, q, hi),
    ensures
        first_marker(c, lo, hi) == -1,
    decreases hi - lo,
{
    if lo + 5 <= hi {
        lemma_first_marker_none(c, lo + 1, hi);
    }
}

/// Scans one line, `cs[lo..hi)`, for a TODO match. Returns the marker
/// position, the tag's closing bracket, and the end of the trimmed line.
fn scan_line(cs: &Vec<char>, lo: usize, hi: usize) -> (r: Option<(usize, usize, usize)>)
    requires
        lo <= hi <= cs@.len(),
        cs@.len() < usize::MAX,
    ensures
        ({
            let c = cs@;
            let ts = ws_run_end(c, lo as int, hi as int);
            let te = trim_back(c, ts, hi as int);
            let m = first_marker(c, ts, te);
            match r {
                None => m < 0,
                Some((mm, kk, tt)) => {
                    &&& m >= 0
                    &&& mm as int == m
                    &&& kk as int == close_of(c, m, te)
                    &&& tt as int == te
                    &&& mm + 6 <= kk
                    &&& kk < tt
                    &&& tt <= hi
                },
            }
        }),
{
    let ghost c = cs@;
    let len: usize = cs.len();
    // trim the line
    let mut ts: usize = lo;
    while ts < hi && is_whitespace_char(cs[ts])
        invariant
            lo <= ts <= hi <= len,
            len == c.len(),
            c == cs@,
            forall|k: int| lo <= k < ts ==> is_ws_char(c[k]),
        decreases hi - ts,
    {
        ts = ts + 1;
    }
    proof {
        lemma_ws_run_end_at(c, lo as int, ts as int, hi as int);
    }
    let mut te: usize = hi;
    while te > ts && is_whitespace_char(cs[te - 1])
        invariant
            lo <= ts <= te <= hi <= len,
            len == c.len(),
            c == cs@,
            forall|k: int| te <= k < hi ==> is_ws_char(c[k]),
        decreases te,
    {
        te = te - 1;
    }
    proof {
        lemma_trim_back_at(c, ts as int, te as int, hi as int);
    }
    if te - ts < 5 {
        proof {
            lemma_first_marker_none(c, ts as int, te as int);
        }
        return None;
    }
    // search for the first complete marker
    let bound: usize = te - 5;
    let mut p: usize = ts;
    while p <= bound
        invariant
            lo <= ts <= p <= bound + 1,
            bound == te - 5,
            ts + 5 <= te <= hi <= len,
            len < usize::MAX,
            len == c.len(),
            c == cs@,
            ws_run_end(c, lo as int, hi as int) == ts as int,
            trim_back(c, ts as int, hi as int) == te as int,
            forall|q: int| ts <= q < p ==> !valid_at(c, q, te as int),
        decreases bound + 1 - p,
    {
        if cs[p] == 'T' && cs[p + 1] == 'O' && cs[p + 2] == 'D' && cs[p + 3] == 'O' && cs[p + 4]
            == '[' {
            // the end of the non-whitespace run after the marker
            let mut m: usize = p + 5;
            while m < te && !is_whitespace_char(cs[m])
                invariant
                    p + 5 <= m <= te <= len,
                    len == c.len(),
                    c == cs@,
                    forall|k: int| p + 5 <= k < m ==> !is_ws_char(c[k]),
                decreases te - m,
            {
                m = m + 1;
            }
            proof {
                lemma_nonws_run_end_at(c, p + 5, m as int, te as int);
            }
            // the last closing bracket inside the run
            let mut kb: Option<usize> = None;
            let mut j: usize = p + 6;
            if j <= m {
                while j < m
                    invariant
                        p + 6 <= j <= m <= te <= len,
                        len == c.len(),
                        c == cs@,
                        match kb {
                            None => last_close(c, p + 6, j as int) == -1,
                            Some(k) => p + 6 <= k < j && last_close(c, p + 6, j as int) == k as int,
                        },
                    decreases m - j,
                {
                    if cs[j] == ']' {
                        kb = Some(j);
                    }
                    j = j + 1;
                }
            }
            proof {
                if p + 6 > m {
                    assert(last_close(c, p + 6, nonws_run_end(c, p + 5, te as int)) == -1);
                }
            }
            match kb {
                Some(k) => {
                    proof {
                        assert(marker_at(c, p as int, te as int));
                        assert(close_of(c, p as int, te as int) == k as int);
                        assert(valid_at(c, p as int, te as int));
                        lemma_first_marker_at(c, ts as int, p as int, te as int);
                    }
                    return Some((p, k, te));
                },
                None => {
                    proof {
                        assert(close_of(c, p as int, te as int) == -1);
                        assert(!valid_at(c, p as int, te as int));
                    }
                },
            }
        } else {
            proof {
                assert(!marker_at(c, p as int, te as int));
            }
        }
        p = p + 1;
    }
    proof {
        assert forall|q: int| ts <= q && q + 5 <= te implies !valid_at(c, q, te as int) by {
            assert(q < p);
        }
        lemma_first_marker_none(c, ts as int, te as int);
    }
    None
}

proof fn lemma_items_view_push(s: Seq<TodoItem>, x: TodoItem)
    ensures
        items_view(s.push(x)) == items_view(s).push(x@),
{
    assert(items_view(s.push(x)) =~= items_view(s).push(x@));
}

/// The TODO journal: extracts the items of each observed readable file.
pub struct TodoCatcher {
    pub todos: Vec<TodoItem>,
    pub history: Ghost<Seq<Observation>>,
}

impl TodoCatcher {
    pub fn new() -> (j: TodoCatcher)
        ensures
            j.inv(),
            j.obs() == Seq::<Observation>::empty(),
    {
        let j = TodoCatcher { todos: Vec::new(), history: Ghost(Seq::empty()) };
        proof {
            assert(items_view(j.todos@) =~= todo_records(j.history@));
        }
        j
    }
}

impl Journal for TodoCatcher {
    open spec fn inv(&self) -> bool {
        items_view(self.todos@) == todo_records(self.history@)
    }

    open spec fn obs(&self) -> Seq<Observation> {
        self.history@
    }

    open spec fn report_view(&self) -> ReportV {
        todo_report_of(self.history@)
    }

    fn observe(&mut self, fpath: String, content: Option<&String>) {
        let ghost o = obs_of(fpath@, content);
        let ghost h0 = self.history@;
        match content {
            Some(s) => {
                let cs = to_chars(s.as_str());
                let ghost c = s@;
                let n: usize = cs.len();
                let ghost t0 = self.todos@;
                let mut i: usize = 0;
                let mut ln: usize = 1;
                while i < n
                    invariant
                        self.history@ == h0,
                        cs@ == c,
                        c == s@,
                        n == c.len(),
                        n < usize::MAX,
                        i <= n + 1,
                        1 <= ln,
                        ln <= i + 1,
                        items_view(self.todos@) + todos_from(fpath@, c, i as int, ln as int)
                            == items_view(t0) + todos_of(fpath@, c),
                    decreases n + 1 - i,
                {
                    // the end of this line
                    let mut e: usize = i;
                    while e < n && cs[e] != '\n'
                        invariant
                            i <= e <= n,
                            n == c.len(),
                            c == cs@,
                            forall|k: int| i <= k < e ==> c[k] != '\n',
                        decreases n - e,
                    {
                        e = e + 1;
                    }
                    proof {
                        lemma_find_nl_at(c, i as int, e as int);
                    }
                    let le: usize = if e > i && cs[e - 1] == '\r' {
                        e - 1
                    } else {
                        e
                    };
                    match scan_line(&cs, i, le) {
                        Some((m, k, te)) => {
                            let tag = s.as_str().substring_char(m + 5, k).to_owned();
                            let msg = s.as_str().substring_char(m, te).to_owned();
                            let ghost before = self.todos@;
                            let item = TodoItem {
                                tag,
                                message: msg,
                                path: fpath.clone(),
                                line: ln,
                            };
                            self.todos.push(item);
                            proof {
                                lemma_items_view_push(before, item);
                                let ts = ws_run_end(c, i as int, le as int);
                                let tee = trim_back(c, ts, le as int);
                                assert(line_items(fpath@, ln as int, c, i as int, le as int)
                                    =~~= seq![item@]);
                                assert(items_view(self.todos@) + todos_from(
                                    fpath@,
                                    c,
                                    e + 1,
                                    ln + 1,
                                ) =~~= items_view(t0) + todos_of(fpath@, c));
                            }
                        },
                        None => {
                            proof {
                                assert(line_items(fpath@, ln as int, c, i as int, le as int)
                                    =~~= Seq::<TodoItemV>::empty());
                                assert(items_view(self.todos@) + todos_from(
                                    fpath@,
                                    c,
                                    e + 1,
                                    ln + 1,
                                ) =~~= items_view(t0) + todos_of(fpath@, c));
                            }
                        },
                    }
                    i = e + 1;
                    ln = ln + 1;
                }
                proof {
                    self.history@ = h0.push(o);
                    assert(self.history@.drop_last() =~= h0);
                    assert(items_view(self.todos@) =~~= items_view(self.todos@) + todos_from(
                        fpath@,
                        c,
                        i as int,
                        ln as int,
                    ));
                    assert(items_view(self.todos@) =~~= todo_records(self.history@));
                }
            },
            None => {
                proof {
                    self.history@ = h0.push(o);
                    assert(self.history@.drop_last() =~= h0);
                    assert(todo_records(self.history@) =~~= todo_records(h0));
                }
            },
        }
    }

    fn summary(&self) -> (r: Report) {
        let mut groups: Vec<TodoGroup> = Vec::new();
        let mut i: usize = 0;
        while i < self.todos.len()
            invariant
                self.inv(),
                i <= self.todos@.len(),
                crate::journal::groups_view(groups@) == group_todos(
                    items_view(self.todos@).take(i as int),
                ),
            decreases self.todos@.len() - i,
        {
            let ghost pre = items_view(self.todos@).take(i as int);
            proof {
                assert(items_view(self.todos@).take(i + 1).drop_last() =~= pre);
                assert(items_view(self.todos@).take(i + 1).last() == self.todos@[i as int]@);
            }
            let it = &self.todos[i];
            let item = TodoItem {
                tag: it.tag.clone(),
                message: it.message.clone(),
                path: it.path.clone(),
                line: it.line,
            };
            proof {
                assert(item@ == self.todos@[i as int]@);
            }
            let mut gi: usize = 0;
            let mut found: bool = false;
            while gi < groups.len() && !found
                invariant
                    gi <= groups@.len(),
                    i < self.todos@.len(),
                    item@ == self.todos@[i as int]@,
                    found ==> gi < groups@.len() && groups@[gi as int].tag@ == item.tag@,
                    forall|q: int|
                        0 <= q < gi ==> crate::journal::groups_view(groups@)[q].tag != item.tag@,
                decreases groups@.len() - gi + (if found {
                    0int
                } else {
                    1int
                }),
            {
                if groups[gi].tag.eq(&item.tag) {
                    found = true;
                } else {
                    proof {
                        assert(crate::journal::groups_view(groups@)[gi as int].tag == groups@[gi
                            as int].tag@);
                    }
                    gi = gi + 1;
                }
            }
            let ghost gsv = crate::journal::groups_view(groups@);
            if found {
                proof {
                    lemma_find_group_at(gsv, item@.tag, gi as int);
                }
                let ghost gitems = groups@[gi as int].items@;
                let ghost itemg = item;
                let g = &mut groups[gi];
                g.items.push(item);
                proof {
                    lemma_items_view_push(gitems, itemg);
                    assert(crate::journal::groups_view(groups@) =~~= gsv.update(
                        gi as int,
                        TodoGroupV {
                            tag: gsv[gi as int].tag,
                            items: gsv[gi as int].items.push(self.todos@[i as int]@),
                        },
                    ));
                    assert(crate::journal::groups_view(groups@) =~~= group_todos(
                        items_view(self.todos@).take(i + 1),
                    ));
                }
            } else {
                proof {
                    lemma_find_group_none(gsv, item@.tag);
                }
                let mut items: Vec<TodoItem> = Vec::new();
                let tag2 = item.tag.clone();
                items.push(item);
                proof {
                    assert(items_view(items@) =~= seq![self.todos@[i as int]@]);
                }
                groups.push(TodoGroup { tag: tag2, items });
                proof {
                    assert(crate::journal::groups_view(groups@) =~~= gsv.push(
                        TodoGroupV {
                            tag: self.todos@[i as int]@.tag,
                            items: seq![self.todos@[i as int]@],
                        },
                    ));
                    assert(crate::journal::groups_view(groups@) =~~= group_todos(
                        items_view(self.todos@).take(i + 1),
                    ));
                }
            }
            i = i + 1;
        }
        proof {
            assert(items_view(self.todos@).take(self.todos@.len() as int) =~= items_view(
                self.todos@,
            ));
        }
        let count = self.todos.len();
        Report::Todos(TodoReport { groups, count })
    }
}

proof fn lemma_find_group_miss(gs: Seq<TodoGroupV>, tag: Seq<char>)
    requires
        find_group(gs, tag) < 0,
    ensures
        forall|q: int| 0 <= q < gs.len() ==> gs[q].tag != tag,
    decreases gs.len(),
{
    if gs.len() > 0 {
        lemma_find_group_miss(gs.drop_first(), tag);
        assert forall|q: int| 0 <= q < gs.len() implies gs[q].tag != tag by {
            if q > 0 {
                assert(gs.drop_first()[q - 1] == gs[q]);
            }
        }
    }
}

proof fn lemma_find_group_hit(gs: Seq<TodoGroupV>, tag: Seq<char>)
    requires
        find_group(gs, tag) >= 0,
    ensures
        find_group(gs, tag) < gs.len(),
        gs[find_group(gs, tag)].tag == tag,
    decreases gs.len(),
{
    if gs.len() > 0 && gs[0].tag != tag {
        lemma_find_group_hit(gs.drop_first(), tag);
        assert(gs.drop_first()[find_group(gs, tag) - 1] == gs[find_group(gs, tag)]);
    }
}

/// The grouping is a partition: no two groups carry the same tag.
pub proof fn lemma_group_todos_tags_distinct(items: Seq<TodoItemV>)
    ensures
        forall|i: int, j: int|
            0 <= i < j < group_todos(items).len() ==> group_todos(items)[i].tag != group_todos(
                items,
            )[j].tag,
    decreases items.len(),
{
    if items.len() > 0 {
        lemma_group_todos_tags_distinct(items.drop_last());
        let gs = group_todos(items.drop_last());
        let it = items.last();
        let idx = find_group(gs, it.tag);
        let gs1 = group_todos(items);
        if idx < 0 {
            lemma_find_group_miss(gs, it.tag);
            assert forall|i: int, j: int| 0 <= i < j < gs1.len() implies gs1[i].tag
                != gs1[j].tag by {
                if j < gs.len() {
                    assert(gs1[i] == gs[i] && gs1[j] == gs[j]);
                } else {
                    assert(gs1[i] == gs[i] && gs1[j].tag == it.tag);
                }
            }
        } else {
            lemma_find_group_hit(gs, it.tag);
            assert forall|i: int, j: int| 0 <= i < j < gs1.len() implies gs1[i].tag
                != gs1[j].tag by {
                assert(gs1[i].tag == gs[i].tag && gs1[j].tag == gs[j].tag);
            }
        }
    }
}

/// Every item stands in the group of its own tag.
pub open spec fn groups_well_tagged(gs: Seq<TodoGroupV>) -> bool {
    forall|i: int, k: int|
        0 <= i < gs.len() && 0 <= k < gs[i].items.len() ==> (#[trigger] gs[i].items[k]).tag
            == gs[i].tag
}

pub proof fn lemma_group_todos_well_tagged(items: Seq<TodoItemV>)
    ensures
        groups_well_tagged(group_todos(items)),
    decreases items.len(),
{
    if items.len() > 0 {
        lemma_group_todos_well_tagged(items.drop_last());
        let gs = group_todos(items.drop_last());
        let it = items.last();
        let idx = find_group(gs, it.tag);
        let gs1 = group_todos(items);
        if idx >= 0 {
            lemma_find_group_hit(gs, it.tag);
            assert(gs1 == gs.update(
                idx,
                TodoGroupV { tag: gs[idx].tag, items: gs[idx].items.push(it) },
            ));
            assert forall|i: int, k: int|
                0 <= i < gs1.len() && 0 <= k < gs1[i].items.len() implies (#[trigger] gs1[i]
                .items[k]).tag == gs1[i].tag by {
                if i == idx {
                    assert(gs1[i].tag == gs[i].tag);
                    assert(gs1[i].items == gs[i].items.push(it));
                    if k < gs[i].items.len() {
                        assert(gs1[i].items[k] == gs[i].items[k]);
                        assert(gs[i].items[k].tag == gs[i].tag);
                    } else {
                        assert(gs1[i].items[k] == it);
                    }
                    assert((gs1[i].items[k]).tag == gs1[i].tag);
                } else {
                    assert(gs1[i] == gs[i]);
                    assert(gs[i].items[k].tag == gs[i].tag);
                    assert((gs1[i].items[k]).tag == gs1[i].tag);
                }
            }
        } else {
            assert forall|i: int, k: int|
                0 <= i < gs1.len() && 0 <= k < gs1[i].items.len() implies (#[trigger] gs1[i]
                .items[k]).tag == gs1[i].tag by {
                if i < gs.len() {
                    assert(gs1[i] == gs[i]);
                    assert(gs[i].items[k].tag == gs[i].tag);
                } else {
                    assert(gs1[i].items[k] == it);
                }
            }
        }
    }
}

proof fn lemma_find_group_at(gs: Seq<TodoGroupV>, tag: Seq<char>, j: int)
    requires
        0 <= j < gs.len(),
        gs[j].tag == tag,
        forall|q: int| 0 <= q < j ==> gs[q].tag != tag,
    ensures
        find_group(gs, tag) == j,
    decreases j,
{
    if j > 0 {
        assert(gs.drop_first()[j - 1] == gs[j]);
        assert forall|q: int| 0 <= q < j - 1 implies gs.drop_first()[q].tag != tag by {
            assert(gs.drop_first()[q] == gs[q + 1]);
        }
        lemma_find_group_at(gs.drop_first(), tag, j - 1);
    }
}

proof fn lemma_find_group_none(gs: Seq<TodoGroupV>, tag: Seq<char>)
    requires
        forall|q: int| 0 <= q < gs.len() ==> gs[q].tag != tag,
    ensures
        find_group(gs, tag) == -1,
    decreases gs.len(),
{
    if gs.len() > 0 {
        assert forall|q: int| 0 <= q < gs.drop_first().len() implies gs.drop_first()[q].tag
            != tag by {
            assert(gs.drop_first()[q] == gs[q + 1]);
        }
        lemma_find_group_none(gs.drop_first(), tag);
    }
}

} // verus!
