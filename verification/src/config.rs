//! The run configuration and the matcher predicates derived from it.
//!
//! A `Config` holds the ignore names, the accepted extensions, and the
//! skip threshold for one run. The two matcher predicates are derived
//! from the name lists: a directory is ignored when its basename contains
//! any configured ignore name (the union of the configured alternatives),
//! and a file is accepted when its basename ends with a literal dot
//! followed by one of the configured extensions (case-sensitive). Empty
//! lists yield predicates that never match.

use vstd::prelude::*;
use crate::chars::to_chars;

verus! {

/// `n` occurs in `h` starting at position `j`.
pub open spec fn occurs_at(h: Seq<char>, n: Seq<char>, j: int) -> bool {
    &&& 0 <= j
    &&& j + n.len() <= h.len()
    &&& forall|k: int| 0 <= k < n.len() ==> h[j + k] == n[k]
}

/// `n` occurs somewhere in `h` as a contiguous run.
pub open spec fn contains_seq(h: Seq<char>, n: Seq<char>) -> bool {
    exists|j: int| occurs_at(h, n, j)
}

/// `suf` is a suffix of `s`.
pub open spec fn is_suffix_of(suf: Seq<char>, s: Seq<char>) -> bool {
    &&& suf.len() <= s.len()
    &&& forall|k: int| 0 <= k < suf.len() ==> s[s.len() - suf.len() + k] == suf[k]
}

/// Immutable configuration for one run: fixed for the walk's lifetime.
pub struct Config {
    /// Directory basenames containing any of these names are not descended.
    pub ignores: Vec<String>,
    /// File basenames ending in `.<ext>` for one of these extensions are fed
    /// to the journal.
    pub accept: Vec<String>,
    /// A directory is abandoned after this many consecutive non-accepted
    /// files; always at least 1.
    pub skip_threshold: u64,
}

impl Config {
    pub open spec fn wf(self) -> bool {
        self.skip_threshold >= 1
    }

    /// The ignore predicate over a directory basename.
    pub open spec fn spec_ignored(self, name: Seq<char>) -> bool {
        exists|i: int| 0 <= i < self.ignores@.len() && contains_seq(name, self.ignores@[i]@)
    }

    /// The acceptance predicate over a file basename.
    pub open spec fn spec_accepted(self, name: Seq<char>) -> bool {
        exists|i: int|
            0 <= i < self.accept@.len() && is_suffix_of(
                seq!['.'] + self.accept@[i]@,
                name,
            )
    }

    pub fn new(ignores: Vec<String>, accept: Vec<String>, skip_threshold: u64) -> (c: Config)
        requires
            skip_threshold >= 1,
        ensures
            c == (Config { ignores, accept, skip_threshold }),
            c.wf(),
    {
        Config { ignores, accept, skip_threshold }
    }

    /// True iff the directory basename matches one of the ignore names.
    pub fn is_ignored_dir(&self, name: &str) -> (r: bool)
        ensures
            r == self.spec_ignored(name@),
    {
        let nm = to_chars(name);
        let mut i: usize = 0;
        while i < self.ignores.len()
            invariant
                nm@ == name@,
                i <= self.ignores@.len(),
                forall|q: int| 0 <= q < i ==> !contains_seq(name@, self.ignores@[q]@),
            decreases self.ignores@.len() - i,
        {
            let pat = to_chars(self.ignores[i].as_str());
            if seq_contains(&nm, &pat) {
                return true;
            }
            i = i + 1;
        }
        false
    }

    /// True iff the file basename ends with a dot and one of the accepted
    /// extensions.
    pub fn is_accepted(&self, name: &str) -> (r: bool)
        ensures
            r == self.spec_accepted(name@),
    {
        let nm = to_chars(name);
        let mut i: usize = 0;
        while i < self.accept.len()
            invariant
                nm@ == name@,
                i <= self.accept@.len(),
                forall|q: int|
                    0 <= q < i ==> !is_suffix_of(seq!['.'] + self.accept@[q]@, name@),
            decreases self.accept@.len() - i,
        {
            let ext = to_chars(self.accept[i].as_str());
            if has_dot_ext_suffix(&nm, &ext) {
                return true;
            }
            i = i + 1;
        }
        false
    }
}

/// Compares `n` against the run of `h` that starts at `j`.
fn matches_at(h: &Vec<char>, n: &Vec<char>, j: usize) -> (r: bool)
    requires
        j + n@.len() <= h@.len(),
    ensures
        r == occurs_at(h@, n@, j as int),
{
    let hlen: usize = h.len();
    proof {
        assert(h@.len() == hlen);
    }
    let mut k: usize = 0;
    while k < n.len()
        invariant
            h@.len() <= usize::MAX,
            j + n@.len() <= h@.len(),
            k <= n@.len(),
            forall|p: int| 0 <= p < k ==> h@[j + p] == n@[p],
        decreases n@.len() - k,
    {
        if h[j + k] != n[k] {
            return false;
        }
        k = k + 1;
    }
    true
}

/// Naive substring search over character vectors.
fn seq_contains(h: &Vec<char>, n: &Vec<char>) -> (r: bool)
    ensures
        r == contains_seq(h@, n@),
{
    if n.len() > h.len() {
        proof {
            assert forall|j: int| !occurs_at(h@, n@, j) by {}
        }
        return false;
    }
    if n.len() == 0 {
        proof {
            assert(occurs_at(h@, n@, 0));
        }
        return true;
    }
    let bound: usize = h.len() - n.len();
    let mut j: usize = 0;
    while j <= bound
        invariant
            1 <= n@.len() <= h@.len(),
            h@.len() <= usize::MAX,
            bound == h@.len() - n@.len(),
            j <= bound + 1,
            forall|q: int| 0 <= q < j ==> !occurs_at(h@, n@, q),
        decreases bound + 1 - j,
    {
        if matches_at(h, n, j) {
            return true;
        }
        j = j + 1;
    }
    proof {
        assert forall|q: int| !occurs_at(h@, n@, q) by {
            if 0 <= q && q + n@.len() <= h@.len() {
                assert(q < j);
            }
        }
    }
    false
}

/// Suffix check for `.<ext>` on a basename.
fn has_dot_ext_suffix(name: &Vec<char>, ext: &Vec<char>) -> (r: bool)
    ensures
        r == is_suffix_of(seq!['.'] + ext@, name@),
{
    let ghost suf = seq!['.'] + ext@;
    if ext.len() >= name.len() {
        return false;
    }
    let base: usize = name.len() - ext.len() - 1;
    if name[base] != '.' {
        proof {
            assert(suf[0] == '.');
            assert(name@[name@.len() - suf.len() + 0] != suf[0]);
        }
        return false;
    }
    let mut k: usize = 0;
    while k < ext.len()
        invariant
            suf == seq!['.'] + ext@,
            name@.len() <= usize::MAX,
            ext@.len() + 1 <= name@.len(),
            base == name@.len() - ext@.len() - 1,
            name@[base as int] == '.',
            k <= ext@.len(),
            forall|p: int| 0 <= p < k ==> name@[base + 1 + p] == ext@[p],
        decreases ext@.len() - k,
    {
        if name[base + 1 + k] != ext[k] {
            proof {
                assert(suf[k + 1] == ext@[k as int]);
                assert(name@[name@.len() - suf.len() + (k + 1)] != suf[k + 1]);
            }
            return false;
        }
        k = k + 1;
    }
    proof {
        assert forall|p: int| 0 <= p < suf.len() implies name@[name@.len() - suf.len() + p]
            == suf[p] by {
            if p == 0 {
                assert(suf[0] == '.');
            } else {
                assert(suf[p] == ext@[p - 1]);
                assert(name@[base + 1 + (p - 1)] == ext@[p - 1]);
            }
        }
    }
    true
}

} // verus!
