//! The recursive traversal engine and its skip-threshold heuristic.
//!
//! The walk descends depth-first, in listing order. Per directory it
//! keeps a consecutive-miss counter: a non-accepted file increments it,
//! an accepted file resets it, subdirectories and other entries leave it
//! unchanged. When the counter reaches the threshold the directory's own
//! path is recorded and the rest of that directory is abandoned —
//! subdirectories already walked stay walked. Ignored directories are
//! neither descended nor recorded.
//!
//! `walk_dir` below is the mathematical description of one walk; the
//! executable `traverse_directory` is proved to feed the journal exactly
//! that observation sequence and to record exactly those skips.

use vstd::prelude::*;
use vstd::multiset::Multiset;
use vstd::string::StringExecFns;
use crate::config::Config;
use crate::fstree::{content_view, wf_dir, wf_entry, wf_file, DirNode, FsEntry};
use crate::journal::{strings_view, Journal, Observation, Report};

verus! {

broadcast use vstd::std_specs::vec::group_vec_axioms;

/// A path joined from a directory path and an entry basename.
pub open spec fn spec_join(base: Seq<char>, name: Seq<char>) -> Seq<char> {
    base + seq!['/'] + name
}

/// The walk's accumulated effect on one directory level.
pub ghost struct WalkState {
    /// Files fed to the journal so far, in order.
    pub obs: Seq<Observation>,
    /// Directory paths abandoned so far, in order.
    pub skips: Seq<Seq<char>>,
    /// The consecutive-miss counter at this level.
    pub miss: int,
    /// Whether this level was abandoned.
    pub stopped: bool,
}

pub open spec fn walk_init() -> WalkState {
    WalkState { obs: Seq::empty(), skips: Seq::empty(), miss: 0, stopped: false }
}

/// The walk's result: what the journal saw and what was abandoned.
pub ghost struct WalkOut {
    pub obs: Seq<Observation>,
    pub skips: Seq<Seq<char>>,
}

/// Effect of one directory entry on the level's state.
pub open spec fn walk_step(dpath: Seq<char>, cfg: Config, st: WalkState, e: FsEntry) -> WalkState
    decreases e, 0int,
{
    if st.stopped {
        st
    } else {
        match e {
            FsEntry::Dir(sub) => {
                if cfg.spec_ignored(sub.name@) {
                    st
                } else {
                    let w = walk_dir(spec_join(dpath, sub.name@), sub, cfg);
                    WalkState { obs: st.obs + w.obs, skips: st.skips + w.skips, ..st }
                }
            },
            FsEntry::File(f) => {
                if cfg.spec_accepted(f.name@) {
                    WalkState {
                        obs: st.obs.push(
                            Observation {
                                path: spec_join(dpath, f.name@),
                                content: content_view(f.content),
                            },
                        ),
                        miss: 0,
                        ..st
                    }
                } else if st.miss + 1 >= cfg.skip_threshold {
                    WalkState { skips: st.skips.push(dpath), miss: st.miss + 1, stopped: true, ..st }
                } else {
                    WalkState { miss: st.miss + 1, ..st }
                }
            },
            FsEntry::Other => st,
        }
    }
}

/// The level's state after its first `i` entries.
pub open spec fn walk_upto(dpath: Seq<char>, d: DirNode, cfg: Config, i: int) -> WalkState
    decreases d, i,
{
    if i <= 0 || i > d.entries.len() {
        walk_init()
    } else {
        walk_step(dpath, cfg, walk_upto(dpath, d, cfg, i - 1), d.entries[i - 1])
    }
}

/// The whole walk of one directory, the specification of
/// `traverse_directory`.
pub open spec fn walk_dir(dpath: Seq<char>, d: DirNode, cfg: Config) -> WalkOut
    decreases d, d.entries.len() + 1,
{
    let st = walk_upto(dpath, d, cfg, d.entries.len() as int);
    WalkOut { obs: st.obs, skips: st.skips }
}

/// An abandoned level stays abandoned: later entries change nothing.
proof fn lemma_walk_upto_stopped(dpath: Seq<char>, d: DirNode, cfg: Config, i: int, j: int)
    requires
        0 <= i <= j <= d.entries.len(),
        walk_upto(dpath, d, cfg, i).stopped,
    ensures
        walk_upto(dpath, d, cfg, j) == walk_upto(dpath, d, cfg, i),
    decreases j - i,
{
    if j > i {
        lemma_walk_upto_stopped(dpath, d, cfg, i, j - 1);
        assert(walk_upto(dpath, d, cfg, j - 1).stopped);
        assert(walk_upto(dpath, d, cfg, j) == walk_step(
            dpath,
            cfg,
            walk_upto(dpath, d, cfg, j - 1),
            d.entries[j - 1],
        ));
    }
}

proof fn lemma_strings_view_push(s: Seq<String>, x: String)
    ensures
        strings_view(s.push(x)) == strings_view(s).push(x@),
{
    assert(strings_view(s.push(x)) =~= strings_view(s).push(x@));
}

/// Joins a directory path and a basename with a separator.
pub fn join_path(base: &String, name: &String) -> (r: String)
    ensures
        r@ == spec_join(base@, name@),
{
    let mut r: String = base.clone();
    r.append("/");
    r.append(name.as_str());
    proof {
        reveal_strlit("/");
        assert(r@ =~= spec_join(base@, name@));
    }
    r
}

/// Walks one directory: feeds every selected file to the journal, in
/// order, and appends every abandoned directory's path to the skip
/// record — exactly as `walk_dir` describes.
pub fn traverse_directory<J: Journal>(
    dir_path: &String,
    dir: &DirNode,
    config: &Config,
    journal: &mut J,
    skip_record: &mut Vec<String>,
)
    requires
        old(journal).inv(),
        wf_dir(*dir),
        config.wf(),
    ensures
        final(journal).inv(),
        final(journal).obs() == old(journal).obs() + walk_dir(dir_path@, *dir, *config).obs,
        strings_view(final(skip_record)@) == strings_view(old(skip_record)@) + walk_dir(
            dir_path@,
            *dir,
            *config,
        ).skips,
    decreases *dir,
{
    let ghost obs0 = journal.obs();
    let ghost sk0 = strings_view(skip_record@);
    let mut miss: u64 = 0;
    let mut i: usize = 0;
    while i < dir.entries.len()
        invariant
            old(journal).inv(),
            journal.inv(),
            wf_dir(*dir),
            config.wf(),
            i <= dir.entries@.len(),
            obs0 == old(journal).obs(),
            sk0 == strings_view(old(skip_record)@),
            !walk_upto(dir_path@, *dir, *config, i as int).stopped,
            journal.obs() == obs0 + walk_upto(dir_path@, *dir, *config, i as int).obs,
            strings_view(skip_record@) == sk0 + walk_upto(dir_path@, *dir, *config, i as int).skips,
            miss as int == walk_upto(dir_path@, *dir, *config, i as int).miss,
            miss < config.skip_threshold,
        decreases dir.entries@.len() - i,
    {
        let ghost st = walk_upto(dir_path@, *dir, *config, i as int);
        proof {
            assert(wf_entry(dir.entries@[i as int]));
        }
        match &dir.entries[i] {
            FsEntry::Dir(sub) => {
                if !config.is_ignored_dir(sub.name.as_str()) {
                    let sub_path = join_path(dir_path, &sub.name);
                    proof {
                        assert(decreases_to!(*dir => dir.entries));
                        assert(decreases_to!(dir.entries => dir.entries[i as int]));
                    }
                    traverse_directory(&sub_path, sub, config, journal, skip_record);
                    proof {
                        let st1 = walk_upto(dir_path@, *dir, *config, i + 1);
                        assert(dir.entries@[i as int] == FsEntry::Dir(*sub));
                        assert(st1 == walk_step(dir_path@, *config, st, dir.entries@[i as int]));
                        assert(journal.obs() =~~= obs0 + st1.obs);
                        assert(strings_view(skip_record@) =~~= sk0 + st1.skips);
                    }
                } else {
                    proof {
                        let st1 = walk_upto(dir_path@, *dir, *config, i + 1);
                        assert(dir.entries@[i as int] == FsEntry::Dir(*sub));
                        assert(st1 == walk_step(dir_path@, *config, st, dir.entries@[i as int]));
                    }
                }
            },
            FsEntry::File(f) => {
                if config.is_accepted(f.name.as_str()) {
                    let fpath = join_path(dir_path, &f.name);
                    journal.observe(fpath, f.content.as_ref());
                    miss = 0;
                    proof {
                        let st1 = walk_upto(dir_path@, *dir, *config, i + 1);
                        assert(dir.entries@[i as int] == FsEntry::File(*f));
                        assert(st1 == walk_step(dir_path@, *config, st, dir.entries@[i as int]));
                        assert(journal.obs() =~~= obs0 + st1.obs);
                    }
                } else {
                    miss = miss + 1;
                    if miss >= config.skip_threshold {
                        let ghost before = skip_record@;
                        skip_record.push(dir_path.clone());
                        proof {
                            lemma_strings_view_push(before, *dir_path);
                            let st1 = walk_upto(dir_path@, *dir, *config, i + 1);
                            assert(dir.entries@[i as int] == FsEntry::File(*f));
                            assert(st1 == walk_step(
                                dir_path@,
                                *config,
                                st,
                                dir.entries@[i as int],
                            ));
                            assert(st1.stopped);
                            assert(st1.skips =~~= st.skips.push(dir_path@));
                            assert(strings_view(skip_record@) =~~= sk0 + st1.skips);
                            lemma_walk_upto_stopped(
                                dir_path@,
                                *dir,
                                *config,
                                i + 1,
                                dir.entries@.len() as int,
                            );
                            let stf = walk_upto(
                                dir_path@,
                                *dir,
                                *config,
                                dir.entries@.len() as int,
                            );
                            assert(stf == st1);
                            assert(walk_dir(dir_path@, *dir, *config).skips == stf.skips);
                            assert(walk_dir(dir_path@, *dir, *config).obs == stf.obs);
                            assert(sk0 == strings_view(old(skip_record)@));
                            assert(strings_view(skip_record@) == strings_view(old(skip_record)@)
                                + walk_dir(dir_path@, *dir, *config).skips);
                            assert(journal.obs() == old(journal).obs() + walk_dir(
                                dir_path@,
                                *dir,
                                *config,
                            ).obs);
                        }
                        return ;
                    } else {
                        proof {
                            let st1 = walk_upto(dir_path@, *dir, *config, i + 1);
                            assert(dir.entries@[i as int] == FsEntry::File(*f));
                            assert(st1 == walk_step(
                                dir_path@,
                                *config,
                                st,
                                dir.entries@[i as int],
                            ));
                        }
                    }
                }
            },
            FsEntry::Other => {
                proof {
                    let st1 = walk_upto(dir_path@, *dir, *config, i + 1);
                    assert(dir.entries@[i as int] == FsEntry::Other);
                    assert(st1 == walk_step(dir_path@, *config, st, dir.entries@[i as int]));
                }
            },
        }
        i = i + 1;
    }
}

/// The selection a walk would make with the heuristic disabled: an entry
/// contributes its file when the basename is accepted, or its whole
/// subtree when it is a directory that is not ignored.
pub open spec fn sel_entry(dpath: Seq<char>, cfg: Config, e: FsEntry) -> Seq<Observation>
    decreases e, 1int, 0int,
{
    match e {
        FsEntry::Dir(sub) => {
            if cfg.spec_ignored(sub.name@) {
                Seq::empty()
            } else {
                all_selected(spec_join(dpath, sub.name@), sub, cfg)
            }
        },
        FsEntry::File(f) => {
            if cfg.spec_accepted(f.name@) {
                seq![
                    Observation { path: spec_join(dpath, f.name@), content: content_view(f.content) },
                ]
            } else {
                Seq::empty()
            }
        },
        FsEntry::Other => Seq::empty(),
    }
}

pub open spec fn sel_upto(dpath: Seq<char>, d: DirNode, cfg: Config, i: int) -> Seq<Observation>
    decreases d, 0int, i,
{
    if i <= 0 || i > d.entries.len() {
        Seq::empty()
    } else {
        sel_upto(dpath, d, cfg, i - 1) + sel_entry(dpath, cfg, d.entries[i - 1])
    }
}

/// Every file of the tree whose ancestor directories are all not ignored
/// and whose own basename is accepted, in traversal order.
pub open spec fn all_selected(dpath: Seq<char>, d: DirNode, cfg: Config) -> Seq<Observation>
    decreases d, 0int, d.entries.len() + 1,
{
    sel_upto(dpath, d, cfg, d.entries.len() as int)
}

proof fn lemma_upto_complete(dpath: Seq<char>, d: DirNode, cfg: Config, i: int)
    requires
        0 <= i <= d.entries.len(),
        walk_upto(dpath, d, cfg, i).skips.len() == 0,
    ensures
        !walk_upto(dpath, d, cfg, i).stopped,
        walk_upto(dpath, d, cfg, i).obs == sel_upto(dpath, d, cfg, i),
    decreases d, 0int, i,
{
    reveal_with_fuel(walk_upto, 2);
    reveal_with_fuel(walk_step, 2);
    reveal_with_fuel(walk_dir, 2);
    reveal_with_fuel(sel_upto, 2);
    reveal_with_fuel(sel_entry, 2);
    reveal_with_fuel(all_selected, 2);
    if i > 0 {
        let st = walk_upto(dpath, d, cfg, i - 1);
        let st1 = walk_upto(dpath, d, cfg, i);
        let e = d.entries[i - 1];
        if st.stopped {
            lemma_walk_upto_stopped(dpath, d, cfg, i - 1, i);
            assert(st1 == st);
            assert(st.skips.len() == 0);
            lemma_upto_complete(dpath, d, cfg, i - 1);
            assert(false);
        } else {
            match e {
                FsEntry::Dir(sub) => {
                    if cfg.spec_ignored(sub.name@) {
                        lemma_upto_complete(dpath, d, cfg, i - 1);
                        assert(st1.obs =~= sel_upto(dpath, d, cfg, i));
                    } else {
                        let w = walk_dir(spec_join(dpath, sub.name@), sub, cfg);
                        assert(st1.skips == st.skips + w.skips);
                        assert(st.skips.len() == 0 && w.skips.len() == 0);
                        lemma_upto_complete(dpath, d, cfg, i - 1);
                        lemma_dir_complete(spec_join(dpath, sub.name@), sub, cfg);
                        assert(st1.obs =~= sel_upto(dpath, d, cfg, i));
                    }
                },
                FsEntry::File(f) => {
                    if cfg.spec_accepted(f.name@) {
                        lemma_upto_complete(dpath, d, cfg, i - 1);
                        assert(st1.obs =~= sel_upto(dpath, d, cfg, i));
                    } else if st.miss + 1 >= cfg.skip_threshold {
                        assert(st1.skips == st.skips.push(dpath));
                        assert(false);
                    } else {
                        lemma_upto_complete(dpath, d, cfg, i - 1);
                        assert(st1.obs =~= sel_upto(dpath, d, cfg, i));
                    }
                },
                FsEntry::Other => {
                    lemma_upto_complete(dpath, d, cfg, i - 1);
                    assert(st1.obs =~= sel_upto(dpath, d, cfg, i));
                },
            }
        }
    } else {
        assert(walk_upto(dpath, d, cfg, i).obs =~= sel_upto(dpath, d, cfg, i));
    }
}

proof fn lemma_dir_complete(dpath: Seq<char>, d: DirNode, cfg: Config)
    requires
        walk_dir(dpath, d, cfg).skips.len() == 0,
    ensures
        walk_dir(dpath, d, cfg).obs == all_selected(dpath, d, cfg),
    decreases d, 1int, 0int,
{
    lemma_upto_complete(dpath, d, cfg, d.entries.len() as int);
}

/// Completeness of the walk: when no directory was abandoned, the files
/// fed to the journal are exactly those whose ancestor directories are
/// all not ignored and whose own basename is accepted, in traversal
/// order. (With abandonments, the walk's observations are exactly
/// `walk_dir(..).obs`, which cuts each abandoned directory at its
/// threshold.)
pub proof fn lemma_walk_complete_without_skips(dpath: Seq<char>, d: DirNode, cfg: Config)
    requires
        walk_dir(dpath, d, cfg).skips.len() == 0,
    ensures
        walk_dir(dpath, d, cfg).obs == all_selected(dpath, d, cfg),
{
    lemma_dir_complete(dpath, d, cfg);
}

proof fn lemma_subset_add_right<A>(a: Multiset<A>, b: Multiset<A>, c: Multiset<A>)
    requires
        a.subset_of(b),
    ensures
        a.subset_of(b.add(c)),
{
    broadcast use vstd::multiset::group_multiset_axioms;

    assert forall|x: A| a.count(x) <= b.add(c).count(x) by {
        assert(b.add(c).count(x) == b.count(x) + c.count(x));
    }
}

proof fn lemma_subset_add_mono<A>(a: Multiset<A>, b: Multiset<A>, c: Multiset<A>, d: Multiset<A>)
    requires
        a.subset_of(b),
        c.subset_of(d),
    ensures
        a.add(c).subset_of(b.add(d)),
{
    broadcast use vstd::multiset::group_multiset_axioms;

    assert forall|x: A| a.add(c).count(x) <= b.add(d).count(x) by {
        assert(a.add(c).count(x) == a.count(x) + c.count(x));
        assert(b.add(d).count(x) == b.count(x) + d.count(x));
    }
}

proof fn lemma_upto_sound(dpath: Seq<char>, d: DirNode, cfg: Config, i: int)
    requires
        0 <= i <= d.entries.len(),
    ensures
        walk_upto(dpath, d, cfg, i).obs.to_multiset().subset_of(
            sel_upto(dpath, d, cfg, i).to_multiset(),
        ),
    decreases d, 0int, i,
{
    broadcast use vstd::multiset::group_multiset_axioms;
    broadcast use vstd::seq_lib::group_to_multiset_ensures;
    broadcast use vstd::seq_lib::lemma_multiset_commutative;
    broadcast use vstd::multiset::lemma_multiset_empty_len;

    reveal_with_fuel(walk_upto, 2);
    reveal_with_fuel(walk_step, 2);
    reveal_with_fuel(walk_dir, 2);
    reveal_with_fuel(sel_upto, 2);
    reveal_with_fuel(sel_entry, 2);
    reveal_with_fuel(all_selected, 2);
    if i > 0 {
        lemma_upto_sound(dpath, d, cfg, i - 1);
        let st = walk_upto(dpath, d, cfg, i - 1);
        let st1 = walk_upto(dpath, d, cfg, i);
        let prev = sel_upto(dpath, d, cfg, i - 1);
        let here = sel_entry(dpath, cfg, d.entries[i - 1]);
        assert(sel_upto(dpath, d, cfg, i) == prev + here);
        assert((prev + here).to_multiset() == prev.to_multiset().add(here.to_multiset()));
        if st.stopped {
            lemma_subset_add_right(st.obs.to_multiset(), prev.to_multiset(), here.to_multiset());
        } else {
            match d.entries[i - 1] {
                FsEntry::Dir(sub) => {
                    if cfg.spec_ignored(sub.name@) {
                        lemma_subset_add_right(
                            st.obs.to_multiset(),
                            prev.to_multiset(),
                            here.to_multiset(),
                        );
                    } else {
                        lemma_dir_sound(spec_join(dpath, sub.name@), sub, cfg);
                        let w = walk_dir(spec_join(dpath, sub.name@), sub, cfg);
                        assert(st1.obs.to_multiset() == st.obs.to_multiset().add(
                            w.obs.to_multiset(),
                        ));
                        lemma_subset_add_mono(
                            st.obs.to_multiset(),
                            prev.to_multiset(),
                            w.obs.to_multiset(),
                            here.to_multiset(),
                        );
                    }
                },
                FsEntry::File(f) => {
                    if cfg.spec_accepted(f.name@) {
                        let o = Observation {
                            path: spec_join(dpath, f.name@),
                            content: content_view(f.content),
                        };
                        assert(st1.obs.to_multiset() =~= st.obs.to_multiset().insert(o));
                        assert(here =~= Seq::<Observation>::empty().push(o));
                        assert(here.to_multiset() =~= Seq::<Observation>::empty()
                            .to_multiset()
                            .insert(o));
                        assert(Seq::<Observation>::empty().to_multiset() =~= Multiset::<
                            Observation,
                        >::empty());
                        assert forall|x: Observation| st1.obs.to_multiset().count(x) <= (prev
                            + here).to_multiset().count(x) by {
                            assert(st.obs.to_multiset().count(x) <= prev.to_multiset().count(x));
                        }
                    } else {
                        lemma_subset_add_right(
                            st.obs.to_multiset(),
                            prev.to_multiset(),
                            here.to_multiset(),
                        );
                    }
                },
                FsEntry::Other => {
                    lemma_subset_add_right(
                        st.obs.to_multiset(),
                        prev.to_multiset(),
                        here.to_multiset(),
                    );
                },
            }
        }
    }
}

proof fn lemma_dir_sound(dpath: Seq<char>, d: DirNode, cfg: Config)
    ensures
        walk_dir(dpath, d, cfg).obs.to_multiset().subset_of(
            all_selected(dpath, d, cfg).to_multiset(),
        ),
    decreases d, 1int, 0int,
{
    lemma_upto_sound(dpath, d, cfg, d.entries.len() as int);
}

/// Soundness of the walk: even when directories are abandoned, every
/// file fed to the journal is one of the selected files — its ancestor
/// directories are all not ignored and its own basename is accepted —
/// and no file is fed more often than it occurs in that selection.
pub proof fn lemma_walk_sound(dpath: Seq<char>, d: DirNode, cfg: Config)
    ensures
        walk_dir(dpath, d, cfg).obs.to_multiset().subset_of(
            all_selected(dpath, d, cfg).to_multiset(),
        ),
{
    lemma_dir_sound(dpath, d, cfg);
}

/// A plain file that the acceptance predicate rejects: what the miss
/// counter counts.
pub open spec fn missed_file(cfg: Config, e: FsEntry) -> bool {
    e is File && !cfg.spec_accepted(e->File_0.name@)
}

proof fn lemma_miss_run(dpath: Seq<char>, d: DirNode, cfg: Config, i: int, j: int)
    requires
        0 <= i <= j <= d.entries.len(),
        forall|k: int| i <= k < j ==> missed_file(cfg, #[trigger] d.entries[k]),
        !walk_upto(dpath, d, cfg, i).stopped,
        walk_upto(dpath, d, cfg, i).miss + (j - i) < cfg.skip_threshold,
    ensures
        walk_upto(dpath, d, cfg, j) == (WalkState {
            obs: walk_upto(dpath, d, cfg, i).obs,
            skips: walk_upto(dpath, d, cfg, i).skips,
            miss: walk_upto(dpath, d, cfg, i).miss + (j - i),
            stopped: false,
        }),
    decreases j - i,
{
    reveal_with_fuel(walk_upto, 2);
    reveal_with_fuel(walk_step, 2);
    if j > i {
        lemma_miss_run(dpath, d, cfg, i, j - 1);
    }
}

/// The skip heuristic triggers, and resets on a hit: in a directory of
/// `skipThreshold - 1` non-matching files, then one matching file, then
/// `skipThreshold` non-matching files, exactly one skip record is
/// emitted for that directory, and the matching file in the middle is
/// the one observation.
pub proof fn lemma_skip_heuristic_triggers(dpath: Seq<char>, d: DirNode, cfg: Config)
    requires
        cfg.wf(),
        d.entries.len() == 2 * cfg.skip_threshold,
        forall|k: int|
            0 <= k < d.entries.len() && k != cfg.skip_threshold - 1 ==> missed_file(
                cfg,
                #[trigger] d.entries[k],
            ),
        d.entries[cfg.skip_threshold - 1] is File,
        cfg.spec_accepted(d.entries[cfg.skip_threshold - 1]->File_0.name@),
    ensures
        walk_dir(dpath, d, cfg).skips == seq![dpath],
        walk_dir(dpath, d, cfg).obs == seq![
            Observation {
                path: spec_join(dpath, d.entries[cfg.skip_threshold - 1]->File_0.name@),
                content: content_view(d.entries[cfg.skip_threshold - 1]->File_0.content),
            },
        ],
{
    reveal_with_fuel(walk_upto, 2);
    reveal_with_fuel(walk_step, 2);
    reveal_with_fuel(walk_dir, 2);
    let t = cfg.skip_threshold as int;
    let o = Observation {
        path: spec_join(dpath, d.entries[t - 1]->File_0.name@),
        content: content_view(d.entries[t - 1]->File_0.content),
    };
    lemma_miss_run(dpath, d, cfg, 0, t - 1);
    let st = walk_upto(dpath, d, cfg, t - 1);
    assert(st.miss == t - 1 && !st.stopped && st.obs =~= Seq::<Observation>::empty()
        && st.skips =~= Seq::<Seq<char>>::empty());
    let st1 = walk_upto(dpath, d, cfg, t);
    assert(st1 == walk_step(dpath, cfg, st, d.entries[t - 1]));
    assert(st1.obs =~= seq![o] && st1.miss == 0 && !st1.stopped);
    lemma_miss_run(dpath, d, cfg, t, 2 * t - 1);
    let st2 = walk_upto(dpath, d, cfg, 2 * t - 1);
    assert(st2.miss == t - 1 && !st2.stopped && st2.obs == st1.obs && st2.skips == st1.skips);
    let st3 = walk_upto(dpath, d, cfg, 2 * t);
    assert(st3 == walk_step(dpath, cfg, st2, d.entries[2 * t - 1]));
    assert(missed_file(cfg, d.entries[2 * t - 1]));
    assert(st3.stopped && st3.skips =~= st2.skips.push(dpath));
    assert(walk_dir(dpath, d, cfg).skips =~~= seq![dpath]);
    assert(walk_dir(dpath, d, cfg).obs =~= seq![o]);
}

/// Boundary: with `skipThreshold` 1, a single non-matching file first in
/// a directory abandons the directory at once — nothing is observed
/// there and the directory is recorded.
pub proof fn lemma_threshold_one_first_miss(dpath: Seq<char>, d: DirNode, cfg: Config)
    requires
        cfg.skip_threshold == 1,
        d.entries.len() >= 1,
        missed_file(cfg, d.entries[0]),
    ensures
        walk_dir(dpath, d, cfg).skips == seq![dpath],
        walk_dir(dpath, d, cfg).obs == Seq::<Observation>::empty(),
{
    reveal_with_fuel(walk_upto, 2);
    reveal_with_fuel(walk_step, 2);
    reveal_with_fuel(walk_dir, 2);
    let st1 = walk_upto(dpath, d, cfg, 1);
    assert(st1 == walk_step(dpath, cfg, walk_init(), d.entries[0]));
    assert(st1.stopped);
    lemma_walk_upto_stopped(dpath, d, cfg, 1, d.entries.len() as int);
    assert(walk_dir(dpath, d, cfg).skips =~~= seq![dpath]);
    assert(walk_dir(dpath, d, cfg).obs =~= Seq::<Observation>::empty());
}

/// One end-to-end pass: walk the tree from the root with the given
/// journal, then finalize it. Returns the abandoned directories, in
/// order, and the journal's report.
pub fn run_journal<J: Journal>(
    root_dir: &String,
    root: &DirNode,
    config: &Config,
    journal: &mut J,
) -> (r: (Vec<String>, Report))
    requires
        old(journal).inv(),
        old(journal).obs() == Seq::<Observation>::empty(),
        wf_dir(*root),
        config.wf(),
    ensures
        final(journal).inv(),
        final(journal).obs() == walk_dir(root_dir@, *root, *config).obs,
        strings_view(r.0@) == walk_dir(root_dir@, *root, *config).skips,
        r.1@ == final(journal).report_view(),
{
    let mut skip_record: Vec<String> = Vec::new();
    proof {
        assert(strings_view(Seq::<String>::empty()) =~= Seq::<Seq<char>>::empty());
    }
    traverse_directory(root_dir, root, config, journal, &mut skip_record);
    let rep = journal.summary();
    (skip_record, rep)
}

} // verus!
