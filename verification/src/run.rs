//! A whole scan, run one job after the other over a table of files.

use vstd::prelude::*;
use crate::bytes::views;
use crate::closure::{
    lemma_done_is_reachable, lemma_job_sound, lemma_polled_sound, lemma_root_added_sound,
    lemma_unreadable_sound, reachable, sound, World,
};
use crate::directive::{DefineTable, LF};
use crate::path::absolute;
use crate::platform::Platform;
use crate::processed::{
    lemma_sorted_no_duplicates, lemma_sorted_unique, members, strictly_sorted,
};
use crate::resolve::FileTable;
use crate::scan::file_process;
use crate::scheduler::{Poll, Scheduler, Search, Shared};

verus! {

/// What a scan is run with, apart from the root files.
pub struct ScanConfig {
    pub platform: Platform,
    /// The search directories, in the order in which they are tried.
    pub includes: Vec<Vec<u8>>,
    /// The macros that every file starts with.
    pub defines: DefineTable,
}

/// The world that a configuration and a table of files make up.
pub open spec fn world(config: ScanConfig, files: FileTable) -> World {
    World {
        search: Search { includes: views(config.includes@), platform: config.platform },
        defines: config.defines@,
        files: files@,
    }
}

/// The collapsed paths of the root files.
pub open spec fn root_paths(roots: Seq<Seq<u8>>, platform: Platform) -> Set<Seq<u8>> {
    Set::new(
        |p: Seq<u8>| exists|i: int| 0 <= i < roots.len() && #[trigger] absolute(roots[i], platform) == p,
    )
}

/// There are finitely many root paths.
pub proof fn lemma_root_paths_finite(roots: Seq<Seq<u8>>, platform: Platform)
    ensures
        root_paths(roots, platform).finite(),
    decreases roots.len(),
{
    if roots.len() == 0 {
        assert(root_paths(roots, platform) =~= Set::<Seq<u8>>::empty());
    } else {
        let init = roots.drop_last();
        lemma_root_paths_finite(init, platform);
        let last = absolute(roots.last(), platform);
        assert forall|p: Seq<u8>| root_paths(roots, platform).contains(p) == root_paths(
            init,
            platform,
        ).insert(last).contains(p) by {
            if root_paths(roots, platform).contains(p) {
                let i = choose|i: int|
                    0 <= i < roots.len() && #[trigger] absolute(roots[i], platform) == p;
                if i < init.len() {
                    assert(absolute(init[i], platform) == p);
                }
            }
            if root_paths(init, platform).contains(p) {
                let i = choose|i: int|
                    0 <= i < init.len() && #[trigger] absolute(init[i], platform) == p;
                assert(absolute(roots[i], platform) == p);
            }
            if p == last {
                assert(absolute(roots[roots.len() - 1], platform) == p);
            }
        }
        assert(root_paths(roots, platform) =~= root_paths(init, platform).insert(last));
    }
}

/// Whether `list` is what a scan of `roots` in the world `w` returns: the
/// reachable paths in lexicographic order.
pub open spec fn is_scan_of(list: Seq<Seq<u8>>, roots: Set<Seq<u8>>, w: World) -> bool {
    strictly_sorted(list) && members(list) == reachable(roots, w)
}

/// Two scans of the same roots in the same world return the same list,
/// byte for byte.
pub proof fn lemma_scan_repeats(
    first: Seq<Seq<u8>>,
    second: Seq<Seq<u8>>,
    roots: Set<Seq<u8>>,
    w: World,
)
    requires
        is_scan_of(first, roots, w),
        is_scan_of(second, roots, w),
    ensures
        first == second,
{
    lemma_sorted_unique(first, second);
}

/// Every reachable path stands in the list at exactly one position, however
/// many directives lead to it, and nothing else stands in the list.
pub proof fn lemma_scan_lists_once(list: Seq<Seq<u8>>, roots: Set<Seq<u8>>, w: World)
    requires
        is_scan_of(list, roots, w),
    ensures
        list.no_duplicates(),
        forall|i: int| 0 <= i < list.len() ==> reachable(roots, w).contains(#[trigger] list[i]),
        forall|p: Seq<u8>|
            reachable(roots, w).contains(p) ==> exists|i: int|
                0 <= i < list.len() && #[trigger] list[i] == p,
{
    lemma_sorted_no_duplicates(list);
    assert forall|i: int| 0 <= i < list.len() implies reachable(roots, w).contains(
        #[trigger] list[i],
    ) by {
        assert(members(list).contains(list[i]));
    }
    assert forall|p: Seq<u8>| reachable(roots, w).contains(p) implies exists|i: int|
        0 <= i < list.len() && #[trigger] list[i] == p by {
        assert(members(list).contains(p));
        let i = choose|i: int| 0 <= i < list.len() && list[i] == p;
        assert(list[i] == p);
    }
}

/// Scans `roots` and every file that they lead to, one file at a time, and
/// returns the paths of all of them in lexicographic order, each once.
///
/// A root is listed whether or not it is a file. Every file starts with the
/// macros of `config`; what one file defines is not seen by another. The
/// result depends on nothing but the arguments: the same roots,
/// configuration and files give the same list.
pub fn scan(roots: &Vec<Vec<u8>>, config: &ScanConfig, files: &FileTable) -> (out: Vec<Vec<u8>>)
    ensures
        is_scan_of(
            views(out@),
            root_paths(views(roots@), config.platform),
            world(*config, *files),
        ),
        views(out@).no_duplicates(),
{
    let platform = config.platform;
    let ghost w = world(*config, *files);
    let ghost rs = root_paths(views(roots@), platform);
    let ghost idle = Set::<Seq<u8>>::empty();
    let mut state = Scheduler::new();
    let mut i: usize = 0;
    while i < roots.len()
        invariant
            i <= roots.len(),
            rs == root_paths(views(roots@), platform),
            idle == Set::<Seq<u8>>::empty(),
            state.jobs == 0,
            sound(state@, rs, idle, w),
            forall|k: int|
                0 <= k < i ==> state.processed@.contains(
                    #[trigger] absolute(views(roots@)[k], platform),
                ),
        decreases roots.len() - i,
    {
        let ghost before = state@;
        let ghost r = absolute(views(roots@)[i as int], platform);
        let fresh = state.root_add(roots[i].as_slice(), platform);
        proof {
            assert(rs.contains(r));
            if fresh {
                lemma_root_added_sound(before, rs, idle, w, r);
            } else {
                assert(before.processed.insert(r) =~= before.processed);
            }
            assert(state@ == if fresh {
                Shared {
                    processed: before.processed.insert(r),
                    queued: before.queued.push(r),
                    ..before
                }
            } else {
                before
            });
        }
        i += 1;
    }
    let ghost universe = rs.union(files@.dom());
    proof {
        lemma_root_paths_finite(views(roots@), platform);
        files.lemma_finite();
        assert forall|r: Seq<u8>| rs.contains(r) implies state.processed@.contains(r) by {
            let k = choose|k: int|
                0 <= k < roots.len() && #[trigger] absolute(views(roots@)[k], platform) == r;
        }
    }
    loop
        invariant
            platform == config.platform,
            w == world(*config, *files),
            idle == Set::<Seq<u8>>::empty(),
            universe == rs.union(files@.dom()),
            universe.finite(),
            state.jobs == 0,
            sound(state@, rs, idle, w),
            forall|r: Seq<u8>| rs.contains(r) ==> state.processed@.contains(r),
        ensures
            state.queued@.len() == 0,
        decreases
            2 * (universe.len() - state.processed@.len()) + state.queued@.len(),
    {
        let held = state.processed.len();
        proof {
            assert(held == state@.processed.len());
            assert forall|q: Seq<u8>| state.processed@.contains(q) implies universe.contains(
                q,
            ) by {
                assert(state@.processed.contains(q));
                assert(w.files.dom().contains(q) == w.files.contains_key(q));
            }
            vstd::set_lib::lemma_len_subset(state.processed@, universe);
        }
        let ghost before = state@;
        match state.poll() {
            Poll::Job(path) => {
                let ghost polled = state@;
                let ghost p = path@;
                proof {
                    assert(before.queued[0] == p);
                    lemma_polled_sound(before, rs, idle, w);
                    assert(polled == Shared {
                        queued: before.queued.skip(1),
                        ..before
                    });
                }
                let mut defines = config.defines.copy();
                let r = file_process(
                    path.as_slice(),
                    &config.includes,
                    platform,
                    &mut defines,
                    files,
                    &mut state,
                );
                proof {
                    if r is Ok {
                        lemma_job_sound(polled, rs, idle.insert(p), w, p);
                    } else {
                        lemma_unreadable_sound(polled, rs, idle.insert(p), w, p);
                    }
                    assert(idle.insert(p).remove(p) =~= idle);
                }
                state.job_done();
                let held_after = state.processed.len();
                proof {
                    assert(held_after == state@.processed.len());
                    assert forall|q: Seq<u8>| state.processed@.contains(q) implies universe.contains(
                        q,
                    ) by {
                        assert(state@.processed.contains(q));
                        assert(w.files.dom().contains(q) == w.files.contains_key(q));
                    }
                    vstd::set_lib::lemma_len_subset(state.processed@, universe);
                }
            },
            Poll::Busy => {
                break ;
            },
            Poll::Done => {
                break ;
            },
        }
    }
    proof {
        lemma_done_is_reachable(state@, rs, w);
    }
    let out = state.sorted();
    proof {
        lemma_sorted_no_duplicates(views(out@));
    }
    out
}

/// The list as it is written out: each path followed by a line feed.
pub open spec fn listing(paths: Seq<Seq<u8>>) -> Seq<u8>
    decreases paths.len(),
{
    if paths.len() == 0 {
        Seq::empty()
    } else {
        listing(paths.drop_last()) + paths.last() + seq![LF]
    }
}

/// The text that an output file receives: one path on each line, in the
/// order of `paths`.
pub fn output_text(paths: &Vec<Vec<u8>>) -> (out: Vec<u8>)
    ensures
        out@ == listing(views(paths@)),
{
    let mut out: Vec<u8> = Vec::new();
    let mut i: usize = 0;
    assert(views(paths@).take(0) =~= Seq::<Seq<u8>>::empty());
    while i < paths.len()
        invariant
            i <= paths.len(),
            out@ == listing(views(paths@).take(i as int)),
        decreases paths.len() - i,
    {
        let ghost before = out@;
        let path = &paths[i];
        let mut k: usize = 0;
        while k < path.len()
            invariant
                k <= path.len(),
                out@ == before + path@.take(k as int),
            decreases path.len() - k,
        {
            out.push(path[k]);
            k += 1;
            assert(out@ =~= before + path@.take(k as int));
        }
        out.push(LF);
        assert(path@.take(k as int) =~= path@);
        assert(views(paths@).take(i + 1).drop_last() =~= views(paths@).take(i as int));
        assert(views(paths@).take(i + 1).last() == path@);
        i += 1;
    }
    assert(views(paths@).take(i as int) =~= views(paths@));
    out
}

} // verus!
