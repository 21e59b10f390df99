//! The scan as workers run it: jobs that overlap in time, each handling the
//! findings of its own file in order, with the steps of different jobs in
//! any order. Whatever the order, a scan that has come to rest has
//! scheduled exactly the reachable paths.

use vstd::prelude::*;
use crate::closure::{
    complete, depends_on, findings, lemma_done_is_reachable, lemma_noted_sound,
    lemma_polled_sound, reachable, sound, target_at, target_within, World,
};
use crate::path::parent;
use crate::scan::noted;
use crate::processed::{lemma_sorted_unique, members, strictly_sorted};
use crate::scheduler::Shared;

verus! {

/// A scan in progress: the shared state, and for each job in flight the
/// number of findings of its file that it has handled.
pub struct Run {
    pub shared: Shared,
    pub jobs: Map<Seq<u8>, int>,
}

/// One step of a scan.
pub enum Step {
    /// The scheduler takes the first path off the queue and starts its job.
    Start,
    /// The job for the path handles the next finding of its file.
    Note(Seq<u8>),
    /// The job for the path ends.
    Finish(Seq<u8>),
}

/// Whether `step` can be taken in the state `run`. A job can note a finding
/// while its file has one left; it can end when none is left, or at once
/// where its path is no file.
pub open spec fn enabled(run: Run, step: Step, w: World) -> bool {
    match step {
        Step::Start => run.shared.queued.len() > 0,
        Step::Note(p) => run.jobs.contains_key(p) && w.files.contains_key(p) && 0 <= run.jobs[p]
            < findings(p, w).len(),
        Step::Finish(p) => run.jobs.contains_key(p) && (!w.files.contains_key(p) || run.jobs[p]
            == findings(p, w).len()),
    }
}

/// The state that `step` leaves behind.
pub open spec fn taken(run: Run, step: Step, w: World) -> Run {
    match step {
        Step::Start => Run {
            shared: Shared { queued: run.shared.queued.skip(1), ..run.shared },
            jobs: run.jobs.insert(run.shared.queued[0], 0),
        },
        Step::Note(p) => Run {
            shared: noted(
                run.shared,
                parent(p, w.search.platform),
                findings(p, w)[run.jobs[p]],
                w.search,
                w.files.dom(),
            ),
            jobs: run.jobs.insert(p, run.jobs[p] + 1),
        },
        Step::Finish(p) => Run { shared: run.shared, jobs: run.jobs.remove(p) },
    }
}

/// Whether the steps can be taken one after the other, starting in `run`.
pub open spec fn possible(run: Run, steps: Seq<Step>, w: World) -> bool
    decreases steps.len(),
{
    steps.len() == 0 || (possible(run, steps.drop_last(), w) && enabled(
        taken_all(run, steps.drop_last(), w),
        steps.last(),
        w,
    ))
}

/// The state after the steps, taken one after the other.
pub open spec fn taken_all(run: Run, steps: Seq<Step>, w: World) -> Run
    decreases steps.len(),
{
    if steps.len() == 0 {
        run
    } else {
        taken(taken_all(run, steps.drop_last(), w), steps.last(), w)
    }
}

/// The state in which the roots are scheduled and queued and nothing else
/// has happened. `queued` lists the roots, each once.
pub open spec fn seeded(roots: Set<Seq<u8>>, queued: Seq<Seq<u8>>) -> Run {
    Run {
        shared: Shared {
            processed: roots,
            queued,
            local: Set::empty(),
            system: Set::empty(),
        },
        jobs: Map::empty(),
    }
}

/// Whether a scan has come to rest: nothing is queued and no job is in
/// flight.
pub open spec fn at_rest(run: Run) -> bool {
    run.shared.queued.len() == 0 && run.jobs.dom() == Set::<Seq<u8>>::empty()
}

/// What holds of every state of a scan: the shared state is sound, the
/// roots are scheduled, and each job in flight has left the files scheduled
/// that the findings it has handled stand for.
pub open spec fn steady(run: Run, roots: Set<Seq<u8>>, w: World) -> bool {
    &&& sound(run.shared, roots, run.jobs.dom(), w)
    &&& forall|r: Seq<u8>| roots.contains(r) ==> run.shared.processed.contains(r)
    &&& forall|p: Seq<u8>| #[trigger]
        run.jobs.contains_key(p) ==> run.shared.processed.contains(p) && (w.files.contains_key(p)
            ==> 0 <= run.jobs[p] <= findings(p, w).len() && handled(
            p,
            run.jobs[p],
            run.shared.processed,
            w,
        ))
}

/// Whether the files that the first `k` findings of the file at `p` stand
/// for are in `set`.
pub open spec fn handled(p: Seq<u8>, k: int, set: Set<Seq<u8>>, w: World) -> bool {
    forall|j: int| 0 <= j < k ==> #[trigger] target_within(p, j, w, set)
}

/// The seeded state is steady.
pub proof fn lemma_seeded_steady(roots: Set<Seq<u8>>, queued: Seq<Seq<u8>>, w: World)
    requires
        forall|i: int| 0 <= i < queued.len() ==> roots.contains(#[trigger] queued[i]),
        forall|r: Seq<u8>|
            roots.contains(r) ==> exists|i: int| 0 <= i < queued.len() && #[trigger] queued[i] == r,
    ensures
        steady(seeded(roots, queued), roots, w),
{
    let run = seeded(roots, queued);
    assert(run.jobs.dom() =~= Set::<Seq<u8>>::empty());
    assert forall|p: Seq<u8>| #[trigger] run.shared.processed.contains(p) implies reachable(
        roots,
        w,
    ).contains(p) by {
        crate::closure::lemma_root_reachable(roots, w, p);
    }
    assert forall|p: Seq<u8>| #[trigger] run.shared.processed.contains(p) implies crate::closure::waiting(
        run.shared.queued,
        p,
    ) by {
        let i = choose|i: int| 0 <= i < queued.len() && #[trigger] queued[i] == p;
        assert(run.shared.queued[i] == p);
    }
}

/// Every step that can be taken leaves a steady state steady.
pub proof fn lemma_step_steady(run: Run, step: Step, roots: Set<Seq<u8>>, w: World)
    requires
        steady(run, roots, w),
        enabled(run, step, w),
    ensures
        steady(taken(run, step, w), roots, w),
{
    let after = taken(run, step, w);
    match step {
        Step::Start => {
            let p = run.shared.queued[0];
            lemma_polled_sound(run.shared, roots, run.jobs.dom(), w);
            assert(after.jobs.dom() =~= run.jobs.dom().insert(p));
            assert forall|q: Seq<u8>| #[trigger] after.jobs.contains_key(q) implies (
            w.files.contains_key(q) ==> 0 <= after.jobs[q] <= findings(q, w).len() && handled(
                q,
                after.jobs[q],
                after.shared.processed,
                w,
            )) by {
                if q != p {
                    assert(run.jobs.contains_key(q));
                }
            }
        },
        Step::Note(p) => {
            let k = run.jobs[p];
            lemma_noted_sound(run.shared, roots, run.jobs.dom(), w, p, k);
            assert(after.jobs.dom() =~= run.jobs.dom());
            assert forall|q: Seq<u8>| #[trigger] after.jobs.contains_key(q) implies
                after.shared.processed.contains(q) && (w.files.contains_key(q) ==> 0
                <= after.jobs[q] <= findings(q, w).len() && handled(
                q,
                after.jobs[q],
                after.shared.processed,
                w,
            )) by {
                assert(run.jobs.contains_key(q));
                if w.files.contains_key(q) {
                    assert forall|j: int| 0 <= j < after.jobs[q] implies #[trigger] target_within(
                        q,
                        j,
                        w,
                        after.shared.processed,
                    ) by {
                        if j < run.jobs[q] {
                            assert(target_within(q, j, w, run.shared.processed));
                        }
                    }
                }
            }
        },
        Step::Finish(p) => {
            assert(after.jobs.dom() =~= run.jobs.dom().remove(p));
            assert(complete(p, run.shared.processed, w)) by {
                assert forall|q: Seq<u8>| #[trigger] depends_on(p, q, w) implies run.shared.processed.contains(
                    q,
                ) by {
                    let j = choose|j: int|
                        0 <= j < findings(p, w).len() && #[trigger] target_at(p, j, w) == Some(q);
                    assert(target_within(p, j, w, run.shared.processed));
                }
            }
            assert forall|q: Seq<u8>| #[trigger] after.jobs.contains_key(q) implies
                after.shared.processed.contains(q) && (w.files.contains_key(q) ==> 0
                <= after.jobs[q] <= findings(q, w).len() && handled(
                q,
                after.jobs[q],
                after.shared.processed,
                w,
            )) by {
                assert(run.jobs.contains_key(q));
            }
        },
    }
}

/// Steps that can be taken one after the other lead from a steady state to
/// a steady state.
pub proof fn lemma_steps_steady(run: Run, steps: Seq<Step>, roots: Set<Seq<u8>>, w: World)
    requires
        steady(run, roots, w),
        possible(run, steps, w),
    ensures
        steady(taken_all(run, steps, w), roots, w),
    decreases steps.len(),
{
    if steps.len() > 0 {
        lemma_steps_steady(run, steps.drop_last(), roots, w);
        lemma_step_steady(taken_all(run, steps.drop_last(), w), steps.last(), roots, w);
    }
}

/// However the steps of the jobs fall in time, a scan that has come to rest
/// has scheduled the reachable paths and no others. So the sorted list is
/// the same for every order of the steps.
pub proof fn lemma_every_order_ends_alike(
    roots: Set<Seq<u8>>,
    queued: Seq<Seq<u8>>,
    steps: Seq<Step>,
    w: World,
)
    requires
        forall|i: int| 0 <= i < queued.len() ==> roots.contains(#[trigger] queued[i]),
        forall|r: Seq<u8>|
            roots.contains(r) ==> exists|i: int| 0 <= i < queued.len() && #[trigger] queued[i] == r,
        possible(seeded(roots, queued), steps, w),
        at_rest(taken_all(seeded(roots, queued), steps, w)),
    ensures
        taken_all(seeded(roots, queued), steps, w).shared.processed == reachable(roots, w),
{
    lemma_seeded_steady(roots, queued, w);
    lemma_steps_steady(seeded(roots, queued), steps, roots, w);
    let end = taken_all(seeded(roots, queued), steps, w);
    lemma_done_is_reachable(end.shared, roots, w);
}

/// Two scans of the same roots in the same world end with the same sorted
/// list, byte for byte, whatever the order in which the roots were queued
/// and in which the jobs of each scan took their steps, one at a time or
/// many at once.
pub proof fn lemma_two_runs_agree(
    roots: Set<Seq<u8>>,
    w: World,
    first_queued: Seq<Seq<u8>>,
    first_steps: Seq<Step>,
    first_list: Seq<Seq<u8>>,
    second_queued: Seq<Seq<u8>>,
    second_steps: Seq<Step>,
    second_list: Seq<Seq<u8>>,
)
    requires
        forall|i: int| 0 <= i < first_queued.len() ==> roots.contains(#[trigger] first_queued[i]),
        forall|r: Seq<u8>|
            roots.contains(r) ==> exists|i: int|
                0 <= i < first_queued.len() && #[trigger] first_queued[i] == r,
        forall|i: int|
            0 <= i < second_queued.len() ==> roots.contains(#[trigger] second_queued[i]),
        forall|r: Seq<u8>|
            roots.contains(r) ==> exists|i: int|
                0 <= i < second_queued.len() && #[trigger] second_queued[i] == r,
        possible(seeded(roots, first_queued), first_steps, w),
        possible(seeded(roots, second_queued), second_steps, w),
        at_rest(taken_all(seeded(roots, first_queued), first_steps, w)),
        at_rest(taken_all(seeded(roots, second_queued), second_steps, w)),
        strictly_sorted(first_list),
        strictly_sorted(second_list),
        members(first_list) == taken_all(
            seeded(roots, first_queued),
            first_steps,
            w,
        ).shared.processed,
        members(second_list) == taken_all(
            seeded(roots, second_queued),
            second_steps,
            w,
        ).shared.processed,
    ensures
        first_list == second_list,
{
    lemma_every_order_ends_alike(roots, first_queued, first_steps, w);
    lemma_every_order_ends_alike(roots, second_queued, second_steps, w);
    lemma_sorted_unique(first_list, second_list);
}

/// No step takes a path out of the processed set.
pub proof fn lemma_processed_only_grows(run: Run, step: Step, w: World)
    ensures
        forall|q: Seq<u8>|
            run.shared.processed.contains(q) ==> taken(run, step, w).shared.processed.contains(q),
{
}

/// The paths whose jobs the steps start, in the order in which they start.
pub open spec fn started(run: Run, steps: Seq<Step>, w: World) -> Seq<Seq<u8>>
    decreases steps.len(),
{
    if steps.len() == 0 {
        Seq::empty()
    } else {
        let before = started(run, steps.drop_last(), w);
        match steps.last() {
            Step::Start => before.push(taken_all(run, steps.drop_last(), w).shared.queued[0]),
            _ => before,
        }
    }
}

/// Whether no path waits twice, every waiting path is scheduled and none of
/// them is in `begun`, and every path in `begun` is scheduled.
pub open spec fn queued_once(sh: Shared, begun: Seq<Seq<u8>>) -> bool {
    &&& sh.queued.no_duplicates()
    &&& begun.no_duplicates()
    &&& forall|i: int|
        0 <= i < sh.queued.len() ==> sh.processed.contains(#[trigger] sh.queued[i])
            && !begun.contains(sh.queued[i])
    &&& forall|i: int| 0 <= i < begun.len() ==> sh.processed.contains(#[trigger] begun[i])
}

/// A step leaves the queue free of paths that wait twice or whose job has
/// begun before.
proof fn lemma_step_queued_once(run: Run, step: Step, begun: Seq<Seq<u8>>, w: World)
    requires
        queued_once(run.shared, begun),
        enabled(run, step, w),
    ensures
        queued_once(
            taken(run, step, w).shared,
            match step {
                Step::Start => begun.push(run.shared.queued[0]),
                _ => begun,
            },
        ),
{
    let sh = run.shared;
    let after = taken(run, step, w).shared;
    match step {
        Step::Start => {
            let p = sh.queued[0];
            let now = begun.push(p);
            assert forall|i: int, j: int|
                0 <= i < after.queued.len() && 0 <= j < after.queued.len() && i
                    != j implies after.queued[i] != after.queued[j] by {
                assert(after.queued[i] == sh.queued[i + 1]);
                assert(after.queued[j] == sh.queued[j + 1]);
            }
            assert forall|i: int, j: int|
                0 <= i < now.len() && 0 <= j < now.len() && i != j implies now[i] != now[j] by {
                if i < begun.len() && j < begun.len() {
                } else if i < begun.len() {
                    assert(begun.contains(begun[i]));
                } else {
                    assert(begun.contains(begun[j]));
                }
            }
            assert forall|i: int| 0 <= i < after.queued.len() implies after.processed.contains(
                #[trigger] after.queued[i],
            ) && !now.contains(after.queued[i]) by {
                assert(after.queued[i] == sh.queued[i + 1]);
                if now.contains(after.queued[i]) {
                    let k = choose|k: int| 0 <= k < now.len() && now[k] == after.queued[i];
                    if k < begun.len() {
                        assert(begun.contains(begun[k]));
                    }
                }
            }
            assert forall|i: int| 0 <= i < now.len() implies after.processed.contains(
                #[trigger] now[i],
            ) by {
                if i < begun.len() {
                    assert(now[i] == begun[i]);
                }
            }
        },
        Step::Note(p) => {
            if after.queued != sh.queued {
                let q = after.queued.last();
                assert(after.queued == sh.queued.push(q));
                assert(!sh.processed.contains(q));
                assert forall|i: int, j: int|
                    0 <= i < after.queued.len() && 0 <= j < after.queued.len() && i
                        != j implies after.queued[i] != after.queued[j] by {
                    if i < sh.queued.len() {
                        assert(after.queued[i] == sh.queued[i]);
                    }
                    if j < sh.queued.len() {
                        assert(after.queued[j] == sh.queued[j]);
                    }
                }
                assert forall|i: int| 0 <= i < after.queued.len() implies after.processed.contains(
                    #[trigger] after.queued[i],
                ) && !begun.contains(after.queued[i]) by {
                    if i < sh.queued.len() {
                        assert(after.queued[i] == sh.queued[i]);
                    } else if begun.contains(q) {
                        let k = choose|k: int| 0 <= k < begun.len() && begun[k] == q;
                        assert(sh.processed.contains(begun[k]));
                    }
                }
            }
        },
        Step::Finish(p) => {},
    }
}

/// No job starts twice for the same path: in a scan that begins with each
/// root queued once, the paths whose jobs start are all different, whatever
/// the order of the steps.
pub proof fn lemma_every_path_scanned_once(
    roots: Set<Seq<u8>>,
    queued: Seq<Seq<u8>>,
    steps: Seq<Step>,
    w: World,
)
    requires
        queued.no_duplicates(),
        forall|i: int| 0 <= i < queued.len() ==> roots.contains(#[trigger] queued[i]),
        possible(seeded(roots, queued), steps, w),
    ensures
        started(seeded(roots, queued), steps, w).no_duplicates(),
        queued_once(
            taken_all(seeded(roots, queued), steps, w).shared,
            started(seeded(roots, queued), steps, w),
        ),
    decreases steps.len(),
{
    let run = seeded(roots, queued);
    if steps.len() > 0 {
        lemma_every_path_scanned_once(roots, queued, steps.drop_last(), w);
        lemma_step_queued_once(
            taken_all(run, steps.drop_last(), w),
            steps.last(),
            started(run, steps.drop_last(), w),
            w,
        );
    }
}

} // verus!
