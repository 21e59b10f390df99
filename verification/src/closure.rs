//! What a scan has to find: every file that can be reached from the root
//! files by following directives, and nothing else.

use vstd::prelude::*;
use crate::directive::{scan_result, Found, IncludeSearch};
use crate::path::parent;
use crate::resolve::{lemma_resolution_is_file, resolution};
use crate::scan::{noted, noted_all};
use crate::scheduler::{add_outcome, FileAdded, Search, Shared};

verus! {

/// Everything that decides what a scan finds, apart from the root files.
pub struct World {
    pub search: Search,
    /// The macros that every file starts with.
    pub defines: Map<Seq<u8>, Seq<u8>>,
    /// The files that exist, each with its content.
    pub files: Map<Seq<u8>, Seq<u8>>,
}

/// The file that a finding in a file of the directory `base_dir` stands
/// for, if it stands for one.
pub open spec fn target(
    base_dir: Seq<u8>,
    found: Found,
    search: Search,
    files: Set<Seq<u8>>,
) -> Option<Seq<u8>> {
    match found {
        Found::Spec(name, kind) => resolution(
            base_dir,
            name,
            kind,
            search.includes,
            search.platform,
            files,
        ),
        _ => None,
    }
}

/// What the scanner finds in the file at `path`.
pub open spec fn findings(path: Seq<u8>, w: World) -> Seq<Found> {
    scan_result(w.files[path], w.defines).found
}

/// The file that the finding at position `i` of the file at `path` stands
/// for.
pub open spec fn target_at(path: Seq<u8>, i: int, w: World) -> Option<Seq<u8>> {
    target(parent(path, w.search.platform), findings(path, w)[i], w.search, w.files.dom())
}

/// Whether the file at `p` exists and names the file at `q` in one of its
/// directives.
pub open spec fn depends_on(p: Seq<u8>, q: Seq<u8>, w: World) -> bool {
    w.files.contains_key(p) && exists|i: int|
        0 <= i < findings(p, w).len() && #[trigger] target_at(p, i, w) == Some(q)
}

/// The paths that are at most `n` directives away from a root.
pub open spec fn reached(roots: Set<Seq<u8>>, n: nat, w: World) -> Set<Seq<u8>>
    decreases n,
{
    if n == 0 {
        roots
    } else {
        let near = reached(roots, (n - 1) as nat, w);
        Set::new(
            |q: Seq<u8>|
                near.contains(q) || exists|p: Seq<u8>|
                    near.contains(p) && #[trigger] depends_on(p, q, w),
        )
    }
}

/// The roots and every path that a chain of directives leads to from a
/// root.
pub open spec fn reachable(roots: Set<Seq<u8>>, w: World) -> Set<Seq<u8>> {
    Set::new(|q: Seq<u8>| exists|n: nat| #[trigger] reached(roots, n, w).contains(q))
}

/// Whether the finding at position `i` of the file at `p` stands for no
/// file or for one in `set`.
pub open spec fn target_within(p: Seq<u8>, i: int, w: World, set: Set<Seq<u8>>) -> bool {
    match target_at(p, i, w) {
        Some(q) => set.contains(q),
        None => true,
    }
}

/// Whether every file that the file at `p` names is in `set`.
pub open spec fn complete(p: Seq<u8>, set: Set<Seq<u8>>, w: World) -> bool {
    forall|q: Seq<u8>| #[trigger] depends_on(p, q, w) ==> set.contains(q)
}

/// Whether `p` is waiting in `queued`.
pub open spec fn waiting(queued: Seq<Seq<u8>>, p: Seq<u8>) -> bool {
    exists|i: int| 0 <= i < queued.len() && #[trigger] queued[i] == p
}

/// Whether a cache entry is right: the name resolves, and to a scheduled
/// path.
pub open spec fn cached_right(
    origin: Seq<u8>,
    name: Seq<u8>,
    kind: IncludeSearch,
    processed: Set<Seq<u8>>,
    w: World,
) -> bool {
    match resolution(origin, name, kind, w.search.includes, w.search.platform, w.files.dom()) {
        Some(q) => processed.contains(q),
        None => false,
    }
}

/// What holds of the shared state at every moment of a scan of `roots` in
/// the world `w`, while the jobs for the paths in `active` are in flight:
/// every scheduled path is reachable, and is a root or a file; what is
/// queued is scheduled; a scheduled path is queued, or its job is in
/// flight, or every file that it names is scheduled too; and every cache
/// entry is right.
pub open spec fn sound(sh: Shared, roots: Set<Seq<u8>>, active: Set<Seq<u8>>, w: World) -> bool {
    &&& forall|p: Seq<u8>| #[trigger]
        sh.processed.contains(p) ==> reachable(roots, w).contains(p) && (roots.contains(p)
            || w.files.contains_key(p))
    &&& forall|i: int| 0 <= i < sh.queued.len() ==> sh.processed.contains(#[trigger] sh.queued[i])
    &&& forall|p: Seq<u8>| #[trigger]
        sh.processed.contains(p) ==> waiting(sh.queued, p) || active.contains(p) || complete(
            p,
            sh.processed,
            w,
        )
    &&& forall|origin: Seq<u8>, name: Seq<u8>| #[trigger]
        sh.local.contains((origin, name)) ==> cached_right(
            origin,
            name,
            IncludeSearch::Local,
            sh.processed,
            w,
        )
    &&& forall|origin: Seq<u8>, name: Seq<u8>| #[trigger]
        sh.system.contains((origin, name)) ==> cached_right(
            origin,
            name,
            IncludeSearch::System,
            sh.processed,
            w,
        )
}

/// A root is reachable.
pub proof fn lemma_root_reachable(roots: Set<Seq<u8>>, w: World, r: Seq<u8>)
    requires
        roots.contains(r),
    ensures
        reachable(roots, w).contains(r),
{
    assert(reached(roots, 0, w).contains(r));
}

/// What a reachable file names is reachable.
pub proof fn lemma_reachable_step(roots: Set<Seq<u8>>, w: World, p: Seq<u8>, q: Seq<u8>)
    requires
        reachable(roots, w).contains(p),
        depends_on(p, q, w),
    ensures
        reachable(roots, w).contains(q),
{
    let n = choose|n: nat| #[trigger] reached(roots, n, w).contains(p);
    assert(reached(roots, (n + 1) as nat, w).contains(q));
}

/// A set that holds the roots, and with each member all that the member
/// names, holds every path within `n` directives of a root.
pub proof fn lemma_closed_holds_reached(roots: Set<Seq<u8>>, w: World, set: Set<Seq<u8>>, n: nat)
    requires
        forall|r: Seq<u8>| roots.contains(r) ==> set.contains(r),
        forall|p: Seq<u8>| set.contains(p) ==> complete(p, set, w),
    ensures
        forall|q: Seq<u8>| reached(roots, n, w).contains(q) ==> set.contains(q),
    decreases n,
{
    if n > 0 {
        lemma_closed_holds_reached(roots, w, set, (n - 1) as nat);
        let near = reached(roots, (n - 1) as nat, w);
        assert forall|q: Seq<u8>| reached(roots, n, w).contains(q) implies set.contains(q) by {
            if !near.contains(q) {
                let p = choose|p: Seq<u8>| near.contains(p) && #[trigger] depends_on(p, q, w);
                assert(set.contains(p));
                assert(complete(p, set, w));
            }
        }
    }
}

/// The reachable paths are the least set that holds the roots and, with
/// each member, all that the member names.
pub proof fn lemma_reachable_is_least(roots: Set<Seq<u8>>, w: World, set: Set<Seq<u8>>)
    requires
        forall|r: Seq<u8>| roots.contains(r) ==> set.contains(r),
        forall|p: Seq<u8>| set.contains(p) ==> complete(p, set, w),
    ensures
        forall|q: Seq<u8>| reachable(roots, w).contains(q) ==> set.contains(q),
{
    assert forall|q: Seq<u8>| reachable(roots, w).contains(q) implies set.contains(q) by {
        let n = choose|n: nat| #[trigger] reached(roots, n, w).contains(q);
        lemma_closed_holds_reached(roots, w, set, n);
    }
}

/// When nothing is queued and no job is in flight, the scheduled paths are
/// exactly the reachable ones.
pub proof fn lemma_done_is_reachable(sh: Shared, roots: Set<Seq<u8>>, w: World)
    requires
        sound(sh, roots, Set::empty(), w),
        sh.queued.len() == 0,
        forall|r: Seq<u8>| roots.contains(r) ==> sh.processed.contains(r),
    ensures
        sh.processed == reachable(roots, w),
{
    assert forall|p: Seq<u8>| sh.processed.contains(p) implies complete(p, sh.processed, w) by {
        assert(!waiting(sh.queued, p));
    }
    lemma_reachable_is_least(roots, w, sh.processed);
    assert(sh.processed =~= reachable(roots, w));
}

/// Scheduling a root keeps the state sound.
pub proof fn lemma_root_added_sound(
    sh: Shared,
    roots: Set<Seq<u8>>,
    active: Set<Seq<u8>>,
    w: World,
    r: Seq<u8>,
)
    requires
        sound(sh, roots, active, w),
        roots.contains(r),
        !sh.processed.contains(r),
    ensures
        sound(
            Shared { processed: sh.processed.insert(r), queued: sh.queued.push(r), ..sh },
            roots,
            active,
            w,
        ),
{
    let after = Shared { processed: sh.processed.insert(r), queued: sh.queued.push(r), ..sh };
    lemma_root_reachable(roots, w, r);
    lemma_grown_sound(sh, after, roots, active, w, r);
}

/// A state that differs from a sound one by one more scheduled path, which
/// is reachable, is a root or a file, and is queued last, and by cache
/// entries that are right, is sound.
proof fn lemma_grown_sound(
    sh: Shared,
    after: Shared,
    roots: Set<Seq<u8>>,
    active: Set<Seq<u8>>,
    w: World,
    q: Seq<u8>,
)
    requires
        sound(sh, roots, active, w),
        after.processed == sh.processed.insert(q),
        after.queued == sh.queued.push(q),
        reachable(roots, w).contains(q),
        roots.contains(q) || w.files.contains_key(q),
        forall|origin: Seq<u8>, name: Seq<u8>| #[trigger]
            after.local.contains((origin, name)) ==> sh.local.contains((origin, name))
                || cached_right(origin, name, IncludeSearch::Local, after.processed, w),
        forall|origin: Seq<u8>, name: Seq<u8>| #[trigger]
            after.system.contains((origin, name)) ==> sh.system.contains((origin, name))
                || cached_right(origin, name, IncludeSearch::System, after.processed, w),
    ensures
        sound(after, roots, active, w),
{
    assert(after.queued[sh.queued.len() as int] == q);
    assert forall|i: int| 0 <= i < after.queued.len() implies after.processed.contains(
        #[trigger] after.queued[i],
    ) by {
        if i < sh.queued.len() {
            assert(after.queued[i] == sh.queued[i]);
        }
    }
    assert forall|p: Seq<u8>| #[trigger] after.processed.contains(p) implies waiting(
        after.queued,
        p,
    ) || active.contains(p) || complete(p, after.processed, w) by {
        if p == q {
            assert(waiting(after.queued, p));
        } else {
            assert(sh.processed.contains(p));
            if waiting(sh.queued, p) {
                let i = choose|i: int| 0 <= i < sh.queued.len() && #[trigger] sh.queued[i] == p;
                assert(after.queued[i] == p);
            } else if complete(p, sh.processed, w) {
                assert(complete(p, after.processed, w));
            }
        }
    }
    assert forall|origin: Seq<u8>, name: Seq<u8>| #[trigger]
        after.local.contains((origin, name)) implies cached_right(
        origin,
        name,
        IncludeSearch::Local,
        after.processed,
        w,
    ) by {
        if sh.local.contains((origin, name)) {
            assert(cached_right(origin, name, IncludeSearch::Local, sh.processed, w));
        }
    }
    assert forall|origin: Seq<u8>, name: Seq<u8>| #[trigger]
        after.system.contains((origin, name)) implies cached_right(
        origin,
        name,
        IncludeSearch::System,
        after.processed,
        w,
    ) by {
        if sh.system.contains((origin, name)) {
            assert(cached_right(origin, name, IncludeSearch::System, sh.processed, w));
        }
    }
}

/// Taking the first path off the queue and counting its job as in flight
/// keeps the state sound.
pub proof fn lemma_polled_sound(sh: Shared, roots: Set<Seq<u8>>, active: Set<Seq<u8>>, w: World)
    requires
        sound(sh, roots, active, w),
        sh.queued.len() > 0,
    ensures
        sound(Shared { queued: sh.queued.skip(1), ..sh }, roots, active.insert(sh.queued[0]), w),
        sh.processed.contains(sh.queued[0]),
{
    let after = Shared { queued: sh.queued.skip(1), ..sh };
    assert forall|i: int| 0 <= i < after.queued.len() implies after.processed.contains(
        #[trigger] after.queued[i],
    ) by {
        assert(after.queued[i] == sh.queued[i + 1]);
    }
    assert forall|p: Seq<u8>| #[trigger] after.processed.contains(p) implies waiting(
        after.queued,
        p,
    ) || active.insert(sh.queued[0]).contains(p) || complete(p, after.processed, w) by {
        if waiting(sh.queued, p) {
            let i = choose|i: int| 0 <= i < sh.queued.len() && #[trigger] sh.queued[i] == p;
            if i > 0 {
                assert(after.queued[i - 1] == p);
            }
        }
    }
}

/// Handling one finding of a file whose job is in flight keeps the state
/// sound, takes nothing out of the processed set, and leaves the file that
/// the finding stands for scheduled. The queue grows by as many paths as
/// the processed set does.
pub proof fn lemma_noted_sound(
    sh: Shared,
    roots: Set<Seq<u8>>,
    active: Set<Seq<u8>>,
    w: World,
    p: Seq<u8>,
    i: int,
)
    requires
        sound(sh, roots, active, w),
        sh.processed.contains(p),
        w.files.contains_key(p),
        0 <= i < findings(p, w).len(),
    ensures
        ({
            let after = noted(
                sh,
                parent(p, w.search.platform),
                findings(p, w)[i],
                w.search,
                w.files.dom(),
            );
            &&& sound(after, roots, active, w)
            &&& forall|q: Seq<u8>| sh.processed.contains(q) ==> after.processed.contains(q)
            &&& target_at(p, i, w) matches Some(q) ==> after.processed.contains(q)
            &&& sh.processed.finite() ==> after.processed.finite() && after.processed.len()
                - sh.processed.len() == after.queued.len() - sh.queued.len()
        }),
{
    let base_dir = parent(p, w.search.platform);
    let found = findings(p, w)[i];
    let after = noted(sh, base_dir, found, w.search, w.files.dom());
    match found {
        Found::Spec(name, kind) => {
            let res = resolution(
                base_dir,
                name,
                kind,
                w.search.includes,
                w.search.platform,
                w.files.dom(),
            );
            assert(target_at(p, i, w) == res);
            lemma_resolution_is_file(
                base_dir,
                name,
                kind,
                w.search.includes,
                w.search.platform,
                w.files.dom(),
            );
            match add_outcome(sh, base_dir, name, kind, w.search, w.files.dom()) {
                FileAdded::Cached => {
                    assert(sh.cache(kind).contains((base_dir, name)));
                    assert(cached_right(base_dir, name, kind, sh.processed, w));
                },
                FileAdded::NotFound => {},
                FileAdded::Known(q) => {
                    assert(cached_right(base_dir, name, kind, sh.processed, w));
                },
                FileAdded::Queued(q) => {
                    assert(depends_on(p, q, w));
                    lemma_reachable_step(roots, w, p, q);
                    assert(cached_right(base_dir, name, kind, after.processed, w));
                    lemma_grown_sound(sh, after, roots, active, w, q);
                },
            }
        },
        _ => {},
    }
}

/// Handling the first `k` findings of a file whose job is in flight keeps
/// the state sound, takes nothing out of the processed set, and leaves the
/// files that those findings stand for scheduled.
pub proof fn lemma_noted_all_sound(
    sh: Shared,
    roots: Set<Seq<u8>>,
    active: Set<Seq<u8>>,
    w: World,
    p: Seq<u8>,
    k: int,
)
    requires
        sound(sh, roots, active, w),
        sh.processed.contains(p),
        w.files.contains_key(p),
        0 <= k <= findings(p, w).len(),
    ensures
        ({
            let after = noted_all(
                sh,
                parent(p, w.search.platform),
                findings(p, w).take(k),
                w.search,
                w.files.dom(),
            );
            &&& sound(after, roots, active, w)
            &&& forall|q: Seq<u8>| sh.processed.contains(q) ==> after.processed.contains(q)
            &&& forall|j: int| 0 <= j < k ==> #[trigger] target_within(p, j, w, after.processed)
            &&& sh.processed.finite() ==> after.processed.finite() && after.processed.len()
                - sh.processed.len() == after.queued.len() - sh.queued.len()
        }),
    decreases k,
{
    let base_dir = parent(p, w.search.platform);
    let all = findings(p, w);
    if k > 0 {
        lemma_noted_all_sound(sh, roots, active, w, p, k - 1);
        let mid = noted_all(sh, base_dir, all.take(k - 1), w.search, w.files.dom());
        assert(all.take(k).drop_last() =~= all.take(k - 1));
        assert(all.take(k).last() == all[k - 1]);
        lemma_noted_sound(mid, roots, active, w, p, k - 1);
        let after = noted_all(sh, base_dir, all.take(k), w.search, w.files.dom());
        assert forall|j: int| 0 <= j < k implies #[trigger] target_within(
            p,
            j,
            w,
            after.processed,
        ) by {
            if j < k - 1 {
                assert(target_within(p, j, w, mid.processed));
            }
        }
    }
}

/// When every finding of a file has been handled, its job is over: the
/// state is sound without that job.
pub proof fn lemma_job_sound(
    sh: Shared,
    roots: Set<Seq<u8>>,
    active: Set<Seq<u8>>,
    w: World,
    p: Seq<u8>,
)
    requires
        sound(sh, roots, active, w),
        sh.processed.contains(p),
        w.files.contains_key(p),
    ensures
        ({
            let after = noted_all(
                sh,
                parent(p, w.search.platform),
                findings(p, w),
                w.search,
                w.files.dom(),
            );
            &&& sound(after, roots, active.remove(p), w)
            &&& forall|q: Seq<u8>| sh.processed.contains(q) ==> after.processed.contains(q)
            &&& sh.processed.finite() ==> after.processed.finite() && after.processed.len()
                - sh.processed.len() == after.queued.len() - sh.queued.len()
        }),
{
    let all = findings(p, w);
    lemma_noted_all_sound(sh, roots, active, w, p, all.len() as int);
    assert(all.take(all.len() as int) =~= all);
    let after = noted_all(sh, parent(p, w.search.platform), all, w.search, w.files.dom());
    assert(complete(p, after.processed, w)) by {
        assert forall|q: Seq<u8>| #[trigger] depends_on(p, q, w) implies after.processed.contains(
            q,
        ) by {
            let j = choose|j: int| 0 <= j < all.len() && #[trigger] target_at(p, j, w) == Some(q);
            assert(target_within(p, j, w, after.processed));
        }
    }
}

/// The job for a path that is no file is over at once.
pub proof fn lemma_unreadable_sound(
    sh: Shared,
    roots: Set<Seq<u8>>,
    active: Set<Seq<u8>>,
    w: World,
    p: Seq<u8>,
)
    requires
        sound(sh, roots, active, w),
        !w.files.contains_key(p),
    ensures
        sound(sh, roots, active.remove(p), w),
{
    assert(complete(p, sh.processed, w));
}

} // verus!
