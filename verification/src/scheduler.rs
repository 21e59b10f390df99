//! The shared state of a scan and the steps that change it: the processed
//! set, the work queue, the two resolution caches and the count of jobs in
//! flight.
//!
//! Every step is one call on one value, so a caller that shares the
//! scheduler between workers guards it as a whole and holds the guard for
//! the length of one call.

use std::collections::VecDeque;
use vstd::prelude::*;
use crate::bytes::views;
use crate::directive::IncludeSearch;
use crate::path::{absolute, path_absolute};
use crate::platform::Platform;
use crate::processed::{members, strictly_sorted, ProcessedSet};
use crate::resolve::{include_resolve_path, resolution, FileTable};
use crate::resolved::{ResolvedPathCollection, ResolvedPaths};

verus! {

/// What became of a name that a directive gave.
#[derive(Clone, Debug, PartialEq, Eq)]
pub enum FileAdd {
    /// The name had been resolved from this directory before; nothing was
    /// looked up.
    Cached,
    /// No candidate is a file. The name is dropped, and the caller may warn.
    NotFound,
    /// The name resolved to a path that was scheduled before.
    Known(Vec<u8>),
    /// The name resolved to a new path, which was scheduled and queued.
    Queued(Vec<u8>),
}

/// A `FileAdd`, as a mathematical value.
pub enum FileAdded {
    Cached,
    NotFound,
    Known(Seq<u8>),
    Queued(Seq<u8>),
}

impl View for FileAdd {
    type V = FileAdded;

    open spec fn view(&self) -> FileAdded {
        match self {
            FileAdd::Cached => FileAdded::Cached,
            FileAdd::NotFound => FileAdded::NotFound,
            FileAdd::Known(p) => FileAdded::Known(p@),
            FileAdd::Queued(p) => FileAdded::Queued(p@),
        }
    }
}

/// What `file_add` answers for a name, given what was cached and scheduled
/// before the call.
pub open spec fn file_added(
    cached: bool,
    target: Option<Seq<u8>>,
    processed: Set<Seq<u8>>,
) -> FileAdded {
    if cached {
        FileAdded::Cached
    } else {
        match target {
            None => FileAdded::NotFound,
            Some(p) => if processed.contains(p) {
                FileAdded::Known(p)
            } else {
                FileAdded::Queued(p)
            },
        }
    }
}

/// Takes the name that a directive gave in a file of the directory
/// `base_dir` and schedules the file it stands for, unless that was done
/// before.
///
/// A name in the cache `rp` is skipped. Any other name is resolved. Where
/// it resolves, the path joins the processed set and, if it was not in the
/// set, the end of the queue; the name joins the cache either way. Where it
/// does not resolve, nothing changes.
pub fn file_add(
    base_dir: &[u8],
    filename: &[u8],
    search_type: IncludeSearch,
    includes: &Vec<Vec<u8>>,
    platform: Platform,
    files: &FileTable,
    processed: &mut ProcessedSet,
    queued: &mut VecDeque<Vec<u8>>,
    rp: &mut ResolvedPathCollection,
) -> (outcome: FileAdd)
    ensures
        outcome@ == file_added(
            old(rp)@.contains((base_dir@, filename@)),
            resolution(
                base_dir@,
                filename@,
                search_type,
                views(includes@),
                platform,
                files@.dom(),
            ),
            old(processed)@,
        ),
        match outcome@ {
            FileAdded::Cached | FileAdded::NotFound => {
                &&& final(rp)@ == old(rp)@
                &&& final(processed)@ == old(processed)@
                &&& final(processed).count() == old(processed).count()
                &&& views(final(queued)@) == views(old(queued)@)
            },
            FileAdded::Known(p) => {
                &&& final(rp)@ == old(rp)@.insert((base_dir@, filename@))
                &&& final(processed)@ == old(processed)@
                &&& final(processed).count() == old(processed).count()
                &&& views(final(queued)@) == views(old(queued)@)
            },
            FileAdded::Queued(p) => {
                &&& final(rp)@ == old(rp)@.insert((base_dir@, filename@))
                &&& final(processed)@ == old(processed)@.insert(p)
                &&& final(processed).count() == old(processed).count() + 1
                &&& views(final(queued)@) == views(old(queued)@).push(p)
            },
        },
{
    if rp.contains(base_dir, filename) {
        return FileAdd::Cached;
    }
    match include_resolve_path(base_dir, filename, search_type, includes, platform, files) {
        None => FileAdd::NotFound,
        Some(path) => {
            let ghost before = views(queued@);
            let fresh = processed.insert(path.clone());
            rp.insert(vstd::slice::slice_to_vec(base_dir), vstd::slice::slice_to_vec(filename));
            if fresh {
                queued.push_back(path.clone());
                assert(views(queued@) =~= before.push(path@));
                FileAdd::Queued(path)
            } else {
                assert(old(processed)@.insert(path@) =~= old(processed)@);
                FileAdd::Known(path)
            }
        },
    }
}

/// What the workers of a scan share, as a mathematical value.
pub struct Shared {
    pub processed: Set<Seq<u8>>,
    pub queued: Seq<Seq<u8>>,
    pub local: Set<(Seq<u8>, Seq<u8>)>,
    pub system: Set<(Seq<u8>, Seq<u8>)>,
}

impl Shared {
    /// The cache for names of the given kind.
    pub open spec fn cache(self, kind: IncludeSearch) -> Set<(Seq<u8>, Seq<u8>)> {
        match kind {
            IncludeSearch::Local => self.local,
            IncludeSearch::System => self.system,
        }
    }

    /// This value with one more entry in the cache for the given kind.
    pub open spec fn remember(self, kind: IncludeSearch, origin: Seq<u8>, name: Seq<u8>) -> Shared {
        match kind {
            IncludeSearch::Local => Shared { local: self.local.insert((origin, name)), ..self },
            IncludeSearch::System => Shared { system: self.system.insert((origin, name)), ..self },
        }
    }
}

impl View for Scheduler {
    type V = Shared;

    open spec fn view(&self) -> Shared {
        Shared {
            processed: self.processed@,
            queued: views(self.queued@),
            local: self.resolved.local@,
            system: self.resolved.system@,
        }
    }
}

/// The search directories and the platform of a scan.
pub struct Search {
    pub includes: Seq<Seq<u8>>,
    pub platform: Platform,
}

/// What adding the name `name` of kind `kind`, found in a file of the
/// directory `base_dir`, answers in the state `sh`.
pub open spec fn add_outcome(
    sh: Shared,
    base_dir: Seq<u8>,
    name: Seq<u8>,
    kind: IncludeSearch,
    search: Search,
    files: Set<Seq<u8>>,
) -> FileAdded {
    file_added(
        sh.cache(kind).contains((base_dir, name)),
        resolution(base_dir, name, kind, search.includes, search.platform, files),
        sh.processed,
    )
}

/// The state that adding a name with the given outcome leaves behind.
pub open spec fn add_effect(
    sh: Shared,
    base_dir: Seq<u8>,
    name: Seq<u8>,
    kind: IncludeSearch,
    outcome: FileAdded,
) -> Shared {
    match outcome {
        FileAdded::Cached | FileAdded::NotFound => sh,
        FileAdded::Known(p) => sh.remember(kind, base_dir, name),
        FileAdded::Queued(p) => Shared {
            processed: sh.processed.insert(p),
            queued: sh.queued.push(p),
            ..sh.remember(kind, base_dir, name)
        },
    }
}

/// The next thing for the caller to do.
#[derive(Clone, Debug, PartialEq, Eq)]
pub enum Poll {
    /// Scan this file, then call `job_done`.
    Job(Vec<u8>),
    /// Nothing is queued, but a job in flight may still queue something:
    /// yield and ask again.
    Busy,
    /// Nothing is queued and no job is in flight: the scan is over.
    Done,
}

/// Where a run stands.
#[derive(Clone, Copy, Debug, PartialEq, Eq, Structural)]
pub enum Phase {
    /// Files are queued.
    Running,
    /// Nothing is queued, and jobs are still in flight.
    Draining,
    /// Nothing is queued and no job is in flight.
    Done,
}

/// The state that the workers of one scan share.
pub struct Scheduler {
    pub processed: ProcessedSet,
    pub queued: VecDeque<Vec<u8>>,
    pub resolved: ResolvedPaths,
    /// The number of jobs handed out and not yet reported done.
    pub jobs: usize,
}

impl Scheduler {
    /// Where the run stands, from the queue and the count of jobs.
    pub open spec fn spec_phase(self) -> Phase {
        if self.queued@.len() > 0 {
            Phase::Running
        } else if self.jobs > 0 {
            Phase::Draining
        } else {
            Phase::Done
        }
    }

    /// The state before anything was scheduled.
    pub fn new() -> (s: Scheduler)
        ensures
            s.processed@ == Set::<Seq<u8>>::empty(),
            s.processed.count() == 0,
            s.queued@.len() == 0,
            s.resolved.local@ == Set::<(Seq<u8>, Seq<u8>)>::empty(),
            s.resolved.system@ == Set::<(Seq<u8>, Seq<u8>)>::empty(),
            s.jobs == 0,
    {
        Scheduler {
            processed: ProcessedSet::new(),
            queued: VecDeque::new(),
            resolved: ResolvedPaths::new(),
            jobs: 0,
        }
    }

    /// Where the run stands.
    pub fn phase(&self) -> (p: Phase)
        ensures
            p == self.spec_phase(),
    {
        if self.queued.len() > 0 {
            Phase::Running
        } else if self.jobs > 0 {
            Phase::Draining
        } else {
            Phase::Done
        }
    }

    /// Schedules a file that the scan starts from, under its collapsed path.
    /// Returns whether the path was new; only then is it queued.
    pub fn root_add(&mut self, root: &[u8], platform: Platform) -> (fresh: bool)
        ensures
            fresh == !old(self).processed@.contains(absolute(root@, platform)),
            final(self).processed@ == old(self).processed@.insert(absolute(root@, platform)),
            final(self).processed.count() == old(self).processed.count() + if fresh {
                1nat
            } else {
                0nat
            },
            views(final(self).queued@) == if fresh {
                views(old(self).queued@).push(absolute(root@, platform))
            } else {
                views(old(self).queued@)
            },
            final(self).resolved == old(self).resolved,
            final(self).jobs == old(self).jobs,
    {
        let path = path_absolute(root, platform);
        let ghost before = views(self.queued@);
        let fresh = self.processed.insert(path.clone());
        if fresh {
            self.queued.push_back(path);
            assert(views(self.queued@) =~= before.push(absolute(root@, platform)));
        }
        fresh
    }

    /// Takes the next file off the queue and counts a job for it. With an
    /// empty queue the answer is `Done` if no job is in flight and `Busy`
    /// otherwise. A job is also refused, with `Busy`, while the count of
    /// jobs is at the largest number it can hold.
    pub fn poll(&mut self) -> (next: Poll)
        ensures
            final(self).processed == old(self).processed,
            final(self).resolved == old(self).resolved,
            match next {
                Poll::Job(path) => {
                    &&& old(self).queued@.len() > 0
                    &&& old(self).jobs < usize::MAX
                    &&& path@ == old(self).queued@[0]@
                    &&& views(final(self).queued@) == views(old(self).queued@).skip(1)
                    &&& final(self).jobs == old(self).jobs + 1
                },
                Poll::Busy => {
                    &&& old(self).jobs > 0
                    &&& old(self).queued@.len() == 0 || old(self).jobs == usize::MAX
                    &&& final(self).queued@ == old(self).queued@
                    &&& final(self).jobs == old(self).jobs
                },
                Poll::Done => {
                    &&& old(self).queued@.len() == 0
                    &&& old(self).jobs == 0
                    &&& final(self).queued@ == old(self).queued@
                    &&& final(self).jobs == old(self).jobs
                },
            },
    {
        if self.queued.len() == 0 {
            if self.jobs == 0 {
                Poll::Done
            } else {
                Poll::Busy
            }
        } else if self.jobs == usize::MAX {
            Poll::Busy
        } else {
            let ghost before = views(self.queued@);
            match self.queued.pop_front() {
                Some(path) => {
                    self.jobs = self.jobs + 1;
                    assert(views(self.queued@) =~= before.skip(1));
                    Poll::Job(path)
                },
                None => Poll::Busy,
            }
        }
    }

    /// Reports that a job has ended, whether it succeeded or not. Without a
    /// job in flight nothing changes.
    pub fn job_done(&mut self)
        ensures
            final(self).processed == old(self).processed,
            final(self).queued == old(self).queued,
            final(self).resolved == old(self).resolved,
            final(self).jobs == if old(self).jobs > 0 {
                old(self).jobs - 1
            } else {
                0
            },
    {
        if self.jobs > 0 {
            self.jobs = self.jobs - 1;
        }
    }

    /// Whether `filename` has been resolved from `base_dir` before, as a
    /// name of the given kind.
    pub fn is_resolved(&self, base_dir: &[u8], filename: &[u8], search_type: IncludeSearch) -> (r:
        bool)
        ensures
            r == self@.cache(search_type).contains((base_dir@, filename@)),
    {
        match search_type {
            IncludeSearch::Local => self.resolved.local.contains(base_dir, filename),
            IncludeSearch::System => self.resolved.system.contains(base_dir, filename),
        }
    }

    /// Takes the name that a directive gave in a file of the directory
    /// `base_dir`, with the cache for names of its kind. See the function
    /// `file_add`.
    pub fn file_add(
        &mut self,
        base_dir: &[u8],
        filename: &[u8],
        search_type: IncludeSearch,
        includes: &Vec<Vec<u8>>,
        platform: Platform,
        files: &FileTable,
    ) -> (outcome: FileAdd)
        ensures
            outcome@ == add_outcome(
                old(self)@,
                base_dir@,
                filename@,
                search_type,
                Search { includes: views(includes@), platform },
                files@.dom(),
            ),
            final(self)@ == add_effect(old(self)@, base_dir@, filename@, search_type, outcome@),
            final(self).jobs == old(self).jobs,
            final(self).processed.count() >= old(self).processed.count(),
    {
        match search_type {
            IncludeSearch::Local => file_add(
                base_dir,
                filename,
                IncludeSearch::Local,
                includes,
                platform,
                files,
                &mut self.processed,
                &mut self.queued,
                &mut self.resolved.local,
            ),
            IncludeSearch::System => file_add(
                base_dir,
                filename,
                IncludeSearch::System,
                includes,
                platform,
                files,
                &mut self.processed,
                &mut self.queued,
                &mut self.resolved.system,
            ),
        }
    }

    /// The scheduled paths in lexicographic order, each once.
    pub fn sorted(&self) -> (out: Vec<Vec<u8>>)
        ensures
            strictly_sorted(views(out@)),
            members(views(out@)) == self.processed@,
            out@.len() == self.processed.count(),
    {
        self.processed.sorted()
    }
}

} // verus!
