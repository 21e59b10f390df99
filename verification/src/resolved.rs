//! The resolution cache: which names have been resolved from which
//! directory, so that the file system is not asked twice.

use vstd::prelude::*;
use crate::bytes::bytes_eq;

verus! {

/// One name that was resolved from one directory.
pub struct Resolution {
    pub origin: Vec<u8>,
    pub name: Vec<u8>,
}

/// The pairs of directory and name among `entries`.
pub open spec fn resolutions(entries: Seq<Resolution>) -> Set<(Seq<u8>, Seq<u8>)> {
    Set::new(
        |pair: (Seq<u8>, Seq<u8>)|
            exists|i: int|
                0 <= i < entries.len() && entries[i].origin@ == pair.0 && entries[i].name@
                    == pair.1,
    )
}

/// The names resolved so far, each with the directory it was resolved from.
pub struct ResolvedPathCollection {
    resolved: Vec<Resolution>,
}

impl View for ResolvedPathCollection {
    type V = Set<(Seq<u8>, Seq<u8>)>;

    closed spec fn view(&self) -> Set<(Seq<u8>, Seq<u8>)> {
        resolutions(self.resolved@)
    }
}

impl ResolvedPathCollection {
    /// The collection that remembers nothing yet.
    pub fn new() -> (c: ResolvedPathCollection)
        ensures
            c@ == Set::<(Seq<u8>, Seq<u8>)>::empty(),
    {
        let c = ResolvedPathCollection { resolved: Vec::new() };
        assert(c@ =~= Set::<(Seq<u8>, Seq<u8>)>::empty());
        c
    }

    /// Whether `name` has been resolved from `origin`.
    pub fn contains(&self, origin: &[u8], name: &[u8]) -> (r: bool)
        ensures
            r == self@.contains((origin@, name@)),
    {
        let mut i: usize = 0;
        while i < self.resolved.len()
            invariant
                i <= self.resolved.len(),
                forall|k: int|
                    0 <= k < i ==> !(self.resolved@[k].origin@ == origin@
                        && self.resolved@[k].name@ == name@),
            decreases self.resolved.len() - i,
        {
            if bytes_eq(self.resolved[i].origin.as_slice(), origin) && bytes_eq(
                self.resolved[i].name.as_slice(),
                name,
            ) {
                return true;
            }
            i += 1;
        }
        false
    }

    /// Remembers that `name` has been resolved from `origin`.
    pub fn insert(&mut self, origin: Vec<u8>, name: Vec<u8>)
        ensures
            final(self)@ == old(self)@.insert((origin@, name@)),
    {
        let ghost before = self.resolved@;
        let ghost pair = (origin@, name@);
        self.resolved.push(Resolution { origin, name });
        proof {
            let after = self.resolved@;
            assert forall|q: (Seq<u8>, Seq<u8>)|
                resolutions(after).contains(q) == resolutions(before).insert(pair).contains(
                    q,
                ) by {
                if resolutions(after).contains(q) {
                    let i = choose|i: int|
                        0 <= i < after.len() && after[i].origin@ == q.0 && after[i].name@ == q.1;
                    if i < before.len() {
                        assert(before[i] == after[i]);
                    }
                }
                if resolutions(before).contains(q) {
                    let i = choose|i: int|
                        0 <= i < before.len() && before[i].origin@ == q.0 && before[i].name@
                            == q.1;
                    assert(after[i] == before[i]);
                }
                if q == pair {
                    assert(after[before.len() as int].origin@ == q.0);
                }
            }
            assert(resolutions(after) =~= resolutions(before).insert(pair));
        }
    }
}

/// The two caches of a scan, one for each way of searching.
pub struct ResolvedPaths {
    pub local: ResolvedPathCollection,
    pub system: ResolvedPathCollection,
}

impl ResolvedPaths {
    /// Two empty caches.
    pub fn new() -> (r: ResolvedPaths)
        ensures
            r.local@ == Set::<(Seq<u8>, Seq<u8>)>::empty(),
            r.system@ == Set::<(Seq<u8>, Seq<u8>)>::empty(),
    {
        ResolvedPaths { local: ResolvedPathCollection::new(), system: ResolvedPathCollection::new() }
    }
}

} // verus!
