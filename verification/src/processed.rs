//! The set of paths that have been scheduled, kept in lexicographic order.

use vstd::prelude::*;
use crate::bytes::{
    bytes_eq, bytes_less, lemma_lex_irreflexive, lemma_lex_total, lemma_lex_transitive, lex_less,
    views,
};

verus! {

/// Whether each element comes before all that follow it. Such a sequence
/// holds nothing twice.
pub open spec fn strictly_sorted(s: Seq<Seq<u8>>) -> bool {
    forall|i: int, j: int| 0 <= i < j < s.len() ==> lex_less(#[trigger] s[i], #[trigger] s[j])
}

/// The elements of `s`, as a set.
pub open spec fn members(s: Seq<Seq<u8>>) -> Set<Seq<u8>> {
    Set::new(|p: Seq<u8>| exists|i: int| 0 <= i < s.len() && s[i] == p)
}

/// A sorted sequence holds nothing twice.
pub proof fn lemma_sorted_no_duplicates(s: Seq<Seq<u8>>)
    requires
        strictly_sorted(s),
    ensures
        s.no_duplicates(),
{
    assert forall|i: int, j: int| 0 <= i < s.len() && 0 <= j < s.len() && i != j implies s[i]
        != s[j] by {
        if i < j {
            assert(lex_less(s[i], s[j]));
            lemma_lex_irreflexive(s[i]);
        } else {
            assert(lex_less(s[j], s[i]));
            lemma_lex_irreflexive(s[i]);
        }
    }
}

/// The first element of a sorted sequence is the least of its members.
proof fn lemma_sorted_first_is_least(s: Seq<Seq<u8>>, p: Seq<u8>)
    requires
        strictly_sorted(s),
        members(s).contains(p),
    ensures
        s.len() > 0,
        p == s[0] || lex_less(s[0], p),
{
    let i = choose|i: int| 0 <= i < s.len() && s[i] == p;
    if i > 0 {
        assert(lex_less(s[0], s[i]));
    }
}

/// Two sorted sequences with the same members are the same sequence: the
/// members of a set can be listed in order in one way only.
pub proof fn lemma_sorted_unique(a: Seq<Seq<u8>>, b: Seq<Seq<u8>>)
    requires
        strictly_sorted(a),
        strictly_sorted(b),
        members(a) == members(b),
    ensures
        a == b,
    decreases a.len(),
{
    if a.len() == 0 {
        if b.len() > 0 {
            assert(members(b).contains(b[0]));
            assert(members(a).contains(b[0]));
        }
        assert(a =~= b);
    } else {
        assert(members(a).contains(a[0]));
        assert(members(b).contains(a[0]));
        lemma_sorted_first_is_least(b, a[0]);
        assert(members(b).contains(b[0]));
        assert(members(a).contains(b[0]));
        lemma_sorted_first_is_least(a, b[0]);
        if a[0] != b[0] {
            lemma_lex_transitive(a[0], b[0], a[0]);
            lemma_lex_irreflexive(a[0]);
        }
        let ta = a.skip(1);
        let tb = b.skip(1);
        assert(strictly_sorted(ta)) by {
            assert forall|i: int, j: int| 0 <= i < j < ta.len() implies lex_less(
                #[trigger] ta[i],
                #[trigger] ta[j],
            ) by {
                assert(lex_less(a[i + 1], a[j + 1]));
            }
        }
        assert(strictly_sorted(tb)) by {
            assert forall|i: int, j: int| 0 <= i < j < tb.len() implies lex_less(
                #[trigger] tb[i],
                #[trigger] tb[j],
            ) by {
                assert(lex_less(b[i + 1], b[j + 1]));
            }
        }
        assert(members(ta) =~= members(tb)) by {
            assert forall|p: Seq<u8>| members(ta).contains(p) == members(tb).contains(p) by {
                lemma_tail_members(a, p);
                lemma_tail_members(b, p);
            }
        }
        lemma_sorted_unique(ta, tb);
        assert(a =~= seq![a[0]] + ta);
        assert(b =~= seq![b[0]] + tb);
    }
}

/// The members of the tail of a sorted sequence are its members other than
/// the first.
proof fn lemma_tail_members(s: Seq<Seq<u8>>, p: Seq<u8>)
    requires
        strictly_sorted(s),
        s.len() > 0,
    ensures
        members(s.skip(1)).contains(p) == (members(s).contains(p) && p != s[0]),
{
    let t = s.skip(1);
    if members(t).contains(p) {
        let i = choose|i: int| 0 <= i < t.len() && t[i] == p;
        assert(s[i + 1] == p);
        assert(lex_less(s[0], s[i + 1]));
        lemma_lex_irreflexive(s[0]);
    }
    if members(s).contains(p) && p != s[0] {
        let i = choose|i: int| 0 <= i < s.len() && s[i] == p;
        assert(t[i - 1] == p);
    }
}

/// A sorted sequence has as many elements as it has members.
pub proof fn lemma_sorted_members_len(s: Seq<Seq<u8>>)
    requires
        strictly_sorted(s),
    ensures
        members(s).finite(),
        members(s).len() == s.len(),
    decreases s.len(),
{
    if s.len() == 0 {
        assert(members(s) =~= Set::<Seq<u8>>::empty());
    } else {
        let init = s.drop_last();
        assert(strictly_sorted(init)) by {
            assert forall|i: int, j: int| 0 <= i < j < init.len() implies lex_less(
                #[trigger] init[i],
                #[trigger] init[j],
            ) by {
                assert(lex_less(s[i], s[j]));
            }
        }
        lemma_sorted_members_len(init);
        assert(members(s) =~= members(init).insert(s.last())) by {
            assert forall|p: Seq<u8>| members(s).contains(p) == members(init).insert(
                s.last(),
            ).contains(p) by {
                if members(s).contains(p) {
                    let i = choose|i: int| 0 <= i < s.len() && s[i] == p;
                    if i < init.len() {
                        assert(init[i] == p);
                    }
                }
                if members(init).contains(p) {
                    let i = choose|i: int| 0 <= i < init.len() && init[i] == p;
                    assert(s[i] == p);
                }
                if p == s.last() {
                    assert(s[s.len() - 1] == p);
                }
            }
        }
        if members(init).contains(s.last()) {
            let i = choose|i: int| 0 <= i < init.len() && init[i] == s.last();
            assert(lex_less(s[i], s[s.len() - 1]));
            lemma_lex_irreflexive(s.last());
        }
    }
}

/// The paths that have been scheduled for scanning. A path is only ever
/// added.
pub struct ProcessedSet {
    items: Vec<Vec<u8>>,
}

impl View for ProcessedSet {
    type V = Set<Seq<u8>>;

    closed spec fn view(&self) -> Set<Seq<u8>> {
        members(views(self.items@))
    }
}

impl ProcessedSet {
    #[verifier::type_invariant]
    spec fn in_order(self) -> bool {
        strictly_sorted(views(self.items@))
    }

    /// How many paths the set holds.
    pub closed spec fn count(self) -> nat {
        self.items@.len()
    }

    /// The empty set.
    pub fn new() -> (s: ProcessedSet)
        ensures
            s@ == Set::<Seq<u8>>::empty(),
            s.count() == 0,
    {
        let s = ProcessedSet { items: Vec::new() };
        assert(s@ =~= Set::<Seq<u8>>::empty());
        s
    }

    /// How many paths the set holds.
    pub fn len(&self) -> (n: usize)
        ensures
            n == self.count(),
            self@.finite(),
            self@.len() == n,
    {
        proof {
            use_type_invariant(self);
            lemma_sorted_members_len(views(self.items@));
        }
        self.items.len()
    }

    /// The position of `path`, or the position where it belongs.
    fn position(&self, path: &[u8]) -> (at: usize)
        ensures
            at <= self.items@.len(),
            forall|j: int| 0 <= j < at ==> lex_less(#[trigger] views(self.items@)[j], path@),
            forall|j: int|
                at <= j < self.items@.len() ==> !lex_less(#[trigger] views(self.items@)[j], path@),
    {
        proof {
            use_type_invariant(self);
        }
        let mut at: usize = 0;
        while at < self.items.len() && bytes_less(self.items[at].as_slice(), path)
            invariant
                at <= self.items@.len(),
                strictly_sorted(views(self.items@)),
                forall|j: int| 0 <= j < at ==> lex_less(#[trigger] views(self.items@)[j], path@),
            decreases self.items.len() - at,
        {
            at += 1;
        }
        assert forall|j: int| at <= j < self.items@.len() implies !lex_less(
            #[trigger] views(self.items@)[j],
            path@,
        ) by {
            if j > at && lex_less(views(self.items@)[j], path@) {
                assert(lex_less(views(self.items@)[at as int], views(self.items@)[j]));
                lemma_lex_transitive(views(self.items@)[at as int], views(self.items@)[j], path@);
            }
        }
        at
    }

    /// Whether `path` has been scheduled.
    pub fn contains(&self, path: &[u8]) -> (r: bool)
        ensures
            r == self@.contains(path@),
    {
        proof {
            use_type_invariant(self);
        }
        let at = self.position(path);
        let r = at < self.items.len() && bytes_eq(self.items[at].as_slice(), path);
        proof {
            let s = views(self.items@);
            if r {
                assert(s[at as int] == path@);
            } else if self@.contains(path@) {
                let i = choose|i: int| 0 <= i < s.len() && s[i] == path@;
                lemma_lex_irreflexive(path@);
                if i > at {
                    assert(lex_less(s[at as int], s[i]));
                }
            }
        }
        r
    }

    /// Adds `path` unless it is there already, in one step. Returns whether
    /// it was added.
    pub fn insert(&mut self, path: Vec<u8>) -> (fresh: bool)
        ensures
            fresh == !old(self)@.contains(path@),
            final(self)@ == old(self)@.insert(path@),
            final(self).count() == old(self).count() + if fresh { 1nat } else { 0nat },
    {
        proof {
            use_type_invariant(&*self);
        }
        let ghost before = views(self.items@);
        let ghost p = path@;
        let at = self.position(path.as_slice());
        if at < self.items.len() && bytes_eq(self.items[at].as_slice(), path.as_slice()) {
            assert(before[at as int] == p);
            assert(self@ =~= self@.insert(p));
            return false;
        }
        let mut items: Vec<Vec<u8>> = Vec::new();
        core::mem::swap(&mut self.items, &mut items);
        items.insert(at, path);
        proof {
            let after = views(items@);
            assert(after =~= before.insert(at as int, p));
            lemma_lex_irreflexive(p);
            assert forall|i: int, j: int| 0 <= i < j < after.len() implies lex_less(
                #[trigger] after[i],
                #[trigger] after[j],
            ) by {
                if j < at {
                    assert(lex_less(before[i], before[j]));
                } else if j == at {
                    assert(lex_less(before[i], p));
                } else if i < at {
                    assert(lex_less(before[i], before[j - 1]));
                } else if i == at {
                    lemma_lex_total(before[at as int], p);
                    if j - 1 > at {
                        assert(lex_less(before[at as int], before[j - 1]));
                        lemma_lex_transitive(p, before[at as int], before[j - 1]);
                    }
                } else {
                    assert(lex_less(before[i - 1], before[j - 1]));
                }
            }
            assert forall|q: Seq<u8>| members(after).contains(q) == members(before).insert(
                p,
            ).contains(q) by {
                if members(after).contains(q) {
                    let i = choose|i: int| 0 <= i < after.len() && after[i] == q;
                    if i < at {
                        assert(before[i] == q);
                    } else if i > at {
                        assert(before[i - 1] == q);
                    }
                }
                if members(before).contains(q) {
                    let i = choose|i: int| 0 <= i < before.len() && before[i] == q;
                    if i < at {
                        assert(after[i] == q);
                    } else {
                        assert(after[i + 1] == q);
                    }
                }
                if q == p {
                    assert(after[at as int] == q);
                }
            }
            assert(members(after) =~= members(before).insert(p));
            if members(before).contains(p) {
                let i = choose|i: int| 0 <= i < before.len() && before[i] == p;
                if i > at {
                    assert(lex_less(before[at as int], before[i]));
                }
            }
        }
        self.items = items;
        true
    }

    /// The paths in lexicographic order, each once.
    pub fn sorted(&self) -> (out: Vec<Vec<u8>>)
        ensures
            strictly_sorted(views(out@)),
            members(views(out@)) == self@,
            out@.len() == self.count(),
    {
        proof {
            use_type_invariant(self);
        }
        let mut out: Vec<Vec<u8>> = Vec::new();
        let mut i: usize = 0;
        assert(views(out@) =~= views(self.items@).subrange(0, 0));
        while i < self.items.len()
            invariant
                i <= self.items@.len(),
                views(out@) == views(self.items@).subrange(0, i as int),
            decreases self.items.len() - i,
        {
            let ghost before = views(out@);
            out.push(self.items[i].clone());
            assert(views(out@) =~= before.push(self.items@[i as int]@));
            i += 1;
            assert(views(out@) =~= views(self.items@).subrange(0, i as int));
        }
        assert(views(out@) =~= views(self.items@));
        out
    }
}

} // verus!
