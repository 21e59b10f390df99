//! A table from byte strings to byte strings, in which the entry written
//! last for a key is the one that counts.

use vstd::prelude::*;
use crate::bytes::bytes_eq;

verus! {

/// One entry of a table.
pub struct Entry {
    pub key: Vec<u8>,
    pub value: Vec<u8>,
}

/// The map that a list of entries stands for: later entries replace earlier
/// ones that have the same key.
pub open spec fn table_of(entries: Seq<Entry>) -> Map<Seq<u8>, Seq<u8>>
    decreases entries.len(),
{
    if entries.len() == 0 {
        Map::empty()
    } else {
        table_of(entries.drop_last()).insert(entries.last().key@, entries.last().value@)
    }
}

/// A table of that kind always has finitely many keys.
pub proof fn lemma_table_finite(entries: Seq<Entry>)
    ensures
        table_of(entries).dom().finite(),
    decreases entries.len(),
{
    if entries.len() > 0 {
        lemma_table_finite(entries.drop_last());
    }
}

/// A map from byte strings to byte strings.
pub struct ByteTable {
    entries: Vec<Entry>,
}

impl View for ByteTable {
    type V = Map<Seq<u8>, Seq<u8>>;

    closed spec fn view(&self) -> Map<Seq<u8>, Seq<u8>> {
        table_of(self.entries@)
    }
}

impl ByteTable {
    /// The table without entries.
    pub fn new() -> (t: ByteTable)
        ensures
            t@ == Map::<Seq<u8>, Seq<u8>>::empty(),
    {
        ByteTable { entries: Vec::new() }
    }

    /// Every table has finitely many keys.
    pub proof fn lemma_finite(self)
        ensures
            self@.dom().finite(),
    {
        lemma_table_finite(self.entries@);
    }

    /// Sets the value for `key`, replacing the value it had.
    pub fn insert(&mut self, key: Vec<u8>, value: Vec<u8>)
        ensures
            final(self)@ == old(self)@.insert(key@, value@),
    {
        let ghost before = self.entries@;
        self.entries.push(Entry { key, value });
        assert(self.entries@.drop_last() =~= before);
    }

    /// The value for `key`, if it has one.
    pub fn get(&self, key: &[u8]) -> (r: Option<&Vec<u8>>)
        ensures
            r is Some == self@.contains_key(key@),
            r matches Some(v) ==> v@ == self@[key@],
    {
        let mut i: usize = self.entries.len();
        assert(self.entries@.subrange(0, i as int) =~= self.entries@);
        while i > 0
            invariant
                i <= self.entries.len(),
                self@.contains_key(key@) == table_of(
                    self.entries@.subrange(0, i as int),
                ).contains_key(key@),
                self@.contains_key(key@) ==> self@[key@] == table_of(
                    self.entries@.subrange(0, i as int),
                )[key@],
            decreases i,
        {
            let ghost upto = self.entries@.subrange(0, i as int);
            i -= 1;
            assert(upto.drop_last() =~= self.entries@.subrange(0, i as int));
            assert(upto.last() == self.entries@[i as int]);
            if bytes_eq(self.entries[i].key.as_slice(), key) {
                return Some(&self.entries[i].value);
            }
        }
        None
    }

    /// Takes away the value for `key`, if it has one.
    pub fn remove(&mut self, key: &[u8])
        ensures
            final(self)@ == old(self)@.remove(key@),
    {
        let mut kept: Vec<Entry> = Vec::new();
        let mut i: usize = 0;
        assert(self.entries@.subrange(0, 0) =~= Seq::<Entry>::empty());
        assert(table_of(kept@) =~= table_of(Seq::<Entry>::empty()).remove(key@));
        while i < self.entries.len()
            invariant
                i <= self.entries.len(),
                table_of(kept@) == table_of(self.entries@.subrange(0, i as int)).remove(key@),
            decreases self.entries.len() - i,
        {
            let ghost before = kept@;
            let ghost upto = self.entries@.subrange(0, i + 1);
            assert(upto.drop_last() =~= self.entries@.subrange(0, i as int));
            if !bytes_eq(self.entries[i].key.as_slice(), key) {
                kept.push(
                    Entry {
                        key: self.entries[i].key.clone(),
                        value: self.entries[i].value.clone(),
                    },
                );
                assert(kept@.drop_last() =~= before);
            }
            assert(table_of(kept@) =~= table_of(upto).remove(key@));
            i += 1;
        }
        assert(self.entries@.subrange(0, i as int) =~= self.entries@);
        self.entries = kept;
    }

    /// Whether `key` has a value.
    pub fn contains_key(&self, key: &[u8]) -> (r: bool)
        ensures
            r == self@.contains_key(key@),
    {
        self.get(key).is_some()
    }

    /// A table with the same entries.
    pub fn copy(&self) -> (t: ByteTable)
        ensures
            t@ == self@,
    {
        let mut entries: Vec<Entry> = Vec::new();
        let mut i: usize = 0;
        assert(self.entries@.subrange(0, 0) =~= Seq::<Entry>::empty());
        while i < self.entries.len()
            invariant
                i <= self.entries.len(),
                table_of(entries@) == table_of(self.entries@.subrange(0, i as int)),
            decreases self.entries.len() - i,
        {
            let ghost before = entries@;
            let ghost upto = self.entries@.subrange(0, i + 1);
            assert(upto.drop_last() =~= self.entries@.subrange(0, i as int));
            entries.push(
                Entry { key: self.entries[i].key.clone(), value: self.entries[i].value.clone() },
            );
            assert(entries@.drop_last() =~= before);
            i += 1;
        }
        assert(self.entries@.subrange(0, i as int) =~= self.entries@);
        ByteTable { entries }
    }
}

} // verus!
