//! A read-only cursor over a built block: forward scan and seek-by-key.

use super::{read_entry, Block};
use crate::utils::{key_lt, lex_le, lex_lt};
use std::sync::Arc;
use vstd::prelude::*;

verus! {

/// Iterates on a block. The iterator is valid exactly while its current
/// `key` is non-empty: blocks never store empty keys, so the empty key is
/// the canonical "no current entry" sentinel.
pub struct BlockIterator {
    pub block: Arc<Block>,
    pub key: Vec<u8>,
    pub value: Vec<u8>,
    pub idx: usize,
}

impl BlockIterator {
    /// The entries of the underlying block.
    pub open spec fn entries(self) -> Seq<(Seq<u8>, Seq<u8>)> {
        (*self.block).entries()
    }

    /// The iterator points at an entry.
    pub open spec fn valid(self) -> bool {
        self.key@.len() > 0
    }

    /// The cursor invariant that every operation needs: a well-formed block
    /// and an index no further than one past the last entry.
    pub open spec fn inv_core(self) -> bool {
        &&& (*self.block).wf()
        &&& self.idx <= self.entries().len()
    }

    /// The full iterator invariant: when valid, `key` and `value` are those
    /// of entry `idx - 1`; when invalid, every entry has been passed.
    pub open spec fn inv(self) -> bool {
        &&& self.inv_core()
        &&& if self.key@.len() > 0 {
            &&& 1 <= self.idx
            &&& self.key@ == self.entries()[self.idx - 1].0
            &&& self.value@ == self.entries()[self.idx - 1].1
        } else {
            &&& self.idx == self.entries().len()
            &&& self.value@.len() == 0
        }
    }

    fn new(block: Arc<Block>) -> (r: Self)
        requires
            (*block).wf(),
        ensures
            r.inv_core(),
            r.block == block,
            r.idx == 0,
            r.key@.len() == 0,
            r.value@.len() == 0,
    {
        Self { block, key: Vec::new(), value: Vec::new(), idx: 0 }
    }

    /// Creates a block iterator and seeks to the first entry.
    pub fn create_and_seek_to_first(block: Arc<Block>) -> (r: Self)
        requires
            (*block).wf(),
        ensures
            r.inv(),
            r.entries() == (*block).entries(),
            (*block).entries().len() > 0 ==> r.valid() && r.idx == 1 && r.key@ == (
            *block).entries()[0].0 && r.value@ == (*block).entries()[0].1,
            (*block).entries().len() == 0 ==> !r.valid(),
    {
        let mut it = Self::new(block);
        it.next();
        it
    }

    /// Creates a block iterator and seeks to the first entry whose key is
    /// `>=` the given key.
    pub fn create_and_seek_to_key(block: Arc<Block>, key: &[u8]) -> (r: Self)
        requires
            (*block).wf(),
        ensures
            r.inv(),
            r.entries() == (*block).entries(),
            (exists|i: int|
                0 <= i < (*block).entries().len() && lex_le(key@, (*block).entries()[i].0))
                ==> r.valid() && lex_le(key@, r.key@) && (forall|j: int|
                0 <= j < r.idx - 1 ==> lex_lt((*block).entries()[j].0, key@)),
            !(exists|i: int|
                0 <= i < (*block).entries().len() && lex_le(key@, (*block).entries()[i].0))
                ==> !r.valid(),
    {
        let mut it = Self::new(block);
        it.seek_to_key(key);
        it
    }

    /// Returns the key of the current entry; empty when the iterator is
    /// invalid.
    pub fn key(&self) -> (r: &[u8])
        requires
            self.inv(),
        ensures
            r@ == self.key@,
            self.valid() ==> r@ == self.entries()[self.idx - 1].0,
            !self.valid() ==> r@.len() == 0,
    {
        self.key.as_slice()
    }

    /// Returns the value of the current entry; empty when the iterator is
    /// invalid.
    pub fn value(&self) -> (r: &[u8])
        requires
            self.inv(),
        ensures
            r@ == self.value@,
            self.valid() ==> r@ == self.entries()[self.idx - 1].1,
            !self.valid() ==> r@.len() == 0,
    {
        self.value.as_slice()
    }

    /// Returns true if the iterator is valid.
    pub fn is_valid(&self) -> (r: bool)
        ensures
            r == self.valid(),
    {
        !self.key.is_empty()
    }

    /// Seeks to the first entry in the block.
    pub fn seek_to_first(&mut self)
        requires
            old(self).inv_core(),
        ensures
            final(self).inv(),
            final(self).block == old(self).block,
            old(self).entries().len() > 0 ==> final(self).valid() && final(self).idx == 1
                && final(self).key@ == old(self).entries()[0].0
                && final(self).value@ == old(self).entries()[0].1,
            old(self).entries().len() == 0 ==> !final(self).valid(),
    {
        self.idx = 0;
        self.next();
    }

    /// Moves to the entry at the cursor: reads its key and value and steps
    /// the cursor, or becomes invalid past the last entry.
    pub fn next(&mut self)
        requires
            old(self).inv_core(),
        ensures
            final(self).inv(),
            final(self).block == old(self).block,
            old(self).idx < old(self).entries().len() ==> final(self).valid() && final(self).idx
                == old(self).idx + 1 && final(self).key@ == old(self).entries()[
                old(self).idx as int
            ].0 && final(self).value@ == old(self).entries()[old(self).idx as int].1,
            old(self).idx == old(self).entries().len() ==> !final(self).valid() && final(self).idx
                == old(self).idx,
    {
        if self.idx < self.block.offsets.len() {
            let off = self.block.offsets[self.idx];
            proof {
                assert(super::spec_entry_in_bounds((*self.block).data@, off as int));
            }
            let (k, v) = read_entry(&self.block.data, off as usize);
            proof {
                assert(super::spec_key_len((*self.block).data@, off as int) >= 1);
            }
            self.key = k;
            self.value = v;
            self.idx = self.idx + 1;
        } else {
            // reached end
            self.key = Vec::new();
            self.value = Vec::new();
        }
    }

    /// Seeks to the first entry whose key is `>=` the given key, scanning
    /// forward from the first entry; invalid when no such entry exists.
    pub fn seek_to_key(&mut self, key: &[u8])
        requires
            old(self).inv_core(),
        ensures
            final(self).inv(),
            final(self).block == old(self).block,
            (exists|i: int|
                0 <= i < old(self).entries().len() && lex_le(key@, old(self).entries()[i].0))
                ==> final(self).valid() && lex_le(key@, final(self).key@) && (forall|j: int|
                0 <= j < final(self).idx - 1 ==> lex_lt(old(self).entries()[j].0, key@)),
            !(exists|i: int|
                0 <= i < old(self).entries().len() && lex_le(key@, old(self).entries()[i].0))
                ==> !final(self).valid(),
    {
        let ghost es = old(self).entries();
        self.seek_to_first();
        while self.is_valid() && key_lt(self.key.as_slice(), key)
            invariant
                self.inv(),
                self.block == old(self).block,
                es == self.entries(),
                self.valid() ==> forall|j: int| 0 <= j < self.idx - 1 ==> lex_lt(es[j].0, key@),
                !self.valid() ==> forall|j: int| 0 <= j < es.len() ==> lex_lt(es[j].0, key@),
            decreases es.len() + (if self.valid() { 1int } else { 0int }) - self.idx,
        {
            self.next();
        }
        proof {
            if self.valid() {
                crate::utils::lemma_lex_total(key@, self.key@);
            } else {
                assert forall|i: int| 0 <= i < es.len() implies !lex_le(key@, es[i].0) by {
                    if lex_le(key@, es[i].0) {
                        crate::utils::lemma_lex_le_lt_trans(key@, es[i].0, key@);
                        crate::utils::lemma_lex_irrefl(key@);
                    }
                }
            }
        }
    }
}

} // verus!
