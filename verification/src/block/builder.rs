//! Builds a block: accumulates sorted key-value entries under a maximum
//! serialized-size budget.

use super::{
    lemma_block_wf_data_len_bound, lemma_entry_parse_prefix, lemma_keys_strict_push,
    spec_entry_end, spec_entry_in_bounds, spec_key_at, spec_key_len, spec_keys_strict,
    spec_value_at, spec_value_len, Block,
};
use crate::utils::{lex_lt, push_u16_le, spec_u16_le, SIZEOF_U16};
use vstd::prelude::*;

verus! {

/// Builds a block.
pub struct BlockBuilder {
    pub block_size: usize,
    pub block: Block,
}

impl BlockBuilder {
    /// The entries added so far, as (key, value) pairs.
    pub open spec fn entries(self) -> Seq<(Seq<u8>, Seq<u8>)> {
        self.block.entries()
    }

    /// The builder invariant: the in-progress block is well-formed, its keys
    /// are strictly increasing, and the budget fits the `u16` offset format.
    pub open spec fn wf(self) -> bool {
        &&& self.block.wf()
        &&& self.block_size <= 0xffff
        &&& spec_keys_strict(self.block.entries())
    }

    /// The in-progress block's estimated size.
    pub open spec fn spec_est(self) -> int {
        1 + self.block.data@.len() as int + 2 * self.block.offsets@.len()
    }

    /// Creates a new block builder with the given encoded-size budget. The
    /// budget may not exceed the largest `u16` value: entry offsets are
    /// stored as `u16`s.
    pub fn new(block_size: usize) -> (r: BlockBuilder)
        requires
            block_size <= 0xffff,
        ensures
            r.wf(),
            r.entries().len() == 0,
            r.block_size == block_size,
            r.spec_est() == 1,
    {
        BlockBuilder { block_size, block: Block { data: Vec::new(), offsets: Vec::new() } }
    }

    /// Check if there is no key-value pair in the block.
    pub fn is_empty(&self) -> (r: bool)
        requires
            self.wf(),
        ensures
            r == (self.entries().len() == 0),
    {
        proof {
            if self.block.offsets@.len() > 0 {
                let last = self.block.offsets@.len() - 1;
                assert(spec_entry_in_bounds(self.block.data@, self.block.offsets@[last] as int));
                assert(spec_key_len(self.block.data@, self.block.offsets@[last] as int) >= 1);
                assert(spec_entry_end(self.block.data@, self.block.offsets@[last] as int)
                    == self.block.data@.len());
            }
        }
        self.block.data.is_empty()
    }

    /// Adds a key-value pair to the block. Returns `false`, leaving the
    /// block unchanged, when the entry would push the estimated size past
    /// the budget; the first entry of a block is always admitted, whatever
    /// its size. Keys must be non-empty, strictly ascending, and key and
    /// value must each fit a `u16` length.
    #[must_use]
    pub fn add(&mut self, key: &[u8], value: &[u8]) -> (r: bool)
        requires
            old(self).wf(),
            key@.len() >= 1,
            key@.len() <= 0xffff,
            value@.len() <= 0xffff,
            old(self).entries().len() > 0 ==> lex_lt(old(self).entries().last().0, key@),
        ensures
            final(self).wf(),
            final(self).block_size == old(self).block_size,
            r == (old(self).entries().len() == 0 || old(self).spec_est() + 6 + key@.len()
                + value@.len() <= old(self).block_size),
            !r ==> *final(self) == *old(self),
            r ==> final(self).entries() == old(self).entries().push((key@, value@)),
            r ==> final(self).spec_est() == old(self).spec_est() + 6 + key@.len() + value@.len(),
            r && old(self).entries().len() > 0 ==> final(self).spec_est() <= final(self).block_size,
    {
        proof {
            lemma_block_wf_data_len_bound(self.block.data@, self.block.offsets@);
        }
        if !self.is_empty() {
            let current_block_size = self.block.estimated_size();
            // sizes of offset, key_len, value_len + actual key and value sizes
            let future_block_size = current_block_size + 3 * SIZEOF_U16 + key.len()
                + value.len();
            if future_block_size > self.block_size {
                return false;
            }
        }
        let ghost old_data = self.block.data@;
        let ghost old_offsets = self.block.offsets@;
        let ghost old_entries = self.block.entries();
        let ghost d0 = self.block.data@.len() as int;

        let offset = self.block.data.len() as u16;
        self.block.offsets.push(offset);
        push_u16_le(&mut self.block.data, key.len() as u16);
        self.block.data.extend_from_slice(key);
        push_u16_le(&mut self.block.data, value.len() as u16);
        self.block.data.extend_from_slice(value);

        proof {
            let kl = key@.len() as int;
            let vl = value@.len() as int;
            let tail = spec_u16_le(kl as u16) + key@ + spec_u16_le(vl as u16) + value@;
            let new_data = self.block.data@;
            let new_offsets = self.block.offsets@;
            let n0 = old_offsets.len() as int;
            assert(new_data =~= old_data + tail);
            assert(new_offsets == old_offsets.push(d0 as u16));

            crate::utils::lemma_u16_le_roundtrip(kl as u16);
            crate::utils::lemma_u16_le_roundtrip(vl as u16);

            // how the appended entry parses
            assert(tail[0] == spec_u16_le(kl as u16)[0] && tail[1] == spec_u16_le(kl as u16)[1]);
            assert(new_data[d0] == tail[0] && new_data[d0 + 1] == tail[1]);
            assert(spec_key_len(new_data, d0) == kl);
            assert(tail[2 + kl] == spec_u16_le(vl as u16)[0] && tail[3 + kl] == spec_u16_le(
                vl as u16,
            )[1]);
            assert(new_data[d0 + 2 + kl] == tail[2 + kl] && new_data[d0 + 3 + kl] == tail[3
                + kl]);
            assert(spec_value_len(new_data, d0) == vl);
            assert(spec_entry_end(new_data, d0) == new_data.len());
            assert(spec_entry_in_bounds(new_data, d0));
            assert forall|i: int| 0 <= i < kl implies new_data[d0 + 2 + i] == key@[i] by {
                assert(tail[2 + i] == key@[i]);
            }
            assert(spec_key_at(new_data, d0) =~= key@);
            assert forall|i: int| 0 <= i < vl implies new_data[d0 + 4 + kl + i] == value@[i] by {
                assert(tail[4 + kl + i] == value@[i]);
            }
            assert(spec_value_at(new_data, d0) =~= value@);

            // the entries already present parse as before
            assert forall|i: int| 0 <= i < n0 implies {
                &&& spec_entry_in_bounds(new_data, #[trigger] old_offsets[i] as int)
                &&& spec_key_at(new_data, old_offsets[i] as int) == spec_key_at(
                    old_data,
                    old_offsets[i] as int,
                )
                &&& spec_value_at(new_data, old_offsets[i] as int) == spec_value_at(
                    old_data,
                    old_offsets[i] as int,
                )
                &&& spec_entry_end(new_data, old_offsets[i] as int) == spec_entry_end(
                    old_data,
                    old_offsets[i] as int,
                )
                &&& spec_key_len(new_data, old_offsets[i] as int) == spec_key_len(
                    old_data,
                    old_offsets[i] as int,
                )
            } by {
                assert(spec_entry_in_bounds(old_data, old_offsets[i] as int));
                lemma_entry_parse_prefix(old_data, tail, old_offsets[i] as int);
            }

            assert(self.block.wf());
            assert(self.block.entries() =~= old_entries.push((key@, value@)));
            lemma_keys_strict_push(old_entries, (key@, value@));
        }
        true
    }

    /// Finalize the block. May only be called once at least one entry was
    /// added: an empty block has no valid representation.
    pub fn build(self) -> (b: Block)
        requires
            self.wf(),
            self.entries().len() > 0,
        ensures
            b == self.block,
            b.wf(),
            b.entries() == self.entries(),
            spec_keys_strict(b.entries()),
            b.entries().len() > 0,
    {
        self.block
    }
}

} // verus!
