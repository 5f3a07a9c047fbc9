//! Sorted-string tables: encoded blocks packed back-to-back, followed by a
//! metadata section locating each block, followed by a four-byte footer
//! giving the byte offset where the metadata section starts.

mod builder;

pub use builder::SsTableBuilder;


use crate::utils::{lex_lt, push_u16_le, push_u32_le, spec_u16_le, spec_u32_le};
use vstd::prelude::*;

verus! {

/// Per-block index record: byte offset of this block's encoded start within
/// the table's block region, and the first key stored in the block.
pub struct BlockMeta {
    pub offset: usize,
    pub first_key: Vec<u8>,
}

/// One metadata record on the wire: the offset as a little-endian `u32`,
/// the first-key length as a little-endian `u16`, then the first-key bytes.
pub open spec fn spec_meta_record(offset: int, first_key: Seq<u8>) -> Seq<u8> {
    spec_u32_le(offset as u32) + spec_u16_le(first_key.len() as u16) + first_key
}

/// The encoded metadata section: the records back-to-back, in order.
pub open spec fn spec_meta_bytes(metas: Seq<BlockMeta>) -> Seq<u8>
    decreases metas.len(),
{
    if metas.len() == 0 {
        Seq::empty()
    } else {
        spec_meta_bytes(metas.drop_last()) + spec_meta_record(
            metas.last().offset as int,
            metas.last().first_key@,
        )
    }
}

/// Appends the encoded metadata section to `buf`. Offsets must fit a `u32`
/// and first keys a `u16` length, as the record format stores them.
pub fn encode_block_meta(block_meta: &Vec<BlockMeta>, buf: &mut Vec<u8>)
    requires
        forall|i: int|
            0 <= i < block_meta@.len() ==> (#[trigger] block_meta@[i]).offset <= 0xffffffff,
        forall|i: int|
            0 <= i < block_meta@.len() ==> (#[trigger] block_meta@[i]).first_key@.len() <= 0xffff,
    ensures
        final(buf)@ == old(buf)@ + spec_meta_bytes(block_meta@),
{
    let mut i: usize = 0;
    proof {
        assert(block_meta@.subrange(0, 0) =~= Seq::<BlockMeta>::empty());
        assert(buf@ =~= old(buf)@ + spec_meta_bytes(block_meta@.subrange(0, 0)));
    }
    while i < block_meta.len()
        invariant
            i <= block_meta@.len(),
            forall|k: int|
                0 <= k < block_meta@.len() ==> (#[trigger] block_meta@[k]).offset <= 0xffffffff,
            forall|k: int|
                0 <= k < block_meta@.len() ==> (#[trigger] block_meta@[k]).first_key@.len()
                    <= 0xffff,
            buf@ == old(buf)@ + spec_meta_bytes(block_meta@.subrange(0, i as int)),
        decreases block_meta@.len() - i,
    {
        let m = &block_meta[i];
        push_u32_le(buf, m.offset as u32);
        push_u16_le(buf, m.first_key.len() as u16);
        buf.extend_from_slice(m.first_key.as_slice());
        proof {
            let pre = block_meta@.subrange(0, i as int);
            let cur = block_meta@.subrange(0, i as int + 1);
            assert(cur.drop_last() =~= pre);
            assert(cur.last() == block_meta@[i as int]);
            assert(buf@ =~= old(buf)@ + spec_meta_bytes(cur));
        }
        i = i + 1;
    }
    proof {
        assert(block_meta@.subrange(0, block_meta@.len() as int) =~= block_meta@);
    }
}

/// An immutable table: the full encoded file image (in place of the opaque
/// on-disk file handle), the ordered block metadata, and the byte offset
/// where the metadata section begins.
pub struct SsTable {
    pub data: Vec<u8>,
    pub block_metas: Vec<BlockMeta>,
    pub block_meta_offset: usize,
}

impl SsTable {
    /// The table invariant: the file image is the block region, then the
    /// metadata section, then the footer holding `block_meta_offset` as a
    /// little-endian `u32`; metadata first keys are strictly increasing and
    /// their offsets strictly increase with them.
    pub open spec fn wf(self) -> bool {
        &&& self.block_meta_offset <= 0xffffffff
        &&& self.data@.len() == self.block_meta_offset + spec_meta_bytes(self.block_metas@).len()
            + 4
        &&& self.data@ == self.data@.subrange(0, self.block_meta_offset as int) + spec_meta_bytes(
            self.block_metas@,
        ) + spec_u32_le(self.block_meta_offset as u32)
        &&& forall|i: int, j: int|
            0 <= i < j < self.block_metas@.len() ==> lex_lt(
                (#[trigger] self.block_metas@[i]).first_key@,
                (#[trigger] self.block_metas@[j]).first_key@,
            )
        &&& forall|i: int, j: int|
            0 <= i < j < self.block_metas@.len() ==> (#[trigger] self.block_metas@[i]).offset < (
            #[trigger] self.block_metas@[j]).offset
    }
}

} // verus!
