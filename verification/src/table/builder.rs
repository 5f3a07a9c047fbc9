//! Builds an SSTable from key-value pairs: accumulates entries through a
//! `BlockBuilder`, flushes each full block, records per-block metadata, and
//! assembles the final table byte layout.

use super::{encode_block_meta, spec_meta_bytes, BlockMeta, SsTable};
use crate::block::{
    lemma_keys_strict_push, spec_block_bytes, spec_keys_strict, Block, BlockBuilder,
    BlockIterator,
};
use crate::utils::{lex_lt, push_u32_le};
use std::sync::Arc;
use vstd::prelude::*;

verus! {

/// The entries of a sequence of blocks, concatenated in order.
pub open spec fn spec_blocks_entries(blocks: Seq<Block>) -> Seq<(Seq<u8>, Seq<u8>)>
    decreases blocks.len(),
{
    if blocks.len() == 0 {
        Seq::empty()
    } else {
        spec_blocks_entries(blocks.drop_last()) + blocks.last().entries()
    }
}

/// The wire encodings of a sequence of blocks, concatenated in order.
pub open spec fn spec_blocks_bytes(blocks: Seq<Block>) -> Seq<u8>
    decreases blocks.len(),
{
    if blocks.len() == 0 {
        Seq::empty()
    } else {
        spec_blocks_bytes(blocks.drop_last()) + spec_block_bytes(
            blocks.last().data@,
            blocks.last().offsets@,
        )
    }
}

/// Total encoded size of a sequence of blocks.
pub open spec fn spec_blocks_size(blocks: Seq<Block>) -> int
    decreases blocks.len(),
{
    if blocks.len() == 0 {
        0
    } else {
        spec_blocks_size(blocks.drop_last()) + blocks.last().spec_enc_len()
    }
}

/// Total estimated size of a sequence of blocks.
pub open spec fn spec_blocks_est(blocks: Seq<Block>) -> int
    decreases blocks.len(),
{
    if blocks.len() == 0 {
        0
    } else {
        spec_blocks_est(blocks.drop_last()) + (blocks.last().spec_enc_len() - 1)
    }
}

/// The encoded bytes of a block sequence are exactly its total encoded size.
pub proof fn lemma_blocks_bytes_len(blocks: Seq<Block>)
    ensures
        spec_blocks_bytes(blocks).len() == spec_blocks_size(blocks),
    decreases blocks.len(),
{
    if blocks.len() > 0 {
        lemma_blocks_bytes_len(blocks.drop_last());
        crate::block::lemma_offsets_bytes_len(blocks.last().offsets@);
    }
}

/// A prefix of a block sequence takes no more encoded bytes than a longer
/// prefix.
pub proof fn lemma_blocks_size_take_le(blocks: Seq<Block>, i: int, j: int)
    requires
        0 <= i <= j <= blocks.len(),
    ensures
        spec_blocks_size(blocks.subrange(0, i)) <= spec_blocks_size(blocks.subrange(0, j)),
    decreases j - i,
{
    if i < j {
        lemma_blocks_size_take_le(blocks, i, j - 1);
        let cur = blocks.subrange(0, j);
        assert(cur.drop_last() =~= blocks.subrange(0, j - 1));
        assert(cur.last() == blocks[j - 1]);
    }
}

/// Number of entries in the first `i` blocks.
pub open spec fn spec_prefix_count(blocks: Seq<Block>, i: int) -> int {
    spec_blocks_entries(blocks.subrange(0, i)).len() as int
}

/// Entry `k` of block `i` sits at position `spec_prefix_count(blocks, i) + k`
/// of the concatenated entries.
pub proof fn lemma_blocks_entry_index(blocks: Seq<Block>, i: int, k: int)
    requires
        0 <= i < blocks.len(),
        0 <= k < blocks[i].entries().len(),
    ensures
        spec_prefix_count(blocks, i) + k < spec_blocks_entries(blocks).len(),
        spec_blocks_entries(blocks)[spec_prefix_count(blocks, i) + k] == blocks[i].entries()[k],
    decreases blocks.len(),
{
    let last = blocks.len() - 1;
    assert(blocks.subrange(0, last) =~= blocks.drop_last());
    if i == last {
        assert(spec_blocks_entries(blocks) == spec_blocks_entries(blocks.drop_last())
            + blocks.last().entries());
    } else {
        lemma_blocks_entry_index(blocks.drop_last(), i, k);
        assert(blocks.drop_last().subrange(0, i) =~= blocks.subrange(0, i));
        assert(blocks.drop_last()[i] == blocks[i]);
        assert(spec_blocks_entries(blocks) == spec_blocks_entries(blocks.drop_last())
            + blocks.last().entries());
    }
}

/// Prefix entry counts grow with the prefix, by at least the entries of each
/// block passed.
pub proof fn lemma_prefix_count_le(blocks: Seq<Block>, i: int, j: int)
    requires
        0 <= i <= j <= blocks.len(),
    ensures
        spec_prefix_count(blocks, i) <= spec_prefix_count(blocks, j),
        i < j ==> spec_prefix_count(blocks, i) + blocks[i].entries().len() <= spec_prefix_count(
            blocks,
            j,
        ),
    decreases j - i,
{
    if i < j {
        lemma_prefix_count_le(blocks, i + 1, j);
        let cur = blocks.subrange(0, i + 1);
        assert(cur.drop_last() =~= blocks.subrange(0, i));
        assert(cur.last() == blocks[i]);
        assert(spec_prefix_count(blocks, i + 1) == spec_prefix_count(blocks, i)
            + blocks[i].entries().len());
    }
}

/// When the concatenated entries of non-empty blocks have strictly
/// increasing keys, so do the blocks' first keys.
pub proof fn lemma_first_keys_strict(blocks: Seq<Block>, i: int, j: int)
    requires
        forall|k: int| 0 <= k < blocks.len() ==> (#[trigger] blocks[k]).entries().len() > 0,
        spec_keys_strict(spec_blocks_entries(blocks)),
        0 <= i < j < blocks.len(),
    ensures
        lex_lt(blocks[i].entries()[0].0, blocks[j].entries()[0].0),
{
    lemma_blocks_entry_index(blocks, i, 0);
    lemma_blocks_entry_index(blocks, j, 0);
    lemma_prefix_count_le(blocks, i, j);
    let all = spec_blocks_entries(blocks);
    let pi = spec_prefix_count(blocks, i);
    let pj = spec_prefix_count(blocks, j);
    assert(pi < pj);
    assert(lex_lt(all[pi].0, all[pj].0));
}

/// Meta monotonicity: at any point of a building session, the recorded
/// `first_key` values of successive metadata records are strictly
/// increasing, and each record's `offset` is the total encoded size of the
/// blocks before it — so offsets strictly increase as well.
pub proof fn lemma_meta_monotone(s: SsTableBuilder, i: int, j: int)
    requires
        s.wf(),
        0 <= i < j < s.meta@.len(),
    ensures
        lex_lt(s.meta@[i].first_key@, s.meta@[j].first_key@),
        s.meta@[i].offset == spec_blocks_size(s.blocks_view().subrange(0, i)),
        s.meta@[i].offset < s.meta@[j].offset,
{
    let bv = s.blocks_view();
    let blocks_part = spec_blocks_entries(bv);
    assert forall|a: int, b: int|
        0 <= a < b < blocks_part.len() implies lex_lt(
        #[trigger] blocks_part[a].0,
        #[trigger] blocks_part[b].0,
    ) by {
        assert(s.all_entries()[a] == blocks_part[a]);
        assert(s.all_entries()[b] == blocks_part[b]);
        assert(lex_lt(s.all_entries()[a].0, s.all_entries()[b].0));
    }
    assert(spec_keys_strict(blocks_part));
    lemma_first_keys_strict(bv, i, j);
    let cur = bv.subrange(0, i + 1);
    assert(cur.drop_last() =~= bv.subrange(0, i));
    assert(cur.last() == bv[i]);
    assert(bv[i].spec_enc_len() > 0);
    lemma_blocks_size_take_le(bv, i + 1, j);
}

/// Builds an SSTable from key-value pairs.
pub struct SsTableBuilder {
    pub meta: Vec<BlockMeta>,
    pub blocks: Vec<Arc<Block>>,
    pub block_builder: BlockBuilder,
    pub block_size: usize,
    pub offset: usize,
}

impl SsTableBuilder {
    /// The already-flushed blocks.
    pub open spec fn blocks_view(self) -> Seq<Block> {
        self.blocks@.map_values(|b: Arc<Block>| *b)
    }

    /// Every entry added so far, flushed or still in the block builder.
    pub open spec fn all_entries(self) -> Seq<(Seq<u8>, Seq<u8>)> {
        spec_blocks_entries(self.blocks_view()) + self.block_builder.entries()
    }

    /// Bytes the table's block region would take were it built now.
    pub open spec fn spec_total(self) -> int {
        self.offset + if self.block_builder.entries().len() == 0 {
            0int
        } else {
            self.block_builder.spec_est() + 1
        }
    }

    /// The builder invariant: blocks are well-formed and non-empty, metadata
    /// records their first keys and cumulative offsets, `offset` is the
    /// total encoded size of the flushed blocks, the whole table fits the
    /// `u32` footer, and all keys are strictly increasing.
    pub open spec fn wf(self) -> bool {
        &&& self.block_builder.wf()
        &&& self.block_builder.block_size == self.block_size
        &&& self.block_size <= 0xffff
        &&& self.meta@.len() == self.blocks_view().len()
        &&& forall|i: int|
            0 <= i < self.blocks_view().len() ==> (#[trigger] self.blocks_view()[i]).wf()
        &&& forall|i: int|
            0 <= i < self.blocks_view().len() ==> (#[trigger] self.blocks_view()[
            i]).entries().len() > 0
        &&& forall|i: int|
            0 <= i < self.meta@.len() ==> (#[trigger] self.meta@[i]).first_key@
                == self.blocks_view()[i].entries()[0].0
        &&& forall|i: int|
            0 <= i < self.meta@.len() ==> (#[trigger] self.meta@[i]).offset == spec_blocks_size(
                self.blocks_view().subrange(0, i),
            )
        &&& self.offset == spec_blocks_size(self.blocks_view())
        &&& self.spec_total() <= 0xffffffff
        &&& spec_keys_strict(self.all_entries())
    }

    /// Create a builder based on target block size. The block size may not
    /// exceed the largest `u16` value: entry offsets within a block are
    /// stored as `u16`s.
    pub fn new(block_size: usize) -> (r: SsTableBuilder)
        requires
            block_size <= 0xffff,
        ensures
            r.wf(),
            r.block_size == block_size,
            r.all_entries().len() == 0,
            r.blocks_view().len() == 0,
            r.meta@.len() == 0,
            r.spec_total() == 0,
    {
        let r = SsTableBuilder {
            meta: Vec::new(),
            blocks: Vec::new(),
            block_builder: BlockBuilder::new(block_size),
            block_size,
            offset: 0,
        };
        proof {
            assert(r.blocks_view() =~= Seq::<Block>::empty());
            assert(r.all_entries() =~= Seq::<(Seq<u8>, Seq<u8>)>::empty());
        }
        r
    }

    /// Finalizes the in-progress block: builds it, records a metadata entry
    /// with its first key (read through a `BlockIterator`) and the running
    /// offset, and starts a fresh block builder.
    fn flush_block(&mut self)
        requires
            old(self).wf(),
            old(self).block_builder.entries().len() > 0,
        ensures
            final(self).wf(),
            final(self).block_size == old(self).block_size,
            final(self).all_entries() == old(self).all_entries(),
            final(self).spec_total() == old(self).spec_total(),
            final(self).block_builder.entries().len() == 0,
            final(self).blocks_view() == old(self).blocks_view().push(
                old(self).block_builder.block,
            ),
            final(self).meta@ == old(self).meta@.push(
                BlockMeta {
                    offset: old(self).offset,
                    first_key: final(self).meta@.last().first_key,
                },
            ),
            final(self).meta@.last().first_key@ == old(self).block_builder.entries()[0].0,
    {
        let ghost old_bv = self.blocks_view();
        let ghost old_entries = self.all_entries();

        let mut block_builder = BlockBuilder::new(self.block_size);
        core::mem::swap(&mut block_builder, &mut self.block_builder);
        let block = Arc::new(block_builder.build());
        let block_iterator = BlockIterator::create_and_seek_to_first(block.clone());
        let mut first_key: Vec<u8> = Vec::new();
        first_key.extend_from_slice(block_iterator.key());
        self.meta.push(BlockMeta { offset: self.offset, first_key });
        let enc_len = block.data.len() + block.offsets.len() * crate::utils::SIZEOF_U16
            + crate::utils::SIZEOF_U16;
        proof {
            assert((*block).spec_enc_len() == enc_len);
        }
        self.offset = self.offset + enc_len;
        self.blocks.push(block);

        proof {
            let b = *block;
            let new_bv = self.blocks_view();
            assert(new_bv =~= old_bv.push(b));
            assert(new_bv.drop_last() =~= old_bv);
            assert(new_bv.last() == b);
            assert(spec_blocks_entries(new_bv) == spec_blocks_entries(old_bv) + b.entries());
            assert(spec_blocks_size(new_bv) == spec_blocks_size(old_bv) + b.spec_enc_len());
            assert(self.all_entries() =~= old_entries);
            assert forall|i: int|
                0 <= i < self.meta@.len() implies (#[trigger] self.meta@[i]).offset
                == spec_blocks_size(new_bv.subrange(0, i)) by {
                if i < self.meta@.len() - 1 {
                    assert(new_bv.subrange(0, i) =~= old_bv.subrange(0, i));
                } else {
                    assert(new_bv.subrange(0, i) =~= old_bv);
                }
            }
            assert forall|i: int|
                0 <= i < self.meta@.len() implies (#[trigger] self.meta@[i]).first_key@
                == new_bv[i].entries()[0].0 by {}
            assert(self.wf());
        }
    }

    /// Adding this entry flushes the in-progress block: the block holds at
    /// least one entry and the entry would push it past the budget.
    pub open spec fn spec_flushes(self, key: Seq<u8>, value: Seq<u8>) -> bool {
        self.block_builder.entries().len() > 0 && self.block_builder.spec_est() + 6 + key.len()
            + value.len() > self.block_size
    }

    /// Adds a key-value pair. When the in-progress block is full, flushes it
    /// and retries against a fresh block; the retry always succeeds, since
    /// the first entry of a block is admitted whatever its size. Keys must
    /// be non-empty, strictly ascending across the whole table, and key and
    /// value must each fit a `u16` length; the table must keep fitting its
    /// `u32` footer.
    pub fn add(&mut self, key: &[u8], value: &[u8])
        requires
            old(self).wf(),
            key@.len() >= 1,
            key@.len() <= 0xffff,
            value@.len() <= 0xffff,
            old(self).all_entries().len() > 0 ==> lex_lt(old(self).all_entries().last().0, key@),
            old(self).spec_total() + 8 + key@.len() + value@.len() <= 0xffffffff,
        ensures
            final(self).wf(),
            final(self).block_size == old(self).block_size,
            final(self).all_entries() == old(self).all_entries().push((key@, value@)),
            final(self).spec_total() <= old(self).spec_total() + 8 + key@.len() + value@.len(),
            old(self).spec_flushes(key@, value@) ==> {
                &&& final(self).blocks_view() == old(self).blocks_view().push(
                    old(self).block_builder.block,
                )
                &&& final(self).meta@.len() == old(self).meta@.len() + 1
                &&& (forall|i: int|
                    0 <= i < old(self).meta@.len() ==> final(self).meta@[i] == old(self).meta@[i])
                &&& final(self).meta@.last().first_key@ == old(self).block_builder.entries()[0].0
                &&& final(self).meta@.last().offset == old(self).offset
                &&& final(self).block_builder.entries() == seq![(key@, value@)]
                &&& final(self).offset == old(self).offset + old(self).block_builder.spec_est()
                    + 1
            },
            !old(self).spec_flushes(key@, value@) ==> {
                &&& final(self).blocks@ == old(self).blocks@
                &&& final(self).meta@ == old(self).meta@
                &&& final(self).offset == old(self).offset
                &&& final(self).block_builder.entries() == old(self).block_builder.entries().push(
                    (key@, value@),
                )
            },
    {
        let ghost old_all = old(self).all_entries();
        proof {
            if self.block_builder.entries().len() > 0 {
                let bb = self.block_builder.entries();
                let pre = spec_blocks_entries(self.blocks_view());
                assert(old_all.last() == bb.last());
            }
            lemma_keys_strict_push(old_all, (key@, value@));
        }
        if !self.block_builder.add(key, value) {
            // the in-progress block is full: flush it and retry
            self.flush_block();
            let admitted = self.block_builder.add(key, value);
            assert(admitted);
            proof {
                assert(self.block_builder.entries() =~= Seq::<(Seq<u8>, Seq<u8>)>::empty().push(
                    (key@, value@),
                ));
                assert(self.all_entries() =~= old_all.push((key@, value@)));
            }
        } else {
            proof {
                assert(self.all_entries() =~= old_all.push((key@, value@)));
            }
        }
    }

    /// Get the estimated size of the SSTable: the sum of the estimated sizes
    /// of the already-flushed blocks; the in-progress block is not counted.
    pub fn estimated_size(&self) -> (r: usize)
        requires
            self.wf(),
        ensures
            r == spec_blocks_est(self.blocks_view()),
    {
        let ghost bv = self.blocks_view();
        let mut sum: usize = 0;
        let mut i: usize = 0;
        proof {
            assert(bv.subrange(0, 0) =~= Seq::<Block>::empty());
        }
        while i < self.blocks.len()
            invariant
                i <= self.blocks@.len(),
                self.wf(),
                bv == self.blocks_view(),
                sum == spec_blocks_est(bv.subrange(0, i as int)),
                sum <= spec_blocks_size(bv.subrange(0, i as int)),
            decreases self.blocks@.len() - i,
        {
            proof {
                let cur = bv.subrange(0, i as int + 1);
                assert(cur.drop_last() =~= bv.subrange(0, i as int));
                assert(cur.last() == bv[i as int]);
                lemma_blocks_size_take_le(bv, i as int + 1, bv.len() as int);
                assert(bv.subrange(0, bv.len() as int) =~= bv);
            }
            let e = self.blocks[i].estimated_size();
            sum = sum + e;
            i = i + 1;
        }
        proof {
            assert(bv.subrange(0, bv.len() as int) =~= bv);
        }
        sum
    }

    /// The blocks of the finished table: the flushed blocks, plus the
    /// in-progress block when it holds any entry.
    pub open spec fn spec_final_blocks(self) -> Seq<Block> {
        if self.block_builder.entries().len() == 0 {
            self.blocks_view()
        } else {
            self.blocks_view().push(self.block_builder.block)
        }
    }

    /// Builds the SSTable: flushes any non-empty in-progress block, then
    /// concatenates every encoded block, appends the encoded metadata
    /// section, and ends with the metadata section's byte offset as a
    /// little-endian `u32` footer.
    #[verifier::spinoff_prover]
    #[verifier::rlimit(100)]
    pub fn build(self) -> (st: SsTable)
        requires
            self.wf(),
        ensures
            st.wf(),
            st.block_meta_offset == spec_blocks_size(self.spec_final_blocks()),
            st.data@ == spec_blocks_bytes(self.spec_final_blocks()) + spec_meta_bytes(
                st.block_metas@,
            ) + crate::utils::spec_u32_le(st.block_meta_offset as u32),
            st.block_metas@.len() == self.spec_final_blocks().len(),
            forall|i: int|
                0 <= i < st.block_metas@.len() ==> (#[trigger] st.block_metas@[i]).first_key@
                    == self.spec_final_blocks()[i].entries()[0].0,
            forall|i: int|
                0 <= i < st.block_metas@.len() ==> (#[trigger] st.block_metas@[i]).offset
                    == spec_blocks_size(self.spec_final_blocks().subrange(0, i)),
            spec_blocks_entries(self.spec_final_blocks()) == self.all_entries(),
    {
        let ghost fb = self.spec_final_blocks();
        let mut s = self;
        if !s.block_builder.is_empty() {
            s.flush_block();
        }
        proof {
            assert(s.blocks_view() =~= fb);
            assert(s.all_entries() =~= spec_blocks_entries(fb));
        }

        let ghost bv = s.blocks_view();
        let mut data: Vec<u8> = Vec::new();
        let mut i: usize = 0;
        proof {
            assert(bv.subrange(0, 0) =~= Seq::<Block>::empty());
            assert(data@ =~= spec_blocks_bytes(bv.subrange(0, 0)));
        }
        while i < s.blocks.len()
            invariant
                i <= s.blocks@.len(),
                s.wf(),
                bv == s.blocks_view(),
                data@ == spec_blocks_bytes(bv.subrange(0, i as int)),
            decreases s.blocks@.len() - i,
        {
            proof {
                assert(bv[i as int].entries().len() > 0);
                assert(bv[i as int].entries().len() == bv[i as int].offsets@.len());
            }
            let mut enc = s.blocks[i].encode();
            data.append(&mut enc);
            proof {
                let cur = bv.subrange(0, i as int + 1);
                assert(cur.drop_last() =~= bv.subrange(0, i as int));
                assert(cur.last() == bv[i as int]);
                assert(data@ =~= spec_blocks_bytes(cur));
            }
            i = i + 1;
        }
        proof {
            assert(bv.subrange(0, bv.len() as int) =~= bv);
            lemma_blocks_bytes_len(bv);
        }

        let block_meta_offset = s.offset;
        proof {
            assert forall|k: int|
                0 <= k < s.meta@.len() implies (#[trigger] s.meta@[k]).offset <= 0xffffffff by {
                lemma_blocks_size_take_le(bv, k, bv.len() as int);
                assert(bv.subrange(0, bv.len() as int) =~= bv);
            }
            assert forall|k: int|
                0 <= k < s.meta@.len() implies (#[trigger] s.meta@[k]).first_key@.len()
                <= 0xffff by {
                assert(bv[k].wf());
                assert(bv[k].entries()[0].0 == crate::block::spec_key_at(
                    bv[k].data@,
                    bv[k].offsets@[0] as int,
                ));
            }
        }
        let ghost data_before_meta = data@;
        encode_block_meta(&s.meta, &mut data);
        push_u32_le(&mut data, block_meta_offset as u32);
        proof {
            assert forall|i2: int, j2: int|
                0 <= i2 < j2 < s.meta@.len() implies lex_lt(
                (#[trigger] s.meta@[i2]).first_key@,
                (#[trigger] s.meta@[j2]).first_key@,
            ) by {
                assert(spec_keys_strict(spec_blocks_entries(bv)));
                lemma_first_keys_strict(bv, i2, j2);
            }
            assert forall|i2: int, j2: int|
                0 <= i2 < j2 < s.meta@.len() implies (#[trigger] s.meta@[i2]).offset < (
            #[trigger] s.meta@[j2]).offset by {
                let cur = bv.subrange(0, i2 + 1);
                assert(cur.drop_last() =~= bv.subrange(0, i2));
                assert(cur.last() == bv[i2]);
                assert(bv[i2].spec_enc_len() > 0);
                lemma_blocks_size_take_le(bv, i2 + 1, j2);
            }
        }
        let st = SsTable { data, block_metas: s.meta, block_meta_offset };
        proof {
            assert(st.data@.subrange(0, block_meta_offset as int) =~= data_before_meta);
        }
        st
    }
}

} // verus!
