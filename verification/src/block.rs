//! A block is the smallest unit of read and caching in the LSM tree: a
//! collection of sorted key-value entries packed into a byte buffer, plus an
//! index of entry offsets.
//!
//! Entry encoding within `data`, little-endian and back-to-back:
//! `[key_len: u16][key bytes][value_len: u16][value bytes]`.
//!
//! Block wire encoding: `data` ++ each offset as a little-endian `u16` ++
//! the number of entries as a little-endian `u16`.

mod builder;
mod iterator;

pub use builder::BlockBuilder;
pub use iterator::BlockIterator;

use crate::utils::{
    lex_le, lex_lt, spec_u16_le, spec_u16_of, FromLeBytesSlice, SIZEOF_U16,
};
use vstd::prelude::*;

verus! {

/// Length of the key of the entry starting at byte `off` of `data`.
pub open spec fn spec_key_len(data: Seq<u8>, off: int) -> int
    recommends
        0 <= off,
        off + 2 <= data.len(),
{
    spec_u16_of(data[off], data[off + 1]) as int
}

/// Key of the entry starting at byte `off` of `data`.
pub open spec fn spec_key_at(data: Seq<u8>, off: int) -> Seq<u8> {
    data.subrange(off + 2, off + 2 + spec_key_len(data, off))
}

/// Length of the value of the entry starting at byte `off` of `data`.
pub open spec fn spec_value_len(data: Seq<u8>, off: int) -> int {
    spec_u16_of(
        data[off + 2 + spec_key_len(data, off)],
        data[off + 3 + spec_key_len(data, off)],
    ) as int
}

/// Value of the entry starting at byte `off` of `data`.
pub open spec fn spec_value_at(data: Seq<u8>, off: int) -> Seq<u8> {
    data.subrange(
        off + 4 + spec_key_len(data, off),
        off + 4 + spec_key_len(data, off) + spec_value_len(data, off),
    )
}

/// First byte past the entry starting at byte `off` of `data`.
pub open spec fn spec_entry_end(data: Seq<u8>, off: int) -> int {
    off + 4 + spec_key_len(data, off) + spec_value_len(data, off)
}

/// The entry starting at byte `off` lies entirely within `data`.
pub open spec fn spec_entry_in_bounds(data: Seq<u8>, off: int) -> bool {
    &&& 0 <= off
    &&& off + 2 <= data.len()
    &&& off + 4 + spec_key_len(data, off) <= data.len()
    &&& spec_entry_end(data, off) <= data.len()
}

/// The block invariant over its raw parts: the offsets tile `data` exactly
/// with well-formed entries, no key is empty, and keys are in non-decreasing
/// order.
pub open spec fn spec_block_wf(data: Seq<u8>, offsets: Seq<u16>) -> bool {
    &&& offsets.len() <= 0xffff
    &&& (offsets.len() == 0 ==> data.len() == 0)
    &&& (offsets.len() > 0 ==> offsets[0] == 0)
    &&& (forall|i: int|
        0 <= i < offsets.len() ==> spec_entry_in_bounds(data, #[trigger] offsets[i] as int))
    &&& (forall|i: int|
        0 <= i < offsets.len() ==> spec_key_len(data, #[trigger] offsets[i] as int) >= 1)
    &&& (forall|i: int|
        0 <= i < offsets.len() - 1 ==> #[trigger] offsets[i + 1] as int == spec_entry_end(
            data,
            offsets[i] as int,
        ))
    &&& (offsets.len() > 0 ==> spec_entry_end(data, offsets[offsets.len() - 1] as int)
        == data.len())
    &&& (forall|i: int|
        0 <= i < offsets.len() - 1 ==> lex_le(
            spec_key_at(data, #[trigger] offsets[i] as int),
            spec_key_at(data, offsets[i + 1] as int),
        ))
}

/// Keys of an entry sequence are strictly increasing.
pub open spec fn spec_keys_strict(entries: Seq<(Seq<u8>, Seq<u8>)>) -> bool {
    forall|i: int, j: int|
        0 <= i < j < entries.len() ==> lex_lt(#[trigger] entries[i].0, #[trigger] entries[j].0)
}

/// Little-endian concatenation of a sequence of offsets.
pub open spec fn spec_offsets_bytes(offsets: Seq<u16>) -> Seq<u8>
    decreases offsets.len(),
{
    if offsets.len() == 0 {
        Seq::empty()
    } else {
        spec_u16_le(offsets[0]) + spec_offsets_bytes(offsets.skip(1))
    }
}

/// The wire encoding of a block with the given raw parts.
pub open spec fn spec_block_bytes(data: Seq<u8>, offsets: Seq<u16>) -> Seq<u8> {
    data + spec_offsets_bytes(offsets) + spec_u16_le(offsets.len() as u16)
}

/// Entry count declared by the trailing two bytes of an encoded block.
pub open spec fn spec_decoded_count(bytes: Seq<u8>) -> int
    recommends
        bytes.len() >= 2,
{
    spec_u16_of(bytes[bytes.len() - 2], bytes[bytes.len() - 1]) as int
}

/// The data section of an encoded block.
pub open spec fn spec_decoded_data(bytes: Seq<u8>) -> Seq<u8> {
    bytes.subrange(0, bytes.len() - 2 - 2 * spec_decoded_count(bytes))
}

/// The offsets recovered from the offsets section of an encoded block.
pub open spec fn spec_decoded_offsets(bytes: Seq<u8>) -> Seq<u16> {
    Seq::new(
        spec_decoded_count(bytes) as nat,
        |j: int|
            spec_u16_of(
                bytes[bytes.len() - 2 - 2 * spec_decoded_count(bytes) + 2 * j],
                bytes[bytes.len() - 2 - 2 * spec_decoded_count(bytes) + 2 * j + 1],
            ),
    )
}

/// The byte sequence is the wire encoding of some well-formed, non-empty
/// block.
pub open spec fn spec_block_decodable(bytes: Seq<u8>) -> bool {
    &&& bytes.len() >= 2
    &&& spec_decoded_count(bytes) >= 1
    &&& 2 * spec_decoded_count(bytes) + 2 <= bytes.len()
    &&& spec_block_wf(spec_decoded_data(bytes), spec_decoded_offsets(bytes))
}

/// Error returned by `Block::decode` when the input is not a valid block
/// encoding.
#[derive(Debug, Clone, Copy, PartialEq, Eq)]
pub struct CorruptBlock;

/// An immutable, sorted sequence of key-value entries packed into a byte
/// buffer, plus the byte offset of each entry's start within that buffer.
pub struct Block {
    pub data: Vec<u8>,
    pub offsets: Vec<u16>,
}

impl Block {
    /// The entries stored in the block, as (key, value) pairs.
    pub open spec fn entries(self) -> Seq<(Seq<u8>, Seq<u8>)> {
        Seq::new(
            self.offsets@.len(),
            |i: int|
                (
                    spec_key_at(self.data@, self.offsets@[i] as int),
                    spec_value_at(self.data@, self.offsets@[i] as int),
                ),
        )
    }

    /// The block invariant.
    pub open spec fn wf(self) -> bool {
        spec_block_wf(self.data@, self.offsets@)
    }

    /// Length of the block's wire encoding.
    pub open spec fn spec_enc_len(self) -> int {
        self.data@.len() as int + 2 * self.offsets@.len() + 2
    }

    /// Produces the wire encoding: `data` ++ offsets (little-endian `u16`
    /// each) ++ entry count (little-endian `u16`). An empty block has no
    /// valid representation and may not be encoded.
    pub fn encode(&self) -> (out: Vec<u8>)
        requires
            self.wf(),
            self.offsets@.len() > 0,
        ensures
            out@ == spec_block_bytes(self.data@, self.offsets@),
            out@.len() == self.spec_enc_len(),
    {
        let mut out: Vec<u8> = Vec::new();
        out.extend_from_slice(self.data.as_slice());
        let mut j: usize = 0;
        proof {
            assert(self.offsets@.subrange(0, 0) =~= Seq::<u16>::empty());
            assert(out@ =~= self.data@ + spec_offsets_bytes(self.offsets@.subrange(0, 0)));
        }
        while j < self.offsets.len()
            invariant
                j <= self.offsets@.len(),
                self.wf(),
                out@ == self.data@ + spec_offsets_bytes(self.offsets@.subrange(0, j as int)),
            decreases self.offsets@.len() - j,
        {
            crate::utils::push_u16_le(&mut out, self.offsets[j]);
            proof {
                lemma_offsets_bytes_push(self.offsets@.subrange(0, j as int), self.offsets@[j as int]);
                assert(self.offsets@.subrange(0, j as int).push(self.offsets@[j as int]) =~= self
                    .offsets@.subrange(0, j as int + 1));
            }
            j = j + 1;
        }
        proof {
            assert(self.offsets@.subrange(0, self.offsets@.len() as int) =~= self.offsets@);
        }
        crate::utils::push_u16_le(&mut out, self.offsets.len() as u16);
        proof {
            lemma_offsets_bytes_len(self.offsets@);
        }
        out
    }

    /// Inverse of `encode`. Fails with `CorruptBlock` exactly when the input
    /// is not the wire encoding of a well-formed, non-empty block.
    pub fn decode(input: &[u8]) -> (r: Result<Block, CorruptBlock>)
        ensures
            r is Ok <==> spec_block_decodable(input@),
            r matches Ok(b) ==> {
                &&& b.wf()
                &&& b.data@ == spec_decoded_data(input@)
                &&& b.offsets@ == spec_decoded_offsets(input@)
            },
    {
        let n: usize = input.len();
        if n < 2 {
            return Err(CorruptBlock);
        }
        let count: usize = u16::from_le_bytes_slice(&input[n - 2..n]) as usize;
        proof {
            assert(input@.subrange(n - 2, n as int)[0] == input@[n - 2]);
            assert(input@.subrange(n - 2, n as int)[1] == input@[n - 1]);
        }
        assert(count == spec_decoded_count(input@));
        if count == 0 {
            return Err(CorruptBlock);
        }
        if 2 * count + 2 > n {
            return Err(CorruptBlock);
        }
        let dlen: usize = n - 2 - 2 * count;

        let mut offsets: Vec<u16> = Vec::new();
        let mut j: usize = 0;
        while j < count
            invariant
                j <= count,
                n == input@.len(),
                n >= 2,
                count == spec_decoded_count(input@),
                2 * count + 2 <= n,
                dlen == n - 2 - 2 * count,
                offsets@.len() == j,
                forall|k: int| 0 <= k < j ==> offsets@[k] == spec_decoded_offsets(input@)[k],
            decreases count - j,
        {
            let off = u16::from_le_bytes_slice(&input[dlen + 2 * j..dlen + 2 * j + 2]);
            proof {
                assert(input@.subrange(dlen + 2 * j, dlen + 2 * j + 2)[0] == input@[dlen + 2 * j]);
                assert(input@.subrange(dlen + 2 * j, dlen + 2 * j + 2)[1] == input@[dlen + 2 * j
                    + 1]);
            }
            offsets.push(off);
            j = j + 1;
        }
        proof {
            assert(offsets@ =~= spec_decoded_offsets(input@));
        }

        let mut data: Vec<u8> = Vec::new();
        data.extend_from_slice(&input[0..dlen]);
        assert(data@ == spec_decoded_data(input@));

        // Validate the structural invariant: offsets tile `data` exactly,
        // every key is non-empty, keys are in non-decreasing order.
        if offsets[0] != 0 {
            return Err(CorruptBlock);
        }
        let ds: &[u8] = data.as_slice();
        let mut i: usize = 0;
        while i < count
            invariant
                i <= count,
                count >= 1,
                count == offsets@.len(),
                data@.len() == dlen,
                ds@ == data@,
                offsets@[0] == 0,
                offsets@ == spec_decoded_offsets(input@),
                data@ == spec_decoded_data(input@),
                forall|k: int|
                    0 <= k < i ==> spec_entry_in_bounds(data@, #[trigger] offsets@[k] as int),
                forall|k: int|
                    0 <= k < i ==> spec_key_len(data@, #[trigger] offsets@[k] as int) >= 1,
                forall|k: int|
                    0 <= k < i && k < count - 1 ==> #[trigger] offsets@[k + 1] as int
                        == spec_entry_end(data@, offsets@[k] as int),
                forall|k: int|
                    0 <= k < i && k == count - 1 ==> spec_entry_end(data@, offsets@[k] as int)
                        == data@.len(),
            decreases count - i,
        {
            let off: usize = offsets[i] as usize;
            if off + 2 > dlen {
                return Err(CorruptBlock);
            }
            let kl: usize = u16::from_le_bytes_slice(&ds[off..off + 2]) as usize;
            proof {
                assert(ds@.subrange(off as int, off + 2)[0] == data@[off as int]);
                assert(ds@.subrange(off as int, off + 2)[1] == data@[off + 1]);
            }
            assert(kl == spec_key_len(data@, off as int));
            if kl == 0 {
                return Err(CorruptBlock);
            }
            if off + 4 + kl > dlen {
                return Err(CorruptBlock);
            }
            let vl: usize = u16::from_le_bytes_slice(&ds[off + 2 + kl..off + 4 + kl]) as usize;
            proof {
                assert(ds@.subrange(off + 2 + kl, off + 4 + kl)[0] == data@[off + 2 + kl]);
                assert(ds@.subrange(off + 2 + kl, off + 4 + kl)[1] == data@[off + 3 + kl]);
            }
            assert(vl == spec_value_len(data@, off as int));
            let end: usize = off + 4 + kl + vl;
            if end > dlen {
                return Err(CorruptBlock);
            }
            if i + 1 < count {
                if offsets[i + 1] as usize != end {
                    return Err(CorruptBlock);
                }
            } else {
                if end != dlen {
                    return Err(CorruptBlock);
                }
            }
            i = i + 1;
        }

        // Keys must be in non-decreasing order.
        let mut i2: usize = 1;
        while i2 < count
            invariant
                1 <= i2 <= count,
                count >= 1,
                count == offsets@.len(),
                data@.len() == dlen,
                offsets@ == spec_decoded_offsets(input@),
                data@ == spec_decoded_data(input@),
                forall|k: int|
                    0 <= k < count ==> spec_entry_in_bounds(data@, #[trigger] offsets@[k] as int),
                forall|k: int|
                    0 <= k < i2 - 1 ==> lex_le(
                        spec_key_at(data@, #[trigger] offsets@[k] as int),
                        spec_key_at(data@, offsets@[k + 1] as int),
                    ),
            decreases count - i2,
        {
            let (prev_key, _pv) = read_entry(&data, offsets[i2 - 1] as usize);
            let (cur_key, _cv) = read_entry(&data, offsets[i2] as usize);
            if !crate::utils::key_le(prev_key.as_slice(), cur_key.as_slice()) {
                return Err(CorruptBlock);
            }
            i2 = i2 + 1;
        }

        let b = Block { data, offsets };
        assert(b.wf());
        Ok(b)
    }

    /// `1` (the conceptual size of the trailing count) plus the bytes of
    /// `data` plus two bytes for each offset. Used by `BlockBuilder` for
    /// admission control.
    pub fn estimated_size(&self) -> (r: usize)
        requires
            self.wf(),
        ensures
            r == 1 + self.data@.len() + 2 * self.offsets@.len(),
    {
        proof {
            lemma_block_wf_data_len_bound(self.data@, self.offsets@);
        }
        1 + self.data.len() + self.offsets.len() * SIZEOF_U16
    }
}

/// Reads the entry starting at byte `off` of `data`.
pub(crate) fn read_entry(data: &Vec<u8>, off: usize) -> (kv: (Vec<u8>, Vec<u8>))
    requires
        spec_entry_in_bounds(data@, off as int),
    ensures
        kv.0@ == spec_key_at(data@, off as int),
        kv.1@ == spec_value_at(data@, off as int),
{
    let total: usize = data.len();
    let ds: &[u8] = data.as_slice();
    let kl: usize = u16::from_le_bytes_slice(&ds[off..off + 2]) as usize;
    proof {
        assert(ds@.subrange(off as int, off + 2)[0] == data@[off as int]);
        assert(ds@.subrange(off as int, off + 2)[1] == data@[off + 1]);
    }
    let mut key: Vec<u8> = Vec::new();
    key.extend_from_slice(&ds[off + 2..off + 2 + kl]);
    let vl: usize = u16::from_le_bytes_slice(&ds[off + 2 + kl..off + 4 + kl]) as usize;
    proof {
        assert(ds@.subrange(off + 2 + kl, off + 4 + kl)[0] == data@[off + 2 + kl]);
        assert(ds@.subrange(off + 2 + kl, off + 4 + kl)[1] == data@[off + 3 + kl]);
    }
    let mut value: Vec<u8> = Vec::new();
    value.extend_from_slice(&ds[off + 4 + kl..off + 4 + kl + vl]);
    (key, value)
}

/// A well-formed block's data section is small: the last entry starts at a
/// `u16` offset and key and value lengths are `u16`s.
pub proof fn lemma_block_wf_data_len_bound(data: Seq<u8>, offsets: Seq<u16>)
    requires
        spec_block_wf(data, offsets),
    ensures
        data.len() <= 0xffff + 4 + 0xffff + 0xffff,
{
    if offsets.len() > 0 {
        let last = offsets[offsets.len() - 1] as int;
        assert(spec_entry_end(data, last) == data.len());
    }
}

/// Appending one offset extends the offsets section by its two bytes.
pub proof fn lemma_offsets_bytes_push(offsets: Seq<u16>, v: u16)
    ensures
        spec_offsets_bytes(offsets.push(v)) == spec_offsets_bytes(offsets) + spec_u16_le(v),
    decreases offsets.len(),
{
    if offsets.len() == 0 {
        assert(offsets.push(v)[0] == v);
        assert(offsets.push(v).skip(1) =~= Seq::<u16>::empty());
        assert(spec_offsets_bytes(offsets.push(v)) == spec_u16_le(v) + spec_offsets_bytes(
            Seq::<u16>::empty(),
        ));
        assert(spec_u16_le(v) + Seq::<u8>::empty() =~= Seq::<u8>::empty() + spec_u16_le(v));
    } else {
        assert(offsets.push(v)[0] == offsets[0]);
        assert(offsets.push(v).skip(1) =~= offsets.skip(1).push(v));
        assert(spec_offsets_bytes(offsets.push(v)) == spec_u16_le(offsets[0])
            + spec_offsets_bytes(offsets.skip(1).push(v)));
        lemma_offsets_bytes_push(offsets.skip(1), v);
        assert(spec_offsets_bytes(offsets) == spec_u16_le(offsets[0]) + spec_offsets_bytes(
            offsets.skip(1),
        ));
        assert(spec_u16_le(offsets[0]) + (spec_offsets_bytes(offsets.skip(1)) + spec_u16_le(v))
            =~= (spec_u16_le(offsets[0]) + spec_offsets_bytes(offsets.skip(1))) + spec_u16_le(v));
    }
}

/// The offsets section takes two bytes per offset.
pub proof fn lemma_offsets_bytes_len(offsets: Seq<u16>)
    ensures
        spec_offsets_bytes(offsets).len() == 2 * offsets.len(),
    decreases offsets.len(),
{
    if offsets.len() > 0 {
        lemma_offsets_bytes_len(offsets.skip(1));
    }
}

/// Byte `2 * j` of the offsets section is the low byte of offset `j`, and
/// byte `2 * j + 1` its high byte.
pub proof fn lemma_offsets_bytes_index(offsets: Seq<u16>, j: int)
    requires
        0 <= j < offsets.len(),
    ensures
        spec_offsets_bytes(offsets)[2 * j] == crate::utils::spec_lo8(offsets[j]),
        spec_offsets_bytes(offsets)[2 * j + 1] == crate::utils::spec_hi8(offsets[j]),
    decreases j,
{
    lemma_offsets_bytes_len(offsets.skip(1));
    if j == 0 {
    } else {
        lemma_offsets_bytes_index(offsets.skip(1), j - 1);
    }
}

/// Round-trip: the wire encoding of any well-formed, non-empty block decodes
/// back to the same `data` and `offsets`.
pub proof fn lemma_block_roundtrip(data: Seq<u8>, offsets: Seq<u16>)
    requires
        spec_block_wf(data, offsets),
        offsets.len() > 0,
    ensures
        spec_block_decodable(spec_block_bytes(data, offsets)),
        spec_decoded_data(spec_block_bytes(data, offsets)) == data,
        spec_decoded_offsets(spec_block_bytes(data, offsets)) == offsets,
{
    lemma_block_bytes_decodes(data, offsets);
}

/// The decode decomposition recovers the raw parts from any block encoding
/// whose entry count fits a `u16`.
#[verifier::spinoff_prover]
#[verifier::rlimit(100)]
pub proof fn lemma_block_bytes_decodes(data: Seq<u8>, offsets: Seq<u16>)
    requires
        1 <= offsets.len() <= 0xffff,
    ensures
        spec_block_bytes(data, offsets).len() == data.len() + 2 * offsets.len() + 2,
        spec_decoded_count(spec_block_bytes(data, offsets)) == offsets.len(),
        spec_decoded_data(spec_block_bytes(data, offsets)) == data,
        spec_decoded_offsets(spec_block_bytes(data, offsets)) == offsets,
{
    let enc = spec_block_bytes(data, offsets);
    let ob = spec_offsets_bytes(offsets);
    let cnt = spec_u16_le(offsets.len() as u16);
    let n = offsets.len() as int;
    lemma_offsets_bytes_len(offsets);
    assert(enc == (data + ob) + cnt);
    assert(enc.len() == data.len() + 2 * n + 2);
    crate::utils::lemma_u16_le_roundtrip(offsets.len() as u16);
    assert(enc[enc.len() - 2] == cnt[0]);
    assert(enc[enc.len() - 1] == cnt[1]);
    assert(spec_decoded_count(enc) == n);
    assert forall|i: int| 0 <= i < data.len() implies enc[i] == data[i] by {
        assert((data + ob)[i] == data[i]);
    }
    assert(spec_decoded_data(enc) =~= data);
    assert forall|j: int| 0 <= j < n implies spec_decoded_offsets(enc)[j] == offsets[j] by {
        lemma_offsets_bytes_index(offsets, j);
        assert((data + ob)[data.len() + 2 * j] == ob[2 * j]);
        assert((data + ob)[data.len() + 2 * j + 1] == ob[2 * j + 1]);
        assert(enc[data.len() + 2 * j] == ob[2 * j]);
        assert(enc[data.len() + 2 * j + 1] == ob[2 * j + 1]);
        crate::utils::lemma_u16_le_roundtrip(offsets[j]);
    }
    assert(spec_decoded_offsets(enc) =~= offsets);
}

/// Appending bytes after an entry does not change how the entry parses.
pub proof fn lemma_entry_parse_prefix(data: Seq<u8>, ext: Seq<u8>, off: int)
    requires
        spec_entry_in_bounds(data, off),
    ensures
        spec_key_len(data + ext, off) == spec_key_len(data, off),
        spec_value_len(data + ext, off) == spec_value_len(data, off),
        spec_entry_end(data + ext, off) == spec_entry_end(data, off),
        spec_entry_in_bounds(data + ext, off),
        spec_key_at(data + ext, off) == spec_key_at(data, off),
        spec_value_at(data + ext, off) == spec_value_at(data, off),
{
    let full = data + ext;
    assert(full[off] == data[off]);
    assert(full[off + 1] == data[off + 1]);
    let kl = spec_key_len(data, off);
    assert(full[off + 2 + kl] == data[off + 2 + kl]);
    assert(full[off + 3 + kl] == data[off + 3 + kl]);
    assert forall|i: int| off + 2 <= i < spec_entry_end(data, off) implies full[i] == data[i] by {}
    assert(spec_key_at(full, off) =~= spec_key_at(data, off));
    assert(spec_value_at(full, off) =~= spec_value_at(data, off));
}

/// Keys strictly increasing stays true when a key above every present key is
/// appended.
pub proof fn lemma_keys_strict_push(entries: Seq<(Seq<u8>, Seq<u8>)>, kv: (Seq<u8>, Seq<u8>))
    requires
        spec_keys_strict(entries),
        entries.len() > 0 ==> lex_lt(entries.last().0, kv.0),
    ensures
        spec_keys_strict(entries.push(kv)),
{
    let pushed = entries.push(kv);
    assert forall|i: int, j: int|
        0 <= i < j < pushed.len() implies lex_lt(#[trigger] pushed[i].0, #[trigger] pushed[j].0) by {
        if j < entries.len() {
            assert(lex_lt(entries[i].0, entries[j].0));
        } else {
            assert(pushed[j] == kv);
            if i == entries.len() - 1 {
                assert(lex_lt(entries.last().0, kv.0));
            } else {
                assert(lex_lt(entries[i].0, entries[entries.len() - 1].0));
                crate::utils::lemma_lex_trans(entries[i].0, entries[entries.len() - 1].0, kv.0);
            }
        }
    }
}

} // verus!
