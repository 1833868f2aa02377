//! The block: the immutable, binary-searchable container of sorted
//! `(key, value)` entries that is the unit of storage I/O. A block serializes
//! as the concatenated entries, then one 16-bit big-endian offset per entry,
//! then the 16-bit big-endian entry count.
use vstd::arithmetic::div_mod::lemma_fundamental_div_mod;
use vstd::prelude::*;
use vstd::slice::{slice_subrange, slice_to_vec};

use crate::LsmError;

pub mod builder;
pub mod iterator;

verus! {

/// The two big-endian bytes of a 16-bit quantity.
pub open spec fn u16_bytes(x: nat) -> Seq<u8> {
    seq![(x / 256) as u8, (x % 256) as u8]
}

/// The 16-bit big-endian quantity stored at index `i`.
pub open spec fn be16_at(data: Seq<u8>, i: int) -> nat {
    (data[i] as nat) * 256 + (data[i + 1] as nat)
}

/// Reading back two big-endian bytes yields the quantity they encode.
proof fn lemma_be16_of_u16_bytes(s: Seq<u8>, p: int, x: nat)
    requires
        0 <= p,
        p + 2 <= s.len(),
        x < 0x10000,
        s[p] == u16_bytes(x)[0],
        s[p + 1] == u16_bytes(x)[1],
    ensures
        be16_at(s, p) == x,
{
    lemma_fundamental_div_mod(x as int, 256);
}

/// Appends a 16-bit quantity as two big-endian bytes.
fn put_u16(buf: &mut Vec<u8>, x: u16)
    ensures
        final(buf)@ == old(buf)@ + u16_bytes(x as nat),
{
    let hi: u8 = (x >> 8) as u8;
    let lo: u8 = (x & 0xff) as u8;
    proof {
        assert((x >> 8) as u8 == (x as nat / 256) as u8 && (x & 0xff) as u8 == (x as nat % 256) as u8)
            by (bit_vector);
    }
    buf.push(hi);
    buf.push(lo);
    proof {
        assert(buf@ =~= old(buf)@ + u16_bytes(x as nat));
    }
}

/// Reads the 16-bit big-endian quantity stored at index `i`.
fn read_u16_at(data: &[u8], i: usize) -> (r: u16)
    requires
        i + 2 <= data@.len(),
    ensures
        r as nat == be16_at(data@, i as int),
{
    let a: u8 = data[i];
    let b: u8 = data[i + 1];
    let r: u16 = ((a as u16) << 8) | (b as u16);
    proof {
        assert(((a as u16) << 8) | (b as u16) == (a as u16) * 256 + (b as u16)) by (bit_vector);
    }
    r
}

/// Appends `src[start..end]` to `dst`.
fn append_slice_range(dst: &mut Vec<u8>, src: &[u8], start: usize, end: usize)
    requires
        start <= end <= src@.len(),
    ensures
        final(dst)@ == old(dst)@ + src@.subrange(start as int, end as int),
{
    let mut i: usize = start;
    while i < end
        invariant
            start <= i <= end <= src@.len(),
            dst@ == old(dst)@ + src@.subrange(start as int, i as int),
        decreases end - i,
    {
        dst.push(src[i]);
        proof {
            assert(src@.subrange(start as int, i + 1 as int) =~= src@.subrange(
                start as int,
                i as int,
            ).push(src@[i as int]));
        }
        i = i + 1;
    }
    proof {
        assert(dst@ =~= old(dst)@ + src@.subrange(start as int, end as int));
    }
}

/// The stored overlap with the block's first key, for the entry at `off`.
pub open spec fn entry_overlap(data: Seq<u8>, off: int) -> nat {
    be16_at(data, off)
}

/// The stored length of the key suffix, for the entry at `off`.
pub open spec fn entry_rest_len(data: Seq<u8>, off: int) -> nat {
    be16_at(data, off + 2)
}

/// The stored value length, for the entry at `off`.
pub open spec fn entry_value_len(data: Seq<u8>, off: int) -> nat {
    be16_at(data, off + 4 + entry_rest_len(data, off))
}

/// The total byte size of the entry at `off`: three 16-bit fields, the key
/// suffix, and the value.
pub open spec fn entry_size(data: Seq<u8>, off: int) -> nat {
    6 + entry_rest_len(data, off) + entry_value_len(data, off)
}

/// The key of the entry at `off`, reconstructed from the first key's prefix
/// and the stored suffix.
pub open spec fn entry_key(data: Seq<u8>, fk: Seq<u8>, off: int) -> Seq<u8> {
    fk.take(entry_overlap(data, off) as int) + data.subrange(
        off + 4,
        off + 4 + entry_rest_len(data, off) as int,
    )
}

/// The value of the entry at `off`.
pub open spec fn entry_value(data: Seq<u8>, off: int) -> Seq<u8> {
    data.subrange(off + 6 + entry_rest_len(data, off) as int, off + entry_size(data, off) as int)
}

/// The block's first key. The first entry always stores overlap zero, so its
/// suffix is the whole key.
pub open spec fn block_first_key(data: Seq<u8>) -> Seq<u8> {
    data.subrange(4, 4 + entry_rest_len(data, 0) as int)
}

/// The entry at `off` parses inside `data`: it lies in bounds, its overlap
/// stays within the first key, and its key is non-empty.
pub open spec fn wf_entry_at(data: Seq<u8>, fk: Seq<u8>, off: int) -> bool {
    &&& 0 <= off
    &&& off + entry_size(data, off) <= data.len()
    &&& entry_overlap(data, off) <= fk.len()
    &&& entry_overlap(data, off) + entry_rest_len(data, off) > 0
}

/// Well-formedness of a block body: the offsets index the entries in order,
/// each entry parses in bounds, the entries are contiguous and fill `data`,
/// and the first entry starts at zero with overlap zero.
pub open spec fn block_wf(data: Seq<u8>, offsets: Seq<u16>) -> bool {
    &&& offsets.len() <= 0xffff
    &&& (offsets.len() == 0 ==> data.len() == 0)
    &&& (offsets.len() > 0 ==> offsets[0] == 0 && entry_overlap(data, 0) == 0)
    &&& forall|i: int|
        0 <= i < offsets.len() ==> wf_entry_at(data, block_first_key(data), #[trigger] offsets[i] as int)
    &&& forall|i: int|
        0 <= i < offsets.len() - 1 ==> #[trigger] offsets[i + 1] as int == offsets[i] as int
            + entry_size(data, offsets[i] as int)
    &&& (offsets.len() > 0 ==> offsets[offsets.len() - 1] as int + entry_size(
        data,
        offsets[offsets.len() - 1] as int,
    ) == data.len())
}

/// The `(key, value)` pairs a block body holds, in stored order.
pub open spec fn block_entries(data: Seq<u8>, offsets: Seq<u16>) -> Seq<(Seq<u8>, Seq<u8>)> {
    Seq::new(
        offsets.len(),
        |i: int|
            (
                entry_key(data, block_first_key(data), offsets[i] as int),
                entry_value(data, offsets[i] as int),
            ),
    )
}

/// The offset section of an encoded block: two big-endian bytes per offset.
pub open spec fn offsets_bytes(offsets: Seq<u16>) -> Seq<u8>
    decreases offsets.len(),
{
    if offsets.len() == 0 {
        Seq::empty()
    } else {
        offsets_bytes(offsets.drop_last()) + u16_bytes(offsets.last() as nat)
    }
}

/// A whole encoded block: the entries, the offsets, and the entry count.
pub open spec fn block_encoding(data: Seq<u8>, offsets: Seq<u16>) -> Seq<u8> {
    data + offsets_bytes(offsets) + u16_bytes(offsets.len() as nat)
}

/// The entry count a buffer declares in its last two bytes.
pub open spec fn decode_num(buf: Seq<u8>) -> nat {
    be16_at(buf, buf.len() - 2)
}

/// Whether a buffer is long enough for the offset region it declares.
pub open spec fn decode_can(buf: Seq<u8>) -> bool {
    buf.len() >= 2 && 2 * decode_num(buf) <= buf.len() - 2
}

/// Where the entry region of a buffer ends and its offset region starts.
pub open spec fn decode_data_end(buf: Seq<u8>) -> int {
    buf.len() - 2 - 2 * decode_num(buf)
}

proof fn lemma_offsets_bytes_len(offsets: Seq<u16>)
    ensures
        offsets_bytes(offsets).len() == 2 * offsets.len(),
    decreases offsets.len(),
{
    if offsets.len() > 0 {
        lemma_offsets_bytes_len(offsets.drop_last());
    }
}

proof fn lemma_offsets_bytes_at(offsets: Seq<u16>, i: int)
    requires
        0 <= i < offsets.len(),
    ensures
        offsets_bytes(offsets)[2 * i] == u16_bytes(offsets[i] as nat)[0],
        offsets_bytes(offsets)[2 * i + 1] == u16_bytes(offsets[i] as nat)[1],
    decreases offsets.len(),
{
    lemma_offsets_bytes_len(offsets.drop_last());
    if i < offsets.len() - 1 {
        lemma_offsets_bytes_at(offsets.drop_last(), i);
        assert(offsets.drop_last()[i] == offsets[i]);
    }
}

/// An immutable block: its serialized entries and the offset of each entry.
pub struct Block {
    pub data: Vec<u8>,
    pub offsets: Vec<u16>,
}

impl Block {
    /// Well-formedness of the block body.
    pub open spec fn wf(&self) -> bool {
        block_wf(self.data@, self.offsets@)
    }

    /// The `(key, value)` pairs the block holds, in stored order.
    pub open spec fn entries(&self) -> Seq<(Seq<u8>, Seq<u8>)> {
        block_entries(self.data@, self.offsets@)
    }

    /// Serializes the block: entries, then offsets, then the entry count.
    pub fn encode(&self) -> (r: Vec<u8>)
        requires
            self.offsets@.len() <= 0xffff,
        ensures
            r@ == block_encoding(self.data@, self.offsets@),
    {
        let mut buf = self.data.clone();
        proof {
            assert(buf@ =~= self.data@);
        }
        let offset_len = self.offsets.len();
        let mut i: usize = 0;
        while i < offset_len
            invariant
                offset_len == self.offsets@.len(),
                0 <= i <= offset_len,
                buf@ == self.data@ + offsets_bytes(self.offsets@.take(i as int)),
            decreases offset_len - i,
        {
            put_u16(&mut buf, self.offsets[i]);
            proof {
                assert(self.offsets@.take(i + 1 as int).drop_last() =~= self.offsets@.take(
                    i as int,
                ));
                assert(offsets_bytes(self.offsets@.take(i + 1 as int)) == offsets_bytes(
                    self.offsets@.take(i as int),
                ) + u16_bytes(self.offsets@[i as int] as nat));
                assert(buf@ =~= self.data@ + offsets_bytes(self.offsets@.take(i + 1 as int)));
            }
            i = i + 1;
        }
        proof {
            assert(self.offsets@.take(offset_len as int) =~= self.offsets@);
        }
        put_u16(&mut buf, offset_len as u16);
        buf
    }

    /// Deserializes a buffer into a block body: reads the entry count from the
    /// last two bytes, the offsets from the region before them, and keeps the
    /// rest as the entry data. Rejects a buffer shorter than the offset region
    /// it declares.
    pub fn decode(buf: &[u8]) -> (r: Result<Block, LsmError>)
        ensures
            match r {
                Ok(b) => {
                    &&& decode_can(buf@)
                    &&& b.data@ == buf@.take(decode_data_end(buf@))
                    &&& b.offsets@.len() == decode_num(buf@)
                    &&& forall|i: int|
                        0 <= i < b.offsets@.len() ==> #[trigger] b.offsets@[i] as nat == be16_at(
                            buf@,
                            decode_data_end(buf@) + 2 * i,
                        )
                },
                Err(e) => e == LsmError::MalformedBlock && !decode_can(buf@),
            },
    {
        if buf.len() < 2 {
            return Err(LsmError::MalformedBlock);
        }
        let num = read_u16_at(buf, buf.len() - 2) as usize;
        if num > (buf.len() - 2) / 2 {
            return Err(LsmError::MalformedBlock);
        }
        let data_end = buf.len() - 2 - 2 * num;
        let data = slice_to_vec(slice_subrange(buf, 0, data_end));
        let mut offsets: Vec<u16> = Vec::new();
        let mut i: usize = 0;
        while i < num
            invariant
                num == decode_num(buf@),
                data_end == decode_data_end(buf@),
                data_end + 2 * num + 2 == buf@.len(),
                buf@.len() <= usize::MAX,
                0 <= i <= num,
                offsets@.len() == i,
                forall|j: int|
                    0 <= j < i ==> #[trigger] offsets@[j] as nat == be16_at(
                        buf@,
                        decode_data_end(buf@) + 2 * j,
                    ),
            decreases num - i,
        {
            let o = read_u16_at(buf, data_end + 2 * i);
            offsets.push(o);
            i = i + 1;
        }
        Ok(Block { data, offsets })
    }
}

/// Block round-trip: a well-formed block body, encoded and then decoded, comes
/// back unchanged — the same data, the same offsets, and therefore the same
/// `(key, value)` entries. The second block's fields are constrained exactly as
/// `decode` reports them on the encoding of the first.
pub proof fn lemma_block_round_trip(data: Seq<u8>, offsets: Seq<u16>, data2: Seq<u8>, offsets2: Seq<u16>)
    requires
        block_wf(data, offsets),
        decode_can(block_encoding(data, offsets)) ==> {
            &&& data2 == block_encoding(data, offsets).take(
                decode_data_end(block_encoding(data, offsets)),
            )
            &&& offsets2.len() == decode_num(block_encoding(data, offsets))
            &&& forall|i: int|
                0 <= i < offsets2.len() ==> #[trigger] offsets2[i] as nat == be16_at(
                    block_encoding(data, offsets),
                    decode_data_end(block_encoding(data, offsets)) + 2 * i,
                )
        },
    ensures
        decode_can(block_encoding(data, offsets)),
        data2 == data,
        offsets2 == offsets,
        block_entries(data2, offsets2) == block_entries(data, offsets),
        block_wf(data2, offsets2),
{
    let enc = block_encoding(data, offsets);
    lemma_offsets_bytes_len(offsets);
    assert(enc.len() == data.len() + 2 * offsets.len() + 2);
    lemma_be16_of_u16_bytes(enc, enc.len() - 2, offsets.len() as nat);
    assert(decode_num(enc) == offsets.len());
    assert(decode_can(enc));
    assert(decode_data_end(enc) == data.len());
    assert(data2 =~= data);
    assert forall|i: int| 0 <= i < offsets.len() implies #[trigger] offsets2[i] == offsets[i] by {
        lemma_offsets_bytes_at(offsets, i);
        assert(enc[data.len() + 2 * i] == u16_bytes(offsets[i] as nat)[0]);
        assert(enc[data.len() + 2 * i + 1] == u16_bytes(offsets[i] as nat)[1]);
        lemma_be16_of_u16_bytes(enc, data.len() + 2 * i, offsets[i] as nat);
    }
    assert(offsets2 =~= offsets);
}

/// Offset integrity: a well-formed block has exactly one offset per entry; the
/// first offset is zero; each offset points at an entry that parses in bounds;
/// consecutive offsets are exactly one entry size apart; and the last entry
/// ends exactly at the end of the data.
pub proof fn lemma_offset_integrity(data: Seq<u8>, offsets: Seq<u16>)
    requires
        block_wf(data, offsets),
    ensures
        block_entries(data, offsets).len() == offsets.len(),
        offsets.len() > 0 ==> offsets[0] == 0,
        forall|i: int|
            0 <= i < offsets.len() ==> wf_entry_at(
                data,
                block_first_key(data),
                #[trigger] offsets[i] as int,
            ),
        forall|i: int|
            0 <= i < offsets.len() - 1 ==> #[trigger] offsets[i + 1] as int == offsets[i] as int
                + entry_size(data, offsets[i] as int),
        offsets.len() > 0 ==> offsets[offsets.len() - 1] as int + entry_size(
            data,
            offsets[offsets.len() - 1] as int,
        ) == data.len(),
        offsets.len() == 0 ==> data.len() == 0,
{
}

/// Prefix compression is sound: each entry's stored overlap stays within both
/// the first key and the entry's own key, and the two keys agree on that
/// prefix.
pub proof fn lemma_prefix_compression(data: Seq<u8>, offsets: Seq<u16>, i: int)
    requires
        block_wf(data, offsets),
        0 <= i < offsets.len(),
    ensures
        entry_overlap(data, offsets[i] as int) <= block_first_key(data).len(),
        entry_overlap(data, offsets[i] as int) <= block_entries(data, offsets)[i].0.len(),
        block_first_key(data).take(entry_overlap(data, offsets[i] as int) as int)
            == block_entries(data, offsets)[i].0.take(entry_overlap(data, offsets[i] as int) as int),
{
    let off = offsets[i] as int;
    let fk = block_first_key(data);
    let ov = entry_overlap(data, off) as int;
    assert(wf_entry_at(data, fk, off));
    let key = entry_key(data, fk, off);
    assert(key.take(ov) =~= fk.take(ov));
}

} // verus!
