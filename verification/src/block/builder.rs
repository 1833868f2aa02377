//! The block builder: accumulates `(key, value)` entries into one block,
//! prefix-compressing every key against the block's first key and honoring a
//! target byte budget.
use vstd::prelude::*;
use vstd::slice::slice_to_vec;

use crate::block::{
    block_entries, block_first_key, block_wf, entry_key, entry_overlap, entry_rest_len, entry_size,
    entry_value, entry_value_len, u16_bytes, wf_entry_at, Block,
};
use crate::LsmError;

verus! {

/// The longest common prefix of `a` and `b`, examined from index `i` on.
pub open spec fn lcp_from(a: Seq<u8>, b: Seq<u8>, i: int) -> nat
    decreases a.len() - i,
{
    if i < 0 || i >= a.len() || i >= b.len() || a[i] != b[i] {
        0
    } else {
        1 + lcp_from(a, b, i + 1)
    }
}

/// The length of the longest common prefix of `a` and `b`.
pub open spec fn spec_lcp(a: Seq<u8>, b: Seq<u8>) -> nat {
    lcp_from(a, b, 0)
}

proof fn lemma_lcp_from_props(a: Seq<u8>, b: Seq<u8>, i: int)
    requires
        0 <= i <= a.len(),
        i <= b.len(),
    ensures
        i + lcp_from(a, b, i) <= a.len(),
        i + lcp_from(a, b, i) <= b.len(),
        forall|j: int| i <= j < i + lcp_from(a, b, i) ==> a[j] == b[j],
    decreases a.len() - i,
{
    if i < a.len() && i < b.len() && a[i] == b[i] {
        lemma_lcp_from_props(a, b, i + 1);
    }
}

/// The longest common prefix stays within both keys, and both agree on it.
pub proof fn lemma_lcp_props(a: Seq<u8>, b: Seq<u8>)
    ensures
        spec_lcp(a, b) <= a.len(),
        spec_lcp(a, b) <= b.len(),
        a.take(spec_lcp(a, b) as int) == b.take(spec_lcp(a, b) as int),
{
    lemma_lcp_from_props(a, b, 0);
    assert(a.take(spec_lcp(a, b) as int) =~= b.take(spec_lcp(a, b) as int));
}

/// The serialized form of one entry: the overlap with the block's first key,
/// the length of the key's remainder, that remainder, the value length, and
/// the value.
pub open spec fn entry_bytes(fk: Seq<u8>, key: Seq<u8>, value: Seq<u8>) -> Seq<u8> {
    u16_bytes(spec_lcp(fk, key)) + u16_bytes((key.len() - spec_lcp(fk, key)) as nat) + key.skip(
        spec_lcp(fk, key) as int,
    ) + u16_bytes(value.len()) + value
}

/// Appending one serialized entry to a well-formed block body, and its start
/// offset to the offsets, yields a well-formed body holding the old entries
/// followed by the new `(key, value)` pair.
proof fn lemma_block_append(data: Seq<u8>, offsets: Seq<u16>, key: Seq<u8>, value: Seq<u8>)
    requires
        block_wf(data, offsets),
        0 < key.len() <= 0xffff,
        value.len() <= 0xffff,
        data.len() <= 0xffff,
        offsets.len() < 0xffff,
    ensures
        ({
            let fk = if offsets.len() == 0 {
                Seq::<u8>::empty()
            } else {
                block_first_key(data)
            };
            let data2 = data + entry_bytes(fk, key, value);
            let offsets2 = offsets.push(data.len() as u16);
            &&& block_wf(data2, offsets2)
            &&& block_first_key(data2) == (if offsets.len() == 0 {
                key
            } else {
                block_first_key(data)
            })
            &&& block_entries(data2, offsets2) == block_entries(data, offsets).push((key, value))
        }),
{
    let fk = if offsets.len() == 0 {
        Seq::<u8>::empty()
    } else {
        block_first_key(data)
    };
    lemma_lcp_props(fk, key);
    let ov = spec_lcp(fk, key);
    let rest = (key.len() - ov) as nat;
    let p1 = u16_bytes(ov);
    let p2 = u16_bytes(rest);
    let p3 = key.skip(ov as int);
    let p4 = u16_bytes(value.len());
    let e = entry_bytes(fk, key, value);
    assert(e =~= p1 + p2 + p3 + p4 + value);
    assert(e.len() == 6 + rest + value.len());
    let data2 = data + e;
    let offsets2 = offsets.push(data.len() as u16);
    let off0 = data.len() as int;

    // The new entry's fields parse back from the appended bytes.
    assert(data2[off0] == p1[0] && data2[off0 + 1] == p1[1]);
    crate::block::lemma_be16_of_u16_bytes(data2, off0, ov);
    assert(entry_overlap(data2, off0) == ov);
    assert(data2[off0 + 2] == p2[0] && data2[off0 + 3] == p2[1]);
    crate::block::lemma_be16_of_u16_bytes(data2, off0 + 2, rest);
    assert(entry_rest_len(data2, off0) == rest);
    assert(data2[off0 + 4 + rest] == p4[0] && data2[off0 + 4 + rest + 1] == p4[1]);
    crate::block::lemma_be16_of_u16_bytes(data2, off0 + 4 + rest as int, value.len());
    assert(entry_value_len(data2, off0) == value.len());
    assert(entry_size(data2, off0) == 6 + rest + value.len());
    assert(data2.subrange(off0 + 4, off0 + 4 + rest as int) =~= p3);
    assert(entry_value(data2, off0) =~= value);

    // Parsing the old entries is unchanged by the appended bytes.
    assert forall|i: int| 0 <= i < offsets.len() implies {
        &&& entry_overlap(data2, offsets[i] as int) == entry_overlap(data, offsets[i] as int)
        &&& entry_rest_len(data2, offsets[i] as int) == entry_rest_len(data, offsets[i] as int)
        &&& entry_value_len(data2, offsets[i] as int) == entry_value_len(data, offsets[i] as int)
        &&& data2.subrange(
            offsets[i] as int + 4,
            offsets[i] as int + 4 + entry_rest_len(data, offsets[i] as int) as int,
        ) == data.subrange(
            offsets[i] as int + 4,
            offsets[i] as int + 4 + entry_rest_len(data, offsets[i] as int) as int,
        )
        &&& entry_value(data2, offsets[i] as int) == entry_value(data, offsets[i] as int)
    } by {
        assert(wf_entry_at(data, block_first_key(data), offsets[i] as int));
        let off = offsets[i] as int;
        assert(entry_overlap(data2, off) == entry_overlap(data, off));
        assert(entry_rest_len(data2, off) == entry_rest_len(data, off));
        assert(entry_value_len(data2, off) == entry_value_len(data, off));
        assert(data2.subrange(off + 4, off + 4 + entry_rest_len(data, off) as int) =~= data.subrange(
            off + 4,
            off + 4 + entry_rest_len(data, off) as int,
        ));
        assert(entry_value(data2, off) =~= entry_value(data, off));
    }

    // The first key is the old one, or the new key if the block was empty.
    if offsets.len() == 0 {
        assert(data.len() == 0);
        assert(off0 == 0);
        assert(ov == 0);
        assert(p3 =~= key);
        assert(block_first_key(data2) =~= key);
    } else {
        assert(wf_entry_at(data, block_first_key(data), offsets[0] as int));
        assert(offsets[0] == 0);
        assert(entry_rest_len(data2, 0) == entry_rest_len(data, 0));
        assert(block_first_key(data2) =~= block_first_key(data));
    }
    let fk2 = block_first_key(data2);

    // The new entry's key reconstructs to exactly `key`.
    assert(fk2.take(ov as int) =~= key.take(ov as int));
    assert(entry_key(data2, fk2, off0) =~= key);

    // Well-formedness of the grown body.
    assert(offsets2[0] == 0 && entry_overlap(data2, 0) == 0);
    assert forall|i: int| 0 <= i < offsets2.len() implies wf_entry_at(
        data2,
        fk2,
        #[trigger] offsets2[i] as int,
    ) by {
        if i < offsets.len() {
            assert(wf_entry_at(data, block_first_key(data), offsets[i] as int));
            lemma_entry_end_bound(data, offsets, i);
        } else {
            assert(offsets2[i] as int == off0);
        }
    }
    assert forall|i: int| 0 <= i < offsets2.len() - 1 implies #[trigger] offsets2[i + 1] as int
        == offsets2[i] as int + entry_size(data2, offsets2[i] as int) by {
        if i < offsets.len() - 1 {
            assert(offsets[i + 1] as int == offsets[i] as int + entry_size(
                data,
                offsets[i] as int,
            ));
        } else {
            assert(i == offsets.len() - 1);
            assert(offsets2[i + 1] as int == off0);
        }
    }
    assert(block_wf(data2, offsets2));

    // The entry list grows by exactly the new pair.
    assert forall|i: int| 0 <= i < offsets.len() implies block_entries(data2, offsets2)[i]
        == block_entries(data, offsets)[i] by {
        let off = offsets[i] as int;
        assert(entry_key(data2, fk2, off) =~= entry_key(data, block_first_key(data), off));
    }
    assert(block_entries(data2, offsets2) =~= block_entries(data, offsets).push((key, value)));
}

/// Each well-formed entry ends within the data.
proof fn lemma_entry_end_bound(data: Seq<u8>, offsets: Seq<u16>, i: int)
    requires
        block_wf(data, offsets),
        0 <= i < offsets.len(),
    ensures
        offsets[i] as int + entry_size(data, offsets[i] as int) <= data.len(),
{
    assert(wf_entry_at(data, block_first_key(data), offsets[i] as int));
}

/// Accumulates entries for one block: the serialized entries so far, their
/// offsets, the byte budget, and the block's first key.
pub struct BlockBuilder {
    data: Vec<u8>,
    offsets: Vec<u16>,
    block_size: usize,
    first_key: Vec<u8>,
}

impl BlockBuilder {
    /// The `(key, value)` pairs added so far, in order.
    pub closed spec fn entries(&self) -> Seq<(Seq<u8>, Seq<u8>)> {
        block_entries(self.data@, self.offsets@)
    }

    /// The byte budget the builder was created with.
    pub closed spec fn spec_block_size(&self) -> usize {
        self.block_size
    }

    /// The projected encoded size: the count field, the offsets, and the data.
    pub closed spec fn spec_size(&self) -> int {
        2 + 2 * (self.offsets@.len() as int) + (self.data@.len() as int)
    }

    /// Internal well-formedness.
    pub closed spec fn wf(&self) -> bool {
        &&& block_wf(self.data@, self.offsets@)
        &&& self.first_key@ == (if self.offsets@.len() == 0 {
            Seq::<u8>::empty()
        } else {
            block_first_key(self.data@)
        })
        &&& self.block_size <= 0xffff
        &&& (self.offsets@.len() >= 2 ==> self.spec_size() <= self.block_size + 2)
        &&& (self.offsets@.len() <= 1 ==> self.data@.len() <= 0x20004)
    }

    /// Constructs an empty builder with the given byte budget. The budget may
    /// not exceed the largest 16-bit offset the format can store.
    pub fn create(block_size: usize) -> (r: BlockBuilder)
        requires
            block_size <= 0xffff,
        ensures
            r.wf(),
            r.entries().len() == 0,
            r.spec_block_size() == block_size,
    {
        let r = BlockBuilder {
            data: Vec::new(),
            offsets: Vec::new(),
            block_size,
            first_key: Vec::new(),
        };
        proof {
            assert(r.entries() =~= Seq::<(Seq<u8>, Seq<u8>)>::empty());
        }
        r
    }

    /// The projected encoded size of the block under construction.
    fn estimated_size(&self) -> (r: usize)
        requires
            self.wf(),
        ensures
            r == self.spec_size(),
    {
        2 + 2 * self.offsets.len() + self.data.len()
    }

    /// The length of the longest common prefix of the two keys.
    fn compute_overlap(first_key: &[u8], key: &[u8]) -> (r: usize)
        ensures
            r == spec_lcp(first_key@, key@),
    {
        let n: usize = if first_key.len() <= key.len() {
            first_key.len()
        } else {
            key.len()
        };
        let mut i: usize = 0;
        while i < n && first_key[i] == key[i]
            invariant
                n <= first_key@.len(),
                n <= key@.len(),
                n == if first_key@.len() <= key@.len() { first_key@.len() } else { key@.len() },
                0 <= i <= n,
                spec_lcp(first_key@, key@) == i + lcp_from(first_key@, key@, i as int),
            decreases n - i,
        {
            i = i + 1;
        }
        proof {
            assert(lcp_from(first_key@, key@, i as int) == 0);
        }
        i
    }

    /// Adds one entry if it fits: the first entry is always accepted, a later
    /// one only when the projected size — counting the key's suffix after
    /// prefix compression against the block's first key — stays within the
    /// budget. Returns whether the entry was taken; a rejected entry changes
    /// nothing.
    #[verifier::rlimit(50)]
    pub fn add(&mut self, key: &[u8], value: &[u8]) -> (r: bool)
        requires
            old(self).wf(),
            0 < key@.len() <= 0xffff,
            value@.len() <= 0xffff,
        ensures
            final(self).wf(),
            final(self).spec_block_size() == old(self).spec_block_size(),
            r == (old(self).entries().len() == 0 || old(self).spec_size() + 6 + (key@.len()
                - spec_lcp(old(self).entries()[0].0, key@)) + value@.len() <= old(
                self,
            ).spec_block_size()),
            r ==> final(self).entries() == old(self).entries().push((key@, value@)),
            r ==> final(self).spec_size() == old(self).spec_size() + 8 + key@.len() + value@.len()
                - (if old(self).entries().len() == 0 {
                    0
                } else {
                    spec_lcp(old(self).entries()[0].0, key@)
                }),
            !r ==> *final(self) == *old(self),
    {
        proof {
            lemma_lcp_props(self.first_key@, key@);
        }
        let overlap = Self::compute_overlap(self.first_key.as_slice(), key);
        let projected = self.estimated_size() + 6 + (key.len() - overlap) + value.len();
        let empty = self.offsets.len() == 0;
        if projected > self.block_size && !empty {
            return false;
        }
        proof {
            lemma_block_append(self.data@, self.offsets@, key@, value@);
        }
        let off = self.data.len() as u16;
        self.offsets.push(off);
        crate::block::put_u16(&mut self.data, overlap as u16);
        crate::block::put_u16(&mut self.data, (key.len() - overlap) as u16);
        crate::block::append_slice_range(&mut self.data, key, overlap, key.len());
        crate::block::put_u16(&mut self.data, value.len() as u16);
        crate::block::append_slice_range(&mut self.data, value, 0, value.len());
        proof {
            assert(self.data@ =~= old(self).data@ + entry_bytes(
                old(self).first_key@,
                key@,
                value@,
            ));
        }
        if self.first_key.len() == 0 {
            self.first_key = slice_to_vec(key);
        }
        true
    }

    /// Whether no entry has been added yet.
    pub fn is_empty(&self) -> (r: bool)
        ensures
            r == (self.entries().len() == 0),
    {
        self.offsets.len() == 0
    }

    /// Finishes the block. A builder holding no entries cannot build one.
    pub fn build(self) -> (r: Result<Block, LsmError>)
        requires
            self.wf(),
        ensures
            match r {
                Ok(b) => {
                    &&& self.entries().len() > 0
                    &&& b.wf()
                    &&& b.entries() == self.entries()
                    &&& b.data@.len() <= 0xffff + 0x20004
                },
                Err(e) => e == LsmError::EmptyBlock && self.entries().len() == 0,
            },
    {
        if self.offsets.len() == 0 {
            return Err(LsmError::EmptyBlock);
        }
        Ok(Block { data: self.data, offsets: self.offsets })
    }
}

} // verus!
