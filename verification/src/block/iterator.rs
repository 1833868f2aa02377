//! The block iterator: a positioned cursor over one block, with seek-to-first,
//! binary-search seek-to-key, and advance. The current key is reconstructed
//! from the block's first key and the stored suffix.
use vstd::prelude::*;
use vstd::slice::slice_subrange;

use crate::block::{block_first_key, entry_key, entry_value, wf_entry_at, Block};
use crate::key::{key_compare, lemma_lex_asymmetric, lemma_lex_transitive, lex_le, lex_lt,
    KeyOrdering};

verus! {

/// The entries of a block stand in non-decreasing key order. The builder does
/// not enforce this; callers that add keys in order obtain it, and binary
/// search depends on it. Equal neighbouring keys are permitted.
pub open spec fn block_sorted(entries: Seq<(Seq<u8>, Seq<u8>)>) -> bool {
    forall|i: int, j: int|
        0 <= i < j < entries.len() ==> lex_le(#[trigger] entries[i].0, #[trigger] entries[j].0)
}

/// A positioned cursor over one block: the block, the cursor index, the
/// reconstructed current key, the value's span inside the block data, and a
/// copy of the block's first key for reconstructing later keys.
pub struct BlockIterator {
    block: Block,
    key: Vec<u8>,
    value_range: (usize, usize),
    idx: usize,
    first_key: Vec<u8>,
}

impl BlockIterator {
    /// The `(key, value)` pairs of the underlying block.
    pub closed spec fn entries(&self) -> Seq<(Seq<u8>, Seq<u8>)> {
        self.block.entries()
    }

    /// The cursor index.
    pub closed spec fn sp_idx(&self) -> int {
        self.idx as int
    }

    /// The cursor stands on a live entry; encoded as "the current key is
    /// non-empty", which block well-formedness makes exact.
    pub closed spec fn sp_valid(&self) -> bool {
        self.key@.len() > 0
    }

    /// The current key.
    pub closed spec fn sp_key(&self) -> Seq<u8> {
        self.key@
    }

    /// The current value.
    pub closed spec fn sp_value(&self) -> Seq<u8> {
        self.block.data@.subrange(self.value_range.0 as int, self.value_range.1 as int)
    }

    /// Internal well-formedness.
    pub closed spec fn inv(&self) -> bool {
        &&& self.block.wf()
        &&& self.first_key@ == (if self.block.offsets@.len() == 0 {
            Seq::<u8>::empty()
        } else {
            block_first_key(self.block.data@)
        })
        &&& (self.sp_valid() ==> {
            &&& self.sp_idx() < self.entries().len()
            &&& self.key@ == self.entries()[self.sp_idx()].0
            &&& self.value_range.0 <= self.value_range.1 <= self.block.data@.len()
            &&& self.sp_value() == self.entries()[self.sp_idx()].1
        })
    }

    /// The cursor is positioned exactly at entry `i`, or invalid if `i` lies
    /// past the entries.
    pub open spec fn at_index(&self, i: int) -> bool {
        if 0 <= i < self.entries().len() {
            &&& self.sp_valid()
            &&& self.sp_idx() == i
            &&& self.sp_key() == self.entries()[i].0
            &&& self.sp_value() == self.entries()[i].1
        } else {
            !self.sp_valid()
        }
    }

    /// The cursor is where a seek for `key` lands: on the smallest index whose
    /// key is at or above `key`, or invalid when every key lies below it.
    pub open spec fn seeked_to(&self, key: Seq<u8>) -> bool {
        &&& (self.sp_valid() ==> {
            &&& 0 <= self.sp_idx() < self.entries().len()
            &&& self.sp_key() == self.entries()[self.sp_idx()].0
            &&& self.sp_value() == self.entries()[self.sp_idx()].1
            &&& lex_le(key, self.entries()[self.sp_idx()].0)
            &&& forall|j: int| 0 <= j < self.sp_idx() ==> lex_lt(#[trigger] self.entries()[j].0, key)
        })
        &&& (!self.sp_valid() ==> forall|j: int|
            0 <= j < self.entries().len() ==> lex_lt(#[trigger] self.entries()[j].0, key))
    }

    /// Constructs an unseeded (invalid) cursor, caching the block's first key.
    pub fn new(block: Block) -> (r: BlockIterator)
        requires
            block.wf(),
        ensures
            r.inv(),
            !r.sp_valid(),
            r.entries() == block.entries(),
    {
        let mut it = BlockIterator {
            block,
            key: Vec::new(),
            value_range: (0, 0),
            idx: 0,
            first_key: Vec::new(),
        };
        if it.block.offsets.len() > 0 {
            proof {
                assert(wf_entry_at(
                    it.block.data@,
                    block_first_key(it.block.data@),
                    it.block.offsets@[0] as int,
                ));
            }
            let rest = crate::block::read_u16_at(it.block.data.as_slice(), 2) as usize;
            let mut fk: Vec<u8> = Vec::new();
            crate::block::append_slice_range(&mut fk, it.block.data.as_slice(), 4, 4 + rest);
            proof {
                assert(fk@ =~= block_first_key(it.block.data@));
            }
            it.first_key = fk;
        }
        it
    }

    /// The current key; the cursor must be valid.
    pub fn key(&self) -> (r: &[u8])
        requires
            self.inv(),
            self.sp_valid(),
        ensures
            r@ == self.sp_key(),
            r@ == self.entries()[self.sp_idx()].0,
    {
        self.key.as_slice()
    }

    /// The current value's bytes; the cursor must be valid.
    pub fn value(&self) -> (r: &[u8])
        requires
            self.inv(),
            self.sp_valid(),
        ensures
            r@ == self.sp_value(),
            r@ == self.entries()[self.sp_idx()].1,
    {
        slice_subrange(self.block.data.as_slice(), self.value_range.0, self.value_range.1)
    }

    /// Whether the cursor stands on a live entry.
    pub fn is_valid(&self) -> (r: bool)
        requires
            self.inv(),
        ensures
            r == self.sp_valid(),
    {
        self.key.len() != 0
    }

    /// Positions the cursor at entry `idx`, or invalidates it when `idx` lies
    /// past the entries.
    fn seek_to(&mut self, idx: usize)
        requires
            old(self).inv(),
        ensures
            final(self).inv(),
            final(self).entries() == old(self).entries(),
            final(self).at_index(idx as int),
    {
        if idx >= self.block.offsets.len() {
            self.key = Vec::new();
            self.value_range = (0, 0);
            return ;
        }
        proof {
            assert(wf_entry_at(
                self.block.data@,
                block_first_key(self.block.data@),
                self.block.offsets@[idx as int] as int,
            ));
        }
        let off = self.block.offsets[idx] as usize;
        let data = self.block.data.as_slice();
        let ov = crate::block::read_u16_at(data, off) as usize;
        let rest = crate::block::read_u16_at(data, off + 2) as usize;
        let mut k: Vec<u8> = Vec::new();
        crate::block::append_slice_range(&mut k, self.first_key.as_slice(), 0, ov);
        crate::block::append_slice_range(&mut k, data, off + 4, off + 4 + rest);
        let vlen = crate::block::read_u16_at(data, off + 4 + rest) as usize;
        proof {
            assert(k@ =~= entry_key(
                self.block.data@,
                block_first_key(self.block.data@),
                self.block.offsets@[idx as int] as int,
            ));
        }
        self.key = k;
        self.value_range = (off + 6 + rest, off + 6 + rest + vlen);
        self.idx = idx;
        proof {
            assert(self.sp_value() =~= entry_value(
                self.block.data@,
                self.block.offsets@[idx as int] as int,
            ));
        }
    }

    /// Advances to the next entry, invalidating past the end; the cursor must
    /// be valid.
    pub fn next(&mut self)
        requires
            old(self).inv(),
            old(self).sp_valid(),
        ensures
            final(self).inv(),
            final(self).entries() == old(self).entries(),
            final(self).at_index(old(self).sp_idx() + 1),
    {
        let idx = self.idx + 1;
        self.seek_to(idx);
    }

    /// Constructs a cursor positioned at the block's first entry.
    pub fn create_and_seek_to_first(block: Block) -> (r: BlockIterator)
        requires
            block.wf(),
        ensures
            r.inv(),
            r.entries() == block.entries(),
            r.at_index(0),
    {
        let mut it = BlockIterator::new(block);
        it.seek_to(0);
        it
    }

    /// Constructs a cursor positioned at the smallest key at or above `key`.
    pub fn create_and_seek_to_key(block: Block, key: &[u8]) -> (r: BlockIterator)
        requires
            block.wf(),
            block_sorted(block.entries()),
        ensures
            r.inv(),
            r.entries() == block.entries(),
            r.seeked_to(key@),
    {
        let mut it = BlockIterator::new(block);
        it.seek_to_key(key);
        it
    }

    /// Binary search: positions the cursor at the smallest index whose key is
    /// at or above `key`, or past the end (invalid) when every key lies below
    /// it. The entries must be sorted; with equal keys present, the smallest
    /// matching index is taken.
    pub fn seek_to_key(&mut self, key: &[u8])
        requires
            old(self).inv(),
            block_sorted(old(self).entries()),
        ensures
            final(self).inv(),
            final(self).entries() == old(self).entries(),
            final(self).seeked_to(key@),
    {
        let ghost e = self.entries();
        let mut low: usize = 0;
        let mut high: usize = self.block.offsets.len();
        while low < high
            invariant
                self.inv(),
                block_sorted(e),
                e == self.entries(),
                e == old(self).entries(),
                e.len() == self.block.offsets@.len(),
                0 <= low <= high <= e.len(),
                forall|j: int| 0 <= j < low ==> lex_lt(#[trigger] e[j].0, key@),
                forall|j: int| high <= j < e.len() ==> lex_le(key@, #[trigger] e[j].0),
            decreases high - low,
        {
            let mid = low + (high - low) / 2;
            self.seek_to(mid);
            proof {
                lemma_lex_asymmetric(self.key@, key@);
            }
            match key_compare(self.key.as_slice(), key) {
                KeyOrdering::Less => {
                    proof {
                        assert forall|j: int| 0 <= j < mid + 1 implies lex_lt(
                            #[trigger] e[j].0,
                            key@,
                        ) by {
                            if j < mid {
                                lemma_lex_transitive(e[j].0, e[mid as int].0, key@);
                            }
                        }
                    }
                    low = mid + 1;
                },
                KeyOrdering::Greater | KeyOrdering::Equal => {
                    proof {
                        assert forall|j: int| mid <= j < e.len() implies lex_le(
                            key@,
                            #[trigger] e[j].0,
                        ) by {
                            if j > mid {
                                lemma_lex_transitive(key@, e[mid as int].0, e[j].0);
                            }
                        }
                    }
                    high = mid;
                },
            }
        }
        self.seek_to(low);
    }
}

} // verus!
