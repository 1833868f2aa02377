//! The in-memory table: an ordered map from byte keys to byte values backed by
//! a concurrent skip list, with an approximate-size counter and range scans.
use vstd::prelude::*;
use vstd::slice::slice_to_vec;

use crate::iterators::StorageIterator;
use crate::key::{key_compare, lex_le, lex_lt, lemma_lex_transitive, KeyOrdering};
use crate::LsmError;
use crossbeam_skiplist::SkipMap;

verus! {

#[verifier::external_type_specification]
#[verifier::external_body]
#[verifier::reject_recursive_types(K)]
#[verifier::reject_recursive_types(V)]
pub struct ExSkipMap<K, V>(SkipMap<K, V>);

/// A skip map of byte keys and byte values.
pub type ByteSkipMap = SkipMap<Vec<u8>, Vec<u8>>;

/// The entries a skip map of byte keys and values holds, as a mathematical map.
pub uninterp spec fn skip_map_contents(m: ByteSkipMap) -> Map<Seq<u8>, Seq<u8>>;

/// One end of a key range: inclusive, exclusive, or absent.
pub enum KeyBound {
    Included(Vec<u8>),
    Excluded(Vec<u8>),
    Unbounded,
}

/// The specification-level shape of a `KeyBound`.
pub ghost enum SpecBound {
    Included(Seq<u8>),
    Excluded(Seq<u8>),
    Unbounded,
}

impl View for KeyBound {
    type V = SpecBound;

    open spec fn view(&self) -> SpecBound {
        match self {
            KeyBound::Included(x) => SpecBound::Included(x@),
            KeyBound::Excluded(x) => SpecBound::Excluded(x@),
            KeyBound::Unbounded => SpecBound::Unbounded,
        }
    }
}

/// Whether key `k` lies on or above the lower bound `b`.
pub open spec fn above_lower(k: Seq<u8>, b: SpecBound) -> bool {
    match b {
        SpecBound::Included(x) => lex_le(x, k),
        SpecBound::Excluded(x) => lex_lt(x, k),
        SpecBound::Unbounded => true,
    }
}

/// Whether key `k` lies on or below the upper bound `b`.
pub open spec fn below_upper(k: Seq<u8>, b: SpecBound) -> bool {
    match b {
        SpecBound::Included(x) => lex_le(k, x),
        SpecBound::Excluded(x) => lex_lt(k, x),
        SpecBound::Unbounded => true,
    }
}

/// Whether key `k` lies between the two bounds.
pub open spec fn in_key_range(k: Seq<u8>, lo: SpecBound, hi: SpecBound) -> bool {
    above_lower(k, lo) && below_upper(k, hi)
}

/// A key below some key that meets an upper bound meets it too.
pub proof fn lemma_below_upper_mono(a: Seq<u8>, b: Seq<u8>, up: SpecBound)
    ensures
        lex_le(a, b) && below_upper(b, up) ==> below_upper(a, up),
{
    match up {
        SpecBound::Included(x) => {
            lemma_lex_transitive(a, b, x);
        }
        SpecBound::Excluded(x) => {
            lemma_lex_transitive(a, b, x);
        }
        SpecBound::Unbounded => {}
    }
}

/// A key above some key that meets a lower bound meets it too.
pub proof fn lemma_above_lower_mono(a: Seq<u8>, b: Seq<u8>, lo: SpecBound)
    ensures
        above_lower(a, lo) && lex_le(a, b) ==> above_lower(b, lo),
{
    match lo {
        SpecBound::Included(x) => {
            lemma_lex_transitive(x, a, b);
        }
        SpecBound::Excluded(x) => {
            lemma_lex_transitive(x, a, b);
        }
        SpecBound::Unbounded => {}
    }
}

/// Executable test of `below_upper`.
fn key_below_upper(k: &[u8], b: &KeyBound) -> (r: bool)
    ensures
        r == below_upper(k@, b@),
{
    match b {
        KeyBound::Included(x) => {
            let c = key_compare(k, x.as_slice());
            !matches!(c, KeyOrdering::Greater)
        }
        KeyBound::Excluded(x) => {
            let c = key_compare(k, x.as_slice());
            matches!(c, KeyOrdering::Less)
        }
        KeyBound::Unbounded => true,
    }
}

/// Addition that stops at the largest machine size.
pub open spec fn sat_add(a: nat, b: nat) -> nat {
    if a + b <= usize::MAX as nat {
        a + b
    } else {
        usize::MAX as nat
    }
}

/// Relies on crossbeam_skiplist::SkipMap::new: a freshly created map is empty.
#[verifier::external_body]
fn skip_map_new() -> (r: ByteSkipMap)
    ensures
        skip_map_contents(r) == (Map::<Seq<u8>, Seq<u8>>::empty()),
{
    SkipMap::new()
}

/// Relies on crossbeam_skiplist::SkipMap::insert: inserts the pair, removing
/// any existing entry with this key first.
#[verifier::external_body]
fn skip_map_insert(m: &mut ByteSkipMap, key: Vec<u8>, value: Vec<u8>)
    ensures
        skip_map_contents(*final(m)) == skip_map_contents(*old(m)).insert(key@, value@),
{
    m.insert(key, value);
}

/// Relies on crossbeam_skiplist::SkipMap::get: looks a key up by `Ord` on
/// `Vec<u8>`, which is lexicographic on the bytes.
#[verifier::external_body]
fn skip_map_get(m: &ByteSkipMap, key: &[u8]) -> (r: Option<Vec<u8>>)
    ensures
        match r {
            Some(v) => skip_map_contents(*m).dom().contains(key@) && v@ == skip_map_contents(
                *m,
            )[key@],
            None => !skip_map_contents(*m).dom().contains(key@),
        },
{
    m.get(key).map(|e| e.value().clone())
}

/// Relies on crossbeam_skiplist::SkipMap::lower_bound: returns the entry with
/// the least key (by `Ord` on `Vec<u8>`, lexicographic on the bytes) at or
/// above the given bound, or `None` if every key lies below it.
#[verifier::external_body]
fn skip_map_lower_bound(m: &ByteSkipMap, lower: &KeyBound) -> (r: Option<
    (Vec<u8>, Vec<u8>),
>)
    ensures
        match r {
            Some(kv) => skip_map_contents(*m).dom().contains(kv.0@) && kv.1@ == skip_map_contents(
                *m,
            )[kv.0@] && above_lower(kv.0@, lower@) && forall|k2: Seq<u8>|
                skip_map_contents(*m).dom().contains(k2) && above_lower(k2, lower@) ==> lex_le(
                    kv.0@,
                    k2,
                ),
            None => forall|k2: Seq<u8>|
                skip_map_contents(*m).dom().contains(k2) ==> !above_lower(k2, lower@),
        },
{
    let b = match lower {
        KeyBound::Included(x) => core::ops::Bound::Included(x),
        KeyBound::Excluded(x) => core::ops::Bound::Excluded(x),
        KeyBound::Unbounded => core::ops::Bound::Unbounded,
    };
    m.lower_bound(b).map(|e| (e.key().clone(), e.value().clone()))
}

/// Last write wins: after two insertions of the same key, the entries hold
/// the second value for it, whatever was stored before.
pub proof fn lemma_last_write_wins(m: Map<Seq<u8>, Seq<u8>>, k: Seq<u8>, v1: Seq<u8>, v2: Seq<u8>)
    ensures
        m.insert(k, v1).insert(k, v2).dom().contains(k),
        m.insert(k, v1).insert(k, v2)[k] == v2,
{
}

/// An in-memory table of byte keys and values, with a monotone size hint.
pub struct MemTable {
    map: ByteSkipMap,
    id: usize,
    approximate_size: usize,
}

impl View for MemTable {
    type V = Map<Seq<u8>, Seq<u8>>;

    closed spec fn view(&self) -> Map<Seq<u8>, Seq<u8>> {
        skip_map_contents(self.map)
    }
}

impl MemTable {
    /// The identifier the table was created with.
    pub closed spec fn spec_id(&self) -> usize {
        self.id
    }

    /// The current value of the size hint.
    pub closed spec fn spec_approximate_size(&self) -> usize {
        self.approximate_size
    }

    /// The table never holds an empty key; the engine rejects them on write.
    pub open spec fn wf(&self) -> bool {
        forall|k: Seq<u8>| #[trigger] self@.dom().contains(k) ==> k.len() > 0
    }

    /// Constructs an empty table with the given id and zero size.
    pub fn create(id: usize) -> (r: MemTable)
        ensures
            r@ == Map::<Seq<u8>, Seq<u8>>::empty(),
            r.spec_id() == id,
            r.spec_approximate_size() == 0,
            r.wf(),
    {
        MemTable { map: skip_map_new(), id, approximate_size: 0 }
    }

    /// Reads the size hint: the sum of key and value lengths over all puts,
    /// not corrected on overwrite.
    pub fn approximate_size(&self) -> (r: usize)
        ensures
            r == self.spec_approximate_size(),
    {
        self.approximate_size
    }

    /// Looks a key up; an empty returned value is a tombstone at the engine
    /// level.
    pub fn get(&self, key: &[u8]) -> (r: Option<Vec<u8>>)
        ensures
            match r {
                Some(v) => self@.dom().contains(key@) && v@ == self@[key@],
                None => !self@.dom().contains(key@),
            },
    {
        skip_map_get(&self.map, key)
    }

    /// Inserts, replacing any prior mapping, and grows the size hint by
    /// `key.len() + value.len()` whether or not the key was present.
    pub fn put(&mut self, key: &[u8], value: &[u8]) -> (r: Result<(), LsmError>)
        requires
            old(self).wf(),
            key@.len() > 0,
        ensures
            r is Ok,
            final(self).wf(),
            final(self)@ == old(self)@.insert(key@, value@),
            final(self).spec_id() == old(self).spec_id(),
            final(self).spec_approximate_size() == sat_add(
                old(self).spec_approximate_size() as nat,
                key@.len() + value@.len(),
            ),
            final(self).spec_approximate_size() >= old(self).spec_approximate_size(),
    {
        let k = slice_to_vec(key);
        let v = slice_to_vec(value);
        skip_map_insert(&mut self.map, k, v);
        let room = usize::MAX - self.approximate_size;
        if key.len() <= room {
            self.approximate_size = self.approximate_size + key.len();
        } else {
            self.approximate_size = usize::MAX;
        }
        let room2 = usize::MAX - self.approximate_size;
        if value.len() <= room2 {
            self.approximate_size = self.approximate_size + value.len();
        } else {
            self.approximate_size = usize::MAX;
        }
        proof {
            assert forall|k2: Seq<u8>| #[trigger] self@.dom().contains(k2) implies k2.len()
                > 0 by {
                if k2 != key@ {
                    assert(old(self)@.dom().contains(k2));
                }
            }
        }
        Ok(())
    }

    /// Builds a range-bounded cursor positioned on the first entry within the
    /// bounds, or invalid if the range holds none.
    pub fn scan<'a>(&'a self, lower: KeyBound, upper: KeyBound) -> (it: MemTableIterator<'a>)
        requires
            self.wf(),
        ensures
            it.inv(),
            it.contents() == self@,
            it.sp_lower() == lower@,
            it.sp_upper() == upper@,
            it.positioned_from(lower@),
    {
        let first = skip_map_lower_bound(&self.map, &lower);
        let item: (Vec<u8>, Vec<u8>) = match first {
            Some(kv) => {
                if key_below_upper(kv.0.as_slice(), &upper) {
                    kv
                } else {
                    proof {
                        assert forall|k2: Seq<u8>|
                            self@.dom().contains(k2) && in_key_range(
                                k2,
                                lower@,
                                upper@,
                            ) implies false by {
                            lemma_below_upper_mono(kv.0@, k2, upper@);
                        }
                    }
                    (Vec::new(), Vec::new())
                }
            },
            None => (Vec::new(), Vec::new()),
        };
        let it = MemTableIterator { map: &self.map, lower, upper, item };
        proof {
            assert(it.contents() == self@);
            if it.sp_valid() {
                assert(it.contents().dom().contains(it.sp_key()));
                assert(below_upper(it.sp_key(), it.sp_upper()));
                assert(above_lower(it.sp_key(), it.sp_lower()));
            }
        }
        it
    }
}

/// A bounded range cursor over a table. It holds a handle to the table's map
/// and the current entry by value; advancing re-issues a lower-bound query
/// with the last emitted key as an exclusive bound.
pub struct MemTableIterator<'a> {
    map: &'a ByteSkipMap,
    lower: KeyBound,
    upper: KeyBound,
    item: (Vec<u8>, Vec<u8>),
}

impl<'a> MemTableIterator<'a> {
    /// The entries of the underlying map.
    pub closed spec fn contents(&self) -> Map<Seq<u8>, Seq<u8>> {
        skip_map_contents(*self.map)
    }

    /// The lower bound the cursor was created with.
    pub closed spec fn sp_lower(&self) -> SpecBound {
        self.lower@
    }

    /// The upper bound the cursor was created with.
    pub closed spec fn sp_upper(&self) -> SpecBound {
        self.upper@
    }

    /// The cursor stands on the least entry above `lo` and below its upper
    /// bound, or is invalid because there is none.
    pub open spec fn positioned_from(&self, lo: SpecBound) -> bool {
        &&& (self.sp_valid() ==> {
            &&& self.contents().dom().contains(self.sp_key())
            &&& self.sp_value() == self.contents()[self.sp_key()]
            &&& above_lower(self.sp_key(), lo)
            &&& below_upper(self.sp_key(), self.sp_upper())
            &&& forall|k2: Seq<u8>|
                self.contents().dom().contains(k2) && above_lower(k2, lo) && below_upper(
                    k2,
                    self.sp_upper(),
                ) ==> lex_le(self.sp_key(), k2)
        })
        &&& (!self.sp_valid() ==> forall|k2: Seq<u8>|
            self.contents().dom().contains(k2) ==> !(above_lower(k2, lo) && below_upper(
                k2,
                self.sp_upper(),
            )))
    }
}

impl<'a> StorageIterator for MemTableIterator<'a> {
    closed spec fn inv(&self) -> bool {
        &&& (forall|k: Seq<u8>| #[trigger] self.contents().dom().contains(k) ==> k.len() > 0)
        &&& (self.sp_valid() ==> {
            &&& self.contents().dom().contains(self.sp_key())
            &&& self.sp_value() == self.contents()[self.sp_key()]
            &&& in_key_range(self.sp_key(), self.sp_lower(), self.sp_upper())
        })
    }

    closed spec fn sp_valid(&self) -> bool {
        self.item.0@.len() > 0
    }

    closed spec fn sp_key(&self) -> Seq<u8> {
        self.item.0@
    }

    closed spec fn sp_value(&self) -> Seq<u8> {
        self.item.1@
    }

    /// A step from a valid cursor lands on the least in-range key strictly
    /// above the key it stood on, or invalidates the cursor; a step from an
    /// invalid cursor changes nothing.
    open spec fn sp_step(pre: Self, post: Self) -> bool {
        &&& post.contents() == pre.contents()
        &&& post.sp_lower() == pre.sp_lower()
        &&& post.sp_upper() == pre.sp_upper()
        &&& if pre.sp_valid() {
            post.positioned_from(SpecBound::Excluded(pre.sp_key()))
        } else {
            post == pre
        }
    }

    fn key(&self) -> (r: &[u8]) {
        self.item.0.as_slice()
    }

    fn value(&self) -> (r: &[u8]) {
        self.item.1.as_slice()
    }

    fn is_valid(&self) -> (r: bool) {
        self.item.0.len() != 0
    }

    fn num_active_iterators(&self) -> (r: usize)
        ensures
            r == 1,
    {
        1
    }

    fn next(&mut self) -> (r: Result<(), LsmError>)
        ensures
            r is Ok,
    {
        if self.item.0.len() == 0 {
            return Ok(());
        }
        let mut cur: (Vec<u8>, Vec<u8>) = (Vec::new(), Vec::new());
        core::mem::swap(&mut self.item, &mut cur);
        let bound = KeyBound::Excluded(cur.0);
        let nxt = skip_map_lower_bound(self.map, &bound);
        match nxt {
            Some(kv) => {
                if key_below_upper(kv.0.as_slice(), &self.upper) {
                    proof {
                        lemma_above_lower_mono(cur.0@, kv.0@, self.sp_lower());
                    }
                    self.item = kv;
                } else {
                    proof {
                        assert forall|k2: Seq<u8>|
                            self.contents().dom().contains(k2) && above_lower(
                                k2,
                                bound@,
                            ) && below_upper(k2, self.sp_upper()) implies false by {
                            lemma_below_upper_mono(kv.0@, k2, self.sp_upper());
                        }
                    }
                }
            },
            None => {},
        }
        Ok(())
    }
}

/// Scan bounds: a range cursor yields exactly the in-range keys in ascending
/// order. A valid cursor always stands on an entry within its bounds; one step
/// from it lands on the least in-range key strictly above the old one — so no
/// in-range key is skipped and none outside the range appears — or invalidates
/// the cursor when the range holds nothing further.
pub proof fn lemma_scan_bounds<'a>(pre: MemTableIterator<'a>, post: MemTableIterator<'a>)
    requires
        pre.inv(),
        pre.sp_valid(),
        MemTableIterator::sp_step(pre, post),
    ensures
        in_key_range(pre.sp_key(), pre.sp_lower(), pre.sp_upper()),
        post.sp_valid() ==> {
            &&& lex_lt(pre.sp_key(), post.sp_key())
            &&& in_key_range(post.sp_key(), post.sp_lower(), post.sp_upper())
            &&& post.contents().dom().contains(post.sp_key())
            &&& post.sp_value() == post.contents()[post.sp_key()]
            &&& forall|k: Seq<u8>|
                post.contents().dom().contains(k) && lex_lt(pre.sp_key(), k) && below_upper(
                    k,
                    post.sp_upper(),
                ) ==> lex_le(post.sp_key(), k)
        },
        !post.sp_valid() ==> forall|k: Seq<u8>|
            post.contents().dom().contains(k) && below_upper(k, post.sp_upper()) ==> !lex_lt(
                pre.sp_key(),
                k,
            ),
{
    let lo = SpecBound::Excluded(pre.sp_key());
    if post.sp_valid() {
        lemma_above_lower_mono(pre.sp_key(), post.sp_key(), pre.sp_lower());
        assert forall|k: Seq<u8>|
            post.contents().dom().contains(k) && lex_lt(pre.sp_key(), k) && below_upper(
                k,
                post.sp_upper(),
            ) implies lex_le(post.sp_key(), k) by {
            assert(above_lower(k, lo));
        }
    } else {
        assert forall|k: Seq<u8>|
            post.contents().dom().contains(k) && below_upper(k, post.sp_upper()) implies !lex_lt(
            pre.sp_key(),
            k,
        ) by {
            if lex_lt(pre.sp_key(), k) {
                assert(above_lower(k, lo));
                assert(false);
            }
        }
    }
}

} // verus!
