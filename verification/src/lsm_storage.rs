//! The engine state: one writable table, a list of frozen tables (newest
//! first), and the write path that freezes the writable table under size
//! pressure.
use vstd::prelude::*;
use vstd::slice::slice_to_vec;

use crate::mem_table::{sat_add, MemTable};
use crate::LsmError;

verus! {

/// A snapshot of the engine state: the writable table plus the frozen ones,
/// newest at index 0.
pub struct LsmStorageState {
    mem_table: MemTable,
    imm_memtables: Vec<MemTable>,
}

impl LsmStorageState {
    fn create() -> (r: LsmStorageState)
        ensures
            r.mem_table@ == (Map::<Seq<u8>, Seq<u8>>::empty()),
            r.mem_table.wf(),
            r.mem_table.spec_id() == 0,
            r.mem_table.spec_approximate_size() == 0,
            r.imm_memtables@.len() == 0,
    {
        LsmStorageState { mem_table: MemTable::create(0), imm_memtables: Vec::new() }
    }
}

/// The recognized configuration options.
#[derive(Debug, Clone)]
pub struct LsmStorageOptions {
    /// Target bytes per block.
    pub block_size: usize,
    /// Writable-table size threshold in bytes for freezing.
    pub target_sst_size: usize,
    /// Maximum number of frozen tables tolerated; enforcement is compaction's
    /// job, so the core treats it as informational.
    pub num_memtable_limit: usize,
    /// Whether to persist a write-ahead log (outside the core).
    pub wal_enabled: bool,
    /// Whether transactions are serializable (outside the core).
    pub serializable: bool,
}

impl LsmStorageOptions {
    /// The default configuration: 4096-byte blocks and a 2 MiB freeze threshold.
    pub fn basic_defaults() -> (r: LsmStorageOptions)
        ensures
            r.block_size == 4096,
            r.target_sst_size == 0x200000,
            r.num_memtable_limit == 50,
            !r.wal_enabled,
            !r.serializable,
    {
        LsmStorageOptions {
            block_size: 4096,
            target_sst_size: 0x200000,
            num_memtable_limit: 50,
            wal_enabled: false,
            serializable: false,
        }
    }
}

/// One record of a write batch: an insertion or a deletion.
pub enum WriteBatchRecord {
    Put(Vec<u8>, Vec<u8>),
    Del(Vec<u8>),
}

/// The key a record addresses.
pub open spec fn record_key(r: WriteBatchRecord) -> Seq<u8> {
    match r {
        WriteBatchRecord::Put(k, _) => k@,
        WriteBatchRecord::Del(k) => k@,
    }
}

/// The value a record stores: a deletion stores the empty tombstone value.
pub open spec fn record_value(r: WriteBatchRecord) -> Seq<u8> {
    match r {
        WriteBatchRecord::Put(_, v) => v@,
        WriteBatchRecord::Del(_) => Seq::empty(),
    }
}

/// Whether a record is acceptable: keys are never empty, and a stored value is
/// never empty (tombstones come only from deletions).
pub open spec fn record_ok(r: WriteBatchRecord) -> bool {
    match r {
        WriteBatchRecord::Put(k, v) => k@.len() > 0 && v@.len() > 0,
        WriteBatchRecord::Del(k) => k@.len() > 0,
    }
}

/// The error an unacceptable record draws.
pub open spec fn record_error(r: WriteBatchRecord) -> LsmError {
    match r {
        WriteBatchRecord::Put(k, _) => if k@.len() == 0 {
            LsmError::EmptyKey
        } else {
            LsmError::EmptyValueOnPut
        },
        WriteBatchRecord::Del(_) => LsmError::EmptyKey,
    }
}

/// Whether every record of the batch is acceptable.
pub open spec fn batch_ok(b: Seq<WriteBatchRecord>) -> bool {
    forall|i: int| 0 <= i < b.len() ==> record_ok(#[trigger] b[i])
}

/// The batch was rejected at index `i`: every earlier record is acceptable,
/// the one at `i` is not, and `e` is its error.
pub open spec fn rejected_at(b: Seq<WriteBatchRecord>, i: int, e: LsmError) -> bool {
    &&& 0 <= i < b.len()
    &&& !record_ok(b[i])
    &&& forall|j: int| 0 <= j < i ==> record_ok(#[trigger] b[j])
    &&& e == record_error(b[i])
}

/// The mathematical model of the engine: the writable table's entries and size
/// hint, the frozen tables' entries newest first, and the freeze threshold.
pub ghost struct LsmModel {
    pub active: Map<Seq<u8>, Seq<u8>>,
    pub active_size: nat,
    pub frozen: Seq<Map<Seq<u8>, Seq<u8>>>,
    pub target: nat,
}

/// The freeze swap on the model: the writable table moves unchanged to the
/// front of the frozen list and a fresh empty one takes its place.
pub open spec fn model_freeze(m: LsmModel) -> LsmModel {
    LsmModel {
        active: Map::empty(),
        active_size: 0,
        frozen: seq![m.active] + m.frozen,
        target: m.target,
    }
}

/// One write on the model: insert, grow the size hint, and freeze if the hint
/// reaches the threshold.
pub open spec fn model_write(m: LsmModel, k: Seq<u8>, v: Seq<u8>) -> LsmModel {
    let inserted = LsmModel {
        active: m.active.insert(k, v),
        active_size: sat_add(m.active_size, k.len() + v.len()),
        frozen: m.frozen,
        target: m.target,
    };
    if sat_add(m.active_size, k.len() + v.len()) >= m.target {
        model_freeze(inserted)
    } else {
        inserted
    }
}

/// One record applied to the model.
pub open spec fn model_apply(m: LsmModel, r: WriteBatchRecord) -> LsmModel {
    model_write(m, record_key(r), record_value(r))
}

/// A batch applied to the model, first record first.
pub open spec fn model_apply_batch(m: LsmModel, b: Seq<WriteBatchRecord>) -> LsmModel
    decreases b.len(),
{
    if b.len() == 0 {
        m
    } else {
        model_apply_batch(model_apply(m, b[0]), b.skip(1))
    }
}

/// What a point read of key `k` observes in the entries `m`: a present,
/// non-empty value; an empty value is a tombstone and reads as "not found".
pub open spec fn lookup(m: Map<Seq<u8>, Seq<u8>>, k: Seq<u8>) -> Option<Seq<u8>> {
    if m.dom().contains(k) && m[k].len() > 0 {
        Some(m[k])
    } else {
        None
    }
}

proof fn lemma_apply_batch_step(m: LsmModel, b: Seq<WriteBatchRecord>, i: int)
    requires
        0 <= i < b.len(),
    ensures
        model_apply_batch(m, b.take(i + 1)) == model_apply(model_apply_batch(m, b.take(i)), b[i]),
    decreases i,
{
    if i == 0 {
        assert(b.take(1).skip(1) =~= Seq::<WriteBatchRecord>::empty());
        assert(b.take(0) =~= Seq::<WriteBatchRecord>::empty());
        assert(b.take(1)[0] == b[0]);
        assert(model_apply_batch(m, b.take(1)) == model_apply_batch(
            model_apply(m, b[0]),
            b.take(1).skip(1),
        ));
        assert(model_apply_batch(model_apply(m, b[0]), b.take(1).skip(1)) == model_apply(m, b[0]));
        assert(model_apply_batch(m, b.take(0)) == m);
    } else {
        let m1 = model_apply(m, b[0]);
        let b1 = b.skip(1);
        lemma_apply_batch_step(m1, b1, i - 1);
        assert(b.take(i + 1).skip(1) =~= b1.take(i));
        assert(b.take(i).skip(1) =~= b1.take(i - 1));
        assert(b.take(i + 1)[0] == b[0]);
        assert(b.take(i)[0] == b[0]);
        assert(b1[i - 1] == b[i]);
        assert(model_apply_batch(m, b.take(i + 1)) == model_apply_batch(m1, b1.take(i)));
        assert(model_apply_batch(m, b.take(i)) == model_apply_batch(m1, b1.take(i - 1)));
    }
}

/// After a deletion of key `k`, a read of `k` in the writable table reports
/// "not found", whether or not the write froze the table.
pub proof fn lemma_delete_hides_key(m: LsmModel, k: Seq<u8>)
    ensures
        lookup(model_write(m, k, Seq::empty()).active, k) is None,
{
}

/// The freeze swap is loss-free: the old writable table's entries stand
/// unchanged at the front of the frozen list, the new writable table is empty,
/// and the previously frozen tables keep their places and contents.
pub proof fn lemma_freeze_swap(m: LsmModel)
    ensures
        model_freeze(m).frozen.len() == m.frozen.len() + 1,
        model_freeze(m).frozen[0] == m.active,
        model_freeze(m).frozen.skip(1) == m.frozen,
        model_freeze(m).active == (Map::<Seq<u8>, Seq<u8>>::empty()),
        model_freeze(m).target == m.target,
{
    assert(model_freeze(m).frozen.skip(1) =~= m.frozen);
}

/// The engine core: state, options, and the next table identifier.
pub struct LsmStorageInner {
    state: LsmStorageState,
    options: LsmStorageOptions,
    next_sst_id: usize,
}

impl LsmStorageInner {
    /// The engine's mathematical model.
    pub closed spec fn model(&self) -> LsmModel {
        LsmModel {
            active: self.state.mem_table@,
            active_size: self.state.mem_table.spec_approximate_size() as nat,
            frozen: Seq::new(
                self.state.imm_memtables@.len(),
                |i: int| self.state.imm_memtables@[i]@,
            ),
            target: self.options.target_sst_size as nat,
        }
    }

    /// The identifier the next created table will get.
    pub closed spec fn sp_next_id(&self) -> usize {
        self.next_sst_id
    }

    /// Well-formedness: every table is well formed, and identifiers strictly
    /// decrease from the writable table through the frozen list.
    pub closed spec fn wf(&self) -> bool {
        &&& self.state.mem_table.wf()
        &&& forall|i: int|
            0 <= i < self.state.imm_memtables@.len() ==> (
            #[trigger] self.state.imm_memtables@[i]).wf()
        &&& self.state.mem_table.spec_id() < self.next_sst_id
        &&& forall|i: int|
            0 <= i < self.state.imm_memtables@.len() ==> (
            #[trigger] self.state.imm_memtables@[i]).spec_id()
                < self.state.mem_table.spec_id()
        &&& forall|i: int, j: int|
            0 <= i < j < self.state.imm_memtables@.len()
                ==> #[trigger] self.state.imm_memtables@[j].spec_id()
                < #[trigger] self.state.imm_memtables@[i].spec_id()
    }

    /// Constructs an engine with an empty writable table and no frozen ones.
    pub fn create(options: LsmStorageOptions) -> (r: LsmStorageInner)
        ensures
            r.wf(),
            r.model().active == (Map::<Seq<u8>, Seq<u8>>::empty()),
            r.model().active_size == 0,
            r.model().frozen.len() == 0,
            r.model().target == options.target_sst_size as nat,
            r.sp_next_id() == 1,
    {
        let r = LsmStorageInner { state: LsmStorageState::create(), options, next_sst_id: 1 };
        proof {
            assert(r.model().frozen =~= Seq::<Map<Seq<u8>, Seq<u8>>>::empty());
        }
        r
    }

    /// Point read: queries the writable table; an empty stored value is a
    /// tombstone and reads as "not found".
    pub fn get(&self, key: &[u8]) -> (r: Result<Option<Vec<u8>>, LsmError>)
        ensures
            match r {
                Ok(Some(v)) => lookup(self.model().active, key@) == Some(v@),
                Ok(None) => lookup(self.model().active, key@) is None,
                Err(_) => false,
            },
    {
        match self.state.mem_table.get(key) {
            Some(v) => {
                if v.len() == 0 {
                    Ok(None)
                } else {
                    Ok(Some(v))
                }
            },
            None => Ok(None),
        }
    }

    /// Installs `mem_table` as the writable table and prepends the old one to
    /// the frozen list.
    fn freeze_memtable_with_memtable(&mut self, mem_table: MemTable)
        requires
            old(self).wf(),
            mem_table.wf(),
            mem_table@ == (Map::<Seq<u8>, Seq<u8>>::empty()),
            mem_table.spec_approximate_size() == 0,
            old(self).state.mem_table.spec_id() < mem_table.spec_id(),
            mem_table.spec_id() < old(self).sp_next_id(),
        ensures
            final(self).wf(),
            final(self).model() == model_freeze(old(self).model()),
            final(self).sp_next_id() == old(self).sp_next_id(),
            final(self).state.mem_table.spec_id() == mem_table.spec_id(),
    {
        let mut taken = mem_table;
        core::mem::swap(&mut self.state.mem_table, &mut taken);
        self.state.imm_memtables.insert(0, taken);
        proof {
            assert(self.model().frozen =~= model_freeze(old(self).model()).frozen);
            assert(self.model() == model_freeze(old(self).model()));
        }
    }

    /// Allocates the next table identifier and freezes the writable table.
    fn force_freeze_memtable(&mut self)
        requires
            old(self).wf(),
            old(self).sp_next_id() < usize::MAX,
        ensures
            final(self).wf(),
            final(self).model() == model_freeze(old(self).model()),
            final(self).sp_next_id() == old(self).sp_next_id() + 1,
    {
        let mem_table_id = self.next_sst_id;
        self.next_sst_id = self.next_sst_id + 1;
        let mem_table = MemTable::create(mem_table_id);
        self.freeze_memtable_with_memtable(mem_table);
    }

    /// Freezes the writable table when the size hint it reported has reached
    /// the threshold and still stands there.
    fn try_freeze(&mut self, estimated_size: usize)
        requires
            old(self).wf(),
            old(self).sp_next_id() < usize::MAX,
        ensures
            final(self).wf(),
            final(self).sp_next_id() <= old(self).sp_next_id() + 1,
            if estimated_size >= old(self).model().target && old(self).model().active_size >= old(
                self,
            ).model().target {
                final(self).model() == model_freeze(old(self).model())
            } else {
                *final(self) == *old(self)
            },
    {
        if estimated_size >= self.options.target_sst_size {
            if self.state.mem_table.approximate_size() >= self.options.target_sst_size {
                self.force_freeze_memtable();
            }
        }
    }

    /// One write applied to the writable table, followed by the freeze check.
    fn apply_one(&mut self, key: &[u8], value: &[u8])
        requires
            old(self).wf(),
            old(self).sp_next_id() < usize::MAX,
            key@.len() > 0,
        ensures
            final(self).wf(),
            final(self).sp_next_id() <= old(self).sp_next_id() + 1,
            final(self).model() == model_write(old(self).model(), key@, value@),
    {
        let _ = self.state.mem_table.put(key, value);
        let size = self.state.mem_table.approximate_size();
        proof {
            assert(self.model().frozen =~= old(self).model().frozen);
        }
        self.try_freeze(size);
        proof {
            if size >= old(self).options.target_sst_size {
                assert(self.model().frozen =~= model_write(
                    old(self).model(),
                    key@,
                    value@,
                ).frozen);
            }
        }
    }

    /// Applies each record in order: an insertion stores the value, a deletion
    /// stores the empty tombstone; each write grows the size hint and may
    /// freeze the writable table. At the first record holding an empty key, or
    /// an insertion of an empty value, it stops with that record's error; the
    /// records before it stay applied.
    pub fn write_batch(&mut self, batch: &[WriteBatchRecord]) -> (r: Result<(), LsmError>)
        requires
            old(self).wf(),
            old(self).sp_next_id() + batch@.len() <= usize::MAX,
        ensures
            final(self).wf(),
            final(self).sp_next_id() <= old(self).sp_next_id() + batch@.len(),
            match r {
                Ok(_) => batch_ok(batch@) && final(self).model() == model_apply_batch(
                    old(self).model(),
                    batch@,
                ),
                Err(e) => {
                    &&& !batch_ok(batch@)
                    &&& exists|i: int|
                        #[trigger] rejected_at(batch@, i, e) && final(self).model()
                            == model_apply_batch(old(self).model(), batch@.take(i))
                },
            },
    {
        let n = batch.len();
        let empty_value: Vec<u8> = Vec::new();
        let mut i: usize = 0;
        while i < n
            invariant
                n == batch@.len(),
                0 <= i <= n,
                empty_value@.len() == 0,
                self.wf(),
                old(self).sp_next_id() + n <= usize::MAX,
                self.sp_next_id() <= old(self).sp_next_id() + i,
                forall|j: int| 0 <= j < i ==> record_ok(#[trigger] batch@[j]),
                self.model() == model_apply_batch(old(self).model(), batch@.take(i as int)),
            decreases n - i,
        {
            match &batch[i] {
                WriteBatchRecord::Put(k, v) => {
                    if k.len() == 0 {
                        proof {
                            assert(rejected_at(batch@, i as int, LsmError::EmptyKey));
                        }
                        return Err(LsmError::EmptyKey);
                    }
                    if v.len() == 0 {
                        proof {
                            assert(rejected_at(batch@, i as int, LsmError::EmptyValueOnPut));
                        }
                        return Err(LsmError::EmptyValueOnPut);
                    }
                    proof {
                        lemma_apply_batch_step(old(self).model(), batch@, i as int);
                    }
                    self.apply_one(k.as_slice(), v.as_slice());
                },
                WriteBatchRecord::Del(k) => {
                    if k.len() == 0 {
                        proof {
                            assert(rejected_at(batch@, i as int, LsmError::EmptyKey));
                        }
                        return Err(LsmError::EmptyKey);
                    }
                    proof {
                        lemma_apply_batch_step(old(self).model(), batch@, i as int);
                        assert(record_value(batch@[i as int]) =~= empty_value@);
                    }
                    self.apply_one(k.as_slice(), empty_value.as_slice());
                },
            }
            i = i + 1;
        }
        proof {
            assert(batch@.take(n as int) =~= batch@);
        }
        Ok(())
    }

    /// Inserts one key and value; both must be non-empty.
    pub fn put(&mut self, key: &[u8], value: &[u8]) -> (r: Result<(), LsmError>)
        requires
            old(self).wf(),
            old(self).sp_next_id() < usize::MAX,
        ensures
            final(self).wf(),
            match r {
                Ok(_) => key@.len() > 0 && value@.len() > 0 && final(self).model() == model_write(
                    old(self).model(),
                    key@,
                    value@,
                ),
                Err(e) => {
                    &&& final(self).model() == old(self).model()
                    &&& !(key@.len() > 0 && value@.len() > 0)
                    &&& e == (if key@.len() == 0 {
                        LsmError::EmptyKey
                    } else {
                        LsmError::EmptyValueOnPut
                    })
                },
            },
    {
        let mut batch: Vec<WriteBatchRecord> = Vec::new();
        batch.push(WriteBatchRecord::Put(slice_to_vec(key), slice_to_vec(value)));
        let r = self.write_batch(batch.as_slice());
        proof {
            assert(batch@.skip(1) =~= Seq::<WriteBatchRecord>::empty());
            assert(batch@.len() == 1);
            match r {
                Result::Ok(_) => {
                    assert(record_ok(batch@[0]));
                    let m0 = old(self).model();
                    let rec = batch@[0];
                    assert(model_apply_batch(m0, batch@) == model_apply_batch(
                        model_apply(m0, rec),
                        batch@.skip(1),
                    ));
                    assert(model_apply_batch(model_apply(m0, rec), batch@.skip(1)) == model_apply(
                        m0,
                        rec,
                    ));
                },
                Result::Err(e) => {
                    let i: int = choose|i: int|
                        #[trigger] rejected_at(batch@, i, e) && self.model() == model_apply_batch(
                            old(self).model(),
                            batch@.take(i),
                        );
                    assert(i == 0);
                    assert(batch@.take(0) =~= Seq::<WriteBatchRecord>::empty());
                },
            }
        }
        r
    }

    /// Deletes one key by storing the empty tombstone value; the key must be
    /// non-empty.
    pub fn delete(&mut self, key: &[u8]) -> (r: Result<(), LsmError>)
        requires
            old(self).wf(),
            old(self).sp_next_id() < usize::MAX,
        ensures
            final(self).wf(),
            match r {
                Ok(_) => key@.len() > 0 && final(self).model() == model_write(
                    old(self).model(),
                    key@,
                    Seq::empty(),
                ),
                Err(e) => {
                    &&& final(self).model() == old(self).model()
                    &&& key@.len() == 0
                    &&& e == LsmError::EmptyKey
                },
            },
    {
        let mut batch: Vec<WriteBatchRecord> = Vec::new();
        batch.push(WriteBatchRecord::Del(slice_to_vec(key)));
        let r = self.write_batch(batch.as_slice());
        proof {
            assert(batch@.skip(1) =~= Seq::<WriteBatchRecord>::empty());
            assert(batch@.len() == 1);
            match r {
                Result::Ok(_) => {
                    assert(record_ok(batch@[0]));
                    let m0 = old(self).model();
                    let rec = batch@[0];
                    assert(model_apply_batch(m0, batch@) == model_apply_batch(
                        model_apply(m0, rec),
                        batch@.skip(1),
                    ));
                    assert(model_apply_batch(model_apply(m0, rec), batch@.skip(1)) == model_apply(
                        m0,
                        rec,
                    ));
                },
                Result::Err(e) => {
                    let i: int = choose|i: int|
                        #[trigger] rejected_at(batch@, i, e) && self.model() == model_apply_batch(
                            old(self).model(),
                            batch@.take(i),
                        );
                    assert(i == 0);
                    assert(batch@.take(0) =~= Seq::<WriteBatchRecord>::empty());
                },
            }
        }
        r
    }
}

/// The engine's public face: it owns the core and forwards to it.
pub struct MiniLsm {
    pub inner: LsmStorageInner,
}

impl MiniLsm {
    /// Constructs an engine with an empty writable table and no frozen ones.
    pub fn create(options: LsmStorageOptions) -> (r: MiniLsm)
        ensures
            r.inner.wf(),
            r.inner.model().active == (Map::<Seq<u8>, Seq<u8>>::empty()),
            r.inner.model().active_size == 0,
            r.inner.model().frozen.len() == 0,
            r.inner.model().target == options.target_sst_size as nat,
            r.inner.sp_next_id() == 1,
    {
        MiniLsm { inner: LsmStorageInner::create(options) }
    }

    /// Point read; see the core's `get`.
    pub fn get(&self, key: &[u8]) -> (r: Result<Option<Vec<u8>>, LsmError>)
        ensures
            match r {
                Ok(Some(v)) => lookup(self.inner.model().active, key@) == Some(v@),
                Ok(None) => lookup(self.inner.model().active, key@) is None,
                Err(_) => false,
            },
    {
        self.inner.get(key)
    }

    /// Applies a batch of records; see the core's `write_batch`.
    pub fn write_batch(&mut self, batch: &[WriteBatchRecord]) -> (r: Result<(), LsmError>)
        requires
            old(self).inner.wf(),
            old(self).inner.sp_next_id() + batch@.len() <= usize::MAX,
        ensures
            final(self).inner.wf(),
            match r {
                Ok(_) => batch_ok(batch@) && final(self).inner.model() == model_apply_batch(
                    old(self).inner.model(),
                    batch@,
                ),
                Err(e) => {
                    &&& !batch_ok(batch@)
                    &&& exists|i: int|
                        #[trigger] rejected_at(batch@, i, e) && final(self).inner.model()
                            == model_apply_batch(old(self).inner.model(), batch@.take(i))
                },
            },
    {
        self.inner.write_batch(batch)
    }

    /// Inserts one key and value; see the core's `put`.
    pub fn put(&mut self, key: &[u8], value: &[u8]) -> (r: Result<(), LsmError>)
        requires
            old(self).inner.wf(),
            old(self).inner.sp_next_id() < usize::MAX,
        ensures
            final(self).inner.wf(),
            match r {
                Ok(_) => key@.len() > 0 && value@.len() > 0 && final(self).inner.model()
                    == model_write(old(self).inner.model(), key@, value@),
                Err(e) => {
                    &&& final(self).inner.model() == old(self).inner.model()
                    &&& !(key@.len() > 0 && value@.len() > 0)
                    &&& e == (if key@.len() == 0 {
                        LsmError::EmptyKey
                    } else {
                        LsmError::EmptyValueOnPut
                    })
                },
            },
    {
        self.inner.put(key, value)
    }

    /// Deletes one key; see the core's `delete`.
    pub fn delete(&mut self, key: &[u8]) -> (r: Result<(), LsmError>)
        requires
            old(self).inner.wf(),
            old(self).inner.sp_next_id() < usize::MAX,
        ensures
            final(self).inner.wf(),
            match r {
                Ok(_) => key@.len() > 0 && final(self).inner.model() == model_write(
                    old(self).inner.model(),
                    key@,
                    Seq::empty(),
                ),
                Err(e) => {
                    &&& final(self).inner.model() == old(self).inner.model()
                    &&& key@.len() == 0
                    &&& e == LsmError::EmptyKey
                },
            },
    {
        self.inner.delete(key)
    }
}

} // verus!
