use crate::hash::H256;
use vstd::prelude::*;

verus! {

/// Identifier of a column of the store.
pub type Col = u32;

pub const COLUMN_BLOCK_HEADER: Col = 0;

pub const COLUMN_BLOCK_BODY: Col = 1;

pub const COLUMN_BLOCK_UNCLE: Col = 2;

pub const COLUMN_BLOCK_PROPOSAL_IDS: Col = 3;

pub const COLUMN_BLOCK_TRANSACTION_IDS: Col = 4;

pub const COLUMN_BLOCK_TRANSACTION_ADDRESSES: Col = 5;

pub const COLUMN_EXT: Col = 6;

pub const COLUMN_OUTPUT_ROOT: Col = 7;

pub const COLUMN_TRANSACTION_META: Col = 8;

/// Contents of a store: the value under each column and key.
pub type KvMap = Map<(Col, H256), Seq<u8>>;

/// One write of a batch: column, key, value.
pub type KvOp = (Col, H256, Seq<u8>);

/// The contents after the writes `ops`, in order, on `m`.
pub open spec fn apply_ops(m: KvMap, ops: Seq<KvOp>) -> KvMap
    decreases ops.len(),
{
    if ops.len() == 0 {
        m
    } else {
        apply_ops(m, ops.drop_last()).insert((ops.last().0, ops.last().1), ops.last().2)
    }
}

/// Writes that miss `key` leave its value as it was.
pub proof fn lemma_apply_ops_other(m: KvMap, ops: Seq<KvOp>, key: (Col, H256))
    requires
        forall|i: int| 0 <= i < ops.len() ==> !(#[trigger] ops[i].0 == key.0 && ops[i].1 == key.1),
    ensures
        apply_ops(m, ops).contains_key(key) == m.contains_key(key),
        apply_ops(m, ops).contains_key(key) ==> apply_ops(m, ops)[key] == m[key],
    decreases ops.len(),
{
    if ops.len() > 0 {
        assert(!(ops[ops.len() - 1].0 == key.0 && ops[ops.len() - 1].1 == key.1));
        lemma_apply_ops_other(m, ops.drop_last(), key);
    }
}

/// Writes that are applied together.
pub struct Batch {
    ops: Vec<(Col, H256, Vec<u8>)>,
}

impl View for Batch {
    type V = Seq<KvOp>;

    closed spec fn view(&self) -> Seq<KvOp> {
        self.ops@.map_values(|o: (Col, H256, Vec<u8>)| (o.0, o.1, o.2@))
    }
}

impl Batch {
    /// A batch with no writes.
    pub fn new() -> (r: Batch)
        ensures
            r@ == Seq::<KvOp>::empty(),
    {
        let r = Batch { ops: Vec::new() };
        assert(r@ =~= Seq::<KvOp>::empty());
        r
    }

    /// Adds the write of `value` under `key` in `col`.
    pub fn insert(&mut self, col: Col, key: H256, value: Vec<u8>)
        ensures
            final(self)@ == old(self)@.push((col, key, value@)),
    {
        self.ops.push((col, key, value));
        assert(self@ =~= old(self)@.push((col, key, value@)));
    }

    /// Whether some write of the batch goes to `key` in `col`.
    pub fn writes_key(&self, col: Col, key: &H256) -> (r: bool)
        ensures
            r == exists|i: int| 0 <= i < self@.len() && #[trigger] self@[i].0 == col && self@[i].1 == *key,
    {
        let mut i: usize = 0;
        while i < self.ops.len()
            invariant
                i <= self.ops@.len(),
                self@.len() == self.ops@.len(),
                forall|j: int| 0 <= j < i ==> !(#[trigger] self@[j].0 == col && self@[j].1 == *key),
            decreases self.ops@.len() - i,
        {
            if self.ops[i].0 == col && self.ops[i].1 == *key {
                proof {
                    crate::hash::lemma_h256_eq(self.ops@[i as int].1, *key);
                }
                assert(self@[i as int].0 == col && self@[i as int].1 == *key);
                return true;
            }
            i = i + 1;
        }
        false
    }

    /// Number of writes.
    pub fn len(&self) -> (r: usize)
        ensures
            r == self@.len(),
    {
        self.ops.len()
    }
}

/// The map that a list of entries stands for, later entries winning.
pub open spec fn kv_map_of(entries: Seq<((Col, H256), Vec<u8>)>) -> KvMap
    decreases entries.len(),
{
    if entries.len() == 0 {
        Map::empty()
    } else {
        kv_map_of(entries.drop_last()).insert(entries.last().0, entries.last().1@)
    }
}

pub open spec fn kv_unique(entries: Seq<((Col, H256), Vec<u8>)>) -> bool {
    forall|a: int, b: int| 0 <= a < b < entries.len() ==> entries[a].0 != entries[b].0
}

proof fn lemma_kv_index(entries: Seq<((Col, H256), Vec<u8>)>, j: int)
    requires
        kv_unique(entries),
        0 <= j < entries.len(),
    ensures
        kv_map_of(entries).contains_key(entries[j].0),
        kv_map_of(entries)[entries[j].0] == entries[j].1@,
    decreases entries.len(),
{
    if j < entries.len() - 1 {
        lemma_kv_index(entries.drop_last(), j);
    }
}

proof fn lemma_kv_absent(entries: Seq<((Col, H256), Vec<u8>)>, k: (Col, H256))
    requires
        forall|j: int| 0 <= j < entries.len() ==> entries[j].0 != k,
    ensures
        !kv_map_of(entries).contains_key(k),
    decreases entries.len(),
{
    if entries.len() > 0 {
        lemma_kv_absent(entries.drop_last(), k);
    }
}

proof fn lemma_kv_set(entries: Seq<((Col, H256), Vec<u8>)>, j: int, v: Vec<u8>)
    requires
        kv_unique(entries),
        0 <= j < entries.len(),
    ensures
        kv_map_of(entries.update(j, (entries[j].0, v))) == kv_map_of(entries).insert(
            entries[j].0,
            v@,
        ),
    decreases entries.len(),
{
    let k = entries[j].0;
    let e2 = entries.update(j, (k, v));
    if j == entries.len() - 1 {
        assert(e2.drop_last() =~= entries.drop_last());
        assert(kv_map_of(e2) =~= kv_map_of(entries).insert(k, v@));
    } else {
        lemma_kv_set(entries.drop_last(), j, v);
        assert(e2.drop_last() =~= entries.drop_last().update(j, (k, v)));
        assert(entries.last().0 != k);
        assert(kv_map_of(e2) =~= kv_map_of(entries).insert(k, v@));
    }
}

/// A key-value store held in memory, one map per column.
pub struct MemoryKV {
    entries: Vec<((Col, H256), Vec<u8>)>,
}

impl View for MemoryKV {
    type V = KvMap;

    closed spec fn view(&self) -> KvMap {
        kv_map_of(self.entries@)
    }
}

impl MemoryKV {
    pub closed spec fn well_formed(&self) -> bool {
        kv_unique(self.entries@)
    }

    /// An empty store.
    pub fn new() -> (r: MemoryKV)
        ensures
            r.well_formed(),
            r@ == KvMap::empty(),
    {
        MemoryKV { entries: Vec::new() }
    }

    fn find(&self, col: Col, key: &H256) -> (r: Option<usize>)
        requires
            self.well_formed(),
        ensures
            r matches Some(j) ==> j < self.entries@.len() && self.entries@[j as int].0 == (col, *key),
            r is None ==> forall|j: int| 0 <= j < self.entries@.len() ==> self.entries@[j].0 != (col, *key),
            r is None ==> !self@.contains_key((col, *key)),
    {
        let mut j: usize = 0;
        while j < self.entries.len()
            invariant
                j <= self.entries@.len(),
                forall|a: int| 0 <= a < j ==> self.entries@[a].0 != (col, *key),
            decreases self.entries@.len() - j,
        {
            if self.entries[j].0.0 == col && self.entries[j].0.1 == *key {
                proof {
                    crate::hash::lemma_h256_eq(self.entries@[j as int].0.1, *key);
                }
                return Some(j);
            }
            j = j + 1;
        }
        proof {
            lemma_kv_absent(self.entries@, (col, *key));
        }
        None
    }

    /// The value under `key` in `col`, if any.
    pub fn read(&self, col: Col, key: &H256) -> (r: Option<Vec<u8>>)
        requires
            self.well_formed(),
        ensures
            r is Some <==> self@.contains_key((col, *key)),
            r matches Some(v) ==> v@ == self@[(col, *key)],
    {
        match self.find(col, key) {
            None => None,
            Some(j) => {
                proof {
                    lemma_kv_index(self.entries@, j as int);
                }
                let v = &self.entries[j].1;
                Some(crate::codec::read_bytes(v.as_slice(), 0, v.len()))
            },
        }
    }

    /// The bytes `begin .. end` of the value under `key` in `col`; `None` when
    /// there is no such value or the range reaches past its end.
    pub fn partial_read(&self, col: Col, key: &H256, begin: usize, end: usize) -> (r: Option<Vec<u8>>)
        requires
            self.well_formed(),
        ensures
            r is Some <==> self@.contains_key((col, *key)) && begin <= end <= self@[(col, *key)].len(),
            r matches Some(v) ==> v@ == self@[(col, *key)].subrange(begin as int, end as int),
    {
        match self.find(col, key) {
            None => None,
            Some(j) => {
                proof {
                    lemma_kv_index(self.entries@, j as int);
                }
                let v = &self.entries[j].1;
                if begin <= end && end <= v.len() {
                    Some(crate::codec::read_bytes(v.as_slice(), begin, end - begin))
                } else {
                    None
                }
            },
        }
    }

    fn put(&mut self, col: Col, key: H256, value: Vec<u8>)
        requires
            old(self).well_formed(),
        ensures
            final(self).well_formed(),
            final(self)@ == old(self)@.insert((col, key), value@),
    {
        match self.find(col, &key) {
            None => {
                let ghost before = self.entries@;
                self.entries.push(((col, key), value));
                assert(self.entries@.drop_last() =~= before);
            },
            Some(j) => {
                proof {
                    lemma_kv_set(self.entries@, j as int, value);
                }
                self.entries.set(j, ((col, key), value));
            },
        }
    }

    /// Applies every write of `batch`, in order.
    pub fn write(&mut self, batch: Batch)
        requires
            old(self).well_formed(),
        ensures
            final(self).well_formed(),
            final(self)@ == apply_ops(old(self)@, batch@),
    {
        let ghost ops = batch@;
        let writes = batch.ops;
        let mut k: usize = 0;
        assert(ops.take(0) =~= Seq::<KvOp>::empty());
        while k < writes.len()
            invariant
                k <= writes@.len(),
                self.well_formed(),
                ops == writes@.map_values(|o: (Col, H256, Vec<u8>)| (o.0, o.1, o.2@)),
                self@ == apply_ops(old(self)@, ops.take(k as int)),
            decreases writes@.len() - k,
        {
            let o = &writes[k];
            let v = crate::codec::read_bytes(o.2.as_slice(), 0, o.2.len());
            assert(ops[k as int] == (o.0, o.1, v@));
            self.put(o.0, o.1, v);
            k = k + 1;
            assert(ops.take(k as int).drop_last() =~= ops.take(k - 1 as int));
        }
        assert(ops.take(ops.len() as int) =~= ops);
    }
}

} // verus!
