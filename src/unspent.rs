use crate::codec::{le_u64, push_hash, push_u64, read_hash, read_u64};
use crate::hash::{key_lt, H256};
use crate::meta::{all_live, OutPoint, TransactionMeta};
use vstd::prelude::*;

verus! {

/// Unspent-output state: the live-output bitmap of each transaction id.
pub type UnspentMap = Map<H256, Seq<bool>>;

/// The map that a list of `(key, meta)` entries stands for, later entries winning.
pub open spec fn map_of(entries: Seq<(H256, TransactionMeta)>) -> UnspentMap
    decreases entries.len(),
{
    if entries.len() == 0 {
        Map::empty()
    } else {
        map_of(entries.drop_last()).insert(entries.last().0, entries.last().1@)
    }
}

/// No key occurs twice.
pub open spec fn unique_keys(entries: Seq<(H256, TransactionMeta)>) -> bool {
    forall|a: int, b: int| 0 <= a < b < entries.len() ==> entries[a].0 != entries[b].0
}

/// Keys strictly ascending.
pub open spec fn sorted_keys(entries: Seq<(H256, TransactionMeta)>) -> bool {
    forall|a: int, b: int| 0 <= a < b < entries.len() ==> key_lt(entries[a].0, entries[b].0)
}

proof fn lemma_map_of_present(entries: Seq<(H256, TransactionMeta)>, k: H256)
    requires
        map_of(entries).contains_key(k),
    ensures
        exists|j: int| 0 <= j < entries.len() && entries[j].0 == k,
    decreases entries.len(),
{
    if entries.last().0 != k {
        lemma_map_of_present(entries.drop_last(), k);
        let j = choose|j: int| 0 <= j < entries.len() - 1 && entries.drop_last()[j].0 == k;
        assert(entries[j].0 == k);
    } else {
        assert(entries[entries.len() - 1].0 == k);
    }
}

proof fn lemma_map_of_insert_at(entries: Seq<(H256, TransactionMeta)>, p: int, x: (H256, TransactionMeta))
    requires
        unique_keys(entries),
        unique_keys(entries.insert(p, x)),
        0 <= p <= entries.len(),
        forall|j: int| 0 <= j < entries.len() ==> entries[j].0 != x.0,
    ensures
        map_of(entries.insert(p, x)) == map_of(entries).insert(x.0, x.1@),
{
    let e2 = entries.insert(p, x);
    let m1 = map_of(entries).insert(x.0, x.1@);
    let m2 = map_of(e2);
    assert forall|k: H256| m2.contains_key(k) <==> m1.contains_key(k) by {
        if m2.contains_key(k) && k != x.0 {
            lemma_map_of_present(e2, k);
            let j = choose|j: int| 0 <= j < e2.len() && e2[j].0 == k;
            if j < p {
                lemma_map_of_index(entries, j);
            } else {
                assert(j != p);
                assert(e2[j] == entries[j - 1]);
                lemma_map_of_index(entries, j - 1);
            }
        }
        if m1.contains_key(k) && k != x.0 {
            lemma_map_of_present(entries, k);
            let j = choose|j: int| 0 <= j < entries.len() && entries[j].0 == k;
            if j < p {
                assert(e2[j] == entries[j]);
                lemma_map_of_index(e2, j);
            } else {
                assert(e2[j + 1] == entries[j]);
                lemma_map_of_index(e2, j + 1);
            }
        }
        if k == x.0 {
            assert(e2[p] == x);
            lemma_map_of_index(e2, p);
        }
    }
    assert forall|k: H256| m2.contains_key(k) implies m2[k] == m1[k] by {
        if k == x.0 {
            assert(e2[p] == x);
            lemma_map_of_index(e2, p);
        } else {
            lemma_map_of_present(e2, k);
            let j = choose|j: int| 0 <= j < e2.len() && e2[j].0 == k;
            lemma_map_of_index(e2, j);
            if j < p {
                assert(e2[j] == entries[j]);
                lemma_map_of_index(entries, j);
            } else {
                assert(e2[j] == entries[j - 1]);
                lemma_map_of_index(entries, j - 1);
            }
        }
    }
    assert(m2 =~= m1);
}

proof fn lemma_map_of_absent(entries: Seq<(H256, TransactionMeta)>, k: H256)
    requires
        forall|j: int| 0 <= j < entries.len() ==> entries[j].0 != k,
    ensures
        !map_of(entries).contains_key(k),
    decreases entries.len(),
{
    if entries.len() > 0 {
        lemma_map_of_absent(entries.drop_last(), k);
    }
}

proof fn lemma_map_of_index(entries: Seq<(H256, TransactionMeta)>, j: int)
    requires
        unique_keys(entries),
        0 <= j < entries.len(),
    ensures
        map_of(entries).contains_key(entries[j].0),
        map_of(entries)[entries[j].0] == entries[j].1@,
    decreases entries.len(),
{
    if j < entries.len() - 1 {
        lemma_map_of_index(entries.drop_last(), j);
    }
}

proof fn lemma_map_of_set(entries: Seq<(H256, TransactionMeta)>, j: int, m: TransactionMeta)
    requires
        unique_keys(entries),
        0 <= j < entries.len(),
    ensures
        map_of(entries.update(j, (entries[j].0, m))) == map_of(entries).insert(entries[j].0, m@),
    decreases entries.len(),
{
    let k = entries[j].0;
    let e2 = entries.update(j, (k, m));
    if j == entries.len() - 1 {
        assert(e2.drop_last() =~= entries.drop_last());
        assert(map_of(e2) =~= map_of(entries).insert(k, m@));
    } else {
        lemma_map_of_set(entries.drop_last(), j, m);
        assert(e2.drop_last() =~= entries.drop_last().update(j, (k, m)));
        assert(entries.last().0 != k);
        assert(map_of(e2) =~= map_of(entries).insert(k, m@));
    }
}

/// Spends one output: `None` when the transaction is unknown, the output does
/// not exist, or it is spent already.
pub open spec fn spend(m: UnspentMap, key: H256, index: int) -> Option<UnspentMap> {
    if m.contains_key(key) && 0 <= index < m[key].len() && m[key][index] {
        Some(m.insert(key, m[key].update(index, false)))
    } else {
        None
    }
}

/// Spends each input in turn; `None` at the first that cannot be spent.
pub open spec fn spend_all(m: UnspentMap, inputs: Seq<OutPoint>) -> Option<UnspentMap>
    decreases inputs.len(),
{
    if inputs.len() == 0 {
        Some(m)
    } else {
        match spend(m, inputs[0].hash, inputs[0].index as int) {
            None => None,
            Some(m2) => spend_all(m2, inputs.drop_first()),
        }
    }
}

/// Records a new transaction with all outputs live; no outputs leave the map
/// as it is, and an id that is bound already gives `None`.
pub open spec fn create(m: UnspentMap, outputs: Seq<OutPoint>) -> Option<UnspentMap> {
    if outputs.len() == 0 {
        Some(m)
    } else if m.contains_key(outputs[0].hash) {
        None
    } else {
        Some(m.insert(outputs[0].hash, all_live(outputs.len())))
    }
}

/// One transaction's change: its inputs are spent, then its outputs created.
pub open spec fn apply_cell(m: UnspentMap, cell: (Seq<OutPoint>, Seq<OutPoint>)) -> Option<UnspentMap> {
    match spend_all(m, cell.0) {
        None => None,
        Some(m2) => create(m2, cell.1),
    }
}

/// The changes of a list of transactions in order; `None` as soon as an input
/// is unknown or spent already, or a new transaction id is bound already.
pub open spec fn apply_cells(m: UnspentMap, cells: Seq<(Seq<OutPoint>, Seq<OutPoint>)>) -> Option<
    UnspentMap,
>
    decreases cells.len(),
{
    if cells.len() == 0 {
        Some(m)
    } else {
        match apply_cell(m, cells[0]) {
            None => None,
            Some(m2) => apply_cells(m2, cells.drop_first()),
        }
    }
}

/// Views of the changes that a list of `(inputs, outputs)` pairs makes.
pub open spec fn cells_view(cells: Seq<(Vec<OutPoint>, Vec<OutPoint>)>) -> Seq<
    (Seq<OutPoint>, Seq<OutPoint>),
> {
    cells.map_values(|c: (Vec<OutPoint>, Vec<OutPoint>)| (c.0@, c.1@))
}

/// The unspent outputs of every known transaction, keyed by transaction id.
pub struct UnspentIndex {
    entries: Vec<(H256, TransactionMeta)>,
}

impl View for UnspentIndex {
    type V = UnspentMap;

    closed spec fn view(&self) -> UnspentMap {
        map_of(self.entries@)
    }
}

impl UnspentIndex {
    pub closed spec fn well_formed(&self) -> bool {
        unique_keys(self.entries@) && sorted_keys(self.entries@)
    }

    /// An index that knows no transaction.
    pub fn new() -> (r: UnspentIndex)
        ensures
            r.well_formed(),
            r@ == Map::<H256, Seq<bool>>::empty(),
    {
        UnspentIndex { entries: Vec::new() }
    }

    fn find(&self, key: &H256) -> (r: Option<usize>)
        requires
            self.well_formed(),
        ensures
            r matches Some(j) ==> j < self.entries@.len() && self.entries@[j as int].0 == *key,
            r is None ==> !self@.contains_key(*key),
    {
        let mut j: usize = 0;
        while j < self.entries.len()
            invariant
                j <= self.entries@.len(),
                forall|a: int| 0 <= a < j ==> self.entries@[a].0 != *key,
            decreases self.entries@.len() - j,
        {
            if self.entries[j].0 == *key {
                proof {
                    crate::hash::lemma_h256_eq(self.entries@[j as int].0, *key);
                }
                return Some(j);
            }
            j = j + 1;
        }
        proof {
            lemma_map_of_absent(self.entries@, *key);
        }
        None
    }

    /// The outputs of transaction `key`, if it is known.
    pub fn get(&self, key: &H256) -> (r: Option<TransactionMeta>)
        requires
            self.well_formed(),
        ensures
            r is Some <==> self@.contains_key(*key),
            r matches Some(m) ==> m@ == self@[*key],
    {
        match self.find(key) {
            None => None,
            Some(j) => {
                proof {
                    lemma_map_of_index(self.entries@, j as int);
                }
                Some(self.entries[j].1.duplicate())
            },
        }
    }

    /// Binds `key` to `meta`; returns the earlier binding, if any.
    pub fn insert(&mut self, key: H256, meta: TransactionMeta) -> (r: Option<TransactionMeta>)
        requires
            old(self).well_formed(),
        ensures
            final(self).well_formed(),
            final(self)@ == old(self)@.insert(key, meta@),
            r is Some <==> old(self)@.contains_key(key),
            r matches Some(m) ==> m@ == old(self)@[key],
    {
        match self.find(&key) {
            None => {
                let ghost before = self.entries@;
                let mut p: usize = 0;
                while p < self.entries.len() && self.entries[p].0.less_than(&key)
                    invariant
                        p <= self.entries@.len(),
                        self.entries@ == before,
                        forall|a: int| 0 <= a < p ==> key_lt(#[trigger] before[a].0, key),
                    decreases self.entries@.len() - p,
                {
                    p = p + 1;
                }
                proof {
                    assert forall|a: int| 0 <= a < before.len() implies before[a].0 != key by {
                        if before[a].0 == key {
                            lemma_map_of_index(before, a);
                        }
                    }
                    if p < before.len() {
                        crate::hash::lemma_bytes_lt_total(before[p as int].0.0@, key.0@);
                        if before[p as int].0.0@ == key.0@ {
                            crate::hash::lemma_h256_eq(before[p as int].0, key);
                        }
                    }
                }
                self.entries.insert(p, (key, meta));
                let ghost after = self.entries@;
                assert forall|a: int, b: int| 0 <= a < b < after.len() implies key_lt(after[a].0, after[b].0) by {
                    if b < p {
                        assert(after[a] == before[a] && after[b] == before[b]);
                    } else if b == p {
                        assert(after[a] == before[a]);
                    } else if a == p {
                        assert(after[b] == before[b - 1]);
                        if b - 1 > p {
                            assert(sorted_keys(before));
                            assert(key_lt(before[p as int].0, before[b - 1].0));
                            crate::hash::lemma_bytes_lt_transitive(key.0@, before[p as int].0.0@, before[b - 1].0.0@);
                        }
                    } else if a < p {
                        assert(after[a] == before[a] && after[b] == before[b - 1]);
                    } else {
                        assert(after[a] == before[a - 1] && after[b] == before[b - 1]);
                    }
                }
                assert forall|a: int, b: int| 0 <= a < b < after.len() implies after[a].0 != after[b].0 by {
                    if after[a].0 == after[b].0 {
                        crate::hash::lemma_bytes_lt_irreflexive(after[a].0.0@);
                    }
                }
                proof {
                    lemma_map_of_insert_at(before, p as int, (key, meta));
                }
                None
            },
            Some(j) => {
                proof {
                    lemma_map_of_index(self.entries@, j as int);
                    lemma_map_of_set(self.entries@, j as int, meta);
                }
                let prev = self.entries[j].1.duplicate();
                self.entries.set(j, (key, meta));
                Some(prev)
            },
        }
    }

    /// Spends output `index` of transaction `key`; `false`, with nothing
    /// changed, when the transaction is unknown or the output is not live.
    pub fn update(&mut self, key: &H256, index: usize) -> (r: bool)
        requires
            old(self).well_formed(),
        ensures
            final(self).well_formed(),
            r == spend(old(self)@, *key, index as int) is Some,
            r ==> final(self)@ == spend(old(self)@, *key, index as int)->Some_0,
            !r ==> final(self)@ == old(self)@,
    {
        match self.find(key) {
            None => false,
            Some(j) => {
                proof {
                    lemma_map_of_index(self.entries@, j as int);
                }
                if !self.entries[j].1.is_unspent(index) {
                    return false;
                }
                let mut meta = self.entries[j].1.duplicate();
                meta.set_spent(index);
                proof {
                    lemma_map_of_set(self.entries@, j as int, meta);
                }
                self.entries.set(j, (*key, meta));
                assert(self.entries@.len() == old(self).entries@.len());
                true
            },
        }
    }

    /// The bindings as values, in stored order.
    pub closed spec fn entry_views(&self) -> Seq<EntryView> {
        self.entries@.map_values(|e: (H256, TransactionMeta)| (e.0, e.1@))
    }

    /// The stored form of this state.
    pub fn encode(&self) -> (r: Vec<u8>)
        requires
            self.well_formed(),
        ensures
            encodes_state(r@, self@),
            encodes_sorted(r@, self@),
    {
        let ghost es = self.entry_views();
        let mut out: Vec<u8> = Vec::new();
        let mut k: usize = 0;
        assert(es.take(0) =~= Seq::<EntryView>::empty());
        while k < self.entries.len()
            invariant
                k <= self.entries@.len(),
                es == self.entry_views(),
                out@ == encode_entries(es.take(k as int)),
                entries_ok(es.take(k as int)),
            decreases self.entries@.len() - k,
        {
            let e = &self.entries[k];
            let ghost before = out@;
            push_hash(&mut out, &e.0);
            let l = e.1.len();
            push_u64(&mut out, l as u64);
            let ghost head = out@;
            let mut j: usize = 0;
            while j < l
                invariant
                    j <= l,
                    l == e.1@.len(),
                    out@ == head + e.1@.take(j as int).map_values(|b: bool| bit_byte(b)),
                decreases l - j,
            {
                if e.1.is_unspent(j) {
                    out.push(1u8);
                } else {
                    out.push(0u8);
                }
                j = j + 1;
                assert(out@ =~= head + e.1@.take(j as int).map_values(|b: bool| bit_byte(b)));
            }
            assert(e.1@.take(l as int) =~= e.1@);
            assert(es[k as int] == (e.0, e.1@));
            assert(out@ =~= before + encode_entry(es[k as int]));
            proof {
                lemma_encode_append(es.take(k as int), seq![es[k as int]]);
                assert(es.take(k + 1 as int) =~= es.take(k as int) + seq![es[k as int]]);
                assert(seq![es[k as int]].drop_first() =~= Seq::<EntryView>::empty());
                assert(encode_entries(Seq::<EntryView>::empty()) == Seq::<u8>::empty());
                assert(seq![es[k as int]][0] == es[k as int]);
                assert(encode_entries(seq![es[k as int]]) =~= encode_entry(es[k as int]));
            }
            k = k + 1;
        }
        assert(es.take(k as int) =~= es);
        proof {
            lemma_views_map_of(self.entries@);
            assert(sorted_views(es)) by {
                assert forall|a: int, b: int| 0 <= a < b < es.len() implies key_lt(es[a].0, es[b].0) by {
                    assert(key_lt(self.entries@[a].0, self.entries@[b].0));
                }
            }
        }
        out
    }

    /// The state whose stored form is `b`, if `b` is one.
    pub fn decode(b: &[u8]) -> (r: Option<UnspentIndex>)
        ensures
            r matches Some(t) ==> t.well_formed() && encodes_state(b@, t@),
            (exists|s: UnspentMap| encodes_state(b@, s)) ==> r is Some,
    {
        let len = b.len();
        let ghost target = exists|s: UnspentMap| encodes_state(b@, s);
        let mut idx = UnspentIndex::new();
        let ghost mut parsed: Seq<EntryView> = Seq::empty();
        let mut pos: usize = 0;
        proof {
            if target {
                let s = choose|s: UnspentMap| encodes_state(b@, s);
                let es = choose|es: Seq<EntryView>| entries_ok(es) && encode_entries(es) == b@ && views_map(es) == s;
                assert(b@.subrange(0, len as int) =~= b@);
            }
        }
        while pos < len
            invariant
                pos <= len,
                len == b@.len(),
                idx.well_formed(),
                entries_ok(parsed),
                encode_entries(parsed) == b@.subrange(0, pos as int),
                idx@ == views_map(parsed),
                target == (exists|s: UnspentMap| encodes_state(b@, s)),
                target ==> exists|rest: Seq<EntryView>|
                    entries_ok(rest) && encode_entries(rest) == b@.subrange(pos as int, len as int),
            decreases len - pos,
        {
            let ghost rest = choose|rest: Seq<EntryView>|
                entries_ok(rest) && encode_entries(rest) == b@.subrange(pos as int, len as int);
            proof {
                if target {
                    if rest.len() == 0 {
                        assert(b@.subrange(pos as int, len as int).len() > 0);
                    } else {
                        assert(rest[0].1.len() <= u64::MAX);
                        lemma_entry_parts(rest[0]);
                        assert(encode_entries(rest) == encode_entry(rest[0]) + encode_entries(rest.drop_first()));
                        assert(encode_entries(rest).len() >= 40 + rest[0].1.len());
                        assert(encode_entries(rest).subrange(0, 40 + rest[0].1.len() as int) =~= encode_entry(rest[0]));
                    }
                }
            }
            if len - pos < 40 {
                return None;
            }
            let key = read_hash(b, pos);
            let l = read_u64(b, pos + 32);
            proof {
                if target {
                    let x = encode_entry(rest[0]);
                    assert(b@.subrange(pos as int, pos + 32) =~= x.subrange(0, 32));
                    assert(b@.subrange(pos + 32, pos + 40) =~= x.subrange(32, 40));
                    crate::codec::lemma_le_u64_injective(l, rest[0].1.len() as u64);
                    assert(rest[0].1.len() + 40 <= len - pos);
                    assert(b@.subrange(pos as int, pos + 40 + rest[0].1.len()) =~= b@.subrange(pos as int, len as int).subrange(0, 40 + rest[0].1.len() as int));
                }
            }
            if l > (len - pos - 40) as u64 {
                return None;
            }
            let lu = l as usize;
            let start = pos + 40;
            let mut meta = TransactionMeta::new(lu);
            let mut j: usize = 0;
            while j < lu
                invariant
                    j <= lu,
                    start + lu <= len,
                    len == b@.len(),
                    start == pos + 40,
                    meta@.len() == lu,
                    forall|i: int| 0 <= i < j ==> bit_byte(#[trigger] meta@[i]) == b@[start + i],
                    forall|i: int| j <= i < lu ==> #[trigger] meta@[i],
                    target == (exists|s: UnspentMap| encodes_state(b@, s)),
                    target ==> rest[0].1.len() == lu && encode_entries(rest) == b@.subrange(pos as int, len as int)
                        && encode_entry(rest[0]) =~= b@.subrange(pos as int, pos + 40 + lu),
                decreases lu - j,
            {
                let byte = b[start + j];
                if byte == 0 {
                    meta.set_spent(j);
                } else if byte != 1 {
                    proof {
                        if target {
                            assert(rest[0].1.len() <= u64::MAX);
                            lemma_entry_parts(rest[0]);
                            assert(encode_entry(rest[0])[40 + j] == b@[start + j]);
                        }
                    }
                    return None;
                }
                j = j + 1;
            }
            let ghost e: EntryView = (key, meta@);
            proof {
                lemma_entry_parts(e);
                assert(encode_entry(e) =~= b@.subrange(pos as int, pos + 40 + lu));
                if target {
                    assert(rest[0].1.len() <= u64::MAX);
                    lemma_entry_parts(rest[0]);
                    assert(encode_entries(rest) == encode_entry(rest[0]) + encode_entries(rest.drop_first()));
                    assert(encode_entry(rest[0]).len() == 40 + lu);
                    assert(encode_entries(rest.drop_first()) =~= encode_entries(rest).subrange(40 + lu as int, encode_entries(rest).len() as int));
                    assert(encode_entries(rest.drop_first()) =~= b@.subrange(pos + 40 + lu, len as int));
                    assert(entries_ok(rest.drop_first())) by {
                        assert forall|i: int| 0 <= i < rest.drop_first().len() implies #[trigger] rest.drop_first()[i].1.len() <= u64::MAX by {
                            assert(rest[i + 1].1.len() <= u64::MAX);
                        }
                    }
                }
                lemma_encode_append(parsed, seq![e]);
                assert(seq![e].drop_first() =~= Seq::<EntryView>::empty());
                assert(encode_entries(Seq::<EntryView>::empty()) == Seq::<u8>::empty());
                assert(seq![e][0] == e);
                assert(encode_entries(seq![e]) =~= encode_entry(e));
                assert(b@.subrange(0, pos + 40 + lu) =~= b@.subrange(0, pos as int) + b@.subrange(pos as int, pos + 40 + lu));
                assert((parsed + seq![e]).drop_last() =~= parsed);
            }
            idx.insert(key, meta);
            proof {
                parsed = parsed + seq![e];
            }
            pos = pos + 40 + lu;
        }
        assert(b@.subrange(0, len as int) =~= b@);
        Some(idx)
    }

    /// An index with the same bindings.
    pub fn duplicate(&self) -> (r: UnspentIndex)
        requires
            self.well_formed(),
        ensures
            r.well_formed(),
            r@ == self@,
    {
        let mut entries: Vec<(H256, TransactionMeta)> = Vec::new();
        let mut j: usize = 0;
        while j < self.entries.len()
            invariant
                j <= self.entries@.len(),
                unique_keys(self.entries@),
                entries@.len() == j,
                forall|a: int| 0 <= a < j ==> (#[trigger] entries@[a]).0 == self.entries@[a].0
                    && entries@[a].1@ == self.entries@[a].1@,
            decreases self.entries@.len() - j,
        {
            let m = self.entries[j].1.duplicate();
            entries.push((self.entries[j].0, m));
            j = j + 1;
        }
        let r = UnspentIndex { entries };
        assert(r@ == self@) by {
            lemma_map_of_same(r.entries@, self.entries@);
        }
        r
    }

    /// Applies the changes of `cells` in order: for each, spend its inputs,
    /// then record its outputs under the id of the first of them. `false`, with
    /// nothing changed, as soon as an input is unknown or spent already, or a
    /// new transaction id is bound already.
    pub fn apply(&mut self, cells: &Vec<(Vec<OutPoint>, Vec<OutPoint>)>) -> (r: bool)
        requires
            old(self).well_formed(),
        ensures
            final(self).well_formed(),
            r == apply_cells(old(self)@, cells_view(cells@)) is Some,
            r ==> final(self)@ == apply_cells(old(self)@, cells_view(cells@))->Some_0,
            !r ==> final(self)@ == old(self)@,
    {
        let ghost all = cells_view(cells@);
        let mut work = self.duplicate();
        let mut k: usize = 0;
        assert(all.skip(0) =~= all);
        while k < cells.len()
            invariant
                *self == *old(self),
                self.well_formed(),
                work.well_formed(),
                k <= cells@.len(),
                all == cells_view(cells@),
                apply_cells(work@, all.skip(k as int)) == apply_cells(old(self)@, all),
            decreases cells@.len() - k,
        {
            let ghost at_cell = work@;
            let inputs = &cells[k].0;
            let outputs = &cells[k].1;
            let mut i: usize = 0;
            assert(inputs@.skip(0) =~= inputs@);
            while i < inputs.len()
                invariant
                    *self == *old(self),
                    self.well_formed(),
                    work.well_formed(),
                    k < cells@.len(),
                    all == cells_view(cells@),
                    inputs@ == cells@[k as int].0@,
                    outputs@ == cells@[k as int].1@,
                    apply_cells(at_cell, all.skip(k as int)) == apply_cells(old(self)@, all),
                    i <= inputs@.len(),
                    spend_all(work@, inputs@.skip(i as int)) == spend_all(at_cell, inputs@),
                decreases inputs@.len() - i,
            {
                let input = inputs[i];
                if !work.update(&input.hash, input.index as usize) {
                    assert(all.skip(k as int)[0] == (inputs@, outputs@));
                    return false;
                }
                assert(inputs@.skip(i + 1 as int) =~= inputs@.skip(i as int).drop_first());
                i = i + 1;
            }
            assert(all.skip(k as int)[0] == (inputs@, outputs@));
            assert(all.skip(k as int).drop_first() =~= all.skip(k + 1 as int));
            let len = outputs.len();
            if len != 0 {
                let meta = TransactionMeta::new(len);
                if work.insert(outputs[0].hash, meta).is_some() {
                    return false;
                }
            }
            k = k + 1;
        }
        *self = work;
        true
    }
}

/// After a spend succeeds, that output is no longer live and spending it again fails.
pub proof fn lemma_spend_once(m: UnspentMap, key: H256, index: int)
    requires
        spend(m, key, index) is Some,
    ensures
        spend(m, key, index)->Some_0.contains_key(key),
        !spend(m, key, index)->Some_0[key][index],
        spend(spend(m, key, index)->Some_0, key, index) is None,
{
}

proof fn lemma_cells_prefix(
    m: UnspentMap,
    cells: Seq<(Seq<OutPoint>, Seq<OutPoint>)>,
    k: int,
)
    requires
        0 <= k < cells.len(),
    ensures
        apply_cells(m, cells.take(k + 1)) == match apply_cells(m, cells.take(k)) {
            None => None,
            Some(m2) => apply_cell(m2, cells[k]),
        },
    decreases k,
{
    if k == 0 {
        assert(cells.take(1).drop_first() =~= Seq::<(Seq<OutPoint>, Seq<OutPoint>)>::empty());
        assert(cells.take(0) =~= Seq::<(Seq<OutPoint>, Seq<OutPoint>)>::empty());
        assert(cells.take(1)[0] == cells[0]);
        match apply_cell(m, cells[0]) {
            None => {},
            Some(m2) => {
                assert(apply_cells(m2, cells.take(1).drop_first()) == Some(m2));
            },
        }
    } else {
        let rest = cells.drop_first();
        assert(cells.take(k + 1)[0] == cells[0]);
        assert(cells.take(k)[0] == cells[0]);
        assert(rest[k - 1] == cells[k]);
        assert(cells.take(k + 1).drop_first() =~= rest.take(k));
        assert(cells.take(k).drop_first() =~= rest.take(k - 1));
        match apply_cell(m, cells[0]) {
            None => {},
            Some(m1) => {
                lemma_cells_prefix(m1, rest, k - 1);
            },
        }
    }
}

proof fn lemma_inputs_prefix(m: UnspentMap, inputs: Seq<OutPoint>, k: int)
    requires
        0 <= k < inputs.len(),
    ensures
        spend_all(m, inputs.take(k + 1)) == match spend_all(m, inputs.take(k)) {
            None => None,
            Some(m2) => spend(m2, inputs[k].hash, inputs[k].index as int),
        },
    decreases k,
{
    if k == 0 {
        assert(inputs.take(1).drop_first() =~= Seq::<OutPoint>::empty());
        assert(inputs.take(0) =~= Seq::<OutPoint>::empty());
        assert(inputs.take(1)[0] == inputs[0]);
        match spend(m, inputs[0].hash, inputs[0].index as int) {
            None => {},
            Some(m2) => {
                assert(spend_all(m2, inputs.take(1).drop_first()) == Some(m2));
            },
        }
    } else {
        let rest = inputs.drop_first();
        assert(inputs.take(k + 1)[0] == inputs[0]);
        assert(inputs.take(k)[0] == inputs[0]);
        assert(rest[k - 1] == inputs[k]);
        assert(inputs.take(k + 1).drop_first() =~= rest.take(k));
        assert(inputs.take(k).drop_first() =~= rest.take(k - 1));
        match spend(m, inputs[0].hash, inputs[0].index as int) {
            None => {},
            Some(m1) => {
                lemma_inputs_prefix(m1, rest, k - 1);
            },
        }
    }
}

proof fn lemma_cells_first_failure(
    m: UnspentMap,
    cells: Seq<(Seq<OutPoint>, Seq<OutPoint>)>,
    j: int,
)
    requires
        0 <= j <= cells.len(),
        apply_cells(m, cells.take(j)) is Some,
        apply_cells(m, cells) is None,
    ensures
        exists|k: int|
            0 <= k < cells.len() && #[trigger] apply_cells(m, cells.take(k)) is Some && apply_cell(
                apply_cells(m, cells.take(k))->Some_0,
                cells[k],
            ) is None,
    decreases cells.len() - j,
{
    assert(cells.take(cells.len() as int) =~= cells);
    lemma_cells_prefix(m, cells, j);
    if apply_cell(apply_cells(m, cells.take(j))->Some_0, cells[j]) is None {
    } else {
        lemma_cells_first_failure(m, cells, j + 1);
    }
}

proof fn lemma_cells_failure_stays(
    m: UnspentMap,
    cells: Seq<(Seq<OutPoint>, Seq<OutPoint>)>,
    j: int,
)
    requires
        0 <= j <= cells.len(),
        apply_cells(m, cells.take(j)) is None,
    ensures
        apply_cells(m, cells) is None,
    decreases cells.len() - j,
{
    if j == cells.len() {
        assert(cells.take(j) =~= cells);
    } else {
        lemma_cells_prefix(m, cells, j);
        lemma_cells_failure_stays(m, cells, j + 1);
    }
}

proof fn lemma_inputs_first_failure(m: UnspentMap, inputs: Seq<OutPoint>, j: int)
    requires
        0 <= j <= inputs.len(),
        spend_all(m, inputs.take(j)) is Some,
        spend_all(m, inputs) is None,
    ensures
        exists|k: int|
            0 <= k < inputs.len() && #[trigger] spend_all(m, inputs.take(k)) is Some && spend(
                spend_all(m, inputs.take(k))->Some_0,
                inputs[k].hash,
                inputs[k].index as int,
            ) is None,
    decreases inputs.len() - j,
{
    assert(inputs.take(inputs.len() as int) =~= inputs);
    lemma_inputs_prefix(m, inputs, j);
    if spend(spend_all(m, inputs.take(j))->Some_0, inputs[j].hash, inputs[j].index as int) is None {
    } else {
        lemma_inputs_first_failure(m, inputs, j + 1);
    }
}

proof fn lemma_inputs_failure_stays(m: UnspentMap, inputs: Seq<OutPoint>, j: int)
    requires
        0 <= j <= inputs.len(),
        spend_all(m, inputs.take(j)) is None,
    ensures
        spend_all(m, inputs) is None,
    decreases inputs.len() - j,
{
    if j == inputs.len() {
        assert(inputs.take(j) =~= inputs);
    } else {
        lemma_inputs_prefix(m, inputs, j);
        lemma_inputs_failure_stays(m, inputs, j + 1);
    }
}

/// The state just before change `k` of `cells` is applied, when every
/// earlier change went through.
pub open spec fn state_before(
    m: UnspentMap,
    cells: Seq<(Seq<OutPoint>, Seq<OutPoint>)>,
    k: int,
) -> Option<UnspentMap> {
    apply_cells(m, cells.take(k))
}

/// `o` names a transaction that `t` does not know, an output that it does not
/// have, or one spent already.
pub open spec fn cannot_spend(t: UnspentMap, o: OutPoint) -> bool {
    !(t.contains_key(o.hash) && o.index < t[o.hash].len() && t[o.hash][o.index as int])
}

/// Change `cell` fails on state `s`: one of its inputs cannot be spent once
/// the inputs before it are, or its new id is bound once all its inputs are spent.
pub open spec fn cell_fails(s: UnspentMap, cell: (Seq<OutPoint>, Seq<OutPoint>)) -> bool {
    (exists|i: int|
        0 <= i < cell.0.len() && #[trigger] spend_all(s, cell.0.take(i)) is Some && cannot_spend(
            spend_all(s, cell.0.take(i))->Some_0,
            cell.0[i],
        )) || (spend_all(s, cell.0) is Some && cell.1.len() > 0 && spend_all(
        s,
        cell.0,
    )->Some_0.contains_key(cell.1[0].hash))
}

proof fn lemma_cell_fails(s: UnspentMap, cell: (Seq<OutPoint>, Seq<OutPoint>))
    ensures
        apply_cell(s, cell) is None <==> cell_fails(s, cell),
{
    let inputs = cell.0;
    assert(inputs.take(0) =~= Seq::<OutPoint>::empty());
    if spend_all(s, inputs) is None {
        lemma_inputs_first_failure(s, inputs, 0);
    }
    if exists|i: int|
        0 <= i < inputs.len() && #[trigger] spend_all(s, inputs.take(i)) is Some && cannot_spend(
            spend_all(s, inputs.take(i))->Some_0,
            inputs[i],
        ) {
        let i = choose|i: int|
            0 <= i < inputs.len() && #[trigger] spend_all(s, inputs.take(i)) is Some && cannot_spend(
                spend_all(s, inputs.take(i))->Some_0,
                inputs[i],
            );
        lemma_inputs_prefix(s, inputs, i);
        lemma_inputs_failure_stays(s, inputs, i + 1);
    }
}

/// Applying `cells` fails exactly when some change, reached with every earlier
/// change gone through, fails: an input refers to a transaction that is
/// unknown, to an output it does not have or to one spent already, or the new
/// transaction id is bound already.
pub proof fn lemma_apply_fails_iff(m: UnspentMap, cells: Seq<(Seq<OutPoint>, Seq<OutPoint>)>)
    ensures
        apply_cells(m, cells) is None <==> exists|k: int|
            0 <= k < cells.len() && #[trigger] state_before(m, cells, k) is Some && cell_fails(
                state_before(m, cells, k)->Some_0,
                cells[k],
            ),
{
    assert(cells.take(0) =~= Seq::<(Seq<OutPoint>, Seq<OutPoint>)>::empty());
    if apply_cells(m, cells) is None {
        lemma_cells_first_failure(m, cells, 0);
        let k = choose|k: int|
            0 <= k < cells.len() && #[trigger] apply_cells(m, cells.take(k)) is Some && apply_cell(
                apply_cells(m, cells.take(k))->Some_0,
                cells[k],
            ) is None;
        lemma_cell_fails(apply_cells(m, cells.take(k))->Some_0, cells[k]);
        assert(state_before(m, cells, k) is Some);
    }
    if exists|k: int|
        0 <= k < cells.len() && #[trigger] state_before(m, cells, k) is Some && cell_fails(
            state_before(m, cells, k)->Some_0,
            cells[k],
        ) {
        let k = choose|k: int|
            0 <= k < cells.len() && #[trigger] state_before(m, cells, k) is Some && cell_fails(
                state_before(m, cells, k)->Some_0,
                cells[k],
            );
        lemma_cell_fails(state_before(m, cells, k)->Some_0, cells[k]);
        lemma_cells_prefix(m, cells, k);
        lemma_cells_failure_stays(m, cells, k + 1);
    }
}

/// One binding as values: transaction id and live-output bitmap.
pub type EntryView = (H256, Seq<bool>);

/// Stored form of a bit: 1 for live, 0 for spent.
pub open spec fn bit_byte(b: bool) -> u8 {
    if b {
        1
    } else {
        0
    }
}

/// Stored form of one binding: the id, the number of outputs (eight
/// little-endian bytes), then one byte per output.
pub open spec fn encode_entry(e: EntryView) -> Seq<u8> {
    e.0.0@ + le_u64(e.1.len() as u64) + e.1.map_values(|b: bool| bit_byte(b))
}

/// Stored form of a state: its bindings one after another.
pub open spec fn encode_entries(es: Seq<EntryView>) -> Seq<u8>
    decreases es.len(),
{
    if es.len() == 0 {
        Seq::empty()
    } else {
        encode_entry(es[0]) + encode_entries(es.drop_first())
    }
}

/// Every bitmap's length fits the stored count.
pub open spec fn entries_ok(es: Seq<EntryView>) -> bool {
    forall|i: int| 0 <= i < es.len() ==> #[trigger] es[i].1.len() <= u64::MAX
}

/// The map that a list of bindings stands for, later bindings winning.
pub open spec fn views_map(es: Seq<EntryView>) -> UnspentMap
    decreases es.len(),
{
    if es.len() == 0 {
        Map::empty()
    } else {
        views_map(es.drop_last()).insert(es.last().0, es.last().1)
    }
}

/// `b` is the stored form of state `s`.
pub open spec fn encodes_state(b: Seq<u8>, s: UnspentMap) -> bool {
    exists|es: Seq<EntryView>| entries_ok(es) && encode_entries(es) == b && views_map(es) == s
}

/// Ids strictly ascending.
pub open spec fn sorted_views(es: Seq<EntryView>) -> bool {
    forall|a: int, b: int| 0 <= a < b < es.len() ==> key_lt(es[a].0, es[b].0)
}

/// `b` is the canonical stored form of state `s`: its bindings in ascending id order.
pub open spec fn encodes_sorted(b: Seq<u8>, s: UnspentMap) -> bool {
    exists|es: Seq<EntryView>|
        sorted_views(es) && entries_ok(es) && encode_entries(es) == b && views_map(es) == s
}

proof fn lemma_views_map_present(es: Seq<EntryView>, k: H256)
    ensures
        views_map(es).contains_key(k) <==> exists|j: int| 0 <= j < es.len() && es[j].0 == k,
    decreases es.len(),
{
    if es.len() > 0 {
        lemma_views_map_present(es.drop_last(), k);
        if exists|j: int| 0 <= j < es.len() && es[j].0 == k {
            let j = choose|j: int| 0 <= j < es.len() && es[j].0 == k;
            if j < es.len() - 1 {
                assert(es.drop_last()[j].0 == k);
            }
        }
        if views_map(es.drop_last()).contains_key(k) {
            let j = choose|j: int| 0 <= j < es.len() - 1 && es.drop_last()[j].0 == k;
            assert(es[j].0 == k);
        }
        if es.last().0 == k {
            assert(es[es.len() - 1].0 == k);
        }
    }
}

/// Sorted lists of bindings that stand for the same state are the same list.
pub proof fn lemma_sorted_canonical(a: Seq<EntryView>, b: Seq<EntryView>)
    requires
        sorted_views(a),
        sorted_views(b),
        views_map(a) == views_map(b),
    ensures
        a == b,
    decreases a.len(),
{
    if a.len() == 0 {
        if b.len() > 0 {
            lemma_views_map_present(a, b.last().0);
            lemma_views_map_present(b, b.last().0);
            assert(b[b.len() - 1].0 == b.last().0);
        }
        assert(a =~= b);
    } else if b.len() == 0 {
        lemma_views_map_present(b, a.last().0);
        lemma_views_map_present(a, a.last().0);
        assert(a[a.len() - 1].0 == a.last().0);
    } else {
        let ka = a.last().0;
        let kb = b.last().0;
        lemma_views_map_present(a, kb);
        lemma_views_map_present(b, ka);
        lemma_views_map_present(a, ka);
        lemma_views_map_present(b, kb);
        assert(a[a.len() - 1].0 == ka);
        assert(b[b.len() - 1].0 == kb);
        let i = choose|j: int| 0 <= j < a.len() && a[j].0 == kb;
        let j = choose|j: int| 0 <= j < b.len() && b[j].0 == ka;
        if ka != kb {
            assert(i < a.len() - 1);
            assert(j < b.len() - 1);
            assert(key_lt(a[i].0, ka));
            assert(key_lt(b[j].0, kb));
            crate::hash::lemma_bytes_lt_transitive(ka.0@, kb.0@, ka.0@);
            crate::hash::lemma_bytes_lt_irreflexive(ka.0@);
        }
        let a1 = a.drop_last();
        let b1 = b.drop_last();
        lemma_views_map_present(a1, ka);
        lemma_views_map_present(b1, ka);
        assert forall|x: int| 0 <= x < a1.len() implies a1[x].0 != ka by {
            assert(key_lt(a[x].0, a[a.len() - 1].0));
            crate::hash::lemma_bytes_lt_irreflexive(ka.0@);
        }
        assert forall|x: int| 0 <= x < b1.len() implies b1[x].0 != ka by {
            assert(key_lt(b[x].0, b[b.len() - 1].0));
            crate::hash::lemma_bytes_lt_irreflexive(ka.0@);
        }
        assert(views_map(a1) =~= views_map(a).remove(ka));
        assert(views_map(b1) =~= views_map(b).remove(ka));
        assert(a.last().1 == views_map(a)[ka]);
        assert(b.last().1 == views_map(b)[ka]);
        lemma_sorted_canonical(a1, b1);
        assert(a =~= b) by {
            assert forall|x: int| 0 <= x < a.len() implies a[x] == b[x] by {
                if x < a.len() - 1 {
                    assert(a[x] == a1[x] && b[x] == b1[x]);
                }
            }
        }
    }
}

/// A state has one canonical stored form.
pub proof fn lemma_canonical_form_unique(b1: Seq<u8>, b2: Seq<u8>, s: UnspentMap)
    requires
        encodes_sorted(b1, s),
        encodes_sorted(b2, s),
    ensures
        b1 == b2,
{
    let e1 = choose|es: Seq<EntryView>|
        sorted_views(es) && entries_ok(es) && encode_entries(es) == b1 && views_map(es) == s;
    let e2 = choose|es: Seq<EntryView>|
        sorted_views(es) && entries_ok(es) && encode_entries(es) == b2 && views_map(es) == s;
    lemma_sorted_canonical(e1, e2);
}

proof fn lemma_encode_append(a: Seq<EntryView>, b: Seq<EntryView>)
    ensures
        encode_entries(a + b) == encode_entries(a) + encode_entries(b),
    decreases a.len(),
{
    if a.len() == 0 {
        assert(a + b =~= b);
    } else {
        lemma_encode_append(a.drop_first(), b);
        assert((a + b).drop_first() =~= a.drop_first() + b);
        assert((a + b)[0] == a[0]);
    }
}

proof fn lemma_entry_parts(e: EntryView)
    requires
        e.1.len() <= u64::MAX,
    ensures
        encode_entry(e).len() == 40 + e.1.len(),
        encode_entry(e).subrange(0, 32) == e.0.0@,
        encode_entry(e).subrange(32, 40) == le_u64(e.1.len() as u64),
        forall|j: int| 0 <= j < e.1.len() ==> #[trigger] encode_entry(e)[40 + j] == bit_byte(e.1[j]),
{
    vstd::bytes::lemma_auto_spec_u64_to_from_le_bytes();
    assert(le_u64(e.1.len() as u64).len() == 8);
    assert(encode_entry(e).subrange(0, 32) =~= e.0.0@);
    assert(encode_entry(e).subrange(32, 40) =~= le_u64(e.1.len() as u64));
}

/// Two lists of bindings with the same stored form are the same.
pub proof fn lemma_entries_injective(a: Seq<EntryView>, b: Seq<EntryView>)
    requires
        entries_ok(a),
        entries_ok(b),
        encode_entries(a) == encode_entries(b),
    ensures
        a == b,
    decreases a.len(),
{
    if a.len() == 0 && b.len() == 0 {
        assert(a =~= b);
    } else if a.len() == 0 {
        assert(b[0].1.len() <= u64::MAX);
        lemma_entry_parts(b[0]);
        assert(encode_entries(b).len() >= 40);
    } else if b.len() == 0 {
        assert(a[0].1.len() <= u64::MAX);
        lemma_entry_parts(a[0]);
        assert(encode_entries(a).len() >= 40);
    } else {
        let ea = encode_entries(a);
        assert(a[0].1.len() <= u64::MAX);
        assert(b[0].1.len() <= u64::MAX);
        lemma_entry_parts(a[0]);
        lemma_entry_parts(b[0]);
        let xa = encode_entry(a[0]);
        let xb = encode_entry(b[0]);
        assert(ea.subrange(0, 32) == xa.subrange(0, 32));
        assert(ea.subrange(0, 32) == xb.subrange(0, 32));
        crate::hash::lemma_h256_eq(a[0].0, b[0].0);
        assert(ea.subrange(32, 40) == xa.subrange(32, 40));
        assert(ea.subrange(32, 40) == xb.subrange(32, 40));
        crate::codec::lemma_le_u64_injective(a[0].1.len() as u64, b[0].1.len() as u64);
        let l = a[0].1.len() as int;
        assert forall|j: int| 0 <= j < l implies a[0].1[j] == b[0].1[j] by {
            assert(ea[40 + j] == xa[40 + j]);
            assert(ea[40 + j] == xb[40 + j]);
        }
        assert(a[0].1 =~= b[0].1);
        assert(xa == xb);
        assert(encode_entries(a.drop_first()) =~= ea.subrange(40 + l, ea.len() as int));
        assert(encode_entries(b.drop_first()) =~= ea.subrange(40 + l, ea.len() as int));
        assert(entries_ok(a.drop_first()) && entries_ok(b.drop_first())) by {
            assert forall|i: int| 0 <= i < a.drop_first().len() implies #[trigger] a.drop_first()[i].1.len() <= u64::MAX by {
                assert(a[i + 1].1.len() <= u64::MAX);
            }
            assert forall|i: int| 0 <= i < b.drop_first().len() implies #[trigger] b.drop_first()[i].1.len() <= u64::MAX by {
                assert(b[i + 1].1.len() <= u64::MAX);
            }
        }
        lemma_entries_injective(a.drop_first(), b.drop_first());
        assert(a =~= b) by {
            assert forall|i: int| 0 <= i < a.len() implies a[i] == b[i] by {
                if i > 0 {
                    assert(a[i] == a.drop_first()[i - 1]);
                    assert(b[i] == b.drop_first()[i - 1]);
                }
            }
        }
    }
}

/// A stored form stands for one state only.
pub proof fn lemma_encodes_state_unique(b: Seq<u8>, s: UnspentMap, t: UnspentMap)
    requires
        encodes_state(b, s),
        encodes_state(b, t),
    ensures
        s == t,
{
    let es = choose|es: Seq<EntryView>| entries_ok(es) && encode_entries(es) == b && views_map(es) == s;
    let fs = choose|es: Seq<EntryView>| entries_ok(es) && encode_entries(es) == b && views_map(es) == t;
    lemma_entries_injective(es, fs);
}

proof fn lemma_views_map_of(entries: Seq<(H256, TransactionMeta)>)
    ensures
        map_of(entries) == views_map(entries.map_values(|e: (H256, TransactionMeta)| (e.0, e.1@))),
    decreases entries.len(),
{
    if entries.len() > 0 {
        lemma_views_map_of(entries.drop_last());
        assert(entries.drop_last().map_values(|e: (H256, TransactionMeta)| (e.0, e.1@))
            =~= entries.map_values(|e: (H256, TransactionMeta)| (e.0, e.1@)).drop_last());
    }
}

proof fn lemma_map_of_same(a: Seq<(H256, TransactionMeta)>, b: Seq<(H256, TransactionMeta)>)
    requires
        a.len() == b.len(),
        forall|j: int| 0 <= j < a.len() ==> (#[trigger] a[j]).0 == b[j].0 && a[j].1@ == b[j].1@,
    ensures
        map_of(a) == map_of(b),
    decreases a.len(),
{
    if a.len() > 0 {
        lemma_map_of_same(a.drop_last(), b.drop_last());
    }
}

} // verus!
