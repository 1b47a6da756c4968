use crate::block::{
    lemma_ext_injective, lemma_hashes_injective, lemma_header_injective, decode_addresses, encode_addresses, encode_ext, encode_hashes, encode_header, transactions_view,
    Block, BlockExt, BlockView, Header, IndexedHeader, Transaction,
};
use crate::codec::{push_hash, push_u64, read_hash, read_u64};
use crate::flat::{addresses_of, fits, packed, serialize, slice_at, views, Address};
use crate::hash::H256;
use crate::kv::{
    apply_ops, lemma_apply_ops_other, Batch, Col, KvMap, KvOp, MemoryKV, COLUMN_BLOCK_BODY, COLUMN_BLOCK_HEADER,
    COLUMN_BLOCK_PROPOSAL_IDS, COLUMN_BLOCK_TRANSACTION_ADDRESSES, COLUMN_BLOCK_TRANSACTION_IDS,
    COLUMN_BLOCK_UNCLE, COLUMN_EXT, COLUMN_OUTPUT_ROOT, COLUMN_TRANSACTION_META,
};
use crate::meta::{OutPoint, TransactionMeta};
use crate::digest::{sha3_256, sha3_256_of};
use crate::unspent::{
    apply_cells, cells_view, encodes_sorted, encodes_state, lemma_canonical_form_unique, lemma_encodes_state_unique, UnspentIndex, UnspentMap,
};
use vstd::prelude::*;

verus! {

/// Stored bytes that cannot be decoded: the store is damaged.
#[derive(Clone, Copy, PartialEq, Eq, Structural, Debug)]
pub enum StoreError {
    Corrupted,
    /// no unspent-output state is committed under the root asked for
    UnknownRoot,
}

/// The root of the empty unspent-output state: 32 zero bytes.
pub open spec fn is_zero(h: H256) -> bool {
    h.0@ == Seq::new(32, |i: int| 0u8)
}

/// The unspent-output state committed under `root`: the state whose stored
/// form is the value under `root` in the transaction-meta column; where no
/// such value is stored, the empty state at the zero root and none elsewhere.
pub open spec fn state_at(m: KvMap, root: H256) -> Option<UnspentMap> {
    if m.contains_key((COLUMN_TRANSACTION_META, root)) && exists|s: UnspentMap|
        encodes_state(m[(COLUMN_TRANSACTION_META, root)], s) {
        Some(choose|s: UnspentMap| encodes_state(m[(COLUMN_TRANSACTION_META, root)], s))
    } else if is_zero(root) {
        Some(Map::empty())
    } else {
        None
    }
}

/// The header stored under `hash`, if any.
pub open spec fn header_result(m: KvMap, hash: H256) -> Result<Option<IndexedHeader>, StoreError> {
    if !m.contains_key((COLUMN_BLOCK_HEADER, hash)) {
        Ok(None)
    } else if exists|h: Header| encode_header(h) == m[(COLUMN_BLOCK_HEADER, hash)] {
        Ok(
            Some(
                IndexedHeader {
                    header: choose|h: Header| encode_header(h) == m[(COLUMN_BLOCK_HEADER, hash)],
                    hash,
                },
            ),
        )
    } else {
        Err(StoreError::Corrupted)
    }
}

/// The metadata stored for block `hash`, if any.
pub open spec fn ext_result(m: KvMap, hash: H256) -> Result<Option<BlockExt>, StoreError> {
    if !m.contains_key((COLUMN_EXT, hash)) {
        Ok(None)
    } else if exists|e: BlockExt| encode_ext(e) == m[(COLUMN_EXT, hash)] {
        Ok(Some(choose|e: BlockExt| encode_ext(e) == m[(COLUMN_EXT, hash)]))
    } else {
        Err(StoreError::Corrupted)
    }
}

/// The output root stored for block `hash`: the first 32 bytes of the value.
pub open spec fn output_root_result(m: KvMap, hash: H256) -> Result<Option<H256>, StoreError> {
    if !m.contains_key((COLUMN_OUTPUT_ROOT, hash)) {
        Ok(None)
    } else if m[(COLUMN_OUTPUT_ROOT, hash)].len() < 32 {
        Err(StoreError::Corrupted)
    } else {
        Ok(Some(choose|r: H256| r.0@ == m[(COLUMN_OUTPUT_ROOT, hash)].subrange(0, 32)))
    }
}

/// The transactions that a stored body stands for: the records that the
/// address table `ab` locates in `blob`, each with the id at its position in
/// the id list `ib`.
pub open spec fn body_from_parts(ab: Seq<u8>, blob: Seq<u8>, ib: Seq<u8>) -> Result<
    Seq<(H256, Seq<u8>)>,
    StoreError,
> {
    let addrs = decode_addresses(ab);
    if ab.len() % 16 != 0 || ib.len() != 32 * addrs.len() {
        Err(StoreError::Corrupted)
    } else if exists|j: int| 0 <= j < addrs.len() && !fits(#[trigger] addrs[j], blob.len()) {
        Err(StoreError::Corrupted)
    } else {
        let ids = choose|hs: Seq<H256>| encode_hashes(hs) == ib;
        Ok(Seq::new(addrs.len(), |j: int| (ids[j], slice_at(blob, addrs[j]))))
    }
}

/// The transactions stored for block `hash`.
pub open spec fn body_result(m: KvMap, hash: H256) -> Result<Option<Seq<(H256, Seq<u8>)>>, StoreError> {
    if !m.contains_key((COLUMN_BLOCK_TRANSACTION_ADDRESSES, hash)) || !m.contains_key(
        (COLUMN_BLOCK_BODY, hash),
    ) || !m.contains_key((COLUMN_BLOCK_TRANSACTION_IDS, hash)) {
        Ok(None)
    } else {
        match body_from_parts(
            m[(COLUMN_BLOCK_TRANSACTION_ADDRESSES, hash)],
            m[(COLUMN_BLOCK_BODY, hash)],
            m[(COLUMN_BLOCK_TRANSACTION_IDS, hash)],
        ) {
            Err(e) => Err(e),
            Ok(t) => Ok(Some(t)),
        }
    }
}

/// The block stored under `hash`; a header without its companions is damage.
pub open spec fn block_result(m: KvMap, hash: H256) -> Result<Option<BlockView>, StoreError> {
    match header_result(m, hash) {
        Err(e) => Err(e),
        Ok(None) => Ok(None),
        Ok(Some(header)) => match body_result(m, hash) {
            Err(e) => Err(e),
            Ok(None) => Err(StoreError::Corrupted),
            Ok(Some(transactions)) => {
                if !m.contains_key((COLUMN_BLOCK_UNCLE, hash)) || !m.contains_key(
                    (COLUMN_BLOCK_PROPOSAL_IDS, hash),
                ) {
                    Err(StoreError::Corrupted)
                } else {
                    Ok(
                        Some(
                            BlockView {
                                header,
                                transactions,
                                uncles: m[(COLUMN_BLOCK_UNCLE, hash)],
                                proposals: m[(COLUMN_BLOCK_PROPOSAL_IDS, hash)],
                            },
                        ),
                    )
                }
            },
        },
    }
}

/// The ids of the transactions.
pub open spec fn ids_of(txs: Seq<(H256, Seq<u8>)>) -> Seq<H256> {
    txs.map_values(|t: (H256, Seq<u8>)| t.0)
}

/// The encoded transactions.
pub open spec fn datas_of(txs: Seq<(H256, Seq<u8>)>) -> Seq<Seq<u8>> {
    txs.map_values(|t: (H256, Seq<u8>)| t.1)
}

/// The writes that store a block under its hash.
pub open spec fn block_ops(b: BlockView) -> Seq<KvOp> {
    let h = b.header.hash;
    seq![
        (COLUMN_BLOCK_HEADER, h, encode_header(b.header.header)),
        (COLUMN_BLOCK_TRANSACTION_IDS, h, encode_hashes(ids_of(b.transactions))),
        (COLUMN_BLOCK_UNCLE, h, b.uncles),
        (COLUMN_BLOCK_BODY, h, packed(datas_of(b.transactions))),
        (COLUMN_BLOCK_PROPOSAL_IDS, h, b.proposals),
        (COLUMN_BLOCK_TRANSACTION_ADDRESSES, h, encode_addresses(addresses_of(datas_of(b.transactions)))),
    ]
}

/// Blocks, their metadata and output roots over a key-value store, and the
/// unspent-output states committed in its transaction-meta column, each under
/// the SHA3-256 digest of its stored form.
pub struct ChainKVStore {
    db: MemoryKV,
    /// the state at one committed root, kept to spare decoding it again
    cache: Option<(H256, UnspentIndex)>,
}

impl ChainKVStore {
    pub closed spec fn well_formed(&self) -> bool {
        &&& self.db.well_formed()
        &&& self.cache matches Some(c) ==> c.1.well_formed() && state_at(self.db@, c.0) == Some(c.1@)
    }

    /// The root whose state is cached, if any.
    pub closed spec fn cached_root(&self) -> Option<H256> {
        match self.cache {
            Some(c) => Some(c.0),
            None => None,
        }
    }

    /// Contents of the key-value store.
    pub closed spec fn db_view(&self) -> KvMap {
        self.db@
    }

    /// An empty store.
    pub fn new() -> (r: ChainKVStore)
        ensures
            r.well_formed(),
            r.db_view() == KvMap::empty(),
            r.cached_root() matches Some(c) && is_zero(c),
    {
        let z = H256::zero();
        assert(z.0@ =~= Seq::new(32, |i: int| 0u8));
        ChainKVStore { db: MemoryKV::new(), cache: Some((z, UnspentIndex::new())) }
    }

    /// The value under `key` in `col`.
    pub fn get(&self, col: Col, key: &H256) -> (r: Option<Vec<u8>>)
        requires
            self.well_formed(),
        ensures
            r is Some <==> self.db_view().contains_key((col, *key)),
            r matches Some(v) ==> v@ == self.db_view()[(col, *key)],
    {
        self.db.read(col, key)
    }

    /// The bytes `range` of the value under `key` in `col`; `None` when there
    /// is no value or the range reaches past its end.
    pub fn partial_get(&self, col: Col, key: &H256, range: &std::ops::Range<usize>) -> (r: Option<Vec<u8>>)
        requires
            self.well_formed(),
        ensures
            r is Some <==> self.db_view().contains_key((col, *key)) && range.start <= range.end
                <= self.db_view()[(col, *key)].len(),
            r matches Some(v) ==> v@ == self.db_view()[(col, *key)].subrange(
                range.start as int,
                range.end as int,
            ),
    {
        self.db.partial_read(col, key, range.start, range.end)
    }

    /// Fills a fresh batch with `f` and writes it at once; when `f` fails,
    /// nothing is written and its error is returned.
    pub fn save_with_batch<E, F: FnOnce(&ChainKVStore, &mut Batch) -> Result<(), E>>(&mut self, f: F) -> (r:
        Result<(), E>)
        requires
            old(self).well_formed(),
            forall|s: &ChainKVStore, b: &mut Batch| #[trigger] f.requires((s, b)),
        ensures
            final(self).well_formed(),
            r is Err ==> final(self).db_view() == old(self).db_view(),
            exists|b: &mut Batch|
                {
                    &&& mut_ref_current(b)@ == Seq::<KvOp>::empty()
                    &&& f.ensures((&*old(self), b), r)
                    &&& (r is Ok ==> final(self).db_view() == apply_ops(
                        old(self).db_view(),
                        mut_ref_future(b)@,
                    ))
                },
    {
        let mut batch = Batch::new();
        let res = f(&*self, &mut batch);
        if res.is_err() {
            return res;
        }
        self.write_batch(batch);
        res
    }

    /// Writes every entry of `batch` at once.
    pub fn write_batch(&mut self, batch: Batch)
        requires
            old(self).well_formed(),
        ensures
            final(self).well_formed(),
            final(self).db_view() == apply_ops(old(self).db_view(), batch@),
    {
        let stale = match &self.cache {
            Some(c) => batch.writes_key(COLUMN_TRANSACTION_META, &c.0),
            None => false,
        };
        let ghost m = self.db@;
        let ghost ops = batch@;
        self.db.write(batch);
        if stale {
            self.cache = None;
        } else {
            proof {
                if self.cache is Some {
                    let r = self.cache->Some_0.0;
                    lemma_apply_ops_other(m, ops, (COLUMN_TRANSACTION_META, r));
                    assert(state_at(self.db@, r) == state_at(m, r));
                }
            }
        }
    }

    /// Adds to `batch` the writes that store block `b`.
    pub fn insert_block(&self, batch: &mut Batch, b: &Block)
        requires
            packed(datas_of(b@.transactions)).len() <= usize::MAX,
        ensures
            final(batch)@ == old(batch)@ + block_ops(b@),
    {
        let hash = b.header.hash;
        let txs = &b.commit_transactions;
        let ghost tv = b@.transactions;
        let mut ids: Vec<u8> = Vec::new();
        let mut datas: Vec<Vec<u8>> = Vec::new();
        let mut k: usize = 0;
        while k < txs.len()
            invariant
                k <= txs@.len(),
                tv == transactions_view(txs@),
                ids@ == encode_hashes(ids_of(tv).take(k as int)),
                views(datas@) == datas_of(tv).take(k as int),
            decreases txs@.len() - k,
        {
            push_hash(&mut ids, &txs[k].hash);
            let d = crate::codec::read_bytes(txs[k].data.as_slice(), 0, txs[k].data.len());
            assert(d@ =~= txs@[k as int].data@);
            let ghost before = datas@;
            datas.push(d);
            assert(views(datas@) =~= views(before).push(tv[k as int].1));
            assert(datas_of(tv).take(k + 1 as int) =~= datas_of(tv).take(k as int).push(tv[k as int].1));
            k = k + 1;
            assert(ids_of(tv).take(k as int).drop_last() =~= ids_of(tv).take(k - 1 as int));
        }
        assert(ids_of(tv).take(k as int) =~= ids_of(tv));
        assert(datas_of(tv).take(k as int) =~= datas_of(tv));
        let mut header_bytes: Vec<u8> = Vec::new();
        push_hash(&mut header_bytes, &b.header.header.parent_hash);
        push_u64(&mut header_bytes, b.header.header.number);
        push_u64(&mut header_bytes, b.header.header.timestamp);
        push_hash(&mut header_bytes, &b.header.header.difficulty);
        let (body, addresses) = serialize(&datas);
        let address_bytes = encode_address_table(&addresses);
        let uncles = crate::codec::read_bytes(b.uncles.as_slice(), 0, b.uncles.len());
        let proposals = crate::codec::read_bytes(
            b.proposal_transactions.as_slice(),
            0,
            b.proposal_transactions.len(),
        );
        batch.insert(COLUMN_BLOCK_HEADER, hash, header_bytes);
        batch.insert(COLUMN_BLOCK_TRANSACTION_IDS, hash, ids);
        batch.insert(COLUMN_BLOCK_UNCLE, hash, uncles);
        batch.insert(COLUMN_BLOCK_BODY, hash, body);
        batch.insert(COLUMN_BLOCK_PROPOSAL_IDS, hash, proposals);
        batch.insert(COLUMN_BLOCK_TRANSACTION_ADDRESSES, hash, address_bytes);
        assert(header_bytes@ =~= encode_header(b.header.header));
        assert(uncles@ =~= b.uncles@);
        assert(proposals@ =~= b.proposal_transactions@);
        assert(batch@ =~= old(batch)@ + block_ops(b@));
    }

    /// Adds to `batch` the write of the metadata of block `block_hash`.
    pub fn insert_block_ext(&self, batch: &mut Batch, block_hash: &H256, ext: &BlockExt)
        ensures
            final(batch)@ == old(batch)@.push((COLUMN_EXT, *block_hash, encode_ext(*ext))),
    {
        let mut v: Vec<u8> = Vec::new();
        push_u64(&mut v, ext.received_at);
        push_hash(&mut v, &ext.total_difficulty);
        push_u64(&mut v, ext.total_uncles_count);
        assert(v@ =~= encode_ext(*ext));
        batch.insert(COLUMN_EXT, *block_hash, v);
    }

    /// Adds to `batch` the write of output root `r` for block `block_hash`.
    pub fn insert_output_root(&self, batch: &mut Batch, block_hash: H256, r: H256)
        ensures
            final(batch)@ == old(batch)@.push((COLUMN_OUTPUT_ROOT, block_hash, r.0@)),
    {
        batch.insert(COLUMN_OUTPUT_ROOT, block_hash, r.to_vec());
    }
}

/// The header whose stored form is `b`, if `b` is one.
pub fn decode_header(b: &[u8]) -> (r: Option<Header>)
    ensures
        r is Some <==> exists|h: Header| encode_header(h) == b@,
        r matches Some(h) ==> encode_header(h) == b@,
{
    proof {
        vstd::bytes::lemma_auto_spec_u64_to_from_le_bytes();
    }
    if b.len() != 80 {
        assert forall|h: Header| encode_header(h) != b@ by {
            assert(encode_header(h).len() == 80);
        }
        return None;
    }
    let parent_hash = read_hash(b, 0);
    let number = read_u64(b, 32);
    let timestamp = read_u64(b, 40);
    let difficulty = read_hash(b, 48);
    let h = Header { parent_hash, number, timestamp, difficulty };
    assert(encode_header(h) =~= b@);
    Some(h)
}

/// The block metadata whose stored form is `b`, if `b` is one.
pub fn decode_ext(b: &[u8]) -> (r: Option<BlockExt>)
    ensures
        r is Some <==> exists|e: BlockExt| encode_ext(e) == b@,
        r matches Some(e) ==> encode_ext(e) == b@,
{
    proof {
        vstd::bytes::lemma_auto_spec_u64_to_from_le_bytes();
    }
    if b.len() != 48 {
        assert forall|e: BlockExt| encode_ext(e) != b@ by {
            assert(encode_ext(e).len() == 48);
        }
        return None;
    }
    let received_at = read_u64(b, 0);
    let total_difficulty = read_hash(b, 8);
    let total_uncles_count = read_u64(b, 40);
    let e = BlockExt { received_at, total_difficulty, total_uncles_count };
    assert(encode_ext(e) =~= b@);
    Some(e)
}

/// The hashes that `b` holds, 32 bytes each, if its length is a multiple of 32.
pub fn decode_hashes(b: &[u8]) -> (r: Option<Vec<H256>>)
    ensures
        r is Some <==> b@.len() % 32 == 0,
        r matches Some(v) ==> encode_hashes(v@) == b@ && v@.len() == b@.len() / 32,
{
    if b.len() % 32 != 0 {
        return None;
    }
    let bl = b.len();
    let n = bl / 32;
    let mut out: Vec<H256> = Vec::new();
    let mut k: usize = 0;
    while k < n
        invariant
            k <= n,
            bl == b@.len(),
            n == b@.len() / 32,
            b@.len() % 32 == 0,
            out@.len() == k,
            encode_hashes(out@) == b@.subrange(0, 32 * k),
        decreases n - k,
    {
        let h = read_hash(b, 32 * k);
        let ghost before = out@;
        out.push(h);
        assert(out@.drop_last() =~= before);
        assert(b@.subrange(0, 32 * (k + 1)) =~= b@.subrange(0, 32 * k) + b@.subrange(32 * k, 32 * k + 32));
        k = k + 1;
    }
    assert(b@.subrange(0, 32 * n) =~= b@);
    Some(out)
}

/// The address table whose stored form is `b`, if its length is a multiple of 16.
pub fn decode_address_table(b: &[u8]) -> (r: Option<Vec<Address>>)
    ensures
        r is Some <==> b@.len() % 16 == 0,
        r matches Some(v) ==> v@ == decode_addresses(b@),
{
    if b.len() % 16 != 0 {
        return None;
    }
    proof {
        vstd::bytes::lemma_auto_spec_u64_to_from_le_bytes();
    }
    let bl = b.len();
    let n = bl / 16;
    let mut out: Vec<Address> = Vec::new();
    let mut k: usize = 0;
    while k < n
        invariant
            k <= n,
            bl == b@.len(),
            bl % 16 == 0,
            n == bl / 16,
            out@ == decode_addresses(b@).take(k as int),
        decreases n - k,
    {
        let offset = read_u64(b, 16 * k);
        let length = read_u64(b, 16 * k + 8);
        proof {
            vstd::bytes::lemma_auto_spec_u64_to_from_le_bytes();
            assert(vstd::bytes::spec_u64_from_le_bytes(vstd::bytes::spec_u64_to_le_bytes(offset)) == offset);
            assert(vstd::bytes::spec_u64_from_le_bytes(vstd::bytes::spec_u64_to_le_bytes(length)) == length);
        }
        let a = Address { offset: #[verifier::truncate] (offset as usize), length: #[verifier::truncate] (length as usize) };
        out.push(a);
        k = k + 1;
        assert(out@ =~= decode_addresses(b@).take(k as int));
    }
    assert(decode_addresses(b@).take(n as int) =~= decode_addresses(b@));
    Some(out)
}

impl ChainKVStore {
    /// The header of block `h`; `Err` when its stored form is damaged.
    pub fn get_header(&self, h: &H256) -> (r: Result<Option<IndexedHeader>, StoreError>)
        requires
            self.well_formed(),
        ensures
            r == header_result(self.db_view(), *h),
    {
        match self.db.read(COLUMN_BLOCK_HEADER, h) {
            None => Ok(None),
            Some(raw) => match decode_header(raw.as_slice()) {
                None => Err(StoreError::Corrupted),
                Some(header) => {
                    proof {
                        let c = choose|x: Header| encode_header(x) == raw@;
                        lemma_header_injective(c, header);
                    }
                    Ok(Some(IndexedHeader { header, hash: *h }))
                },
            },
        }
    }

    /// The metadata of block `block_hash`; `Err` when its stored form is damaged.
    pub fn get_block_ext(&self, block_hash: &H256) -> (r: Result<Option<BlockExt>, StoreError>)
        requires
            self.well_formed(),
        ensures
            r == ext_result(self.db_view(), *block_hash),
    {
        match self.db.read(COLUMN_EXT, block_hash) {
            None => Ok(None),
            Some(raw) => match decode_ext(raw.as_slice()) {
                None => Err(StoreError::Corrupted),
                Some(ext) => {
                    proof {
                        let c = choose|x: BlockExt| encode_ext(x) == raw@;
                        lemma_ext_injective(c, ext);
                    }
                    Ok(Some(ext))
                },
            },
        }
    }

    /// The output root of block `block_hash`; `Err` when fewer than 32 bytes are stored.
    pub fn get_output_root(&self, block_hash: &H256) -> (r: Result<Option<H256>, StoreError>)
        requires
            self.well_formed(),
        ensures
            r == output_root_result(self.db_view(), *block_hash),
            r matches Ok(Some(x)) ==> x.0@ == self.db_view()[(COLUMN_OUTPUT_ROOT, *block_hash)].subrange(0, 32),
    {
        match self.db.read(COLUMN_OUTPUT_ROOT, block_hash) {
            None => Ok(None),
            Some(raw) => {
                if raw.len() < 32 {
                    return Err(StoreError::Corrupted);
                }
                let root = read_hash(raw.as_slice(), 0);
                proof {
                    let c = choose|x: H256| x.0@ == raw@.subrange(0, 32);
                    crate::hash::lemma_h256_eq(c, root);
                }
                Ok(Some(root))
            },
        }
    }

    /// The encoded uncle blocks of block `h`.
    pub fn get_block_uncles(&self, h: &H256) -> (r: Option<Vec<u8>>)
        requires
            self.well_formed(),
        ensures
            r is Some <==> self.db_view().contains_key((COLUMN_BLOCK_UNCLE, *h)),
            r matches Some(v) ==> v@ == self.db_view()[(COLUMN_BLOCK_UNCLE, *h)],
    {
        self.db.read(COLUMN_BLOCK_UNCLE, h)
    }

    /// The encoded proposal short ids of block `h`.
    pub fn get_block_proposal_txs_ids(&self, h: &H256) -> (r: Option<Vec<u8>>)
        requires
            self.well_formed(),
        ensures
            r is Some <==> self.db_view().contains_key((COLUMN_BLOCK_PROPOSAL_IDS, *h)),
            r matches Some(v) ==> v@ == self.db_view()[(COLUMN_BLOCK_PROPOSAL_IDS, *h)],
    {
        self.db.read(COLUMN_BLOCK_PROPOSAL_IDS, h)
    }

    /// The transactions of block `h`: the address table is decoded first, the
    /// body is cut at those addresses, and each record takes the id at its position.
    pub fn get_block_body(&self, h: &H256) -> (r: Result<Option<Vec<Transaction>>, StoreError>)
        requires
            self.well_formed(),
        ensures
            match (r, body_result(self.db_view(), *h)) {
                (Ok(None), Ok(None)) => true,
                (Ok(Some(v)), Ok(Some(s))) => transactions_view(v@) == s,
                (Err(e), Err(f)) => e == f,
                _ => false,
            },
    {
        let serialized_addresses = match self.db.read(COLUMN_BLOCK_TRANSACTION_ADDRESSES, h) {
            None => return Ok(None),
            Some(v) => v,
        };
        let serialized_body = match self.db.read(COLUMN_BLOCK_BODY, h) {
            None => return Ok(None),
            Some(v) => v,
        };
        let serialized_ids = match self.db.read(COLUMN_BLOCK_TRANSACTION_IDS, h) {
            None => return Ok(None),
            Some(v) => v,
        };
        match decode_body(serialized_addresses.as_slice(), serialized_body.as_slice(), serialized_ids.as_slice()) {
            Err(e) => Err(e),
            Ok(v) => Ok(Some(v)),
        }
    }

    /// Block `h`; `Err` when its stored form is damaged or a part of it is
    /// missing while its header is stored.
    pub fn get_block(&self, h: &H256) -> (r: Result<Option<Block>, StoreError>)
        requires
            self.well_formed(),
        ensures
            match (r, block_result(self.db_view(), *h)) {
                (Ok(None), Ok(None)) => true,
                (Ok(Some(b)), Ok(Some(s))) => b@ == s,
                (Err(e), Err(f)) => e == f,
                _ => false,
            },
    {
        let header = match self.get_header(h) {
            Err(e) => return Err(e),
            Ok(None) => return Ok(None),
            Ok(Some(x)) => x,
        };
        let commit_transactions = match self.get_block_body(h) {
            Err(e) => return Err(e),
            Ok(None) => return Err(StoreError::Corrupted),
            Ok(Some(v)) => v,
        };
        let uncles = match self.get_block_uncles(h) {
            None => return Err(StoreError::Corrupted),
            Some(v) => v,
        };
        let proposal_transactions = match self.get_block_proposal_txs_ids(h) {
            None => return Err(StoreError::Corrupted),
            Some(v) => v,
        };
        Ok(Some(Block { header, commit_transactions, uncles, proposal_transactions }))
    }
}

/// A block written by `insert_block` and saved is read back by `get_block` as it was.
pub proof fn lemma_block_round_trip(m: KvMap, b: BlockView)
    requires
        packed(datas_of(b.transactions)).len() <= usize::MAX,
    ensures
        block_result(apply_ops(m, block_ops(b)), b.header.hash) == Ok::<Option<BlockView>, StoreError>(
            Some(b),
        ),
{
    let h = b.header.hash;
    let ops = block_ops(b);
    let datas = datas_of(b.transactions);
    let ids = ids_of(b.transactions);
    let addrs = addresses_of(datas);
    let blob = packed(datas);
    let m2 = apply_ops(m, ops);
    assert(m2 == m.insert((COLUMN_BLOCK_HEADER, h), encode_header(b.header.header)).insert(
        (COLUMN_BLOCK_TRANSACTION_IDS, h),
        encode_hashes(ids),
    ).insert((COLUMN_BLOCK_UNCLE, h), b.uncles).insert((COLUMN_BLOCK_BODY, h), blob).insert(
        (COLUMN_BLOCK_PROPOSAL_IDS, h),
        b.proposals,
    ).insert((COLUMN_BLOCK_TRANSACTION_ADDRESSES, h), encode_addresses(addrs))) by {
        reveal_with_fuel(apply_ops, 7);
    }
    let c = choose|x: Header| encode_header(x) == m2[(COLUMN_BLOCK_HEADER, h)];
    assert(encode_header(b.header.header) == m2[(COLUMN_BLOCK_HEADER, h)]);
    lemma_header_injective(c, b.header.header);
    assert(header_result(m2, h) == Ok::<Option<IndexedHeader>, StoreError>(Some(b.header)));
    crate::block::lemma_addresses_round_trip(addrs);
    crate::block::lemma_hashes_len(ids);
    assert(decode_addresses(m2[(COLUMN_BLOCK_TRANSACTION_ADDRESSES, h)]) == addrs);
    assert forall|j: int| 0 <= j < addrs.len() implies fits(#[trigger] addrs[j], blob.len())
        && slice_at(blob, addrs[j]) == datas[j] by {
        crate::flat::lemma_flat_round_trip(datas, j);
    }
    let spec_ids = choose|hs: Seq<H256>| encode_hashes(hs) == m2[(COLUMN_BLOCK_TRANSACTION_IDS, h)];
    assert(encode_hashes(ids) == m2[(COLUMN_BLOCK_TRANSACTION_IDS, h)]);
    lemma_hashes_injective(spec_ids, ids);
    let got = Seq::new(addrs.len(), |j: int| (spec_ids[j], slice_at(blob, addrs[j])));
    assert(got =~= b.transactions);
    assert(body_result(m2, h) == Ok::<Option<Seq<(H256, Seq<u8>)>>, StoreError>(Some(got)));
}

/// Block metadata written by `insert_block_ext` and saved is read back by `get_block_ext`.
pub proof fn lemma_block_ext_round_trip(m: KvMap, hash: H256, ext: BlockExt)
    ensures
        ext_result(apply_ops(m, seq![(COLUMN_EXT, hash, encode_ext(ext))]), hash) == Ok::<
            Option<BlockExt>,
            StoreError,
        >(Some(ext)),
{
    let m2 = apply_ops(m, seq![(COLUMN_EXT, hash, encode_ext(ext))]);
    assert(m2 == m.insert((COLUMN_EXT, hash), encode_ext(ext))) by {
        reveal_with_fuel(apply_ops, 2);
    }
    let c = choose|x: BlockExt| encode_ext(x) == m2[(COLUMN_EXT, hash)];
    assert(encode_ext(ext) == m2[(COLUMN_EXT, hash)]);
    lemma_ext_injective(c, ext);
}

/// An output root written by `insert_output_root` and saved is read back by `get_output_root`.
pub proof fn lemma_output_root_round_trip(m: KvMap, block_hash: H256, root: H256)
    ensures
        output_root_result(apply_ops(m, seq![(COLUMN_OUTPUT_ROOT, block_hash, root.0@)]), block_hash)
            == Ok::<Option<H256>, StoreError>(Some(root)),
{
    let m2 = apply_ops(m, seq![(COLUMN_OUTPUT_ROOT, block_hash, root.0@)]);
    assert(m2 == m.insert((COLUMN_OUTPUT_ROOT, block_hash), root.0@)) by {
        reveal_with_fuel(apply_ops, 2);
    }
    assert(root.0@.len() == 32);
    assert(root.0@.subrange(0, 32) =~= root.0@);
    let c = choose|x: H256| x.0@ == m2[(COLUMN_OUTPUT_ROOT, block_hash)].subrange(0, 32);
    crate::hash::lemma_h256_eq(c, root);
}

impl ChainKVStore {
    fn zero_root(h: &H256) -> (r: bool)
        ensures
            r == is_zero(*h),
    {
        let z = H256::zero();
        assert(z.0@ =~= Seq::new(32, |i: int| 0u8));
        *h == z
    }

    /// The unspent-output state committed under `root`.
    fn load_state(&self, root: &H256) -> (r: Option<UnspentIndex>)
        requires
            self.well_formed(),
        ensures
            r is None <==> state_at(self.db_view(), *root) is None,
            r matches Some(t) ==> t.well_formed() && state_at(self.db_view(), *root) == Some(t@),
    {
        if let Some(c) = &self.cache {
            if c.0 == *root {
                proof {
                    crate::hash::lemma_h256_eq(c.0, *root);
                }
                return Some(c.1.duplicate());
            }
        }
        if let Some(raw) = self.db.read(COLUMN_TRANSACTION_META, root) {
            if let Some(t) = UnspentIndex::decode(raw.as_slice()) {
                proof {
                    let s = choose|s: UnspentMap| encodes_state(raw@, s);
                    lemma_encodes_state_unique(raw@, s, t@);
                }
                return Some(t);
            }
        }
        if Self::zero_root(root) {
            Some(UnspentIndex::new())
        } else {
            None
        }
    }

    /// The outputs of transaction `key` in the state committed under `root`;
    /// `Err(UnknownRoot)` when no state is committed there.
    pub fn get_transaction_meta(&self, root: H256, key: H256) -> (r: Result<
        Option<TransactionMeta>,
        StoreError,
    >)
        requires
            self.well_formed(),
        ensures
            state_at(self.db_view(), root) is None ==> r == Err::<Option<TransactionMeta>, StoreError>(
                StoreError::UnknownRoot,
            ),
            state_at(self.db_view(), root) matches Some(s) ==> r matches Ok(o) && (o is Some
                <==> s.contains_key(key)) && (o matches Some(m) ==> m@ == s[key]),
    {
        match self.load_state(&root) {
            None => Err(StoreError::UnknownRoot),
            Some(t) => Ok(t.get(&key)),
        }
    }

    /// Applies the spends and creations of `cells`, in order, to the state
    /// committed under `root`, and adds the stored form of the result to
    /// `batch` under its SHA3-256 digest, which is returned as the new root.
    /// `None`, with `batch` unchanged, when no state is committed under
    /// `root`, an input is unknown or spent already, or a new transaction id
    /// is bound already.
    pub fn update_transaction_meta(
        &mut self,
        batch: &mut Batch,
        root: H256,
        cells: Vec<(Vec<OutPoint>, Vec<OutPoint>)>,
    ) -> (r: Option<H256>)
        requires
            old(self).well_formed(),
        ensures
            final(self).well_formed(),
            final(self).db_view() == old(self).db_view(),
            final(self).cached_root() == old(self).cached_root(),
            state_at(old(self).db_view(), root) is None ==> r is None,
            state_at(old(self).db_view(), root) matches Some(s) ==> (r is None <==> apply_cells(
                s,
                cells_view(cells@),
            ) is None),
            r is None ==> final(batch)@ == old(batch)@,
            r matches Some(r2) ==> exists|b: Seq<u8>|
                {
                    &&& final(batch)@ == old(batch)@.push((COLUMN_TRANSACTION_META, r2, b))
                    &&& r2.0@ == sha3_256_of(b)
                    &&& encodes_sorted(
                        b,
                        apply_cells(state_at(old(self).db_view(), root)->Some_0, cells_view(cells@))->Some_0,
                    )
                    &&& encodes_state(
                        b,
                        apply_cells(state_at(old(self).db_view(), root)->Some_0, cells_view(cells@))->Some_0,
                    )
                },
    {
        let mut tree = match self.load_state(&root) {
            None => return None,
            Some(t) => t,
        };
        if !tree.apply(&cells) {
            return None;
        }
        let bytes = tree.encode();
        let r2 = sha3_256(bytes.as_slice());
        batch.insert(COLUMN_TRANSACTION_META, r2, bytes);
        Some(r2)
    }

    /// Caches the state committed under `r`, if there is one.
    pub fn rebuild_tree(&mut self, r: H256)
        requires
            old(self).well_formed(),
        ensures
            final(self).well_formed(),
            final(self).db_view() == old(self).db_view(),
            state_at(old(self).db_view(), r) is Some ==> final(self).cached_root() == Some(r),
    {
        if let Some(t) = self.load_state(&r) {
            self.cache = Some((r, t));
        }
    }

    /// Walks the headers from `head` back to the genesis block.
    pub fn headers_iter(&self, head: IndexedHeader) -> (r: ChainStoreHeaderIterator<'_>)
        ensures
            r.store == self,
            r.head == Some(head),
    {
        ChainStoreHeaderIterator { store: self, head: Some(head) }
    }
}

/// The parent of `h` as stored: none after the genesis block or when it is
/// missing, an error when its stored form is damaged.
pub open spec fn parent_result(m: KvMap, h: IndexedHeader) -> Result<Option<IndexedHeader>, StoreError> {
    if h.header.number > 0 {
        header_result(m, h.header.parent_hash)
    } else {
        Ok(None)
    }
}

/// The header that follows `h` in a walk to the genesis block; none where
/// the walk stops.
pub open spec fn next_head(m: KvMap, h: IndexedHeader) -> Option<IndexedHeader> {
    match parent_result(m, h) {
        Ok(p) => p,
        Err(_) => None,
    }
}

/// The headers that `k` steps of a walk from `head` yield.
pub open spec fn walk(m: KvMap, head: Option<IndexedHeader>, k: nat) -> Seq<IndexedHeader>
    decreases k,
{
    match head {
        None => Seq::empty(),
        Some(h) => if k == 0 {
            Seq::empty()
        } else {
            seq![h] + walk(m, next_head(m, h), (k - 1) as nat)
        },
    }
}

/// Every ancestor of `h` down to the genesis block is stored, each one height below its child.
pub open spec fn linked(m: KvMap, h: IndexedHeader) -> bool
    decreases h.header.number,
{
    h.header.number == 0 || match header_result(m, h.header.parent_hash) {
        Ok(Some(p)) => p.header.number + 1 == h.header.number && linked(m, p),
        _ => false,
    }
}

/// From a header whose ancestors are all stored, the walk yields `number + 1`
/// headers, ends at height 0, and yields nothing more after that.
pub proof fn lemma_headers_walk(m: KvMap, h: IndexedHeader)
    requires
        linked(m, h),
    ensures
        walk(m, Some(h), (h.header.number + 1) as nat).len() == h.header.number + 1,
        walk(m, Some(h), (h.header.number + 1) as nat).last().header.number == 0,
        walk(m, Some(h), (h.header.number + 2) as nat) == walk(m, Some(h), (h.header.number + 1) as nat),
    decreases h.header.number,
{
    let n = h.header.number;
    if n == 0 {
        assert(walk(m, None, 1) == Seq::<IndexedHeader>::empty());
        assert(walk(m, None, 0) == Seq::<IndexedHeader>::empty());
        assert(walk(m, Some(h), 1) =~= seq![h]);
        assert(walk(m, Some(h), 2) =~= seq![h]);
    } else {
        let p = next_head(m, h)->Some_0;
        lemma_headers_walk(m, p);
        assert(p.header.number + 1 == n);
        assert(walk(m, Some(h), (n + 1) as nat) == seq![h] + walk(m, Some(p), (p.header.number + 1) as nat));
        assert(walk(m, Some(h), (n + 2) as nat) == seq![h] + walk(m, Some(p), (p.header.number + 2) as nat));
    }
}

/// A walk over stored headers towards the genesis block.
pub struct ChainStoreHeaderIterator<'a> {
    pub store: &'a ChainKVStore,
    pub head: Option<IndexedHeader>,
}

impl<'a> ChainStoreHeaderIterator<'a> {
    /// The current header, moving on to its parent; `Err`, ending the walk,
    /// when the parent's stored form is damaged.
    pub fn next(&mut self) -> (r: Result<Option<IndexedHeader>, StoreError>)
        requires
            old(self).store.well_formed(),
        ensures
            final(self).store == old(self).store,
            final(self).head == match old(self).head {
                Some(h) => next_head(old(self).store.db_view(), h),
                None => None,
            },
            r == match old(self).head {
                None => Ok(None),
                Some(h) => match parent_result(old(self).store.db_view(), h) {
                    Err(e) => Err(e),
                    Ok(_) => Ok(Some(h)),
                },
            },
    {
        match self.head {
            None => Ok(None),
            Some(h) => {
                if h.header.number > 0 {
                    match self.store.get_header(&h.header.parent_hash) {
                        Ok(p) => {
                            self.head = p;
                            Ok(Some(h))
                        },
                        Err(e) => {
                            self.head = None;
                            Err(e)
                        },
                    }
                } else {
                    self.head = None;
                    Ok(Some(h))
                }
            },
        }
    }

    /// Bounds on the number of headers left: at least one and at most
    /// `number + 1` while a header is at hand, none after.
    pub fn size_hint(&self) -> (r: (usize, Option<usize>))
        ensures
            r == match self.head {
                Some(h) => (1usize, if h.header.number < usize::MAX {
                    Some((h.header.number + 1) as usize)
                } else {
                    None
                }),
                None => (0usize, Some(0usize)),
            },
    {
        match self.head {
            Some(h) => {
                if (h.header.number as u128) < (usize::MAX as u128) {
                    (1, Some(h.header.number as usize + 1))
                } else {
                    (1, None)
                }
            },
            None => (0, Some(0)),
        }
    }
}

/// A state added to a batch by `update_transaction_meta` and saved is the state
/// read at the returned root.
pub proof fn lemma_committed_state_readable(m: KvMap, ops: Seq<KvOp>, root: H256, b: Seq<u8>, s: UnspentMap)
    requires
        encodes_state(b, s),
    ensures
        state_at(apply_ops(m, ops.push((COLUMN_TRANSACTION_META, root, b))), root) == Some(s),
{
    let m2 = apply_ops(m, ops.push((COLUMN_TRANSACTION_META, root, b)));
    assert(ops.push((COLUMN_TRANSACTION_META, root, b)).drop_last() =~= ops);
    assert(m2[(COLUMN_TRANSACTION_META, root)] == b);
    let t = choose|t: UnspentMap| encodes_state(b, t);
    lemma_encodes_state_unique(b, s, t);
}

/// The transactions that a stored body stands for: the address table is
/// decoded first, `body` is cut at those addresses, and each record takes the
/// id at its position in the id list.
pub fn decode_body(address_bytes: &[u8], body: &[u8], id_bytes: &[u8]) -> (r: Result<Vec<Transaction>, StoreError>)
    ensures
        match (r, body_from_parts(address_bytes@, body@, id_bytes@)) {
            (Ok(v), Ok(s)) => transactions_view(v@) == s,
            (Err(e), Err(f)) => e == f,
            _ => false,
        },
{
    let addresses = match decode_address_table(address_bytes) {
        None => return Err(StoreError::Corrupted),
        Some(a) => a,
    };
    if id_bytes.len() / 32 != addresses.len() || id_bytes.len() % 32 != 0 {
        return Err(StoreError::Corrupted);
    }
    let ids = match decode_hashes(id_bytes) {
        None => return Err(StoreError::Corrupted),
        Some(v) => v,
    };
    let records = match crate::flat::deserialize(body, addresses.as_slice()) {
        None => return Err(StoreError::Corrupted),
        Some(v) => v,
    };
    let ghost spec_ids = choose|hs: Seq<H256>| encode_hashes(hs) == id_bytes@;
    proof {
        lemma_hashes_injective(spec_ids, ids@);
    }
    let ghost expected = Seq::new(
        addresses@.len(),
        |j: int| (spec_ids[j], slice_at(body@, addresses@[j])),
    );
    assert(views(records@).len() == records@.len());
    let mut txs: Vec<Transaction> = Vec::new();
    let mut k: usize = 0;
    while k < records.len()
        invariant
            k <= records@.len(),
            records@.len() == addresses@.len(),
            ids@.len() == addresses@.len(),
            ids@ == spec_ids,
            expected == Seq::new(
                addresses@.len(),
                |j: int| (spec_ids[j], slice_at(body@, addresses@[j])),
            ),
            views(records@) == addresses@.map_values(|a: Address| slice_at(body@, a)),
            transactions_view(txs@) == expected.take(k as int),
        decreases records@.len() - k,
    {
        let data = crate::codec::read_bytes(records[k].as_slice(), 0, records[k].len());
        assert(data@ =~= records@[k as int]@);
        assert(views(records@)[k as int] == records@[k as int]@);
        assert(expected[k as int] == (ids@[k as int], data@));
        let ghost before = txs@;
        txs.push(Transaction { hash: ids[k], data });
        assert(transactions_view(txs@) =~= transactions_view(before).push(expected[k as int]));
        k = k + 1;
        assert(transactions_view(txs@) =~= expected.take(k as int));
    }
    assert(expected.take(k as int) =~= expected);
    Ok(txs)
}

/// Two updates that reach the same state return the same root: the stored
/// form of a state is its canonical one.
pub proof fn lemma_same_state_same_root(b1: Seq<u8>, b2: Seq<u8>, s: UnspentMap)
    requires
        encodes_sorted(b1, s),
        encodes_sorted(b2, s),
    ensures
        sha3_256_of(b1) == sha3_256_of(b2),
{
    lemma_canonical_form_unique(b1, b2, s);
}

/// Applying `c1` then `c2` reaches the state that applying `c1 + c2` reaches,
/// or fails where that fails; with `lemma_same_state_same_root`, the updates
/// give the same root either way.
pub proof fn lemma_split_changes(
    s: UnspentMap,
    c1: Seq<(Seq<OutPoint>, Seq<OutPoint>)>,
    c2: Seq<(Seq<OutPoint>, Seq<OutPoint>)>,
)
    ensures
        apply_cells(s, c1 + c2) == match apply_cells(s, c1) {
            None => None,
            Some(s1) => apply_cells(s1, c2),
        },
    decreases c1.len(),
{
    if c1.len() > 0 {
        assert((c1 + c2).drop_first() =~= c1.drop_first() + c2);
        assert((c1 + c2)[0] == c1[0]);
        match crate::unspent::apply_cell(s, c1[0]) {
            None => {},
            Some(s1) => {
                lemma_split_changes(s1, c1.drop_first(), c2);
            },
        }
    } else {
        assert(c1 + c2 =~= c2);
    }
}

/// The stored form of an address table.
fn encode_address_table(addresses: &Vec<Address>) -> (r: Vec<u8>)
    ensures
        r@ == encode_addresses(addresses@),
{
    let mut out: Vec<u8> = Vec::new();
    let mut k: usize = 0;
    while k < addresses.len()
        invariant
            k <= addresses@.len(),
            out@ == encode_addresses(addresses@.take(k as int)),
        decreases addresses@.len() - k,
    {
        let a = addresses[k];
        push_u64(&mut out, a.offset as u64);
        push_u64(&mut out, a.length as u64);
        k = k + 1;
        assert(addresses@.take(k as int).drop_last() =~= addresses@.take(k - 1 as int));
    }
    assert(addresses@.take(k as int) =~= addresses@);
    out
}

} // verus!
