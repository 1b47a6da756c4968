use crate::codec::le_u64;
use crate::flat::Address;
use crate::hash::H256;
use vstd::prelude::*;

verus! {

/// The fields of a block header.
#[derive(Clone, Copy, Debug, PartialEq, Eq)]
pub struct Header {
    pub parent_hash: H256,
    /// height; the genesis block has 0
    pub number: u64,
    pub timestamp: u64,
    /// the 256-bit difficulty as 32 bytes
    pub difficulty: H256,
}

/// A header with its hash.
#[derive(Clone, Copy, Debug, PartialEq, Eq)]
pub struct IndexedHeader {
    pub header: Header,
    pub hash: H256,
}

/// A transaction: its encoded form with its hash.
#[derive(Clone, Debug, PartialEq, Eq)]
pub struct Transaction {
    pub hash: H256,
    pub data: Vec<u8>,
}

/// A block: header, committed transactions, and the encoded lists of its
/// uncle blocks and of its proposal short ids.
#[derive(Clone, Debug, PartialEq, Eq)]
pub struct Block {
    pub header: IndexedHeader,
    pub commit_transactions: Vec<Transaction>,
    pub uncles: Vec<u8>,
    pub proposal_transactions: Vec<u8>,
}

/// Metadata kept for each block.
#[derive(Clone, Copy, Debug, PartialEq, Eq)]
pub struct BlockExt {
    pub received_at: u64,
    /// the 256-bit total difficulty as 32 bytes
    pub total_difficulty: H256,
    pub total_uncles_count: u64,
}

/// What a block holds, as values.
pub struct BlockView {
    pub header: IndexedHeader,
    pub transactions: Seq<(H256, Seq<u8>)>,
    pub uncles: Seq<u8>,
    pub proposals: Seq<u8>,
}

pub open spec fn transactions_view(txs: Seq<Transaction>) -> Seq<(H256, Seq<u8>)> {
    txs.map_values(|t: Transaction| (t.hash, t.data@))
}

impl View for Block {
    type V = BlockView;

    open spec fn view(&self) -> BlockView {
        BlockView {
            header: self.header,
            transactions: transactions_view(self.commit_transactions@),
            uncles: self.uncles@,
            proposals: self.proposal_transactions@,
        }
    }
}

/// Stored form of a header: parent hash, number, timestamp, difficulty.
pub open spec fn encode_header(h: Header) -> Seq<u8> {
    h.parent_hash.0@ + le_u64(h.number) + le_u64(h.timestamp) + h.difficulty.0@
}

/// Stored form of a block's metadata.
pub open spec fn encode_ext(e: BlockExt) -> Seq<u8> {
    le_u64(e.received_at) + e.total_difficulty.0@ + le_u64(e.total_uncles_count)
}

/// The hashes one after another.
pub open spec fn encode_hashes(hs: Seq<H256>) -> Seq<u8>
    decreases hs.len(),
{
    if hs.len() == 0 {
        Seq::empty()
    } else {
        encode_hashes(hs.drop_last()) + hs.last().0@
    }
}

/// Each address as its offset and its length, eight little-endian bytes each.
pub open spec fn encode_addresses(addrs: Seq<Address>) -> Seq<u8>
    decreases addrs.len(),
{
    if addrs.len() == 0 {
        Seq::empty()
    } else {
        encode_addresses(addrs.drop_last()) + le_u64(addrs.last().offset as u64) + le_u64(
            addrs.last().length as u64,
        )
    }
}

/// The addresses that stored bytes hold, sixteen bytes each.
pub open spec fn decode_addresses(b: Seq<u8>) -> Seq<Address> {
    Seq::new(
        b.len() / 16,
        |j: int|
            Address {
                offset: vstd::bytes::spec_u64_from_le_bytes(b.subrange(16 * j, 16 * j + 8)) as usize,
                length: vstd::bytes::spec_u64_from_le_bytes(b.subrange(16 * j + 8, 16 * j + 16)) as usize,
            },
    )
}

pub proof fn lemma_header_injective(a: Header, b: Header)
    requires
        encode_header(a) == encode_header(b),
    ensures
        a == b,
{
    vstd::bytes::lemma_auto_spec_u64_to_from_le_bytes();
    let ea = encode_header(a);
    let eb = encode_header(b);
    assert(le_u64(a.number).len() == 8 && le_u64(a.timestamp).len() == 8);
    assert(le_u64(b.number).len() == 8 && le_u64(b.timestamp).len() == 8);
    assert(ea.subrange(0, 32) =~= a.parent_hash.0@);
    assert(eb.subrange(0, 32) =~= b.parent_hash.0@);
    assert(ea.subrange(32, 40) =~= le_u64(a.number));
    assert(eb.subrange(32, 40) =~= le_u64(b.number));
    assert(ea.subrange(40, 48) =~= le_u64(a.timestamp));
    assert(eb.subrange(40, 48) =~= le_u64(b.timestamp));
    assert(ea.subrange(48, 80) =~= a.difficulty.0@);
    assert(eb.subrange(48, 80) =~= b.difficulty.0@);
    crate::hash::lemma_h256_eq(a.parent_hash, b.parent_hash);
    crate::hash::lemma_h256_eq(a.difficulty, b.difficulty);
    crate::codec::lemma_le_u64_injective(a.number, b.number);
    crate::codec::lemma_le_u64_injective(a.timestamp, b.timestamp);
}

pub proof fn lemma_ext_injective(a: BlockExt, b: BlockExt)
    requires
        encode_ext(a) == encode_ext(b),
    ensures
        a == b,
{
    vstd::bytes::lemma_auto_spec_u64_to_from_le_bytes();
    let ea = encode_ext(a);
    let eb = encode_ext(b);
    assert(le_u64(a.received_at).len() == 8 && le_u64(a.total_uncles_count).len() == 8);
    assert(le_u64(b.received_at).len() == 8 && le_u64(b.total_uncles_count).len() == 8);
    assert(ea.subrange(0, 8) =~= le_u64(a.received_at));
    assert(eb.subrange(0, 8) =~= le_u64(b.received_at));
    assert(ea.subrange(8, 40) =~= a.total_difficulty.0@);
    assert(eb.subrange(8, 40) =~= b.total_difficulty.0@);
    assert(ea.subrange(40, 48) =~= le_u64(a.total_uncles_count));
    assert(eb.subrange(40, 48) =~= le_u64(b.total_uncles_count));
    crate::hash::lemma_h256_eq(a.total_difficulty, b.total_difficulty);
    crate::codec::lemma_le_u64_injective(a.received_at, b.received_at);
    crate::codec::lemma_le_u64_injective(a.total_uncles_count, b.total_uncles_count);
}

pub proof fn lemma_hashes_at(hs: Seq<H256>, j: int)
    requires
        0 <= j < hs.len(),
    ensures
        encode_hashes(hs).len() == 32 * hs.len(),
        encode_hashes(hs).subrange(32 * j, 32 * j + 32) == hs[j].0@,
    decreases hs.len(),
{
    lemma_hashes_len(hs);
    if j < hs.len() - 1 {
        lemma_hashes_at(hs.drop_last(), j);
        lemma_hashes_len(hs.drop_last());
        assert(encode_hashes(hs).subrange(32 * j, 32 * j + 32) =~= encode_hashes(
            hs.drop_last(),
        ).subrange(32 * j, 32 * j + 32));
    } else {
        lemma_hashes_len(hs.drop_last());
        assert(encode_hashes(hs).subrange(32 * j, 32 * j + 32) =~= hs[j].0@);
    }
}

pub proof fn lemma_hashes_len(hs: Seq<H256>)
    ensures
        encode_hashes(hs).len() == 32 * hs.len(),
    decreases hs.len(),
{
    if hs.len() > 0 {
        lemma_hashes_len(hs.drop_last());
    }
}

pub proof fn lemma_hashes_injective(a: Seq<H256>, b: Seq<H256>)
    requires
        encode_hashes(a) == encode_hashes(b),
    ensures
        a == b,
{
    lemma_hashes_len(a);
    lemma_hashes_len(b);
    assert forall|j: int| 0 <= j < a.len() implies a[j] == b[j] by {
        lemma_hashes_at(a, j);
        lemma_hashes_at(b, j);
        crate::hash::lemma_h256_eq(a[j], b[j]);
    }
    assert(a =~= b);
}

pub proof fn lemma_addresses_round_trip(addrs: Seq<Address>)
    ensures
        encode_addresses(addrs).len() == 16 * addrs.len(),
        decode_addresses(encode_addresses(addrs)) == addrs,
    decreases addrs.len(),
{
    vstd::bytes::lemma_auto_spec_u64_to_from_le_bytes();
    if addrs.len() > 0 {
        let init = addrs.drop_last();
        lemma_addresses_round_trip(init);
        let e = encode_addresses(addrs);
        let ei = encode_addresses(init);
        let a = addrs.last();
        assert(le_u64(a.offset as u64).len() == 8);
        assert(le_u64(a.length as u64).len() == 8);
        let d = decode_addresses(e);
        assert forall|j: int| 0 <= j < addrs.len() implies d[j] == addrs[j] by {
            if j < init.len() {
                assert(e.subrange(16 * j, 16 * j + 8) =~= ei.subrange(16 * j, 16 * j + 8));
                assert(e.subrange(16 * j + 8, 16 * j + 16) =~= ei.subrange(16 * j + 8, 16 * j + 16));
                assert(decode_addresses(ei)[j] == init[j]);
            } else {
                assert(e.subrange(16 * j, 16 * j + 8) =~= le_u64(a.offset as u64));
                assert(e.subrange(16 * j + 8, 16 * j + 16) =~= le_u64(a.length as u64));
            }
        }
        assert(d =~= addrs);
    } else {
        assert(decode_addresses(Seq::empty()) =~= Seq::<Address>::empty());
    }
}

} // verus!
