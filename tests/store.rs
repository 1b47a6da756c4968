use chain_store::block::{Block, BlockExt, Header, IndexedHeader, Transaction};
use chain_store::hash::H256;
use chain_store::kv::{
    Batch, COLUMN_BLOCK_BODY, COLUMN_BLOCK_HEADER, COLUMN_BLOCK_TRANSACTION_ADDRESSES,
    COLUMN_BLOCK_TRANSACTION_IDS, COLUMN_OUTPUT_ROOT,
};
use chain_store::store::{decode_body, ChainKVStore, StoreError};

fn h(x: u8) -> H256 {
    let mut a = [0u8; 32];
    a[31] = x;
    H256(a)
}

fn header(number: u64, parent: H256) -> Header {
    Header {
        parent_hash: parent,
        number,
        timestamp: 1_000 + number,
        difficulty: h(1),
    }
}

fn genesis_block() -> Block {
    Block {
        header: IndexedHeader { header: header(0, H256::zero()), hash: h(100) },
        commit_transactions: vec![],
        uncles: vec![],
        proposal_transactions: vec![],
    }
}

fn create_dummy_transaction(seed: u8) -> Transaction {
    Transaction {
        hash: h(200 + seed),
        data: vec![seed; 3 + seed as usize],
    }
}

#[test]
fn save_and_get_output_root() {
    let mut store = ChainKVStore::new();
    assert!(store
        .save_with_batch(|store, batch| {
            store.insert_output_root(batch, h(10), h(20));
            Ok::<(), StoreError>(())
        })
        .is_ok());
    assert_eq!(h(20), store.get_output_root(&h(10)).unwrap().unwrap());
}

#[test]
fn save_and_get_block() {
    let mut store = ChainKVStore::new();
    let block = genesis_block();
    let hash = block.header.hash;
    assert!(store
        .save_with_batch(|store, batch| {
            store.insert_block(batch, &block);
            Ok::<(), StoreError>(())
        })
        .is_ok());
    assert_eq!(block, store.get_block(&hash).unwrap().unwrap());
}

#[test]
fn save_and_get_block_with_transactions() {
    let mut store = ChainKVStore::new();
    let mut block = genesis_block();
    block.commit_transactions.push(create_dummy_transaction(1));
    block.commit_transactions.push(create_dummy_transaction(2));
    block.commit_transactions.push(create_dummy_transaction(3));
    block.uncles = vec![9, 8, 7];
    block.proposal_transactions = vec![1; 10];
    let hash = block.header.hash;
    assert!(store
        .save_with_batch(|store, batch| {
            store.insert_block(batch, &block);
            Ok::<(), StoreError>(())
        })
        .is_ok());
    assert_eq!(block, store.get_block(&hash).unwrap().unwrap());
}

#[test]
fn save_and_get_block_ext() {
    let mut store = ChainKVStore::new();
    let block = genesis_block();
    let ext = BlockExt {
        received_at: block.header.header.timestamp,
        total_difficulty: block.header.header.difficulty,
        total_uncles_count: block.uncles.len() as u64,
    };
    let hash = block.header.hash;
    assert!(store
        .save_with_batch(|store, batch| {
            store.insert_block_ext(batch, &hash, &ext);
            Ok::<(), StoreError>(())
        })
        .is_ok());
    assert_eq!(ext, store.get_block_ext(&hash).unwrap().unwrap());
}

#[test]
fn missing_entries_read_as_none() {
    let store = ChainKVStore::new();
    assert_eq!(Ok(None), store.get_block(&h(1)));
    assert_eq!(Ok(None), store.get_header(&h(1)));
    assert_eq!(Ok(None), store.get_block_ext(&h(1)));
    assert_eq!(Ok(None), store.get_output_root(&h(1)));
    assert_eq!(None, store.get(COLUMN_BLOCK_HEADER, &h(1)));
}

#[test]
fn damaged_header_is_reported() {
    let mut store = ChainKVStore::new();
    let mut batch = Batch::new();
    batch.insert(COLUMN_BLOCK_HEADER, h(5), vec![1, 2, 3]);
    batch.insert(COLUMN_OUTPUT_ROOT, h(5), vec![1; 31]);
    store.write_batch(batch);
    assert_eq!(Err(StoreError::Corrupted), store.get_header(&h(5)));
    assert_eq!(Err(StoreError::Corrupted), store.get_block(&h(5)));
    assert_eq!(Err(StoreError::Corrupted), store.get_output_root(&h(5)));
}

#[test]
fn header_without_body_is_reported() {
    let mut store = ChainKVStore::new();
    let block = genesis_block();
    let mut batch = Batch::new();
    store.insert_block(&mut batch, &block);
    store.write_batch(batch);
    let mut batch = Batch::new();
    batch.insert(COLUMN_BLOCK_BODY, block.header.hash, vec![]);
    store.write_batch(batch);
    assert_eq!(block, store.get_block(&block.header.hash).unwrap().unwrap());
    let mut other = genesis_block();
    other.header.hash = h(101);
    let mut batch = Batch::new();
    batch.insert(COLUMN_BLOCK_HEADER, h(101), store.get(COLUMN_BLOCK_HEADER, &block.header.hash).unwrap());
    store.write_batch(batch);
    assert_eq!(Err(StoreError::Corrupted), store.get_block(&h(101)));
}

#[test]
fn body_is_cut_at_the_stored_addresses() {
    let mut store = ChainKVStore::new();
    let mut block = genesis_block();
    block.commit_transactions.push(Transaction { hash: h(1), data: vec![1, 2] });
    block.commit_transactions.push(Transaction { hash: h(2), data: vec![3, 4, 5] });
    let mut batch = Batch::new();
    store.insert_block(&mut batch, &block);
    store.write_batch(batch);
    assert_eq!(Some(vec![1, 2, 3, 4, 5]), store.get(COLUMN_BLOCK_BODY, &h(100)));
    assert_eq!(Some(vec![3, 4]), store.partial_get(COLUMN_BLOCK_BODY, &h(100), &(2..4)));
    assert_eq!(None, store.partial_get(COLUMN_BLOCK_BODY, &h(100), &(2..6)));
    let body = store.get_block_body(&h(100)).unwrap().unwrap();
    assert_eq!(vec![3, 4, 5], body[1].data);
    assert_eq!(h(2), body[1].hash);
}

#[test]
fn output_root_takes_the_first_32_bytes() {
    let mut store = ChainKVStore::new();
    let mut batch = Batch::new();
    let mut v = h(7).to_vec();
    v.push(99);
    batch.insert(COLUMN_OUTPUT_ROOT, h(3), v);
    store.write_batch(batch);
    assert_eq!(Ok(Some(h(7))), store.get_output_root(&h(3)));
}

#[test]
fn headers_iter_walks_to_genesis() {
    let mut store = ChainKVStore::new();
    let mut batch = Batch::new();
    let mut parent = H256::zero();
    let mut tip = None;
    for n in 0..4u64 {
        let block = Block {
            header: IndexedHeader { header: header(n, parent), hash: h(50 + n as u8) },
            commit_transactions: vec![],
            uncles: vec![],
            proposal_transactions: vec![],
        };
        store.insert_block(&mut batch, &block);
        parent = block.header.hash;
        tip = Some(block.header);
    }
    store.write_batch(batch);
    let tip = tip.unwrap();
    let mut iter = store.headers_iter(tip);
    assert_eq!((1, Some(4)), iter.size_hint());
    let mut numbers = vec![];
    while let Ok(Some(x)) = iter.next() {
        numbers.push(x.header.number);
    }
    assert_eq!(vec![3, 2, 1, 0], numbers);
    assert_eq!((0, Some(0)), iter.size_hint());
}

#[test]
fn damaged_parent_stops_the_walk_with_an_error() {
    let mut store = ChainKVStore::new();
    let mut batch = Batch::new();
    batch.insert(COLUMN_BLOCK_HEADER, h(60), vec![0; 5]);
    store.write_batch(batch);
    let tip = IndexedHeader { header: header(1, h(60)), hash: h(61) };
    let mut iter = store.headers_iter(tip);
    assert_eq!(Err(StoreError::Corrupted), iter.next());
    assert_eq!(Ok(None), iter.next());
}

#[test]
fn failed_fill_writes_nothing() {
    let mut store = ChainKVStore::new();
    let r = store.save_with_batch(|store, batch| {
        store.insert_output_root(batch, h(10), h(20));
        Err(StoreError::Corrupted)
    });
    assert_eq!(Err(StoreError::Corrupted), r);
    assert_eq!(Ok(None), store.get_output_root(&h(10)));
}

#[test]
fn later_writes_in_a_batch_win() {
    let mut store = ChainKVStore::new();
    let mut batch = Batch::new();
    store.insert_output_root(&mut batch, h(1), h(2));
    store.insert_output_root(&mut batch, h(1), h(3));
    assert_eq!(2, batch.len());
    store.write_batch(batch);
    assert_eq!(Ok(Some(h(3))), store.get_output_root(&h(1)));
}

#[test]
fn body_decodes_from_its_stored_parts() {
    let mut store = ChainKVStore::new();
    let mut block = genesis_block();
    block.commit_transactions.push(Transaction { hash: h(1), data: vec![1, 2] });
    block.commit_transactions.push(Transaction { hash: h(2), data: vec![3] });
    let mut batch = Batch::new();
    store.insert_block(&mut batch, &block);
    store.write_batch(batch);
    let key = block.header.hash;
    let addresses = store.get(COLUMN_BLOCK_TRANSACTION_ADDRESSES, &key).unwrap();
    let body = store.get(COLUMN_BLOCK_BODY, &key).unwrap();
    let ids = store.get(COLUMN_BLOCK_TRANSACTION_IDS, &key).unwrap();
    assert_eq!(32, addresses.len());
    assert_eq!(block.commit_transactions, decode_body(&addresses, &body, &ids).unwrap());
    assert_eq!(Err(StoreError::Corrupted), decode_body(&addresses[..31], &body, &ids));
    assert_eq!(Err(StoreError::Corrupted), decode_body(&addresses, &body[..2], &ids));
}
