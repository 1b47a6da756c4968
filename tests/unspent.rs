use chain_store::hash::H256;
use chain_store::meta::{OutPoint, TransactionMeta};
use chain_store::kv::Batch;
use chain_store::store::{ChainKVStore, StoreError};
use chain_store::unspent::UnspentIndex;

fn h(x: u8) -> H256 {
    let mut a = [0u8; 32];
    a[0] = x;
    H256(a)
}

fn out(hash: H256, index: u32) -> OutPoint {
    OutPoint { hash, index }
}

#[test]
fn new_meta_has_all_outputs_live() {
    let meta = TransactionMeta::new(3);
    assert_eq!(3, meta.len());
    assert!(meta.is_unspent(0) && meta.is_unspent(2));
    assert!(!meta.is_unspent(3));
    assert!(!meta.is_fully_spent());
}

#[test]
fn spent_output_stays_spent() {
    let mut meta = TransactionMeta::new(2);
    meta.set_spent(1);
    assert!(meta.is_unspent(0));
    assert!(!meta.is_unspent(1));
    meta.set_spent(0);
    assert!(meta.is_fully_spent());
}

#[test]
fn insert_then_get() {
    let mut index = UnspentIndex::new();
    assert!(index.insert(h(1), TransactionMeta::new(2)).is_none());
    assert_eq!(Some(TransactionMeta::new(2)), index.get(&h(1)));
    let prev = index.insert(h(1), TransactionMeta::new(5)).unwrap();
    assert_eq!(2, prev.len());
    assert_eq!(5, index.get(&h(1)).unwrap().len());
    assert!(index.get(&h(2)).is_none());
}

#[test]
fn update_spends_once() {
    let mut index = UnspentIndex::new();
    index.insert(h(1), TransactionMeta::new(2));
    assert!(index.update(&h(1), 1));
    assert!(!index.get(&h(1)).unwrap().is_unspent(1));
    assert!(index.get(&h(1)).unwrap().is_unspent(0));
    assert!(!index.update(&h(1), 1));
    assert!(!index.update(&h(1), 2));
    assert!(!index.update(&h(9), 0));
}

fn commit(store: &mut ChainKVStore, root: H256, cells: Vec<(Vec<OutPoint>, Vec<OutPoint>)>) -> Option<H256> {
    let mut batch = Batch::new();
    let r = store.update_transaction_meta(&mut batch, root, cells);
    if r.is_none() {
        assert_eq!(0, batch.len());
    } else {
        assert_eq!(1, batch.len());
    }
    store.write_batch(batch);
    r
}

#[test]
fn double_spend_is_rejected() {
    let mut store = ChainKVStore::new();
    let k = h(7);
    let r1 = commit(&mut store, H256::zero(), vec![(vec![], vec![out(k, 0), out(k, 1)])]).unwrap();
    assert_eq!(2, store.get_transaction_meta(r1, k).unwrap().unwrap().len());
    assert_eq!(None, commit(&mut store, r1, vec![(vec![out(k, 0), out(k, 0)], vec![])]));
    assert!(store.get_transaction_meta(r1, k).unwrap().unwrap().is_unspent(0));
    let r2 = commit(&mut store, r1, vec![(vec![out(k, 0)], vec![])]).unwrap();
    assert!(!store.get_transaction_meta(r2, k).unwrap().unwrap().is_unspent(0));
    assert_eq!(None, commit(&mut store, r2, vec![(vec![out(k, 0)], vec![])]));
}

#[test]
fn earlier_roots_stay_readable() {
    let mut store = ChainKVStore::new();
    let k = h(7);
    let r1 = commit(&mut store, H256::zero(), vec![(vec![], vec![out(k, 0)])]).unwrap();
    let r2 = commit(&mut store, r1, vec![(vec![out(k, 0)], vec![])]).unwrap();
    assert_ne!(r1, r2);
    assert!(store.get_transaction_meta(r1, k).unwrap().unwrap().is_unspent(0));
    assert!(store.get_transaction_meta(r2, k).unwrap().unwrap().is_fully_spent());
    assert_eq!(Ok(None), store.get_transaction_meta(H256::zero(), k));
    store.rebuild_tree(r1);
    assert!(store.get_transaction_meta(r1, k).unwrap().unwrap().is_unspent(0));
}

#[test]
fn same_changes_give_same_root() {
    let mut a = ChainKVStore::new();
    let mut b = ChainKVStore::new();
    let cells = vec![(vec![], vec![out(h(1), 0), out(h(1), 1)]), (vec![out(h(1), 1)], vec![out(h(2), 0)])];
    let ra = commit(&mut a, H256::zero(), cells.clone()).unwrap();
    let rb1 = commit(&mut b, H256::zero(), vec![cells[0].clone()]).unwrap();
    let rb2 = commit(&mut b, rb1, vec![cells[1].clone()]).unwrap();
    assert_eq!(ra, rb2);
}

#[test]
fn unknown_root_is_reported() {
    let mut store = ChainKVStore::new();
    assert_eq!(Err(StoreError::UnknownRoot), store.get_transaction_meta(h(9), h(1)));
    assert_eq!(None, commit(&mut store, h(9), vec![]));
}

#[test]
fn unknown_input_and_duplicate_id_are_rejected() {
    let mut store = ChainKVStore::new();
    let z = H256::zero();
    assert_eq!(None, commit(&mut store, z, vec![(vec![out(h(3), 0)], vec![])]));
    let r1 = commit(&mut store, z, vec![(vec![], vec![out(h(4), 0)])]).unwrap();
    assert_eq!(None, commit(&mut store, r1, vec![(vec![], vec![out(h(4), 0), out(h(4), 1)])]));
    assert_eq!(1, store.get_transaction_meta(r1, h(4)).unwrap().unwrap().len());
}

#[test]
fn changes_apply_in_order() {
    let mut store = ChainKVStore::new();
    let cells = vec![
        (vec![], vec![out(h(1), 0), out(h(1), 1)]),
        (vec![out(h(1), 1)], vec![out(h(2), 0)]),
        (vec![out(h(2), 0)], vec![]),
    ];
    let r = commit(&mut store, H256::zero(), cells).unwrap();
    let m1 = store.get_transaction_meta(r, h(1)).unwrap().unwrap();
    assert!(m1.is_unspent(0) && !m1.is_unspent(1));
    assert!(store.get_transaction_meta(r, h(2)).unwrap().unwrap().is_fully_spent());
}

#[test]
fn stored_state_round_trip() {
    let mut index = UnspentIndex::new();
    index.insert(h(1), TransactionMeta::new(3));
    index.update(&h(1), 1);
    let bytes = index.encode();
    assert_eq!(32 + 8 + 3, bytes.len());
    let back = UnspentIndex::decode(&bytes).unwrap();
    assert_eq!(index.get(&h(1)), back.get(&h(1)));
    assert!(UnspentIndex::decode(&bytes[..10]).is_none());
}

#[test]
fn root_depends_on_the_state_alone() {
    let mut a = ChainKVStore::new();
    let mut b = ChainKVStore::new();
    let one = (vec![], vec![out(h(1), 0)]);
    let two = (vec![], vec![out(h(2), 0)]);
    let ra = commit(&mut a, H256::zero(), vec![one.clone(), two.clone()]).unwrap();
    let rb = commit(&mut b, H256::zero(), vec![two, one]).unwrap();
    assert_eq!(ra, rb);
}

#[test]
fn index_keeps_ids_in_order() {
    let mut index = UnspentIndex::new();
    index.insert(h(3), TransactionMeta::new(1));
    index.insert(h(1), TransactionMeta::new(1));
    index.insert(h(2), TransactionMeta::new(1));
    let bytes = index.encode();
    assert_eq!(1, bytes[0]);
    assert_eq!(2, bytes[41]);
    assert_eq!(3, bytes[82]);
}
