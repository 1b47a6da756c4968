use chain_store::flat::{deserialize, serialize, Address};
use chain_store::hash::H256;

#[test]
fn flat_round_trip() {
    let records = vec![vec![1u8, 2, 3], vec![], vec![4, 5]];
    let (blob, addresses) = serialize(&records);
    assert_eq!(vec![1, 2, 3, 4, 5], blob);
    assert_eq!(
        vec![
            Address { offset: 0, length: 3 },
            Address { offset: 3, length: 0 },
            Address { offset: 3, length: 2 },
        ],
        addresses
    );
    assert_eq!(Some(records), deserialize(&blob, &addresses));
}

#[test]
fn flat_address_past_the_end() {
    let blob = vec![1u8, 2, 3];
    assert_eq!(None, deserialize(&blob, &[Address { offset: 2, length: 2 }]));
    assert_eq!(Some(vec![vec![3u8]]), deserialize(&blob, &[Address { offset: 2, length: 1 }]));
}

#[test]
fn hash_bytes() {
    let mut a = [0u8; 32];
    a[3] = 9;
    let x = H256::from_slice(&a);
    assert_eq!(H256(a), x);
    assert_eq!(a.to_vec(), x.to_vec());
    assert!(H256::zero() != x);
}
