use chain_store::merkle::{is_left, parent, sibling, Merge, Proof, Tree};

struct DummyHash;

impl Merge for DummyHash {
    type Item = i32;

    fn spec_merge(left: i32, right: i32) -> i32 {
        right.wrapping_sub(left)
    }

    fn merge(left: &i32, right: &i32) -> i32 {
        right.wrapping_sub(*left)
    }
}

#[test]
fn empty() {
    let proof: Proof<DummyHash> = Proof {
        leaves: vec![],
        lemmas: vec![],
        leaves_count: 0,
    };

    assert_eq!(None, proof.root());
}

#[test]
fn one() {
    let proof: Proof<DummyHash> = Proof {
        leaves: vec![(0, 1)],
        lemmas: vec![],
        leaves_count: 1,
    };

    assert_eq!(Some(1), proof.root());
}

#[test]
fn extra_lemma() {
    let proof: Proof<DummyHash> = Proof {
        leaves: vec![(0, 1)],
        lemmas: vec![1],
        leaves_count: 1,
    };

    assert_eq!(None, proof.root());
}

#[test]
fn missing_leaves() {
    let proof: Proof<DummyHash> = Proof {
        leaves: vec![(1, 1)],
        lemmas: vec![],
        leaves_count: 2,
    };

    assert_eq!(None, proof.root());
}

// [ 1,  0,  1,  2,  2,  2,  3,  5,  7, 11, 13]
// [B0, B1, B2, B3, B4, T0, T1, T2, T3, T4, T5]
// [(0, 2), (5, 13)]
// [11,  3,  2]
// [T4, T1, B3]
#[test]
fn two_of_six() {
    let proof: Proof<DummyHash> = Proof {
        leaves: vec![(0, 2), (5, 13)],
        lemmas: vec![11, 3, 2],
        leaves_count: 6,
    };

    assert_eq!(Some(1), proof.root());
}

#[test]
fn build_proof() {
    let leaves = vec![2, 3, 5, 7, 11, 13];
    let tree = Tree::<DummyHash>::new(&leaves);
    let proof = tree.get_proof(&[0, 5]).unwrap();
    assert_eq!(vec![(0, 2), (5, 13)], proof.leaves);
    assert_eq!(vec![11, 3, 2], proof.lemmas);
    assert_eq!(Some(1), proof.root());
}

#[test]
fn build_root_of_six_leaves() {
    assert_eq!(Some(1), Tree::<DummyHash>::build_root(&[2, 3, 5, 7, 11, 13]));
    assert_eq!(Some(1), Tree::<DummyHash>::new(&[2, 3, 5, 7, 11, 13]).root());
}

#[test]
fn build_root_of_nothing() {
    assert_eq!(None, Tree::<DummyHash>::build_root(&[]));
    assert_eq!(None, Tree::<DummyHash>::new(&[]).root());
}

#[test]
fn get_proof_refusals() {
    let tree = Tree::<DummyHash>::new(&[2, 3, 5]);
    assert!(tree.get_proof(&[]).is_none());
    assert!(tree.get_proof(&[3]).is_none());
    assert!(tree.get_proof(&[0, 7]).is_none());
    let empty = Tree::<DummyHash>::new(&[]);
    assert!(empty.get_proof(&[0]).is_none());
}

#[test]
fn proof_root_matches_tree_root_for_every_subset() {
    for n in 1..12usize {
        let leaves: Vec<i32> = (0..n).map(|i| (i * i * 7 + 3) as i32).collect();
        let tree = Tree::<DummyHash>::new(&leaves);
        let root = Tree::<DummyHash>::build_root(&leaves);
        for mask in 1u32..(1u32 << n) {
            let indexes: Vec<usize> = (0..n).filter(|i| mask & (1 << i) != 0).collect();
            let proof = tree.get_proof(&indexes).unwrap();
            assert_eq!(root, proof.root());
        }
    }
}

#[test]
fn proof_with_extra_or_missing_lemma_has_no_root() {
    let leaves = vec![2, 3, 5, 7, 11, 13];
    let tree = Tree::<DummyHash>::new(&leaves);
    let mut proof = tree.get_proof(&[0, 5]).unwrap();
    proof.lemmas.push(4);
    assert_eq!(None, proof.root());
    proof.lemmas.pop();
    proof.lemmas.pop();
    assert_eq!(None, proof.root());
}

#[test]
fn leaf_index_past_the_count_has_no_root() {
    let proof: Proof<DummyHash> = Proof {
        leaves: vec![(1, 5)],
        lemmas: vec![3],
        leaves_count: 1,
    };
    assert_eq!(None, proof.root());
}

#[test]
fn node_index_arithmetic() {
    assert_eq!(2, sibling(1));
    assert_eq!(1, sibling(2));
    assert_eq!(4, sibling(3));
    assert_eq!(0, parent(1));
    assert_eq!(0, parent(2));
    assert_eq!(4, parent(10));
    assert!(is_left(5));
    assert!(!is_left(10));
}
