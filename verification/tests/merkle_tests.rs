use bc_algo::digest::sha1;
use bc_algo::tree::{merkle_v1, merkle_v2};

fn hash(item: &[u8]) -> Vec<u8> {
    sha1(item)
}

#[test]
fn merkle() {
    let mut sample = vec![];
    for i in 0i32..40 {
        sample.push(hash(&i.to_le_bytes()));
    }

    let merkle = merkle_v1::Merkle::new(sample.clone()).unwrap();

    // positive proof
    sample.into_iter().for_each(|i| {
        assert_eq!(
            &merkle.tree().hash,
            &merkle_v1::Merkle::calculate_root(&merkle.prove(i).unwrap()).unwrap()
        );
    });
}

#[test]
fn merkle_merkle() {
    let mut sample = vec![];
    for i in 0i32..40 {
        sample.push(hash(&i.to_le_bytes()));
    }

    let merkle = merkle_v1::Merkle::new(sample.clone()).unwrap();

    // positive proof
    sample.into_iter().for_each(|i| {
        assert_eq!(
            &merkle.tree().hash,
            &merkle_v1::Merkle::calculate_root(&merkle.prove(i).unwrap()).unwrap()
        );
    });
}

#[test]
fn merkle_v2_merkle() {
    let mut sample = vec![];
    for i in 0i32..4 {
        sample.push(hash(&i.to_le_bytes()));
    }

    let merkle = merkle_v2::Merkle::new(sample.clone()).unwrap();

    // positive proof
    sample.into_iter().for_each(|i| {
        assert_eq!(
            &merkle.root(),
            &merkle_v2::Merkle::calculate_root(&merkle.prove(i).unwrap()).unwrap()
        );
    });
}

#[test]
fn sorted_tree_orders_its_leaves() {
    // an unsorted input pair must be hashed in sorted order
    let leaves = vec![vec![2u8], vec![1u8]];
    let merkle = merkle_v2::Merkle::new(leaves).unwrap();
    let path = merkle.prove(vec![1u8]).unwrap();
    let root = merkle_v2::Merkle::calculate_root(&path).unwrap();
    let expected = sha1(&[1u8, 2u8]);
    assert_eq!(root, expected);
}

#[test]
fn single_leaf_tree_is_its_own_root() {
    let merkle = merkle_v1::Merkle::new(vec![vec![7u8, 8u8]]).unwrap();
    assert_eq!(merkle.tree().hash, vec![7u8, 8u8]);
    assert!(merkle_v1::Merkle::new(vec![]).is_none());
}

#[test]
fn absent_leaf_has_no_proof() {
    let sample = vec![hash(b"a"), hash(b"b"), hash(b"c")];
    let merkle = merkle_v2::Merkle::new(sample).unwrap();
    assert!(merkle.prove(hash(b"zzz")).is_none());
    let v1 = merkle_v1::Merkle::new(vec![hash(b"a"), hash(b"b")]).unwrap();
    assert!(v1.prove(hash(b"zzz")).is_none());
    assert!(merkle_v1::Merkle::calculate_root(&Vec::new()).is_none());
}
