use bc_algo::digest::{FirstByteDigester, Sha256Digester};
use bc_algo::tree::mcl::{XErr, MCL};
use rand::RngExt;

fn key_of(b: u8) -> Vec<u8> {
    vec![b]
}

#[test]
fn put_get_proof_roundtrip() {
    let mut sample: Vec<u64> = Vec::new();
    let mut rng = rand::rng();
    while sample.len() < 500 {
        let v: u64 = rng.random();
        if !sample.contains(&v) {
            sample.push(v);
        }
    }

    let mut mcl: MCL<u64, Sha256Digester> = MCL::default();
    let mut hashsigs = Vec::new();
    for v in sample.iter() {
        hashsigs.push(mcl.put(*v).unwrap());
    }

    assert_eq!(sample.len(), mcl.item_cnt());
    assert_eq!(mcl.item_cnt_realtime(), mcl.item_cnt());
    assert!(mcl.merklesig().is_some());
    assert_eq!(mcl.merklesig().unwrap().len(), 32);

    for (v, h) in sample.iter().zip(hashsigs.iter()) {
        assert_eq!(*v, mcl.get(h).unwrap());
        assert!(mcl.merkle_proof(h).unwrap());
    }

    for (v, h) in sample.iter().zip(hashsigs.iter()) {
        let node = mcl.remove(h).unwrap();
        assert_eq!(*v, node.value);
        assert!(mcl.get(h).is_none());
        assert!(!mcl.merkle_proof(h).unwrap());
    }

    assert_eq!(0, mcl.item_cnt());
    assert_eq!(mcl.item_cnt_realtime(), 0);
    assert!(mcl.merklesig().is_none());
}

#[test]
fn put_is_idempotent() {
    let mut mcl: MCL<u64, Sha256Digester> = MCL::default();
    let h1 = mcl.put(77).unwrap();
    let h2 = mcl.put(77).unwrap();
    assert_eq!(h1, h2);
    assert_eq!(1, mcl.item_cnt());
    assert_eq!(77, mcl.get(&h1).unwrap());
}

#[test]
fn collision_is_reported_and_harmless() {
    // 1 and 257 serialise with the same first byte, so the stub digester
    // files them under the same one-byte key
    let mut mcl: MCL<u64, FirstByteDigester> = MCL::init(4, FirstByteDigester);
    let h = mcl.put(1).unwrap();
    assert_eq!(h, key_of(1));
    match mcl.put(257) {
        Err(XErr::HashCollision(w)) => assert_eq!(w, 1),
        _ => panic!("expected a collision"),
    }
    assert_eq!(1, mcl.item_cnt());
    assert_eq!(1, mcl.get(&h).unwrap());
}

#[test]
fn split_grows_one_layer_at_capacity() {
    // keys 10, 20, 30, 40, 50 under the one-byte stub digester
    let mut mcl: MCL<u64, FirstByteDigester> = MCL::init(4, FirstByteDigester);
    for v in [10u64, 20, 30] {
        mcl.put(v).unwrap();
    }
    // three values still fit in the single bottom unit
    assert_eq!(1, mcl.height());
    mcl.put(40).unwrap();
    // the bottom unit reached capacity 4 and split under a new top layer
    assert_eq!(2, mcl.height());
    assert_eq!(4, mcl.item_cnt());
    mcl.put(50).unwrap();
    // the fifth insert fits in the right unit without growing the height
    assert_eq!(2, mcl.height());
    assert_eq!(5, mcl.item_cnt());
    for v in [10u64, 20, 30, 40, 50] {
        let h = key_of(v as u8);
        assert_eq!(v, mcl.get(&h).unwrap());
        assert!(mcl.merkle_proof(&h).unwrap());
    }
}

#[test]
fn removals_collapse_to_single_leaf() {
    let mut mcl: MCL<u64, FirstByteDigester> = MCL::init(4, FirstByteDigester);
    for v in [10u64, 20, 30, 40] {
        mcl.put(v).unwrap();
    }
    assert_eq!(2, mcl.height());
    for v in [20u64, 30, 40] {
        mcl.remove(&key_of(v as u8)).unwrap();
    }
    assert_eq!(1, mcl.height());
    assert_eq!(1, mcl.item_cnt());
    // the root commitment is the digest over the single leaf's digest,
    // which under the stub digester is the first byte again
    assert_eq!(mcl.merklesig(), Some(key_of(10)));
    assert!(mcl.merkle_proof(&key_of(10)).unwrap());
}

#[test]
fn remove_reports_wrong_length_and_absence() {
    let mut mcl: MCL<u64, FirstByteDigester> = MCL::init(4, FirstByteDigester);
    mcl.put(10).unwrap();
    match mcl.remove(&[1, 2]) {
        Err(XErr::HashLen) => {}
        _ => panic!("expected a length error"),
    }
    match mcl.remove(&key_of(99)) {
        Err(XErr::NotExists(Some(w))) => assert_eq!(w, 10),
        _ => panic!("expected an absence with the left neighbour"),
    }
    match mcl.remove(&key_of(5)) {
        Err(XErr::NotExists(None)) => {}
        _ => panic!("expected an absence without a neighbour"),
    }
    assert_eq!(1, mcl.item_cnt());
}

#[test]
fn get_rejects_wrong_length_quietly() {
    let mut mcl: MCL<u64, Sha256Digester> = MCL::default();
    let h = mcl.put(5).unwrap();
    assert_eq!(h.len(), 32);
    assert!(mcl.get(&h[..31]).is_none());
    assert!(mcl.get(&[]).is_none());
    assert_eq!(4, mcl.unit_maxsiz() / 2);
    assert_eq!(8, mcl.unit_maxsiz());
    mcl.destroy();
}

#[test]
fn proof_on_empty_structure_is_negative() {
    let mcl: MCL<u64, Sha256Digester> = MCL::default();
    assert!(matches!(mcl.merkle_proof(&[0u8; 32]), Ok(false)));
    assert_eq!(0, mcl.height());
}
