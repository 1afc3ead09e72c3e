use bc_algo::bloom_filter::BloomFilter;
use bc_algo::keys::{key_cmp, KeyOrder};
use bc_algo::par_bloom_filter::ParBloomFilter;
use bc_algo::text::{i64_to_string, u64_to_string};
use bc_algo::tree::hashmap::{HashMap, HashX, XErr};
use bc_algo::tree::trie::Trie;

#[test]
fn hashmap() {}

#[test]
fn sl() {
    assert_eq!(1, 1);
}

#[test]
fn trie() {
    let mut trie: Trie<u8, u128> = Trie::new();

    for i in 0u128..100 {
        trie.insert(&i.to_le_bytes(), i).unwrap();
    }

    assert!(0 < trie.len());

    for i in 0u128..100 {
        assert_eq!(i, trie.query(&i.to_le_bytes()).unwrap());
    }

    assert!(trie.remove(&0u128.to_le_bytes()).is_ok());
    assert!(trie.query(&0u128.to_le_bytes()).is_none());
}

#[test]
fn trie_rejects_empty_and_missing_keys() {
    let mut trie: Trie<u8, u128> = Trie::new();
    assert!(trie.insert(&[], 1).is_err());
    assert!(trie.remove(&[]).is_err());
    assert!(trie.remove(&[9, 9]).is_err());
    assert!(trie.query(&[]).is_none());
    trie.insert(&[1, 2], 9).unwrap();
    assert_eq!(Some(9), trie.query(&[1, 2]));
    // extending an existing path is fine; its prefix keeps its own value
    trie.insert(&[1, 2, 3], 7).unwrap();
    assert_eq!(Some(7), trie.query(&[1, 2, 3]));
    trie.remove(&[1, 2, 3]).unwrap();
    assert!(trie.query(&[1, 2, 3]).is_none());
    assert_eq!(Some(9), trie.query(&[1, 2]));
}

#[test]
fn hashmap_files_by_digest() {
    let mut m: HashMap<u64, u64> = HashMap::new();
    // a digest of the wrong length is rejected before any lookup
    assert!(matches!(m.query_value(&[1, 2, 3]), Err(XErr::HashLen)));
    let h = 42u64.hashx();
    assert_eq!(h.len(), 32);
    assert!(matches!(m.query_value(&h), Err(XErr::NotExists)));
    m.insert(42, 100).unwrap();
    assert_eq!(Some(100), m.query_value(&h).unwrap());
    // filing the same key again changes nothing
    m.insert(42, 100).unwrap();
    assert_eq!(Some(100), m.query_value(&h).unwrap());
    m.insert(43, 200).unwrap();
    assert_eq!(Some(200), m.query_value(&43u64.hashx()).unwrap());
}

#[test]
fn bloom_filter() {
    let mut bf = BloomFilter::new();
    for _ in 0..1000000 {
        let a: u64 = rand::random();
        bf.set(&a.to_le_bytes());
    }

    assert_eq!(1000000, bf.item_cnt());
    println!("{}", bf.false_positive_cnt());

    bf.clear();

    let item = 1i32.to_le_bytes();
    bf.set(&item);
    assert!(bf.find(&item).is_some());
    assert_eq!(1, bf.item_cnt());
    assert_eq!(0, bf.false_positive_cnt());
    let item = 2u64.to_le_bytes();
    assert!(bf.find(&item).is_none());
    let p = bf.set(&item);
    assert!(bf.find_by_position(&p));
}

#[test]
fn par_bloom_filter() {
    let mut bf = ParBloomFilter::new();
    for _ in 0..100000 {
        let a: u64 = rand::random();
        bf.set(&a.to_le_bytes());
    }
    println!("{:?}", bf.false_positive_cnt());

    bf.clear();

    let item = 1i32.to_le_bytes();
    bf.set(&item);
    assert!(bf.find(&item).is_some());
    assert_eq!(vec![0, 0, 0], bf.false_positive_cnt());
    let item = 2u64.to_le_bytes();
    assert!(bf.find(&item).is_none());
}

#[test]
fn decimal_rendering() {
    assert_eq!(u64_to_string(0), "0");
    assert_eq!(u64_to_string(12345), "12345");
    assert_eq!(u64_to_string(18446744073709551615), "18446744073709551615");
    assert_eq!(i64_to_string(-42), "-42");
    assert_eq!(i64_to_string(7), "7");
    assert_eq!(i64_to_string(i64::MIN), "-9223372036854775808");
}

#[test]
fn byte_key_ordering() {
    assert!(matches!(key_cmp(&[1, 2], &[1, 3]), KeyOrder::Less));
    assert!(matches!(key_cmp(&[1, 2], &[1, 2]), KeyOrder::Equal));
    assert!(matches!(key_cmp(&[2], &[1, 9]), KeyOrder::Greater));
    assert!(matches!(key_cmp(&[1], &[1, 0]), KeyOrder::Less));
    assert!(matches!(key_cmp(&[], &[]), KeyOrder::Equal));
}
