use bc_algo::digest::{sha1, sha256, sha256_parts, sha384};

#[test]
fn digests_have_fixed_lengths() {
    assert_eq!(sha1(&[1, 2, 3]).len(), 20);
    assert_eq!(sha256(&[1, 2, 3]).len(), 32);
    assert_eq!(sha384(&[1, 2, 3]).len(), 48);
    assert_eq!(sha256_parts(&vec![vec![1], vec![2, 3]]).len(), 32);
}

#[test]
fn digests_transform_their_input() {
    let input = vec![9u8; 20];
    assert_ne!(sha1(&input), input);
    assert_ne!(sha256(&vec![9u8; 32]), vec![9u8; 32]);
    assert_ne!(sha384(&vec![9u8; 48]), vec![9u8; 48]);
}

#[test]
fn digests_are_deterministic_and_injective_in_practice() {
    assert_eq!(sha1(b"abc"), sha1(b"abc"));
    assert_ne!(sha1(b"abc"), sha1(b"abd"));
    assert_eq!(sha256(b"abc"), sha256(b"abc"));
    assert_ne!(sha256(b"abc"), sha256(b"abd"));
    // streaming the parts hashes their concatenation
    assert_eq!(sha256_parts(&vec![b"ab".to_vec(), b"c".to_vec()]), sha256(b"abc"));
}
