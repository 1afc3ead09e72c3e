//! Cryptographic digests, provided by the `ring` crate behind trusted
//! wrappers, and the [`Digester`] trait through which the index structures
//! receive their hash function.

use vstd::prelude::*;

verus! {

/// The SHA-1 digest (20 bytes) of a byte string.
pub uninterp spec fn sha1_of(data: Seq<u8>) -> Seq<u8>;

/// The SHA-256 digest (32 bytes) of a byte string.
pub uninterp spec fn sha256_of(data: Seq<u8>) -> Seq<u8>;

/// The SHA-384 digest (48 bytes) of a byte string.
pub uninterp spec fn sha384_of(data: Seq<u8>) -> Seq<u8>;

/// The views of a list of byte vectors.
pub open spec fn views_of(parts: Seq<Vec<u8>>) -> Seq<Seq<u8>> {
    parts.map(|i: int, p: Vec<u8>| p@)
}

/// Relies on ring::digest::{Context, SHA1_FOR_LEGACY_USE_ONLY}: streaming the
/// input through `update` yields the digest of the concatenation, 20 bytes,
/// a function of the input bytes alone.
#[verifier::external_body]
pub fn sha1(data: &[u8]) -> (r: Vec<u8>)
    ensures
        r@ == sha1_of(data@),
        r@.len() == 20,
{
    let mut context = ring::digest::Context::new(&ring::digest::SHA1_FOR_LEGACY_USE_ONLY);
    context.update(data);
    context.finish().as_ref().to_vec()
}

/// Relies on ring::digest::{Context, SHA256}: streaming each part through
/// `update` yields the digest of their concatenation, 32 bytes, a function of
/// the input bytes alone.
#[verifier::external_body]
pub fn sha256_parts(parts: &Vec<Vec<u8>>) -> (r: Vec<u8>)
    ensures
        r@ == sha256_of(views_of(parts@).flatten()),
        r@.len() == 32,
{
    let mut context = ring::digest::Context::new(&ring::digest::SHA256);
    for p in parts {
        context.update(p);
    }
    context.finish().as_ref().to_vec()
}

/// Relies on ring::digest::{Context, SHA256}: the digest of one byte string,
/// 32 bytes, a function of the input bytes alone.
#[verifier::external_body]
pub fn sha256(data: &[u8]) -> (r: Vec<u8>)
    ensures
        r@ == sha256_of(data@),
        r@.len() == 32,
{
    let mut context = ring::digest::Context::new(&ring::digest::SHA256);
    context.update(data);
    context.finish().as_ref().to_vec()
}

/// Relies on ring::digest::{Context, SHA384}: the digest of one byte string,
/// 48 bytes, a function of the input bytes alone.
#[verifier::external_body]
pub fn sha384(data: &[u8]) -> (r: Vec<u8>)
    ensures
        r@ == sha384_of(data@),
        r@.len() == 48,
{
    let mut context = ring::digest::Context::new(&ring::digest::SHA384);
    context.update(data);
    context.finish().as_ref().to_vec()
}

/// A deterministic hash function over an ordered list of byte strings,
/// returning a digest of a fixed length. The Merkle structures are handed one
/// at construction time; every commitment they maintain is stated in terms of
/// its `digest_spec`.
pub trait Digester: Sized {
    /// The fixed output length, in bytes.
    spec fn digest_len_spec(&self) -> nat;

    /// What the digest of the given parts is.
    spec fn digest_spec(&self, parts: Seq<Seq<u8>>) -> Seq<u8>;

    /// Hash an ordered list of byte strings.
    fn digest(&self, parts: &Vec<Vec<u8>>) -> (r: Vec<u8>)
        ensures
            r@ == self.digest_spec(views_of(parts@)),
            r@.len() == self.digest_len_spec(),
    ;
}

/// SHA-256 over the concatenation of the parts; the default hash of the
/// Merkle structures.
pub struct Sha256Digester;

impl Digester for Sha256Digester {
    open spec fn digest_len_spec(&self) -> nat {
        32
    }

    open spec fn digest_spec(&self, parts: Seq<Seq<u8>>) -> Seq<u8> {
        sha256_of(parts.flatten())
    }

    fn digest(&self, parts: &Vec<Vec<u8>>) -> (r: Vec<u8>) {
        sha256_parts(parts)
    }
}

/// A one-byte stub digest: the first byte of the concatenated input (0 for an
/// empty input). Deterministic but wilfully collision-prone; meant for tests
/// that need to steer keys or force collisions, never for real use.
pub struct FirstByteDigester;

impl Digester for FirstByteDigester {
    open spec fn digest_len_spec(&self) -> nat {
        1
    }

    open spec fn digest_spec(&self, parts: Seq<Seq<u8>>) -> Seq<u8> {
        let flat = parts.flatten();
        seq![if flat.len() > 0 { flat[0] } else { 0u8 }]
    }

    fn digest(&self, parts: &Vec<Vec<u8>>) -> (r: Vec<u8>) {
        let mut b: u8 = 0;
        let mut found: bool = false;
        let mut i: usize = 0;
        proof {
            assert(views_of(parts@).take(0).flatten() =~= Seq::<u8>::empty());
        }
        while i < parts.len()
            invariant
                i <= parts@.len(),
                views_of(parts@).take(i as int).flatten().len() == 0 ==> !found,
                !found ==> views_of(parts@).take(i as int).flatten().len() == 0,
                found ==> views_of(parts@).take(i as int).flatten().len() > 0
                    && b == views_of(parts@).take(i as int).flatten()[0],
            decreases parts@.len() - i,
        {
            proof {
                assert(views_of(parts@).take(i + 1).drop_last() =~= views_of(parts@).take(
                    i as int,
                ));
                views_of(parts@).take(i + 1).lemma_flatten_and_flatten_alt_are_equivalent();
                views_of(parts@).take(i as int).lemma_flatten_and_flatten_alt_are_equivalent();
                assert(views_of(parts@).take(i + 1).flatten_alt() == views_of(parts@).take(
                    i as int,
                ).flatten_alt() + views_of(parts@).take(i + 1).last());
                assert(views_of(parts@).take(i + 1).last() == parts@[i as int]@);
            }
            if !found && parts[i].len() > 0 {
                b = parts[i][0];
                found = true;
            }
            i += 1;
        }
        proof {
            assert(views_of(parts@).take(parts@.len() as int) =~= views_of(parts@));
        }
        let mut r: Vec<u8> = Vec::new();
        if found {
            r.push(b);
        } else {
            r.push(0);
        }
        assert(r@ =~= self.digest_spec(views_of(parts@)));
        r
    }
}

} // verus!
