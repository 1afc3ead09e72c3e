//! Turning stored values into the byte strings that get hashed.

use vstd::prelude::*;

verus! {

/// A value that can be serialised to bytes for hashing, duplicated, and
/// compared for equality. The index structures store values of any type
/// implementing this trait; the key of a value is the digest of its bytes.
pub trait AsBytes: Sized {
    /// The byte string this value serialises to.
    spec fn bytes_spec(&self) -> Seq<u8>;

    /// Serialise the value.
    fn as_bytes(&self) -> (r: Vec<u8>)
        ensures
            r@ == self.bytes_spec(),
    ;

    /// An owned copy of the value.
    fn duplicate(&self) -> (r: Self)
        ensures
            r == *self,
    ;

    /// Equality test, agreeing with mathematical equality.
    fn eq_val(&self, other: &Self) -> (r: bool)
        ensures
            r <==> (*self == *other),
    ;
}

impl AsBytes for u8 {
    open spec fn bytes_spec(&self) -> Seq<u8> {
        seq![*self]
    }

    fn as_bytes(&self) -> (r: Vec<u8>) {
        let mut v: Vec<u8> = Vec::new();
        v.push(*self);
        assert(v@ =~= self.bytes_spec());
        v
    }

    fn duplicate(&self) -> (r: Self) {
        *self
    }

    fn eq_val(&self, other: &Self) -> (r: bool) {
        *self == *other
    }
}

impl AsBytes for u64 {
    /// Little-endian, as the reference serialisation for unsigned integers.
    open spec fn bytes_spec(&self) -> Seq<u8> {
        let x = *self;
        seq![
            (x & 0xff) as u8,
            ((x >> 8) & 0xff) as u8,
            ((x >> 16) & 0xff) as u8,
            ((x >> 24) & 0xff) as u8,
            ((x >> 32) & 0xff) as u8,
            ((x >> 40) & 0xff) as u8,
            ((x >> 48) & 0xff) as u8,
            ((x >> 56) & 0xff) as u8,
        ]
    }

    fn as_bytes(&self) -> (r: Vec<u8>) {
        let x = *self;
        let mut v: Vec<u8> = Vec::new();
        v.push((x & 0xff) as u8);
        v.push(((x >> 8) & 0xff) as u8);
        v.push(((x >> 16) & 0xff) as u8);
        v.push(((x >> 24) & 0xff) as u8);
        v.push(((x >> 32) & 0xff) as u8);
        v.push(((x >> 40) & 0xff) as u8);
        v.push(((x >> 48) & 0xff) as u8);
        v.push(((x >> 56) & 0xff) as u8);
        assert(v@ =~= self.bytes_spec());
        v
    }

    fn duplicate(&self) -> (r: Self) {
        *self
    }

    fn eq_val(&self, other: &Self) -> (r: bool) {
        *self == *other
    }
}

impl AsBytes for u128 {
    /// Little-endian, as the reference serialisation for unsigned integers.
    open spec fn bytes_spec(&self) -> Seq<u8> {
        let x = *self;
        Seq::new(16, |i: int| ((x >> (8 * i)) & 0xff) as u8)
    }

    fn as_bytes(&self) -> (r: Vec<u8>) {
        let x = *self;
        let mut v: Vec<u8> = Vec::new();
        let mut i: usize = 0;
        while i < 16
            invariant
                i <= 16,
                v@.len() == i,
                forall|k: int| 0 <= k < i ==> v@[k] == ((x >> (8 * k)) & 0xff) as u8,
            decreases 16 - i,
        {
            proof {
                assert(8 * (i as int) == (8 * i) as int);
            }
            v.push(((x >> ((8 * i) as u32)) & 0xff) as u8);
            i += 1;
        }
        proof {
            assert(v@ =~= self.bytes_spec());
        }
        v
    }

    fn duplicate(&self) -> (r: Self) {
        *self
    }

    fn eq_val(&self, other: &Self) -> (r: bool) {
        *self == *other
    }
}

} // verus!
