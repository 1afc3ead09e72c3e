//! A bloom filter over a fixed bit array, indexed by a SHA-1 position.
//!
//! Elements can be added but never removed; `find` may report false
//! positives, never false negatives.

use vstd::prelude::*;
use crate::bitops::{check_bit, lemma_zero_bits, set_bit, spec_bit};
use crate::digest::{sha1, sha1_of};

verus! {

pub const BYTE_BITS: usize = 8;

/// Bit capacity, the byte-aligned value of k*n/ln 2 for one hash function and
/// a million expected entries.
pub const M: usize = 1442688;

pub const BLOOM_SIZ: usize = 180336;

/// Where an element lands in the bit array.
pub struct Position {
    byte_idx: usize,
    bit_idx: usize,
}

/// The filter: a bit array plus counters of how many elements were added and
/// how many bits they occupy.
pub struct BloomFilter {
    filter: Vec<u8>,
    item_cnt: usize,
    bit_used: usize,
}

/// The little-endian value of the first 8 bytes of a digest.
pub open spec fn le64(s: Seq<u8>) -> int {
    s[0] + 0x100 * (s[1] + 0x100 * (s[2] + 0x100 * (s[3] + 0x100 * (s[4] + 0x100 * (s[5] + 0x100 * (
    s[6] + 0x100 * s[7]))))))
}

/// A vector of `n` zero bytes.
pub(crate) fn zero_vec(n: usize) -> (v: Vec<u8>)
    ensures
        v@.len() == n,
        forall|i: int| 0 <= i < n ==> v@[i] == 0u8,
{
    let mut v: Vec<u8> = Vec::new();
    let mut i: usize = 0;
    while i < n
        invariant
            i <= n,
            v@.len() == i,
            forall|j: int| 0 <= j < i ==> v@[j] == 0u8,
        decreases n - i,
    {
        v.push(0u8);
        i += 1;
    }
    v
}

/// The bit index a digest points at.
pub open spec fn pos_of(digest: Seq<u8>) -> int {
    le64(digest) % (M as int)
}

/// The bit index an element hashes to.
pub open spec fn spec_position(item: Seq<u8>) -> int {
    pos_of(sha1_of(item))
}

impl Position {
    /// A position is within the bit array.
    pub closed spec fn wf(&self) -> bool {
        self.byte_idx < BLOOM_SIZ && self.bit_idx < BYTE_BITS
    }

    /// The flat bit index this position stands for.
    pub closed spec fn idx(&self) -> int {
        self.byte_idx * 8 + self.bit_idx
    }
}

/// In a filter whose byte array is all zero, every bit reads clear.
proof fn lemma_all_bits_clear(f: &BloomFilter)
    requires
        f.filter@.len() == BLOOM_SIZ,
        forall|i: int| 0 <= i < BLOOM_SIZ ==> f.filter@[i] == 0u8,
    ensures
        forall|i: int| 0 <= i < M ==> !f.bit(i),
{
    assert forall|i: int| 0 <= i < M implies !f.bit(i) by {
        assert(i / 8 < BLOOM_SIZ && 0 <= i / 8);
        lemma_zero_bits((i % 8) as u8);
    }
}

/// Turn the first 8 bytes of a digest into a position in the bit array.
pub(crate) fn position_from_digest(id: &Vec<u8>) -> (p: Position)
    requires
        id@.len() >= 8,
    ensures
        p.wf(),
        p.idx() == pos_of(id@),
{
    let mut x: u64 = id[7] as u64;
    x = id[6] as u64 + 0x100 * x;
    x = id[5] as u64 + 0x100 * x;
    x = id[4] as u64 + 0x100 * x;
    x = id[3] as u64 + 0x100 * x;
    x = id[2] as u64 + 0x100 * x;
    x = id[1] as u64 + 0x100 * x;
    x = id[0] as u64 + 0x100 * x;
    assert(x == le64(id@));
    let id_mod = (x % (M as u64)) as usize;
    assert(id_mod == pos_of(id@));
    Position { byte_idx: id_mod / BYTE_BITS, bit_idx: id_mod % BYTE_BITS }
}

impl BloomFilter {
    /// The filter's bit array is full-sized and the counters are consistent.
    pub closed spec fn wf(&self) -> bool {
        self.filter@.len() == BLOOM_SIZ && self.bit_used <= self.item_cnt
    }

    /// Whether bit `i` of the filter is set.
    pub closed spec fn bit(&self, i: int) -> bool {
        spec_bit(self.filter@[i / 8], (i % 8) as u8)
    }

    /// How many elements have been added since the last `clear`.
    pub closed spec fn count(&self) -> int {
        self.item_cnt as int
    }

    /// How many additions found their target bit still clear: the number of
    /// occupied bits.
    pub closed spec fn bits_used(&self) -> int {
        self.bit_used as int
    }

    /// An empty filter.
    pub fn new() -> (r: BloomFilter)
        ensures
            r.wf(),
            r.count() == 0,
            r.bits_used() == 0,
            forall|i: int| 0 <= i < M ==> !r.bit(i),
    {
        let r = BloomFilter { filter: zero_vec(BLOOM_SIZ), item_cnt: 0, bit_used: 0 };
        proof {
            lemma_all_bits_clear(&r);
        }
        r
    }

    /// Reset the filter to empty.
    pub fn clear(&mut self)
        ensures
            final(self).wf(),
            final(self).count() == 0,
            final(self).bits_used() == 0,
            forall|i: int| 0 <= i < M ==> !final(self).bit(i),
    {
        self.filter = zero_vec(BLOOM_SIZ);
        self.item_cnt = 0;
        self.bit_used = 0;
        proof {
            lemma_all_bits_clear(self);
        }
    }

    /// Hash an element to its position via SHA-1.
    fn hash(item: &[u8]) -> (p: Position)
        ensures
            p.wf(),
            p.idx() == spec_position(item@),
    {
        let id = sha1(item);
        position_from_digest(&id)
    }

    /// Add an element: set its bit, bump the counters, and return where it
    /// landed.
    pub fn set(&mut self, item: &[u8]) -> (p: Position)
        requires
            old(self).wf(),
            old(self).count() < usize::MAX,
        ensures
            final(self).wf(),
            p.wf(),
            p.idx() == spec_position(item@),
            final(self).count() == old(self).count() + 1,
            final(self).bits_used() == old(self).bits_used() + (if old(self).bit(
                spec_position(item@),
            ) {
                0int
            } else {
                1int
            }),
            forall|i: int|
                0 <= i < M ==> final(self).bit(i) == (old(self).bit(i) || i == spec_position(
                    item@,
                )),
    {
        let p = Self::hash(item);
        self.add_at(&p);
        p
    }

    /// Look an element up: its position if its bit is set, `None` otherwise.
    pub fn find(&self, item: &[u8]) -> (r: Option<Position>)
        requires
            self.wf(),
        ensures
            match r {
                Some(p) => self.bit(spec_position(item@)) && p.idx() == spec_position(item@)
                    && p.wf(),
                None => !self.bit(spec_position(item@)),
            },
    {
        let p = Self::hash(item);
        if self.find_by_position(&p) {
            Some(p)
        } else {
            None
        }
    }

    /// Whether the bit at the given position is set.
    pub fn find_by_position(&self, p: &Position) -> (r: bool)
        requires
            self.wf(),
            p.wf(),
        ensures
            r == self.bit(p.idx()),
    {
        proof {
            assert(p.idx() / 8 == p.byte_idx as int && p.idx() % 8 == p.bit_idx as int) by (
            nonlinear_arith)
                requires
                    p.byte_idx < BLOOM_SIZ && p.bit_idx < 8,
            ;
        }
        check_bit(self.filter[p.byte_idx], p.bit_idx as u8)
    }

    /// Add an element whose position was computed elsewhere.
    pub(crate) fn add_at(&mut self, p: &Position)
        requires
            old(self).wf(),
            p.wf(),
            old(self).count() < usize::MAX,
        ensures
            final(self).wf(),
            final(self).count() == old(self).count() + 1,
            final(self).bits_used() == old(self).bits_used() + (if old(self).bit(p.idx()) {
                0int
            } else {
                1int
            }),
            forall|i: int|
                0 <= i < M ==> final(self).bit(i) == (old(self).bit(i) || i == p.idx()),
    {
        if !self.find_by_position(p) {
            self.bit_used = self.bit_used + 1;
        }
        self.item_cnt = self.item_cnt + 1;
        let updated = set_bit(self.filter[p.byte_idx], p.bit_idx as u8);
        self.filter.set(p.byte_idx, updated);
        proof {
            assert forall|i: int| 0 <= i < M implies self.bit(i) == (old(self).bit(i) || i
                == p.idx()) by {
                if i / 8 == p.byte_idx {
                    assert(i == 8 * (i / 8) + i % 8);
                    assert(i == p.idx() <==> i % 8 == p.bit_idx as int);
                } else {
                    assert(i != p.idx());
                }
            }
        }
    }

    /// How many elements have been added since the last `clear`.
    pub fn item_cnt(&self) -> (r: usize)
        requires
            self.wf(),
        ensures
            r == self.count(),
    {
        self.item_cnt
    }

    /// How many additions found their bit already occupied: an upper bound on
    /// the false positives the filter can produce.
    pub fn false_positive_cnt(&self) -> (r: usize)
        requires
            self.wf(),
        ensures
            r == self.count() - self.bits_used(),
    {
        self.item_cnt - self.bit_used
    }
}

} // verus!
