//! A partitioned bloom filter: one independent bit array per hash function
//! (SHA-1, SHA-256, SHA-384). An element is present only if every partition
//! agrees, which lowers the false-positive rate of the plain filter.

use vstd::prelude::*;
use crate::bloom_filter::{pos_of, position_from_digest, BloomFilter, Position, M};
use crate::digest::{sha1, sha1_of, sha256, sha256_of, sha384, sha384_of};

verus! {

/// How many partitions (and hash functions) the filter uses.
pub const K: usize = 3;

/// One position per partition.
pub struct ParPosition {
    positions: Vec<Position>,
}

/// The partitioned filter.
pub struct ParBloomFilter {
    parts: Vec<BloomFilter>,
}

/// The bit index element `item` hashes to in partition `k`.
pub open spec fn par_position(item: Seq<u8>, k: int) -> int {
    if k == 0 {
        pos_of(sha1_of(item))
    } else if k == 1 {
        pos_of(sha256_of(item))
    } else {
        pos_of(sha384_of(item))
    }
}

impl ParPosition {
    /// Three positions, each inside the bit array.
    pub closed spec fn wf(&self) -> bool {
        self.positions@.len() == K && forall|k: int| 0 <= k < K ==> self.positions@[k].wf()
    }

    /// The flat bit index for partition `k`.
    pub closed spec fn idx(&self, k: int) -> int {
        self.positions@[k].idx()
    }
}

impl ParBloomFilter {
    /// Three well-formed partitions with equal element counts.
    pub closed spec fn wf(&self) -> bool {
        &&& self.parts@.len() == K
        &&& forall|k: int| 0 <= k < K ==> self.parts@[k].wf()
        &&& forall|k: int|
            0 <= k < K ==> (#[trigger] self.parts@[k]).count() == self.parts@[0].count()
    }

    /// Whether bit `i` of partition `k` is set.
    pub closed spec fn bit(&self, k: int, i: int) -> bool {
        self.parts@[k].bit(i)
    }

    /// How many elements have been added since the last `clear`.
    pub closed spec fn count(&self) -> int {
        self.parts@[0].count()
    }

    /// How many bits partition `k` has occupied.
    pub closed spec fn bits_used_at(&self, k: int) -> int {
        self.parts@[k].bits_used()
    }

    /// An empty partitioned filter.
    pub fn new() -> (r: ParBloomFilter)
        ensures
            r.wf(),
            r.count() == 0,
            forall|k: int| 0 <= k < K ==> #[trigger] r.bits_used_at(k) == 0,
            forall|k: int, i: int| 0 <= k < K && 0 <= i < M ==> !r.bit(k, i),
    {
        let mut parts: Vec<BloomFilter> = Vec::new();
        parts.push(BloomFilter::new());
        parts.push(BloomFilter::new());
        parts.push(BloomFilter::new());
        ParBloomFilter { parts }
    }

    /// Reset every partition to empty.
    pub fn clear(&mut self)
        ensures
            final(self).wf(),
            final(self).count() == 0,
            forall|k: int| 0 <= k < K ==> #[trigger] final(self).bits_used_at(k) == 0,
            forall|k: int, i: int| 0 <= k < K && 0 <= i < M ==> !final(self).bit(k, i),
    {
        self.parts = Vec::new();
        self.parts.push(BloomFilter::new());
        self.parts.push(BloomFilter::new());
        self.parts.push(BloomFilter::new());
    }

    /// Hash an element to its position in every partition.
    fn hash(item: &[u8]) -> (p: ParPosition)
        ensures
            p.wf(),
            forall|k: int| 0 <= k < K ==> p.idx(k) == par_position(item@, k),
    {
        let mut positions: Vec<Position> = Vec::new();
        let id1 = sha1(item);
        positions.push(position_from_digest(&id1));
        let id2 = sha256(item);
        positions.push(position_from_digest(&id2));
        let id3 = sha384(item);
        positions.push(position_from_digest(&id3));
        ParPosition { positions }
    }

    /// Add an element: set its bit in every partition.
    pub fn set(&mut self, item: &[u8]) -> (p: ParPosition)
        requires
            old(self).wf(),
            old(self).count() < usize::MAX,
        ensures
            final(self).wf(),
            p.wf(),
            final(self).count() == old(self).count() + 1,
            forall|k: int| 0 <= k < K ==> p.idx(k) == par_position(item@, k),
            forall|k: int|
                0 <= k < K ==> #[trigger] final(self).bits_used_at(k) == old(self).bits_used_at(
                    k,
                ) + (if old(self).bit(k, par_position(item@, k)) {
                    0int
                } else {
                    1int
                }),
            forall|k: int, i: int|
                0 <= k < K && 0 <= i < M ==> final(self).bit(k, i) == (old(self).bit(k, i) || i
                    == par_position(item@, k)),
    {
        let p = Self::hash(item);
        let mut k: usize = 0;
        while k < K
            invariant
                old(self).wf(),
                old(self).count() < usize::MAX,
                p.wf(),
                forall|j: int| 0 <= j < K ==> p.idx(j) == par_position(item@, j),
                k <= K,
                self.parts@.len() == K,
                forall|j: int| 0 <= j < K ==> self.parts@[j].wf(),
                forall|j: int|
                    0 <= j < k ==> self.parts@[j].count() == old(self).parts@[j].count() + 1,
                forall|j: int|
                    0 <= j < k ==> (#[trigger] self.parts@[j]).bits_used() == old(
                        self,
                    ).parts@[j].bits_used() + (if old(self).parts@[j].bit(par_position(item@, j)) {
                        0int
                    } else {
                        1int
                    }),
                forall|j: int| k <= j < K ==> self.parts@[j] == old(self).parts@[j],
                forall|j: int, i: int|
                    0 <= j < k && 0 <= i < M ==> self.parts@[j].bit(i) == (old(self).parts@[j].bit(
                        i,
                    ) || i == par_position(item@, j)),
            decreases K - k,
        {
            let ghost prev = self.parts@;
            let pos = &p.positions[k];
            let part = &mut self.parts[k];
            part.add_at(pos);
            proof {
                assert(p.idx(k as int) == par_position(item@, k as int));
                assert(self.parts@ == prev.update(k as int, self.parts@[k as int]));
                assert(prev[k as int] == old(self).parts@[k as int]);
                assert(forall|i: int|
                    0 <= i < M ==> self.parts@[k as int].bit(i) == (old(self).parts@[k as int].bit(
                        i,
                    ) || i == par_position(item@, k as int)));
            }
            k += 1;
        }
        p
    }

    /// Look an element up: its positions if every partition has its bit set,
    /// `None` otherwise.
    pub fn find(&self, item: &[u8]) -> (r: Option<ParPosition>)
        requires
            self.wf(),
        ensures
            match r {
                Some(p) => p.wf() && forall|k: int|
                    0 <= k < K ==> self.bit(k, par_position(item@, k)),
                None => exists|k: int| 0 <= k < K && !self.bit(k, par_position(item@, k)),
            },
    {
        let p = Self::hash(item);
        let mut k: usize = 0;
        while k < K
            invariant
                self.wf(),
                p.wf(),
                forall|j: int| 0 <= j < K ==> p.idx(j) == par_position(item@, j),
                k <= K,
                forall|j: int| 0 <= j < k ==> self.bit(j, par_position(item@, j)),
            decreases K - k,
        {
            let hit = self.parts[k].find_by_position(&p.positions[k]);
            proof {
                assert(p.idx(k as int) == par_position(item@, k as int));
            }
            if !hit {
                proof {
                    assert(!self.bit(k as int, par_position(item@, k as int)));
                }
                return None;
            }
            proof {
                assert(self.bit(k as int, par_position(item@, k as int)));
            }
            k += 1;
        }
        Some(p)
    }

    /// Per-partition counts of additions that found their bit occupied.
    pub fn false_positive_cnt(&self) -> (r: Vec<usize>)
        requires
            self.wf(),
        ensures
            r@.len() == K,
            forall|k: int|
                0 <= k < K ==> #[trigger] r@[k] == self.count() - self.bits_used_at(k),
    {
        let mut r: Vec<usize> = Vec::new();
        let mut k: usize = 0;
        while k < K
            invariant
                self.wf(),
                k <= K,
                r@.len() == k,
                forall|j: int|
                    0 <= j < k ==> #[trigger] r@[j] == self.count() - self.bits_used_at(j),
            decreases K - k,
        {
            r.push(self.parts[k].false_positive_cnt());
            proof {
                assert(self.parts@[k as int].count() == self.count());
            }
            k += 1;
        }
        r
    }
}

} // verus!
