//! A hash-keyed map: entries are stored under the digest of their key, and
//! a digest collision between distinct keys is reported, never resolved.

use vstd::prelude::*;
use crate::bytes::AsBytes;
use crate::digest::{sha256, sha256_of};
use crate::keys::{key_cmp, lemma_lex_trichotomy, KeyOrder};

verus! {

/// A key that hashes itself to a digest of a fixed length.
pub trait HashX: Sized {
    /// The digest of the key.
    spec fn hashx_spec(&self) -> Seq<u8>;

    /// The fixed digest length, in bytes.
    spec fn hashx_len_spec() -> nat;

    /// Sample the digest length.
    fn hashx_len() -> (r: usize)
        ensures
            r == Self::hashx_len_spec(),
    ;

    /// Hash the key.
    fn hashx(&self) -> (r: Vec<u8>)
        ensures
            r@ == self.hashx_spec(),
            r@.len() == Self::hashx_len_spec(),
    ;

    /// An owned copy.
    fn dup_key(&self) -> (r: Self)
        ensures
            r == *self,
    ;

    /// Equality of keys.
    fn eq_key(&self, other: &Self) -> (r: bool)
        ensures
            r == (*self == *other),
    ;
}

impl HashX for u64 {
    open spec fn hashx_spec(&self) -> Seq<u8> {
        sha256_of(self.bytes_spec())
    }

    open spec fn hashx_len_spec() -> nat {
        32
    }

    fn hashx_len() -> (r: usize) {
        let probe = 1u64.as_bytes();
        sha256(probe.as_slice()).len()
    }

    fn hashx(&self) -> (r: Vec<u8>) {
        let b = self.as_bytes();
        sha256(b.as_slice())
    }

    fn dup_key(&self) -> (r: Self) {
        *self
    }

    fn eq_key(&self, other: &Self) -> (r: bool) {
        *self == *other
    }
}

/// One stored entry: the key's digest, the key, and the value.
pub struct Node<K, V> {
    /// The digest the entry is filed under.
    pub hashsig: Vec<u8>,
    /// The key.
    pub k: K,
    /// The value.
    pub v: V,
}

/// Why an operation failed.
#[derive(Debug)]
pub enum XErr {
    /// A supplied digest has the wrong length.
    HashLen,
    /// The digest is not present.
    NotExists,
    /// A distinct key is already filed under the same digest.
    HashCollision,
    /// Internal lookup failure; never produced by this implementation.
    Unknown,
}

/// The map: the stored entries, and the digest length sampled from the key
/// type at construction, against which supplied digests are checked.
pub struct HashMap<K, V> {
    keysiz: usize,
    entries: Vec<Node<K, V>>,
}

/// The first entry filed under a digest, if any.
pub open spec fn find_entry<K, V>(s: Seq<Node<K, V>>, h: Seq<u8>) -> Option<Node<K, V>>
    decreases s.len(),
{
    if s.len() == 0 {
        None
    } else if s[0].hashsig@ == h {
        Some(s[0])
    } else {
        find_entry(s.drop_first(), h)
    }
}

/// When no entry among the first `j` matches, the search skips them.
proof fn lemma_find_skip<K, V>(s: Seq<Node<K, V>>, h: Seq<u8>, j: int)
    requires
        0 <= j <= s.len(),
        forall|k: int| 0 <= k < j ==> (#[trigger] s[k]).hashsig@ != h,
    ensures
        find_entry(s, h) == find_entry(s.skip(j), h),
    decreases j,
{
    if j == 0 {
        assert(s.skip(0) =~= s);
    } else {
        assert(s.skip(1).skip(j - 1) =~= s.skip(j));
        lemma_find_skip(s.drop_first(), h, j - 1);
    }
}

/// Appending an entry under a fresh digest leaves other digests' searches
/// unchanged and makes its own digest findable.
proof fn lemma_find_push<K, V>(s: Seq<Node<K, V>>, c: Node<K, V>, h: Seq<u8>)
    requires
        forall|k: int| 0 <= k < s.len() ==> (#[trigger] s[k]).hashsig@ != c.hashsig@,
    ensures
        c.hashsig@ != h ==> find_entry(s.push(c), h) == find_entry(s, h),
        c.hashsig@ == h ==> find_entry(s.push(c), h) == Some(c),
    decreases s.len(),
{
    if s.len() == 0 {
        assert(s.push(c) =~= seq![c]);
        assert(s.push(c)[0] == c);
        if c.hashsig@ != h {
            assert(s.push(c).drop_first() =~= s);
        }
    } else {
        assert(s.push(c).drop_first() =~= s.drop_first().push(c));
        lemma_find_push(s.drop_first(), c, h);
        assert(s.push(c)[0] == s[0]);
    }
}

impl<K: HashX, V: AsBytes> HashMap<K, V> {
    /// The entry filed under a digest.
    pub closed spec fn lookup(&self, h: Seq<u8>) -> Option<Node<K, V>> {
        find_entry(self.entries@, h)
    }

    /// How many entries are stored.
    pub closed spec fn count(&self) -> int {
        self.entries@.len() as int
    }

    /// The sampled digest length matches the key type's.
    pub closed spec fn wf(&self) -> bool {
        self.keysiz == K::hashx_len_spec()
    }

    /// An empty map.
    pub fn new() -> (r: HashMap<K, V>)
        ensures
            r.wf(),
            forall|h: Seq<u8>| #[trigger] r.lookup(h) is None,
            r.count() == 0,
    {
        let r = HashMap { keysiz: K::hashx_len(), entries: Vec::new() };
        proof {
            assert forall|h: Seq<u8>| #[trigger] r.lookup(h) is None by {}
        }
        r
    }

    /// Look a digest up and return a copy of the value filed under it:
    /// `HashLen` for a digest of the wrong length, `NotExists` when the
    /// digest is absent.
    pub fn query_value(&self, key: &[u8]) -> (r: Result<Option<V>, XErr>)
        requires
            self.wf(),
        ensures
            match r {
                Ok(ov) => match ov {
                    Some(v) => key@.len() == K::hashx_len_spec() && self.lookup(key@) is Some
                        && v == self.lookup(key@).unwrap().v,
                    None => false,
                },
                Err(e) => match e {
                    XErr::HashLen => key@.len() != K::hashx_len_spec(),
                    XErr::NotExists => key@.len() == K::hashx_len_spec() && self.lookup(key@)
                        is None,
                    _ => false,
                },
            },
    {
        if key.len() != self.keysiz {
            return Err(XErr::HashLen);
        }
        let mut j: usize = 0;
        while j < self.entries.len()
            invariant
                self.wf(),
                key@.len() == K::hashx_len_spec(),
                j <= self.entries@.len(),
                forall|k: int| 0 <= k < j ==> (#[trigger] self.entries@[k]).hashsig@ != key@,
            decreases self.entries@.len() - j,
        {
            let hit = match key_cmp(self.entries[j].hashsig.as_slice(), key) {
                KeyOrder::Equal => true,
                _ => false,
            };
            proof {
                lemma_lex_trichotomy(self.entries@[j as int].hashsig@, key@);
            }
            if hit {
                proof {
                    lemma_find_skip(self.entries@, key@, j as int);
                    assert(self.entries@.skip(j as int)[0] == self.entries@[j as int]);
                }
                return Ok(Some(self.entries[j].v.duplicate()));
            }
            j += 1;
        }
        proof {
            lemma_find_skip(self.entries@, key@, self.entries@.len() as int);
        }
        Err(XErr::NotExists)
    }

    /// File a key and value under the key's digest. Filing the same key
    /// again succeeds without change, even with a different value: the
    /// stored value is never overwritten. A distinct key under the same
    /// digest is a collision and changes nothing.
    pub fn insert(&mut self, k: K, v: V) -> (r: Result<(), XErr>)
        ensures
            final(self).wf() == old(self).wf(),
            match r {
                Ok(()) => {
                    let h = k.hashx_spec();
                    &&& final(self).lookup(h) is Some
                    &&& final(self).lookup(h).unwrap().k == k
                    &&& (forall|h2: Seq<u8>|
                        h2 != h ==> #[trigger] final(self).lookup(h2) == old(self).lookup(h2))
                    &&& (old(self).lookup(h) is None ==> final(self).lookup(h).unwrap().v == v
                        && final(self).count() == old(self).count() + 1)
                    &&& (old(self).lookup(h) is Some ==> *final(self) == *old(self)
                        && final(self).lookup(h).unwrap().v == old(self).lookup(h).unwrap().v)
                },
                Err(e) => {
                    &&& e is HashCollision
                    &&& *final(self) == *old(self)
                    &&& old(self).lookup(k.hashx_spec()) is Some
                    &&& old(self).lookup(k.hashx_spec()).unwrap().k != k
                },
            },
    {
        let h = k.hashx();
        let mut j: usize = 0;
        while j < self.entries.len()
            invariant
                j <= self.entries@.len(),
                h@ == k.hashx_spec(),
                forall|kk: int| 0 <= kk < j ==> (#[trigger] self.entries@[kk]).hashsig@ != h@,
            decreases self.entries@.len() - j,
        {
            let hit = match key_cmp(self.entries[j].hashsig.as_slice(), h.as_slice()) {
                KeyOrder::Equal => true,
                _ => false,
            };
            proof {
                lemma_lex_trichotomy(self.entries@[j as int].hashsig@, h@);
            }
            if hit {
                proof {
                    lemma_find_skip(self.entries@, h@, j as int);
                    assert(self.entries@.skip(j as int)[0] == self.entries@[j as int]);
                }
                let same = self.entries[j].k.eq_key(&k);
                if same {
                    return Ok(());
                } else {
                    return Err(XErr::HashCollision);
                }
            }
            j += 1;
        }
        proof {
            lemma_find_skip(self.entries@, h@, self.entries@.len() as int);
        }
        let node = Node { hashsig: h, k, v };
        let ghost pre = self.entries@;
        let ghost node_g = node;
        self.entries.push(node);
        proof {
            assert(self.entries@ == pre.push(node_g));
            assert forall|h2: Seq<u8>| h2 != node_g.hashsig@ implies #[trigger] find_entry(
                self.entries@,
                h2,
            ) == find_entry(pre, h2) by {
                lemma_find_push(pre, node_g, h2);
            }
            lemma_find_push(pre, node_g, node_g.hashsig@);
        }
        Ok(())
    }
}

} // verus!
