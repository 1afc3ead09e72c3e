//! A Merkle tree over the leaves in their given order: each layer above
//! hashes adjacent pairs, and a membership proof is the sibling chain from a
//! leaf to the root.

use vstd::prelude::*;
use crate::digest::{sha1, sha1_of};
use crate::tree::merkle_v2::{hash_pairs, layer_view, pad_layer, replay};
use crate::keys::{key_cmp, KeyOrder};
use crate::tree::mcl::clone_bytes;

verus! {

/// One step of a membership proof: a sibling digest, prepended or appended
/// before rehashing.
pub struct Proof {
    /// Whether the sibling goes in front of the running digest.
    pub prepend: bool,
    /// The sibling digest.
    pub hash: Vec<u8>,
}

/// The tree: `layers[0]` are the (sorted, padded) leaves, each layer above
/// is the pairwise hash of the one below, and the last layer is the root.
pub struct Merkle {
    layers: Vec<Vec<Vec<u8>>>,
}

/// A node of the tree, carrying its digest.
pub struct MerkleTree {
    /// The node's digest.
    pub hash: Vec<u8>,
}

/// The view of a proof path.
pub open spec fn path_view(path: Seq<Proof>) -> Seq<(bool, Seq<u8>)> {
    path.map(|i: int, p: Proof| (p.prepend, p.hash@))
}

impl Merkle {
    /// The layers, as mathematical sequences.
    pub closed spec fn layers_spec(&self) -> Seq<Seq<Seq<u8>>> {
        self.layers@.map(|i: int, l: Vec<Vec<u8>>| layer_view(l@))
    }

    /// The root digest.
    pub closed spec fn root_spec(&self) -> Seq<u8> {
        self.layers_spec().last()[0]
    }

    /// A built tree: at least one layer, a single digest on top, every
    /// non-top layer of even length at least two, each layer the pairwise
    /// hash of the one below.
    pub closed spec fn wf(&self) -> bool {
        let ls = self.layers_spec();
        &&& ls.len() >= 1
        &&& ls.last().len() == 1
        &&& (forall|l: int|
            0 <= l < ls.len() - 1 ==> (#[trigger] ls[l]).len() >= 2 && ls[l].len() % 2 == 0)
        &&& (forall|l: int|
            0 <= l < ls.len() - 1 ==> #[trigger] ls[l + 1] == pad_layer(hash_pairs(ls[l])))
    }

    /// The leaf layer.
    pub closed spec fn leaves(&self) -> Seq<Seq<u8>> {
        self.layers_spec()[0]
    }

    /// Build the tree over the given leaves: `None` when there are none,
    /// otherwise the leaves are padded to an even count with an empty entry
    /// and hashed pairwise up to a single root, in their given order.
    pub fn new(leaf_layer: Vec<Vec<u8>>) -> (r: Option<Merkle>)
        ensures
            match r {
                None => leaf_layer@.len() == 0,
                Some(m) => {
                    &&& m.wf()
                    &&& leaf_layer@.len() > 0
                    &&& m.leaves().take(leaf_layer@.len() as int) == layer_view(leaf_layer@)
                    &&& (m.leaves().len() == leaf_layer@.len() || (m.leaves().len()
                        == leaf_layer@.len() + 1 && m.leaves().last() == Seq::<u8>::empty()))
                },
            },
    {
        let n = leaf_layer.len();
        if n == 0 {
            return None;
        }
        let mut leaves = leaf_layer;
        if n == 1 {
            let mut layers: Vec<Vec<Vec<u8>>> = Vec::new();
            layers.push(leaves);
            let m = Merkle { layers };
            proof {
                assert(m.layers_spec().len() == 1);
                assert(m.leaves().take(1) =~= m.leaves());
            }
            return Some(m);
        }
        let ghost given_views = layer_view(leaves@);
        if leaves.len() % 2 == 1 {
            leaves.push(Vec::new());
        }
        proof {
            assert(layer_view(leaves@).take(n as int) =~= given_views);
        }
        let mut layers: Vec<Vec<Vec<u8>>> = Vec::new();
        layers.push(leaves);
        let m = Merkle { layers };
        let r = Self::build_up(m);
        proof {
            match &r {
                Some(m2) => {
                    assert(m2.leaves().take(n as int) == given_views);
                },
                None => {},
            }
        }
        r
    }

    /// Hash a finished bottom layer up to a single root.
    fn build_up(m: Merkle) -> (r: Option<Merkle>)
        requires
            m.layers_spec().len() == 1,
            m.layers_spec()[0].len() >= 2,
            m.layers_spec()[0].len() % 2 == 0,
        ensures
            match r {
                None => false,
                Some(m2) => m2.wf() && m2.leaves() == m.leaves(),
            },
    {
        let ghost bottom0 = m.layers_spec()[0];
        let mut m = m;
        loop
            invariant_except_break
                m.layers_spec().len() >= 1,
                m.layers_spec()[0] == bottom0,
                m.layers_spec().last().len() >= 2,
                m.layers_spec().last().len() % 2 == 0,
                forall|l: int|
                    0 <= l < m.layers_spec().len() - 1 ==> (#[trigger] m.layers_spec()[l]).len()
                        >= 2 && m.layers_spec()[l].len() % 2 == 0,
                forall|l: int|
                    0 <= l < m.layers_spec().len() - 1 ==> #[trigger] m.layers_spec()[l + 1]
                        == pad_layer(hash_pairs(m.layers_spec()[l])),
            ensures
                m.wf(),
                m.layers_spec()[0] == bottom0,
            decreases m.layers_spec().last().len(),
        {
            let ghost pre = m;
            let top_idx = m.layers.len() - 1;
            let mut next: Vec<Vec<u8>> = Vec::new();
            let top_len = m.layers[top_idx].len();
            let mut i: usize = 0;
            while i + 1 < top_len
                invariant
                    m == pre,
                    (top_idx as int) == m.layers_spec().len() - 1,
                    top_len == m.layers_spec().last().len(),
                    top_len % 2 == 0,
                    top_len >= 2,
                    i % 2 == 0,
                    i <= top_len,
                    layer_view(next@) =~= hash_pairs(m.layers_spec().last()).take(i as int / 2),
                decreases top_len - i,
            {
                let a = &m.layers[top_idx][i];
                let b = &m.layers[top_idx][i + 1];
                let mut joined = clone_bytes(a);
                let mut bb = clone_bytes(b);
                joined.append(&mut bb);
                proof {
                    assert(joined@ =~= m.layers_spec().last()[i as int] + m.layers_spec().last()[i
                        + 1]);
                }
                let hashed = sha1(joined.as_slice());
                let ghost prev_next = next@;
                next.push(hashed);
                proof {
                    assert(layer_view(next@) =~= layer_view(prev_next).push(hashed@));
                    assert(hash_pairs(m.layers_spec().last())[i as int / 2] == sha1_of(
                        m.layers_spec().last()[2 * (i as int / 2)] + m.layers_spec().last()[2 * (
                        i as int / 2) + 1],
                    ));
                    assert(layer_view(next@) =~= hash_pairs(m.layers_spec().last()).take(
                        i as int / 2 + 1,
                    ));
                }
                i += 2;
            }
            proof {
                assert(i == top_len);
                assert(layer_view(next@) =~= hash_pairs(m.layers_spec().last()));
            }
            if next.len() > 1 && next.len() % 2 == 1 {
                next.push(Vec::new());
            }
            proof {
                assert(layer_view(next@) =~= pad_layer(hash_pairs(pre.layers_spec().last())));
            }
            let next_len = next.len();
            m.layers.push(next);
            proof {
                assert(m.layers_spec() =~= pre.layers_spec().push(
                    pad_layer(hash_pairs(pre.layers_spec().last())),
                ));
                assert forall|l: int| 0 <= l < m.layers_spec().len() - 1 implies (
                #[trigger] m.layers_spec()[l]).len() >= 2 && m.layers_spec()[l].len() % 2
                    == 0 by {
                    if l < pre.layers_spec().len() - 1 {
                        assert(m.layers_spec()[l] == pre.layers_spec()[l]);
                    } else {
                        assert(m.layers_spec()[l] == pre.layers_spec().last());
                    }
                }
                assert forall|l: int|
                    0 <= l < m.layers_spec().len() - 1 implies #[trigger] m.layers_spec()[l + 1]
                    == pad_layer(hash_pairs(m.layers_spec()[l])) by {
                    if l < pre.layers_spec().len() - 1 {
                        assert(m.layers_spec()[l] == pre.layers_spec()[l]);
                        assert(m.layers_spec()[l + 1] == pre.layers_spec()[l + 1]);
                    } else {
                        assert(m.layers_spec()[l] == pre.layers_spec().last());
                    }
                }
            }
            if next_len == 1 {
                break;
            }
            proof {
                assert(m.layers_spec().last().len() % 2 == 0);
                assert(m.layers_spec().last().len() >= 2);
                assert(m.layers_spec().last().len() <= pre.layers_spec().last().len() / 2 + 1);
            }
        }
        Some(m)
    }

    /// Produce a membership proof for a leaf digest: the leaf itself, then
    /// one sibling per layer. `None` when the digest is not a leaf.
    #[verifier::rlimit(100)]
    #[verifier::spinoff_prover]
    pub fn prove(&self, hashsig: Vec<u8>) -> (r: Option<Vec<Proof>>)
        requires
            self.wf(),
        ensures
            match r {
                None => !self.leaves().contains(hashsig@),
                Some(path) => self.leaves().contains(hashsig@) && path@.len() >= 1
                    && path_view(path@)[0] == (false, hashsig@) && replay(path_view(path@))
                    == self.root_spec(),
            },
    {
        let bottom = &self.layers[0];
        let mut idx: usize = 0;
        let mut found = false;
        loop
            invariant_except_break
                self.wf(),
                bottom@ == self.layers@[0]@,
                idx <= bottom@.len(),
                !found,
                forall|k: int| 0 <= k < idx ==> self.leaves()[k] != hashsig@,
            ensures
                found ==> idx < self.leaves().len() && self.leaves()[idx as int] == hashsig@,
                !found ==> !self.leaves().contains(hashsig@),
            decreases bottom@.len() - idx,
        {
            if idx >= bottom.len() {
                proof {
                    assert forall|k: int|
                        0 <= k < self.leaves().len() implies self.leaves()[k] != hashsig@ by {}
                }
                break;
            }
            let hit = match key_cmp(bottom[idx].as_slice(), hashsig.as_slice()) {
                KeyOrder::Equal => true,
                _ => false,
            };
            proof {
                assert(self.leaves()[idx as int] == bottom@[idx as int]@);
                crate::keys::lemma_lex_trichotomy(bottom@[idx as int]@, hashsig@);
            }
            if hit {
                found = true;
                break;
            }
            idx += 1;
        }
        if !found {
            return None;
        }
        let mut path: Vec<Proof> = Vec::new();
        path.push(Proof { prepend: false, hash: hashsig });
        let mut l: usize = 0;
        let mut i: usize = idx;
        while l < self.layers.len() - 1
            invariant
                self.wf(),
                (l as int) < self.layers_spec().len(),
                (i as int) < self.layers_spec()[l as int].len(),
                path@.len() >= 1,
                path@[0].prepend == false,
                path@[0].hash@ == hashsig@,
                replay(path_view(path@)) == self.layers_spec()[l as int][i as int],
            decreases self.layers_spec().len() - l,
        {
            let ghost ls = self.layers_spec();
            proof {
                assert(ls[l as int].len() % 2 == 0);
                assert((i as int) / 2 < hash_pairs(ls[l as int]).len());
                assert(ls[l + 1] == pad_layer(hash_pairs(ls[l as int])));
                assert(ls[l + 1][i as int / 2] == hash_pairs(ls[l as int])[i as int / 2]) by {
                    assert(pad_layer(hash_pairs(ls[l as int])).len() >= hash_pairs(
                        ls[l as int],
                    ).len());
                }
            }
            let sib: Vec<u8>;
            let prepend: bool;
            if i % 2 == 0 {
                sib = clone_bytes(&self.layers[l][i + 1]);
                prepend = false;
            } else {
                sib = clone_bytes(&self.layers[l][i - 1]);
                prepend = true;
            }
            let ghost prev_path = path@;
            path.push(Proof { prepend, hash: sib });
            proof {
                assert(path_view(path@) =~= path_view(prev_path).push(
                    (prepend, path@.last().hash@),
                ));
                assert(path_view(path@).drop_last() =~= path_view(prev_path));
                let half = i as int / 2;
                assert(hash_pairs(ls[l as int])[half] == sha1_of(
                    ls[l as int][2 * half] + ls[l as int][2 * half + 1],
                ));
                if i % 2 == 0 {
                    assert(2 * half == i as int && 2 * half + 1 == i as int + 1);
                    assert(replay(path_view(path@)) == sha1_of(
                        ls[l as int][i as int] + ls[l as int][i as int + 1],
                    ));
                } else {
                    assert(2 * half == i as int - 1 && 2 * half + 1 == i as int);
                    assert(replay(path_view(path@)) == sha1_of(
                        ls[l as int][i as int - 1] + ls[l as int][i as int],
                    ));
                }
            }
            l += 1;
            i = i / 2;
        }
        proof {
            assert(l as int == self.layers_spec().len() - 1);
            assert(i as int == 0) by {
                assert(self.layers_spec().last().len() == 1);
            }
            assert(replay(path_view(path@)) == self.root_spec());
            assert(path_view(path@)[0] == (false, hashsig@));
        }
        Some(path)
    }

    /// The root node.
    pub fn tree(&self) -> (r: MerkleTree)
        requires
            self.wf(),
        ensures
            r.hash@ == self.root_spec(),
    {
        let top = self.layers.len() - 1;
        MerkleTree { hash: clone_bytes(&self.layers[top][0]) }
    }

    /// Fold a proof path back into a root digest; `None` on an empty path.
    pub fn calculate_root(hash_path: &Vec<Proof>) -> (r: Option<Vec<u8>>)
        ensures
            match r {
                None => hash_path@.len() == 0,
                Some(root) => hash_path@.len() > 0 && root@ == replay(path_view(hash_path@)),
            },
    {
        if hash_path.len() == 0 {
            return None;
        }
        let mut acc = clone_bytes(&hash_path[0].hash);
        let mut k: usize = 1;
        proof {
            assert(path_view(hash_path@).take(1).len() == 1);
            assert(replay(path_view(hash_path@).take(1)) == path_view(hash_path@)[0].1);
        }
        while k < hash_path.len()
            invariant
                1 <= k <= hash_path@.len(),
                acc@ == replay(path_view(hash_path@).take(k as int)),
            decreases hash_path@.len() - k,
        {
            let step = &hash_path[k];
            let ghost pv = path_view(hash_path@);
            let joined = if step.prepend {
                let mut j = clone_bytes(&step.hash);
                let mut a2 = acc;
                j.append(&mut a2);
                j
            } else {
                let mut j = acc;
                let mut s2 = clone_bytes(&step.hash);
                j.append(&mut s2);
                j
            };
            acc = sha1(joined.as_slice());
            proof {
                assert(pv.take(k + 1).drop_last() =~= pv.take(k as int));
                assert(pv.take(k + 1).last() == pv[k as int]);
            }
            k += 1;
        }
        proof {
            assert(path_view(hash_path@).take(hash_path@.len() as int) =~= path_view(hash_path@));
        }
        Some(acc)
    }
}

} // verus!
