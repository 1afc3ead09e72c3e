//! An uncompressed prefix tree: every key element is one edge, values sit
//! at the node the key's last element reaches.

use vstd::prelude::*;
use crate::bytes::AsBytes;

verus! {

/// A key element: ordered data with a mathematical view.
pub trait TrieKey: Sized {
    /// The element's value.
    spec fn key_spec(&self) -> int;

    /// Equality of elements, by their values.
    fn eq_key(&self, other: &Self) -> (r: bool)
        ensures
            r == (self.key_spec() == other.key_spec()),
    ;

    /// An owned copy.
    fn dup(&self) -> (r: Self)
        ensures
            r.key_spec() == self.key_spec(),
    ;
}

impl TrieKey for u8 {
    open spec fn key_spec(&self) -> int {
        *self as int
    }

    fn eq_key(&self, other: &Self) -> (r: bool) {
        *self == *other
    }

    fn dup(&self) -> (r: Self) {
        *self
    }
}

/// One node: a key element, an optional value, and the children below.
pub struct Node<K, V> {
    /// The key element this node is reached by.
    pub key: K,
    /// The value stored at this node, if any.
    pub value: Option<V>,
    /// The nodes below.
    pub children: Vec<Node<K, V>>,
}

/// The trie: the list of root-level nodes.
pub struct Trie<K, V> {
    pub(crate) roots: Vec<Node<K, V>>,
}

/// The path a key slice stands for.
pub open spec fn path_of<K: TrieKey>(key: Seq<K>) -> Seq<int> {
    key.map(|i: int, k: K| k.key_spec())
}

/// Walk a path through a list of nodes, taking the first matching child at
/// each level; the value stored at the path's end, if any.
pub open spec fn lookup_in<K: TrieKey, V>(cs: Seq<Node<K, V>>, path: Seq<int>) -> Option<V>
    decreases path.len(), cs.len(),
{
    if path.len() == 0 || cs.len() == 0 {
        None
    } else if cs[0].key.key_spec() == path[0] {
        if path.len() == 1 {
            cs[0].value
        } else {
            lookup_in(cs[0].children@, path.drop_first())
        }
    } else {
        lookup_in(cs.drop_first(), path)
    }
}

/// Whether nodes exist along the whole path.
pub open spec fn path_nodes_exist<K: TrieKey, V>(cs: Seq<Node<K, V>>, path: Seq<int>) -> bool
    decreases path.len(), cs.len(),
{
    if path.len() == 0 {
        true
    } else if cs.len() == 0 {
        false
    } else if cs[0].key.key_spec() == path[0] {
        path_nodes_exist(cs[0].children@, path.drop_first())
    } else {
        path_nodes_exist(cs.drop_first(), path)
    }
}

/// When no node among the first `j` matches the path's head, the walk skips
/// them.
proof fn lemma_lookup_skip<K: TrieKey, V>(cs: Seq<Node<K, V>>, path: Seq<int>, j: int)
    requires
        path.len() > 0,
        0 <= j <= cs.len(),
        forall|k: int| 0 <= k < j ==> (#[trigger] cs[k]).key.key_spec() != path[0],
    ensures
        lookup_in(cs, path) == lookup_in(cs.skip(j), path),
        path_nodes_exist(cs, path) == path_nodes_exist(cs.skip(j), path),
    decreases j,
{
    if j == 0 {
        assert(cs.skip(0) =~= cs);
    } else {
        assert(cs.skip(1).skip(j - 1) =~= cs.skip(j));
        lemma_lookup_skip(cs.drop_first(), path, j - 1);
    }
}

/// Updating the child at a non-matching position, or replacing the matching
/// child by one with the same key element, changes the walk only below the
/// match.
proof fn lemma_lookup_update<K: TrieKey, V>(
    cs: Seq<Node<K, V>>,
    i: int,
    c2: Node<K, V>,
    path: Seq<int>,
)
    requires
        path.len() > 0,
        0 <= i < cs.len(),
        c2.key.key_spec() == cs[i].key.key_spec(),
        forall|k: int| 0 <= k < i ==> (#[trigger] cs[k]).key.key_spec() != cs[i].key.key_spec(),
    ensures
        cs[i].key.key_spec() != path[0] ==> lookup_in(cs.update(i, c2), path) == lookup_in(
            cs,
            path,
        ) && path_nodes_exist(cs.update(i, c2), path) == path_nodes_exist(cs, path),
        cs[i].key.key_spec() == path[0] && path.len() == 1 ==> lookup_in(cs.update(i, c2), path)
            == c2.value && path_nodes_exist(cs.update(i, c2), path) == path_nodes_exist(
            c2.children@,
            path.drop_first(),
        ),
        cs[i].key.key_spec() == path[0] && path.len() > 1 ==> lookup_in(cs.update(i, c2), path)
            == lookup_in(c2.children@, path.drop_first()) && path_nodes_exist(
            cs.update(i, c2),
            path,
        ) == path_nodes_exist(c2.children@, path.drop_first()),
    decreases i,
{
    if i == 0 {
        if cs[0].key.key_spec() != path[0] {
            assert(cs.update(0, c2).drop_first() =~= cs.drop_first());
        }
    } else {
        assert(cs.update(i, c2).drop_first() =~= cs.drop_first().update(i - 1, c2));
        lemma_lookup_update(cs.drop_first(), i - 1, c2, path);
    }
}

/// Appending a node whose key element matches nothing earlier makes the walk
/// reach it, and leaves walks for other heads unchanged.
proof fn lemma_lookup_push<K: TrieKey, V>(cs: Seq<Node<K, V>>, c: Node<K, V>, path: Seq<int>)
    requires
        path.len() > 0,
        forall|k: int| 0 <= k < cs.len() ==> (#[trigger] cs[k]).key.key_spec() != c.key.key_spec(),
    ensures
        c.key.key_spec() != path[0] ==> lookup_in(cs.push(c), path) == lookup_in(cs, path),
        c.key.key_spec() == path[0] ==> lookup_in(cs.push(c), path) == lookup_in(seq![c], path),
    decreases cs.len(),
{
    if cs.len() == 0 {
        assert(cs.push(c) =~= seq![c]);
        assert(cs.push(c)[0] == c);
        assert(lookup_in(cs.push(c), path) == lookup_in(seq![c], path));
        if c.key.key_spec() != path[0] {
            assert(cs.push(c).drop_first() =~= cs);
            assert(lookup_in(cs.push(c), path) == lookup_in(cs, path));
        }
    } else {
        assert(cs.push(c).drop_first() =~= cs.drop_first().push(c));
        lemma_lookup_push(cs.drop_first(), c, path);
        assert(cs.push(c)[0] == cs[0]);
        if c.key.key_spec() == path[0] {
            assert(cs[0].key.key_spec() != path[0]);
            assert(lookup_in(cs.push(c), path) == lookup_in(cs.drop_first().push(c), path));
        }
    }
}

/// Two non-empty paths with equal heads and equal tails are equal.
proof fn lemma_head_tail_eq(p: Seq<int>, q: Seq<int>)
    requires
        p.len() > 0,
        q.len() > 0,
        p[0] == q[0],
        p.drop_first() == q.drop_first(),
    ensures
        p == q,
{
    assert(p =~= seq![p[0]] + p.drop_first());
    assert(q =~= seq![q[0]] + q.drop_first());
}

impl<K: TrieKey, V: AsBytes> Trie<K, V> {
    /// The stored value at a path.
    pub closed spec fn lookup(&self, path: Seq<int>) -> Option<V> {
        lookup_in(self.roots@, path)
    }

    /// Whether nodes exist along the whole path.
    pub closed spec fn occupied(&self, path: Seq<int>) -> bool {
        path_nodes_exist(self.roots@, path)
    }

    /// An empty trie.
    pub fn new() -> (r: Trie<K, V>)
        ensures
            forall|p: Seq<int>| #[trigger] r.lookup(p) is None,
            r.root_len() == 0,
    {
        let r = Trie { roots: Vec::new() };
        proof {
            assert forall|p: Seq<int>| #[trigger] r.lookup(p) is None by {}
        }
        r
    }

    /// How many root-level nodes the trie holds.
    pub closed spec fn root_len(&self) -> int {
        self.roots@.len() as int
    }

    /// The number of root-level nodes.
    pub fn len(&self) -> (r: usize)
        ensures
            r == self.root_len(),
    {
        self.roots.len()
    }

    /// Look a key up and return a copy of its value.
    pub fn query(&self, key: &[K]) -> (r: Option<V>)
        ensures
            r == self.lookup(path_of(key@)),
    {
        if key.len() == 0 {
            proof {
                assert(path_of(key@).len() == 0);
            }
            return None;
        }
        let r = Self::query_rec(&self.roots, key, 0);
        proof {
            assert(path_of(key@).skip(0) =~= path_of(key@));
        }
        r
    }

    /// Walk one level of the trie.
    fn query_rec(cs: &Vec<Node<K, V>>, key: &[K], d: usize) -> (r: Option<V>)
        requires
            (d as int) < key@.len(),
        ensures
            r == lookup_in(cs@, path_of(key@).skip(d as int)),
        decreases key@.len() - d,
    {
        let klen = key.len();
        let ghost path = path_of(key@).skip(d as int);
        let mut j: usize = 0;
        while j < cs.len()
            invariant
                klen == key@.len(),
                (d as int) < key@.len(),
                path == path_of(key@).skip(d as int),
                j <= cs@.len(),
                forall|k: int| 0 <= k < j ==> (#[trigger] cs@[k]).key.key_spec() != path[0],
            decreases cs@.len() - j,
        {
            if cs[j].key.eq_key(&key[d]) {
                proof {
                    lemma_lookup_skip(cs@, path, j as int);
                    assert(cs@.skip(j as int)[0] == cs@[j as int]);
                }
                if key.len() - d == 1 {
                    proof {
                        assert(path.len() == 1);
                    }
                    return match &cs[j].value {
                        Some(v) => Some(v.duplicate()),
                        None => None,
                    };
                }
                let r = Self::query_rec(&cs[j].children, key, d + 1);
                proof {
                    assert(path.drop_first() =~= path_of(key@).skip(d + 1));
                }
                return r;
            }
            j += 1;
        }
        proof {
            lemma_lookup_skip(cs@, path, cs@.len() as int);
        }
        None
    }

    /// Store a value under a key, extending the tree along the key's path.
    /// An empty key is rejected. The path must not already exist in full.
    pub fn insert(&mut self, key: &[K], value: V) -> (r: Result<(), ()>)
        requires
            !old(self).occupied(path_of(key@)) || key@.len() == 0,
        ensures
            match r {
                Ok(()) => key@.len() > 0 && final(self).lookup(path_of(key@)) == Some(value) && (
                forall|p: Seq<int>|
                    p != path_of(key@) ==> #[trigger] final(self).lookup(p) == old(self).lookup(
                        p,
                    )),
                Err(()) => key@.len() == 0 && *final(self) == *old(self),
            },
    {
        if key.len() == 0 {
            return Err(());
        }
        proof {
            assert(path_of(key@).len() > 0);
            assert(path_of(key@).skip(0) =~= path_of(key@));
        }
        Self::insert_rec(&mut self.roots, key, 0, value);
        Ok(())
    }

    /// Insert below one level.
    fn insert_rec(cs: &mut Vec<Node<K, V>>, key: &[K], d: usize, value: V)
        requires
            (d as int) < key@.len(),
            !path_nodes_exist(old(cs)@, path_of(key@).skip(d as int)),
        ensures
            lookup_in(final(cs)@, path_of(key@).skip(d as int)) == Some(value),
            forall|p: Seq<int>|
                p != path_of(key@).skip(d as int) && p.len() > 0 ==> lookup_in(final(cs)@, p)
                    == lookup_in(old(cs)@, p),
        decreases key@.len() - d,
    {
        let klen = key.len();
        let ghost path = path_of(key@).skip(d as int);
        let mut j: usize = 0;
        let clen = cs.len();
        let mut found = false;
        loop
            invariant_except_break
                (d as int) < key@.len(),
                path == path_of(key@).skip(d as int),
                !path_nodes_exist(cs@, path),
                clen == cs@.len(),
                j <= cs@.len(),
                !found,
                forall|k: int| 0 <= k < j ==> (#[trigger] cs@[k]).key.key_spec() != path[0],
            ensures
                path == path_of(key@).skip(d as int),
                clen == cs@.len(),
                !path_nodes_exist(cs@, path),
                found ==> j < cs@.len() && cs@[j as int].key.key_spec() == path[0] && (forall|
                    k: int,
                |
                    0 <= k < j ==> (#[trigger] cs@[k]).key.key_spec() != path[0]),
                !found ==> forall|k: int|
                    0 <= k < cs@.len() ==> (#[trigger] cs@[k]).key.key_spec() != path[0],
            decreases cs@.len() - j,
        {
            if j >= clen {
                break;
            }
            if cs[j].key.eq_key(&key[d]) {
                found = true;
                break;
            }
            j += 1;
        }
        if found {
            proof {
                lemma_lookup_skip(cs@, path, j as int);
                assert(cs@.skip(j as int)[0] == cs@[j as int]);
                assert(path.len() > 1) by {
                    if path.len() == 1 {
                        assert(path.drop_first().len() == 0);
                        assert(path_nodes_exist(
                            cs@.skip(j as int)[0].children@,
                            path.drop_first(),
                        ));
                        assert(path_nodes_exist(cs@.skip(j as int), path));
                    }
                }
                assert(!path_nodes_exist(cs@[j as int].children@, path.drop_first())) by {
                    assert(path_nodes_exist(cs@.skip(j as int), path) == path_nodes_exist(
                        cs@[j as int].children@,
                        path.drop_first(),
                    ));
                }
            }
            proof {
                assert(path.drop_first() =~= path_of(key@).skip(d + 1));
            }
            let ghost pre = cs@;
            let node = &mut cs[j];
            Self::insert_rec(&mut node.children, key, d + 1, value);
            proof {
                let c2 = cs@[j as int];
                assert(cs@ == pre.update(j as int, c2));
                assert(c2.key.key_spec() == pre[j as int].key.key_spec());
                assert(c2.value == pre[j as int].value);
                assert(lookup_in(c2.children@, path.drop_first()) == Some(value));
                lemma_lookup_update(pre, j as int, c2, path);
                assert(lookup_in(cs@, path) == Some(value));
                assert forall|p: Seq<int>| p != path && p.len() > 0 implies lookup_in(cs@, p)
                    == lookup_in(pre, p) by {
                    lemma_lookup_update(pre, j as int, c2, p);
                    if pre[j as int].key.key_spec() == p[0] && p.len() > 1 {
                        assert(p.drop_first() != path.drop_first()) by {
                            if p.drop_first() == path.drop_first() {
                                lemma_head_tail_eq(p, path);
                            }
                        }
                        assert(lookup_in(c2.children@, p.drop_first()) == lookup_in(
                            pre[j as int].children@,
                            p.drop_first(),
                        ));
                        lemma_lookup_update(pre, j as int, pre[j as int], p);
                        assert(pre.update(j as int, pre[j as int]) =~= pre);
                    } else if pre[j as int].key.key_spec() == p[0] && p.len() == 1 {
                        assert(lookup_in(cs@, p) == c2.value);
                        assert(lookup_in(pre, p) == pre[j as int].value) by {
                            lemma_lookup_update(pre, j as int, pre[j as int], p);
                            assert(pre.update(j as int, pre[j as int]) =~= pre);
                        }
                    }
                }
            }
        } else {
            // no branch for this element yet: graft the remaining chain
            let chain = Self::build_chain(key, d, value);
            let ghost pre = cs@;
            let ghost chain_g = chain;
            cs.push(chain);
            proof {
                assert(cs@ == pre.push(chain_g));
                lemma_lookup_push(pre, chain_g, path);
                assert(lookup_in(cs@, path) == Some(value)) by {
                    assert(chain_g.key.key_spec() == path[0]);
                    assert(lookup_in(seq![chain_g], path) == Some(value));
                }
                assert forall|p: Seq<int>| p != path && p.len() > 0 implies lookup_in(cs@, p)
                    == lookup_in(pre, p) by {
                    lemma_lookup_push(pre, chain_g, p);
                    if chain_g.key.key_spec() == p[0] {
                        assert(lookup_in(seq![chain_g], p) is None);
                        assert(lookup_in(pre, p) is None) by {
                            lemma_lookup_skip(pre, p, pre.len() as int);
                        }
                    }
                }
            }
        }
    }

    /// A fresh chain of nodes for `key[d..]`, holding the value exactly at
    /// the end of the remaining key and nothing anywhere else.
    fn build_chain(key: &[K], d: usize, value: V) -> (r: Node<K, V>)
        requires
            (d as int) < key@.len(),
        ensures
            r.key.key_spec() == path_of(key@).skip(d as int)[0],
            forall|p: Seq<int>|
                p.len() > 0 ==> #[trigger] lookup_in(seq![r], p) == (if p == path_of(key@).skip(
                    d as int,
                ) {
                    Some(value)
                } else {
                    None::<V>
                }),
        decreases key@.len() - d,
    {
        let klen = key.len();
        let ghost path = path_of(key@).skip(d as int);
        if klen - d == 1 {
            let r = Node { key: key[d].dup(), value: Some(value), children: Vec::new() };
            proof {
                assert(path.len() == 1);
                assert forall|p: Seq<int>| p.len() > 0 implies #[trigger] lookup_in(seq![r], p)
                    == (if p == path {
                    Some(value)
                } else {
                    None::<V>
                }) by {
                    assert(seq![r][0] == r);
                    if p[0] == r.key.key_spec() {
                        if p.len() == 1 {
                            assert(p =~= path);
                        } else {
                            assert(lookup_in(r.children@, p.drop_first()) is None);
                        }
                    } else {
                        assert(lookup_in(seq![r].drop_first(), p) is None);
                    }
                }
            }
            r
        } else {
            let below = Self::build_chain(key, d + 1, value);
            let ghost below_g = below;
            let mut children: Vec<Node<K, V>> = Vec::new();
            children.push(below);
            let r = Node { key: key[d].dup(), value: None, children };
            proof {
                assert(r.children@ =~= seq![below_g]);
                assert(path.drop_first() =~= path_of(key@).skip(d + 1));
                assert forall|p: Seq<int>| p.len() > 0 implies #[trigger] lookup_in(seq![r], p)
                    == (if p == path {
                    Some(value)
                } else {
                    None::<V>
                }) by {
                    assert(seq![r][0] == r);
                    if p[0] == r.key.key_spec() {
                        if p.len() == 1 {
                            assert(p != path);
                            assert(lookup_in(seq![r], p) == r.value);
                        } else {
                            assert(lookup_in(seq![r], p) == lookup_in(
                                seq![below_g],
                                p.drop_first(),
                            ));
                            assert(p.drop_first().len() > 0);
                            if p == path {
                                assert(p.drop_first() == path.drop_first());
                            } else {
                                assert(p.drop_first() != path.drop_first()) by {
                                    if p.drop_first() == path.drop_first() {
                                        lemma_head_tail_eq(p, path);
                                    }
                                }
                            }
                        }
                    } else {
                        assert(lookup_in(seq![r].drop_first(), p) is None);
                        assert(p != path);
                    }
                }
            }
            r
        }
    }

    /// Remove the value stored under a key; the node itself is dropped when
    /// it has no children. Fails when the key's path does not exist.
    pub fn remove(&mut self, key: &[K]) -> (r: Result<(), ()>)
        ensures
            match r {
                Ok(()) => key@.len() > 0 && final(self).lookup(path_of(key@)) is None && (forall|
                    p: Seq<int>,
                |
                    p != path_of(key@) ==> #[trigger] final(self).lookup(p) == old(self).lookup(
                        p,
                    )),
                Err(()) => (forall|p: Seq<int>|
                    #[trigger] final(self).lookup(p) == old(self).lookup(p))
                    && final(self).root_len() == old(self).root_len(),
            },
    {
        if key.len() == 0 {
            return Err(());
        }
        proof {
            assert(path_of(key@).len() > 0);
            assert(path_of(key@).skip(0) =~= path_of(key@));
        }
        Self::remove_rec(&mut self.roots, key, 0)
    }

    /// Remove below one level.
    fn remove_rec(cs: &mut Vec<Node<K, V>>, key: &[K], d: usize) -> (r: Result<(), ()>)
        requires
            (d as int) < key@.len(),
        ensures
            match r {
                Ok(()) => lookup_in(final(cs)@, path_of(key@).skip(d as int)) is None && (forall|
                    p: Seq<int>,
                |
                    p != path_of(key@).skip(d as int) && p.len() > 0 ==> lookup_in(final(cs)@, p)
                        == lookup_in(old(cs)@, p)),
                Err(()) => final(cs)@.len() == old(cs)@.len() && (forall|p: Seq<int>|
                    p.len() > 0 ==> lookup_in(final(cs)@, p) == lookup_in(old(cs)@, p)),
            },
        decreases key@.len() - d,
    {
        let klen = key.len();
        let ghost path = path_of(key@).skip(d as int);
        let mut j: usize = 0;
        let clen = cs.len();
        let mut found = false;
        loop
            invariant_except_break
                (d as int) < key@.len(),
                path == path_of(key@).skip(d as int),
                clen == cs@.len(),
                j <= cs@.len(),
                !found,
                forall|k: int| 0 <= k < j ==> (#[trigger] cs@[k]).key.key_spec() != path[0],
            ensures
                path == path_of(key@).skip(d as int),
                clen == cs@.len(),
                found ==> j < cs@.len() && cs@[j as int].key.key_spec() == path[0] && (forall|
                    k: int,
                |
                    0 <= k < j ==> (#[trigger] cs@[k]).key.key_spec() != path[0]),
                !found ==> forall|k: int|
                    0 <= k < cs@.len() ==> (#[trigger] cs@[k]).key.key_spec() != path[0],
            decreases cs@.len() - j,
        {
            if j >= clen {
                break;
            }
            if cs[j].key.eq_key(&key[d]) {
                found = true;
                break;
            }
            j += 1;
        }
        if !found {
            proof {
                lemma_lookup_skip(cs@, path, cs@.len() as int);
            }
            return Err(());
        }
        proof {
            lemma_lookup_skip(cs@, path, j as int);
            assert(cs@.skip(j as int)[0] == cs@[j as int]);
        }
        if key.len() - d == 1 {
            // the path ends here: clear the value (the node itself stays, so
            // longer keys through it survive)
            let ghost pre = cs@;
            let node = &mut cs[j];
            node.value = None;
            proof {
                let c2 = cs@[j as int];
                assert(cs@ == pre.update(j as int, c2));
                lemma_lookup_update(pre, j as int, c2, path);
                assert(lookup_in(cs@, path) is None);
                assert forall|p: Seq<int>| p != path && p.len() > 0 implies lookup_in(cs@, p)
                    == lookup_in(pre, p) by {
                    lemma_lookup_update(pre, j as int, c2, p);
                    if pre[j as int].key.key_spec() == p[0] && p.len() > 1 {
                        assert(c2.children@ == pre[j as int].children@);
                        assert(lookup_in(pre, p) == lookup_in(
                            pre[j as int].children@,
                            p.drop_first(),
                        )) by {
                            lemma_lookup_update(pre, j as int, pre[j as int], p);
                            assert(pre.update(j as int, pre[j as int]) =~= pre);
                        }
                    } else if pre[j as int].key.key_spec() == p[0] && p.len() == 1 {
                        assert(p =~= path);
                    }
                }
            }
            return Ok(());
        }
        proof {
            assert(path.drop_first() =~= path_of(key@).skip(d + 1));
        }
        let ghost pre = cs@;
        let node = &mut cs[j];
        let r = Self::remove_rec(&mut node.children, key, d + 1);
        match r {
            Ok(()) => {
                proof {
                    let c2 = cs@[j as int];
                    assert(cs@ == pre.update(j as int, c2));
                    lemma_lookup_update(pre, j as int, c2, path);
                    assert(lookup_in(cs@, path) is None);
                    assert forall|p: Seq<int>| p != path && p.len() > 0 implies lookup_in(cs@, p)
                        == lookup_in(pre, p) by {
                        lemma_lookup_update(pre, j as int, c2, p);
                        lemma_lookup_update(pre, j as int, pre[j as int], p);
                        assert(pre.update(j as int, pre[j as int]) =~= pre);
                        if pre[j as int].key.key_spec() == p[0] && p.len() > 1 {
                            assert(p.drop_first() != path.drop_first()) by {
                                if p.drop_first() == path.drop_first() {
                                    lemma_head_tail_eq(p, path);
                                }
                            }
                        }
                    }
                }
                Ok(())
            },
            Err(()) => {
                proof {
                    let c2 = cs@[j as int];
                    assert(cs@ == pre.update(j as int, c2));
                    assert(c2.key.key_spec() == pre[j as int].key.key_spec());
                    assert(c2.value == pre[j as int].value);
                    assert forall|p: Seq<int>| p.len() > 0 implies lookup_in(cs@, p) == lookup_in(
                        pre,
                        p,
                    ) by {
                        lemma_lookup_update(pre, j as int, c2, p);
                        lemma_lookup_update(pre, j as int, pre[j as int], p);
                        assert(pre.update(j as int, pre[j as int]) =~= pre);
                        if pre[j as int].key.key_spec() == p[0] && p.len() > 1 {
                            assert(lookup_in(c2.children@, p.drop_first()) == lookup_in(
                                pre[j as int].children@,
                                p.drop_first(),
                            ));
                        }
                    }
                }
                Err(())
            },
        }
    }

}

} // verus!
