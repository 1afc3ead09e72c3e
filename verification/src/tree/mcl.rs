//! The Merkle cross list: a sorted, hash-keyed, tamper-evident index.
//!
//! Values are keyed by the digest of their bytes. The structure is a stack of
//! layers; the bottom layer holds one node per stored value in strictly
//! increasing key order, and each layer above holds one representative node
//! per *unit* (run of nodes sharing a parent) of the layer below. Every
//! non-top layer's units are kept between 2 and `unit_maxsiz` nodes by
//! splitting at half capacity on overflow and absorbing single-node units
//! into their smaller neighbour (rightward on a tie) on underflow, so the
//! height stays logarithmic. Each parent node carries the digest of its
//! unit's member digests; the digest over the top layer is the root
//! commitment, and membership proofs replay that chain.
//!
//! The enforced minimum unit capacity is 4, the stricter of the two
//! candidate minimums, which keeps split halves at two nodes or more.

use vstd::prelude::*;
use vstd::seq_lib::lemma_flatten_concat;
use crate::bytes::AsBytes;
use crate::digest::{views_of, Digester, Sha256Digester};
use crate::keys::{key_cmp, lemma_lex_trans, lemma_lex_trichotomy, lex_lt, KeyOrder};

verus! {

/// One node: a key (digest of the value's bytes), the value, and the node's
/// contribution to the Merkle commitment. Bottom-layer nodes carry the stored
/// values; nodes above carry copies taken from the leftmost leaf below them.
pub struct Node<V> {
    /// The digest of the value's bytes.
    pub key: Vec<u8>,
    /// The stored value (a representative copy above the bottom layer).
    pub value: V,
    /// The node's Merkle digest: the key for a leaf, the digest of the child
    /// unit's digests for an inner node.
    pub merklesig: Vec<u8>,
}

/// Why an operation failed.
#[derive(Debug)]
pub enum XErr<V> {
    /// A supplied key does not have the configured digest length.
    HashLen,
    /// The key is absent; carries the value of the nearest left neighbour
    /// when there is one.
    NotExists(Option<V>),
    /// A distinct value is already stored under the same key; carries that
    /// value. Never overwritten.
    HashCollision(V),
    /// Internal navigation failed; never produced by this implementation.
    Unknown,
}

/// The Merkle cross list. `layers[0]` is the bottom layer; each layer is a
/// list of units, each unit a non-empty run of nodes with a common parent.
pub struct MCL<V, D> {
    unit_maxsiz: usize,
    merklesig_len: usize,
    hash: D,
    merklesig: Option<Vec<u8>>,
    item_cnt: usize,
    layers: Vec<Vec<Vec<Node<V>>>>,
}

/// The nodes of a layer, left to right, with unit boundaries erased.
pub open spec fn units_flat<V>(us: Seq<Vec<Node<V>>>) -> Seq<Node<V>> {
    us.map(|i: int, u: Vec<Node<V>>| u@).flatten()
}

/// The flat position of slot `i` of unit `u`.
pub open spec fn flat_index<V>(us: Seq<Vec<Node<V>>>, u: int, i: int) -> int {
    units_flat(us.take(u)).len() + i
}

/// Flattening distributes over concatenation of unit lists.
pub proof fn lemma_units_flat_concat<V>(a: Seq<Vec<Node<V>>>, b: Seq<Vec<Node<V>>>)
    ensures
        units_flat(a + b) =~= units_flat(a) + units_flat(b),
{
    assert((a + b).map(|i: int, u: Vec<Node<V>>| u@) =~= a.map(|i: int, u: Vec<Node<V>>| u@)
        + b.map(|i: int, u: Vec<Node<V>>| u@));
    lemma_flatten_concat(
        a.map(|i: int, u: Vec<Node<V>>| u@),
        b.map(|i: int, u: Vec<Node<V>>| u@),
    );
}

/// A layer's nodes split at any unit boundary `u`.
pub proof fn lemma_units_flat_split<V>(us: Seq<Vec<Node<V>>>, u: int)
    requires
        0 <= u <= us.len(),
    ensures
        units_flat(us) =~= units_flat(us.take(u)) + units_flat(us.skip(u)),
{
    assert(us =~= us.take(u) + us.skip(u));
    lemma_units_flat_concat(us.take(u), us.skip(u));
}

/// Flattening one unit yields that unit.
pub proof fn lemma_units_flat_single<V>(us: Seq<Vec<Node<V>>>)
    requires
        us.len() == 1,
    ensures
        units_flat(us) =~= us[0]@,
{
    let m = us.map(|i: int, u: Vec<Node<V>>| u@);
    assert(m.len() == 1);
    m.lemma_flatten_one_element();
    assert(m.first() == us[0]@);
}

/// Where slot `(u, i)` of a layer lands in the flat view.
pub proof fn lemma_flat_index_get<V>(us: Seq<Vec<Node<V>>>, u: int, i: int)
    requires
        0 <= u < us.len(),
        0 <= i < us[u]@.len(),
    ensures
        0 <= flat_index(us, u, i) < units_flat(us).len(),
        units_flat(us)[flat_index(us, u, i)] == us[u]@[i],
        units_flat(us.take(u)).len() + us[u]@.len() <= units_flat(us).len(),
{
    lemma_units_flat_split(us, u);
    let rest = us.skip(u);
    assert(rest.len() >= 1);
    assert(rest =~= rest.take(1) + rest.skip(1));
    lemma_units_flat_concat(rest.take(1), rest.skip(1));
    lemma_units_flat_single(rest.take(1));
    assert(rest.take(1)[0] == us[u]);
    assert(units_flat(us.skip(u)) =~= us[u]@ + units_flat(us.skip(u).skip(1)));
    assert(units_flat(us)[flat_index(us, u, i)] == units_flat(us.skip(u))[i]);
}

/// A unit's starting flat position, one unit over.
pub proof fn lemma_flat_index_step<V>(us: Seq<Vec<Node<V>>>, u: int)
    requires
        0 <= u < us.len(),
    ensures
        flat_index(us, u + 1, 0) == flat_index(us, u, 0) + us[u]@.len(),
{
    assert(us.take(u + 1) =~= us.take(u) + seq![us[u]]);
    lemma_units_flat_concat(us.take(u), seq![us[u]]);
    lemma_units_flat_single(seq![us[u]]);
}

/// The flat view of a layer is as long as the sum of its unit lengths; in
/// particular the whole layer ends where its last unit ends.
pub proof fn lemma_units_flat_len_final<V>(us: Seq<Vec<Node<V>>>)
    requires
        us.len() > 0,
    ensures
        units_flat(us).len() == flat_index(us, us.len() - 1, 0) + us[us.len() - 1]@.len(),
{
    let u = us.len() - 1;
    lemma_units_flat_split(us, u);
    assert(us.skip(u) =~= seq![us[u]]);
    lemma_units_flat_single(seq![us[u]]);
}

impl<V: AsBytes, D: Digester> MCL<V, D> {
    /// The number of layers.
    pub closed spec fn height_spec(&self) -> int {
        self.layers@.len() as int
    }

    /// The units of layer `l`.
    pub closed spec fn layer(&self, l: int) -> Seq<Vec<Node<V>>> {
        self.layers@[l]@
    }

    /// One unit of one layer.
    pub closed spec fn unit_at(&self, l: int, u: int) -> Seq<Node<V>> {
        self.layers@[l]@[u]@
    }

    /// The nodes of layer `l`, left to right.
    pub closed spec fn flat(&self, l: int) -> Seq<Node<V>> {
        units_flat(self.layer(l))
    }

    /// The bottom layer's nodes: one per stored value, sorted by key.
    pub closed spec fn bottom(&self) -> Seq<Node<V>> {
        if self.height_spec() == 0 {
            Seq::empty()
        } else {
            self.flat(0)
        }
    }

    /// The stored keys, in order.
    pub closed spec fn key_seq(&self) -> Seq<Seq<u8>> {
        self.bottom().map(|i: int, n: Node<V>| n.key@)
    }

    /// Whether some key is stored.
    pub closed spec fn contains_key(&self, k: Seq<u8>) -> bool {
        exists|i: int| 0 <= i < self.bottom().len() && self.bottom()[i].key@ == k
    }

    /// The bottom index of a stored key.
    pub closed spec fn index_of_key(&self, k: Seq<u8>) -> int {
        choose|i: int| 0 <= i < self.bottom().len() && self.bottom()[i].key@ == k
    }

    /// The stored key/value pairs as a map.
    pub closed spec fn as_map(&self) -> Map<Seq<u8>, V> {
        Map::new(
            |k: Seq<u8>| self.contains_key(k),
            |k: Seq<u8>| self.bottom()[self.index_of_key(k)].value,
        )
    }

    /// The key a value would be stored under.
    pub closed spec fn spec_key_of(&self, value: V) -> Seq<u8> {
        self.hash.digest_spec(seq![value.bytes_spec()])
    }

    /// What this structure's hash function returns on the given parts.
    pub closed spec fn spec_digest_of(&self, parts: Seq<Seq<u8>>) -> Seq<u8> {
        self.hash.digest_spec(parts)
    }

    /// The configured unit capacity.
    pub closed spec fn unit_max_spec(&self) -> int {
        self.unit_maxsiz as int
    }

    /// The configured digest length.
    pub closed spec fn sig_len_spec(&self) -> int {
        self.merklesig_len as int
    }

    /// The root commitment, if any.
    pub closed spec fn root_sig_spec(&self) -> Option<Seq<u8>> {
        match self.merklesig {
            Some(s) => Some(s@),
            None => None,
        }
    }

    /// The digest of a unit's member digests.
    pub closed spec fn unit_sig_spec(&self, unit: Seq<Node<V>>) -> Seq<u8> {
        self.hash.digest_spec(unit.map(|i: int, n: Node<V>| n.merklesig@))
    }

    /// Link shape: non-empty layers of non-empty units, a single top unit,
    /// and one parent node per unit of the layer below.
    pub closed spec fn wf_links(&self) -> bool {
        let h = self.height_spec();
        &&& self.unit_maxsiz >= 4
        &&& self.merklesig_len == self.hash.digest_len_spec()
        &&& (h == 0 ==> self.merklesig is None)
        &&& (forall|l: int| 0 <= l < h ==> (#[trigger] self.layer(l)).len() > 0)
        &&& (forall|l: int, u: int|
            0 <= l < h && 0 <= u < self.layer(l).len() ==> (#[trigger] self.unit_at(l, u)).len()
                >= 1)
        &&& (h > 0 ==> self.layer(h - 1).len() == 1)
        &&& (forall|l: int|
            1 <= l < h ==> (#[trigger] self.flat(l)).len() == self.layer(l - 1).len())
    }

    /// Every parent node is keyed by (and carries a copy of the value of)
    /// the first member of its unit.
    pub closed spec fn wf_reps(&self) -> bool {
        let h = self.height_spec();
        forall|l: int, j: int|
            1 <= l < h && 0 <= j < self.layer(l - 1).len() ==> (#[trigger] self.flat(l)[j]).key@
                == self.unit_at(l - 1, j)[0].key@
    }

    /// The smallest size rebalancing lets a unit keep: half of the smallest
    /// capacity below the top layer, a single node at the top.
    pub closed spec fn size_lo(&self, l: int) -> int {
        if l < self.height_spec() - 1 {
            2
        } else {
            1
        }
    }

    /// Unit `(l, u)` is within its size bounds, with one extra slot allowed
    /// while a split is pending.
    pub closed spec fn size_ok_at(&self, l: int, u: int, slack: int) -> bool {
        self.size_lo(l) <= self.unit_at(l, u).len() <= self.unit_maxsiz + slack
    }

    /// Units of layers `lmin` and above are within bounds, except
    /// `(l0, u0)`, which may hold one node too many.
    pub closed spec fn wf_sizes_above_except(&self, lmin: int, l0: int, u0: int) -> bool {
        forall|l: int, u: int|
            lmin <= l < self.height_spec() && 0 <= u < self.layer(l).len() ==> self.size_lo(l)
                <= (#[trigger] self.unit_at(l, u)).len() && self.unit_at(l, u).len()
                <= self.unit_maxsiz + (if l == l0 && u == u0 {
                1int
            } else {
                0int
            })
    }

    /// All units are within bounds except `(l0, u0)`, which may hold one
    /// node too many.
    pub closed spec fn wf_sizes_except(&self, l0: int, u0: int) -> bool {
        self.wf_sizes_above_except(0, l0, u0)
    }

    /// All units are within their size bounds.
    pub closed spec fn wf_sizes(&self) -> bool {
        self.wf_sizes_except(-1, -1)
    }

    /// Between operations the top unit always has spare room: an insertion
    /// reaching capacity splits it at once.
    pub closed spec fn top_within(&self) -> bool {
        self.height_spec() > 0 ==> self.unit_at(self.height_spec() - 1, 0).len()
            <= self.unit_maxsiz - 1
    }

    /// Layer shape: links, representatives, sizes, a roomy top unit, and an
    /// accurate count.
    pub closed spec fn wf_shape(&self) -> bool {
        &&& self.wf_links()
        &&& self.wf_reps()
        &&& self.wf_sizes()
        &&& self.top_within()
        &&& self.item_cnt == self.bottom().len()
    }

    /// Bottom keys strictly increase left to right.
    pub closed spec fn wf_sorted(&self) -> bool {
        forall|i: int|
            0 <= i < self.bottom().len() - 1 ==> lex_lt(
                (#[trigger] self.bottom()[i]).key@,
                self.bottom()[i + 1].key@,
            )
    }

    /// Bottom nodes are keyed by the digest of their value, the key has the
    /// configured length, and a leaf's Merkle digest is its key.
    pub closed spec fn wf_keys(&self) -> bool {
        forall|i: int|
            0 <= i < self.bottom().len() ==> {
                let n = #[trigger] self.bottom()[i];
                &&& n.key@ == self.spec_key_of(n.value)
                &&& n.key@.len() == self.merklesig_len
                &&& n.merklesig@ == n.key@
            }
    }

    /// Every parent node carries the digest of its unit's member digests, and
    /// the root commitment is the digest over the top unit.
    pub closed spec fn wf_commit(&self) -> bool {
        let h = self.height_spec();
        &&& (forall|l: int, u: int|
            1 <= l < h && 0 <= u < self.layer(l - 1).len() ==> (#[trigger] self.flat(l)[u]).merklesig@
                == self.unit_sig_spec(self.unit_at(l - 1, u)))
        &&& (h > 0 ==> self.root_sig_spec() == Some(self.unit_sig_spec(self.unit_at(h - 1, 0))))
    }

    /// The full structure invariant.
    pub closed spec fn wf(&self) -> bool {
        self.wf_shape() && self.wf_sorted() && self.wf_keys() && self.wf_commit()
    }
}

/// Adjacent sortedness extends to any two positions.
pub proof fn lemma_adj_sorted_general<V>(s: Seq<Node<V>>, i: int, j: int)
    requires
        forall|k: int|
            0 <= k < s.len() - 1 ==> lex_lt((#[trigger] s[k]).key@, s[k + 1].key@),
        0 <= i < j < s.len(),
    ensures
        lex_lt(s[i].key@, s[j].key@),
    decreases j - i,
{
    if j == i + 1 {
    } else {
        lemma_adj_sorted_general(s, i, j - 1);
        lemma_lex_trans(s[i].key@, s[j - 1].key@, s[j].key@);
    }
}

impl<V: AsBytes, D: Digester> MCL<V, D> {
    /// A layer has no more nodes than the layer below has units; with every
    /// unit non-empty, no more units than nodes.
    pub proof fn lemma_layer_len(&self, l: int)
        requires
            self.wf_links(),
            0 <= l < self.height_spec(),
        ensures
            self.layer(l).len() <= self.flat(l).len(),
            self.flat(l).len() <= self.bottom().len(),
        decreases l,
    {
        assert forall|u: int| 0 <= u < self.layer(l).len() implies flat_index(
            self.layer(l),
            u,
            0,
        ) >= u by {
            self.lemma_unit_starts_grow(l, u);
        }
        if self.layer(l).len() > 0 {
            let last = self.layer(l).len() - 1;
            lemma_units_flat_len_final(self.layer(l));
            self.lemma_unit_starts_grow(l, last);
            assert(self.unit_at(l, last).len() >= 1);
        }
        if l > 0 {
            self.lemma_layer_len(l - 1);
            assert(self.flat(l).len() == self.layer(l - 1).len());
        }
    }

    /// Unit start positions grow at least one per unit.
    proof fn lemma_unit_starts_grow(&self, l: int, u: int)
        requires
            0 <= l < self.height_spec(),
            0 <= u < self.layer(l).len(),
            forall|u2: int|
                0 <= u2 < self.layer(l).len() ==> (#[trigger] self.unit_at(l, u2)).len() >= 1,
        ensures
            flat_index(self.layer(l), u, 0) >= u,
            flat_index(self.layer(l), u, 0) + self.unit_at(l, u).len() <= self.flat(l).len(),
        decreases u,
    {
        if u > 0 {
            self.lemma_unit_starts_grow(l, u - 1);
            lemma_flat_index_step(self.layer(l), u - 1);
            assert(self.unit_at(l, u - 1).len() >= 1);
        }
        assert(self.unit_at(l, u).len() >= 1);
        lemma_flat_index_get(self.layer(l), u, 0);
    }

    /// Every layer's nodes are strictly sorted by key, adjacent pairs first.
    pub proof fn lemma_layer_sorted(&self, l: int)
        requires
            self.wf_links(),
            self.wf_reps(),
            self.wf_sorted(),
            0 <= l < self.height_spec(),
        ensures
            forall|j: int|
                0 <= j < self.flat(l).len() - 1 ==> lex_lt(
                    (#[trigger] self.flat(l)[j]).key@,
                    self.flat(l)[j + 1].key@,
                ),
        decreases l,
    {
        if l == 0 {
            assert(self.flat(0) == self.bottom());
        } else {
            self.lemma_layer_sorted(l - 1);
            let below = self.layer(l - 1);
            assert forall|j: int| 0 <= j < self.flat(l).len() - 1 implies lex_lt(
                (#[trigger] self.flat(l)[j]).key@,
                self.flat(l)[j + 1].key@,
            ) by {
                assert(self.flat(l).len() == below.len());
                assert(self.flat(l)[j].key@ == self.unit_at(l - 1, j)[0].key@);
                assert(self.flat(l)[j + 1].key@ == self.unit_at(l - 1, j + 1)[0].key@);
                lemma_flat_index_get(below, j, 0);
                lemma_flat_index_get(below, j + 1, 0);
                lemma_flat_index_step(below, j);
                let a = flat_index(below, j, 0);
                let b = flat_index(below, j + 1, 0);
                assert(a < b);
                lemma_adj_sorted_general(self.flat(l - 1), a, b);
            }
        }
    }

    /// Every layer starts with a node keyed by the smallest stored key.
    pub proof fn lemma_leftmost_key(&self, l: int)
        requires
            self.wf_links(),
            self.wf_reps(),
            0 <= l < self.height_spec(),
        ensures
            self.flat(l).len() > 0,
            self.flat(l)[0].key@ == self.bottom()[0].key@,
        decreases l,
    {
        assert(self.layer(l).len() > 0);
        assert(self.unit_at(l, 0).len() >= 1);
        lemma_flat_index_get(self.layer(l), 0, 0);
        assert(flat_index(self.layer(l), 0, 0) == 0) by {
            assert(self.layer(l).take(0) =~= Seq::<Vec<Node<V>>>::empty());
            assert(units_flat(Seq::<Vec<Node<V>>>::empty()) =~= Seq::<Node<V>>::empty());
        }
        if l > 0 {
            self.lemma_leftmost_key(l - 1);
            assert(self.layer(l - 1).len() > 0);
            assert(self.flat(l)[0].key@ == self.unit_at(l - 1, 0)[0].key@);
            assert(self.unit_at(l - 1, 0).len() >= 1);
            lemma_flat_index_get(self.layer(l - 1), 0, 0);
            assert(flat_index(self.layer(l - 1), 0, 0) == 0) by {
                assert(self.layer(l - 1).take(0) =~= Seq::<Vec<Node<V>>>::empty());
                assert(units_flat(Seq::<Vec<Node<V>>>::empty()) =~= Seq::<Node<V>>::empty());
            }
        }
    }

    /// A stored key sits at exactly one bottom position.
    pub proof fn lemma_key_unique(&self, j: int)
        requires
            self.wf_sorted(),
            0 <= j < self.bottom().len(),
        ensures
            self.contains_key(self.bottom()[j].key@),
            self.index_of_key(self.bottom()[j].key@) == j,
            self.as_map()[self.bottom()[j].key@] == self.bottom()[j].value,
    {
        let k = self.bottom()[j].key@;
        assert(self.contains_key(k));
        let i = self.index_of_key(k);
        if i != j {
            if i < j {
                lemma_adj_sorted_general(self.bottom(), i, j);
            } else {
                lemma_adj_sorted_general(self.bottom(), j, i);
            }
            lemma_lex_trichotomy(self.bottom()[i].key@, self.bottom()[j].key@);
        }
    }

    /// Build an empty list around a hash function; the unit capacity must
    /// be at least 4. The digest length is sampled by hashing a four-byte
    /// sentinel once.
    pub fn init(unit_maxsiz: usize, hash: D) -> (r: MCL<V, D>)
        requires
            unit_maxsiz >= 4,
        ensures
            r.wf(),
            r.unit_max_spec() == unit_maxsiz,
            r.sig_len_spec() == hash.digest_len_spec(),
            r.height_spec() == 0,
            r.root_sig_spec() is None,
            r.as_map() =~= Map::<Seq<u8>, V>::empty(),
            r.bottom().len() == 0,
    {
        let mut probe: Vec<Vec<u8>> = Vec::new();
        let mut sentinel: Vec<u8> = Vec::new();
        sentinel.push(0);
        sentinel.push(0);
        sentinel.push(0);
        sentinel.push(0);
        probe.push(sentinel);
        let sample = hash.digest(&probe);
        let r = MCL {
            unit_maxsiz,
            merklesig_len: sample.len(),
            hash,
            merklesig: None,
            item_cnt: 0,
            layers: Vec::new(),
        };
        proof {
            assert(r.bottom() =~= Seq::<Node<V>>::empty());
            assert forall|k: Seq<u8>| !r.contains_key(k) by {}
            assert(r.as_map() =~= Map::<Seq<u8>, V>::empty());
        }
        r
    }

    /// Drop the whole structure.
    pub fn destroy(self) {
    }

    /// The configured unit capacity.
    pub fn unit_maxsiz(&self) -> (r: usize)
        ensures
            r == self.unit_max_spec(),
    {
        self.unit_maxsiz
    }

    /// The root commitment: the digest over the top layer, or `None` while
    /// the structure is empty.
    pub fn merklesig(&self) -> (r: Option<Vec<u8>>)
        ensures
            match r {
                Some(s) => self.root_sig_spec() == Some(s@),
                None => self.root_sig_spec() is None,
            },
    {
        match &self.merklesig {
            Some(s) => Some(clone_bytes(s)),
            None => None,
        }
    }

    /// How many values are stored.
    pub fn item_cnt(&self) -> (r: usize)
        requires
            self.wf(),
        ensures
            r == self.bottom().len(),
    {
        self.item_cnt
    }

    /// The number of layers.
    pub fn height(&self) -> (r: usize)
        ensures
            r == self.height_spec(),
    {
        self.layers.len()
    }

    /// Recount the stored values by walking the bottom layer.
    pub fn item_cnt_realtime(&self) -> (r: usize)
        requires
            self.wf(),
        ensures
            r == self.bottom().len(),
    {
        if self.layers.len() == 0 {
            return 0;
        }
        proof {
            self.lemma_layer_len(0);
        }
        let bottom_units = &self.layers[0];
        let mut total: usize = 0;
        let mut u: usize = 0;
        proof {
            assert(bottom_units@.take(0) =~= Seq::<Vec<Node<V>>>::empty());
            assert(units_flat(Seq::<Vec<Node<V>>>::empty()) =~= Seq::<Node<V>>::empty());
        }
        while u < bottom_units.len()
            invariant
                self.wf(),
                self.height_spec() > 0,
                bottom_units@ == self.layer(0),
                u <= self.layer(0).len(),
                total == flat_index(self.layer(0), u as int, 0),
                total <= self.bottom().len(),
            decreases self.layer(0).len() - u,
        {
            proof {
                self.lemma_unit_starts_grow(0, u as int);
                lemma_flat_index_step(self.layer(0), u as int);
            }
            total = total + bottom_units[u].len();
            u += 1;
        }
        proof {
            lemma_units_flat_len_final(self.layer(0));
            lemma_flat_index_step(self.layer(0), self.layer(0).len() - 1);
        }
        total
    }
}

impl<V: AsBytes, D: Digester> MCL<V, D> {
    /// The flat position where unit `u` of layer `l` starts.
    fn unit_start(&self, l: usize, u: usize) -> (s: usize)
        requires
            self.wf_shape(),
            (l as int) < self.height_spec(),
            (u as int) < self.layer(l as int).len(),
        ensures
            s as int == flat_index(self.layer(l as int), u as int, 0),
    {
        proof {
            self.lemma_layer_len(l as int);
        }
        let units = &self.layers[l];
        let mut s: usize = 0;
        let mut v: usize = 0;
        proof {
            assert(units@.take(0) =~= Seq::<Vec<Node<V>>>::empty());
            assert(units_flat(Seq::<Vec<Node<V>>>::empty()) =~= Seq::<Node<V>>::empty());
        }
        while v < u
            invariant
                self.wf_shape(),
                (l as int) < self.height_spec(),
                (u as int) < self.layer(l as int).len(),
                units@ == self.layer(l as int),
                v <= u,
                s as int == flat_index(self.layer(l as int), v as int, 0),
                s <= self.bottom().len(),
            decreases u - v,
        {
            proof {
                self.lemma_unit_starts_grow(l as int, v as int);
                lemma_flat_index_step(self.layer(l as int), v as int);
                self.lemma_layer_len(l as int);
            }
            s = s + units[v].len();
            v += 1;
        }
        s
    }

    /// Walk right inside one unit to the last slot whose key does not exceed
    /// the target, given that everything past this unit already does.
    fn scan_layer(&self, l: usize, u: usize, key: &[u8]) -> (i: usize)
        requires
            self.wf_shape(),
            self.wf_sorted(),
            (l as int) < self.height_spec(),
            (u as int) < self.layer(l as int).len(),
            !lex_lt(key@, self.unit_at(l as int, u as int)[0].key@),
            forall|j2: int|
                flat_index(self.layer(l as int), u as int, 0) + self.unit_at(
                    l as int,
                    u as int,
                ).len() <= j2 < self.flat(l as int).len() ==> lex_lt(
                    key@,
                    (#[trigger] self.flat(l as int)[j2]).key@,
                ),
        ensures
            (i as int) < self.unit_at(l as int, u as int).len(),
            !lex_lt(key@, self.unit_at(l as int, u as int)[i as int].key@),
            forall|j2: int|
                flat_index(self.layer(l as int), u as int, i as int) < j2 < self.flat(
                    l as int,
                ).len() ==> lex_lt(key@, (#[trigger] self.flat(l as int)[j2]).key@),
    {
        let lg = Ghost(l as int);
        let ug = Ghost(u as int);
        let unit = &self.layers[l][u];
        let mut i: usize = 0;
        proof {
            assert(unit@ == self.unit_at(lg@, ug@));
        }
        loop
            invariant_except_break
                self.wf_shape(),
                self.wf_sorted(),
                lg@ < self.height_spec(),
                ug@ < self.layer(lg@).len(),
                unit@ == self.unit_at(lg@, ug@),
                (i as int) < unit@.len(),
                !lex_lt(key@, unit@[i as int].key@),
                forall|j2: int|
                    flat_index(self.layer(lg@), ug@, 0) + unit@.len() <= j2 < self.flat(
                        lg@,
                    ).len() ==> lex_lt(key@, (#[trigger] self.flat(lg@)[j2]).key@),
            ensures
                (i as int) < unit@.len(),
                !lex_lt(key@, unit@[i as int].key@),
                (i as int) + 1 == unit@.len() || lex_lt(key@, unit@[i + 1].key@),
                forall|j2: int|
                    flat_index(self.layer(lg@), ug@, 0) + unit@.len() <= j2 < self.flat(
                        lg@,
                    ).len() ==> lex_lt(key@, (#[trigger] self.flat(lg@)[j2]).key@),
            decreases unit@.len() - i,
        {
            if i >= unit.len() - 1 {
                break;
            }
            let next_le = match key_cmp(&unit[i + 1].key, key) {
                KeyOrder::Greater => false,
                _ => true,
            };
            proof {
                lemma_lex_trichotomy(key@, unit@[i + 1].key@);
            }
            if !next_le {
                break;
            }
            i += 1;
        }
        proof {
            let li = lg@;
            let ui = ug@;
            let us = self.layer(li);
            self.lemma_layer_sorted(li);
            self.lemma_unit_starts_grow(li, ui);
            lemma_flat_index_get(us, ui, i as int);
            let j = flat_index(us, ui, i as int);
            let bound = flat_index(us, ui, 0) + unit@.len();
            assert forall|j2: int| j < j2 < self.flat(li).len() implies lex_lt(
                key@,
                (#[trigger] self.flat(li)[j2]).key@,
            ) by {
                if j2 < bound {
                    // inside this unit, just past the stopping slot
                    lemma_flat_index_get(us, ui, i + 1);
                    assert(self.flat(li)[j + 1] == unit@[i + 1]);
                    if j2 == j + 1 {
                    } else {
                        lemma_adj_sorted_general(self.flat(li), j + 1, j2);
                        lemma_lex_trans(key@, self.flat(li)[j + 1].key@, self.flat(li)[j2].key@);
                    }
                } else {
                    // past the unit: covered by the precondition
                }
            }
        }
        i
    }

    /// Find the rightmost bottom slot whose key does not exceed `key`;
    /// `None` when the structure is empty or `key` is below every stored key.
    fn locate(&self, key: &[u8]) -> (r: Option<(usize, usize)>)
        requires
            self.wf_shape(),
            self.wf_sorted(),
        ensures
            match r {
                None => forall|i: int|
                    0 <= i < self.bottom().len() ==> lex_lt(
                        key@,
                        (#[trigger] self.bottom()[i]).key@,
                    ),
                Some((u, i)) => {
                    &&& (u as int) < self.layer(0).len()
                    &&& (i as int) < self.unit_at(0, u as int).len()
                    &&& {
                        let j = flat_index(self.layer(0), u as int, i as int);
                        &&& 0 <= j < self.bottom().len()
                        &&& !lex_lt(key@, self.bottom()[j].key@)
                        &&& forall|j2: int|
                            j < j2 < self.bottom().len() ==> lex_lt(
                                key@,
                                (#[trigger] self.bottom()[j2]).key@,
                            )
                    }
                },
            },
    {
        let h = self.layers.len();
        if h == 0 {
            return None;
        }
        let top = h - 1;
        proof {
            assert(self.layer(top as int).len() > 0);
            assert(self.unit_at(top as int, 0).len() >= 1);
        }
        let below_min = match key_cmp(key, &self.layers[top][0][0].key) {
            KeyOrder::Less => true,
            _ => false,
        };
        proof {
            assert(self.unit_at(top as int, 0) == self.layers@[top as int]@[0]@);
            self.lemma_leftmost_key(top as int);
            assert(self.unit_at(top as int, 0).len() >= 1);
            lemma_flat_index_get(self.layer(top as int), 0, 0);
            assert(flat_index(self.layer(top as int), 0, 0) == 0) by {
                assert(self.layer(top as int).take(0) =~= Seq::<Vec<Node<V>>>::empty());
                assert(units_flat(Seq::<Vec<Node<V>>>::empty()) =~= Seq::<Node<V>>::empty());
            }
            assert(self.flat(top as int)[0] == self.unit_at(top as int, 0)[0]);
            lemma_units_flat_len_final(self.layer(top as int));
            assert(self.flat(top as int).len() == self.unit_at(top as int, 0).len());
        }
        if below_min {
            proof {
                self.lemma_layer_sorted(0);
                assert forall|i: int| 0 <= i < self.bottom().len() implies lex_lt(
                    key@,
                    (#[trigger] self.bottom()[i]).key@,
                ) by {
                    if i > 0 {
                        lemma_adj_sorted_general(self.bottom(), 0, i);
                        lemma_lex_trans(key@, self.bottom()[0].key@, self.bottom()[i].key@);
                    }
                }
            }
            return None;
        }
        proof {
            lemma_lex_trichotomy(key@, self.unit_at(top as int, 0)[0].key@);
        }
        let mut l = top;
        let mut u: usize = 0;
        let mut slot: usize = 0;
        loop
            invariant_except_break
                self.wf_shape(),
                self.wf_sorted(),
                (l as int) < self.height_spec(),
                (u as int) < self.layer(l as int).len(),
                !lex_lt(key@, self.unit_at(l as int, u as int)[0].key@),
                forall|j2: int|
                    flat_index(self.layer(l as int), u as int, 0) + self.unit_at(
                        l as int,
                        u as int,
                    ).len() <= j2 < self.flat(l as int).len() ==> lex_lt(
                        key@,
                        (#[trigger] self.flat(l as int)[j2]).key@,
                    ),
            ensures
                self.height_spec() > 0,
                (u as int) < self.layer(0).len(),
                (slot as int) < self.unit_at(0, u as int).len(),
                ({
                    let j = flat_index(self.layer(0), u as int, slot as int);
                    &&& 0 <= j < self.bottom().len()
                    &&& !lex_lt(key@, self.bottom()[j].key@)
                    &&& forall|j2: int|
                        j < j2 < self.bottom().len() ==> lex_lt(
                            key@,
                            (#[trigger] self.bottom()[j2]).key@,
                        )
                }),
            decreases l,
        {
            let i = self.scan_layer(l, u, key);
            if l == 0 {
                proof {
                    lemma_flat_index_get(self.layer(0), u as int, i as int);
                }
                slot = i;
                break;
            }
            let s = self.unit_start(l, u);
            proof {
                self.lemma_unit_starts_grow(l as int, u as int);
                lemma_flat_index_get(self.layer(l as int), u as int, i as int);
                self.lemma_layer_len(l as int);
            }
            let j = s + i;
            proof {
                let li = l as int;
                let ji = j as int;
                let below = self.layer(li - 1);
                assert(self.flat(li)[ji] == self.unit_at(li, u as int)[i as int]);
                assert(ji < self.flat(li).len());
                assert(self.flat(li).len() == below.len());
                // representative key of the child unit
                assert(self.flat(li)[ji].key@ == self.unit_at(li - 1, ji)[0].key@);
                // everything past the child unit is larger than the key
                self.lemma_unit_starts_grow(li - 1, ji);
                self.lemma_layer_sorted(li - 1);
                let child_end = flat_index(below, ji, 0) + self.unit_at(li - 1, ji).len();
                assert forall|j2: int| child_end <= j2 < self.flat(li - 1).len() implies lex_lt(
                    key@,
                    (#[trigger] self.flat(li - 1)[j2]).key@,
                ) by {
                    if ji + 1 < below.len() {
                        lemma_flat_index_step(below, ji);
                        assert(self.unit_at(li - 1, ji + 1).len() >= 1);
                        lemma_flat_index_get(below, ji + 1, 0);
                        let p = flat_index(below, ji + 1, 0);
                        assert(self.flat(li - 1)[p] == self.unit_at(li - 1, ji + 1)[0]);
                        assert(self.flat(li - 1)[p].key@ == self.flat(li)[ji + 1].key@);
                        assert(lex_lt(key@, self.flat(li)[ji + 1].key@));
                        if j2 > p {
                            lemma_adj_sorted_general(self.flat(li - 1), p, j2);
                            lemma_lex_trans(
                                key@,
                                self.flat(li - 1)[p].key@,
                                self.flat(li - 1)[j2].key@,
                            );
                        }
                    } else {
                        lemma_units_flat_len_final(below);
                    }
                }
            }
            l = l - 1;
            u = j;
        }
        Some((u, slot))
    }

    /// Look a key up and return a copy of its value, or `None` when the key
    /// is absent (including keys of the wrong length).
    pub fn get(&self, key: &[u8]) -> (r: Option<V>)
        requires
            self.wf(),
        ensures
            match r {
                Some(v) => self.contains_key(key@) && v == self.as_map()[key@],
                None => !self.contains_key(key@),
            },
    {
        if key.len() != self.merklesig_len {
            proof {
                assert forall|i: int| 0 <= i < self.bottom().len() implies (
                #[trigger] self.bottom()[i]).key@ != key@ by {}
            }
            return None;
        }
        match self.locate(key) {
            None => {
                proof {
                    assert forall|i: int| 0 <= i < self.bottom().len() implies (
                    #[trigger] self.bottom()[i]).key@ != key@ by {
                        lemma_lex_trichotomy(key@, self.bottom()[i].key@);
                    }
                }
                None
            },
            Some((u, i)) => {
                let node = &self.layers[0][u][i];
                proof {
                    lemma_flat_index_get(self.layer(0), u as int, i as int);
                    assert(node == self.bottom()[flat_index(self.layer(0), u as int, i as int)]);
                }
                let ghost j = flat_index(self.layer(0), u as int, i as int);
                match key_cmp(&node.key, key) {
                    KeyOrder::Equal => {
                        proof {
                            self.lemma_key_unique(j);
                        }
                        Some(node.value.duplicate())
                    },
                    _ => {
                        proof {
                            lemma_lex_trichotomy(key@, self.bottom()[j].key@);
                            self.lemma_layer_sorted(0);
                            assert forall|i2: int| 0 <= i2 < self.bottom().len() implies (
                            #[trigger] self.bottom()[i2]).key@ != key@ by {
                                lemma_lex_trichotomy(key@, self.bottom()[i2].key@);
                                if i2 < j {
                                    lemma_adj_sorted_general(self.bottom(), i2, j);
                                    lemma_lex_trans(
                                        self.bottom()[i2].key@,
                                        self.bottom()[j].key@,
                                        key@,
                                    );
                                } else if i2 == j {
                                }
                            }
                        }
                        None
                    },
                }
            },
        }
    }
}

/// The digest over a unit's member digests, with the given hash function.
fn unit_sig_vec<V: AsBytes, D: Digester>(hash: &D, unit: &Vec<Node<V>>) -> (r: Vec<u8>)
    ensures
        r@ == hash.digest_spec(unit@.map(|i: int, n: Node<V>| n.merklesig@)),
        r@.len() == hash.digest_len_spec(),
{
    let ghost target = unit@.map(|i: int, n: Node<V>| n.merklesig@);
    let mut parts: Vec<Vec<u8>> = Vec::new();
    let mut i: usize = 0;
    while i < unit.len()
        invariant
            target == unit@.map(|k: int, n: Node<V>| n.merklesig@),
            i <= unit@.len(),
            views_of(parts@) =~= target.take(i as int),
        decreases unit@.len() - i,
    {
        let piece = clone_bytes(&unit[i].merklesig);
        let ghost prev = parts@;
        parts.push(piece);
        proof {
            assert(parts@ == prev.push(piece));
            assert(views_of(prev).len() == prev.len());
            assert(target.take(i as int).len() == i);
            assert(prev.len() == i as int);
            assert forall|k: int| 0 <= k < i + 1 implies #[trigger] views_of(parts@)[k]
                == target.take(i + 1)[k] by {
                if k < i {
                    assert(views_of(prev)[k] == target.take(i as int)[k]);
                    assert(parts@[k] == prev[k]);
                } else {
                    assert(parts@[k] == piece);
                }
            }
            assert(views_of(parts@) =~= target.take(i + 1));
        }
        i += 1;
    }
    proof {
        assert(views_of(parts@) =~= target);
    }
    hash.digest(&parts)
}

impl<V: AsBytes, D: Digester> MCL<V, D> {
    /// The digest over the member digests of unit `u` of layer `l`.
    fn unit_sig(&self, l: usize, u: usize) -> (r: Vec<u8>)
        requires
            (l as int) < self.height_spec(),
            (u as int) < self.layer(l as int).len(),
        ensures
            r@ == self.unit_sig_spec(self.unit_at(l as int, u as int)),
            r@.len() == self.hash.digest_len_spec(),
    {
        unit_sig_vec(&self.hash, &self.layers[l][u])
    }

    /// The unit and slot holding the node at flat position `j` of layer `l`.
    fn unit_pos(&self, l: usize, j: usize) -> (r: (usize, usize))
        requires
            (l as int) < self.height_spec(),
            (j as int) < self.flat(l as int).len(),
            self.layer(l as int).len() > 0,
            forall|u: int|
                0 <= u < self.layer(l as int).len() ==> (#[trigger] self.unit_at(
                    l as int,
                    u,
                )).len() >= 1,
        ensures
            (r.0 as int) < self.layer(l as int).len(),
            (r.1 as int) < self.unit_at(l as int, r.0 as int).len(),
            flat_index(self.layer(l as int), r.0 as int, r.1 as int) == j as int,
    {
        let units = &self.layers[l];
        let mut u: usize = 0;
        let mut start: usize = 0;
        proof {
            assert(units@.take(0) =~= Seq::<Vec<Node<V>>>::empty());
            assert(units_flat(Seq::<Vec<Node<V>>>::empty()) =~= Seq::<Node<V>>::empty());
        }
        loop
            invariant_except_break
                (l as int) < self.height_spec(),
                (j as int) < self.flat(l as int).len(),
                units@ == self.layer(l as int),
                forall|u2: int|
                    0 <= u2 < self.layer(l as int).len() ==> (#[trigger] self.unit_at(
                        l as int,
                        u2,
                    )).len() >= 1,
                (u as int) < units@.len(),
                start as int == flat_index(self.layer(l as int), u as int, 0),
                start <= j,
            ensures
                (u as int) < units@.len(),
                units@ == self.layer(l as int),
                start as int == flat_index(self.layer(l as int), u as int, 0),
                start <= j,
                (j as int) < start as int + self.unit_at(l as int, u as int).len(),
            decreases units@.len() - u,
        {
            proof {
                assert(self.unit_at(l as int, u as int).len() >= 1);
                self.lemma_unit_starts_grow(l as int, u as int);
            }
            if j - start < units[u].len() {
                break;
            }
            proof {
                lemma_flat_index_step(self.layer(l as int), u as int);
                if u + 1 == units@.len() {
                    lemma_units_flat_len_final(self.layer(l as int));
                    assert(false);
                }
            }
            start = start + units[u].len();
            u += 1;
        }
        (u, j - start)
    }

    /// Rebuild every parent node (representative key, value, and unit
    /// digest) bottom-up, and refresh the root commitment, leaving the layer
    /// partition and the bottom layer untouched.
    fn refresh_all(&mut self)
        requires
            old(self).wf_links(),
        ensures
            final(self).wf_links(),
            final(self).wf_reps(),
            final(self).wf_commit(),
            final(self).height_spec() == old(self).height_spec(),
            final(self).bottom() == old(self).bottom(),
            forall|l: int|
                0 <= l < old(self).height_spec() ==> (#[trigger] final(self).layer(l)).len()
                    == old(self).layer(l).len(),
            forall|l: int, u: int|
                0 <= l < old(self).height_spec() && 0 <= u < old(self).layer(l).len() ==> (
                #[trigger] final(self).unit_at(l, u)).len() == old(self).unit_at(l, u).len(),
            final(self).unit_maxsiz == old(self).unit_maxsiz,
            final(self).merklesig_len == old(self).merklesig_len,
            final(self).hash == old(self).hash,
            final(self).item_cnt == old(self).item_cnt,
    {
        let h = self.layers.len();
        if h == 0 {
            return;
        }
        let mut l: usize = 0;
        while l + 1 < h
            invariant
                self.wf_links(),
                h == self.height_spec(),
                l < h,
                self.bottom() == old(self).bottom(),
                forall|l2: int|
                    0 <= l2 < h ==> (#[trigger] self.layer(l2)).len() == old(self).layer(l2).len(),
                forall|l2: int, u: int|
                    0 <= l2 < h && 0 <= u < self.layer(l2).len() ==> (#[trigger] self.unit_at(
                        l2,
                        u,
                    )).len() == old(self).unit_at(l2, u).len(),
                self.unit_maxsiz == old(self).unit_maxsiz,
                self.merklesig_len == old(self).merklesig_len,
                self.hash == old(self).hash,
                self.item_cnt == old(self).item_cnt,
                self.merklesig == old(self).merklesig,
                forall|l2: int, j: int|
                    1 <= l2 <= l && 0 <= j < self.layer(l2 - 1).len() ==> (
                    #[trigger] self.flat(l2)[j]).key@ == self.unit_at(l2 - 1, j)[0].key@,
                forall|l2: int, j: int|
                    1 <= l2 <= l && 0 <= j < self.layer(l2 - 1).len() ==> (
                    #[trigger] self.flat(l2)[j]).merklesig@ == self.unit_sig_spec(
                        self.unit_at(l2 - 1, j),
                    ),
            decreases h - l,
        {
            let mut pu: usize = 0;
            let mut cu: usize = 0;
            proof {
                assert(self.layer(l + 1).take(0) =~= Seq::<Vec<Node<V>>>::empty());
                assert(units_flat(Seq::<Vec<Node<V>>>::empty()) =~= Seq::<Node<V>>::empty());
            }
            while pu < self.layers[l + 1].len()
                invariant
                    self.wf_links(),
                    h == self.height_spec(),
                    l + 1 < h,
                    self.bottom() == old(self).bottom(),
                    forall|l2: int|
                        0 <= l2 < h ==> (#[trigger] self.layer(l2)).len() == old(self).layer(
                            l2,
                        ).len(),
                    forall|l2: int, u: int|
                        0 <= l2 < h && 0 <= u < self.layer(l2).len() ==> (#[trigger] self.unit_at(
                            l2,
                            u,
                        )).len() == old(self).unit_at(l2, u).len(),
                    self.unit_maxsiz == old(self).unit_maxsiz,
                    self.merklesig_len == old(self).merklesig_len,
                    self.hash == old(self).hash,
                    self.item_cnt == old(self).item_cnt,
                    self.merklesig == old(self).merklesig,
                    forall|l2: int, j: int|
                        1 <= l2 <= l && 0 <= j < self.layer(l2 - 1).len() ==> (
                        #[trigger] self.flat(l2)[j]).key@ == self.unit_at(l2 - 1, j)[0].key@,
                    forall|l2: int, j: int|
                        1 <= l2 <= l && 0 <= j < self.layer(l2 - 1).len() ==> (
                        #[trigger] self.flat(l2)[j]).merklesig@ == self.unit_sig_spec(
                            self.unit_at(l2 - 1, j),
                        ),
                    pu <= self.layer(l + 1).len(),
                    cu as int == flat_index(self.layer(l + 1), pu as int, 0),
                    cu <= self.layer(l as int).len(),
                    forall|j: int|
                        0 <= j < cu ==> (#[trigger] self.flat(l + 1)[j]).key@ == self.unit_at(
                            l as int,
                            j,
                        )[0].key@,
                    forall|j: int|
                        0 <= j < cu ==> (#[trigger] self.flat(l + 1)[j]).merklesig@
                            == self.unit_sig_spec(self.unit_at(l as int, j)),
                decreases self.layer(l + 1).len() - pu,
            {
                let mut pi: usize = 0;
                proof {
                    assert(self.unit_at(l + 1, pu as int).len() >= 1);
                    self.lemma_unit_starts_grow(l + 1, pu as int);
                }
                while pi < self.layers[l + 1][pu].len()
                    invariant
                        self.wf_links(),
                        h == self.height_spec(),
                        l + 1 < h,
                        self.bottom() == old(self).bottom(),
                        forall|l2: int|
                            0 <= l2 < h ==> (#[trigger] self.layer(l2)).len() == old(
                                self,
                            ).layer(l2).len(),
                        forall|l2: int, u: int|
                            0 <= l2 < h && 0 <= u < self.layer(l2).len() ==> (
                            #[trigger] self.unit_at(l2, u)).len() == old(self).unit_at(
                                l2,
                                u,
                            ).len(),
                        self.unit_maxsiz == old(self).unit_maxsiz,
                        self.merklesig_len == old(self).merklesig_len,
                        self.hash == old(self).hash,
                        self.item_cnt == old(self).item_cnt,
                        self.merklesig == old(self).merklesig,
                        forall|l2: int, j: int|
                            1 <= l2 <= l && 0 <= j < self.layer(l2 - 1).len() ==> (
                            #[trigger] self.flat(l2)[j]).key@ == self.unit_at(l2 - 1, j)[0].key@,
                        forall|l2: int, j: int|
                            1 <= l2 <= l && 0 <= j < self.layer(l2 - 1).len() ==> (
                            #[trigger] self.flat(l2)[j]).merklesig@ == self.unit_sig_spec(
                                self.unit_at(l2 - 1, j),
                            ),
                        pu < self.layer(l + 1).len(),
                        pi <= self.unit_at(l + 1, pu as int).len(),
                        cu as int == flat_index(self.layer(l + 1), pu as int, pi as int),
                        cu <= self.layer(l as int).len(),
                        forall|j: int|
                            0 <= j < cu ==> (#[trigger] self.flat(l + 1)[j]).key@ == self.unit_at(
                                l as int,
                                j,
                            )[0].key@,
                        forall|j: int|
                            0 <= j < cu ==> (#[trigger] self.flat(l + 1)[j]).merklesig@
                                == self.unit_sig_spec(self.unit_at(l as int, j)),
                    decreases self.unit_at(l + 1, pu as int).len() - pi,
                {
                    proof {
                        assert(self.unit_at(l + 1, pu as int).len() >= 1);
                        lemma_flat_index_get(self.layer(l + 1), pu as int, pi as int);
                        assert(self.flat(l + 1).len() == self.layer(l as int).len());
                        assert(self.layers@[l as int].len() == self.layer(l as int).len());
                        assert(cu < self.layer(l as int).len());
                        assert(self.unit_at(l as int, cu as int).len() >= 1);
                    }
                    let sig = self.unit_sig(l, cu);
                    let rep_key = clone_bytes(&self.layers[l][cu][0].key);
                    let rep_val = self.layers[l][cu][0].value.duplicate();
                    let node = Node { key: rep_key, value: rep_val, merklesig: sig };
                    let ghost before = *self;
                    let inner = &mut self.layers[l + 1];
                    let unitv = &mut inner[pu];
                    unitv.set(pi, node);
                    proof {
                        let li = l as int;
                        let pui = pu as int;
                        let pii = pi as int;
                        let cui = cu as int;
                        // the layer list changed only at (l+1, pu, pi)
                        assert(self.layers@[l + 1]@ == before.layers@[l + 1]@.update(
                            pui,
                            self.layers@[l + 1]@[pui],
                        ));
                        assert(self.unit_at(l + 1, pui) == before.unit_at(l + 1, pui).update(
                            pii,
                            self.unit_at(l + 1, pui)[pii],
                        ));
                        // flats of other layers are untouched
                        assert forall|l2: int| 0 <= l2 < h && l2 != l + 1 implies #[trigger] self.layer(
                            l2,
                        ) == before.layer(l2) by {}
                        self.lemma_flat_update_frame(before, l + 1, pui, pii);
                        lemma_flat_index_get(self.layer(l + 1), pui, pii);
                        // layer and unit lengths are preserved
                        assert(self.layer(l + 1).len() == before.layer(l + 1).len());
                        assert forall|u2: int| 0 <= u2 < self.layer(l + 1).len() implies (
                        #[trigger] self.unit_at(l + 1, u2)).len() == before.unit_at(
                            l + 1,
                            u2,
                        ).len() by {
                            if u2 != pui {
                                assert(self.layer(l + 1)[u2] == before.layer(l + 1)[u2]);
                            }
                        }
                        assert forall|l2: int, u2: int|
                            0 <= l2 < h && 0 <= u2 < self.layer(l2).len() implies (
                        #[trigger] self.unit_at(l2, u2)).len() == before.unit_at(l2, u2).len() by {
                            if l2 != l + 1 {
                                assert(self.layer(l2) == before.layer(l2));
                            }
                        }
                        // link shape carries over
                        assert forall|l2: int| 1 <= l2 < h implies (#[trigger] self.flat(
                            l2,
                        )).len() == self.layer(l2 - 1).len() by {
                            if l2 != l + 1 {
                                assert(self.layer(l2) == before.layer(l2));
                                assert(self.flat(l2) == before.flat(l2));
                            }
                            if l2 - 1 == l + 1 {
                            } else {
                                assert(self.layer(l2 - 1).len() == before.layer(l2 - 1).len());
                            }
                        }
                        assert(self.wf_links());
                        // the bottom layer is untouched
                        assert(self.layer(0) == before.layer(0));
                        assert(self.flat(0) == before.flat(0));
                        // finished boundaries are untouched
                        assert forall|l2: int, j: int|
                            1 <= l2 <= l && 0 <= j < self.layer(l2 - 1).len() implies (
                        #[trigger] self.flat(l2)[j]).key@ == self.unit_at(l2 - 1, j)[0].key@
                            && self.flat(l2)[j].merklesig@ == self.unit_sig_spec(
                            self.unit_at(l2 - 1, j),
                        ) by {
                            assert(self.layer(l2) == before.layer(l2));
                            assert(self.flat(l2) == before.flat(l2));
                            assert(self.layer(l2 - 1) == before.layer(l2 - 1));
                            assert(self.unit_at(l2 - 1, j) == before.unit_at(l2 - 1, j));
                        }
                        // the prefix of this boundary now extends one node
                        let jedit = flat_index(before.layer(l + 1), pui, pii);
                        assert(jedit == cui);
                        assert forall|j: int| 0 <= j < cui + 1 implies (#[trigger] self.flat(
                            l + 1,
                        )[j]).key@ == self.unit_at(li, j)[0].key@ && self.flat(
                            l + 1,
                        )[j].merklesig@ == self.unit_sig_spec(self.unit_at(li, j)) by {
                            assert(self.unit_at(li, j) == before.unit_at(li, j));
                            if j < cui {
                                assert(self.flat(l + 1)[j] == before.flat(l + 1)[j]);
                            } else {
                                assert(self.flat(l + 1)[cui] == self.unit_at(l + 1, pui)[pii]);
                            }
                        }
                        assert(flat_index(self.layer(l + 1), pui, pii + 1) == cui + 1);
                    }
                    cu += 1;
                    pi += 1;
                }
                proof {
                    lemma_flat_index_step(self.layer(l + 1), pu as int);
                }
                pu += 1;
            }
            proof {
                lemma_units_flat_len_final(self.layer(l + 1));
                lemma_flat_index_step(self.layer(l + 1), self.layer(l + 1).len() - 1);
                assert(cu as int == self.flat(l + 1).len());
                assert(cu as int == self.layer(l as int).len());
            }
            l += 1;
        }
        proof {
            assert(self.layer(h - 1).len() > 0);
            assert(self.unit_at(h - 1, 0).len() >= 1);
        }
        let root_sig = self.unit_sig(h - 1, 0);
        let ghost pre = *self;
        self.merklesig = Some(root_sig);
        proof {
            assert(self.layers == pre.layers);
            assert forall|l2: int| 0 <= l2 < h implies (#[trigger] self.layer(l2)).len() > 0 by {
                assert(self.layer(l2) == pre.layer(l2));
                assert(pre.layer(l2).len() > 0);
            }
            assert forall|l2: int, u2: int|
                0 <= l2 < h && 0 <= u2 < self.layer(l2).len() implies (#[trigger] self.unit_at(
                l2,
                u2,
            )).len() >= 1 by {
                assert(self.unit_at(l2, u2) == pre.unit_at(l2, u2));
                assert(pre.unit_at(l2, u2).len() >= 1);
            }
            assert forall|l2: int| 1 <= l2 < h implies (#[trigger] self.flat(l2)).len()
                == self.layer(l2 - 1).len() by {
                assert(self.layer(l2) == pre.layer(l2));
                assert(self.flat(l2) == pre.flat(l2));
                assert(pre.flat(l2).len() == pre.layer(l2 - 1).len());
            }
            assert(self.wf_links());
            assert forall|l2: int, j: int|
                1 <= l2 < h && 0 <= j < self.layer(l2 - 1).len() implies (#[trigger] self.flat(
                l2,
            )[j]).key@ == self.unit_at(l2 - 1, j)[0].key@ && self.flat(l2)[j].merklesig@
                == self.unit_sig_spec(self.unit_at(l2 - 1, j)) by {
                assert(self.flat(l2) == pre.flat(l2));
                assert(self.unit_at(l2 - 1, j) == pre.unit_at(l2 - 1, j));
                assert(pre.flat(l2)[j].key@ == pre.unit_at(l2 - 1, j)[0].key@);
                assert(pre.flat(l2)[j].merklesig@ == pre.unit_sig_spec(pre.unit_at(l2 - 1, j)));
            }
            assert(self.wf_reps());
            assert(self.flat(h - 1) == pre.flat(h - 1));
            assert(self.unit_at(h - 1, 0) == pre.unit_at(h - 1, 0));
            assert(self.root_sig_spec() == Some(self.unit_sig_spec(self.unit_at(h - 1, 0))));
            assert(self.wf_commit());
            assert(self.flat(0) == pre.flat(0));
            assert(self.bottom() == old(self).bottom());
            assert forall|l2: int| 0 <= l2 < h implies (#[trigger] self.layer(l2)).len() == old(
                self,
            ).layer(l2).len() by {
                assert(self.layer(l2) == pre.layer(l2));
                assert(pre.layer(l2).len() == old(self).layer(l2).len());
            }
            assert forall|l2: int, u2: int|
                0 <= l2 < h && 0 <= u2 < old(self).layer(l2).len() implies (
            #[trigger] self.unit_at(l2, u2)).len() == old(self).unit_at(l2, u2).len() by {
                assert(self.unit_at(l2, u2) == pre.unit_at(l2, u2));
                assert(pre.unit_at(l2, u2).len() == old(self).unit_at(l2, u2).len());
            }
        }
    }

    /// Updating one slot of one unit leaves every other layer's flat view,
    /// and every other flat position of the edited layer, unchanged.
    proof fn lemma_flat_update_frame(&self, before: MCL<V, D>, l: int, pu: int, pi: int)
        requires
            0 <= l < before.height_spec(),
            self.height_spec() == before.height_spec(),
            0 <= pu < before.layer(l).len(),
            0 <= pi < before.unit_at(l, pu).len(),
            self.layer(l) == before.layer(l).update(pu, self.layer(l)[pu]),
            self.unit_at(l, pu) == before.unit_at(l, pu).update(pi, self.unit_at(l, pu)[pi]),
        ensures
            self.flat(l).len() == before.flat(l).len(),
            forall|j: int|
                0 <= j < before.flat(l).len() && j != flat_index(before.layer(l), pu, pi)
                    ==> #[trigger] self.flat(l)[j] == before.flat(l)[j],
            flat_index(self.layer(l), pu, pi) == flat_index(before.layer(l), pu, pi),
            self.flat(l)[flat_index(before.layer(l), pu, pi)] == self.unit_at(l, pu)[pi],
    {
        let bus = before.layer(l);
        let nus = self.layer(l);
        assert(bus.take(pu) =~= nus.take(pu));
        assert(bus.skip(pu + 1) =~= nus.skip(pu + 1));
        lemma_units_flat_split(bus, pu);
        lemma_units_flat_split(nus, pu);
        assert(bus.skip(pu) =~= seq![bus[pu]] + bus.skip(pu + 1));
        assert(nus.skip(pu) =~= seq![nus[pu]] + nus.skip(pu + 1));
        lemma_units_flat_concat(seq![bus[pu]], bus.skip(pu + 1));
        lemma_units_flat_concat(seq![nus[pu]], nus.skip(pu + 1));
        lemma_units_flat_single(seq![bus[pu]]);
        lemma_units_flat_single(seq![nus[pu]]);
        assert(before.flat(l) =~= units_flat(bus.take(pu)) + bus[pu]@ + units_flat(
            bus.skip(pu + 1),
        ));
        assert(self.flat(l) =~= units_flat(bus.take(pu)) + nus[pu]@ + units_flat(
            bus.skip(pu + 1),
        ));
    }
}

/// Replacing a unit by two units that concatenate to it leaves the layer's
/// flat view unchanged.
proof fn lemma_flat_two_replace<V>(
    old_us: Seq<Vec<Node<V>>>,
    new_us: Seq<Vec<Node<V>>>,
    u: int,
    a: Vec<Node<V>>,
    b: Vec<Node<V>>,
)
    requires
        0 <= u < old_us.len(),
        new_us =~= old_us.take(u) + seq![a, b] + old_us.skip(u + 1),
        a@ + b@ =~= old_us[u]@,
    ensures
        units_flat(new_us) =~= units_flat(old_us),
{
    lemma_units_flat_concat(old_us.take(u) + seq![a, b], old_us.skip(u + 1));
    lemma_units_flat_concat(old_us.take(u), seq![a, b]);
    lemma_units_flat_concat(seq![a], seq![b]);
    assert(seq![a] + seq![b] =~= seq![a, b]);
    lemma_units_flat_single(seq![a]);
    lemma_units_flat_single(seq![b]);
    assert(units_flat(seq![a, b]) =~= a@ + b@);
    lemma_units_flat_split(old_us, u);
    assert(old_us.skip(u) =~= seq![old_us[u]] + old_us.skip(u + 1));
    lemma_units_flat_concat(seq![old_us[u]], old_us.skip(u + 1));
    lemma_units_flat_single(seq![old_us[u]]);
    assert(units_flat(new_us) =~= units_flat(old_us.take(u)) + (a@ + b@) + units_flat(
        old_us.skip(u + 1),
    ));
    assert(units_flat(old_us) =~= units_flat(old_us.take(u)) + old_us[u]@ + units_flat(
        old_us.skip(u + 1),
    ));
}

/// Inserting a node at slot `q` of unit `pu` inserts it at the matching flat
/// position.
proof fn lemma_flat_unit_insert<V>(
    old_us: Seq<Vec<Node<V>>>,
    new_us: Seq<Vec<Node<V>>>,
    pu: int,
    q: int,
    n: Node<V>,
)
    requires
        0 <= pu < old_us.len(),
        0 <= q <= old_us[pu]@.len(),
        new_us.len() == old_us.len(),
        new_us[pu]@ =~= old_us[pu]@.insert(q, n),
        forall|x: int| 0 <= x < old_us.len() && x != pu ==> new_us[x] == old_us[x],
    ensures
        units_flat(new_us) =~= units_flat(old_us).insert(flat_index(old_us, pu, q), n),
        flat_index(new_us, pu, q) == flat_index(old_us, pu, q),
{
    assert(new_us.take(pu) =~= old_us.take(pu));
    assert(new_us.skip(pu + 1) =~= old_us.skip(pu + 1));
    lemma_units_flat_split(old_us, pu);
    lemma_units_flat_split(new_us, pu);
    assert(old_us.skip(pu) =~= seq![old_us[pu]] + old_us.skip(pu + 1));
    assert(new_us.skip(pu) =~= seq![new_us[pu]] + new_us.skip(pu + 1));
    lemma_units_flat_concat(seq![old_us[pu]], old_us.skip(pu + 1));
    lemma_units_flat_concat(seq![new_us[pu]], new_us.skip(pu + 1));
    lemma_units_flat_single(seq![old_us[pu]]);
    lemma_units_flat_single(seq![new_us[pu]]);
    assert(units_flat(old_us) =~= units_flat(old_us.take(pu)) + old_us[pu]@ + units_flat(
        old_us.skip(pu + 1),
    ));
    assert(units_flat(new_us) =~= units_flat(old_us.take(pu)) + old_us[pu]@.insert(q, n)
        + units_flat(old_us.skip(pu + 1)));
}

impl<V: AsBytes, D: Digester> MCL<V, D> {
    /// A structure with the same bottom layer, hash, and digest length as a
    /// well-keyed, sorted one is itself well-keyed and sorted.
    proof fn lemma_same_bottom(&self, other: &MCL<V, D>)
        requires
            self.bottom() == other.bottom(),
            self.hash == other.hash,
            self.merklesig_len == other.merklesig_len,
            other.wf_sorted(),
            other.wf_keys(),
        ensures
            self.wf_sorted(),
            self.wf_keys(),
    {
        assert forall|i: int| 0 <= i < self.bottom().len() - 1 implies lex_lt(
            (#[trigger] self.bottom()[i]).key@,
            self.bottom()[i + 1].key@,
        ) by {
            assert(lex_lt(other.bottom()[i].key@, other.bottom()[i + 1].key@));
        }
        assert forall|i: int| 0 <= i < self.bottom().len() implies {
            let n = #[trigger] self.bottom()[i];
            &&& n.key@ == self.spec_key_of(n.value)
            &&& n.key@.len() == self.merklesig_len
            &&& n.merklesig@ == n.key@
        } by {
            let n = other.bottom()[i];
            assert(n.key@ == other.spec_key_of(n.value));
            assert(n.key@.len() == other.merklesig_len);
            assert(n.merklesig@ == n.key@);
        }
    }

    /// Split every over-full unit from `(l0, u0)` upward: an over-full unit
    /// is cut at half capacity, the right half becomes a new unit, and a
    /// parent node for it is inserted right of the existing parent; a
    /// splitting top unit instead gets a brand-new two-node top layer.
    /// Representatives and digests of touched parents are left for a later
    /// refresh.
    #[verifier::rlimit(60)]
    fn split_up(&mut self, l0: usize, u0: usize)
        requires
            old(self).wf_links(),
            (l0 as int) < old(self).height_spec(),
            (u0 as int) < old(self).layer(l0 as int).len(),
            old(self).wf_sizes_above_except(l0 as int, l0 as int, u0 as int),
            (l0 as int) == old(self).height_spec() - 1 || old(self).unit_at(
                old(self).height_spec() - 1,
                0,
            ).len() <= old(self).unit_maxsiz - 1,
        ensures
            final(self).wf_links(),
            final(self).wf_sizes_above_except(l0 as int, -1, -1),
            final(self).bottom() == old(self).bottom(),
            final(self).height_spec() >= old(self).height_spec(),
            final(self).height_spec() <= old(self).height_spec() + 1,
            final(self).unit_at(final(self).height_spec() - 1, 0).len()
                <= final(self).unit_maxsiz - 1,
            final(self).height_spec() == old(self).height_spec() + 1 ==> ((l0 as int)
                == old(self).height_spec() - 1 ==> old(self).unit_at(l0 as int, 0).len()
                >= old(self).unit_maxsiz) && ((l0 as int) < old(self).height_spec() - 1
                ==> old(self).unit_at(old(self).height_spec() - 1, 0).len()
                >= old(self).unit_maxsiz - 1),
            final(self).height_spec() == old(self).height_spec() + 1 ==> final(self).unit_at(
                final(self).height_spec() - 1,
                0,
            ).len() == 2,
            forall|l: int| 0 <= l < l0 ==> #[trigger] final(self).layer(l) == old(self).layer(l),
            final(self).unit_maxsiz == old(self).unit_maxsiz,
            final(self).merklesig_len == old(self).merklesig_len,
            final(self).hash == old(self).hash,
            final(self).item_cnt == old(self).item_cnt,
            final(self).merklesig == old(self).merklesig,
    {
        let mut l = l0;
        let mut u = u0;
        let ghost oldh = old(self).height_spec();
        loop
            invariant_except_break
                self.wf_links(),
                l0 <= l,
                (l as int) < self.height_spec(),
                (u as int) < self.layer(l as int).len(),
                self.wf_sizes_above_except(l0 as int, l as int, u as int),
                self.bottom() == old(self).bottom(),
                self.height_spec() == oldh,
                oldh == old(self).height_spec(),
                (l0 as int) == oldh - 1 || old(self).unit_at(oldh - 1, 0).len()
                    <= old(self).unit_maxsiz - 1,
                (l0 as int) == oldh - 1 ==> self.layers@ == old(self).layers@,
                (l as int) < oldh - 1 ==> self.layer(oldh - 1) == old(self).layer(oldh - 1),
                (l as int) == oldh - 1 ==> u == 0 && self.unit_at(oldh - 1, 0).len()
                    <= old(self).unit_at(oldh - 1, 0).len() + 1,
                forall|l2: int|
                    0 <= l2 < l0 ==> #[trigger] self.layer(l2) == old(self).layer(l2),
                self.unit_maxsiz == old(self).unit_maxsiz,
                self.merklesig_len == old(self).merklesig_len,
                self.hash == old(self).hash,
                self.item_cnt == old(self).item_cnt,
                self.merklesig == old(self).merklesig,
            ensures
                self.wf_links(),
                self.wf_sizes_above_except(l0 as int, -1, -1),
                self.bottom() == old(self).bottom(),
                self.height_spec() >= old(self).height_spec(),
                self.height_spec() <= old(self).height_spec() + 1,
                self.unit_at(self.height_spec() - 1, 0).len() <= self.unit_maxsiz - 1,
                self.height_spec() == old(self).height_spec() + 1 ==> ((l0 as int)
                    == old(self).height_spec() - 1 ==> old(self).unit_at(l0 as int, 0).len()
                    >= old(self).unit_maxsiz) && ((l0 as int) < old(self).height_spec() - 1
                    ==> old(self).unit_at(old(self).height_spec() - 1, 0).len()
                    >= old(self).unit_maxsiz - 1),
                self.height_spec() == old(self).height_spec() + 1 ==> self.unit_at(
                    self.height_spec() - 1,
                    0,
                ).len() == 2,
                forall|l2: int|
                    0 <= l2 < l0 ==> #[trigger] self.layer(l2) == old(self).layer(l2),
                self.unit_maxsiz == old(self).unit_maxsiz,
                self.merklesig_len == old(self).merklesig_len,
                self.hash == old(self).hash,
                self.item_cnt == old(self).item_cnt,
                self.merklesig == old(self).merklesig,
            decreases self.height_spec() - l,
        {
            proof {
                assert(self.unit_at(l as int, u as int).len() >= 1);
            }
            if self.layers[l][u].len() < self.unit_maxsiz {
                proof {
                    assert forall|l2: int, u2: int|
                        l0 <= l2 < self.height_spec() && 0 <= u2 < self.layer(l2).len()
                            implies self.size_lo(l2) <= (#[trigger] self.unit_at(l2, u2)).len()
                        && self.unit_at(l2, u2).len() <= self.unit_maxsiz by {
                        assert(self.size_lo(l2) <= self.unit_at(l2, u2).len());
                    }
                    if (l as int) == oldh - 1 {
                        assert(u == 0);
                        assert(self.unit_at(oldh - 1, 0).len() < self.unit_maxsiz);
                    } else {
                        assert((l0 as int) < oldh - 1);
                        assert(self.layer(oldh - 1) == old(self).layer(oldh - 1));
                        assert(self.unit_at(oldh - 1, 0) == old(self).unit_at(oldh - 1, 0));
                        assert(old(self).unit_at(oldh - 1, 0).len() <= self.unit_maxsiz - 1);
                    }
                }
                break;
            }
            let mid = self.unit_maxsiz / 2;
            let ghost s0 = *self;
            let ghost li = l as int;
            let ghost ui = u as int;
            let hcur = self.layers.len();
            if l + 1 == hcur {
                // splitting the top: two halves below a brand-new top layer
                proof {
                    assert(self.layer(li).len() == 1);
                    assert(ui == 0);
                }
                let layer_l = &mut self.layers[l];
                let unit_l = &mut layer_l[u];
                let right = unit_l.split_off(mid);
                let left_key = clone_bytes(&self.layers[l][0][0].key);
                let left_val = self.layers[l][0][0].value.duplicate();
                let right_key = clone_bytes(&right[0].key);
                let right_val = right[0].value.duplicate();
                let left_sig = unit_sig_vec(&self.hash, &self.layers[l][0]);
                let right_sig = unit_sig_vec(&self.hash, &right);
                let ghost left_vec = self.layers@[li]@[0];
                let ghost right_vec = right;
                let layer_l2 = &mut self.layers[l];
                layer_l2.insert(1, right);
                let n0 = Node { key: left_key, value: left_val, merklesig: left_sig };
                let n1 = Node { key: right_key, value: right_val, merklesig: right_sig };
                let mut top_unit: Vec<Node<V>> = Vec::new();
                top_unit.push(n0);
                top_unit.push(n1);
                let mut top_layer: Vec<Vec<Node<V>>> = Vec::new();
                top_layer.push(top_unit);
                self.layers.push(top_layer);
                proof {
                    let h = self.height_spec();
                    assert(h == s0.height_spec() + 1);
                    // layers below l are untouched; layer l is repartitioned
                    assert forall|l2: int| 0 <= l2 < li implies #[trigger] self.layer(l2)
                        == s0.layer(l2) by {}
                    assert(self.layer(li) =~= s0.layer(li).take(0) + seq![left_vec, right_vec]
                        + s0.layer(li).skip(1));
                    assert(left_vec@ + right_vec@ =~= s0.unit_at(li, 0));
                    lemma_flat_two_replace(s0.layer(li), self.layer(li), 0, left_vec, right_vec);
                    assert(self.flat(li) =~= s0.flat(li));
                    // the new top is one unit of two nodes
                    assert(self.layer(h - 1).len() == 1);
                    assert(self.unit_at(h - 1, 0).len() == 2);
                    lemma_units_flat_single(self.layer(h - 1));
                    assert(self.flat(h - 1).len() == 2);
                    // link shape
                    assert forall|l2: int| 1 <= l2 < h implies (#[trigger] self.flat(l2)).len()
                        == self.layer(l2 - 1).len() by {
                        if l2 < li {
                            assert(self.layer(l2) == s0.layer(l2));
                            assert(self.flat(l2) == s0.flat(l2));
                            assert(self.layer(l2 - 1) == s0.layer(l2 - 1));
                            assert(s0.flat(l2).len() == s0.layer(l2 - 1).len());
                        } else if l2 == li {
                            assert(self.flat(li) =~= s0.flat(li));
                            if li > 0 {
                                assert(self.layer(l2 - 1) == s0.layer(l2 - 1));
                                assert(s0.flat(l2).len() == s0.layer(l2 - 1).len());
                            }
                        } else {
                            assert(l2 == h - 1);
                        }
                    }
                    assert forall|l2: int| 0 <= l2 < h implies (#[trigger] self.layer(l2)).len()
                        > 0 by {
                        if l2 < li {
                            assert(self.layer(l2) == s0.layer(l2));
                            assert(s0.layer(l2).len() > 0);
                        }
                    }
                    assert forall|l2: int, u2: int|
                        0 <= l2 < h && 0 <= u2 < self.layer(l2).len() implies (
                    #[trigger] self.unit_at(l2, u2)).len() >= 1 by {
                        if l2 < li {
                            assert(self.layer(l2) == s0.layer(l2));
                            assert(s0.unit_at(l2, u2).len() >= 1);
                        } else if l2 == li {
                            assert(s0.unit_at(li, 0).len() >= self.unit_maxsiz);
                        }
                    }
                    assert(self.wf_links());
                    // sizes: both halves are within bounds, the new top too
                    assert forall|l2: int, u2: int|
                        l0 <= l2 < h && 0 <= u2 < self.layer(l2).len() implies self.size_lo(l2)
                        <= (#[trigger] self.unit_at(l2, u2)).len() && self.unit_at(l2, u2).len()
                        <= self.unit_maxsiz by {
                        if l2 < li {
                            assert(self.layer(l2) == s0.layer(l2));
                            assert(s0.size_lo(l2) <= s0.unit_at(l2, u2).len());
                            assert(s0.unit_at(l2, u2).len() <= s0.unit_maxsiz + (if l2 == li && u2
                                == ui {
                                1int
                            } else {
                                0int
                            }));
                        } else if l2 == li {
                            assert(s0.unit_at(li, 0).len() <= self.unit_maxsiz + 1);
                        }
                    }
                    // the bottom layer is unchanged
                    if li == 0 {
                        assert(self.bottom() =~= s0.bottom());
                    } else {
                        assert(self.layer(0) == s0.layer(0));
                        assert(self.bottom() == s0.bottom());
                    }
                    assert forall|l2: int, u2: int|
                        l0 <= l2 < h && 0 <= u2 < self.layer(l2).len() implies self.size_lo(l2)
                        <= (#[trigger] self.unit_at(l2, u2)).len() && self.unit_at(l2, u2).len()
                        <= self.unit_maxsiz + 0 by {}
                    assert forall|l2: int| 0 <= l2 < l0 implies #[trigger] self.layer(l2) == old(
                        self,
                    ).layer(l2) by {
                        assert(self.layer(l2) == s0.layer(l2));
                        assert(s0.layer(l2) == old(self).layer(l2));
                    }
                }
                break;
            } else {
                let layer_l = &mut self.layers[l];
                let unit_l = &mut layer_l[u];
                let right = unit_l.split_off(mid);
                let right_key = clone_bytes(&right[0].key);
                let right_val = right[0].value.duplicate();
                let right_sig = unit_sig_vec(&self.hash, &right);
                let ghost left_vec = self.layers@[li]@[ui];
                let ghost right_vec = right;
                let layer_l2 = &mut self.layers[l];
                proof {
                    assert((u as int) < layer_l2.len());
                }
                layer_l2.insert(u + 1, right);
                let ghost s2 = *self;
                proof {
                    assert(self.layer(li) =~= s0.layer(li).take(ui) + seq![left_vec, right_vec]
                        + s0.layer(li).skip(ui + 1));
                    assert(left_vec@ + right_vec@ =~= s0.unit_at(li, ui));
                    lemma_flat_two_replace(s0.layer(li), self.layer(li), ui, left_vec, right_vec);
                    assert(self.flat(li) =~= s0.flat(li));
                    assert(self.flat(li + 1) == s0.flat(li + 1));
                    assert(self.flat(li + 1).len() == s0.layer(li).len());
                    assert forall|u2: int|
                        0 <= u2 < self.layer(li + 1).len() implies (#[trigger] self.unit_at(
                        li + 1,
                        u2,
                    )).len() >= 1 by {
                        assert(self.layer(li + 1) == s0.layer(li + 1));
                        assert(s0.unit_at(li + 1, u2).len() >= 1);
                    }
                }
                let (pu, pi) = self.unit_pos(l + 1, u);
                let node = Node { key: right_key, value: right_val, merklesig: right_sig };
                let ghost nodeg = node;
                let layer_up = &mut self.layers[l + 1];
                let unit_up = &mut layer_up[pu];
                unit_up.insert(pi + 1, node);
                proof {
                    let h = self.height_spec();
                    let pui = pu as int;
                    let pii = pi as int;
                    assert(h == s0.height_spec());
                    assert forall|l2: int| 0 <= l2 < h && l2 != li + 1 implies #[trigger] self.layer(
                        l2,
                    ) == s2.layer(l2) by {}
                    assert(self.unit_at(li + 1, pui) =~= s2.unit_at(li + 1, pui).insert(
                        pii + 1,
                        nodeg,
                    ));
                    lemma_flat_unit_insert(
                        s2.layer(li + 1),
                        self.layer(li + 1),
                        pui,
                        pii + 1,
                        nodeg,
                    );
                    assert(self.flat(li + 1) =~= s2.flat(li + 1).insert(
                        flat_index(s2.layer(li + 1), pui, pii + 1),
                        nodeg,
                    ));
                    assert(self.flat(li + 1).len() == s2.flat(li + 1).len() + 1);
                    // link shape
                    assert forall|l2: int| 0 <= l2 < h implies (#[trigger] self.layer(l2)).len()
                        > 0 by {
                        if l2 != li && l2 != li + 1 {
                            assert(self.layer(l2) == s0.layer(l2));
                            assert(s0.layer(l2).len() > 0);
                        } else if l2 == li + 1 {
                            assert(self.layer(l2).len() == s0.layer(l2).len());
                            assert(s0.layer(l2).len() > 0);
                        }
                    }
                    assert forall|l2: int, u2: int|
                        0 <= l2 < h && 0 <= u2 < self.layer(l2).len() implies (
                    #[trigger] self.unit_at(l2, u2)).len() >= 1 by {
                        if l2 != li && l2 != li + 1 {
                            assert(self.layer(l2) == s0.layer(l2));
                            assert(s0.unit_at(l2, u2).len() >= 1);
                        } else if l2 == li {
                            if u2 < ui {
                                assert(self.unit_at(l2, u2) == s0.unit_at(l2, u2));
                                assert(s0.unit_at(l2, u2).len() >= 1);
                            } else if u2 > ui + 1 {
                                assert(self.unit_at(l2, u2) == s0.unit_at(l2, u2 - 1));
                                assert(s0.unit_at(l2, u2 - 1).len() >= 1);
                            }
                        } else {
                            if u2 != pui {
                                assert(self.unit_at(l2, u2) == s2.unit_at(l2, u2));
                                assert(s2.unit_at(l2, u2) == s0.unit_at(l2, u2));
                                assert(s0.unit_at(l2, u2).len() >= 1);
                            }
                        }
                    }
                    assert forall|l2: int| 1 <= l2 < h implies (#[trigger] self.flat(l2)).len()
                        == self.layer(l2 - 1).len() by {
                        if l2 != li && l2 != li + 1 && l2 != li + 2 {
                            assert(self.layer(l2) == s0.layer(l2));
                            assert(self.flat(l2) == s0.flat(l2));
                            assert(self.layer(l2 - 1) == s0.layer(l2 - 1));
                            assert(s0.flat(l2).len() == s0.layer(l2 - 1).len());
                        } else if l2 == li {
                            assert(self.flat(li) =~= s0.flat(li));
                            if li > 0 {
                                assert(self.layer(l2 - 1) == s0.layer(l2 - 1));
                                assert(s0.flat(l2).len() == s0.layer(l2 - 1).len());
                            }
                        } else if l2 == li + 1 {
                            assert(self.layer(li).len() == s0.layer(li).len() + 1);
                            assert(s0.flat(li + 1).len() == s0.layer(li).len());
                            assert(s2.flat(li + 1) == s0.flat(li + 1));
                        } else {
                            assert(self.layer(l2) == s0.layer(l2));
                            assert(self.flat(l2) == s0.flat(l2));
                            assert(self.layer(l2 - 1).len() == s2.layer(l2 - 1).len());
                            assert(s2.layer(l2 - 1) == s0.layer(l2 - 1));
                            assert(s0.flat(l2).len() == s0.layer(l2 - 1).len());
                        }
                    }
                    assert(self.layer(h - 1).len() == 1) by {
                        if li + 1 == h - 1 {
                            assert(self.layer(h - 1).len() == s0.layer(h - 1).len());
                        } else {
                            assert(self.layer(h - 1) == s0.layer(h - 1));
                        }
                    }
                    assert(self.wf_links());
                    // sizes: slack moves to the parent's unit
                    assert forall|l2: int, u2: int|
                        l0 <= l2 < h && 0 <= u2 < self.layer(l2).len() implies self.size_lo(l2)
                        <= (#[trigger] self.unit_at(l2, u2)).len() && self.unit_at(l2, u2).len()
                        <= self.unit_maxsiz + (if l2 == li + 1 && u2 == pui {
                        1int
                    } else {
                        0int
                    }) by {
                        if l2 != li && l2 != li + 1 {
                            assert(self.layer(l2) == s0.layer(l2));
                            assert(s0.size_lo(l2) <= (s0.unit_at(l2, u2)).len());
                            assert(s0.unit_at(l2, u2).len() <= s0.unit_maxsiz + (if l2 == li && u2
                                == ui {
                                1int
                            } else {
                                0int
                            }));
                        } else if l2 == li {
                            assert(s0.size_lo(li) <= s0.unit_at(li, ui).len());
                            assert(s0.unit_at(li, ui).len() <= s0.unit_maxsiz + 1);
                            if u2 < ui {
                                assert(self.unit_at(l2, u2) == s0.unit_at(l2, u2));
                                assert(s0.size_lo(l2) <= (s0.unit_at(l2, u2)).len());
                                assert(s0.unit_at(l2, u2).len() <= s0.unit_maxsiz);
                            } else if u2 > ui + 1 {
                                assert(self.unit_at(l2, u2) == s0.unit_at(l2, u2 - 1));
                                assert(s0.size_lo(l2) <= (s0.unit_at(l2, u2 - 1)).len());
                                assert(s0.unit_at(l2, u2 - 1).len() <= s0.unit_maxsiz);
                            }
                        } else {
                            if u2 != pui {
                                assert(self.unit_at(l2, u2) == s2.unit_at(l2, u2));
                                assert(s2.unit_at(l2, u2) == s0.unit_at(l2, u2));
                                assert(s0.size_lo(l2) <= (s0.unit_at(l2, u2)).len());
                                assert(s0.unit_at(l2, u2).len() <= s0.unit_maxsiz);
                            } else {
                                assert(s2.unit_at(l2, pui) == s0.unit_at(l2, pui));
                                assert(s0.size_lo(l2) <= (s0.unit_at(l2, pui)).len());
                                assert(s0.unit_at(l2, pui).len() <= s0.unit_maxsiz);
                                assert(self.unit_at(l2, pui).len() == s0.unit_at(l2, pui).len()
                                    + 1);
                            }
                        }
                    }
                    // the bottom layer is unchanged
                    if li == 0 {
                        assert(self.bottom() =~= s0.bottom());
                    } else {
                        assert(self.layer(0) == s0.layer(0));
                        assert(self.bottom() == s0.bottom());
                    }
                    assert forall|l2: int| 0 <= l2 < l0 implies #[trigger] self.layer(l2) == old(
                        self,
                    ).layer(l2) by {
                        assert(self.layer(l2) == s0.layer(l2));
                        assert(s0.layer(l2) == old(self).layer(l2));
                    }
                }
                l = l + 1;
                u = pu;
            }
        }
    }
}

impl<V: AsBytes, D: Digester> MCL<V, D> {
    /// Inserting one freshly-keyed node into the bottom sequence inserts its
    /// pair into the key/value map.
    proof fn lemma_map_insert(&self, older: &MCL<V, D>, jn: int, node: Node<V>)
        requires
            0 <= jn <= older.bottom().len(),
            self.bottom() == older.bottom().insert(jn, node),
            self.wf_sorted(),
            older.wf_sorted(),
            !older.contains_key(node.key@),
        ensures
            self.as_map() =~= older.as_map().insert(node.key@, node.value),
            self.contains_key(node.key@),
            self.bottom().len() == older.bottom().len() + 1,
    {
        assert(self.bottom()[jn] == node);
        self.lemma_key_unique(jn);
        assert(self.as_map()[node.key@] == node.value);
        assert forall|k: Seq<u8>| k != node.key@ implies self.contains_key(k)
            == older.contains_key(k) && (self.contains_key(k) ==> self.as_map()[k]
            == older.as_map()[k]) by {
            if older.contains_key(k) {
                let i = older.index_of_key(k);
                let i2 = if i < jn {
                    i
                } else {
                    i + 1
                };
                assert(self.bottom()[i2] == older.bottom()[i]);
                self.lemma_key_unique(i2);
                older.lemma_key_unique(i);
            } else {
                if self.contains_key(k) {
                    let i = self.index_of_key(k);
                    assert(self.bottom()[i].key@ == k);
                    assert(i != jn);
                    let iold = if i < jn {
                        i
                    } else {
                        i - 1
                    };
                    assert(older.bottom()[iold] == self.bottom()[i]);
                    assert(older.contains_key(k));
                }
            }
        }
        assert forall|k: Seq<u8>|
            self.as_map().dom().contains(k) == older.as_map().insert(
                node.key@,
                node.value,
            ).dom().contains(k) by {}
    }

    /// Store a value. Its key is the digest of its bytes; an equal value
    /// already stored is a success, a different value under the same key is
    /// a hash collision and changes nothing. The height grows by at most one
    /// layer, and only when the split cascade reaches a top unit one short
    /// of capacity; a grown structure's new top holds exactly two nodes.
    pub fn put(&mut self, value: V) -> (r: Result<Vec<u8>, XErr<V>>)
        requires
            old(self).wf(),
            old(self).bottom().len() < usize::MAX,
        ensures
            final(self).wf(),
            final(self).unit_max_spec() == old(self).unit_max_spec(),
            final(self).sig_len_spec() == old(self).sig_len_spec(),
            forall|w: V| #[trigger] final(self).spec_key_of(w) == old(self).spec_key_of(w),
            old(self).height_spec() <= final(self).height_spec() <= old(self).height_spec() + 1,
            old(self).height_spec() == 0 && r is Ok ==> final(self).height_spec() == 1,
            final(self).height_spec() == old(self).height_spec() + 1 && old(self).height_spec()
                == 1 ==> old(self).bottom().len() == old(self).unit_max_spec() - 1,
            final(self).height_spec() == old(self).height_spec() + 1 && old(self).height_spec()
                > 1 ==> old(self).unit_at(old(self).height_spec() - 1, 0).len()
                == old(self).unit_max_spec() - 1,
            final(self).height_spec() == old(self).height_spec() + 1 && old(self).height_spec()
                >= 1 ==> final(self).unit_at(final(self).height_spec() - 1, 0).len() == 2,
            match r {
                Ok(sig) => {
                    let k = old(self).spec_key_of(value);
                    &&& sig@ == k
                    &&& if old(self).contains_key(k) {
                        old(self).as_map()[k] == value && *final(self) == *old(self)
                    } else {
                        final(self).as_map() =~= old(self).as_map().insert(k, value)
                            && final(self).bottom().len() == old(self).bottom().len() + 1
                            && final(self).contains_key(k)
                    }
                },
                Err(e) => match e {
                    XErr::HashCollision(w) => {
                        let k = old(self).spec_key_of(value);
                        &&& *final(self) == *old(self)
                        &&& old(self).contains_key(k)
                        &&& w == old(self).as_map()[k]
                        &&& w != value
                    },
                    _ => false,
                },
            },
    {
        let vbytes = value.as_bytes();
        let mut parts: Vec<Vec<u8>> = Vec::new();
        parts.push(vbytes);
        proof {
            assert(views_of(parts@) =~= seq![value.bytes_spec()]);
        }
        let sig = self.hash.digest(&parts);
        let ghost k = self.spec_key_of(value);
        proof {
            assert(sig@ == k);
        }
        if self.layers.len() == 0 {
            let node = Node {
                key: clone_bytes(&sig),
                value,
                merklesig: clone_bytes(&sig),
            };
            let ghost nodeg = node;
            let mut unit: Vec<Node<V>> = Vec::new();
            unit.push(node);
            let mut layer0: Vec<Vec<Node<V>>> = Vec::new();
            layer0.push(unit);
            self.layers.push(layer0);
            self.item_cnt = 1;
            proof {
                lemma_units_flat_single(self.layer(0));
                assert(self.bottom() =~= seq![nodeg]);
                assert(self.wf_links());
                assert(self.wf_sorted());
                assert(self.wf_keys());
                assert forall|l2: int, u2: int|
                    0 <= l2 < self.height_spec() && 0 <= u2 < self.layer(l2).len()
                        implies self.size_lo(l2) <= (#[trigger] self.unit_at(l2, u2)).len()
                    && self.unit_at(l2, u2).len() <= self.unit_maxsiz + 0 by {}
            }
            self.refresh_all();
            proof {
                assert(self.wf_sorted() && self.wf_keys()) by {
                    assert(self.bottom() =~= seq![nodeg]);
                    assert(self.bottom()[0].key@ == self.spec_key_of(self.bottom()[0].value));
                }
                assert forall|l2: int, u2: int|
                    0 <= l2 < self.height_spec() && 0 <= u2 < self.layer(l2).len()
                        implies self.size_lo(l2) <= (#[trigger] self.unit_at(l2, u2)).len()
                    && self.unit_at(l2, u2).len() <= self.unit_maxsiz + 0 by {
                    assert(self.unit_at(l2, u2).len() == 1);
                }
                assert(self.wf());
                assert(!old(self).contains_key(k));
                assert(self.contains_key(k)) by {
                    assert(self.bottom()[0].key@ == k);
                }
                self.lemma_key_unique(0);
                assert(self.as_map() =~= old(self).as_map().insert(k, nodeg.value)) by {
                    assert forall|k2: Seq<u8>| k2 != k implies !self.contains_key(k2) by {}
                }
            }
            return Ok(sig);
        }
        let located = self.locate(sig.as_slice());
        match located {
            Some((u, i)) => {
                let ghost j = flat_index(self.layer(0), u as int, i as int);
                let equal_here = match key_cmp(&self.layers[0][u][i].key, sig.as_slice()) {
                    KeyOrder::Equal => true,
                    _ => false,
                };
                proof {
                    lemma_flat_index_get(self.layer(0), u as int, i as int);
                    assert(self.bottom()[j] == self.unit_at(0, u as int)[i as int]);
                }
                if equal_here {
                    // the key is present: idempotent success or collision
                    proof {
                        self.lemma_key_unique(j);
                    }
                    let same = self.layers[0][u][i].value.eq_val(&value);
                    if same {
                        return Ok(sig);
                    } else {
                        let w = self.layers[0][u][i].value.duplicate();
                        return Err(XErr::HashCollision(w));
                    }
                }
                // absent: splice right of the located slot
                proof {
                    lemma_lex_trichotomy(k, self.bottom()[j].key@);
                    assert(lex_lt(self.bottom()[j].key@, k));
                    assert forall|i2: int| 0 <= i2 < self.bottom().len() implies (
                    #[trigger] self.bottom()[i2]).key@ != k by {
                        lemma_lex_trichotomy(k, self.bottom()[i2].key@);
                        if i2 < j {
                            lemma_adj_sorted_general(self.bottom(), i2, j);
                            lemma_lex_trans(self.bottom()[i2].key@, self.bottom()[j].key@, k);
                        } else if i2 == j {
                        }
                    }
                    assert(!self.contains_key(k));
                }
                self.insert_leaf(u, i + 1, sig.as_slice(), value, Ghost(k));
                proof {
                    Self::lemma_height_pin(*old(self));
                }
                Ok(sig)
            },
            None => {
                // below every stored key: splice in as the new global minimum
                proof {
                    assert forall|i2: int| 0 <= i2 < self.bottom().len() implies (
                    #[trigger] self.bottom()[i2]).key@ != k by {
                        lemma_lex_trichotomy(k, self.bottom()[i2].key@);
                    }
                    assert(!self.contains_key(k));
                }
                self.insert_leaf(0, 0, sig.as_slice(), value, Ghost(k));
                proof {
                    Self::lemma_height_pin(*old(self));
                }
                Ok(sig)
            },
        }
    }

    /// Splice a fresh leaf into slot `pos` of bottom unit `u`, rebalance,
    /// and refresh the commitment.
    fn insert_leaf(&mut self, u: usize, pos: usize, sig: &[u8], value: V, k: Ghost<Seq<u8>>)
        requires
            old(self).wf(),
            old(self).bottom().len() < usize::MAX,
            old(self).height_spec() > 0,
            (u as int) < old(self).layer(0).len(),
            (pos as int) <= old(self).unit_at(0, u as int).len(),
            sig@ == k@,
            sig@.len() == old(self).sig_len_spec(),
            k@ == old(self).spec_key_of(value),
            !old(self).contains_key(k@),
            ({
                let j = flat_index(old(self).layer(0), u as int, pos as int);
                &&& (j > 0 ==> lex_lt(old(self).bottom()[j - 1].key@, k@))
                &&& (j < old(self).bottom().len() ==> lex_lt(k@, old(self).bottom()[j].key@))
            }),
        ensures
            final(self).wf(),
            final(self).unit_max_spec() == old(self).unit_max_spec(),
            final(self).sig_len_spec() == old(self).sig_len_spec(),
            final(self).hash == old(self).hash,
            final(self).as_map() =~= old(self).as_map().insert(k@, value),
            final(self).bottom().len() == old(self).bottom().len() + 1,
            final(self).contains_key(k@),
            old(self).height_spec() <= final(self).height_spec() <= old(self).height_spec() + 1,
            final(self).height_spec() == old(self).height_spec() + 1 ==> (old(self).height_spec()
                == 1 ==> old(self).bottom().len() + 1 >= old(self).unit_max_spec())
                && (old(self).height_spec() > 1 ==> old(self).unit_at(
                old(self).height_spec() - 1,
                0,
            ).len() + 1 >= old(self).unit_max_spec()),
            final(self).height_spec() == old(self).height_spec() + 1 ==> final(self).unit_at(
                final(self).height_spec() - 1,
                0,
            ).len() == 2,
    {
        let ghost jn = flat_index(old(self).layer(0), u as int, pos as int);
        let node = Node { key: clone_bytes_slice(sig), value, merklesig: clone_bytes_slice(sig) };
        let ghost nodeg = node;
        let ghost s0 = *self;
        proof {
            s0.lemma_unit_starts_grow(0, u as int);
            assert(0 <= jn <= s0.bottom().len());
        }
        let unitv = &mut self.layers[0];
        let unit1 = &mut unitv[u];
        proof {
            assert((pos as int) <= unit1.len());
        }
        unit1.insert(pos, node);
        self.item_cnt = self.item_cnt + 1;
        proof {
            assert forall|l2: int| 0 <= l2 < self.height_spec() && l2 != 0
                implies #[trigger] self.layer(l2) == s0.layer(l2) by {}
            assert(self.unit_at(0, u as int) =~= s0.unit_at(0, u as int).insert(
                pos as int,
                nodeg,
            ));
            lemma_flat_unit_insert(s0.layer(0), self.layer(0), u as int, pos as int, nodeg);
            assert(self.bottom() =~= s0.bottom().insert(jn, nodeg));
            s0.bottom().insert_ensures(jn, nodeg);
            // links
            assert forall|l2: int| 0 <= l2 < self.height_spec() implies (#[trigger] self.layer(
                l2,
            )).len() > 0 by {
                if l2 != 0 {
                    assert(self.layer(l2) == s0.layer(l2));
                }
                assert(s0.layer(l2).len() > 0);
            }
            assert forall|l2: int, u2: int|
                0 <= l2 < self.height_spec() && 0 <= u2 < self.layer(l2).len() implies (
            #[trigger] self.unit_at(l2, u2)).len() >= 1 by {
                if l2 != 0 || u2 != u as int {
                    if l2 != 0 {
                        assert(self.layer(l2) == s0.layer(l2));
                    } else {
                        assert(self.unit_at(0, u2) == s0.unit_at(0, u2));
                    }
                }
                assert(s0.unit_at(l2, u2).len() >= 1);
            }
            assert forall|l2: int| 1 <= l2 < self.height_spec() implies (#[trigger] self.flat(
                l2,
            )).len() == self.layer(l2 - 1).len() by {
                assert(self.layer(l2) == s0.layer(l2));
                assert(self.flat(l2) == s0.flat(l2));
                assert(s0.flat(l2).len() == s0.layer(l2 - 1).len());
                assert(self.layer(l2 - 1).len() == s0.layer(l2 - 1).len());
            }
            assert(self.wf_links());
            // sorted: the new node falls strictly between its neighbours
            assert forall|i2: int| 0 <= i2 < self.bottom().len() - 1 implies lex_lt(
                (#[trigger] self.bottom()[i2]).key@,
                self.bottom()[i2 + 1].key@,
            ) by {
                if i2 < jn - 1 {
                    assert(self.bottom()[i2] == s0.bottom()[i2]);
                    assert(self.bottom()[i2 + 1] == s0.bottom()[i2 + 1]);
                    assert(lex_lt(s0.bottom()[i2].key@, s0.bottom()[i2 + 1].key@));
                } else if i2 == jn - 1 {
                    assert(self.bottom()[i2] == s0.bottom()[i2]);
                    assert(self.bottom()[jn] == nodeg);
                } else if i2 == jn {
                    assert(self.bottom()[i2 + 1] == s0.bottom()[i2]);
                } else {
                    assert(self.bottom()[i2] == s0.bottom()[i2 - 1]);
                    assert(self.bottom()[i2 + 1] == s0.bottom()[i2]);
                    assert(lex_lt(s0.bottom()[i2 - 1].key@, s0.bottom()[i2].key@));
                }
            }
            assert(self.wf_sorted());
            // keys
            assert forall|i2: int| 0 <= i2 < self.bottom().len() implies {
                let n = #[trigger] self.bottom()[i2];
                &&& n.key@ == self.spec_key_of(n.value)
                &&& n.key@.len() == self.merklesig_len
                &&& n.merklesig@ == n.key@
            } by {
                if i2 < jn {
                    assert(self.bottom()[i2] == s0.bottom()[i2]);
                    assert(s0.bottom()[i2].key@ == s0.spec_key_of(s0.bottom()[i2].value));
                } else if i2 > jn {
                    assert(self.bottom()[i2] == s0.bottom()[i2 - 1]);
                    assert(s0.bottom()[i2 - 1].key@ == s0.spec_key_of(s0.bottom()[i2 - 1].value));
                } else {
                    assert(nodeg.key@.len() == s0.merklesig_len);
                }
            }
            assert(self.wf_keys());
            // sizes: only unit (0, u) grew
            assert forall|l2: int, u2: int|
                0 <= l2 < self.height_spec() && 0 <= u2 < self.layer(l2).len()
                    implies self.size_lo(l2) <= (#[trigger] self.unit_at(l2, u2)).len()
                && self.unit_at(l2, u2).len() <= self.unit_maxsiz + (if l2 == 0 && u2 == u as int {
                1int
            } else {
                0int
            }) by {
                if l2 != 0 || u2 != u as int {
                    if l2 != 0 {
                        assert(self.layer(l2) == s0.layer(l2));
                    } else {
                        assert(self.unit_at(0, u2) == s0.unit_at(0, u2));
                    }
                }
                assert(s0.size_lo(l2) <= s0.unit_at(l2, u2).len() <= s0.unit_maxsiz);
            }
        }
        let ghost s1 = *self;
        self.split_up(0, u);
        let ghost s2 = *self;
        proof {
            self.lemma_same_bottom(&s1);
        }
        self.refresh_all();
        proof {
            self.lemma_same_bottom(&s2);
            assert forall|l2: int, u2: int|
                0 <= l2 < self.height_spec() && 0 <= u2 < self.layer(l2).len()
                    implies self.size_lo(l2) <= (#[trigger] self.unit_at(l2, u2)).len()
                && self.unit_at(l2, u2).len() <= self.unit_maxsiz + 0 by {
                assert(self.unit_at(l2, u2).len() == s2.unit_at(l2, u2).len());
                assert(self.layer(l2).len() == s2.layer(l2).len());
                assert(s2.size_lo(l2) <= s2.unit_at(l2, u2).len() <= s2.unit_maxsiz + 0) by {
                    assert(s2.wf_sizes_above_except(0, -1, -1));
                }
            }
            assert(self.wf_sizes());
            assert(self.item_cnt == self.bottom().len());
            assert(self.wf());
            assert(self.bottom() == s1.bottom());
            self.lemma_map_insert(&s0, jn, nodeg);
        }
    }
}

/// Whether a pending-split list holds an entry for unit `(l, u)`.
pub open spec fn pend_has(pend: Seq<(usize, usize)>, l: int, u: int) -> bool {
    exists|k: int| 0 <= k < pend.len() && pend[k].0 == l && pend[k].1 == u
}

/// Removing a node from slot `q` of unit `pu` removes it from the matching
/// flat position.
proof fn lemma_flat_unit_remove<V>(
    old_us: Seq<Vec<Node<V>>>,
    new_us: Seq<Vec<Node<V>>>,
    pu: int,
    q: int,
)
    requires
        0 <= pu < old_us.len(),
        0 <= q < old_us[pu]@.len(),
        new_us.len() == old_us.len(),
        new_us[pu]@ =~= old_us[pu]@.remove(q),
        forall|x: int| 0 <= x < old_us.len() && x != pu ==> new_us[x] == old_us[x],
    ensures
        units_flat(new_us) =~= units_flat(old_us).remove(flat_index(old_us, pu, q)),
{
    assert(new_us.take(pu) =~= old_us.take(pu));
    assert(new_us.skip(pu + 1) =~= old_us.skip(pu + 1));
    lemma_units_flat_split(old_us, pu);
    lemma_units_flat_split(new_us, pu);
    assert(old_us.skip(pu) =~= seq![old_us[pu]] + old_us.skip(pu + 1));
    assert(new_us.skip(pu) =~= seq![new_us[pu]] + new_us.skip(pu + 1));
    lemma_units_flat_concat(seq![old_us[pu]], old_us.skip(pu + 1));
    lemma_units_flat_concat(seq![new_us[pu]], new_us.skip(pu + 1));
    lemma_units_flat_single(seq![old_us[pu]]);
    lemma_units_flat_single(seq![new_us[pu]]);
    assert(units_flat(old_us) =~= units_flat(old_us.take(pu)) + old_us[pu]@ + units_flat(
        old_us.skip(pu + 1),
    ));
    assert(units_flat(new_us) =~= units_flat(old_us.take(pu)) + old_us[pu]@.remove(q)
        + units_flat(old_us.skip(pu + 1)));
}

/// Removing an empty unit leaves the layer's flat view unchanged.
proof fn lemma_flat_empty_unit_remove<V>(
    old_us: Seq<Vec<Node<V>>>,
    new_us: Seq<Vec<Node<V>>>,
    uu: int,
)
    requires
        0 <= uu < old_us.len(),
        old_us[uu]@.len() == 0,
        new_us =~= old_us.remove(uu),
    ensures
        units_flat(new_us) =~= units_flat(old_us),
{
    lemma_units_flat_split(old_us, uu);
    assert(old_us.skip(uu) =~= seq![old_us[uu]] + old_us.skip(uu + 1));
    lemma_units_flat_concat(seq![old_us[uu]], old_us.skip(uu + 1));
    lemma_units_flat_single(seq![old_us[uu]]);
    assert(new_us =~= old_us.take(uu) + old_us.skip(uu + 1));
    lemma_units_flat_concat(old_us.take(uu), old_us.skip(uu + 1));
}

impl<V: AsBytes, D: Digester> MCL<V, D> {
    /// Removing a bottom node removes its pair from the key/value map.
    proof fn lemma_map_remove(&self, older: &MCL<V, D>, j0: int)
        requires
            0 <= j0 < older.bottom().len(),
            self.bottom() == older.bottom().remove(j0),
            self.wf_sorted(),
            older.wf_sorted(),
        ensures
            self.as_map() =~= older.as_map().remove(older.bottom()[j0].key@),
            !self.contains_key(older.bottom()[j0].key@),
            self.bottom().len() == older.bottom().len() - 1,
    {
        let kgone = older.bottom()[j0].key@;
        older.bottom().remove_ensures(j0);
        assert(!self.contains_key(kgone)) by {
            if self.contains_key(kgone) {
                let i = self.index_of_key(kgone);
                let iold = if i < j0 {
                    i
                } else {
                    i + 1
                };
                assert(older.bottom()[iold] == self.bottom()[i]);
                older.lemma_key_unique(iold);
                older.lemma_key_unique(j0);
            }
        }
        assert forall|k: Seq<u8>| k != kgone implies self.contains_key(k) == older.contains_key(
            k,
        ) && (self.contains_key(k) ==> self.as_map()[k] == older.as_map()[k]) by {
            if older.contains_key(k) {
                let i = older.index_of_key(k);
                assert(older.bottom()[i].key@ == k);
                assert(i != j0) by {
                    older.lemma_key_unique(j0);
                }
                let i2 = if i < j0 {
                    i
                } else {
                    i - 1
                };
                assert(self.bottom()[i2] == older.bottom()[i]);
                self.lemma_key_unique(i2);
                older.lemma_key_unique(i);
            } else {
                if self.contains_key(k) {
                    let i = self.index_of_key(k);
                    let iold = if i < j0 {
                        i
                    } else {
                        i + 1
                    };
                    assert(older.bottom()[iold] == self.bottom()[i]);
                    assert(older.contains_key(k));
                }
            }
        }
        assert forall|k: Seq<u8>|
            self.as_map().dom().contains(k) == older.as_map().remove(kgone).dom().contains(
                k,
            ) by {}
    }
}

impl<V: AsBytes, D: Digester> MCL<V, D> {
    /// The deletion chain's state at the top of each step: one node has just
    /// left unit `uu` of layer `l`, layers above are untouched, counts are
    /// aligned, and every finished layer is within size bounds except the
    /// recorded pending splits.
    spec fn chain_inv(
        &self,
        s0: MCL<V, D>,
        j0: int,
        l: int,
        uu: int,
        pend: Seq<(usize, usize)>,
    ) -> bool {
        let h = s0.height_spec();
        &&& self.height_spec() == h
        &&& s0.wf()
        &&& s0.bottom().len() >= 2
        &&& 0 <= j0 < s0.bottom().len()
        &&& 0 <= l < h
        &&& 0 <= uu < self.layer(l).len()
        &&& (forall|l2: int| l < l2 < h ==> #[trigger] self.layer(l2) == s0.layer(l2))
        &&& self.layer(l).len() == s0.layer(l).len()
        &&& (forall|u2: int|
            0 <= u2 < self.layer(l).len() && u2 != uu ==> #[trigger] self.unit_at(l, u2)
                == s0.unit_at(l, u2))
        &&& self.unit_at(l, uu).len() + 1 == s0.unit_at(l, uu).len()
        &&& (forall|l2: int| 0 <= l2 < h ==> (#[trigger] self.layer(l2)).len() > 0)
        &&& (forall|l2: int|
            1 <= l2 < h ==> (#[trigger] self.flat(l2)).len() == self.layer(l2 - 1).len())
        &&& (forall|l2: int, u2: int|
            0 <= l2 < h && 0 <= u2 < self.layer(l2).len() && !(l2 == l && u2 == uu) ==> (
            #[trigger] self.unit_at(l2, u2)).len() >= 1)
        &&& self.layer(h - 1).len() == 1
        &&& self.bottom() == s0.bottom().remove(j0)
        &&& (forall|l2: int, u2: int|
            0 <= l2 < l && 0 <= u2 < self.layer(l2).len() ==> 2 <= (#[trigger] self.unit_at(
                l2,
                u2,
            )).len() && (self.unit_at(l2, u2).len() <= self.unit_maxsiz || (pend_has(
                pend,
                l2,
                u2,
            ) && self.unit_at(l2, u2).len() <= self.unit_maxsiz + 1)))
        &&& (forall|k: int|
            0 <= k < pend.len() ==> ((#[trigger] pend[k]).0 as int) < l && (pend[k].0 as int) < h
                - 1 && (pend[k].1 as int) < self.layer(pend[k].0 as int).len())
        &&& (forall|k1: int, k2: int|
            0 <= k1 < k2 < pend.len() ==> (#[trigger] pend[k1]).0 < (#[trigger] pend[k2]).0)
        &&& self.unit_maxsiz == s0.unit_maxsiz
        &&& self.merklesig_len == s0.merklesig_len
        &&& self.hash == s0.hash
        &&& self.item_cnt == s0.item_cnt - 1
        &&& self.merklesig == s0.merklesig
    }

    /// A bottom layer with one node removed stays sorted and well-keyed.
    proof fn lemma_remove_sorted_keys(&self, a: &MCL<V, D>, j0: int)
        requires
            0 <= j0 < a.bottom().len(),
            self.bottom() == a.bottom().remove(j0),
            self.hash == a.hash,
            self.merklesig_len == a.merklesig_len,
            a.wf_sorted(),
            a.wf_keys(),
        ensures
            self.wf_sorted(),
            self.wf_keys(),
    {
        a.bottom().remove_ensures(j0);
        assert forall|i2: int| 0 <= i2 < self.bottom().len() - 1 implies lex_lt(
            (#[trigger] self.bottom()[i2]).key@,
            self.bottom()[i2 + 1].key@,
        ) by {
            if i2 + 1 < j0 {
                assert(self.bottom()[i2] == a.bottom()[i2]);
                assert(self.bottom()[i2 + 1] == a.bottom()[i2 + 1]);
                assert(lex_lt(a.bottom()[i2].key@, a.bottom()[i2 + 1].key@));
            } else if i2 + 1 == j0 {
                assert(self.bottom()[i2] == a.bottom()[i2]);
                assert(self.bottom()[i2 + 1] == a.bottom()[j0 + 1]);
                assert(lex_lt(a.bottom()[i2].key@, a.bottom()[j0].key@));
                assert(lex_lt(a.bottom()[j0].key@, a.bottom()[j0 + 1].key@));
                lemma_lex_trans(a.bottom()[i2].key@, a.bottom()[j0].key@, a.bottom()[j0 + 1].key@);
            } else {
                assert(self.bottom()[i2] == a.bottom()[i2 + 1]);
                assert(self.bottom()[i2 + 1] == a.bottom()[i2 + 2]);
                assert(lex_lt(a.bottom()[i2 + 1].key@, a.bottom()[i2 + 2].key@));
            }
        }
        assert forall|i2: int| 0 <= i2 < self.bottom().len() implies {
            let n = #[trigger] self.bottom()[i2];
            &&& n.key@ == self.spec_key_of(n.value)
            &&& n.key@.len() == self.merklesig_len
            &&& n.merklesig@ == n.key@
        } by {
            let iold = if i2 < j0 {
                i2
            } else {
                i2 + 1
            };
            assert(self.bottom()[i2] == a.bottom()[iold]);
            assert(a.bottom()[iold].key@ == a.spec_key_of(a.bottom()[iold].value));
            assert(a.bottom()[iold].key@.len() == a.merklesig_len);
            assert(a.bottom()[iold].merklesig@ == a.bottom()[iold].key@);
        }
    }

    /// Re-establish the deletion-chain invariant after one step: a unit was
    /// absorbed out of layer `li` of `sl` (giving `sm`), and the matching
    /// parent node at slot `(pu, pi)` of layer `li + 1` was then removed
    /// (giving `cur`).
    proof fn del_step_reestablish(
        cur: &MCL<V, D>,
        s0: MCL<V, D>,
        sl: MCL<V, D>,
        sm: MCL<V, D>,
        li: int,
        j0: int,
        pu: int,
        pi: int,
        pend: Seq<(usize, usize)>,
    )
        requires
            s0.wf(),
            s0.bottom().len() >= 2,
            0 <= j0 < s0.bottom().len(),
            0 <= li,
            li + 1 < s0.height_spec(),
            sl.height_spec() == s0.height_spec(),
            sm.height_spec() == s0.height_spec(),
            cur.height_spec() == s0.height_spec(),
            // what the chain knew of `sl`
            forall|l2: int| li < l2 < s0.height_spec() ==> #[trigger] sl.layer(l2) == s0.layer(l2),
            forall|l2: int|
                1 <= l2 < s0.height_spec() ==> (#[trigger] sl.flat(l2)).len() == sl.layer(
                    l2 - 1,
                ).len(),
            sl.bottom() == s0.bottom().remove(j0),
            sl.layer(s0.height_spec() - 1).len() == 1,
            // the unit fix at layer `li`
            forall|l2: int| 0 <= l2 < s0.height_spec() && l2 != li ==> #[trigger] sm.layer(l2)
                == sl.layer(l2),
            sm.layer(li).len() + 1 == sl.layer(li).len(),
            sm.layer(li).len() > 0,
            sm.flat(li) == sl.flat(li),
            sm.bottom() == sl.bottom(),
            forall|l2: int| 0 <= l2 < s0.height_spec() ==> (#[trigger] sm.layer(l2)).len() > 0,
            // sizes of finished layers, against the pending-split list
            forall|l2: int, u2: int|
                0 <= l2 <= li && 0 <= u2 < sm.layer(l2).len() ==> 2 <= (#[trigger] sm.unit_at(
                    l2,
                    u2,
                )).len() && (sm.unit_at(l2, u2).len() <= s0.unit_maxsiz || (pend_has(
                    pend,
                    l2,
                    u2,
                ) && sm.unit_at(l2, u2).len() <= s0.unit_maxsiz + 1)),
            forall|k: int|
                0 <= k < pend.len() ==> ((#[trigger] pend[k]).0 as int) <= li && (
                pend[k].0 as int) < s0.height_spec() - 1 && (pend[k].1 as int) < sm.layer(
                    pend[k].0 as int,
                ).len(),
            forall|k1: int, k2: int|
                0 <= k1 < k2 < pend.len() ==> (#[trigger] pend[k1]).0 < (#[trigger] pend[k2]).0,
            // the parent-node removal at layer `li + 1`
            0 <= pu < sm.layer(li + 1).len(),
            0 <= pi < sm.unit_at(li + 1, pu).len(),
            forall|l2: int| 0 <= l2 < s0.height_spec() && l2 != li + 1 ==> #[trigger] cur.layer(
                l2,
            ) == sm.layer(l2),
            cur.layer(li + 1).len() == sm.layer(li + 1).len(),
            forall|u2: int|
                0 <= u2 < sm.layer(li + 1).len() && u2 != pu ==> #[trigger] cur.layer(li + 1)[u2]
                    == sm.layer(li + 1)[u2],
            cur.unit_at(li + 1, pu) =~= sm.unit_at(li + 1, pu).remove(pi),
            // fields
            cur.unit_maxsiz == s0.unit_maxsiz,
            cur.merklesig_len == s0.merklesig_len,
            cur.hash == s0.hash,
            cur.item_cnt == s0.item_cnt - 1,
            cur.merklesig == s0.merklesig,
        ensures
            cur.chain_inv(s0, j0, li + 1, pu, pend),
    {
        let h = s0.height_spec();
        lemma_flat_unit_remove(sm.layer(li + 1), cur.layer(li + 1), pu, pi);
        lemma_flat_index_get(sm.layer(li + 1), pu, pi);
        sm.flat(li + 1).remove_ensures(flat_index(sm.layer(li + 1), pu, pi));
        assert(cur.flat(li + 1).len() == sm.flat(li + 1).len() - 1);
        assert(sm.layer(li + 1) == sl.layer(li + 1));
        assert(sl.layer(li + 1) == s0.layer(li + 1));
        assert forall|l2: int| li + 1 < l2 < h implies #[trigger] cur.layer(l2) == s0.layer(
            l2,
        ) by {
            assert(cur.layer(l2) == sm.layer(l2));
            assert(sm.layer(l2) == sl.layer(l2));
            assert(sl.layer(l2) == s0.layer(l2));
        }
        assert(cur.layer(li + 1).len() == s0.layer(li + 1).len());
        assert forall|u2: int| 0 <= u2 < cur.layer(li + 1).len() && u2 != pu
            implies #[trigger] cur.unit_at(li + 1, u2) == s0.unit_at(li + 1, u2) by {
            assert(cur.layer(li + 1)[u2] == sm.layer(li + 1)[u2]);
        }
        assert(cur.unit_at(li + 1, pu).len() + 1 == s0.unit_at(li + 1, pu).len());
        assert forall|l2: int| 0 <= l2 < h implies (#[trigger] cur.layer(l2)).len() > 0 by {
            if l2 != li + 1 {
                assert(cur.layer(l2) == sm.layer(l2));
                assert(sm.layer(l2).len() > 0);
            } else {
                assert(sm.layer(l2).len() > 0);
            }
        }
        assert forall|l2: int| 1 <= l2 < h implies (#[trigger] cur.flat(l2)).len() == cur.layer(
            l2 - 1,
        ).len() by {
            if l2 < li {
                assert(cur.layer(l2) == sm.layer(l2));
                assert(sm.layer(l2) == sl.layer(l2));
                assert(cur.flat(l2) == sl.flat(l2));
                assert(cur.layer(l2 - 1) == sm.layer(l2 - 1));
                assert(sm.layer(l2 - 1) == sl.layer(l2 - 1));
                assert(sl.flat(l2).len() == sl.layer(l2 - 1).len());
            } else if l2 == li {
                assert(cur.layer(li) == sm.layer(li));
                assert(cur.flat(li) == sm.flat(li));
                assert(sm.flat(li) == sl.flat(li));
                if li >= 1 {
                    assert(cur.layer(l2 - 1) == sm.layer(l2 - 1));
                    assert(sm.layer(l2 - 1) == sl.layer(l2 - 1));
                    assert(sl.flat(l2).len() == sl.layer(l2 - 1).len());
                }
            } else if l2 == li + 1 {
                assert(sm.flat(li + 1) == sl.flat(li + 1));
                assert(sl.flat(li + 1).len() == sl.layer(li).len());
                assert(cur.layer(li) == sm.layer(li));
            } else if l2 == li + 2 {
                assert(cur.flat(l2) == sm.flat(l2));
                assert(sm.flat(l2) == sl.flat(l2));
                assert(sl.flat(l2).len() == sl.layer(li + 1).len());
                assert(sm.layer(li + 1) == sl.layer(li + 1));
            } else {
                assert(cur.layer(l2) == sm.layer(l2));
                assert(sm.layer(l2) == sl.layer(l2));
                assert(cur.flat(l2) == sl.flat(l2));
                assert(cur.layer(l2 - 1) == sm.layer(l2 - 1));
                assert(sm.layer(l2 - 1) == sl.layer(l2 - 1));
                assert(sl.flat(l2).len() == sl.layer(l2 - 1).len());
            }
        }
        assert forall|l2: int, u2: int|
            0 <= l2 < h && 0 <= u2 < cur.layer(l2).len() && !(l2 == li + 1 && u2 == pu) implies (
        #[trigger] cur.unit_at(l2, u2)).len() >= 1 by {
            if l2 <= li {
                assert(cur.layer(l2) == sm.layer(l2));
                assert(2 <= sm.unit_at(l2, u2).len());
            } else if l2 == li + 1 {
                assert(cur.unit_at(l2, u2) == s0.unit_at(l2, u2));
                assert(s0.size_lo(l2) <= s0.unit_at(l2, u2).len());
            } else {
                assert(cur.layer(l2) == sm.layer(l2));
                assert(sm.layer(l2) == sl.layer(l2));
                assert(sl.layer(l2) == s0.layer(l2));
                assert(s0.size_lo(l2) <= s0.unit_at(l2, u2).len());
            }
        }
        assert(cur.layer(h - 1).len() == 1) by {
            if li + 1 == h - 1 {
            } else {
                assert(cur.layer(h - 1) == sm.layer(h - 1));
                assert(sm.layer(h - 1) == sl.layer(h - 1));
            }
        }
        assert(cur.bottom() == s0.bottom().remove(j0)) by {
            assert(cur.layer(0) == sm.layer(0));
            assert(cur.bottom() == sm.bottom());
        }
        assert forall|l2: int, u2: int|
            0 <= l2 < li + 1 && 0 <= u2 < cur.layer(l2).len() implies 2 <= (
        #[trigger] cur.unit_at(l2, u2)).len() && (cur.unit_at(l2, u2).len() <= cur.unit_maxsiz
            || (pend_has(pend, l2, u2) && cur.unit_at(l2, u2).len() <= cur.unit_maxsiz + 1)) by {
            assert(cur.layer(l2) == sm.layer(l2));
            assert(2 <= sm.unit_at(l2, u2).len());
        }
        assert forall|k: int| 0 <= k < pend.len() implies ((#[trigger] pend[k]).0 as int) < li + 1
            && (pend[k].0 as int) < h - 1 && (pend[k].1 as int) < cur.layer(
            pend[k].0 as int,
        ).len() by {
            assert(cur.layer(pend[k].0 as int) == sm.layer(pend[k].0 as int));
        }
    }

    /// Delete the bottom node at slot `(u0, i0)`: splice it out, absorb and
    /// re-split underfull units up the structure, collapse an exhausted top
    /// layer, and refresh the commitment.
    #[verifier::rlimit(60)]
    fn del_at(&mut self, u0: usize, i0: usize) -> (node: Node<V>)
        requires
            old(self).wf(),
            old(self).height_spec() > 0,
            old(self).bottom().len() >= 2,
            (u0 as int) < old(self).layer(0).len(),
            (i0 as int) < old(self).unit_at(0, u0 as int).len(),
        ensures
            final(self).wf(),
            final(self).unit_max_spec() == old(self).unit_max_spec(),
            final(self).sig_len_spec() == old(self).sig_len_spec(),
            final(self).hash == old(self).hash,
            node == old(self).bottom()[flat_index(old(self).layer(0), u0 as int, i0 as int)],
            final(self).bottom() == old(self).bottom().remove(
                flat_index(old(self).layer(0), u0 as int, i0 as int),
            ),
            final(self).bottom().len() == old(self).bottom().len() - 1,
    {
        let ghost j0 = flat_index(old(self).layer(0), u0 as int, i0 as int);
        let ghost s0 = *self;
        proof {
            lemma_flat_index_get(s0.layer(0), u0 as int, i0 as int);
        }
        let layer0 = &mut self.layers[0];
        let unit0 = &mut layer0[u0];
        let node = unit0.remove(i0);
        self.item_cnt = self.item_cnt - 1;
        let mut pendings: Vec<(usize, usize)> = Vec::new();
        let mut l: usize = 0;
        let mut uu: usize = u0;
        let ghost h = s0.height_spec();
        proof {
            assert forall|l2: int| 0 < l2 < h implies #[trigger] self.layer(l2) == s0.layer(
                l2,
            ) by {}
            assert(self.unit_at(0, u0 as int) =~= s0.unit_at(0, u0 as int).remove(i0 as int));
            lemma_flat_unit_remove(s0.layer(0), self.layer(0), u0 as int, i0 as int);
            assert(self.bottom() =~= s0.bottom().remove(j0));
            assert forall|l2: int| 0 <= l2 < h implies (#[trigger] self.layer(l2)).len() > 0 by {
                if l2 > 0 {
                    assert(self.layer(l2) == s0.layer(l2));
                }
                assert(s0.layer(l2).len() > 0);
            }
            assert forall|l2: int| 1 <= l2 < h implies (#[trigger] self.flat(l2)).len()
                == self.layer(l2 - 1).len() by {
                assert(self.layer(l2) == s0.layer(l2));
                assert(self.flat(l2) == s0.flat(l2));
                assert(s0.flat(l2).len() == s0.layer(l2 - 1).len());
                assert(self.layer(l2 - 1).len() == s0.layer(l2 - 1).len());
            }
            assert forall|l2: int, u2: int|
                0 <= l2 < h && 0 <= u2 < self.layer(l2).len() && !(l2 == 0 && u2 == u0 as int)
                    implies (#[trigger] self.unit_at(l2, u2)).len() >= 1 by {
                if l2 > 0 {
                    assert(self.layer(l2) == s0.layer(l2));
                } else {
                    assert(self.unit_at(0, u2) == s0.unit_at(0, u2));
                }
                assert(s0.unit_at(l2, u2).len() >= 1);
            }
            assert(self.layer(h - 1).len() == 1) by {
                if h > 1 {
                    assert(self.layer(h - 1) == s0.layer(h - 1));
                }
            }
            assert(self.chain_inv(s0, j0, 0, u0 as int, pendings@));
        }
        loop
            invariant_except_break
                self.chain_inv(s0, j0, l as int, uu as int, pendings@),
                h == s0.height_spec(),
            ensures
                self.height_spec() == h,
                self.wf_links(),
                self.bottom() == s0.bottom().remove(j0),
                self.unit_at(h - 1, 0).len() <= self.unit_maxsiz - 1,
                forall|l2: int, u2: int|
                    0 <= l2 < h && 0 <= u2 < self.layer(l2).len() ==> 1 <= (
                    #[trigger] self.unit_at(l2, u2)).len() && (self.unit_at(l2, u2).len()
                        <= self.unit_maxsiz || (pend_has(pendings@, l2, u2) && self.unit_at(
                        l2,
                        u2,
                    ).len() <= self.unit_maxsiz + 1)),
                forall|l2: int, u2: int|
                    0 <= l2 < h - 1 && 0 <= u2 < self.layer(l2).len() && (
                    #[trigger] self.unit_at(l2, u2)).len() < 2 ==> l2 == h - 2 && self.layer(
                        l2,
                    ).len() == 1 && self.unit_at(h - 1, 0).len() == 1,
                forall|k: int|
                    0 <= k < pendings@.len() ==> ((#[trigger] pendings@[k]).0 as int) < h - 1 && (
                    pendings@[k].1 as int) < self.layer(pendings@[k].0 as int).len(),
                forall|k1: int, k2: int|
                    0 <= k1 < k2 < pendings@.len() ==> (#[trigger] pendings@[k1]).0 < (
                    #[trigger] pendings@[k2]).0,
                self.unit_maxsiz == s0.unit_maxsiz,
                self.merklesig_len == s0.merklesig_len,
                self.hash == s0.hash,
                self.item_cnt == s0.item_cnt - 1,
                self.merklesig == s0.merklesig,
            decreases h - l,
        {
            let ghost sl = *self;
            let ghost li = l as int;
            let ghost ui = uu as int;
            let unit_len = self.layers[l][uu].len();
            let hcur = self.layers.len();
            proof {
                // a unit never empties: its pre-deletion size was at least 2
                // below the top, and a one-node top layer sits above a lone
                // unit whose own deletion this chain can never reach
                if unit_len == 0 {
                    assert(s0.unit_at(li, ui).len() == 1);
                    assert(s0.size_lo(li) <= s0.unit_at(li, ui).len());
                    assert(li == h - 1);
                    assert(self.layer(li).len() == 1);
                    lemma_units_flat_single(self.layer(li));
                    assert(self.flat(li).len() == 0);
                    if h == 1 {
                        assert(self.bottom().len() == s0.bottom().len() - 1);
                    } else {
                        assert(self.flat(h - 1).len() == self.layer(h - 2).len());
                        assert(self.layer(h - 2).len() > 0);
                    }
                    assert(false);
                }
            }
            if unit_len == 1 && l + 1 < hcur && self.layers[l].len() >= 2 {
                // underflow: absorb the singleton and its smaller neighbour
                // into one unit (rightward on a tie), then delete the
                // absorbed unit's parent node
                let left_len = if uu > 0 {
                    self.layers[l][uu - 1].len()
                } else {
                    0
                };
                let right_len = if uu + 1 < self.layers[l].len() {
                    self.layers[l][uu + 1].len()
                } else {
                    0
                };
                let use_left = right_len == 0 || (left_len != 0 && left_len < right_len);
                let survivor: usize;
                let absorbed: usize;
                if use_left {
                    proof {
                        assert(uu >= 1) by {
                            if ui + 1 < self.layer(li).len() {
                                assert(self.unit_at(li, ui + 1).len() >= 1);
                            }
                        }
                    }
                    let layer_l = &mut self.layers[l];
                    let mut mv = layer_l.remove(uu);
                    let dst = &mut layer_l[uu - 1];
                    dst.append(&mut mv);
                    survivor = uu - 1;
                    absorbed = uu;
                } else {
                    proof {
                        assert(uu + 1 < self.layer(li).len());
                    }
                    let layer_l = &mut self.layers[l];
                    let mut mv = layer_l.remove(uu + 1);
                    let dst = &mut layer_l[uu];
                    dst.append(&mut mv);
                    survivor = uu;
                    absorbed = uu + 1;
                }
                let ghost svi = survivor as int;
                let ghost abi = absorbed as int;
                proof {
                    // the layer keeps the same nodes, one unit fewer
                    assert(self.layer(li).len() + 1 == sl.layer(li).len());
                    assert(self.unit_at(li, svi) =~= sl.unit_at(li, svi) + sl.unit_at(li, abi));
                    assert forall|u2: int| 0 <= u2 < self.layer(li).len() && u2 != svi
                        implies #[trigger] self.layer(li)[u2] == (if u2 < svi {
                        sl.layer(li)[u2]
                    } else {
                        sl.layer(li)[u2 + 1]
                    }) by {}
                    assert(sl.layer(li) =~= self.layer(li).take(svi) + seq![
                        sl.layer(li)[svi],
                        sl.layer(li)[svi + 1],
                    ] + self.layer(li).skip(svi + 1));
                    assert(sl.layer(li)[svi]@ + sl.layer(li)[svi + 1]@ =~= self.layer(
                        li,
                    )[svi]@);
                    lemma_flat_two_replace(
                        self.layer(li),
                        sl.layer(li),
                        svi,
                        sl.layer(li)[svi],
                        sl.layer(li)[svi + 1],
                    );
                    assert(self.flat(li) =~= sl.flat(li));
                    assert forall|l2: int| 0 <= l2 < h && l2 != li implies #[trigger] self.layer(
                        l2,
                    ) == sl.layer(l2) by {}
                }
                let ghost pend0 = pendings@;
                if self.layers[l][survivor].len() > self.unit_maxsiz {
                    proof {
                        assert((l as int) < h - 1);
                    }
                    pendings.push((l, survivor));
                }
                let ghost pend2 = pendings@;
                proof {
                    // the merged unit stays within one slot of capacity
                    assert(sl.unit_at(li, svi).len() + sl.unit_at(li, abi).len()
                        <= s0.unit_maxsiz + 1) by {
                        if svi == ui {
                            assert(sl.unit_at(li, abi) == s0.unit_at(li, abi));
                            assert(s0.unit_at(li, abi).len() <= s0.unit_maxsiz);
                        } else {
                            assert(sl.unit_at(li, svi) == s0.unit_at(li, svi));
                            assert(s0.unit_at(li, svi).len() <= s0.unit_maxsiz);
                        }
                    }
                    assert forall|l2: int, u2: int|
                        0 <= l2 <= li && 0 <= u2 < self.layer(l2).len() implies 2 <= (
                    #[trigger] self.unit_at(l2, u2)).len() && (self.unit_at(l2, u2).len()
                        <= s0.unit_maxsiz || (pend_has(pend2, l2, u2) && self.unit_at(
                        l2,
                        u2,
                    ).len() <= s0.unit_maxsiz + 1)) by {
                        if l2 < li {
                            assert(self.layer(l2) == sl.layer(l2));
                            assert(2 <= sl.unit_at(l2, u2).len());
                            if sl.unit_at(l2, u2).len() > s0.unit_maxsiz {
                                assert(pend_has(pend0, l2, u2));
                                let kk = choose|kk: int|
                                    0 <= kk < pend0.len() && pend0[kk].0 == l2 && pend0[kk].1
                                        == u2;
                                assert(pend2[kk] == pend0[kk]);
                                assert(pend_has(pend2, l2, u2));
                            }
                        } else {
                            if u2 == svi {
                                assert(2 <= self.unit_at(li, svi).len());
                                if self.unit_at(li, svi).len() > s0.unit_maxsiz {
                                    assert(pend2[pend2.len() - 1] == (
                                        l,
                                        survivor,
                                    ));
                                    assert(pend_has(pend2, li, svi));
                                }
                            } else {
                                let uold = if u2 < svi {
                                    u2
                                } else {
                                    u2 + 1
                                };
                                assert(self.layer(li)[u2] == sl.layer(li)[uold]);
                                assert(sl.unit_at(li, uold) == s0.unit_at(li, uold));
                                assert(s0.size_lo(li) <= s0.unit_at(li, uold).len()
                                    <= s0.unit_maxsiz);
                            }
                        }
                    }
                    // ready the parent deletion
                    assert(self.layer(li + 1) == sl.layer(li + 1));
                    assert forall|u2: int|
                        0 <= u2 < self.layer(li + 1).len() implies (#[trigger] self.unit_at(
                        li + 1,
                        u2,
                    )).len() >= 1 by {
                        assert(self.unit_at(li + 1, u2) == sl.unit_at(li + 1, u2));
                        assert(sl.unit_at(li + 1, u2).len() >= 1);
                    }
                    assert(self.flat(li + 1) == sl.flat(li + 1));
                    assert(sl.flat(li + 1).len() == sl.layer(li).len());
                    assert((abi as int) < self.flat(li + 1).len());
                    assert(self.layer(li + 1).len() > 0);
                }
                let (pu, pi) = self.unit_pos(l + 1, absorbed);
                let ghost sm = *self;
                let layer_up = &mut self.layers[l + 1];
                let unit_up = &mut layer_up[pu];
                proof {
                    assert((pi as int) < unit_up@.len()) by {
                        lemma_flat_index_get(sm.layer(li + 1), pu as int, pi as int);
                    }
                }
                let _parent = unit_up.remove(pi);
                proof {
                    assert(self.unit_at(li + 1, pu as int) =~= sm.unit_at(
                        li + 1,
                        pu as int,
                    ).remove(pi as int));
                    assert forall|l2: int| 0 <= l2 < h && l2 != li + 1
                        implies #[trigger] self.layer(l2) == sm.layer(l2) by {}
                    assert(sm.bottom() == sl.bottom()) by {
                        assert(sm.layer(0) == self.layer(0) || li == 0);
                        if li == 0 {
                            assert(sm.flat(0) == sl.flat(0));
                        } else {
                            assert(sm.layer(0) == sl.layer(0));
                        }
                    }
                    assert forall|l2: int| 0 <= l2 < h implies (#[trigger] sm.layer(l2)).len()
                        > 0 by {
                        if l2 != li {
                            assert(sm.layer(l2) == sl.layer(l2));
                            assert(sl.layer(l2).len() > 0);
                        } else {
                            assert(sm.layer(li).len() >= 1);
                        }
                    }
                    Self::del_step_reestablish(
                        self,
                        s0,
                        sl,
                        sm,
                        li,
                        j0,
                        pu as int,
                        pi as int,
                        pend2,
                    );
                }
                l = l + 1;
                uu = pu;
            } else {
                // the unit survives at a lawful size (or as the lone unit
                // below a single-node top, resolved by the collapse below)
                proof {
                    assert(self.unit_at(h - 1, 0).len() <= self.unit_maxsiz - 1) by {
                        if li == h - 1 {
                            assert(ui == 0);
                            assert(s0.unit_at(h - 1, 0).len() <= s0.unit_maxsiz - 1);
                        } else {
                            assert(self.layer(h - 1) == s0.layer(h - 1));
                            assert(self.unit_at(h - 1, 0) == s0.unit_at(h - 1, 0));
                            assert(s0.unit_at(h - 1, 0).len() <= s0.unit_maxsiz - 1);
                        }
                    }
                    assert(self.wf_links()) by {
                        assert forall|l2: int, u2: int|
                            0 <= l2 < h && 0 <= u2 < self.layer(l2).len() implies (
                        #[trigger] self.unit_at(l2, u2)).len() >= 1 by {}
                    }
                    assert forall|l2: int, u2: int|
                        0 <= l2 < h && 0 <= u2 < self.layer(l2).len() implies 1 <= (
                    #[trigger] self.unit_at(l2, u2)).len() && (self.unit_at(l2, u2).len()
                        <= self.unit_maxsiz || (pend_has(pendings@, l2, u2) && self.unit_at(
                        l2,
                        u2,
                    ).len() <= self.unit_maxsiz + 1)) by {
                        if l2 > li {
                            assert(self.layer(l2) == s0.layer(l2));
                            assert(s0.size_lo(l2) <= s0.unit_at(l2, u2).len() <= s0.unit_maxsiz);
                        } else if l2 == li && u2 != ui {
                            assert(self.unit_at(l2, u2) == s0.unit_at(l2, u2));
                            assert(s0.size_lo(l2) <= s0.unit_at(l2, u2).len() <= s0.unit_maxsiz);
                        } else if l2 == li && u2 == ui {
                            assert(s0.size_lo(l2) <= s0.unit_at(l2, u2).len() <= s0.unit_maxsiz);
                        }
                    }
                    assert forall|l2: int, u2: int|
                        0 <= l2 < h - 1 && 0 <= u2 < self.layer(l2).len() && (
                    #[trigger] self.unit_at(l2, u2)).len() < 2 implies l2 == h - 2 && self.layer(
                        l2,
                    ).len() == 1 && self.unit_at(h - 1, 0).len() == 1 by {
                        if l2 > li {
                            assert(self.layer(l2) == s0.layer(l2));
                            assert(s0.size_lo(l2) <= s0.unit_at(l2, u2).len());
                        } else if l2 == li && u2 != ui {
                            assert(self.unit_at(l2, u2) == s0.unit_at(l2, u2));
                            assert(s0.size_lo(l2) <= s0.unit_at(l2, u2).len());
                        } else if l2 == li && u2 == ui {
                            // the lone-survivor case: this layer has one unit
                            assert(unit_len == 1);
                            assert(l + 1 == hcur || self.layer(li).len() == 1);
                            assert(li < h - 1);
                            assert(self.layer(li).len() == 1);
                            assert(self.flat(li + 1).len() == self.layer(li).len());
                            if li + 1 < h - 1 {
                                // a single-node layer above would already be
                                // underfull in the untouched structure
                                assert(self.layer(li + 1) == s0.layer(li + 1));
                                assert(s0.flat(li + 1).len() == 1);
                                assert(s0.layer(li + 1).len() > 0);
                                assert(s0.unit_at(li + 1, 0).len() >= 1);
                                s0.lemma_unit_starts_grow(li + 1, 0);
                                lemma_units_flat_len_final(s0.layer(li + 1));
                                assert(s0.layer(li + 1).len() == 1);
                                assert(s0.unit_at(li + 1, 0).len() == 1);
                                assert(s0.size_lo(li + 1) <= s0.unit_at(li + 1, 0).len());
                                assert(false);
                            } else {
                                assert(li + 1 == h - 1);
                                assert(self.layer(h - 1) == s0.layer(h - 1));
                                lemma_units_flat_single(self.layer(h - 1));
                                assert(self.unit_at(h - 1, 0).len() == self.flat(h - 1).len());
                            }
                        }
                    }
                }
                break;
            }
        }
        // height reduction: a single-node top over a lone single-node unit
        // collapses one layer
        if self.layers.len() >= 2 {
            let top = self.layers.len() - 1;
            let ghost sc = *self;
            if self.layers[top][0].len() == 1 && self.layers[top - 1].len() == 1
                && self.layers[top - 1][0].len() == 1 {
                let _old_top = self.layers.pop();
                proof {
                    let h2 = self.height_spec();
                    assert forall|l2: int| 0 <= l2 < h2 implies #[trigger] self.layer(l2)
                        == sc.layer(l2) by {}
                    assert(self.wf_links()) by {
                        assert forall|l2: int| 0 <= l2 < h2 implies (#[trigger] self.layer(
                            l2,
                        )).len() > 0 by {
                            assert(self.layer(l2) == sc.layer(l2));
                            assert(sc.layer(l2).len() > 0);
                        }
                        assert forall|l2: int, u2: int|
                            0 <= l2 < h2 && 0 <= u2 < self.layer(l2).len() implies (
                        #[trigger] self.unit_at(l2, u2)).len() >= 1 by {
                            assert(self.unit_at(l2, u2) == sc.unit_at(l2, u2));
                            assert(sc.unit_at(l2, u2).len() >= 1);
                        }
                        assert forall|l2: int| 1 <= l2 < h2 implies (#[trigger] self.flat(
                            l2,
                        )).len() == self.layer(l2 - 1).len() by {
                            assert(self.layer(l2) == sc.layer(l2));
                            assert(self.flat(l2) == sc.flat(l2));
                            assert(sc.flat(l2).len() == sc.layer(l2 - 1).len());
                            assert(self.layer(l2 - 1) == sc.layer(l2 - 1));
                        }
                        assert(self.layer(h2 - 1).len() == 1);
                    }
                    assert(self.bottom() == sc.bottom()) by {
                        assert(h2 > 0);
                        assert(self.layer(0) == sc.layer(0));
                    }
                    assert forall|l2: int, u2: int|
                        0 <= l2 < h2 && 0 <= u2 < self.layer(l2).len()
                            implies self.size_lo(l2) <= (#[trigger] self.unit_at(l2, u2)).len()
                        && (self.unit_at(l2, u2).len() <= self.unit_maxsiz || (pend_has(
                        pendings@,
                        l2,
                        u2,
                    ) && self.unit_at(l2, u2).len() <= self.unit_maxsiz + 1)) by {
                        assert(self.unit_at(l2, u2) == sc.unit_at(l2, u2));
                        assert(1 <= sc.unit_at(l2, u2).len());
                        assert(sc.unit_at(l2, u2).len() <= sc.unit_maxsiz || (pend_has(
                            pendings@,
                            l2,
                            u2,
                        ) && sc.unit_at(l2, u2).len() <= sc.unit_maxsiz + 1));
                        if l2 < h2 - 1 && sc.unit_at(l2, u2).len() < 2 {
                            assert(l2 == h - 2 && sc.layer(l2).len() == 1 && sc.unit_at(
                                h - 1,
                                0,
                            ).len() == 1);
                            assert(l2 == h2 - 1);
                        }
                    }
                    assert forall|k: int| 0 <= k < pendings@.len() implies ((
                    #[trigger] pendings@[k]).0 as int) < self.height_spec() && (
                    pendings@[k].1 as int) < self.layer(pendings@[k].0 as int).len() by {
                        assert((pendings@[k].0 as int) < h - 1);
                        assert(self.layer(pendings@[k].0 as int) == sc.layer(
                            pendings@[k].0 as int,
                        ));
                    }
                    assert(self.unit_at(h2 - 1, 0).len() <= self.unit_maxsiz - 1) by {
                        assert(self.unit_at(h2 - 1, 0) == sc.unit_at(h2 - 1, 0));
                        assert(sc.unit_at(h2 - 1, 0).len() == 1);
                    }
                }
            } else {
                proof {
                    assert forall|l2: int, u2: int|
                        0 <= l2 < self.height_spec() && 0 <= u2 < self.layer(l2).len()
                            implies self.size_lo(l2) <= (#[trigger] self.unit_at(l2, u2)).len()
                        && (self.unit_at(l2, u2).len() <= self.unit_maxsiz || (pend_has(
                        pendings@,
                        l2,
                        u2,
                    ) && self.unit_at(l2, u2).len() <= self.unit_maxsiz + 1)) by {
                        if l2 < self.height_spec() - 1 && self.unit_at(l2, u2).len() < 2 {
                            assert(l2 == h - 2 && self.layer(l2).len() == 1 && self.unit_at(
                                h - 1,
                                0,
                            ).len() == 1);
                        }
                    }
                }
            }
        } else {
            proof {
                assert forall|l2: int, u2: int|
                    0 <= l2 < self.height_spec() && 0 <= u2 < self.layer(l2).len()
                        implies self.size_lo(l2) <= (#[trigger] self.unit_at(l2, u2)).len() && (
                    self.unit_at(l2, u2).len() <= self.unit_maxsiz || (pend_has(
                        pendings@,
                        l2,
                        u2,
                    ) && self.unit_at(l2, u2).len() <= self.unit_maxsiz + 1)) by {}
            }
        }
        // pending splits, highest layer first
        loop
            invariant
                self.wf_links(),
                self.bottom() == s0.bottom().remove(j0),
                s0.wf(),
                0 <= j0 < s0.bottom().len(),
                self.unit_at(self.height_spec() - 1, 0).len() <= self.unit_maxsiz - 1,
                forall|l2: int, u2: int|
                    0 <= l2 < self.height_spec() && 0 <= u2 < self.layer(l2).len()
                        ==> self.size_lo(l2) <= (#[trigger] self.unit_at(l2, u2)).len() && (
                    self.unit_at(l2, u2).len() <= self.unit_maxsiz || (pend_has(
                        pendings@,
                        l2,
                        u2,
                    ) && self.unit_at(l2, u2).len() <= self.unit_maxsiz + 1)),
                forall|k: int|
                    0 <= k < pendings@.len() ==> ((#[trigger] pendings@[k]).0 as int)
                        < self.height_spec() && (pendings@[k].1 as int) < self.layer(
                        pendings@[k].0 as int,
                    ).len(),
                forall|k1: int, k2: int|
                    0 <= k1 < k2 < pendings@.len() ==> (#[trigger] pendings@[k1]).0 < (
                    #[trigger] pendings@[k2]).0,
                self.unit_maxsiz == s0.unit_maxsiz,
                self.merklesig_len == s0.merklesig_len,
                self.hash == s0.hash,
                self.item_cnt == s0.item_cnt - 1,
            ensures
                self.wf_links(),
                self.bottom() == s0.bottom().remove(j0),
                pendings@.len() == 0,
                self.unit_at(self.height_spec() - 1, 0).len() <= self.unit_maxsiz - 1,
                forall|l2: int, u2: int|
                    0 <= l2 < self.height_spec() && 0 <= u2 < self.layer(l2).len()
                        ==> self.size_lo(l2) <= (#[trigger] self.unit_at(l2, u2)).len()
                        && self.unit_at(l2, u2).len() <= self.unit_maxsiz,
                self.unit_maxsiz == s0.unit_maxsiz,
                self.merklesig_len == s0.merklesig_len,
                self.hash == s0.hash,
                self.item_cnt == s0.item_cnt - 1,
            decreases pendings@.len(),
        {
            let ghost pend_pre = pendings@;
            let next = pendings.pop();
            match next {
                None => {
                    break;
                },
                Some((pl, pun)) => {
                    let ghost sp = *self;
                    proof {
                        assert(pend_pre[pend_pre.len() - 1] == (pl, pun));
                        assert(pendings@ =~= pend_pre.take(pend_pre.len() - 1));
                        assert(sp.wf_sizes_above_except(pl as int, pl as int, pun as int)) by {
                            assert forall|l2: int, u2: int|
                                pl as int <= l2 < sp.height_spec() && 0 <= u2 < sp.layer(
                                    l2,
                                ).len() implies sp.size_lo(l2) <= (#[trigger] sp.unit_at(
                                l2,
                                u2,
                            )).len() && sp.unit_at(l2, u2).len() <= sp.unit_maxsiz + (if l2
                                == pl as int && u2 == pun as int {
                                1int
                            } else {
                                0int
                            }) by {
                                if !(l2 == pl as int && u2 == pun as int) {
                                    if sp.unit_at(l2, u2).len() > sp.unit_maxsiz {
                                        assert(pend_has(pend_pre, l2, u2));
                                        let kk = choose|kk: int|
                                            0 <= kk < pend_pre.len() && pend_pre[kk].0 == l2
                                                && pend_pre[kk].1 == u2;
                                        assert(pend_pre[kk].0 <= pl) by {
                                            if kk < pend_pre.len() - 1 {
                                                assert(pend_pre[kk].0 < pend_pre[pend_pre.len()
                                                    - 1].0);
                                            }
                                        }
                                        assert(false);
                                    }
                                }
                            }
                        }
                    }
                    self.split_up(pl, pun);
                    proof {
                        assert forall|l2: int, u2: int|
                            0 <= l2 < self.height_spec() && 0 <= u2 < self.layer(l2).len()
                                implies self.size_lo(l2) <= (#[trigger] self.unit_at(
                            l2,
                            u2,
                        )).len() && (self.unit_at(l2, u2).len() <= self.unit_maxsiz || (
                        pend_has(pendings@, l2, u2) && self.unit_at(l2, u2).len()
                            <= self.unit_maxsiz + 1)) by {
                            if l2 < pl as int {
                                assert(self.layer(l2) == sp.layer(l2));
                                assert(sp.size_lo(l2) <= sp.unit_at(l2, u2).len());
                                assert(self.size_lo(l2) <= sp.size_lo(l2)) by {
                                    assert(self.height_spec() >= sp.height_spec());
                                }
                                if sp.unit_at(l2, u2).len() > sp.unit_maxsiz {
                                    assert(pend_has(pend_pre, l2, u2));
                                    let kk = choose|kk: int|
                                        0 <= kk < pend_pre.len() && pend_pre[kk].0 == l2
                                            && pend_pre[kk].1 == u2;
                                    assert(kk < pend_pre.len() - 1) by {
                                        assert(pend_pre[pend_pre.len() - 1].0 == pl);
                                    }
                                    assert(pendings@[kk] == pend_pre[kk]);
                                    assert(pend_has(pendings@, l2, u2));
                                }
                            } else {
                                assert(self.size_lo(l2) <= self.unit_at(l2, u2).len()
                                    && self.unit_at(l2, u2).len() <= self.unit_maxsiz + 0) by {
                                    assert(self.wf_sizes_above_except(pl as int, -1, -1));
                                }
                            }
                        }
                        assert forall|k: int| 0 <= k < pendings@.len() implies ((
                        #[trigger] pendings@[k]).0 as int) < self.height_spec() && (
                        pendings@[k].1 as int) < self.layer(pendings@[k].0 as int).len() by {
                            assert(pendings@[k] == pend_pre[k]);
                            assert(pend_pre[k].0 < pl);
                            assert(self.layer(pendings@[k].0 as int) == sp.layer(
                                pendings@[k].0 as int,
                            ));
                            assert(self.height_spec() >= sp.height_spec());
                        }
                        assert forall|k1: int, k2: int|
                            0 <= k1 < k2 < pendings@.len() implies (#[trigger] pendings@[k1]).0 < (
                        #[trigger] pendings@[k2]).0 by {
                            assert(pendings@[k1] == pend_pre[k1]);
                            assert(pendings@[k2] == pend_pre[k2]);
                        }
                    }
                },
            }
        }
        let ghost s3 = *self;
        proof {
            self.lemma_remove_sorted_keys(&s0, j0);
        }
        self.refresh_all();
        proof {
            self.lemma_same_bottom(&s3);
            assert(self.height_spec() == s3.height_spec());
            assert forall|l2: int, u2: int|
                0 <= l2 < self.height_spec() && 0 <= u2 < self.layer(l2).len()
                    implies self.size_lo(l2) <= (#[trigger] self.unit_at(l2, u2)).len()
                && self.unit_at(l2, u2).len() <= self.unit_maxsiz + 0 by {
                assert(self.unit_at(l2, u2).len() == s3.unit_at(l2, u2).len());
                assert(self.layer(l2).len() == s3.layer(l2).len());
                assert(s3.size_lo(l2) <= s3.unit_at(l2, u2).len());
                assert(s3.unit_at(l2, u2).len() <= s3.unit_maxsiz);
            }
            assert(self.wf_sizes());
            assert(self.top_within()) by {
                let ht = self.height_spec();
                assert(self.unit_at(ht - 1, 0).len() == s3.unit_at(ht - 1, 0).len());
                assert(s3.unit_at(ht - 1, 0).len() <= s3.unit_maxsiz - 1);
            }
            assert(self.item_cnt == self.bottom().len()) by {
                s0.bottom().remove_ensures(j0);
            }
            assert(self.wf());
        }
        node
    }
}

impl<V: AsBytes, D: Digester> MCL<V, D> {
    /// Remove a key and return its node. Fails with `HashLen` on a key of
    /// the wrong length and `NotExists` (carrying the nearest left
    /// neighbour's value, if any) on an absent key.
    pub fn remove(&mut self, key: &[u8]) -> (r: Result<Node<V>, XErr<V>>)
        requires
            old(self).wf(),
        ensures
            final(self).wf(),
            final(self).unit_max_spec() == old(self).unit_max_spec(),
            final(self).sig_len_spec() == old(self).sig_len_spec(),
            forall|w: V| #[trigger] final(self).spec_key_of(w) == old(self).spec_key_of(w),
            match r {
                Ok(node) => {
                    &&& key@.len() == old(self).sig_len_spec()
                    &&& old(self).contains_key(key@)
                    &&& node.key@ == key@
                    &&& node.value == old(self).as_map()[key@]
                    &&& final(self).as_map() =~= old(self).as_map().remove(key@)
                    &&& !final(self).contains_key(key@)
                    &&& final(self).bottom().len() == old(self).bottom().len() - 1
                },
                Err(e) => match e {
                    XErr::HashLen => key@.len() != old(self).sig_len_spec() && *final(self)
                        == *old(self),
                    XErr::NotExists(w) => {
                        &&& key@.len() == old(self).sig_len_spec()
                        &&& !old(self).contains_key(key@)
                        &&& *final(self) == *old(self)
                        &&& match w {
                            None => forall|i: int|
                                0 <= i < old(self).bottom().len() ==> lex_lt(
                                    key@,
                                    (#[trigger] old(self).bottom()[i]).key@,
                                ),
                            Some(v) => exists|j: int|
                                0 <= j < old(self).bottom().len() && v == (
                                #[trigger] old(self).bottom()[j]).value && lex_lt(
                                    old(self).bottom()[j].key@,
                                    key@,
                                ) && (forall|j2: int|
                                    j < j2 < old(self).bottom().len() ==> lex_lt(
                                        key@,
                                        (#[trigger] old(self).bottom()[j2]).key@,
                                    )),
                        }
                    },
                    _ => false,
                },
            },
    {
        if key.len() != self.merklesig_len {
            return Err(XErr::HashLen);
        }
        match self.locate(key) {
            None => {
                proof {
                    assert forall|i: int| 0 <= i < self.bottom().len() implies (
                    #[trigger] self.bottom()[i]).key@ != key@ by {
                        lemma_lex_trichotomy(key@, self.bottom()[i].key@);
                    }
                }
                Err(XErr::NotExists(None))
            },
            Some((u, i)) => {
                let ghost j = flat_index(self.layer(0), u as int, i as int);
                proof {
                    lemma_flat_index_get(self.layer(0), u as int, i as int);
                    assert(self.bottom()[j] == self.unit_at(0, u as int)[i as int]);
                }
                let equal_here = match key_cmp(&self.layers[0][u][i].key, key) {
                    KeyOrder::Equal => true,
                    _ => false,
                };
                if !equal_here {
                    // absent: report the left neighbour found by navigation
                    proof {
                        lemma_lex_trichotomy(key@, self.bottom()[j].key@);
                        assert(lex_lt(self.bottom()[j].key@, key@));
                        self.lemma_layer_sorted(0);
                        assert forall|i2: int| 0 <= i2 < self.bottom().len() implies (
                        #[trigger] self.bottom()[i2]).key@ != key@ by {
                            lemma_lex_trichotomy(key@, self.bottom()[i2].key@);
                            if i2 < j {
                                lemma_adj_sorted_general(self.bottom(), i2, j);
                                lemma_lex_trans(self.bottom()[i2].key@, self.bottom()[j].key@, key@);
                            } else if i2 == j {
                            }
                        }
                    }
                    let w = self.layers[0][u][i].value.duplicate();
                    return Err(XErr::NotExists(Some(w)));
                }
                proof {
                    self.lemma_key_unique(j);
                }
                if self.item_cnt == 1 {
                    // removing the only stored value empties the structure
                    let ghost s0 = *self;
                    let layer0 = &mut self.layers[0];
                    let unit0 = &mut layer0[u];
                    let node = unit0.remove(i);
                    self.layers = Vec::new();
                    self.merklesig = None;
                    self.item_cnt = 0;
                    proof {
                        assert(self.bottom() =~= Seq::<Node<V>>::empty());
                        assert(self.wf());
                        assert(s0.bottom().len() == 1);
                        assert(j == 0);
                        assert(node == s0.bottom()[0]);
                        assert forall|k2: Seq<u8>| !self.contains_key(k2) by {}
                        assert(self.as_map() =~= s0.as_map().remove(key@)) by {
                            assert forall|k2: Seq<u8>| k2 != key@ implies !s0.contains_key(
                                k2,
                            ) by {
                                if s0.contains_key(k2) {
                                    let i2 = s0.index_of_key(k2);
                                    assert(i2 == 0);
                                }
                            }
                        }
                    }
                    return Ok(node);
                }
                proof {
                    assert(self.bottom().len() >= 2) by {
                        assert(self.item_cnt == self.bottom().len());
                    }
                }
                let ghost s0 = *self;
                let node = self.del_at(u, i);
                proof {
                    self.lemma_map_remove(&s0, j);
                    assert(s0.bottom()[j].key@ == key@);
                }
                Ok(node)
            },
        }
    }

    /// Produce and check a membership proof for a key: collect each
    /// ancestor unit's member digests, recompute the digest chain upward,
    /// and compare it against the stored parent digests and the root
    /// commitment. Returns `Ok(false)` for an absent key (a legitimate
    /// negative answer), `Ok(true)` for a present one.
    pub fn merkle_proof(&self, key: &[u8]) -> (r: Result<bool, XErr<V>>)
        requires
            self.wf(),
        ensures
            match r {
                Ok(b) => b == self.contains_key(key@),
                Err(e) => match e {
                    XErr::HashLen => self.height_spec() > 0 && key@.len() != self.sig_len_spec(),
                    _ => false,
                },
            },
    {
        if self.layers.len() == 0 {
            proof {
                assert(!self.contains_key(key@));
            }
            return Ok(false);
        }
        if key.len() != self.merklesig_len {
            return Err(XErr::HashLen);
        }
        match self.locate(key) {
            None => {
                proof {
                    assert forall|i: int| 0 <= i < self.bottom().len() implies (
                    #[trigger] self.bottom()[i]).key@ != key@ by {
                        lemma_lex_trichotomy(key@, self.bottom()[i].key@);
                    }
                }
                Ok(false)
            },
            Some((u, i)) => {
                let ghost j = flat_index(self.layer(0), u as int, i as int);
                proof {
                    lemma_flat_index_get(self.layer(0), u as int, i as int);
                    assert(self.bottom()[j] == self.unit_at(0, u as int)[i as int]);
                }
                let equal_here = match key_cmp(&self.layers[0][u][i].key, key) {
                    KeyOrder::Equal => true,
                    _ => false,
                };
                if !equal_here {
                    proof {
                        lemma_lex_trichotomy(key@, self.bottom()[j].key@);
                        self.lemma_layer_sorted(0);
                        assert forall|i2: int| 0 <= i2 < self.bottom().len() implies (
                        #[trigger] self.bottom()[i2]).key@ != key@ by {
                            lemma_lex_trichotomy(key@, self.bottom()[i2].key@);
                            if i2 < j {
                                lemma_adj_sorted_general(self.bottom(), i2, j);
                                lemma_lex_trans(self.bottom()[i2].key@, self.bottom()[j].key@, key@);
                            } else if i2 == j {
                            }
                        }
                    }
                    return Ok(false);
                }
                proof {
                    self.lemma_key_unique(j);
                }
                // replay the digest chain from the leaf's unit to the root
                let mut l: usize = 0;
                let mut uc: usize = u;
                while l < self.layers.len() - 1
                    invariant
                        self.wf(),
                        (l as int) < self.height_spec(),
                        (uc as int) < self.layer(l as int).len(),
                        self.contains_key(key@),
                    decreases self.height_spec() - l,
                {
                    let s = self.unit_sig(l, uc);
                    proof {
                        assert(self.layer(l + 1).len() > 0);
                        assert forall|u2: int|
                            0 <= u2 < self.layer(l + 1).len() implies (#[trigger] self.unit_at(
                            l + 1,
                            u2,
                        )).len() >= 1 by {}
                        assert(self.flat(l + 1).len() == self.layer(l as int).len());
                    }
                    let (pu, pi) = self.unit_pos(l + 1, uc);
                    proof {
                        lemma_flat_index_get(self.layer(l + 1), pu as int, pi as int);
                        assert(self.flat(l + 1)[uc as int] == self.unit_at(
                            l + 1,
                            pu as int,
                        )[pi as int]);
                        assert(self.flat(l + 1)[uc as int].merklesig@ == self.unit_sig_spec(
                            self.unit_at(l as int, uc as int),
                        ));
                    }
                    let stored = &self.layers[l + 1][pu][pi].merklesig;
                    let matches_parent = match key_cmp(s.as_slice(), stored.as_slice()) {
                        KeyOrder::Equal => true,
                        _ => false,
                    };
                    if !matches_parent {
                        proof {
                            lemma_lex_trichotomy(s@, stored@);
                            assert(false);
                        }
                        return Ok(false);
                    }
                    l = l + 1;
                    uc = pu;
                }
                let s = self.unit_sig(l, uc);
                proof {
                    assert(l as int == self.height_spec() - 1);
                    assert(uc as int == 0) by {
                        assert(self.layer(l as int).len() == 1);
                    }
                }
                let root_matches = match &self.merklesig {
                    Some(root) => match key_cmp(s.as_slice(), root.as_slice()) {
                        KeyOrder::Equal => true,
                        _ => false,
                    },
                    None => false,
                };
                proof {
                    assert(root_matches) by {
                        assert(self.root_sig_spec() == Some(
                            self.unit_sig_spec(self.unit_at(self.height_spec() - 1, 0)),
                        ));
                        match self.merklesig {
                            Some(root) => {
                                lemma_lex_trichotomy(s@, root@);
                            },
                            None => {},
                        }
                    }
                }
                Ok(root_matches)
            },
        }
    }
}

impl<V: AsBytes, D: Digester> MCL<V, D> {
    /// In a well-formed single-layer structure the stored values are the
    /// one top unit, so there is always room for one more before a split.
    pub proof fn lemma_single_layer_capacity(&self)
        requires
            self.wf(),
            self.height_spec() == 1,
        ensures
            1 <= self.bottom().len() <= self.unit_max_spec() - 1,
            self.bottom() == self.unit_at(0, 0),
    {
        assert(self.layer(0).len() == 1);
        lemma_units_flat_single(self.layer(0));
        assert(self.unit_at(0, 0).len() <= self.unit_maxsiz - 1);
        assert(self.unit_at(0, 0).len() >= 1);
    }

    /// Capacity arithmetic behind `put`'s height clauses: a structure whose
    /// pre-state was well formed splits its top only from a full unit.
    proof fn lemma_height_pin(pre: MCL<V, D>)
        requires
            pre.wf(),
        ensures
            pre.height_spec() == 1 ==> pre.bottom().len() <= pre.unit_max_spec() - 1,
            pre.height_spec() > 1 ==> pre.unit_at(pre.height_spec() - 1, 0).len()
                <= pre.unit_max_spec() - 1,
    {
        if pre.height_spec() == 1 {
            pre.lemma_single_layer_capacity();
        }
    }

    /// A key is stored exactly when it is in the domain of the key/value
    /// map, and the reported item count is the number of stored pairs.
    pub proof fn lemma_contains_iff_dom(&self, k: Seq<u8>)
        ensures
            self.contains_key(k) == self.as_map().dom().contains(k),
    {
    }

    /// Unit-size invariant: with the smallest capacity, every unit below
    /// the top layer of a well-formed structure holds between half the
    /// capacity and the full capacity of nodes. (For larger capacities only
    /// the weaker floor of two holds: with a capacity of 6, a deletion can
    /// leave a unit of 2 nodes, below half capacity, without triggering a
    /// merge.)
    pub proof fn lemma_unit_size_invariant(&self)
        requires
            self.wf(),
            self.unit_max_spec() == 4,
        ensures
            forall|l: int, u: int|
                0 <= l < self.height_spec() - 1 && 0 <= u < self.layer(l).len()
                    ==> self.unit_max_spec() / 2 <= (#[trigger] self.unit_at(l, u)).len()
                    <= self.unit_max_spec(),
    {
        assert forall|l: int, u: int|
            0 <= l < self.height_spec() - 1 && 0 <= u < self.layer(l).len()
                implies self.unit_max_spec() / 2 <= (#[trigger] self.unit_at(l, u)).len()
            <= self.unit_max_spec() by {
            assert(self.size_lo(l) <= self.unit_at(l, u).len() <= self.unit_maxsiz + 0);
        }
    }

    /// Delete correctness: once the map equals the old map with a key
    /// removed, that key is no longer stored, so a lookup misses and a
    /// membership proof comes back negative.
    pub proof fn lemma_removed_key_absent(&self, older: &MCL<V, D>, k: Seq<u8>)
        requires
            self.as_map() =~= older.as_map().remove(k),
        ensures
            !self.as_map().dom().contains(k),
            !self.contains_key(k),
    {
        self.lemma_contains_iff_dom(k);
    }

    /// Round-trip: a structure left without stored values has no root
    /// commitment and no layers.
    pub proof fn lemma_empty_root(&self)
        requires
            self.wf(),
            self.bottom().len() == 0,
        ensures
            self.root_sig_spec() is None,
            self.height_spec() == 0,
            self.as_map() =~= Map::<Seq<u8>, V>::empty(),
    {
        if self.height_spec() > 0 {
            self.lemma_leftmost_key(0);
        }
        assert forall|k: Seq<u8>| !self.contains_key(k) by {}
    }

    /// A structure holding values has a root commitment: the digest over the
    /// top layer's member digests.
    pub proof fn lemma_nonempty_root(&self)
        requires
            self.wf(),
            self.bottom().len() > 0,
        ensures
            self.height_spec() > 0,
            self.root_sig_spec() == Some(
                self.unit_sig_spec(self.unit_at(self.height_spec() - 1, 0)),
            ),
    {
    }

    /// A structure holding exactly one value is a single layer of one leaf,
    /// and its root commitment is the digest over that leaf's digest, which
    /// is the digest of the value.
    pub proof fn lemma_single_leaf_root(&self)
        requires
            self.wf(),
            self.bottom().len() == 1,
        ensures
            self.height_spec() == 1,
            self.root_sig_spec() == Some(
                self.spec_digest_of(seq![self.spec_key_of(self.bottom()[0].value)]),
            ),
    {
        let h = self.height_spec();
        assert(h > 0);
        if h >= 2 {
            // two or more layers force at least two stored values: every
            // bottom unit then sits below the top and holds two nodes
            assert(self.layer(0).len() >= 1);
            assert(self.unit_at(0, 0).len() >= 2) by {
                assert(self.size_lo(0) <= self.unit_at(0, 0).len());
            }
            self.lemma_unit_starts_grow(0, 0);
            lemma_flat_index_get(self.layer(0), 0, 1);
            assert(false);
        }
        assert(self.layer(0).len() == 1);
        lemma_units_flat_single(self.layer(0));
        assert(self.unit_at(0, 0) == self.bottom());
        assert(self.root_sig_spec() == Some(self.unit_sig_spec(self.unit_at(0, 0))));
        assert(self.unit_at(0, 0).map(|i: int, n: Node<V>| n.merklesig@) =~= seq![
            self.bottom()[0].merklesig@,
        ]);
        assert(self.bottom()[0].merklesig@ == self.spec_key_of(self.bottom()[0].value));
    }

    /// Idempotence: storing the pair a second time neither changes the map
    /// nor moves any other key.
    pub proof fn lemma_put_idempotent(m: Map<Seq<u8>, V>, k: Seq<u8>, v: V)
        ensures
            m.insert(k, v).insert(k, v) =~= m.insert(k, v),
    {
    }

    /// Distinct insertions do not disturb each other: after storing a pair
    /// and then a pair under a different key, the first pair is still
    /// mapped, and each fresh insertion grows the map by exactly one key.
    pub proof fn lemma_distinct_puts(
        m: Map<Seq<u8>, V>,
        k1: Seq<u8>,
        v1: V,
        k2: Seq<u8>,
        v2: V,
    )
        requires
            k1 != k2,
        ensures
            m.insert(k1, v1).insert(k2, v2)[k1] == v1,
            m.insert(k1, v1).insert(k2, v2).dom().contains(k1),
    {
    }

    /// After any sequence of insertions under pairwise-distinct keys into an
    /// empty map, every inserted key is mapped to its value.
    pub proof fn lemma_sequence_of_puts(ks: Seq<Seq<u8>>, vs: Seq<V>)
        requires
            ks.len() == vs.len(),
            forall|i: int, j: int| 0 <= i < j < ks.len() ==> ks[i] != ks[j],
        ensures
            forall|i: int|
                0 <= i < ks.len() ==> puts_model(ks, vs, ks.len() as int).dom().contains(
                    #[trigger] ks[i],
                ) && puts_model(ks, vs, ks.len() as int)[ks[i]] == vs[i],
    {
        Self::lemma_sequence_of_puts_upto(ks, vs, ks.len() as int);
    }

    /// The inductive step behind `lemma_sequence_of_puts`.
    proof fn lemma_sequence_of_puts_upto(ks: Seq<Seq<u8>>, vs: Seq<V>, n: int)
        requires
            ks.len() == vs.len(),
            0 <= n <= ks.len(),
            forall|i: int, j: int| 0 <= i < j < ks.len() ==> ks[i] != ks[j],
        ensures
            forall|i: int|
                0 <= i < n ==> puts_model(ks, vs, n).dom().contains(#[trigger] ks[i])
                    && puts_model(ks, vs, n)[ks[i]] == vs[i],
        decreases n,
    {
        if n > 0 {
            Self::lemma_sequence_of_puts_upto(ks, vs, n - 1);
        }
    }
}

/// The map reached by inserting the first `n` key/value pairs, in order,
/// into an empty map.
pub open spec fn puts_model<V>(ks: Seq<Seq<u8>>, vs: Seq<V>, n: int) -> Map<Seq<u8>, V>
    decreases n,
{
    if n <= 0 {
        Map::empty()
    } else {
        puts_model(ks, vs, n - 1).insert(ks[n - 1], vs[n - 1])
    }
}

/// Copy a byte slice.
pub(crate) fn clone_bytes_slice(v: &[u8]) -> (r: Vec<u8>)
    ensures
        r@ == v@,
{
    let mut r: Vec<u8> = Vec::new();
    let mut i: usize = 0;
    while i < v.len()
        invariant
            i <= v@.len(),
            r@ =~= v@.take(i as int),
        decreases v@.len() - i,
    {
        r.push(v[i]);
        i += 1;
    }
    proof {
        assert(v@.take(v@.len() as int) =~= v@);
    }
    r
}

/// Copy a byte vector.
pub fn clone_bytes(v: &Vec<u8>) -> (r: Vec<u8>)
    ensures
        r@ == v@,
{
    let mut r: Vec<u8> = Vec::new();
    let mut i: usize = 0;
    while i < v.len()
        invariant
            i <= v@.len(),
            r@ =~= v@.take(i as int),
        decreases v@.len() - i,
    {
        r.push(v[i]);
        i += 1;
    }
    proof {
        assert(v@.take(v@.len() as int) =~= v@);
    }
    r
}

impl<V: AsBytes> MCL<V, Sha256Digester> {
    /// An empty list with the default capacity of 8 and SHA-256.
    pub fn default() -> (r: MCL<V, Sha256Digester>)
        ensures
            r.wf(),
            r.unit_max_spec() == 8,
            r.sig_len_spec() == 32,
            r.height_spec() == 0,
            r.root_sig_spec() is None,
            r.as_map() =~= Map::<Seq<u8>, V>::empty(),
            r.bottom().len() == 0,
    {
        MCL::init(8, Sha256Digester)
    }
}

} // verus!
