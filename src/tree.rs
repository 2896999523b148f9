//! The tree descriptor, the in-memory node store, full construction and
//! single-leaf append.
use vstd::prelude::*;
use crate::hash::{hash_leaf, hash_node, leaf_hash};
use crate::text::views;
use crate::inclusion::layer_or_empty;
use crate::model::{
    bit_length, layer, lemma_append_layer, lemma_bit_length_mono, lemma_bit_length_succ,
    lemma_halve_past_bits, lemma_halve_zero, lemma_layer_len, leaves_of, max_layer_spec, parents, right_or_empty,
    tree_layers, halve,
};

verus! {

/// The two domain-separation prefixes: bytes mixed into every leaf hash and
/// every internal-node hash respectively. They are upper-case hex text, and
/// the summary header carries them exactly as held here.
pub struct Prefixes {
    pub doc: Vec<u8>,
    pub node: Vec<u8>,
}

/// The document prefix of the standard configuration, `3C3C3C3C` as text.
pub open spec fn standard_doc_prefix() -> Seq<u8> {
    seq![0x33u8, 0x43, 0x33, 0x43, 0x33, 0x43, 0x33, 0x43]
}

/// The node prefix of the standard configuration, `F5F5F5F5` as text.
pub open spec fn standard_node_prefix() -> Seq<u8> {
    seq![0x46u8, 0x35, 0x46, 0x35, 0x46, 0x35, 0x46, 0x35]
}

impl Prefixes {
    /// The standard prefixes, whose ASCII bytes are hashed in.
    pub fn standard() -> (r: Prefixes)
        ensures
            r.doc@ == standard_doc_prefix(),
            r.node@ == standard_node_prefix(),
    {
        let r = Prefixes {
            doc: vec![0x33u8, 0x43, 0x33, 0x43, 0x33, 0x43, 0x33, 0x43],
            node: vec![0x46u8, 0x35, 0x46, 0x35, 0x46, 0x35, 0x46, 0x35],
        };
        assert(r.doc@ =~= standard_doc_prefix());
        assert(r.node@ =~= standard_node_prefix());
        r
    }
}

/// Every stored node hash, as `layers[layer][index]`.
pub struct NodeStore {
    pub layers: Vec<Vec<Vec<u8>>>,
}

impl View for NodeStore {
    type V = Seq<Seq<Seq<u8>>>;

    open spec fn view(&self) -> Seq<Seq<Seq<u8>>> {
        Seq::new(self.layers@.len(), |i: int| views(self.layers@[i]@))
    }
}

impl NodeStore {
    /// Whether the store holds exactly the tree over the given leaves.
    pub open spec fn is_tree_of(&self, node_prefix: Seq<u8>, leaves: Seq<Seq<u8>>) -> bool {
        self@ == tree_layers(node_prefix, leaves)
    }

    /// Whether the store holds exactly the tree over its own layer 0.
    pub open spec fn is_tree(&self, node_prefix: Seq<u8>) -> bool {
        self@.len() > 0 && self.is_tree_of(node_prefix, self@[0])
    }
}

/// The ways a tree operation can fail.
#[derive(Debug, PartialEq, Eq, Structural)]
pub enum TreeError {
    /// A node that the tree's shape requires is missing from the store.
    CorruptedStore,
    /// The summary header or a proof line is malformed.
    Format,
    /// The summary names a hash algorithm other than blake3.
    UnsupportedAlgorithm,
}

/// The number of layers above the leaves: the bit length of `n - 1` for
/// `n > 1`, else 0.
pub fn max_layer(n: usize) -> (r: usize)
    ensures
        r == max_layer_spec(n as nat),
        r < n || r == 0,
{
    if n <= 1 {
        0
    } else {
        let mut x: usize = n - 1;
        let mut m: usize = 0;
        proof {
            lemma_bit_length_le((n - 1) as nat);
        }
        while x > 0
            invariant
                m + bit_length(x as nat) == bit_length((n - 1) as nat),
                bit_length((n - 1) as nat) <= n - 1,
            decreases x,
        {
            x = x / 2;
            m = m + 1;
        }
        m
    }
}

/// Whether `n` is even.
pub fn is_even(n: usize) -> (r: bool)
    ensures
        r == (n % 2 == 0),
{
    assert(n & 1 == n % 2) by (bit_vector);
    n & 1 == 0
}

/// The root layer index is below the document count, so one more fits.
pub proof fn lemma_max_layer_bound(n: nat)
    ensures
        max_layer_spec(n) <= n,
{
    if n > 1 {
        lemma_bit_length_le((n - 1) as nat);
    }
}

proof fn lemma_bit_length_le(x: nat)
    ensures
        bit_length(x) <= x,
    decreases x,
{
    if x > 0 {
        lemma_bit_length_le(x / 2);
    }
}

/// The descriptor of a tree: its document count and its root layer.
pub struct MerkleTree {
    n: usize,
    max_layer: usize,
}

impl MerkleTree {
    /// The document count.
    pub closed spec fn count(&self) -> nat {
        self.n as nat
    }

    /// The index of the root layer.
    pub closed spec fn height(&self) -> nat {
        self.max_layer as nat
    }

    /// The root layer is the one that the document count determines.
    pub open spec fn wf(&self) -> bool {
        self.height() == max_layer_spec(self.count())
    }

    /// A descriptor for `n` documents.
    pub fn new(n: usize) -> (r: MerkleTree)
        ensures
            r.count() == n,
            r.wf(),
    {
        MerkleTree { n, max_layer: max_layer(n) }
    }

    /// The number of documents.
    pub fn elements(&self) -> (r: usize)
        ensures
            r == self.count(),
    {
        self.n
    }

    /// The index of the root layer.
    pub fn max_layer(&self) -> (r: usize)
        ensures
            r == self.height(),
    {
        self.max_layer
    }

    /// How many nodes each layer of the tree holds, from the leaves up to the
    /// root: `ceil(n / 2^i)` at layer `i`, the length that every layer of a
    /// built tree has.
    pub fn layer_sizes(&self) -> (r: Vec<usize>)
        requires
            self.wf(),
        ensures
            r@.len() == self.height() + 1,
            forall|i: int|
                0 <= i <= self.height() ==> r@[i] == (if self.count() == 0 {
                    0
                } else {
                    halve((self.count() - 1) as nat, i as nat) + 1
                }),
            forall|np: Seq<u8>, leaves: Seq<Seq<u8>>, i: int|
                leaves.len() == self.count() && 0 <= i <= self.height() ==> r@[i]
                    == #[trigger] layer(np, leaves, i as nat).len(),
    {
        let mut sizes: Vec<usize> = Vec::new();
        if self.n == 0 {
            sizes.push(0);
            proof {
                assert forall|np: Seq<u8>, leaves: Seq<Seq<u8>>, i: int|
                    leaves.len() == self.count() && 0 <= i <= self.height() implies sizes@[i]
                        == #[trigger] layer(np, leaves, i as nat).len() by {
                    lemma_layer_len(np, leaves, i as nat);
                }
            }
            return sizes;
        }
        let mut x: usize = self.n - 1;
        let mut i: usize = 0;
        proof {
            lemma_bit_length_le((self.n - 1) as nat);
        }
        while i <= self.max_layer
            invariant
                self.wf(),
                self.n >= 1,
                self.max_layer < usize::MAX,
                i <= self.max_layer + 1,
                sizes@.len() == i,
                i <= self.max_layer ==> x == halve((self.n - 1) as nat, i as nat),
                x <= self.n - 1,
                forall|k: int| 0 <= k < i ==> sizes@[k] == halve((self.n - 1) as nat, k as nat) + 1,
            decreases self.max_layer + 1 - i,
        {
            sizes.push(x + 1);
            x = x / 2;
            i += 1;
        }
        proof {
            assert forall|np: Seq<u8>, leaves: Seq<Seq<u8>>, i: int|
                leaves.len() == self.count() && 0 <= i <= self.height() implies sizes@[i]
                    == #[trigger] layer(np, leaves, i as nat).len() by {
                lemma_layer_len(np, leaves, i as nat);
            }
        }
        sizes
    }

    /// The leaf hash of one document.
    fn compute_doc(&self, prefixes: &Prefixes, doc: &[u8]) -> (r: Vec<u8>)
        ensures
            r@ == leaf_hash(prefixes.doc@, doc@),
    {
        hash_leaf(prefixes.doc.as_slice(), doc)
    }

    /// Builds every layer of the tree over `docs`, from the leaves up.
    pub fn build(&self, prefixes: &Prefixes, docs: &Vec<Vec<u8>>) -> (r: NodeStore)
        requires
            self.wf(),
            docs@.len() == self.count(),
        ensures
            r.is_tree_of(prefixes.node@, leaves_of(prefixes.doc@, views(docs@))),
    {
        let ghost leaves = leaves_of(prefixes.doc@, views(docs@));
        let ghost np = prefixes.node@;
        let mut hashes: Vec<Vec<u8>> = Vec::new();
        let mut j: usize = 0;
        while j < docs.len()
            invariant
                j <= docs@.len(),
                leaves == leaves_of(prefixes.doc@, views(docs@)),
                hashes@.len() == j,
                leaves.len() == docs@.len(),
                forall|k: int| 0 <= k < j ==> (#[trigger] hashes@[k])@ == leaves[k],
            decreases docs@.len() - j,
        {
            let h = self.compute_doc(prefixes, docs[j].as_slice());
            assert(h@ == leaves[j as int]);
            hashes.push(h);
            j += 1;
        }
        assert(views(hashes@) =~= leaves);
        let mut layers: Vec<Vec<Vec<u8>>> = Vec::new();
        layers.push(hashes);
        let mut i: usize = 1;
        proof {
            lemma_bit_length_le((self.n - 1) as nat);
        }
        while i <= self.max_layer
            invariant
                1 <= i <= self.max_layer + 1,
                self.wf(),
                self.max_layer < usize::MAX,
                np == prefixes.node@,
                layers@.len() == i,
                forall|k: int|
                    0 <= k < i ==> views(#[trigger] layers@[k]@) == layer(np, leaves, k as nat),
            decreases self.max_layer + 1 - i,
        {
            let next = parent_layer(prefixes.node.as_slice(), &layers[i - 1]);
            layers.push(next);
            i += 1;
        }
        let r = NodeStore { layers };
        assert(r@ =~= tree_layers(np, leaves));
        r
    }

    /// Appends document `doc_idx` (the next free index) and recomputes only
    /// the path from its leaf up to the new root. A store with no layers at
    /// all stands for the empty tree. A store that lacks a node this path
    /// needs is reported as corrupted; the descriptor then stays as it was.
    pub fn add_doc(
        &mut self,
        prefixes: &Prefixes,
        doc_idx: usize,
        doc: &[u8],
        store: &mut NodeStore,
    ) -> (r: Result<(), TreeError>)
        requires
            old(self).wf(),
            doc_idx == old(self).count(),
            doc_idx < usize::MAX,
        ensures
            r is Ok ==> final(self).count() == old(self).count() + 1 && final(self).wf(),
            r is Err ==> final(self).count() == old(self).count() && final(self).wf(),
            r is Err ==> r->Err_0 == TreeError::CorruptedStore,
            r is Ok ==> left_path_stored(
                old(store)@,
                doc_idx as nat,
                max_layer_spec(doc_idx as nat + 1),
            ),
            (old(store).is_tree(prefixes.node@) && old(store)@[0].len() == doc_idx) || (old(
                store,
            )@.len() == 0 && doc_idx == 0) ==> r is Ok && final(store).is_tree_of(
                prefixes.node@,
                layer_or_empty(old(store)@, 0).push(leaf_hash(prefixes.doc@, doc@)),
            ),
    {
        let ghost np = prefixes.node@;
        let ghost from_tree = (store.is_tree(np) && store@[0].len() == doc_idx) || (store@.len()
            == 0 && doc_idx == 0);
        if store.layers.len() == 0 && doc_idx == 0 {
            store.layers.push(Vec::new());
            assert(layer(np, Seq::<Seq<u8>>::empty(), 0) == Seq::<Seq<u8>>::empty());
            assert(store@[0] =~= Seq::<Seq<u8>>::empty());
            assert(store@ =~= tree_layers(np, Seq::empty()));
        }
        let ghost old_store = store@;
        let ghost old_len = old_store.len();
        let ghost wf = store.is_tree(np) && store@[0].len() == doc_idx;
        assert(from_tree ==> wf);
        if store.layers.len() == 0 || store.layers[0].len() != doc_idx {
            return Err(TreeError::CorruptedStore);
        }
        let ghost leaves = store@[0];
        let leaf = self.compute_doc(prefixes, doc);
        let ghost leaves2 = leaves.push(leaf@);
        let mut row: Vec<Vec<u8>> = Vec::new();
        store.layers.set_and_swap(0, &mut row);
        row.push(leaf);
        store.layers.set_and_swap(0, &mut row);
        assert(store@[0] =~= leaves2);
        assert(forall|k: int| 1 <= k < store@.len() ==> store@[k] == old_store[k]);
        let n2: usize = doc_idx + 1;
        let new_max = max_layer(n2);
        proof {
            if wf {
                if doc_idx >= 1 {
                    lemma_bit_length_mono((doc_idx - 1) as nat, doc_idx as nat);
                }
                assert(old_len == max_layer_spec(doc_idx as nat) + 1);
                assert(old_len <= new_max + 1);
            }
        }
        let mut c: usize = doc_idx;
        let mut i: usize = 1;
        while i <= new_max
            invariant
                1 <= i <= new_max + 1,
                new_max == max_layer_spec(n2 as nat),
                new_max < n2 || new_max == 0,
                n2 == doc_idx + 1,
                self.n == doc_idx,
                self.max_layer == max_layer_spec(doc_idx as nat),
                c == halve(doc_idx as nat, (i - 1) as nat),
                store@.len() >= i,
                leaves2 == leaves.push(leaf_hash(prefixes.doc@, doc@)),
                np == prefixes.node@,
                from_tree == ((old(store).is_tree(np) && old(store)@[0].len() == doc_idx) || (old(
                    store,
                )@.len() == 0 && doc_idx == 0)),
                from_tree ==> wf,
                old_store == old(store)@ || (old(store)@.len() == 0 && doc_idx == 0),
                old_len == old_store.len(),
                old_len >= 1,
                old_store[0].len() == doc_idx,
                wf ==> leaves == old_store[0],
                store@.len() == if i <= old_len {
                    old_len
                } else {
                    i as nat
                },
                forall|k: int| i <= k < store@.len() ==> #[trigger] store@[k] == old_store[k],
                forall|k: int|
                    1 <= k < i ==> (k < old_len ==> #[trigger] halve(doc_idx as nat, k as nat)
                        <= old_store[k].len()) && (k >= old_len ==> halve(
                        doc_idx as nat,
                        k as nat,
                    ) == 0),
                wf ==> old_len == max_layer_spec(doc_idx as nat) + 1,
                wf ==> old_len <= new_max + 1,
                wf ==> leaves.len() == doc_idx,
                wf ==> old_store == tree_layers(np, leaves),
                wf ==> forall|k: int|
                    0 <= k < i ==> #[trigger] store@[k] == layer(np, leaves2, k as nat),
            decreases new_max + 1 - i,
        {
            let j = c / 2;
            let left_idx = c - c % 2;
            proof {
                if wf {
                    lemma_append_layer(np, leaves, leaf_hash(prefixes.doc@, doc@), (i - 1) as nat);
                    lemma_append_layer(np, leaves, leaf_hash(prefixes.doc@, doc@), i as nat);
                    assert(halve(doc_idx as nat, i as nat) == j);
                    assert(store@[i - 1] == layer(np, leaves2, (i - 1) as nat));
                    assert(layer(np, leaves2, (i - 1) as nat).len() == c + 1);
                    assert(store@[i - 1].len() == c + 1);
                    assert(store.layers@[i - 1]@.len() == c + 1);
                    assert(left_idx <= c);
                }
            }
            if left_idx >= store.layers[i - 1].len() {
                return Err(TreeError::CorruptedStore);
            }
            let below = &store.layers[i - 1];
            let h = if left_idx + 1 < below.len() {
                hash_node(prefixes.node.as_slice(), below[left_idx].as_slice(), below[left_idx + 1].as_slice())
            } else {
                let empty: Vec<u8> = Vec::new();
                hash_node(prefixes.node.as_slice(), below[left_idx].as_slice(), empty.as_slice())
            };
            proof {
                if wf {
                    let t = layer(np, leaves2, (i - 1) as nat);
                    assert(left_idx == 2 * j);
                    assert(h@ == parents(np, t)[j as int]);
                    assert(h@ == layer(np, leaves2, i as nat)[j as int]);
                }
            }
            let ghost at_start = store@;
            proof {
                if wf {
                    if i < store@.len() {
                        assert(i < old_len);
                        assert(store@[i as int] == layer(np, leaves, i as nat));
                    } else {
                        let n = doc_idx as nat;
                        if n == 0 {
                            lemma_halve_zero(i as nat);
                        } else {
                            lemma_bit_length_succ((n - 1) as nat);
                            lemma_halve_past_bits(n, i as nat);
                        }
                        assert(j == 0);
                    }
                }
            }
            if i < store.layers.len() {
                if j > store.layers[i].len() {
                    return Err(TreeError::CorruptedStore);
                }
                assert(i < old_len);
                assert(store@[i as int] == old_store[i as int]);
                assert(halve(doc_idx as nat, i as nat) <= old_store[i as int].len());
                let ghost before = store@;
                let mut row: Vec<Vec<u8>> = Vec::new();
                store.layers.set_and_swap(i, &mut row);
                if j < row.len() {
                    row.set(j, h);
                } else {
                    row.push(h);
                }
                store.layers.set_and_swap(i, &mut row);
                proof {
                    if wf {
                        assert(i < old_len);
                        assert(before[i as int] == layer(np, leaves, i as nat));
                        let lo = layer(np, leaves, i as nat);
                        let hi = layer(np, leaves2, i as nat);
                        assert(hi.len() == j + 1);
                        assert(h@ == hi[j as int]);
                        assert(store@[i as int].len() == j + 1);
                        assert forall|k: int| 0 <= k < j + 1 implies store@[i as int][k] == hi[k] by {
                            if k < j {
                                assert(hi[k] == lo[k]);
                            }
                        }
                        assert(store@[i as int] =~= hi);
                    }
                    assert(forall|k: int| 0 <= k < store@.len() && k != i ==> store@[k] == before[k]);
                }
            } else {
                if j != 0 {
                    return Err(TreeError::CorruptedStore);
                }
                assert(i >= old_len);
                assert(halve(doc_idx as nat, i as nat) == 0);
                let ghost before = store@;
                let mut row: Vec<Vec<u8>> = Vec::new();
                row.push(h);
                store.layers.push(row);
                proof {
                    if wf {
                        assert(store@[i as int] =~= layer(np, leaves2, i as nat));
                    }
                    assert(forall|k: int| 0 <= k < i ==> store@[k] == before[k]);
                }
            }
            proof {
                assert(forall|k: int| 0 <= k < store@.len() && k != i ==> store@[k] == at_start[k]);
                assert forall|k: int| i + 1 <= k < store@.len() implies #[trigger] store@[k]
                    == old_store[k] by {
                    assert(store@[k] == at_start[k]);
                }
                assert(halve(doc_idx as nat, i as nat) == j);
                assert forall|k: int| 1 <= k < i + 1 implies (k < old_len ==> #[trigger] halve(
                    doc_idx as nat,
                    k as nat,
                ) <= old_store[k].len()) && (k >= old_len ==> halve(doc_idx as nat, k as nat)
                    == 0) by {
                    if k == i {
                        assert(i < old_len ==> halve(doc_idx as nat, i as nat) <= old_store[i as int].len());
                    }
                }
                if wf {
                    assert forall|k: int| 0 <= k < i + 1 implies #[trigger] store@[k] == layer(
                        np,
                        leaves2,
                        k as nat,
                    ) by {
                        if k < i {
                            assert(store@[k] == at_start[k]);
                        }
                    }
                    assert forall|k: int| i + 1 <= k < store@.len() implies #[trigger] store@[k]
                        == old_store[k] by {
                        assert(store@[k] == at_start[k]);
                    }
                }
            }
            c = j;
            i += 1;
        }
        proof {
            if wf {
                assert(store@ =~= tree_layers(np, leaves2));
            }
            if old(store)@.len() != 0 || doc_idx != 0 {
                assert(old_store == old(store)@);
                assert forall|p: int|
                    1 <= p <= new_max && #[trigger] halve(doc_idx as nat, (p - 1) as nat) % 2 == 1
                        implies halve(doc_idx as nat, (p - 1) as nat) - 1 < layer_or_empty(
                        old(store)@,
                        p - 1,
                    ).len() by {
                    let k: int = p - 1;
                    if k >= 1 {
                        assert(halve(doc_idx as nat, k as nat) == halve(doc_idx as nat, (p - 1) as nat));
                    }
                }
            }
        }
        self.n = n2;
        self.max_layer = new_max;
        Ok(())
    }
}

/// Whether every left sibling on the path from leaf `n` up to layer `m` is
/// stored: where the path node at layer `i - 1` has an odd index `c`, the
/// node at `c - 1` of that layer exists.
pub open spec fn left_path_stored(layers: Seq<Seq<Seq<u8>>>, n: nat, m: nat) -> bool {
    forall|i: int|
        1 <= i <= m && #[trigger] halve(n, (i - 1) as nat) % 2 == 1 ==> halve(n, (i - 1) as nat)
            - 1 < layer_or_empty(layers, i - 1).len()
}

/// The layer above `s`.
fn parent_layer(node_prefix: &[u8], s: &Vec<Vec<u8>>) -> (r: Vec<Vec<u8>>)
    ensures
        views(r@) == parents(node_prefix@, views(s@)),
{
    let ghost sv = views(s@);
    let len = s.len();
    let count = s.len() - s.len() / 2;
    let mut r: Vec<Vec<u8>> = Vec::new();
    let mut j: usize = 0;
    let empty: Vec<u8> = Vec::new();
    while j < count
        invariant
            j <= count,
            count == (sv.len() + 1) / 2,
            sv == views(s@),
            sv.len() == s@.len(),
            len == s@.len(),
            empty@.len() == 0,
            r@.len() == j,
            forall|k: int| 0 <= k < j ==> (#[trigger] r@[k])@ == parents(node_prefix@, sv)[k],
        decreases count - j,
    {
        let left = &s[2 * j];
        let h = if 2 * j + 1 < len {
            hash_node(node_prefix, left.as_slice(), s[2 * j + 1].as_slice())
        } else {
            assert(right_or_empty(sv, 2 * j + 1) =~= empty@);
            hash_node(node_prefix, left.as_slice(), empty.as_slice())
        };
        assert(h@ == parents(node_prefix@, sv)[j as int]);
        r.push(h);
        j += 1;
    }
    assert(views(r@) =~= parents(node_prefix@, sv));
    r
}

} // verus!
