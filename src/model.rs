//! The mathematical model of the tree: layers, heights, and the facts about
//! them that construction, appending and proofs rest on.
use vstd::prelude::*;
use crate::hash::{leaf_hash, node_hash};

verus! {

/// The element at `k`, or the empty byte string where `k` is past the end.
pub open spec fn right_or_empty(s: Seq<Seq<u8>>, k: int) -> Seq<u8> {
    if 0 <= k < s.len() {
        s[k]
    } else {
        Seq::empty()
    }
}

/// The layer above `s`: node `j` hashes `s[2j]` with `s[2j+1]`, or with the
/// empty byte string where `s[2j+1]` does not exist.
pub open spec fn parents(node_prefix: Seq<u8>, s: Seq<Seq<u8>>) -> Seq<Seq<u8>> {
    Seq::new(
        ((s.len() + 1) / 2) as nat,
        |j: int| node_hash(node_prefix, s[2 * j], right_or_empty(s, 2 * j + 1)),
    )
}

/// Layer `i` of the tree whose layer 0 is `leaves`.
pub open spec fn layer(node_prefix: Seq<u8>, leaves: Seq<Seq<u8>>, i: nat) -> Seq<Seq<u8>>
    decreases i,
{
    if i == 0 {
        leaves
    } else {
        parents(node_prefix, layer(node_prefix, leaves, (i - 1) as nat))
    }
}

/// The leaf hashes of a list of documents.
pub open spec fn leaves_of(doc_prefix: Seq<u8>, docs: Seq<Seq<u8>>) -> Seq<Seq<u8>> {
    Seq::new(docs.len(), |j: int| leaf_hash(doc_prefix, docs[j]))
}

/// The number of binary digits of `x` (0 for 0).
pub open spec fn bit_length(x: nat) -> nat
    decreases x,
{
    if x == 0 {
        0
    } else {
        1 + bit_length(x / 2)
    }
}

/// The index of the root layer of a tree over `n` documents.
pub open spec fn max_layer_spec(n: nat) -> nat {
    if n <= 1 {
        0
    } else {
        bit_length((n - 1) as nat)
    }
}

/// `x` halved (rounding down) `i` times.
pub open spec fn halve(x: nat, i: nat) -> nat
    decreases i,
{
    if i == 0 {
        x
    } else {
        halve(x, (i - 1) as nat) / 2
    }
}

/// Every layer of the tree over `leaves`, from the leaves up to the root.
pub open spec fn tree_layers(node_prefix: Seq<u8>, leaves: Seq<Seq<u8>>) -> Seq<Seq<Seq<u8>>> {
    Seq::new(
        max_layer_spec(leaves.len()) + 1,
        |i: int| layer(node_prefix, leaves, i as nat),
    )
}

/// The root of the tree over `leaves`.
pub open spec fn root_of(node_prefix: Seq<u8>, leaves: Seq<Seq<u8>>) -> Seq<u8> {
    layer(node_prefix, leaves, max_layer_spec(leaves.len()))[0]
}

pub proof fn lemma_halve_shift(x: nat, i: nat)
    ensures
        halve(x, i + 1) == halve(x / 2, i),
    decreases i,
{
    if i > 0 {
        lemma_halve_shift(x, (i - 1) as nat);
        assert(halve(x, i + 1) == halve(x, i) / 2);
        assert(halve(x / 2, i) == halve(x / 2, (i - 1) as nat) / 2);
    } else {
        assert(halve(x, 1) == halve(x, 0) / 2);
    }
}

/// Halving `x` as many times as it has binary digits leaves 0, and so does
/// halving it more often.
pub proof fn lemma_halve_past_bits(x: nat, i: nat)
    requires
        i >= bit_length(x),
    ensures
        halve(x, i) == 0,
    decreases x,
{
    if x == 0 {
        lemma_halve_zero(i);
    } else {
        lemma_halve_shift(x, (i - 1) as nat);
        lemma_halve_past_bits(x / 2, (i - 1) as nat);
    }
}

pub proof fn lemma_halve_zero(i: nat)
    ensures
        halve(0, i) == 0,
    decreases i,
{
    if i > 0 {
        lemma_halve_zero((i - 1) as nat);
    }
}

/// Halving keeps the order of two numbers.
pub proof fn lemma_halve_mono(x: nat, y: nat, i: nat)
    requires
        x <= y,
    ensures
        halve(x, i) <= halve(y, i),
    decreases i,
{
    if i > 0 {
        lemma_halve_mono(x, y, (i - 1) as nat);
    }
}

pub proof fn lemma_bit_length_mono(x: nat, y: nat)
    requires
        x <= y,
    ensures
        bit_length(x) <= bit_length(y),
    decreases y,
{
    if x > 0 {
        lemma_bit_length_mono(x / 2, y / 2);
    }
}

/// One more document adds at most one layer.
pub proof fn lemma_bit_length_succ(x: nat)
    ensures
        bit_length(x + 1) <= bit_length(x) + 1,
    decreases x,
{
    if x > 0 && (x + 1) / 2 != x / 2 {
        lemma_bit_length_succ(x / 2);
        assert((x + 1) / 2 == x / 2 + 1);
    }
}

/// Layer `i` over `n >= 1` leaves holds `halve(n - 1, i) + 1` nodes.
pub proof fn lemma_layer_len(node_prefix: Seq<u8>, leaves: Seq<Seq<u8>>, i: nat)
    ensures
        leaves.len() == 0 ==> layer(node_prefix, leaves, i).len() == 0,
        leaves.len() >= 1 ==> layer(node_prefix, leaves, i).len() == halve(
            (leaves.len() - 1) as nat,
            i,
        ) + 1,
    decreases i,
{
    if i > 0 {
        lemma_layer_len(node_prefix, leaves, (i - 1) as nat);
    }
}

/// The root layer holds exactly one node.
pub proof fn lemma_root_layer(node_prefix: Seq<u8>, leaves: Seq<Seq<u8>>)
    requires
        leaves.len() >= 1,
    ensures
        layer(node_prefix, leaves, max_layer_spec(leaves.len())).len() == 1,
{
    let n = leaves.len();
    lemma_layer_len(node_prefix, leaves, max_layer_spec(n));
    lemma_halve_past_bits((n - 1) as nat, max_layer_spec(n));
}

/// How the layer above changes when a layer `s` becomes `t`, where `t` has
/// `c + 1` nodes and agrees with `s` below index `c`.
pub proof fn lemma_parents_step(node_prefix: Seq<u8>, s: Seq<Seq<u8>>, t: Seq<Seq<u8>>, c: nat)
    requires
        t.len() == c + 1,
        s.len() == c || s.len() == c + 1,
        forall|k: int| 0 <= k < c ==> t[k] == s[k],
    ensures
        parents(node_prefix, t).len() == c / 2 + 1,
        parents(node_prefix, s).len() == c / 2 || parents(node_prefix, s).len() == c / 2 + 1,
        forall|k: int|
            0 <= k < c / 2 ==> parents(node_prefix, t)[k] == parents(node_prefix, s)[k],
{
    assert forall|k: int| 0 <= k < c / 2 implies parents(node_prefix, t)[k] == parents(
        node_prefix,
        s,
    )[k] by {
        assert(2 * k + 1 < c);
        assert(t[2 * k] == s[2 * k]);
        assert(t[2 * k + 1] == s[2 * k + 1]);
    }
}

/// Appending a leaf to `n` leaves changes layer `i` only at its last index,
/// `halve(n, i)`, which it may add.
pub proof fn lemma_append_layer(
    node_prefix: Seq<u8>,
    leaves: Seq<Seq<u8>>,
    x: Seq<u8>,
    i: nat,
)
    ensures
        layer(node_prefix, leaves.push(x), i).len() == halve(leaves.len(), i) + 1,
        layer(node_prefix, leaves, i).len() == halve(leaves.len(), i) || layer(
            node_prefix,
            leaves,
            i,
        ).len() == halve(leaves.len(), i) + 1,
        forall|k: int|
            0 <= k < halve(leaves.len(), i) ==> layer(node_prefix, leaves.push(x), i)[k]
                == layer(node_prefix, leaves, i)[k],
    decreases i,
{
    if i > 0 {
        let p = (i - 1) as nat;
        lemma_append_layer(node_prefix, leaves, x, p);
        lemma_parents_step(
            node_prefix,
            layer(node_prefix, leaves, p),
            layer(node_prefix, leaves.push(x), p),
            halve(leaves.len(), p),
        );
    } else {
        assert forall|k: int| 0 <= k < leaves.len() implies leaves.push(x)[k] == leaves[k] by {}
    }
}

} // verus!
