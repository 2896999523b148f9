//! Laws that relate construction, appending, proofs and summaries.
use vstd::prelude::*;
use crate::hash::leaf_hash;
use crate::codec::hex_lower;
use crate::inclusion::{
    blake3_id, lemma_round_trip, lemma_stored_proof, proof_lines_of, proof_of, stored_proof,
    verify_outcome,
};
use crate::codec::{is_hex, lemma_hex_lower_shape};
use crate::inclusion::{line_of, Direction};
use crate::text::{
    digits_value, first_line, free_of, is_number, joined, lemma_decimal_round_trip,
    lemma_first_of_joined, lemma_lines_round_trip, lemma_split_on_append_piece,
    lemma_split_on_single, number_digits, plain_lines, split_fields, strip_cr, text_lines, decimal,
};
use crate::tree::TreeError;
use crate::model::{layer, leaves_of, lemma_root_layer, max_layer_spec, root_of};
use crate::summary::{colon, has_root, header_line, summary_lines, tree_id};
use crate::tree::NodeStore;

verus! {

/// A built store holds, at its root position, exactly the root that the
/// layer-by-layer definition of the tree computes from the leaves.
pub proof fn lemma_build_root(node_prefix: Seq<u8>, leaves: Seq<Seq<u8>>, store: NodeStore)
    requires
        leaves.len() >= 1,
        store.is_tree_of(node_prefix, leaves),
    ensures
        has_root(store@, max_layer_spec(leaves.len())),
        store@[max_layer_spec(leaves.len()) as int].len() == 1,
        store@[max_layer_spec(leaves.len()) as int][0] == root_of(node_prefix, leaves),
{
    lemma_root_layer(node_prefix, leaves);
}

/// Building twice over the same documents gives identical node stores, and
/// so identical summaries.
pub proof fn lemma_build_idempotent(
    doc_prefix: Seq<u8>,
    node_prefix: Seq<u8>,
    docs: Seq<Seq<u8>>,
    first: NodeStore,
    second: NodeStore,
)
    requires
        first.is_tree_of(node_prefix, leaves_of(doc_prefix, docs)),
        second.is_tree_of(node_prefix, leaves_of(doc_prefix, docs)),
    ensures
        first@ == second@,
        summary_lines(
            doc_prefix,
            node_prefix,
            docs.len(),
            max_layer_spec(docs.len()),
            first@,
        ) == summary_lines(doc_prefix, node_prefix, docs.len(), max_layer_spec(docs.len()), second@),
{
}

/// Appending document `n` to the tree over documents `0..n` gives the same
/// store, and so the same root, as building over documents `0..=n`.
pub proof fn lemma_incremental_equivalence(
    doc_prefix: Seq<u8>,
    node_prefix: Seq<u8>,
    docs: Seq<Seq<u8>>,
    doc: Seq<u8>,
    appended: NodeStore,
    built: NodeStore,
)
    requires
        appended.is_tree_of(
            node_prefix,
            leaves_of(doc_prefix, docs).push(leaf_hash(doc_prefix, doc)),
        ),
        built.is_tree_of(node_prefix, leaves_of(doc_prefix, docs.push(doc))),
    ensures
        appended@ == built@,
        root_of(node_prefix, leaves_of(doc_prefix, docs).push(leaf_hash(doc_prefix, doc)))
            == root_of(node_prefix, leaves_of(doc_prefix, docs.push(doc))),
{
    assert(leaves_of(doc_prefix, docs).push(leaf_hash(doc_prefix, doc)) =~= leaves_of(
        doc_prefix,
        docs.push(doc),
    ));
}

/// With one document the root layer is layer 0, the proof is empty, and the
/// root is the leaf hash itself.
pub proof fn lemma_single_document(doc_prefix: Seq<u8>, node_prefix: Seq<u8>, doc: Seq<u8>)
    ensures
        max_layer_spec(1) == 0,
        proof_of(node_prefix, leaves_of(doc_prefix, seq![doc]), 0).len() == 0,
        root_of(node_prefix, leaves_of(doc_prefix, seq![doc])) == leaf_hash(doc_prefix, doc),
{
    let leaves = leaves_of(doc_prefix, seq![doc]);
    assert(layer(node_prefix, leaves, 0) == leaves);
}

/// Round trip through a store: the proof lines read from a store that holds
/// the tree over `docs` verify document `idx` against a header that names
/// blake3, the tree's prefixes and its root.
pub proof fn lemma_generated_proof_verifies(
    header: Seq<u8>,
    docs: Seq<Seq<u8>>,
    idx: nat,
    store: NodeStore,
)
    requires
        idx < docs.len(),
        split_fields(header).len() >= 7,
        split_fields(header)[1] == blake3_id(),
        store.is_tree_of(split_fields(header)[3], leaves_of(split_fields(header)[2], docs)),
        split_fields(header)[6] == hex_lower(
            root_of(split_fields(header)[3], leaves_of(split_fields(header)[2], docs)),
        ),
    ensures
        verify_outcome(
            header,
            docs[idx as int],
            proof_lines_of(stored_proof(store@, idx, max_layer_spec(docs.len()))),
        ) == Ok::<bool, TreeError>(true),
{
    let f = split_fields(header);
    let leaves = leaves_of(f[2], docs);
    lemma_stored_proof(f[3], leaves, idx);
    lemma_round_trip(header, docs, idx);
}

/// A proof line holds no line feed and does not end with a carriage return.
pub proof fn lemma_proof_lines_plain(entries: Seq<(Direction, Seq<u8>)>)
    ensures
        plain_lines(proof_lines_of(entries)),
{
    let lines = proof_lines_of(entries);
    assert forall|k: int| 0 <= k < lines.len() implies (forall|m: int|
        0 <= m < lines[k].len() ==> #[trigger] lines[k][m] != 0x0a) && strip_cr(
        #[trigger] lines[k],
    ) == lines[k] by {
        let l = line_of(entries[k]);
        let h = crate::codec::hex_lower(entries[k].1);
        lemma_hex_lower_shape(entries[k].1);
        assert(is_hex(h));
        assert(l == seq![crate::inclusion::tag_of(entries[k].0)] + h);
        assert forall|m: int| 0 <= m < l.len() implies #[trigger] l[m] != 0x0a by {
            if m > 0 {
                assert(l[m] == h[m - 1]);
            }
        }
        if l.len() > 1 {
            assert(l.last() == h[h.len() - 1]);
        }
    }
}

/// Round trip through text: the proof read from a store that holds the tree
/// over `docs`, written one line per entry and read back, verifies document
/// `idx` against a header that names blake3, the tree's prefixes and its root.
pub proof fn lemma_generated_proof_text_verifies(
    header: Seq<u8>,
    docs: Seq<Seq<u8>>,
    idx: nat,
    store: NodeStore,
)
    requires
        idx < docs.len(),
        split_fields(header).len() >= 7,
        split_fields(header)[1] == blake3_id(),
        store.is_tree_of(split_fields(header)[3], leaves_of(split_fields(header)[2], docs)),
        split_fields(header)[6] == hex_lower(
            root_of(split_fields(header)[3], leaves_of(split_fields(header)[2], docs)),
        ),
    ensures
        verify_outcome(
            header,
            docs[idx as int],
            text_lines(joined(proof_lines_of(stored_proof(store@, idx, max_layer_spec(docs.len()))))),
        ) == Ok::<bool, TreeError>(true),
{
    let lines = proof_lines_of(stored_proof(store@, idx, max_layer_spec(docs.len())));
    lemma_proof_lines_plain(stored_proof(store@, idx, max_layer_spec(docs.len())));
    lemma_lines_round_trip(lines);
    lemma_generated_proof_verifies(header, docs, idx, store);
}

/// The fields of a summary header, in order.
pub open spec fn header_fields(
    doc_prefix: Seq<u8>,
    node_prefix: Seq<u8>,
    n: nat,
    layers: nat,
    root: Seq<u8>,
) -> Seq<Seq<u8>> {
    seq![tree_id(), blake3_id(), doc_prefix, node_prefix, decimal(n), decimal(layers), hex_lower(root)]
}

proof fn lemma_free_of_concat(a: Seq<u8>, b: Seq<u8>, sep: u8)
    requires
        free_of(a, sep),
        free_of(b, sep),
    ensures
        free_of(a + b, sep),
{
    assert forall|k: int| 0 <= k < (a + b).len() implies #[trigger] (a + b)[k] != sep by {
        if k >= a.len() {
            assert((a + b)[k] == b[k - a.len()]);
        }
    }
}

proof fn lemma_fixed_texts_plain()
    ensures
        free_of(tree_id(), 0x3a),
        free_of(tree_id(), 0x0a),
        free_of(blake3_id(), 0x3a),
        free_of(blake3_id(), 0x0a),
        free_of(colon(), 0x0a),
{
}

proof fn lemma_generated_texts_plain(n: nat, b: Seq<u8>)
    ensures
        free_of(decimal(n), 0x3a),
        free_of(decimal(n), 0x0a),
        free_of(hex_lower(b), 0x3a),
        free_of(hex_lower(b), 0x0a),
        hex_lower(b).len() == 0 || hex_lower(b).last() != 0x0d,
{
    lemma_decimal_round_trip(n);
    lemma_hex_lower_shape(b);
    let h = hex_lower(b);
    assert(is_hex(h));
    if h.len() > 0 {
        assert(crate::codec::is_hex_char(h[h.len() - 1]));
    }
}

/// Splitting a header line at colons gives back its fields, where the
/// prefixes hold no colon.
pub proof fn lemma_header_fields(
    doc_prefix: Seq<u8>,
    node_prefix: Seq<u8>,
    n: nat,
    layers: nat,
    root: Seq<u8>,
)
    requires
        free_of(doc_prefix, 0x3a),
        free_of(node_prefix, 0x3a),
    ensures
        split_fields(header_line(doc_prefix, node_prefix, n, layers, root)) == header_fields(
            doc_prefix,
            node_prefix,
            n,
            layers,
            root,
        ),
{
    lemma_fixed_texts_plain();
    lemma_generated_texts_plain(n, root);
    lemma_generated_texts_plain(layers, root);
    let s1 = tree_id();
    lemma_split_on_single(s1, 0x3a);
    let s2 = s1 + colon() + blake3_id();
    lemma_split_on_append_piece(s1, blake3_id(), 0x3a);
    let s3 = s2 + colon() + doc_prefix;
    lemma_split_on_append_piece(s2, doc_prefix, 0x3a);
    let s4 = s3 + colon() + node_prefix;
    lemma_split_on_append_piece(s3, node_prefix, 0x3a);
    let s5 = s4 + colon() + decimal(n);
    lemma_split_on_append_piece(s4, decimal(n), 0x3a);
    let s6 = s5 + colon() + decimal(layers);
    lemma_split_on_append_piece(s5, decimal(layers), 0x3a);
    let s7 = s6 + colon() + hex_lower(root);
    lemma_split_on_append_piece(s6, hex_lower(root), 0x3a);
    assert(s7 == header_line(doc_prefix, node_prefix, n, layers, root));
    assert(split_fields(s7) =~= header_fields(doc_prefix, node_prefix, n, layers, root));
}

/// Store then load: the first line of a stored summary splits into the
/// header fields, so loading reads back the document count, and the header
/// names blake3, the prefixes and the root that verification uses.
pub proof fn lemma_summary_header(
    doc_prefix: Seq<u8>,
    node_prefix: Seq<u8>,
    n: nat,
    height: nat,
    layers: Seq<Seq<Seq<u8>>>,
)
    requires
        free_of(doc_prefix, 0x3a),
        free_of(node_prefix, 0x3a),
        free_of(doc_prefix, 0x0a),
        free_of(node_prefix, 0x0a),
        has_root(layers, height),
    ensures
        split_fields(first_line(joined(summary_lines(doc_prefix, node_prefix, n, height, layers))))
            == header_fields(doc_prefix, node_prefix, n, height + 1, layers[height as int][0]),
        is_number(decimal(n)),
        digits_value(number_digits(decimal(n))) == n,
{
    let root = layers[height as int][0];
    let lines = summary_lines(doc_prefix, node_prefix, n, height, layers);
    let h = header_line(doc_prefix, node_prefix, n, height + 1, root);
    assert(lines[0] == h);
    lemma_fixed_texts_plain();
    lemma_generated_texts_plain(n, root);
    lemma_generated_texts_plain(height + 1, root);
    lemma_free_of_concat(tree_id(), colon(), 0x0a);
    lemma_free_of_concat(tree_id() + colon(), blake3_id(), 0x0a);
    lemma_free_of_concat(tree_id() + colon() + blake3_id(), colon(), 0x0a);
    let a4 = tree_id() + colon() + blake3_id() + colon();
    lemma_free_of_concat(a4, doc_prefix, 0x0a);
    lemma_free_of_concat(a4 + doc_prefix, colon(), 0x0a);
    let a6 = a4 + doc_prefix + colon();
    lemma_free_of_concat(a6, node_prefix, 0x0a);
    lemma_free_of_concat(a6 + node_prefix, colon(), 0x0a);
    let a8 = a6 + node_prefix + colon();
    lemma_free_of_concat(a8, decimal(n), 0x0a);
    lemma_free_of_concat(a8 + decimal(n), colon(), 0x0a);
    let a10 = a8 + decimal(n) + colon();
    lemma_free_of_concat(a10, decimal(height + 1), 0x0a);
    lemma_free_of_concat(a10 + decimal(height + 1), colon(), 0x0a);
    let a12 = a10 + decimal(height + 1) + colon();
    lemma_free_of_concat(a12, hex_lower(root), 0x0a);
    assert(a12 + hex_lower(root) == h);
    if hex_lower(root).len() == 0 {
        assert(h =~= a12);
        assert(h.last() == 0x3a);
    } else {
        assert(h.last() == hex_lower(root).last());
    }
    assert(strip_cr(h) == h);
    lemma_first_of_joined(lines);
    lemma_header_fields(doc_prefix, node_prefix, n, height + 1, root);
    lemma_decimal_round_trip(n);
}

} // verus!
