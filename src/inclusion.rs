//! Inclusion proofs: their derivation from a stored tree, their text lines,
//! and the fold that recomputes a root from a leaf and a proof.
use vstd::prelude::*;
use crate::codec::{from_hex, hex_decode, hex_encode, hex_lower, is_hex};
use crate::hash::{hash_leaf, hash_node, leaf_hash, node_hash};
use crate::model::{halve, layer, leaves_of, max_layer_spec, right_or_empty, root_of};
use crate::model::{lemma_halve_mono, lemma_layer_len, tree_layers};
use crate::tree::{is_even, MerkleTree, NodeStore, TreeError};
use crate::text::{split_colons, split_fields, split_lines, text_lines, views};
use crate::codec::{lemma_hex_lower_shape, lemma_hex_round_trip};

verus! {

/// The side on which a proof entry's sibling stands.
#[derive(Clone, Copy, Debug, PartialEq, Eq, Structural)]
pub enum Direction {
    Left,
    Right,
}

/// One proof entry: a sibling hash and its side relative to the path node.
pub struct ProofEntry {
    pub direction: Direction,
    pub sibling: Vec<u8>,
}

/// The mathematical content of a list of entries.
pub open spec fn entries_view(v: Seq<ProofEntry>) -> Seq<(Direction, Seq<u8>)> {
    Seq::new(v.len(), |k: int| (v[k].direction, v[k].sibling@))
}

/// Entry `i` of the proof for leaf `idx`: where the path node at layer `i`
/// has an even index its sibling is the right neighbour (or the empty string),
/// else the left one.
pub open spec fn proof_step(np: Seq<u8>, leaves: Seq<Seq<u8>>, idx: nat, i: nat) -> (
    Direction,
    Seq<u8>,
) {
    step_in(layer(np, leaves, i), halve(idx, i))
}

/// The proof entry for the node at index `c` of layer `l`.
pub open spec fn step_in(l: Seq<Seq<u8>>, c: nat) -> (Direction, Seq<u8>) {
    if c % 2 == 0 {
        (Direction::Right, right_or_empty(l, (c + 1) as int))
    } else {
        (Direction::Left, l[c - 1])
    }
}

/// Layer `i` of a store, or no nodes where the store lacks it.
pub open spec fn layer_or_empty(layers: Seq<Seq<Seq<u8>>>, i: int) -> Seq<Seq<u8>> {
    if 0 <= i < layers.len() {
        layers[i]
    } else {
        Seq::empty()
    }
}

/// The first `m` entries of the proof for leaf `idx`, read from stored layers.
pub open spec fn stored_proof(layers: Seq<Seq<Seq<u8>>>, idx: nat, m: nat) -> Seq<(Direction, Seq<u8>)> {
    Seq::new(m, |i: int| step_in(layer_or_empty(layers, i), halve(idx, i as nat)))
}

/// The proof for leaf `idx`: one entry per layer below the root.
pub open spec fn proof_of(np: Seq<u8>, leaves: Seq<Seq<u8>>, idx: nat) -> Seq<(Direction, Seq<u8>)> {
    Seq::new(max_layer_spec(leaves.len()), |i: int| proof_step(np, leaves, idx, i as nat))
}

/// One step of the fold: hash the current value with the sibling on its side.
pub open spec fn fold_step(np: Seq<u8>, current: Seq<u8>, e: (Direction, Seq<u8>)) -> Seq<u8> {
    match e.0 {
        Direction::Left => node_hash(np, e.1, current),
        Direction::Right => node_hash(np, current, e.1),
    }
}

/// The value that folding the entries in order over `start` reaches.
pub open spec fn fold_proof(np: Seq<u8>, start: Seq<u8>, entries: Seq<(Direction, Seq<u8>)>) -> Seq<u8>
    decreases entries.len(),
{
    if entries.len() == 0 {
        start
    } else {
        fold_step(np, fold_proof(np, start, entries.drop_last()), entries.last())
    }
}

/// The text line of an entry: `L` or `R`, then the sibling in lowercase hex.
pub open spec fn line_of(e: (Direction, Seq<u8>)) -> Seq<u8> {
    seq![tag_of(e.0)] + hex_lower(e.1)
}

/// The tag byte of a direction.
pub open spec fn tag_of(d: Direction) -> u8 {
    match d {
        Direction::Left => 0x4c,
        Direction::Right => 0x52,
    }
}

/// Whether `line` is a proof line: a tag followed by hex text.
pub open spec fn is_proof_line(line: Seq<u8>) -> bool {
    line.len() >= 1 && (line[0] == 0x4c || line[0] == 0x52) && is_hex(line.subrange(1, line.len() as int))
}

/// The entry that a proof line stands for.
pub open spec fn entry_of_line(line: Seq<u8>) -> (Direction, Seq<u8>) {
    (
        if line[0] == 0x4c { Direction::Left } else { Direction::Right },
        from_hex(line.subrange(1, line.len() as int)),
    )
}

/// Folding the first `i` entries of the proof for leaf `idx` reaches the
/// path node at layer `i`.
pub proof fn lemma_fold_prefix(np: Seq<u8>, leaves: Seq<Seq<u8>>, idx: nat, i: nat)
    requires
        idx < leaves.len(),
        i <= max_layer_spec(leaves.len()),
    ensures
        halve(idx, i) < layer(np, leaves, i).len(),
        fold_proof(np, leaves[idx as int], proof_of(np, leaves, idx).subrange(0, i as int))
            == layer(np, leaves, i)[halve(idx, i) as int],
    decreases i,
{
    let p = proof_of(np, leaves, idx);
    if i > 0 {
        let h = (i - 1) as nat;
        lemma_fold_prefix(np, leaves, idx, h);
        assert(p.subrange(0, i as int).drop_last() =~= p.subrange(0, h as int));
        let c = halve(idx, h);
        let l = layer(np, leaves, h);
        assert(halve(idx, i) == c / 2);
        assert(layer(np, leaves, i) == crate::model::parents(np, l));
    } else {
        assert(p.subrange(0, 0) =~= Seq::<(Direction, Seq<u8>)>::empty());
    }
}

/// Folding the whole proof for a leaf over that leaf's hash reaches the root.
pub proof fn lemma_proof_reaches_root(np: Seq<u8>, leaves: Seq<Seq<u8>>, idx: nat)
    requires
        idx < leaves.len(),
    ensures
        fold_proof(np, leaves[idx as int], proof_of(np, leaves, idx)) == root_of(np, leaves),
{
    let m = max_layer_spec(leaves.len());
    lemma_fold_prefix(np, leaves, idx, m);
    crate::model::lemma_root_layer(np, leaves);
    assert(proof_of(np, leaves, idx).subrange(0, m as int) =~= proof_of(np, leaves, idx));
}

/// Appends the bytes of `src` to `dst`.
pub(crate) fn extend_bytes(dst: &mut Vec<u8>, src: &[u8])
    ensures
        final(dst)@ == old(dst)@ + src@,
{
    let mut k: usize = 0;
    while k < src.len()
        invariant
            k <= src@.len(),
            dst@ == old(dst)@ + src@.subrange(0, k as int),
        decreases src@.len() - k,
    {
        dst.push(src[k]);
        k += 1;
        assert(dst@ =~= old(dst)@ + src@.subrange(0, k as int));
    }
    assert(src@.subrange(0, src@.len() as int) =~= src@);
}

/// Whether two byte strings are equal.
pub(crate) fn bytes_equal(a: &[u8], b: &[u8]) -> (r: bool)
    ensures
        r == (a@ == b@),
{
    if a.len() != b.len() {
        return false;
    }
    let mut k: usize = 0;
    while k < a.len()
        invariant
            k <= a@.len(),
            a@.len() == b@.len(),
            forall|m: int| 0 <= m < k ==> a@[m] == b@[m],
        decreases a@.len() - k,
    {
        if a[k] != b[k] {
            return false;
        }
        k += 1;
    }
    assert(a@ =~= b@);
    true
}

/// The text line of one entry.
pub fn entry_line(direction: Direction, sibling: &[u8]) -> (r: Vec<u8>)
    ensures
        r@ == line_of((direction, sibling@)),
{
    let tag: u8 = match direction {
        Direction::Left => 0x4c,
        Direction::Right => 0x52,
    };
    let mut line: Vec<u8> = Vec::new();
    line.push(tag);
    let hex = hex_encode(sibling);
    extend_bytes(&mut line, hex.as_slice());
    assert(line@ =~= line_of((direction, sibling@)));
    line
}

/// Parses one proof line: a tag `L` or `R`, then the sibling in hex.
pub fn parse_line(line: &[u8]) -> (r: Result<ProofEntry, TreeError>)
    ensures
        r is Ok <==> is_proof_line(line@),
        r is Ok ==> (r->Ok_0.direction, r->Ok_0.sibling@) == entry_of_line(line@),
        r is Err ==> r->Err_0 == TreeError::Format,
{
    if line.len() == 0 {
        return Err(TreeError::Format);
    }
    let direction = if line[0] == 0x4c {
        Direction::Left
    } else if line[0] == 0x52 {
        Direction::Right
    } else {
        return Err(TreeError::Format);
    };
    let mut rest: Vec<u8> = Vec::new();
    let mut k: usize = 1;
    while k < line.len()
        invariant
            1 <= k <= line@.len(),
            rest@ == line@.subrange(1, k as int),
        decreases line@.len() - k,
    {
        rest.push(line[k]);
        k += 1;
        assert(rest@ =~= line@.subrange(1, k as int));
    }
    match hex_decode(rest.as_slice()) {
        Ok(sibling) => Ok(ProofEntry { direction, sibling }),
        Err(_) => Err(TreeError::Format),
    }
}

/// Whether the store holds every left sibling that the first `m` entries of
/// the proof for leaf `idx` need.
pub open spec fn left_siblings_stored(layers: Seq<Seq<Seq<u8>>>, idx: nat, m: nat) -> bool {
    forall|i: int|
        0 <= i < m && #[trigger] halve(idx, i as nat) % 2 == 1 ==> halve(idx, i as nat) - 1
            < layer_or_empty(layers, i).len()
}

/// The lines of a proof, in order.
pub open spec fn proof_lines_of(entries: Seq<(Direction, Seq<u8>)>) -> Seq<Seq<u8>> {
    Seq::new(entries.len(), |k: int| line_of(entries[k]))
}

impl MerkleTree {
    /// The inclusion proof for document `doc_idx`, as text lines from the
    /// leaf upwards. A missing right sibling stands as the empty string; a
    /// missing left sibling means the store is corrupted.
    pub fn gen_proof(&self, doc_idx: usize, store: &NodeStore) -> (r: Result<
        Vec<Vec<u8>>,
        TreeError,
    >)
        requires
            doc_idx < self.count(),
            self.wf(),
        ensures
            r is Ok <==> left_siblings_stored(store@, doc_idx as nat, self.height()),
            r is Err ==> r->Err_0 == TreeError::CorruptedStore,
            r is Ok ==> views(r->Ok_0@) == proof_lines_of(
                stored_proof(store@, doc_idx as nat, self.height()),
            ),
            forall|np: Seq<u8>|
                #[trigger] store.is_tree(np) && store@[0].len() == self.count() ==> r is Ok,
    {
        let m = self.max_layer();
        let mut lines: Vec<Vec<u8>> = Vec::new();
        let mut c: usize = doc_idx;
        let mut i: usize = 0;
        let empty: Vec<u8> = Vec::new();
        while i < m
            invariant
                i <= m,
                m == self.height(),
                self.wf(),
                doc_idx < self.count(),
                empty@.len() == 0,
                c == halve(doc_idx as nat, i as nat),
                left_siblings_stored(store@, doc_idx as nat, i as nat),
                views(lines@) =~= proof_lines_of(stored_proof(store@, doc_idx as nat, i as nat)),
                forall|np: Seq<u8>|
                    #[trigger] store.is_tree(np) && store@[0].len() == self.count() ==> c
                        < layer_or_empty(store@, i as int).len(),
            decreases m - i,
        {
            let ghost l = layer_or_empty(store@, i as int);
            let line = if is_even(c) {
                if i < store.layers.len() && c + 1 < store.layers[i].len() {
                    entry_line(Direction::Right, store.layers[i][c + 1].as_slice())
                } else {
                    entry_line(Direction::Right, empty.as_slice())
                }
            } else {
                if i < store.layers.len() && c - 1 < store.layers[i].len() {
                    entry_line(Direction::Left, store.layers[i][c - 1].as_slice())
                } else {
                    proof {
                        let ii: int = i as int;
                        assert(halve(doc_idx as nat, ii as nat) % 2 == 1);
                        assert(!(halve(doc_idx as nat, ii as nat) - 1 < layer_or_empty(
                            store@,
                            ii,
                        ).len()));
                    }
                    return Err(TreeError::CorruptedStore);
                }
            };
            assert(line@ == line_of(step_in(l, c as nat)));
            let ghost prev = lines@;
            assert(views(prev).len() == prev.len());
            assert(proof_lines_of(stored_proof(store@, doc_idx as nat, i as nat)).len() == i);
            assert(prev.len() == i);
            lines.push(line);
            assert(lines@ == prev.push(line));
            proof {
                let sp = stored_proof(store@, doc_idx as nat, (i + 1) as nat);
                let sq = stored_proof(store@, doc_idx as nat, i as nat);
                assert(sp[i as int] == step_in(l, c as nat));
                assert forall|k: int| 0 <= k < i implies sp[k] == sq[k] by {}
                assert forall|k: int| 0 <= k < i implies views(lines@)[k] == proof_lines_of(
                    sp,
                )[k] by {
                    assert(lines@[k] == prev[k]);
                    assert(views(prev)[k] == proof_lines_of(sq)[k]);
                }
                assert(views(lines@)[i as int] == line@);
                assert(views(lines@) =~= proof_lines_of(sp));
            }
            proof {
                assert forall|np: Seq<u8>|
                    #[trigger] store.is_tree(np) && store@[0].len() == self.count() implies c / 2
                        < layer_or_empty(store@, i + 1).len() by {
                    let leaves = store@[0];
                    let n = leaves.len();
                    assert(store@ == tree_layers(np, leaves));
                    assert(layer_or_empty(store@, i as int) == layer(np, leaves, i as nat));
                    assert(layer_or_empty(store@, i + 1) == layer(np, leaves, (i + 1) as nat));
                    lemma_layer_len(np, leaves, (i + 1) as nat);
                    lemma_layer_len(np, leaves, i as nat);
                    lemma_halve_mono(doc_idx as nat, (n - 1) as nat, i as nat);
                }
            }
            proof {
                assert forall|k: int|
                    0 <= k < i + 1 && #[trigger] halve(doc_idx as nat, k as nat) % 2 == 1 implies halve(
                    doc_idx as nat,
                    k as nat,
                ) - 1 < layer_or_empty(store@, k).len() by {
                    if k < i {
                        assert(left_siblings_stored(store@, doc_idx as nat, i as nat));
                    }
                }
            }
            c = c / 2;
            i += 1;
        }
        Ok(lines)
    }
}

/// The hash algorithm name that summaries carry: `blake3`.
pub open spec fn blake3_id() -> Seq<u8> {
    seq![0x62u8, 0x6c, 0x61, 0x6b, 0x65, 0x33]
}

/// Whether every line is a proof line.
pub open spec fn all_proof_lines(lines: Seq<Seq<u8>>) -> bool {
    forall|k: int| 0 <= k < lines.len() ==> is_proof_line(#[trigger] lines[k])
}

/// The entries that proof lines stand for.
pub open spec fn entries_of_lines(lines: Seq<Seq<u8>>) -> Seq<(Direction, Seq<u8>)> {
    Seq::new(lines.len(), |k: int| entry_of_line(lines[k]))
}

/// What verifying `doc` against a summary header and proof lines gives:
/// fields 1, 2, 3 and 6 of the header are the algorithm, the two prefixes and
/// the root in hex, and the recomputed root must equal that root byte for byte.
pub open spec fn verify_outcome(header: Seq<u8>, doc: Seq<u8>, lines: Seq<Seq<u8>>) -> Result<
    bool,
    TreeError,
> {
    let f = split_fields(header);
    if f.len() < 7 {
        Err(TreeError::Format)
    } else if f[1] != blake3_id() {
        Err(TreeError::UnsupportedAlgorithm)
    } else if !all_proof_lines(lines) {
        Err(TreeError::Format)
    } else if !is_hex(f[6]) {
        Err(TreeError::Format)
    } else {
        Ok(fold_proof(f[3], leaf_hash(f[2], doc), entries_of_lines(lines)) == from_hex(f[6]))
    }
}

/// Folds the entries in order over `start`.
pub fn fold_entries(node_prefix: &[u8], start: Vec<u8>, entries: &Vec<ProofEntry>) -> (r: Vec<u8>)
    ensures
        r@ == fold_proof(node_prefix@, start@, entries_view(entries@)),
{
    let ghost ev = entries_view(entries@);
    let mut current = start;
    let mut k: usize = 0;
    assert(ev.subrange(0, 0) =~= Seq::<(Direction, Seq<u8>)>::empty());
    while k < entries.len()
        invariant
            k <= entries@.len(),
            ev == entries_view(entries@),
            current@ == fold_proof(node_prefix@, start@, ev.subrange(0, k as int)),
        decreases entries@.len() - k,
    {
        let e = &entries[k];
        current = match e.direction {
            Direction::Left => hash_node(node_prefix, e.sibling.as_slice(), current.as_slice()),
            Direction::Right => hash_node(node_prefix, current.as_slice(), e.sibling.as_slice()),
        };
        assert(ev.subrange(0, k + 1).drop_last() =~= ev.subrange(0, k as int));
        k += 1;
    }
    assert(ev.subrange(0, entries@.len() as int) =~= ev);
    current
}

impl MerkleTree {
    /// Checks `doc` against the public header of a summary and the text of a
    /// proof, one entry per line. A malformed header or line is an error; a
    /// well-formed proof that does not lead to the header's root gives `false`.
    pub fn verify_proof(pub_info: &[u8], doc: &[u8], proof_text: &[u8]) -> (r: Result<
        bool,
        TreeError,
    >)
        ensures
            r == verify_outcome(pub_info@, doc@, text_lines(proof_text@)),
    {
        let proof = split_lines(proof_text);
        Self::verify_proof_lines(pub_info, doc, &proof)
    }

    /// Checks `doc` against the public header of a summary and a proof given
    /// as lines.
    pub fn verify_proof_lines(pub_info: &[u8], doc: &[u8], proof: &Vec<Vec<u8>>) -> (r: Result<
        bool,
        TreeError,
    >)
        ensures
            r == verify_outcome(pub_info@, doc@, views(proof@)),
    {
        let fields = split_colons(pub_info);
        if fields.len() < 7 {
            return Err(TreeError::Format);
        }
        let id: Vec<u8> = vec![0x62u8, 0x6c, 0x61, 0x6b, 0x65, 0x33];
        assert(id@ =~= blake3_id());
        if !bytes_equal(fields[1].as_slice(), id.as_slice()) {
            return Err(TreeError::UnsupportedAlgorithm);
        }
        let ghost lines = views(proof@);
        let mut entries: Vec<ProofEntry> = Vec::new();
        let mut k: usize = 0;
        while k < proof.len()
            invariant
                k <= proof@.len(),
                lines == views(proof@),
                views(fields@) == split_fields(pub_info@),
                fields@.len() >= 7,
                fields@[1]@ == blake3_id(),
                forall|m: int| 0 <= m < k ==> is_proof_line(#[trigger] lines[m]),
                entries_view(entries@) =~= entries_of_lines(lines.subrange(0, k as int)),
            decreases proof@.len() - k,
        {
            match parse_line(proof[k].as_slice()) {
                Ok(e) => {
                    let ghost prev = entries@;
                    proof {
                        let lo = entries_of_lines(lines.subrange(0, k as int));
                        assert(entries_view(prev).len() == prev.len());
                        assert(lo.len() == k);
                        assert(prev.len() == k);
                    }
                    entries.push(e);
                    proof {
                        let lo = entries_of_lines(lines.subrange(0, k as int));
                        let hi = entries_of_lines(lines.subrange(0, k + 1));
                        assert(entries@ == prev.push(e));
                        assert(entries_view(prev) =~= lo);
                        assert(entries_view(entries@)[k as int] == hi[k as int]);
                        assert forall|m: int| 0 <= m < k implies entries_view(entries@)[m] == hi[m] by {
                            assert(entries@[m] == prev[m]);
                            assert(entries_view(prev)[m] == lo[m]);
                        }
                        assert(entries_view(entries@) =~= hi);
                    }
                },
                Err(e) => {
                    assert(!is_proof_line(lines[k as int]));
                    return Err(e);
                },
            }
            k += 1;
        }
        assert(lines.subrange(0, proof@.len() as int) =~= lines);
        let leaf = hash_leaf(fields[2].as_slice(), doc);
        let current = fold_entries(fields[3].as_slice(), leaf, &entries);
        match hex_decode(fields[6].as_slice()) {
            Ok(root) => Ok(bytes_equal(current.as_slice(), root.as_slice())),
            Err(_) => Err(TreeError::Format),
        }
    }
}

/// A proof line written for an entry parses back to that entry.
pub proof fn lemma_line_round_trip(e: (Direction, Seq<u8>))
    ensures
        is_proof_line(line_of(e)),
        entry_of_line(line_of(e)) == e,
{
    let l = line_of(e);
    assert(l.subrange(1, l.len() as int) =~= hex_lower(e.1));
    lemma_hex_lower_shape(e.1);
    lemma_hex_round_trip(e.1);
}

/// On a store that holds the whole tree, the proof read from it is the
/// proof of the model.
pub proof fn lemma_stored_proof(np: Seq<u8>, leaves: Seq<Seq<u8>>, idx: nat)
    ensures
        stored_proof(tree_layers(np, leaves), idx, max_layer_spec(leaves.len())) == proof_of(
            np,
            leaves,
            idx,
        ),
{
    assert(stored_proof(tree_layers(np, leaves), idx, max_layer_spec(leaves.len())) =~= proof_of(
        np,
        leaves,
        idx,
    ));
}

/// Round trip: the proof generated for any document of a tree verifies that
/// document against a header that names blake3, the tree's prefixes and its
/// root.
pub proof fn lemma_round_trip(header: Seq<u8>, docs: Seq<Seq<u8>>, idx: nat)
    requires
        idx < docs.len(),
        split_fields(header).len() >= 7,
        split_fields(header)[1] == blake3_id(),
        split_fields(header)[6] == hex_lower(
            root_of(split_fields(header)[3], leaves_of(split_fields(header)[2], docs)),
        ),
    ensures
        verify_outcome(
            header,
            docs[idx as int],
            proof_lines_of(
                proof_of(split_fields(header)[3], leaves_of(split_fields(header)[2], docs), idx),
            ),
        ) == Ok::<bool, TreeError>(true),
{
    let f = split_fields(header);
    let leaves = leaves_of(f[2], docs);
    let p = proof_of(f[3], leaves, idx);
    let lines = proof_lines_of(p);
    assert forall|k: int| 0 <= k < lines.len() implies is_proof_line(#[trigger] lines[k]) by {
        lemma_line_round_trip(p[k]);
    }
    assert forall|k: int| 0 <= k < lines.len() implies entries_of_lines(lines)[k] == p[k] by {
        lemma_line_round_trip(p[k]);
    }
    assert(entries_of_lines(lines) =~= p);
    lemma_proof_reaches_root(f[3], leaves, idx);
    lemma_hex_lower_shape(root_of(f[3], leaves));
    lemma_hex_round_trip(root_of(f[3], leaves));
}

} // verus!
