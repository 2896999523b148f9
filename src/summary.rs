//! The summary text: a header line that carries the public verification
//! data, then one line per stored node; and reading a descriptor back from it.
use vstd::prelude::*;
use crate::codec::{hex_encode, hex_lower};
use crate::inclusion::{blake3_id, extend_bytes, layer_or_empty};
use crate::text::{
    decimal, digits_value, first_line, format_decimal, is_number, join_lines, joined,
    number_digits, parse_usize, split_colons, split_fields, take_first_line, views,
};
use crate::tree::{MerkleTree, NodeStore, Prefixes, TreeError};

verus! {

/// The tree identifier that opens a header: `MerkleTree`.
pub open spec fn tree_id() -> Seq<u8> {
    seq![0x4du8, 0x65, 0x72, 0x6b, 0x6c, 0x65, 0x54, 0x72, 0x65, 0x65]
}

/// A colon.
pub open spec fn colon() -> Seq<u8> {
    seq![0x3au8]
}

/// The header line: tree id, algorithm, the two prefixes, the document
/// count, the number of layers, and the root in hex, colon-separated.
pub open spec fn header_line(
    doc_prefix: Seq<u8>,
    node_prefix: Seq<u8>,
    n: nat,
    layers: nat,
    root: Seq<u8>,
) -> Seq<u8> {
    tree_id() + colon() + blake3_id() + colon() + doc_prefix + colon() + node_prefix + colon()
        + decimal(n) + colon() + decimal(layers) + colon() + hex_lower(root)
}

/// The line of node `j` of layer `i`.
pub open spec fn node_line(i: nat, j: nat, h: Seq<u8>) -> Seq<u8> {
    decimal(i) + colon() + decimal(j) + colon() + hex_lower(h)
}

/// The lines of every stored node of layer `i`, by index.
pub open spec fn layer_lines(layers: Seq<Seq<Seq<u8>>>, i: nat) -> Seq<Seq<u8>> {
    Seq::new(
        layer_or_empty(layers, i as int).len(),
        |j: int| node_line(i, j as nat, layer_or_empty(layers, i as int)[j]),
    )
}

/// The lines of the stored nodes of the first `m` layers, layer by layer.
pub open spec fn body_lines(layers: Seq<Seq<Seq<u8>>>, m: nat) -> Seq<Seq<u8>>
    decreases m,
{
    if m == 0 {
        Seq::empty()
    } else {
        body_lines(layers, (m - 1) as nat) + layer_lines(layers, (m - 1) as nat)
    }
}

/// Whether the store holds the root node of a tree with root layer `height`.
pub open spec fn has_root(layers: Seq<Seq<Seq<u8>>>, height: nat) -> bool {
    height < layers.len() && layers[height as int].len() > 0
}

/// The summary lines of a tree with `n` documents and root layer `height`
/// whose nodes are `layers`.
pub open spec fn summary_lines(
    doc_prefix: Seq<u8>,
    node_prefix: Seq<u8>,
    n: nat,
    height: nat,
    layers: Seq<Seq<Seq<u8>>>,
) -> Seq<Seq<u8>> {
    seq![header_line(doc_prefix, node_prefix, n, height + 1, layers[height as int][0])]
        + body_lines(layers, height + 1)
}

/// Appends `a`, a colon, and nothing else.
fn push_field(line: &mut Vec<u8>, a: &[u8])
    ensures
        final(line)@ == old(line)@ + a@ + colon(),
{
    extend_bytes(line, a);
    line.push(0x3a);
    assert(final(line)@ =~= old(line)@ + a@ + colon());
}

/// The line of node `j` of layer `i`.
fn format_node_line(i: usize, j: usize, h: &[u8]) -> (r: Vec<u8>)
    ensures
        r@ == node_line(i as nat, j as nat, h@),
{
    let mut line: Vec<u8> = Vec::new();
    let di = format_decimal(i);
    push_field(&mut line, di.as_slice());
    let dj = format_decimal(j);
    push_field(&mut line, dj.as_slice());
    let hx = hex_encode(h);
    extend_bytes(&mut line, hx.as_slice());
    assert(line@ =~= node_line(i as nat, j as nat, h@));
    line
}

impl MerkleTree {
    /// The summary lines: the header, then every stored node of layers
    /// `0..=max_layer` in layer-major, index-ascending order. Fails when the
    /// store lacks the root.
    pub fn summary(&self, prefixes: &Prefixes, nodes: &NodeStore) -> (r: Result<
        Vec<Vec<u8>>,
        TreeError,
    >)
        requires
            self.wf(),
        ensures
            r is Ok <==> has_root(nodes@, self.height()),
            r is Ok ==> views(r->Ok_0@) == summary_lines(
                prefixes.doc@,
                prefixes.node@,
                self.count(),
                self.height(),
                nodes@,
            ),
            r is Err ==> r->Err_0 == TreeError::CorruptedStore,
    {
        let m = self.max_layer();
        if m >= nodes.layers.len() || nodes.layers[m].len() == 0 {
            return Err(TreeError::CorruptedStore);
        }
        let mut header: Vec<Vec<u8>> = Vec::new();
        let mut line: Vec<u8> = Vec::new();
        let tid: Vec<u8> = vec![0x4du8, 0x65, 0x72, 0x6b, 0x6c, 0x65, 0x54, 0x72, 0x65, 0x65];
        let aid: Vec<u8> = vec![0x62u8, 0x6c, 0x61, 0x6b, 0x65, 0x33];
        assert(tid@ =~= tree_id());
        assert(aid@ =~= blake3_id());
        push_field(&mut line, tid.as_slice());
        push_field(&mut line, aid.as_slice());
        push_field(&mut line, prefixes.doc.as_slice());
        push_field(&mut line, prefixes.node.as_slice());
        let dn = format_decimal(self.elements());
        push_field(&mut line, dn.as_slice());
        proof {
            crate::tree::lemma_max_layer_bound(self.count());
        }
        let dl = format_decimal(m + 1);
        push_field(&mut line, dl.as_slice());
        let hx = hex_encode(nodes.layers[m][0].as_slice());
        extend_bytes(&mut line, hx.as_slice());
        assert(line@ =~= header_line(
            prefixes.doc@,
            prefixes.node@,
            self.count(),
            self.height() + 1,
            nodes@[m as int][0],
        ));
        header.push(line);
        let mut lines = header;
        let mut i: usize = 0;
        assert(views(lines@) =~= seq![
            header_line(prefixes.doc@, prefixes.node@, self.count(), self.height() + 1, nodes@[m as int][0]),
        ] + body_lines(nodes@, 0));
        while i <= m
            invariant
                i <= m + 1,
                m == self.height(),
                m < nodes@.len(),
                nodes@[m as int].len() > 0,
                m < usize::MAX,
                views(lines@) == seq![
                    header_line(prefixes.doc@, prefixes.node@, self.count(), self.height() + 1, nodes@[m as int][0]),
                ] + body_lines(nodes@, i as nat),
            decreases m + 1 - i,
        {
            let ghost start = views(lines@);
            let row = &nodes.layers[i];
            let mut j: usize = 0;
            while j < row.len()
                invariant
                    j <= row@.len(),
                    i < nodes@.len(),
                    row@ == nodes.layers@[i as int]@,
                    views(lines@) == start + layer_lines(nodes@, i as nat).subrange(0, j as int),
                decreases row@.len() - j,
            {
                let nl = format_node_line(i, j, row[j].as_slice());
                let ghost prev = lines@;
                proof {
                    assert(layer_or_empty(nodes@, i as int)[j as int] == row@[j as int]@);
                    assert(layer_lines(nodes@, i as nat)[j as int] == nl@);
                    assert(views(prev).len() == prev.len());
                }
                lines.push(nl);
                proof {
                    let want = start + layer_lines(nodes@, i as nat).subrange(0, j + 1);
                    let had = start + layer_lines(nodes@, i as nat).subrange(0, j as int);
                    assert(views(prev) == had);
                    assert forall|k: int| 0 <= k < prev.len() implies views(lines@)[k] == want[k] by {
                        assert(lines@[k] == prev[k]);
                        assert(views(prev)[k] == had[k]);
                        if k >= start.len() {
                            assert(had[k] == layer_lines(nodes@, i as nat)[k - start.len()]);
                        }
                    }
                }
                j += 1;
                assert(views(lines@) =~= start + layer_lines(nodes@, i as nat).subrange(0, j as int));
            }
            assert(layer_lines(nodes@, i as nat).subrange(0, j as int) =~= layer_lines(nodes@, i as nat));
            assert(body_lines(nodes@, (i + 1) as nat) == body_lines(nodes@, i as nat) + layer_lines(nodes@, i as nat));
            assert(views(lines@) =~= seq![
                header_line(prefixes.doc@, prefixes.node@, self.count(), self.height() + 1, nodes@[m as int][0]),
            ] + body_lines(nodes@, (i + 1) as nat));
            i += 1;
        }
        Ok(lines)
    }

    /// The text of the summary, one line feed after each line, ready to be
    /// persisted.
    pub fn store(&self, prefixes: &Prefixes, nodes: &NodeStore) -> (r: Result<Vec<u8>, TreeError>)
        requires
            self.wf(),
        ensures
            r is Ok <==> has_root(nodes@, self.height()),
            r is Ok ==> r->Ok_0@ == joined(
                summary_lines(prefixes.doc@, prefixes.node@, self.count(), self.height(), nodes@),
            ),
            r is Err ==> r->Err_0 == TreeError::CorruptedStore,
    {
        let lines = self.summary(prefixes, nodes)?;
        Ok(join_lines(&lines))
    }

    /// Reads a descriptor back from summary text: the fifth colon-separated
    /// field of its first line is the document count; the root layer follows
    /// from it. `None` where that field is missing or is not a number that
    /// fits.
    pub fn load(summary: &[u8]) -> (r: Option<MerkleTree>)
        ensures
            ({
                let f = split_fields(first_line(summary@));
                &&& r is Some <==> (f.len() > 4 && is_number(f[4]) && digits_value(
                    number_digits(f[4]),
                ) <= usize::MAX)
                &&& r is Some ==> r->Some_0.count() == digits_value(number_digits(f[4]))
                    && r->Some_0.wf()
            }),
    {
        let line = take_first_line(summary);
        let fields = split_colons(line.as_slice());
        if fields.len() <= 4 {
            return None;
        }
        match parse_usize(fields[4].as_slice()) {
            Some(n) => Some(MerkleTree::new(n)),
            None => None,
        }
    }
}

} // verus!
