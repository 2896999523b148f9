//! Domain-separated hashing over blake3.
use vstd::prelude::*;

verus! {

/// What blake3 returns on the given input bytes.
pub uninterp spec fn blake3_of(input: Seq<u8>) -> Seq<u8>;

/// Relies on `blake3::hash`: the 32-byte digest of the input, which depends on
/// the input bytes alone.
#[verifier::external_body]
fn blake3_digest(input: &[u8]) -> (r: Vec<u8>)
    ensures
        r@ == blake3_of(input@),
        r@.len() == 32,
{
    blake3::hash(input).as_bytes().to_vec()
}

/// The concatenation of a sequence of byte strings.
pub open spec fn concat(parts: Seq<Seq<u8>>) -> Seq<u8>
    decreases parts.len(),
{
    if parts.len() == 0 {
        Seq::empty()
    } else {
        concat(parts.drop_last()) + parts.last()
    }
}

/// The digest of `prefix` followed by each part, in order.
pub open spec fn hash_spec(prefix: Seq<u8>, parts: Seq<Seq<u8>>) -> Seq<u8> {
    blake3_of(prefix + concat(parts))
}

/// The hash of a leaf: the digest of the document under the document prefix.
pub open spec fn leaf_hash(doc_prefix: Seq<u8>, doc: Seq<u8>) -> Seq<u8> {
    blake3_of(doc_prefix + doc)
}

/// The hash of an internal node from its two children.
pub open spec fn node_hash(node_prefix: Seq<u8>, left: Seq<u8>, right: Seq<u8>) -> Seq<u8> {
    blake3_of(node_prefix + left + right)
}

/// Hashes `prefix` followed by each part of `data`, in order.
pub fn blake3(prefix: &[u8], data: &[&[u8]]) -> (r: Vec<u8>)
    ensures
        r@ == hash_spec(prefix@, data@.map_values(|p: &[u8]| p@)),
        r@.len() == 32,
{
    let mut buf: Vec<u8> = Vec::new();
    let mut i: usize = 0;
    while i < prefix.len()
        invariant
            0 <= i <= prefix@.len(),
            buf@ == prefix@.subrange(0, i as int),
        decreases prefix@.len() - i,
    {
        buf.push(prefix[i]);
        i += 1;
    }
    assert(buf@ == prefix@);
    let ghost parts = data@.map_values(|p: &[u8]| p@);
    let mut k: usize = 0;
    while k < data.len()
        invariant
            0 <= k <= data@.len(),
            parts == data@.map_values(|p: &[u8]| p@),
            buf@ == prefix@ + concat(parts.subrange(0, k as int)),
        decreases data@.len() - k,
    {
        let part: &[u8] = data[k];
        let ghost before = buf@;
        let mut m: usize = 0;
        while m < part.len()
            invariant
                0 <= m <= part@.len(),
                buf@ == before + part@.subrange(0, m as int),
            decreases part@.len() - m,
        {
            buf.push(part[m]);
            m += 1;
        }
        proof {
            let s = parts.subrange(0, k + 1);
            assert(s.drop_last() =~= parts.subrange(0, k as int));
            assert(part@.subrange(0, m as int) =~= part@);
            assert(buf@ =~= prefix@ + concat(s));
        }
        k += 1;
    }
    assert(parts.subrange(0, data@.len() as int) =~= parts);
    blake3_digest(buf.as_slice())
}

/// The hash of a document as a leaf.
pub fn hash_leaf(doc_prefix: &[u8], doc: &[u8]) -> (r: Vec<u8>)
    ensures
        r@ == leaf_hash(doc_prefix@, doc@),
        r@.len() == 32,
{
    let parts: [&[u8]; 1] = [doc];
    let r = blake3(doc_prefix, parts.as_slice());
    proof {
        let ps = parts@.map_values(|p: &[u8]| p@);
        assert(parts@[0] == doc);
        assert(ps.len() == 1 && ps[0] == doc@);
        assert(ps.drop_last() =~= Seq::<Seq<u8>>::empty());
        assert(concat(ps.drop_last()) =~= Seq::<u8>::empty());
        assert(concat(ps) =~= doc@);
    }
    r
}

/// The hash of an internal node from its two children.
pub fn hash_node(node_prefix: &[u8], left: &[u8], right: &[u8]) -> (r: Vec<u8>)
    ensures
        r@ == node_hash(node_prefix@, left@, right@),
        r@.len() == 32,
{
    let parts: [&[u8]; 2] = [left, right];
    let r = blake3(node_prefix, parts.as_slice());
    proof {
        let ps = parts@.map_values(|p: &[u8]| p@);
        assert(parts@[0] == left && parts@[1] == right);
        assert(ps.len() == 2 && ps[0] == left@ && ps[1] == right@);
        assert(concat(ps.drop_last().drop_last()) =~= Seq::<u8>::empty());
        assert(ps.drop_last().drop_last() =~= Seq::<Seq<u8>>::empty());
        assert(concat(ps.drop_last()) =~= left@);
        assert(concat(ps) =~= left@ + right@);
        assert(node_prefix@ + concat(ps) =~= node_prefix@ + left@ + right@);
    }
    r
}

} // verus!
