use merkle_tree::hash::{blake3, hash_leaf, hash_node};
use merkle_tree::inclusion::{entry_line, parse_line, Direction};
use merkle_tree::text::{
    format_decimal, join_lines, parse_usize, split_colons, split_lines, take_first_line,
};
use merkle_tree::tree::{is_even, max_layer, MerkleTree, NodeStore, Prefixes, TreeError};

fn leaf(d: &[u8]) -> Vec<u8> {
    let mut input = b"3C3C3C3C".to_vec();
    input.extend_from_slice(d);
    blake3::hash(&input).as_bytes().to_vec()
}

fn node(l: &[u8], r: &[u8]) -> Vec<u8> {
    let mut input = b"F5F5F5F5".to_vec();
    input.extend_from_slice(l);
    input.extend_from_slice(r);
    blake3::hash(&input).as_bytes().to_vec()
}

fn docs(n: usize) -> Vec<Vec<u8>> {
    (0..n).map(|i| format!("document number {}", i).into_bytes()).collect()
}

fn built(n: usize) -> (MerkleTree, NodeStore) {
    let tree = MerkleTree::new(n);
    let store = tree.build(&Prefixes::standard(), &docs(n));
    (tree, store)
}

fn root(tree: &MerkleTree, store: &NodeStore) -> Vec<u8> {
    store.layers[tree.max_layer()][0].clone()
}

fn header(tree: &MerkleTree, store: &NodeStore) -> Vec<u8> {
    let text = tree.store(&Prefixes::standard(), store).unwrap();
    take_first_line(&text)
}

fn flip_bit(v: &[u8], byte: usize, bit: u8) -> Vec<u8> {
    let mut w = v.to_vec();
    w[byte] ^= 1 << bit;
    w
}

/// Reference root computed independently, level by level with plain Rust.
fn reference_root(ds: &[Vec<u8>]) -> Vec<u8> {
    let mut level: Vec<Vec<u8>> = ds.iter().map(|d| leaf(d)).collect();
    while level.len() > 1 {
        level = level
            .chunks(2)
            .map(|c| node(&c[0], if c.len() > 1 { &c[1] } else { &[] }))
            .collect();
    }
    level[0].clone()
}

#[test]
fn max_layer_values() {
    assert_eq!(max_layer(0), 0);
    assert_eq!(max_layer(1), 0);
    assert_eq!(max_layer(2), 1);
    assert_eq!(max_layer(3), 2);
    assert_eq!(max_layer(4), 2);
    assert_eq!(max_layer(5), 3);
    assert_eq!(max_layer(8), 3);
    assert_eq!(max_layer(9), 4);
    assert_eq!(max_layer(usize::MAX), 64);
}

#[test]
fn even_numbers() {
    assert!(is_even(0));
    assert!(!is_even(1));
    assert!(is_even(10));
    assert!(!is_even(usize::MAX));
}

#[test]
fn descriptor_getters() {
    let t = MerkleTree::new(5);
    assert_eq!(t.elements(), 5);
    assert_eq!(t.max_layer(), 3);
}

#[test]
fn hashing_is_domain_separated() {
    let h = blake3(b"ab", &[b"cd", b"ef"]);
    assert_eq!(h, blake3::hash(b"abcdef").as_bytes().to_vec());
    assert_eq!(hash_leaf(b"3C3C3C3C", b"x"), leaf(b"x"));
    assert_eq!(hash_node(b"F5F5F5F5", b"x", b"y"), node(b"x", b"y"));
    assert_ne!(hash_leaf(b"3C3C3C3C", b"x"), hash_leaf(b"F5F5F5F5", b"x"));
}

#[test]
fn three_documents_scenario() {
    let ds = docs(3);
    let (tree, store) = built(3);
    let l0 = leaf(&ds[0]);
    let l1 = leaf(&ds[1]);
    let l2 = leaf(&ds[2]);
    let left_parent = node(&l0, &l1);
    let right_parent = node(&l2, b"");
    let r = node(&left_parent, &right_parent);
    assert_eq!(tree.max_layer(), 2);
    assert_eq!(store.layers.len(), 3);
    assert_eq!(store.layers[0], vec![l0, l1, l2.clone()]);
    assert_eq!(store.layers[1], vec![left_parent.clone(), right_parent]);
    assert_eq!(store.layers[2], vec![r]);
    let lines = tree.gen_proof(2, &store).unwrap();
    assert_eq!(lines, vec![b"R".to_vec(), format!("L{}", hex::encode(&left_parent)).into_bytes()]);
    let h = header(&tree, &store);
    assert_eq!(MerkleTree::verify_proof_lines(&h, &ds[2], &lines), Ok(true));
}

#[test]
fn build_matches_reference_root() {
    for n in 1..20 {
        let (tree, store) = built(n);
        assert_eq!(root(&tree, &store), reference_root(&docs(n)), "n = {}", n);
    }
}

#[test]
fn build_twice_is_identical() {
    let (tree, a) = built(7);
    let (_, b) = built(7);
    assert_eq!(a.layers, b.layers);
    let pf = Prefixes::standard();
    assert_eq!(tree.store(&pf, &a).unwrap(), tree.store(&pf, &b).unwrap());
}

#[test]
fn append_equals_rebuild() {
    let pf = Prefixes::standard();
    for n in 0..20 {
        let ds = docs(n + 1);
        let mut tree = MerkleTree::new(n);
        let mut store = tree.build(&pf, &ds[..n].to_vec());
        tree.add_doc(&pf, n, &ds[n], &mut store).unwrap();
        let (full, full_store) = built(n + 1);
        assert_eq!(tree.elements(), n + 1);
        assert_eq!(tree.max_layer(), full.max_layer());
        assert_eq!(store.layers, full_store.layers, "n = {}", n);
    }
}

#[test]
fn every_proof_verifies() {
    for n in 1..18 {
        let ds = docs(n);
        let (tree, store) = built(n);
        let h = header(&tree, &store);
        for idx in 0..n {
            let lines = tree.gen_proof(idx, &store).unwrap();
            assert_eq!(lines.len(), tree.max_layer());
            assert_eq!(MerkleTree::verify_proof_lines(&h, &ds[idx], &lines), Ok(true));
        }
    }
}

#[test]
fn tampering_is_detected() {
    let n = 6;
    let ds = docs(n);
    let (tree, store) = built(n);
    let h = header(&tree, &store);
    let idx = 3;
    let lines = tree.gen_proof(idx, &store).unwrap();
    let bad_doc = flip_bit(&ds[idx], 0, 0);
    assert_eq!(MerkleTree::verify_proof_lines(&h, &bad_doc, &lines), Ok(false));
    for k in 0..lines.len() {
        let e = parse_line(&lines[k]).unwrap();
        if !e.sibling.is_empty() {
            let mut changed = lines.clone();
            changed[k] = entry_line(e.direction, &flip_bit(&e.sibling, 5, 3));
            assert_eq!(MerkleTree::verify_proof_lines(&h, &ds[idx], &changed), Ok(false));
        }
        let mut swapped = lines.clone();
        let other = if e.direction == Direction::Left { Direction::Right } else { Direction::Left };
        swapped[k] = entry_line(other, &e.sibling);
        assert_eq!(MerkleTree::verify_proof_lines(&h, &ds[idx], &swapped), Ok(false));
    }
}

#[test]
fn single_document_tree() {
    let ds = docs(1);
    let (tree, store) = built(1);
    assert_eq!(tree.max_layer(), 0);
    assert_eq!(root(&tree, &store), leaf(&ds[0]));
    let lines = tree.gen_proof(0, &store).unwrap();
    assert!(lines.is_empty());
    let h = header(&tree, &store);
    assert_eq!(MerkleTree::verify_proof_lines(&h, &ds[0], &lines), Ok(true));
}

#[test]
fn summary_text() {
    let (tree, store) = built(3);
    let text = tree.store(&Prefixes::standard(), &store).unwrap();
    let text = String::from_utf8(text).unwrap();
    let lines: Vec<&str> = text.lines().collect();
    let r = hex::encode(&store.layers[2][0]);
    assert_eq!(lines[0], format!("MerkleTree:blake3:3C3C3C3C:F5F5F5F5:3:3:{}", r));
    assert_eq!(lines.len(), 1 + 3 + 2 + 1);
    assert_eq!(lines[1], format!("0:0:{}", hex::encode(&store.layers[0][0])));
    assert_eq!(lines[5], format!("1:1:{}", hex::encode(&store.layers[1][1])));
    assert_eq!(lines[6], format!("2:0:{}", r));
    assert!(text.ends_with('\n'));
}

#[test]
fn summary_needs_root() {
    let tree = MerkleTree::new(3);
    let store = NodeStore { layers: vec![vec![vec![1u8]]] };
    assert_eq!(tree.store(&Prefixes::standard(), &store), Err(TreeError::CorruptedStore));
    let empty_tree = MerkleTree::new(0);
    let empty = empty_tree.build(&Prefixes::standard(), &Vec::new());
    assert_eq!(empty_tree.store(&Prefixes::standard(), &empty), Err(TreeError::CorruptedStore));
}

#[test]
fn load_reads_document_count() {
    let (tree, store) = built(5);
    let text = tree.store(&Prefixes::standard(), &store).unwrap();
    let loaded = MerkleTree::load(&text).unwrap();
    assert_eq!(loaded.elements(), 5);
    assert_eq!(loaded.max_layer(), 3);
    assert_eq!(MerkleTree::load(b"a:b:c:d:+12:x\r\nrest").unwrap().elements(), 12);
    assert!(MerkleTree::load(b"a:b:c:d").is_none());
    assert!(MerkleTree::load(b"a:b:c:d:x1:y").is_none());
    assert!(MerkleTree::load(b"a:b:c:d:99999999999999999999999").is_none());
    assert!(MerkleTree::load(b"").is_none());
}

#[test]
fn verify_errors() {
    let ds = docs(2);
    let (tree, store) = built(2);
    let lines = tree.gen_proof(0, &store).unwrap();
    let h = header(&tree, &store);
    let short = b"MerkleTree:blake3:3C3C3C3C".to_vec();
    assert_eq!(MerkleTree::verify_proof_lines(&short, &ds[0], &lines), Err(TreeError::Format));
    let other = String::from_utf8(h.clone()).unwrap().replace("blake3", "sha256").into_bytes();
    assert_eq!(MerkleTree::verify_proof_lines(&other, &ds[0], &lines), Err(TreeError::UnsupportedAlgorithm));
    let bad_tag = vec![b"X00".to_vec()];
    assert_eq!(MerkleTree::verify_proof_lines(&h, &ds[0], &bad_tag), Err(TreeError::Format));
    let bad_hex = vec![b"Rzz".to_vec()];
    assert_eq!(MerkleTree::verify_proof_lines(&h, &ds[0], &bad_hex), Err(TreeError::Format));
    let odd_hex = vec![b"L0".to_vec()];
    assert_eq!(MerkleTree::verify_proof_lines(&h, &ds[0], &odd_hex), Err(TreeError::Format));
    let empty_line = vec![Vec::new()];
    assert_eq!(MerkleTree::verify_proof_lines(&h, &ds[0], &empty_line), Err(TreeError::Format));
}

#[test]
fn proof_lines_parse() {
    let e = parse_line(b"LaBcD").unwrap();
    assert_eq!(e.direction, Direction::Left);
    assert_eq!(e.sibling, vec![0xab, 0xcd]);
    let e = parse_line(b"R").unwrap();
    assert_eq!(e.direction, Direction::Right);
    assert!(e.sibling.is_empty());
    assert_eq!(entry_line(Direction::Left, &[0xab, 0x01]), b"Lab01".to_vec());
    assert_eq!(entry_line(Direction::Right, &[]), b"R".to_vec());
}

#[test]
fn corrupted_store_is_reported() {
    let pf = Prefixes::standard();
    let ds = docs(4);
    let mut tree = MerkleTree::new(3);
    let mut store = NodeStore { layers: vec![vec![leaf(&ds[0])]] };
    assert_eq!(tree.add_doc(&pf, 3, &ds[3], &mut store), Err(TreeError::CorruptedStore));
    assert_eq!(tree.elements(), 3);
    let t3 = MerkleTree::new(3);
    let no_leaves = NodeStore { layers: Vec::new() };
    assert_eq!(t3.gen_proof(1, &no_leaves), Err(TreeError::CorruptedStore));
    let partial = NodeStore { layers: vec![vec![leaf(&ds[0])]] };
    assert_eq!(t3.gen_proof(1, &partial).unwrap(), vec![format!("L{}", hex::encode(leaf(&ds[0]))).into_bytes(), b"R".to_vec()]);
}

#[test]
fn text_helpers() {
    assert_eq!(format_decimal(0), b"0".to_vec());
    assert_eq!(format_decimal(1234), b"1234".to_vec());
    assert_eq!(format_decimal(usize::MAX), usize::MAX.to_string().into_bytes());
    assert_eq!(parse_usize(b"0042"), Some(42));
    assert_eq!(parse_usize(b"+7"), Some(7));
    assert_eq!(parse_usize(b"+"), None);
    assert_eq!(parse_usize(b""), None);
    assert_eq!(parse_usize(b"-1"), None);
    assert_eq!(parse_usize(b"18446744073709551615"), Some(usize::MAX));
    assert_eq!(parse_usize(b"18446744073709551616"), None);
    assert_eq!(split_colons(b"a::b"), vec![b"a".to_vec(), Vec::new(), b"b".to_vec()]);
    assert_eq!(split_colons(b""), vec![Vec::<u8>::new()]);
    assert_eq!(take_first_line(b"one\r\ntwo"), b"one".to_vec());
}

#[test]
fn proof_text_round_trip() {
    let ds = docs(5);
    let (tree, store) = built(5);
    let h = header(&tree, &store);
    let lines = tree.gen_proof(4, &store).unwrap();
    let text = join_lines(&lines);
    assert_eq!(split_lines(&text), lines);
    assert_eq!(MerkleTree::verify_proof(&h, &ds[4], &text), Ok(true));
    let crlf = String::from_utf8(text.clone()).unwrap().replace('\n', "\r\n").into_bytes();
    assert_eq!(MerkleTree::verify_proof(&h, &ds[4], &crlf), Ok(true));
    assert_eq!(MerkleTree::verify_proof(&h, &ds[3], &text), Ok(false));
}

#[test]
fn line_splitting() {
    assert_eq!(split_lines(b""), Vec::<Vec<u8>>::new());
    assert_eq!(split_lines(b"a\n\nb"), vec![b"a".to_vec(), Vec::new(), b"b".to_vec()]);
    assert_eq!(split_lines(b"a\r\nb\r"), vec![b"a".to_vec(), b"b\r".to_vec()]);
    assert_eq!(join_lines(&vec![b"x".to_vec(), Vec::new()]), b"x\n\n".to_vec());
    assert_eq!(take_first_line(b"abc\r"), b"abc\r".to_vec());
}

#[test]
fn root_is_compared_as_bytes() {
    let ds = docs(4);
    let (tree, store) = built(4);
    let lines = tree.gen_proof(1, &store).unwrap();
    let root_hex = hex::encode(root(&tree, &store));
    let upper = format!("MerkleTree:blake3:3C3C3C3C:F5F5F5F5:4:3:{}", root_hex.to_uppercase());
    assert_eq!(MerkleTree::verify_proof_lines(upper.as_bytes(), &ds[1], &lines), Ok(true));
    let not_hex = b"MerkleTree:blake3:3C3C3C3C:F5F5F5F5:4:3:xyz".to_vec();
    assert_eq!(MerkleTree::verify_proof_lines(&not_hex, &ds[1], &lines), Err(TreeError::Format));
    let odd = format!("MerkleTree:blake3:3C3C3C3C:F5F5F5F5:4:3:{}0", root_hex);
    assert_eq!(MerkleTree::verify_proof_lines(odd.as_bytes(), &ds[1], &lines), Err(TreeError::Format));
}

#[test]
fn append_to_store_without_layers() {
    let pf = Prefixes::standard();
    let ds = docs(1);
    let mut tree = MerkleTree::new(0);
    let mut store = NodeStore { layers: Vec::new() };
    tree.add_doc(&pf, 0, &ds[0], &mut store).unwrap();
    let (_, full) = built(1);
    assert_eq!(tree.elements(), 1);
    assert_eq!(tree.max_layer(), 0);
    assert_eq!(store.layers, full.layers);
}

#[test]
fn append_with_missing_left_node() {
    let pf = Prefixes::standard();
    let ds = docs(4);
    let (_, full) = built(3);
    let mut tree = MerkleTree::new(3);
    let mut store = NodeStore { layers: vec![full.layers[0].clone(), Vec::new()] };
    assert_eq!(tree.add_doc(&pf, 3, &ds[3], &mut store), Err(TreeError::CorruptedStore));
    assert_eq!(tree.elements(), 3);
}

#[test]
fn layer_sizes_of_trees() {
    assert_eq!(MerkleTree::new(0).layer_sizes(), vec![0]);
    assert_eq!(MerkleTree::new(1).layer_sizes(), vec![1]);
    assert_eq!(MerkleTree::new(5).layer_sizes(), vec![5, 3, 2, 1]);
    assert_eq!(MerkleTree::new(8).layer_sizes(), vec![8, 4, 2, 1]);
    let (tree, store) = built(11);
    let lens: Vec<usize> = store.layers.iter().map(|l| l.len()).collect();
    assert_eq!(tree.layer_sizes(), lens);
}

#[test]
fn summary_twice_is_identical() {
    let pf = Prefixes::standard();
    let (tree, a) = built(9);
    let (_, b) = built(9);
    let first = tree.summary(&pf, &a).unwrap();
    assert_eq!(first, tree.summary(&pf, &b).unwrap());
    assert_eq!(first.len(), 1 + 9 + 5 + 3 + 2 + 1);
}
