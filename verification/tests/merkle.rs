use fast_merkle::hashing::{hash_inner, hash_leaf};
use fast_merkle::store::FileEntry;
use fast_merkle::tree::{get_file_hashes, verify_proof, FastMerkleNode, FastMerkleTree};

fn temp_db() -> sled::Db {
    sled::Config::new().temporary(true).open().unwrap()
}

fn entry(name: &[u8], content: &[u8]) -> FileEntry {
    FileEntry { name: name.to_vec(), content: content.to_vec() }
}

fn node(h: [u8; 32]) -> FastMerkleNode {
    FastMerkleNode { value: h }
}

#[test]
fn single_file_scenario() {
    // one file "a.txt" holding "A": the lone leaf is duplicated
    let h_a = hash_leaf(b"A");
    let expected_root = hash_inner(&h_a, &h_a);
    let root = FastMerkleTree::get_root_hash_from_leaves(vec![node(h_a)]);
    assert_eq!(root.value, expected_root);

    let mut db = temp_db();
    FastMerkleTree::build_merkle_tree(&mut db, &vec![entry(b"a.txt", b"A")]).unwrap();

    // the tree has 3 nodes
    let ts = db.get(b"tree_size").unwrap().unwrap();
    assert_eq!(ts.as_ref(), 3u64.to_le_bytes().as_slice());
    assert!(db.get(3u64.to_le_bytes()).unwrap().is_none());

    // the proof has one element: the duplicate leaf's hash, on the right
    let proof = FastMerkleTree::get_merkle_proof_from_db(&db, b"a.txt").unwrap();
    assert_eq!(proof.len(), 1);
    assert_eq!(proof[0].0, h_a.to_vec());
    assert_eq!(proof[0].1, false);

    let stored_root = fast_merkle::store::get_root_hash_from_db(&db).unwrap();
    assert_eq!(stored_root, expected_root.to_vec());
    assert!(verify_proof(b"A", &proof, &stored_root));
    assert!(!verify_proof(b"B", &proof, &stored_root));
}

#[test]
fn two_file_scenario() {
    // files "a" and "b" holding "A" and "B"
    let h_a = hash_leaf(b"A");
    let h_b = hash_leaf(b"B");
    let expected_root = hash_inner(&h_a, &h_b);
    let root = FastMerkleTree::get_root_hash_from_leaves(vec![node(h_a), node(h_b)]);
    assert_eq!(root.value, expected_root);

    let mut db = temp_db();
    FastMerkleTree::build_merkle_tree(&mut db, &vec![entry(b"a", b"A"), entry(b"b", b"B")])
        .unwrap();

    let proof_a = FastMerkleTree::get_merkle_proof_from_db(&db, b"a").unwrap();
    assert_eq!(proof_a, vec![(h_b.to_vec(), false)]);
    let proof_b = FastMerkleTree::get_merkle_proof_from_db(&db, b"b").unwrap();
    assert_eq!(proof_b, vec![(h_a.to_vec(), true)]);

    let stored_root = fast_merkle::store::get_root_hash_from_db(&db).unwrap();
    assert_eq!(stored_root, expected_root.to_vec());
    assert!(verify_proof(b"A", &proof_a, &stored_root));
    assert!(verify_proof(b"B", &proof_b, &stored_root));
}

#[test]
fn three_file_scenario() {
    // files "a", "b", "c": the third leaf is duplicated to make four
    let h_a = hash_leaf(b"A");
    let h_b = hash_leaf(b"B");
    let h_c = hash_leaf(b"C");
    let left = hash_inner(&h_a, &h_b);
    let right = hash_inner(&h_c, &h_c);
    let expected_root = hash_inner(&left, &right);

    let root =
        FastMerkleTree::get_root_hash_from_leaves(vec![node(h_a), node(h_b), node(h_c)]);
    assert_eq!(root.value, expected_root);

    let mut db = temp_db();
    let files = vec![entry(b"a", b"A"), entry(b"b", b"B"), entry(b"c", b"C")];
    FastMerkleTree::build_merkle_tree(&mut db, &files).unwrap();

    // seven nodes in the flat array
    let ts = db.get(b"tree_size").unwrap().unwrap();
    assert_eq!(ts.as_ref(), 7u64.to_le_bytes().as_slice());

    // every proof path has length 2
    for name in [b"a".as_slice(), b"b".as_slice(), b"c".as_slice()] {
        let proof = FastMerkleTree::get_merkle_proof_from_db(&db, name).unwrap();
        assert_eq!(proof.len(), 2);
    }

    // the proof for "c": its own duplicate, then the hash over "a" and "b"
    let proof_c = FastMerkleTree::get_merkle_proof_from_db(&db, b"c").unwrap();
    assert_eq!(proof_c, vec![(h_c.to_vec(), false), (left.to_vec(), true)]);

    let stored_root = fast_merkle::store::get_root_hash_from_db(&db).unwrap();
    assert_eq!(stored_root, expected_root.to_vec());
    assert!(verify_proof(b"C", &proof_c, &stored_root));
}

#[test]
fn commit_proof_verify_roundtrip() {
    // every committed file verifies against the stored root
    let names: [&[u8]; 5] = [b"one", b"two", b"three", b"four", b"five"];
    let contents: [&[u8]; 5] = [b"1", b"22", b"333", b"4444", b"55555"];
    let files: Vec<FileEntry> =
        names.iter().zip(contents.iter()).map(|(n, c)| entry(n, c)).collect();

    let mut db = temp_db();
    FastMerkleTree::build_merkle_tree(&mut db, &files).unwrap();
    let stored_root = fast_merkle::store::get_root_hash_from_db(&db).unwrap();

    for (name, content) in names.iter().zip(contents.iter()) {
        let proof = FastMerkleTree::get_merkle_proof_from_db(&db, name).unwrap();
        assert!(verify_proof(content, &proof, &stored_root));
    }
}

#[test]
fn tampered_bytes_rejected() {
    // change one byte of "b"'s content, verify against the untampered root
    let mut db = temp_db();
    let files = vec![entry(b"a", b"A"), entry(b"b", b"B"), entry(b"c", b"C")];
    FastMerkleTree::build_merkle_tree(&mut db, &files).unwrap();
    let stored_root = fast_merkle::store::get_root_hash_from_db(&db).unwrap();
    let proof_b = FastMerkleTree::get_merkle_proof_from_db(&db, b"b").unwrap();

    assert!(verify_proof(b"B", &proof_b, &stored_root));
    assert!(!verify_proof(b"b", &proof_b, &stored_root));
}

#[test]
fn tampered_root_rejected() {
    let mut db = temp_db();
    let files = vec![entry(b"a", b"A"), entry(b"b", b"B")];
    FastMerkleTree::build_merkle_tree(&mut db, &files).unwrap();
    let stored_root = fast_merkle::store::get_root_hash_from_db(&db).unwrap();
    let proof = FastMerkleTree::get_merkle_proof_from_db(&db, b"a").unwrap();

    let mut wrong_root = stored_root.clone();
    wrong_root[0] ^= 0x01;
    assert!(verify_proof(b"A", &proof, &stored_root));
    assert!(!verify_proof(b"A", &proof, &wrong_root));
}

#[test]
fn tampered_path_rejected() {
    let mut db = temp_db();
    let files = vec![entry(b"a", b"A"), entry(b"b", b"B"), entry(b"c", b"C")];
    FastMerkleTree::build_merkle_tree(&mut db, &files).unwrap();
    let stored_root = fast_merkle::store::get_root_hash_from_db(&db).unwrap();
    let proof = FastMerkleTree::get_merkle_proof_from_db(&db, b"a").unwrap();
    assert!(verify_proof(b"A", &proof, &stored_root));

    // one bit of a sibling hash changed
    let mut flipped_byte = proof.clone();
    flipped_byte[0].0[0] ^= 0x01;
    assert!(!verify_proof(b"A", &flipped_byte, &stored_root));

    // one side flag flipped
    let mut flipped_side = proof.clone();
    flipped_side[1].1 = !flipped_side[1].1;
    assert!(!verify_proof(b"A", &flipped_side, &stored_root));

    // one element removed
    let mut shortened = proof.clone();
    shortened.pop();
    assert!(!verify_proof(b"A", &shortened, &stored_root));

    // one element duplicated
    let mut lengthened = proof.clone();
    let last = lengthened.last().unwrap().clone();
    lengthened.push(last);
    assert!(!verify_proof(b"A", &lengthened, &stored_root));
}

#[test]
fn reorder_changes_root() {
    // committing ["a","b"] and then ["b","a"] must give different roots
    let mut db = temp_db();
    FastMerkleTree::build_merkle_tree(&mut db, &vec![entry(b"a", b"A"), entry(b"b", b"B")])
        .unwrap();
    let first_root = fast_merkle::store::get_root_hash_from_db(&db).unwrap();

    FastMerkleTree::build_merkle_tree(&mut db, &vec![entry(b"b", b"B"), entry(b"a", b"A")])
        .unwrap();
    let second_root = fast_merkle::store::get_root_hash_from_db(&db).unwrap();

    assert_ne!(first_root, second_root);
}

#[test]
fn repeated_commit_same_root() {
    // two commits of the same files produce the same root
    let files = vec![entry(b"a", b"A"), entry(b"b", b"B"), entry(b"c", b"C")];
    let mut db = temp_db();
    FastMerkleTree::build_merkle_tree(&mut db, &files).unwrap();
    let first_root = fast_merkle::store::get_root_hash_from_db(&db).unwrap();
    FastMerkleTree::build_merkle_tree(&mut db, &files).unwrap();
    let second_root = fast_merkle::store::get_root_hash_from_db(&db).unwrap();
    assert_eq!(first_root, second_root);
}

#[test]
fn odd_leaf_duplication() {
    // an odd commitment equals the same commitment with its last leaf repeated
    let h_a = hash_leaf(b"A");
    let h_b = hash_leaf(b"B");
    let h_c = hash_leaf(b"C");

    let odd = FastMerkleTree::get_root_hash_from_leaves(vec![node(h_a)]);
    let doubled = FastMerkleTree::get_root_hash_from_leaves(vec![node(h_a), node(h_a)]);
    assert_eq!(odd.value, doubled.value);

    let three =
        FastMerkleTree::get_root_hash_from_leaves(vec![node(h_a), node(h_b), node(h_c)]);
    let four = FastMerkleTree::get_root_hash_from_leaves(vec![
        node(h_a),
        node(h_b),
        node(h_c),
        node(h_c),
    ]);
    assert_eq!(three.value, four.value);
}

#[test]
fn domain_separation() {
    // the leaf hash of the byte string leaf-tag ‖ inner-tag ‖ H1 ‖ H2 must
    // differ from the inner hash of H1 and H2
    let h1 = hash_leaf(b"left");
    let h2 = hash_leaf(b"right");
    let mut x: Vec<u8> = Vec::new();
    x.extend_from_slice(&[1u8, 0, 0, 0]);
    x.extend_from_slice(&[2u8, 0, 0, 0]);
    x.extend_from_slice(&h1);
    x.extend_from_slice(&h2);
    assert_ne!(hash_leaf(&x), hash_inner(&h1, &h2));
}

#[test]
fn leaf_hashes_follow_input_order() {
    let contents = vec![b"A".to_vec(), b"B".to_vec(), b"".to_vec()];
    let hashes = get_file_hashes(&contents);
    assert_eq!(hashes.len(), 3);
    assert_eq!(hashes[0].value, hash_leaf(b"A"));
    assert_eq!(hashes[1].value, hash_leaf(b"B"));
    assert_eq!(hashes[2].value, hash_leaf(b""));
    // hashing is order-sensitive and never the identity
    assert_ne!(hash_leaf(b"AB"), hash_leaf(b"BA"));
    assert_ne!(hashes[0].value, hashes[1].value);
}

#[test]
fn default_node_is_zero() {
    assert_eq!(FastMerkleNode::default().value, [0u8; 32]);
}
