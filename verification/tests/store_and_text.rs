use fast_merkle::store::{clear_db, get_root_hash_from_db, FileEntry, StoreError};
use fast_merkle::text::{clean_file_name, hex_string};
use fast_merkle::tree::FastMerkleTree;

fn temp_db() -> sled::Db {
    sled::Config::new().temporary(true).open().unwrap()
}

fn entry(name: &[u8], content: &[u8]) -> FileEntry {
    FileEntry { name: name.to_vec(), content: content.to_vec() }
}

#[test]
fn empty_store_reports_no_commitment() {
    let db = temp_db();
    let err = FastMerkleTree::get_merkle_proof_from_db(&db, b"anything").unwrap_err();
    assert_eq!(err, StoreError::NoCommitment);
    assert_eq!(get_root_hash_from_db(&db).unwrap_err(), StoreError::NoCommitment);
}

#[test]
fn unknown_file_reports_unknown() {
    let mut db = temp_db();
    FastMerkleTree::build_merkle_tree(&mut db, &vec![entry(b"known", b"data")]).unwrap();
    let err = FastMerkleTree::get_merkle_proof_from_db(&db, b"unknown").unwrap_err();
    assert_eq!(err, StoreError::UnknownFile);
}

#[test]
fn cleared_store_reports_no_commitment() {
    let mut db = temp_db();
    FastMerkleTree::build_merkle_tree(&mut db, &vec![entry(b"known", b"data")]).unwrap();
    assert!(FastMerkleTree::get_merkle_proof_from_db(&db, b"known").is_ok());
    clear_db(&mut db).unwrap();
    let err = FastMerkleTree::get_merkle_proof_from_db(&db, b"known").unwrap_err();
    assert_eq!(err, StoreError::NoCommitment);
}

#[test]
fn malformed_entries_report_corrupt() {
    // a node count that is not 8 bytes long is not a commitment
    let db = temp_db();
    db.insert(b"tree_size", &[1u8, 0, 0][..]).unwrap();
    let err = FastMerkleTree::get_merkle_proof_from_db(&db, b"any").unwrap_err();
    assert_eq!(err, StoreError::Corrupt);

    // a well-formed node count without the rest is corrupt once the file is found
    let db = temp_db();
    db.insert(b"tree_size", &3u64.to_le_bytes()[..]).unwrap();
    let mut name_key = b"filename:".to_vec();
    name_key.extend_from_slice(b"f");
    db.insert(name_key, &0u64.to_le_bytes()[..]).unwrap();
    let err = FastMerkleTree::get_merkle_proof_from_db(&db, b"f").unwrap_err();
    assert_eq!(err, StoreError::Corrupt);
}

#[test]
fn filename_keys_cannot_shadow_reserved_keys() {
    // a file literally named "tree_size" lands under a prefixed key and
    // leaves the real node count untouched
    let mut db = temp_db();
    FastMerkleTree::build_merkle_tree(
        &mut db,
        &vec![entry(b"tree_size", b"X"), entry(b"num_of_files", b"Y")],
    )
    .unwrap();
    let ts = db.get(b"tree_size").unwrap().unwrap();
    assert_eq!(ts.as_ref(), 3u64.to_le_bytes().as_slice());
    let nf = db.get(b"num_of_files").unwrap().unwrap();
    assert_eq!(nf.as_ref(), 2u64.to_le_bytes().as_slice());

    let stored_root = get_root_hash_from_db(&db).unwrap();
    let proof = FastMerkleTree::get_merkle_proof_from_db(&db, b"tree_size").unwrap();
    assert!(fast_merkle::tree::verify_proof(b"X", &proof, &stored_root));
}

#[test]
fn clean_file_name_replaces_and_trims() {
    assert_eq!(clean_file_name(b"  my file?.txt "), b"my_file_.txt".to_vec());
    assert_eq!(clean_file_name(b"plain-name_1.TXT"), b"plain-name_1.TXT".to_vec());
    assert_eq!(clean_file_name(b"a/b\\c"), b"a_b_c".to_vec());
    assert_eq!(clean_file_name(b"   "), Vec::<u8>::new());
}

#[test]
fn pretty_proof_renders_hex() {
    assert_eq!(hex_string(&[0x00, 0xab, 0x1f]), "00ab1f".to_string());
    let proof = vec![(vec![0x00u8, 0xffu8], true), (vec![0x5au8], false)];
    let pretty = FastMerkleTree::pretty_merkle_proof(proof);
    assert_eq!(pretty.len(), 2);
    assert_eq!(pretty[0].0, "00ff".to_string());
    assert_eq!(pretty[0].1, true);
    assert_eq!(pretty[1].0, "5a".to_string());
    assert_eq!(pretty[1].1, false);
}
