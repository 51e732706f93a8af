//! The proof store: persistence of the tree, the leaf ordering and the leaf
//! count in a key/value store, and the O(log n) proof query against it.
//!
//! The layout: the node at tree index `i` sits under `i` encoded as 8
//! little-endian bytes; the total node count sits under the literal key
//! `tree_size`, written last so that a torn commit leaves no commitment
//! behind; the original leaf count sits under `num_of_files`; and each
//! filename's zero-based leaf index sits under the filename prefixed with
//! `filename:`. The prefix keeps filename keys at 9 bytes or more, so they
//! can collide neither with the 8-byte node keys nor with the two reserved
//! keys, which start with other letters.

use vstd::prelude::*;
use vstd::bytes::{
    lemma_auto_spec_u64_to_from_le_bytes,
    spec_u64_from_le_bytes,
    spec_u64_to_le_bytes,
    u64_from_le_bytes,
    u64_to_le_bytes,
};
use crate::hashing::{leaf_hash_of, hash_leaf, push_bytes};
use crate::tree::{
    ceil_even,
    FastMerkleNode,
    FastMerkleTree,
    node_hash,
    node_views,
    pad_leaves,
    path_view,
};

verus! {

#[verifier::external_type_specification]
#[verifier::external_body]
pub struct ExDb(sled::Db);

#[verifier::external_type_specification]
#[verifier::external_body]
pub struct ExSledError(sled::Error);

/// What the key/value store holds: a map from key bytes to value bytes.
pub uninterp spec fn db_contents(db: sled::Db) -> Map<Seq<u8>, Seq<u8>>;

/// Relies on sled::Tree::insert (reached through Db): it maps `key` to
/// `value` and leaves every other key unchanged.
#[verifier::external_body]
fn db_put(db: &mut sled::Db, key: &[u8], value: &[u8]) -> (r: Result<(), sled::Error>)
    ensures
        r is Ok ==> db_contents(*final(db)) == db_contents(*old(db)).insert(key@, value@),
{
    match db.insert(key, value) {
        Ok(_) => Ok(()),
        Err(e) => Err(e),
    }
}

/// Relies on sled::Tree::get: it returns the value stored under `key`, if
/// there is one.
#[verifier::external_body]
fn db_get(db: &sled::Db, key: &[u8]) -> (r: Result<Option<Vec<u8>>, sled::Error>)
    ensures
        match r {
            Ok(Some(v)) => db_contents(*db).contains_key(key@) && v@ == db_contents(*db)[key@],
            Ok(None) => !db_contents(*db).contains_key(key@),
            Err(_) => true,
        },
{
    match db.get(key) {
        Ok(Some(v)) => Ok(Some(v.to_vec())),
        Ok(None) => Ok(None),
        Err(e) => Err(e),
    }
}

/// The contents of a store holding nothing.
pub open spec fn empty_contents() -> Map<Seq<u8>, Seq<u8>> {
    Map::empty()
}

/// Relies on sled::Tree::clear: on success it has removed every key.
#[verifier::external_body]
fn db_clear(db: &mut sled::Db) -> (r: Result<(), sled::Error>)
    ensures
        r is Ok ==> db_contents(*final(db)) == empty_contents(),
{
    match db.clear() {
        Ok(()) => Ok(()),
        Err(e) => Err(e),
    }
}

/// Why a store operation failed.
#[derive(Clone, Copy, PartialEq, Eq, Structural, Debug)]
pub enum StoreError {
    /// The store holds no commitment: no node count is recorded.
    NoCommitment,
    /// The store holds a commitment, but not for this filename.
    UnknownFile,
    /// The persisted entries do not form a well-shaped commitment.
    Corrupt,
    /// The underlying key/value store failed.
    Backend,
}

/// One file handed to a commit: its name and its full contents.
pub struct FileEntry {
    pub name: Vec<u8>,
    pub content: Vec<u8>,
}

/// The names of a list of files, in order.
pub open spec fn file_names(files: Seq<FileEntry>) -> Seq<Seq<u8>> {
    Seq::new(files.len(), |i: int| files[i].name@)
}

/// The contents of a list of files, in order.
pub open spec fn file_datas(files: Seq<FileEntry>) -> Seq<Seq<u8>> {
    Seq::new(files.len(), |i: int| files[i].content@)
}

/// Pairwise-distinct byte strings.
pub open spec fn distinct_seqs(s: Seq<Seq<u8>>) -> bool {
    forall|i: int, j: int| 0 <= i < j < s.len() ==> s[i] != s[j]
}

/// The leaf hash of each file's contents, in order.
pub open spec fn leaf_hashes_of(datas: Seq<Seq<u8>>) -> Seq<Seq<u8>> {
    Seq::new(datas.len(), |i: int| leaf_hash_of(datas[i]))
}

/// The key under which the node at tree index `i` is stored: `i` as 8
/// little-endian bytes.
pub open spec fn node_key(i: int) -> Seq<u8> {
    spec_u64_to_le_bytes(i as u64)
}

/// The reserved key `tree_size`, holding the total node count.
pub open spec fn tree_size_key() -> Seq<u8> {
    seq![116u8, 114u8, 101u8, 101u8, 95u8, 115u8, 105u8, 122u8, 101u8]
}

/// The reserved key `num_of_files`, holding the pre-duplication leaf count.
pub open spec fn num_files_key() -> Seq<u8> {
    seq![110u8, 117u8, 109u8, 95u8, 111u8, 102u8, 95u8, 102u8, 105u8, 108u8, 101u8, 115u8]
}

/// The namespace prefix `filename:` that starts every filename key.
pub open spec fn name_prefix() -> Seq<u8> {
    seq![102u8, 105u8, 108u8, 101u8, 110u8, 97u8, 109u8, 101u8, 58u8]
}

/// The key under which a filename's leaf index is stored.
pub open spec fn name_key(name: Seq<u8>) -> Seq<u8> {
    name_prefix() + name
}

fn node_key_bytes(i: u64) -> (k: Vec<u8>)
    ensures
        k@ == node_key(i as int),
{
    u64_to_le_bytes(i)
}

fn tree_size_key_bytes() -> (k: Vec<u8>)
    ensures
        k@ == tree_size_key(),
{
    let k = vec![116u8, 114u8, 101u8, 101u8, 95u8, 115u8, 105u8, 122u8, 101u8];
    assert(k@ =~= tree_size_key());
    k
}

fn num_files_key_bytes() -> (k: Vec<u8>)
    ensures
        k@ == num_files_key(),
{
    let k = vec![110u8, 117u8, 109u8, 95u8, 111u8, 102u8, 95u8, 102u8, 105u8, 108u8, 101u8, 115u8];
    assert(k@ =~= num_files_key());
    k
}

fn name_key_bytes(name: &[u8]) -> (k: Vec<u8>)
    ensures
        k@ == name_key(name@),
{
    let mut k = vec![102u8, 105u8, 108u8, 101u8, 110u8, 97u8, 109u8, 101u8, 58u8];
    assert(k@ =~= name_prefix());
    push_bytes(&mut k, name);
    k
}

/// Distinct tree indexes are stored under distinct keys.
pub proof fn lemma_node_key_injective(i: int, j: int)
    requires
        0 <= i <= u64::MAX,
        0 <= j <= u64::MAX,
        i != j,
    ensures
        node_key(i) != node_key(j),
{
    lemma_auto_spec_u64_to_from_le_bytes();
}

/// A node key is 8 bytes long; every other kind of key is longer, and the
/// reserved keys and filename keys start with distinct bytes, so no two
/// kinds of key can collide.
pub proof fn lemma_key_kinds_disjoint(i: int, name: Seq<u8>)
    ensures
        node_key(i).len() == 8,
        name_key(name).len() == 9 + name.len(),
        node_key(i) != tree_size_key(),
        node_key(i) != num_files_key(),
        node_key(i) != name_key(name),
        name_key(name) != tree_size_key(),
        name_key(name) != num_files_key(),
        tree_size_key() != num_files_key(),
{
    lemma_auto_spec_u64_to_from_le_bytes();
    assert(name_key(name)[0] == 102);
    assert(tree_size_key()[0] == 116);
    assert(num_files_key()[0] == 110);
}

/// Distinct filenames are stored under distinct keys.
pub proof fn lemma_name_key_injective(a: Seq<u8>, b: Seq<u8>)
    requires
        a != b,
    ensures
        name_key(a) != name_key(b),
{
    if name_key(a) == name_key(b) {
        assert(name_key(a).skip(9) =~= a);
        assert(name_key(b).skip(9) =~= b);
    }
}

/// The filename→index entries for `names`, laid over `base`: the entry for
/// `names[j]` holds `j` as 8 little-endian bytes.
pub open spec fn with_file_list(base: Map<Seq<u8>, Seq<u8>>, names: Seq<Seq<u8>>) -> Map<
    Seq<u8>,
    Seq<u8>,
>
    decreases names.len(),
{
    if names.len() == 0 {
        base
    } else {
        with_file_list(base, names.drop_last()).insert(
            name_key(names.last()),
            spec_u64_to_le_bytes((names.len() - 1) as u64),
        )
    }
}

/// The node entries for tree indexes `[0, count)` with values `nodes[i]`,
/// laid over `base`.
pub open spec fn with_nodes(
    base: Map<Seq<u8>, Seq<u8>>,
    nodes: Seq<Seq<u8>>,
    count: int,
) -> Map<Seq<u8>, Seq<u8>>
    decreases count,
{
    if count <= 0 {
        base
    } else {
        with_nodes(base, nodes, count - 1).insert(node_key(count - 1), nodes[count - 1])
    }
}

/// The hash of every node of the tree over the (padded) leaf hashes, by
/// flat-array index.
pub open spec fn tree_nodes(padded: Seq<Seq<u8>>) -> Seq<Seq<u8>> {
    Seq::new((2 * padded.len() - 1) as nat, |i: int| node_hash(padded, i))
}

/// Everything a commit persists for files with the given names and contents.
pub open spec fn commit_contents(names: Seq<Seq<u8>>, datas: Seq<Seq<u8>>) -> Map<
    Seq<u8>,
    Seq<u8>,
> {
    let padded = pad_leaves(leaf_hashes_of(datas));
    let total = 2 * padded.len() - 1;
    with_nodes(
        with_file_list(Map::empty(), names).insert(
            num_files_key(),
            spec_u64_to_le_bytes(names.len() as u64),
        ),
        tree_nodes(padded),
        total as int,
    ).insert(tree_size_key(), spec_u64_to_le_bytes(total as u64))
}

/// Remove every persisted entry.
pub fn clear_db(db: &mut sled::Db) -> (r: Result<(), StoreError>)
    ensures
        r is Ok ==> db_contents(*final(db)) == empty_contents(),
        r is Err ==> r->Err_0 == StoreError::Backend,
{
    match db_clear(db) {
        Ok(()) => Ok(()),
        Err(_) => Err(StoreError::Backend),
    }
}

fn store_file_list(db: &mut sled::Db, files: &Vec<FileEntry>) -> (r: Result<(), StoreError>)
    requires
        files@.len() <= 0x1000_0000,
    ensures
        r is Ok ==> db_contents(*final(db)) == with_file_list(
            db_contents(*old(db)),
            file_names(files@),
        ).insert(num_files_key(), spec_u64_to_le_bytes(files@.len() as u64)),
        r is Err ==> r->Err_0 == StoreError::Backend,
{
    let ghost names = file_names(files@);
    let mut i: usize = 0;
    while i < files.len()
        invariant
            i <= files@.len() <= 0x1000_0000,
            names == file_names(files@),
            db_contents(*db) == with_file_list(db_contents(*old(db)), names.take(i as int)),
        decreases files@.len() - i,
    {
        let key = name_key_bytes(files[i].name.as_slice());
        let val = u64_to_le_bytes(i as u64);
        match db_put(db, key.as_slice(), val.as_slice()) {
            Ok(()) => {},
            Err(_) => {
                return Err(StoreError::Backend);
            },
        }
        proof {
            assert(names.take(i + 1).drop_last() =~= names.take(i as int));
            assert(names.take(i + 1).last() == names[i as int]);
        }
        i = i + 1;
    }
    proof {
        assert(names.take(names.len() as int) =~= names);
    }
    let key = num_files_key_bytes();
    let val = u64_to_le_bytes(files.len() as u64);
    match db_put(db, key.as_slice(), val.as_slice()) {
        Ok(()) => Ok(()),
        Err(_) => Err(StoreError::Backend),
    }
}

fn store_merkle_tree(db: &mut sled::Db, tree: &FastMerkleTree) -> (r: Result<(), StoreError>)
    requires
        1 <= tree@.len() <= 0x2000_0001,
    ensures
        r is Ok ==> db_contents(*final(db)) == with_nodes(
            db_contents(*old(db)),
            tree@,
            tree@.len() as int,
        ).insert(tree_size_key(), spec_u64_to_le_bytes(tree@.len() as u64)),
        r is Err ==> r->Err_0 == StoreError::Backend,
{
    let total = tree.0.len();
    let mut i: usize = 0;
    while i < total
        invariant
            i <= total == tree@.len() <= 0x2000_0001,
            db_contents(*db) == with_nodes(db_contents(*old(db)), tree@, i as int),
        decreases total - i,
    {
        let key = node_key_bytes(i as u64);
        let node = tree.0[i];
        match db_put(db, key.as_slice(), node.value.as_slice()) {
            Ok(()) => {},
            Err(_) => {
                return Err(StoreError::Backend);
            },
        }
        i = i + 1;
    }
    let key = tree_size_key_bytes();
    let val = u64_to_le_bytes(total as u64);
    match db_put(db, key.as_slice(), val.as_slice()) {
        Ok(()) => Ok(()),
        Err(_) => Err(StoreError::Backend),
    }
}

impl FastMerkleTree {
    /// Replace the persisted commitment: clear the store, record each
    /// filename's leaf index and the leaf count, hash every file's contents,
    /// build the tree, store every node under its index key, and store the
    /// node count last, so that a torn commit leaves no `tree_size` key and
    /// therefore no commitment behind.
    pub fn build_merkle_tree(db: &mut sled::Db, files: &Vec<FileEntry>) -> (r: Result<
        (),
        StoreError,
    >)
        requires
            1 <= files@.len() <= 0x1000_0000,
            distinct_seqs(file_names(files@)),
        ensures
            r is Ok ==> db_contents(*final(db)) == commit_contents(
                file_names(files@),
                file_datas(files@),
            ),
            r is Err ==> r->Err_0 == StoreError::Backend,
    {
        let ghost names = file_names(files@);
        let ghost datas = file_datas(files@);
        match clear_db(db) {
            Ok(()) => {},
            Err(e) => {
                return Err(e);
            },
        }
        match store_file_list(db, files) {
            Ok(()) => {},
            Err(e) => {
                return Err(e);
            },
        }
        let mut leaves: Vec<FastMerkleNode> = Vec::new();
        let mut i: usize = 0;
        while i < files.len()
            invariant
                i <= files@.len(),
                datas == file_datas(files@),
                leaves@.len() == i,
                forall|j: int| 0 <= j < i ==> node_views(leaves@)[j] == leaf_hash_of(datas[j]),
            decreases files@.len() - i,
        {
            let h = hash_leaf(files[i].content.as_slice());
            let ghost pre = leaves@;
            leaves.push(FastMerkleNode { value: h });
            proof {
                assert forall|j: int| 0 <= j < i + 1 implies node_views(leaves@)[j]
                    == leaf_hash_of(datas[j]) by {
                    if j < i {
                        assert(leaves@[j] == pre[j]);
                        assert(node_views(pre)[j] == leaf_hash_of(datas[j]));
                    }
                };
            }
            i = i + 1;
        }
        proof {
            assert(node_views(leaves@) =~= leaf_hashes_of(datas));
        }
        let tree_vec = Self::build_nodes(leaves);
        let tree = FastMerkleTree(tree_vec);
        proof {
            assert(tree@ =~= tree_nodes(pad_leaves(leaf_hashes_of(datas))));
        }
        match store_merkle_tree(db, &tree) {
            Ok(()) => {},
            Err(e) => {
                return Err(e);
            },
        }
        proof {
            assert(db_contents(*db) == commit_contents(names, datas));
        }
        Ok(())
    }
}

/// The authentication path that the persisted entries `c` yield when walked
/// from flat-array index `idx` up to the root, or `Corrupt` where a node is
/// missing along the way.
pub open spec fn walk_path(c: Map<Seq<u8>, Seq<u8>>, idx: int) -> Result<
    Seq<(Seq<u8>, bool)>,
    StoreError,
>
    decreases idx,
    when idx >= 0
{
    if idx <= 0 {
        Ok(Seq::empty())
    } else {
        let sib = if idx % 2 == 0 {
            idx - 1
        } else {
            idx + 1
        };
        if !c.contains_key(node_key(sib)) {
            Err(StoreError::Corrupt)
        } else {
            match walk_path(c, (idx - 1) / 2) {
                Ok(rest) => Ok(seq![(c[node_key(sib)], idx % 2 == 0)] + rest),
                Err(e) => Err(e),
            }
        }
    }
}

/// What a proof query returns on a store holding `c`: the authentication
/// path for `name`, `NoCommitment` when no node count is recorded,
/// `UnknownFile` when the name has no leaf index, and `Corrupt` when the
/// recorded entries are not a well-shaped commitment.
pub open spec fn proof_query(c: Map<Seq<u8>, Seq<u8>>, name: Seq<u8>) -> Result<
    Seq<(Seq<u8>, bool)>,
    StoreError,
> {
    if !c.contains_key(tree_size_key()) {
        Err(StoreError::NoCommitment)
    } else if c[tree_size_key()].len() != 8 {
        Err(StoreError::Corrupt)
    } else if !c.contains_key(name_key(name)) {
        Err(StoreError::UnknownFile)
    } else if c[name_key(name)].len() != 8 {
        Err(StoreError::Corrupt)
    } else if !c.contains_key(num_files_key()) {
        Err(StoreError::Corrupt)
    } else if c[num_files_key()].len() != 8 {
        Err(StoreError::Corrupt)
    } else {
        let ts = spec_u64_from_le_bytes(c[tree_size_key()]) as int;
        let fidx = spec_u64_from_le_bytes(c[name_key(name)]) as int;
        let n = spec_u64_from_le_bytes(c[num_files_key()]) as int;
        let m = ceil_even(n as nat) as int;
        if m > ts || fidx >= m {
            Err(StoreError::Corrupt)
        } else {
            walk_path(c, ts - m + fidx)
        }
    }
}

/// What reading the root returns on a store holding `c`.
pub open spec fn root_query(c: Map<Seq<u8>, Seq<u8>>) -> Result<Seq<u8>, StoreError> {
    if !c.contains_key(tree_size_key()) {
        Err(StoreError::NoCommitment)
    } else if !c.contains_key(node_key(0)) {
        Err(StoreError::Corrupt)
    } else {
        Ok(c[node_key(0)])
    }
}

/// Read the committed root: the node stored at tree index 0.
pub fn get_root_hash_from_db(db: &sled::Db) -> (r: Result<Vec<u8>, StoreError>)
    ensures
        match r {
            Ok(v) => root_query(db_contents(*db)) == Ok::<Seq<u8>, StoreError>(v@),
            Err(e) => e == StoreError::Backend || root_query(db_contents(*db)) == Err::<
                Seq<u8>,
                StoreError,
            >(e),
        },
{
    let ts_key = tree_size_key_bytes();
    match db_get(db, ts_key.as_slice()) {
        Ok(Some(_)) => {},
        Ok(None) => {
            return Err(StoreError::NoCommitment);
        },
        Err(_) => {
            return Err(StoreError::Backend);
        },
    }
    let root_key = node_key_bytes(0);
    match db_get(db, root_key.as_slice()) {
        Ok(Some(v)) => Ok(v),
        Ok(None) => Err(StoreError::Corrupt),
        Err(_) => Err(StoreError::Backend),
    }
}

impl FastMerkleTree {
    /// Produce the authentication path for `filename` from the persisted
    /// tree: resolve the leaf index, then collect the sibling hash and side
    /// at every level up to (but excluding) the root.
    pub fn get_merkle_proof_from_db(db: &sled::Db, filename: &[u8]) -> (r: Result<
        Vec<(Vec<u8>, bool)>,
        StoreError,
    >)
        ensures
            match r {
                Ok(p) => proof_query(db_contents(*db), filename@) == Ok::<
                    Seq<(Seq<u8>, bool)>,
                    StoreError,
                >(path_view(p@)),
                Err(e) => e == StoreError::Backend || proof_query(db_contents(*db), filename@)
                    == Err::<Seq<(Seq<u8>, bool)>, StoreError>(e),
            },
    {
        let ghost c = db_contents(*db);
        let ts_key = tree_size_key_bytes();
        let ts_val = match db_get(db, ts_key.as_slice()) {
            Ok(Some(v)) => v,
            Ok(None) => {
                return Err(StoreError::NoCommitment);
            },
            Err(_) => {
                return Err(StoreError::Backend);
            },
        };
        if ts_val.len() != 8 {
            return Err(StoreError::Corrupt);
        }
        let nk = name_key_bytes(filename);
        let fi_val = match db_get(db, nk.as_slice()) {
            Ok(Some(v)) => v,
            Ok(None) => {
                return Err(StoreError::UnknownFile);
            },
            Err(_) => {
                return Err(StoreError::Backend);
            },
        };
        if fi_val.len() != 8 {
            return Err(StoreError::Corrupt);
        }
        let nf_key = num_files_key_bytes();
        let nf_val = match db_get(db, nf_key.as_slice()) {
            Ok(Some(v)) => v,
            Ok(None) => {
                return Err(StoreError::Corrupt);
            },
            Err(_) => {
                return Err(StoreError::Backend);
            },
        };
        if nf_val.len() != 8 {
            return Err(StoreError::Corrupt);
        }
        let ts = u64_from_le_bytes(ts_val.as_slice());
        let fidx = u64_from_le_bytes(fi_val.as_slice());
        let n = u64_from_le_bytes(nf_val.as_slice());
        let m = if n % 2 == 0 {
            n
        } else {
            if n == u64::MAX {
                return Err(StoreError::Corrupt);
            }
            n + 1
        };
        if m > ts || fidx >= m {
            return Err(StoreError::Corrupt);
        }
        let mut idx: u64 = ts - m + fidx;
        let ghost start = idx as int;
        let mut acc: Vec<(Vec<u8>, bool)> = Vec::new();
        proof {
            assert(path_view(acc@) + Seq::<(Seq<u8>, bool)>::empty() =~= path_view(acc@));
            assert(path_view(acc@) =~= Seq::<(Seq<u8>, bool)>::empty());
        }
        while idx > 0
            invariant
                c == db_contents(*db),
                idx <= start < ts,
                proof_query(c, filename@) == walk_path(c, start),
                match walk_path(c, idx as int) {
                    Ok(rest) => walk_path(c, start) == Ok::<Seq<(Seq<u8>, bool)>, StoreError>(
                        path_view(acc@) + rest,
                    ),
                    Err(e) => walk_path(c, start) == Err::<Seq<(Seq<u8>, bool)>, StoreError>(e),
                },
            decreases idx,
        {
            let sib: u64 = if idx % 2 == 0 {
                idx - 1
            } else {
                idx + 1
            };
            let skey = node_key_bytes(sib);
            let sval = match db_get(db, skey.as_slice()) {
                Ok(Some(v)) => v,
                Ok(None) => {
                    return Err(StoreError::Corrupt);
                },
                Err(_) => {
                    return Err(StoreError::Backend);
                },
            };
            let is_left = idx % 2 == 0;
            let ghost pre = acc@;
            acc.push((sval, is_left));
            proof {
                assert(path_view(acc@) =~= path_view(pre) + seq![(sval@, is_left)]);
                let rest_all = walk_path(c, idx as int);
                match walk_path(c, (idx - 1) as int / 2) {
                    Ok(rest) => {
                        assert(path_view(pre) + (seq![(sval@, is_left)] + rest) =~= path_view(acc@)
                            + rest);
                    },
                    Err(_) => {},
                }
            }
            idx = (idx - 1) / 2;
        }
        proof {
            assert(walk_path(c, 0) == Ok::<Seq<(Seq<u8>, bool)>, StoreError>(Seq::empty()));
            assert(path_view(acc@) + Seq::<(Seq<u8>, bool)>::empty() =~= path_view(acc@));
        }
        Ok(acc)
    }
}

} // verus!
