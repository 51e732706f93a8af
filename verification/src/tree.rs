//! The Merkle tree: a pair-balanced binary tree over leaf hashes, stored in
//! a flat array, and the client-side verifier for authentication paths.
//!
//! If the leaf count is odd, the last leaf hash is duplicated so that every
//! inner node has two children. With `m` leaves after that duplication, the
//! tree occupies a flat array of `2*m - 1` nodes: the root sits at index 0,
//! the children of index `i` at `2*i + 1` and `2*i + 2`, and the leaves fill
//! the tail `[m - 1, 2*m - 2]`.

use vstd::prelude::*;
use vstd::arithmetic::div_mod::lemma_fundamental_div_mod;
use crate::hashing::{hash_inner, hash_leaf, inner_hash_of, leaf_hash_of};

verus! {

/// `n` rounded up to the next even number.
pub open spec fn ceil_even(n: nat) -> nat {
    if n % 2 == 0 {
        n
    } else {
        n + 1
    }
}

/// The leaf hashes with the last one duplicated when their count is odd.
pub open spec fn pad_leaves(hashes: Seq<Seq<u8>>) -> Seq<Seq<u8>> {
    if hashes.len() % 2 == 0 {
        hashes
    } else {
        hashes.push(hashes.last())
    }
}

/// The hash held by the node at flat-array index `i` of the tree over the
/// (already padded, even-length) leaf hashes `padded`.
pub open spec fn node_hash(padded: Seq<Seq<u8>>, i: int) -> Seq<u8>
    decreases 2 * padded.len() - i,
    when 0 <= i < 2 * padded.len() - 1
{
    let m = padded.len() as int;
    if i >= m - 1 {
        padded[i - (m - 1)]
    } else {
        inner_hash_of(node_hash(padded, 2 * i + 1), node_hash(padded, 2 * i + 2))
    }
}

/// The root of the tree over the given (unpadded) leaf hashes.
pub open spec fn root_of(hashes: Seq<Seq<u8>>) -> Seq<u8> {
    node_hash(pad_leaves(hashes), 0)
}

/// The flat-array index of the sibling of the node at index `i`.
pub open spec fn sibling_index(i: int) -> int {
    if i % 2 == 0 {
        i - 1
    } else {
        i + 1
    }
}

/// The flat-array index of the parent of the node at index `i`.
pub open spec fn parent_index(i: int) -> int {
    (i - 1) / 2
}

/// The authentication path from the node at index `i` up to (but excluding)
/// the root: each element pairs a sibling hash with `true` when that sibling
/// lies to the left of the running hash during reconstruction.
pub open spec fn path_spec(padded: Seq<Seq<u8>>, i: int) -> Seq<(Seq<u8>, bool)>
    decreases i,
    when i >= 0
{
    if i <= 0 {
        Seq::empty()
    } else {
        seq![(node_hash(padded, sibling_index(i)), i % 2 == 0)] + path_spec(
            padded,
            parent_index(i),
        )
    }
}

/// The hash that a verifier reconstructs by folding the authentication path
/// `path` over the starting hash `h`, bottom up.
pub open spec fn fold_path(h: Seq<u8>, path: Seq<(Seq<u8>, bool)>) -> Seq<u8>
    decreases path.len(),
{
    if path.len() == 0 {
        h
    } else {
        let step = if path[0].1 {
            inner_hash_of(path[0].0, h)
        } else {
            inner_hash_of(h, path[0].0)
        };
        fold_path(step, path.skip(1))
    }
}

/// The byte-sequence views of a list of nodes.
pub open spec fn node_views(nodes: Seq<FastMerkleNode>) -> Seq<Seq<u8>> {
    Seq::new(nodes.len(), |i: int| nodes[i].value@)
}

/// The byte-sequence view of an authentication path held in executable form.
pub open spec fn path_view(path: Seq<(Vec<u8>, bool)>) -> Seq<(Seq<u8>, bool)> {
    Seq::new(path.len(), |i: int| (path[i].0@, path[i].1))
}

/// One tree node: a 32-byte hash.
#[derive(Clone, Copy)]
pub struct FastMerkleNode {
    pub value: [u8; 32],
}

/// The all-zero placeholder hash.
pub open spec fn zero_hash() -> Seq<u8> {
    Seq::new(32, |i: int| 0u8)
}

impl View for FastMerkleNode {
    type V = Seq<u8>;

    open spec fn view(&self) -> Seq<u8> {
        self.value@
    }
}

impl FastMerkleNode {
    /// A node holding the all-zero hash, used to pre-fill the flat array.
    pub fn default() -> (n: Self)
        ensures
            n@ == zero_hash(),
    {
        let value = [0u8; 32];
        assert(value@ =~= zero_hash());
        FastMerkleNode { value }
    }
}

/// The flat array of nodes: root at index 0, leaves at the tail.
pub struct FastMerkleTree(pub Vec<FastMerkleNode>);

impl View for FastMerkleTree {
    type V = Seq<Seq<u8>>;

    open spec fn view(&self) -> Seq<Seq<u8>> {
        node_views(self.0@)
    }
}

/// Compare two byte strings for equality.
pub fn bytes_eq(a: &[u8], b: &[u8]) -> (r: bool)
    ensures
        r == (a@ == b@),
{
    if a.len() != b.len() {
        return false;
    }
    let mut i: usize = 0;
    while i < a.len()
        invariant
            i <= a@.len(),
            a@.len() == b@.len(),
            forall|j: int| 0 <= j < i ==> a@[j] == b@[j],
        decreases a@.len() - i,
    {
        if a[i] != b[i] {
            return false;
        }
        i = i + 1;
    }
    assert(a@ =~= b@);
    true
}

impl FastMerkleTree {
    /// Build the flat node array over the given leaf hashes: duplicate the
    /// last leaf if their count is odd, place the leaves at the tail, then
    /// fill every inner node with the hash of its two children.
    pub(crate) fn build_nodes(leaves: Vec<FastMerkleNode>) -> (tree: Vec<FastMerkleNode>)
        requires
            1 <= leaves@.len() <= 0x1000_0000,
        ensures
            tree@.len() == 2 * ceil_even(leaves@.len() as nat) - 1,
            forall|i: int|
                0 <= i < tree@.len() ==> node_views(tree@)[i] == node_hash(
                    pad_leaves(node_views(leaves@)),
                    i,
                ),
    {
        let ghost orig = node_views(leaves@);
        let mut padded = leaves;
        if padded.len() % 2 != 0 {
            let last = padded[padded.len() - 1];
            padded.push(last);
        }
        let ghost pv = node_views(padded@);
        proof {
            assert(pv =~= pad_leaves(orig));
        }
        let m = padded.len();
        let total = 2 * m - 1;
        let mut tree: Vec<FastMerkleNode> = Vec::new();
        let mut f: usize = 0;
        while f < total
            invariant
                tree@.len() == f <= total,
            decreases total - f,
        {
            tree.push(FastMerkleNode::default());
            f = f + 1;
        }
        let leaf_start = m - 1;
        let mut i: usize = 0;
        while i < m
            invariant
                i <= m,
                m == padded@.len(),
                1 <= m <= 0x1000_0001,
                leaf_start == m - 1,
                tree@.len() == total == 2 * m - 1,
                pv == node_views(padded@),
                forall|j: int|
                    leaf_start <= j < leaf_start + i ==> node_views(tree@)[j] == pv[j
                        - leaf_start],
            decreases m - i,
        {
            let node = padded[i];
            let ghost pre = tree@;
            tree[leaf_start + i] = node;
            proof {
                assert forall|j: int|
                    leaf_start <= j < leaf_start + i + 1 implies node_views(tree@)[j] == pv[j
                    - leaf_start] by {
                    if j == leaf_start + i {
                        assert(tree@[j].value@ == pv[i as int]);
                    } else {
                        assert(tree@[j] == pre[j]);
                        assert(node_views(pre)[j] == pv[j - leaf_start]);
                    }
                };
            }
            i = i + 1;
        }
        assert forall|j: int| m - 1 <= j < total implies node_views(tree@)[j] == node_hash(
            pv,
            j,
        ) by {
            assert(node_hash(pv, j) == pv[j - (m - 1)]);
        };
        let mut k = leaf_start;
        while k > 0
            invariant
                0 <= k <= leaf_start,
                m == padded@.len(),
                pv == node_views(padded@),
                2 <= m,
                leaf_start == m - 1,
                tree@.len() == total == 2 * m - 1,
                forall|j: int| k <= j < total ==> node_views(tree@)[j] == node_hash(pv, j),
            decreases k,
        {
            k = k - 1;
            let left = tree[2 * k + 1];
            let right = tree[2 * k + 2];
            assert(left@ == node_hash(pv, 2 * k + 1));
            assert(right@ == node_hash(pv, 2 * k + 2));
            let h = hash_inner(left.value.as_slice(), right.value.as_slice());
            tree[k] = FastMerkleNode { value: h };
            assert(node_views(tree@)[k as int] == inner_hash_of(
                node_hash(pv, 2 * k + 1),
                node_hash(pv, 2 * k + 2),
            ));
            assert(node_views(tree@)[k as int] == node_hash(pv, k as int));
        }
        tree
    }

    /// Compute the root hash of the tree over the given leaf hashes.
    pub fn get_root_hash_from_leaves(leaves: Vec<FastMerkleNode>) -> (root: FastMerkleNode)
        requires
            1 <= leaves@.len() <= 0x1000_0000,
        ensures
            root@ == root_of(node_views(leaves@)),
    {
        let tree = Self::build_nodes(leaves);
        let root = tree[0];
        proof {
            assert(node_views(tree@)[0] == node_hash(pad_leaves(node_views(leaves@)), 0));
        }
        root
    }
}

/// Hash each file's contents into a leaf node, in input order.
pub fn get_file_hashes(contents: &Vec<Vec<u8>>) -> (hashes: Vec<FastMerkleNode>)
    ensures
        hashes@.len() == contents@.len(),
        forall|i: int|
            0 <= i < contents@.len() ==> node_views(hashes@)[i] == leaf_hash_of(contents@[i]@),
{
    let mut hashes: Vec<FastMerkleNode> = Vec::new();
    let mut i: usize = 0;
    while i < contents.len()
        invariant
            i <= contents@.len(),
            hashes@.len() == i,
            forall|j: int|
                0 <= j < i ==> node_views(hashes@)[j] == leaf_hash_of(contents@[j]@),
        decreases contents@.len() - i,
    {
        let h = hash_leaf(contents[i].as_slice());
        let ghost pre = hashes@;
        hashes.push(FastMerkleNode { value: h });
        proof {
            assert forall|j: int|
                0 <= j < i + 1 implies node_views(hashes@)[j] == leaf_hash_of(
                contents@[j]@,
            ) by {
                if j < i {
                    assert(hashes@[j] == pre[j]);
                    assert(node_views(pre)[j] == leaf_hash_of(contents@[j]@));
                }
            };
        }
        i = i + 1;
    }
    hashes
}

/// Rebuild the root from one file's bytes and its authentication path, and
/// accept exactly when the rebuilt root equals the expected one.
pub fn verify_proof(file_bytes: &[u8], proof: &Vec<(Vec<u8>, bool)>, root_hash: &Vec<u8>) -> (ok:
    bool)
    ensures
        ok == (fold_path(leaf_hash_of(file_bytes@), path_view(proof@)) == root_hash@),
{
    let mut current: [u8; 32] = hash_leaf(file_bytes);
    let ghost full = path_view(proof@);
    proof {
        assert(full.skip(0) =~= full);
    }
    let mut i: usize = 0;
    while i < proof.len()
        invariant
            i <= proof@.len(),
            full == path_view(proof@),
            fold_path(leaf_hash_of(file_bytes@), full) == fold_path(current@, full.skip(i as int)),
        decreases proof@.len() - i,
    {
        let is_left = proof[i].1;
        let next = if is_left {
            hash_inner(proof[i].0.as_slice(), current.as_slice())
        } else {
            hash_inner(current.as_slice(), proof[i].0.as_slice())
        };
        proof {
            let rest = full.skip(i as int);
            assert(rest[0] == (proof@[i as int].0@, proof@[i as int].1));
            assert(rest.skip(1) =~= full.skip(i + 1));
        }
        current = next;
        i = i + 1;
    }
    assert(full.skip(proof@.len() as int) =~= Seq::<(Seq<u8>, bool)>::empty());
    bytes_eq(current.as_slice(), root_hash.as_slice())
}

/// Folding the authentication path of any node over that node's own hash
/// always rebuilds the root.
pub proof fn lemma_fold_path_reaches_root(padded: Seq<Seq<u8>>, i: int)
    requires
        2 <= padded.len(),
        padded.len() % 2 == 0,
        0 <= i < 2 * padded.len() - 1,
    ensures
        fold_path(node_hash(padded, i), path_spec(padded, i)) == node_hash(padded, 0),
    decreases i,
{
    let m = padded.len() as int;
    if i == 0 {
        assert(path_spec(padded, 0) =~= Seq::<(Seq<u8>, bool)>::empty());
    } else {
        let p = parent_index(i);
        let s = sibling_index(i);
        lemma_fundamental_div_mod(i - 1, 2);
        if i % 2 == 0 {
            assert(i == 2 * p + 2);
            assert(s == 2 * p + 1);
        } else {
            assert(i == 2 * p + 1);
            assert(s == 2 * p + 2);
        }
        assert(0 <= p < m - 1);
        let path = path_spec(padded, i);
        let head = (node_hash(padded, s), i % 2 == 0);
        assert(path == seq![head] + path_spec(padded, p));
        assert(path[0] == head);
        assert(path.skip(1) =~= path_spec(padded, p));
        assert(node_hash(padded, p) == inner_hash_of(
            node_hash(padded, 2 * p + 1),
            node_hash(padded, 2 * p + 2),
        ));
        lemma_fold_path_reaches_root(padded, p);
    }
}

/// Duplicating the last leaf of an odd-length commitment by hand changes
/// nothing: the root over `hashes` equals the root over `hashes` with its
/// last element appended again.
pub proof fn lemma_odd_leaf_duplication(hashes: Seq<Seq<u8>>)
    requires
        hashes.len() % 2 == 1,
    ensures
        root_of(hashes.push(hashes.last())) == root_of(hashes),
{
    assert(pad_leaves(hashes.push(hashes.last())) =~= pad_leaves(hashes));
}

} // verus!
