//! What the pieces guarantee together: a committed store answers every proof
//! query for a committed file, and the answered path rebuilds exactly the
//! committed root.

use vstd::prelude::*;
use vstd::arithmetic::div_mod::lemma_fundamental_div_mod;
use vstd::bytes::{lemma_auto_spec_u64_to_from_le_bytes, spec_u64_to_le_bytes};
use crate::hashing::{inner_hash_of, leaf_hash_of};
use crate::tree::{
    ceil_even,
    fold_path,
    lemma_fold_path_reaches_root,
    node_hash,
    pad_leaves,
    parent_index,
    path_spec,
    root_of,
    sibling_index,
};
use crate::store::{
    commit_contents,
    distinct_seqs,
    leaf_hashes_of,
    name_key,
    node_key,
    num_files_key,
    proof_query,
    root_query,
    StoreError,
    tree_nodes,
    tree_size_key,
    walk_path,
    with_file_list,
    with_nodes,
};

verus! {

/// Node entries laid over `base` keep every node reachable: index `i` is
/// stored and holds `nodes[i]`.
proof fn lemma_with_nodes_lookup(
    base: Map<Seq<u8>, Seq<u8>>,
    nodes: Seq<Seq<u8>>,
    count: int,
    i: int,
)
    requires
        0 <= i < count <= 0x1_0000_0000,
    ensures
        with_nodes(base, nodes, count).contains_key(node_key(i)),
        with_nodes(base, nodes, count)[node_key(i)] == nodes[i],
    decreases count,
{
    if i < count - 1 {
        lemma_with_nodes_lookup(base, nodes, count - 1, i);
        crate::store::lemma_node_key_injective(i, count - 1);
    }
}

/// Node entries touch only 8-byte keys: any longer or shorter key keeps the
/// binding it had in `base`.
proof fn lemma_with_nodes_frame(
    base: Map<Seq<u8>, Seq<u8>>,
    nodes: Seq<Seq<u8>>,
    count: int,
    k: Seq<u8>,
)
    requires
        k.len() != 8,
    ensures
        with_nodes(base, nodes, count).contains_key(k) == base.contains_key(k),
        base.contains_key(k) ==> with_nodes(base, nodes, count)[k] == base[k],
    decreases count,
{
    if count > 0 {
        lemma_with_nodes_frame(base, nodes, count - 1, k);
        lemma_auto_spec_u64_to_from_le_bytes();
        assert(node_key(count - 1).len() == 8);
    }
}

/// File-list entries keep every name reachable: with pairwise-distinct
/// names, the key of `names[j]` is stored and holds `j`.
proof fn lemma_with_file_list_lookup(base: Map<Seq<u8>, Seq<u8>>, names: Seq<Seq<u8>>, j: int)
    requires
        distinct_seqs(names),
        0 <= j < names.len(),
    ensures
        with_file_list(base, names).contains_key(name_key(names[j])),
        with_file_list(base, names)[name_key(names[j])] == spec_u64_to_le_bytes(j as u64),
    decreases names.len(),
{
    if j < names.len() - 1 {
        assert(names.drop_last()[j] == names[j]);
        lemma_with_file_list_lookup(base, names.drop_last(), j);
        assert(names[j] != names.last());
        crate::store::lemma_name_key_injective(names[j], names.last());
    }
}

/// File-list entries touch only keys that are 9 bytes or longer and start
/// with the namespace byte: any other key keeps the binding it had in `base`.
proof fn lemma_with_file_list_frame(base: Map<Seq<u8>, Seq<u8>>, names: Seq<Seq<u8>>, k: Seq<u8>)
    requires
        k.len() < 9 || k[0] != 102,
    ensures
        with_file_list(base, names).contains_key(k) == base.contains_key(k),
        base.contains_key(k) ==> with_file_list(base, names)[k] == base[k],
    decreases names.len(),
{
    if names.len() > 0 {
        lemma_with_file_list_frame(base, names.drop_last(), k);
        assert(name_key(names.last()).len() >= 9);
        assert(name_key(names.last())[0] == 102);
    }
}

/// A name that is not in the file list has no entry over an empty base.
proof fn lemma_with_file_list_absent(names: Seq<Seq<u8>>, name: Seq<u8>)
    requires
        forall|j: int| 0 <= j < names.len() ==> names[j] != name,
    ensures
        !with_file_list(Map::<Seq<u8>, Seq<u8>>::empty(), names).contains_key(name_key(name)),
    decreases names.len(),
{
    if names.len() > 0 {
        lemma_with_file_list_absent(names.drop_last(), name);
        assert(names.last() != name);
        crate::store::lemma_name_key_injective(names.last(), name);
    }
}

/// When every node of the tree is stored under its index key, walking the
/// store from any node index yields exactly that node's authentication path.
proof fn lemma_walk_matches_path(c: Map<Seq<u8>, Seq<u8>>, padded: Seq<Seq<u8>>, idx: int)
    requires
        2 <= padded.len() <= 0x1000_0001,
        padded.len() % 2 == 0,
        forall|i: int|
            0 <= i < 2 * padded.len() - 1 ==> c.contains_key(#[trigger] node_key(i)) && c[node_key(
                i,
            )] == node_hash(padded, i),
        0 <= idx < 2 * padded.len() - 1,
    ensures
        walk_path(c, idx) == Ok::<Seq<(Seq<u8>, bool)>, StoreError>(path_spec(padded, idx)),
    decreases idx,
{
    if idx == 0 {
        assert(path_spec(padded, 0) =~= Seq::<(Seq<u8>, bool)>::empty());
    } else {
        let total = 2 * padded.len() - 1;
        let sib = sibling_index(idx);
        if idx % 2 == 1 {
            assert(idx != total - 1);
            assert(sib == idx + 1 < total);
        } else {
            assert(sib == idx - 1 >= 0);
        }
        assert(c.contains_key(node_key(sib)) && c[node_key(sib)] == node_hash(padded, sib));
        let p = parent_index(idx);
        lemma_fundamental_div_mod(idx - 1, 2);
        assert(0 <= p < idx);
        lemma_walk_matches_path(c, padded, p);
        assert(walk_path(c, idx) == Ok::<Seq<(Seq<u8>, bool)>, StoreError>(
            seq![(c[node_key(sib)], idx % 2 == 0)] + path_spec(padded, p),
        ));
    }
}

/// Everything a proof query reads from a committed store, in one place: the
/// commitment of `names` and `datas` records the node count, the leaf count,
/// every node hash under its index key, the leaf index of every name, and
/// nothing under the key of any other name.
pub proof fn lemma_commit_contents_facts(names: Seq<Seq<u8>>, datas: Seq<Seq<u8>>)
    requires
        names.len() == datas.len(),
        1 <= names.len() <= 0x1000_0000,
        distinct_seqs(names),
    ensures
        ({
            let c = commit_contents(names, datas);
            let padded = pad_leaves(leaf_hashes_of(datas));
            let total = 2 * padded.len() - 1;
            &&& padded.len() == ceil_even(names.len())
            &&& c.contains_key(tree_size_key()) && c[tree_size_key()] == spec_u64_to_le_bytes(
                total as u64,
            )
            &&& c.contains_key(num_files_key()) && c[num_files_key()] == spec_u64_to_le_bytes(
                names.len() as u64,
            )
            &&& forall|i: int|
                0 <= i < total ==> c.contains_key(#[trigger] node_key(i)) && c[node_key(i)]
                    == node_hash(padded, i)
            &&& forall|j: int|
                0 <= j < names.len() ==> c.contains_key(#[trigger] name_key(names[j])) && c[name_key(
                    names[j],
                )] == spec_u64_to_le_bytes(j as u64)
            &&& forall|other: Seq<u8>|
                (forall|j: int| 0 <= j < names.len() ==> names[j] != other) ==> !c.contains_key(
                    #[trigger] name_key(other),
                )
        }),
{
    let c = commit_contents(names, datas);
    let hashes = leaf_hashes_of(datas);
    let padded = pad_leaves(hashes);
    let total = 2 * padded.len() - 1;
    let n = names.len() as int;
    assert(hashes.len() == n);
    assert(padded.len() == ceil_even(names.len()));
    let fl = with_file_list(Map::<Seq<u8>, Seq<u8>>::empty(), names).insert(
        num_files_key(),
        spec_u64_to_le_bytes(names.len() as u64),
    );
    let wn = with_nodes(fl, tree_nodes(padded), total as int);
    lemma_auto_spec_u64_to_from_le_bytes();
    crate::store::lemma_key_kinds_disjoint(0, Seq::<u8>::empty());

    // the node count, stored last, sits on top
    assert(c.contains_key(tree_size_key()) && c[tree_size_key()] == spec_u64_to_le_bytes(
        total as u64,
    ));

    // the leaf count: under the node entries, above the file list
    crate::store::lemma_key_kinds_disjoint(0, num_files_key());
    lemma_with_nodes_frame(fl, tree_nodes(padded), total as int, num_files_key());
    assert(c.contains_key(num_files_key()) && c[num_files_key()] == spec_u64_to_le_bytes(
        names.len() as u64,
    ));

    // every node hash under its 8-byte index key
    assert forall|i: int|
        0 <= i < total implies c.contains_key(#[trigger] node_key(i)) && c[node_key(i)]
        == node_hash(padded, i) by {
        crate::store::lemma_key_kinds_disjoint(i, Seq::<u8>::empty());
        lemma_with_nodes_lookup(fl, tree_nodes(padded), total as int, i);
        assert(tree_nodes(padded)[i] == node_hash(padded, i));
    };

    // every name's leaf index under its namespaced key
    assert forall|j: int|
        0 <= j < names.len() implies c.contains_key(#[trigger] name_key(names[j])) && c[name_key(
        names[j],
    )] == spec_u64_to_le_bytes(j as u64) by {
        crate::store::lemma_key_kinds_disjoint(0, names[j]);
        lemma_with_file_list_lookup(Map::<Seq<u8>, Seq<u8>>::empty(), names, j);
        assert(name_key(names[j]).len() != 8);
        lemma_with_nodes_frame(fl, tree_nodes(padded), total as int, name_key(names[j]));
    };

    // and nothing under the key of a name outside the commitment
    assert forall|other: Seq<u8>|
        (forall|j: int| 0 <= j < names.len() ==> names[j] != other) implies !c.contains_key(
        #[trigger] name_key(other),
    ) by {
        crate::store::lemma_key_kinds_disjoint(0, other);
        lemma_with_file_list_absent(names, other);
        lemma_with_nodes_frame(fl, tree_nodes(padded), total as int, name_key(other));
    };
}

/// A commit followed by a proof query always answers, and the answered path,
/// folded over the file's leaf hash, rebuilds exactly the committed root —
/// the root that the store itself reports.
pub proof fn lemma_commit_then_proof_verifies(names: Seq<Seq<u8>>, datas: Seq<Seq<u8>>, k: int)
    requires
        names.len() == datas.len(),
        1 <= names.len() <= 0x1000_0000,
        distinct_seqs(names),
        0 <= k < names.len(),
    ensures
        ({
            let c = commit_contents(names, datas);
            let hashes = leaf_hashes_of(datas);
            &&& root_query(c) == Ok::<Seq<u8>, StoreError>(root_of(hashes))
            &&& proof_query(c, names[k]) is Ok
            &&& fold_path(leaf_hash_of(datas[k]), proof_query(c, names[k])->Ok_0) == root_of(
                hashes,
            )
        }),
{
    let c = commit_contents(names, datas);
    let hashes = leaf_hashes_of(datas);
    let padded = pad_leaves(hashes);
    let total = 2 * padded.len() - 1;
    let n = names.len() as int;
    let m = padded.len() as int;
    lemma_commit_contents_facts(names, datas);
    lemma_auto_spec_u64_to_from_le_bytes();

    // the root the store reports is the tree's root
    assert(c.contains_key(node_key(0)));
    assert(root_query(c) == Ok::<Seq<u8>, StoreError>(node_hash(padded, 0)));

    // the query's reads decode back to the committed counts and index
    let start = total - m + k;
    assert(0 <= start < total);
    assert(proof_query(c, names[k]) == walk_path(c, start));
    lemma_walk_matches_path(c, padded, start);

    // the leaf at `start` holds this file's leaf hash
    assert(node_hash(padded, start) == padded[k]);
    assert(padded[k] == hashes[k]);
    lemma_fold_path_reaches_root(padded, start);
}

/// A tampered root is rejected: the path rebuilds the committed root, so it
/// can rebuild no other value.
pub proof fn lemma_tampered_root_rejected(
    names: Seq<Seq<u8>>,
    datas: Seq<Seq<u8>>,
    k: int,
    wrong: Seq<u8>,
)
    requires
        names.len() == datas.len(),
        1 <= names.len() <= 0x1000_0000,
        distinct_seqs(names),
        0 <= k < names.len(),
        wrong != root_of(leaf_hashes_of(datas)),
    ensures
        ({
            let c = commit_contents(names, datas);
            fold_path(leaf_hash_of(datas[k]), proof_query(c, names[k])->Ok_0) != wrong
        }),
{
    lemma_commit_then_proof_verifies(names, datas, k);
}

/// A name outside the commitment is answered with `UnknownFile`, never
/// confused with an empty store.
pub proof fn lemma_unknown_file_distinguished(
    names: Seq<Seq<u8>>,
    datas: Seq<Seq<u8>>,
    other: Seq<u8>,
)
    requires
        names.len() == datas.len(),
        1 <= names.len() <= 0x1000_0000,
        distinct_seqs(names),
        forall|j: int| 0 <= j < names.len() ==> names[j] != other,
    ensures
        proof_query(commit_contents(names, datas), other) == Err::<
            Seq<(Seq<u8>, bool)>,
            StoreError,
        >(StoreError::UnknownFile),
{
    lemma_commit_contents_facts(names, datas);
    lemma_auto_spec_u64_to_from_le_bytes();
    let c = commit_contents(names, datas);
    let total = 2 * pad_leaves(leaf_hashes_of(datas)).len() - 1;
    assert(c[tree_size_key()] == spec_u64_to_le_bytes(total as u64));
    assert(c[tree_size_key()].len() == 8);
}

/// One file: the tree has 3 nodes, the proof path has a single element, and
/// its sibling hash is the leaf's own hash, because the lone leaf was
/// duplicated; the root hashes the leaf with itself.
pub proof fn lemma_single_file_shape(hashes: Seq<Seq<u8>>)
    requires
        hashes.len() == 1,
    ensures
        ({
            let padded = pad_leaves(hashes);
            &&& padded.len() == 2
            &&& tree_nodes(padded).len() == 3
            &&& path_spec(padded, 1) == seq![(hashes[0], false)]
            &&& root_of(hashes) == inner_hash_of(hashes[0], hashes[0])
        }),
{
    let padded = pad_leaves(hashes);
    assert(padded[1] == hashes[0]);
    assert(node_hash(padded, 2) == hashes[0]);
    assert(path_spec(padded, 0) =~= Seq::<(Seq<u8>, bool)>::empty());
    assert(path_spec(padded, 1) =~= seq![(hashes[0], false)]);
    assert(root_of(hashes) == inner_hash_of(node_hash(padded, 1), node_hash(padded, 2)));
}

/// Two files: each proof path has a single element, the other leaf's hash,
/// on the right for the first file and on the left for the second.
pub proof fn lemma_two_file_shape(hashes: Seq<Seq<u8>>)
    requires
        hashes.len() == 2,
    ensures
        ({
            let padded = pad_leaves(hashes);
            &&& padded == hashes
            &&& tree_nodes(padded).len() == 3
            &&& path_spec(padded, 1) == seq![(hashes[1], false)]
            &&& path_spec(padded, 2) == seq![(hashes[0], true)]
            &&& root_of(hashes) == inner_hash_of(hashes[0], hashes[1])
        }),
{
    let padded = pad_leaves(hashes);
    assert(node_hash(padded, 1) == hashes[0]);
    assert(node_hash(padded, 2) == hashes[1]);
    assert(path_spec(padded, 0) =~= Seq::<(Seq<u8>, bool)>::empty());
    assert(path_spec(padded, 1) =~= seq![(hashes[1], false)]);
    assert(path_spec(padded, 2) =~= seq![(hashes[0], true)]);
}

/// Three files: the last leaf is duplicated to make 4, the tree has 7 nodes,
/// and every proof path has length 2; the path for the third file carries
/// its own duplicate and then the hash over the first two.
pub proof fn lemma_three_file_shape(hashes: Seq<Seq<u8>>)
    requires
        hashes.len() == 3,
    ensures
        ({
            let padded = pad_leaves(hashes);
            &&& padded.len() == 4
            &&& tree_nodes(padded).len() == 7
            &&& forall|k: int| 0 <= k < 4 ==> #[trigger] path_spec(padded, 3 + k).len() == 2
            &&& path_spec(padded, 5) == seq![
                (hashes[2], false),
                (inner_hash_of(hashes[0], hashes[1]), true),
            ]
            &&& root_of(hashes) == inner_hash_of(
                inner_hash_of(hashes[0], hashes[1]),
                inner_hash_of(hashes[2], hashes[2]),
            )
        }),
{
    let padded = pad_leaves(hashes);
    assert(padded[0] == hashes[0] && padded[1] == hashes[1] && padded[2] == hashes[2] && padded[3]
        == hashes[2]);
    assert(node_hash(padded, 3) == hashes[0]);
    assert(node_hash(padded, 4) == hashes[1]);
    assert(node_hash(padded, 5) == hashes[2]);
    assert(node_hash(padded, 6) == hashes[2]);
    assert(node_hash(padded, 1) == inner_hash_of(hashes[0], hashes[1]));
    assert(node_hash(padded, 2) == inner_hash_of(hashes[2], hashes[2]));
    assert(path_spec(padded, 0) =~= Seq::<(Seq<u8>, bool)>::empty());
    assert(path_spec(padded, 1) =~= seq![(node_hash(padded, 2), false)]);
    assert(path_spec(padded, 2) =~= seq![(node_hash(padded, 1), true)]);
    assert(path_spec(padded, 3) =~= seq![(node_hash(padded, 4), false)] + path_spec(padded, 1));
    assert(path_spec(padded, 4) =~= seq![(node_hash(padded, 3), true)] + path_spec(padded, 1));
    assert(path_spec(padded, 5) =~= seq![(node_hash(padded, 6), false)] + path_spec(padded, 2));
    assert(path_spec(padded, 6) =~= seq![(node_hash(padded, 5), true)] + path_spec(padded, 2));
    assert(path_spec(padded, 5) =~= seq![
        (hashes[2], false),
        (inner_hash_of(hashes[0], hashes[1]), true),
    ]);
}

} // verus!
