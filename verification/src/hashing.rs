//! Domain-separated hashing of leaves and inner nodes.
//!
//! Every hash input starts with a 4-byte little-endian tag: `1` for a leaf
//! (the tag is followed by the file's bytes), `2` for an inner node (the tag
//! is followed by the two child digests, left then right). The tags keep a
//! leaf hash from ever colliding with an inner-node hash by construction of
//! the input, so a second preimage cannot move a node between levels.

use vstd::prelude::*;

verus! {

/// The 4-byte little-endian tag that starts every leaf hash input.
pub open spec fn leaf_tag() -> Seq<u8> {
    seq![1u8, 0u8, 0u8, 0u8]
}

/// The 4-byte little-endian tag that starts every inner-node hash input.
pub open spec fn inner_tag() -> Seq<u8> {
    seq![2u8, 0u8, 0u8, 0u8]
}

/// The BLAKE3 digest of a byte sequence.
pub uninterp spec fn blake3_of(input: Seq<u8>) -> Seq<u8>;

/// Relies on blake3::hash: the 32-byte digest is a function of the input
/// bytes alone.
#[verifier::external_body]
fn blake3_digest(data: &[u8]) -> (r: [u8; 32])
    ensures
        r@ == blake3_of(data@),
{
    *blake3::hash(data).as_bytes()
}

/// The hash of a leaf holding the file bytes `bytes`.
pub open spec fn leaf_hash_of(bytes: Seq<u8>) -> Seq<u8> {
    blake3_of(leaf_tag() + bytes)
}

/// The hash of an inner node whose children hold `left` and `right`.
pub open spec fn inner_hash_of(left: Seq<u8>, right: Seq<u8>) -> Seq<u8> {
    blake3_of(inner_tag() + left + right)
}

/// Append every byte of `src` to `dst`, in order.
pub fn push_bytes(dst: &mut Vec<u8>, src: &[u8])
    ensures
        final(dst)@ == old(dst)@ + src@,
{
    let mut i: usize = 0;
    while i < src.len()
        invariant
            i <= src@.len(),
            dst@ == old(dst)@ + src@.subrange(0, i as int),
        decreases src@.len() - i,
    {
        let b = src[i];
        dst.push(b);
        i = i + 1;
        assert(old(dst)@ + src@.subrange(0, i - 1) + seq![src@[i - 1]] =~= old(dst)@
            + src@.subrange(0, i as int));
    }
    assert(src@.subrange(0, src@.len() as int) =~= src@);
}

/// Domain separation at the input level: whatever the file bytes and child
/// digests are, a leaf hash input can never coincide with an inner-node
/// hash input, because the two tags differ in their first byte.
pub proof fn lemma_tag_inputs_disjoint(bytes: Seq<u8>, left: Seq<u8>, right: Seq<u8>)
    ensures
        leaf_tag() + bytes != inner_tag() + left + right,
{
    assert((leaf_tag() + bytes)[0] == 1u8);
    assert((inner_tag() + left + right)[0] == 2u8);
}

/// Hash a leaf: the digest of the leaf tag followed by the file bytes.
pub fn hash_leaf(bytes: &[u8]) -> (r: [u8; 32])
    ensures
        r@ == leaf_hash_of(bytes@),
{
    let mut buf: Vec<u8> = Vec::new();
    buf.push(1u8);
    buf.push(0u8);
    buf.push(0u8);
    buf.push(0u8);
    assert(buf@ =~= leaf_tag());
    push_bytes(&mut buf, bytes);
    blake3_digest(buf.as_slice())
}

/// Hash an inner node: the digest of the inner tag followed by the left
/// child's digest, then the right child's digest.
pub fn hash_inner(left: &[u8], right: &[u8]) -> (r: [u8; 32])
    ensures
        r@ == inner_hash_of(left@, right@),
{
    let mut buf: Vec<u8> = Vec::new();
    buf.push(2u8);
    buf.push(0u8);
    buf.push(0u8);
    buf.push(0u8);
    assert(buf@ =~= inner_tag());
    push_bytes(&mut buf, left);
    push_bytes(&mut buf, right);
    blake3_digest(buf.as_slice())
}

} // verus!
