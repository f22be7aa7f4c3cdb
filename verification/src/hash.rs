//! The hash that binds the tree: Keccak-256 over domain-separated
//! preimages of leaves and of internal nodes.

use vstd::prelude::*;
use vstd::string::StringSliceAdditionalSpecFns;
use vstd::utf8::encode_utf8;
use crate::encoding::{amounts, amounts_bytes, push_amounts};

verus! {

/// Length in bytes of a digest.
pub const DIGEST_LEN: usize = 32;

/// First byte of a leaf preimage.
pub const LEAF_TAG: u8 = 0;

/// First byte of an internal node's preimage.
pub const NODE_TAG: u8 = 1;

/// The Keccak-256 digest of `data`.
pub uninterp spec fn keccak256_digest(data: Seq<u8>) -> Seq<u8>;

/// Calls `ethers::utils::keccak256`. Trusted: the digest depends on the
/// bytes alone, and has the 32 bytes of the array in which it comes.
#[verifier::external_body]
pub(crate) fn keccak256(data: &[u8]) -> (digest: Vec<u8>)
    ensures
        digest@ == keccak256_digest(data@),
        digest@.len() == DIGEST_LEN,
{
    ethers::utils::keccak256(data).to_vec()
}

/// What is hashed for a leaf: the leaf tag, every balance in 16 bytes, and
/// the identifier's bytes last.
pub open spec fn leaf_preimage(id: Seq<u8>, balances: Seq<nat>) -> Seq<u8> {
    seq![LEAF_TAG] + amounts_bytes(balances) + id
}

/// What is hashed for an internal node: the node tag, both children's
/// digests, then both children's sums in 16 bytes each.
pub open spec fn node_preimage(
    left_hash: Seq<u8>,
    left_sums: Seq<nat>,
    right_hash: Seq<u8>,
    right_sums: Seq<nat>,
) -> Seq<u8> {
    seq![NODE_TAG] + left_hash + right_hash + amounts_bytes(left_sums) + amounts_bytes(right_sums)
}

/// The digest of a leaf with the given identifier bytes and balances.
pub open spec fn leaf_digest(id: Seq<u8>, balances: Seq<nat>) -> Seq<u8> {
    keccak256_digest(leaf_preimage(id, balances))
}

/// The digest of an internal node over its two children.
pub open spec fn node_digest(
    left_hash: Seq<u8>,
    left_sums: Seq<nat>,
    right_hash: Seq<u8>,
    right_sums: Seq<nat>,
) -> Seq<u8> {
    keccak256_digest(node_preimage(left_hash, left_sums, right_hash, right_sums))
}

/// Hashes a leaf.
pub fn hash_leaf(id: &str, balances: &Vec<u128>) -> (digest: Vec<u8>)
    ensures
        digest@ == leaf_digest(encode_utf8(id@), amounts(balances@)),
        digest@.len() == DIGEST_LEN,
{
    let mut preimage: Vec<u8> = Vec::new();
    preimage.push(LEAF_TAG);
    push_amounts(&mut preimage, balances);
    preimage.extend_from_slice(id.as_bytes());
    proof {
        assert(id.spec_bytes() == encode_utf8(id@));
        assert(preimage@ =~= leaf_preimage(encode_utf8(id@), amounts(balances@)));
    }
    keccak256(preimage.as_slice())
}

/// Hashes an internal node over its two children.
pub fn hash_node(
    left_hash: &Vec<u8>,
    left_sums: &Vec<u128>,
    right_hash: &Vec<u8>,
    right_sums: &Vec<u128>,
) -> (digest: Vec<u8>)
    ensures
        digest@ == node_digest(
            left_hash@,
            amounts(left_sums@),
            right_hash@,
            amounts(right_sums@),
        ),
        digest@.len() == DIGEST_LEN,
{
    let mut preimage: Vec<u8> = Vec::new();
    preimage.push(NODE_TAG);
    preimage.extend_from_slice(left_hash.as_slice());
    preimage.extend_from_slice(right_hash.as_slice());
    push_amounts(&mut preimage, left_sums);
    push_amounts(&mut preimage, right_sums);
    proof {
        assert(preimage@ =~= node_preimage(
            left_hash@,
            amounts(left_sums@),
            right_hash@,
            amounts(right_sums@),
        ));
    }
    keccak256(preimage.as_slice())
}

/// Two different preimages have one digest.
pub open spec fn keccak_collision() -> bool {
    exists|p: Seq<u8>, q: Seq<u8>|
        p != q && #[trigger] keccak256_digest(p) == #[trigger] keccak256_digest(q)
}

/// What stands between the same bytes is the same where the whole is.
pub proof fn lemma_concat_cancel(before: Seq<u8>, a: Seq<u8>, b: Seq<u8>, after: Seq<u8>)
    requires
        before + a + after == before + b + after,
    ensures
        a == b,
{
    let x = before + a + after;
    let y = before + b + after;
    assert(x.len() == before.len() + a.len() + after.len());
    assert(y.len() == before.len() + b.len() + after.len());
    assert(a =~= x.subrange(before.len() as int, (before.len() + a.len()) as int));
    assert(b =~= y.subrange(before.len() as int, (before.len() + b.len()) as int));
}

/// Nodes over children with different digests have different preimages,
/// whatever their sums.
pub proof fn lemma_node_preimage_binds_digests(
    left_hash: Seq<u8>,
    right_hash: Seq<u8>,
    other_left_hash: Seq<u8>,
    other_right_hash: Seq<u8>,
    left_sums: Seq<nat>,
    right_sums: Seq<nat>,
)
    requires
        left_hash != other_left_hash && right_hash == other_right_hash || left_hash
            == other_left_hash && right_hash != other_right_hash,
    ensures
        node_preimage(left_hash, left_sums, right_hash, right_sums) != node_preimage(
            other_left_hash,
            left_sums,
            other_right_hash,
            right_sums,
        ),
{
    let tag = seq![NODE_TAG];
    let tail = amounts_bytes(left_sums) + amounts_bytes(right_sums);
    let p = node_preimage(left_hash, left_sums, right_hash, right_sums);
    let q = node_preimage(other_left_hash, left_sums, other_right_hash, right_sums);
    if p == q {
        if left_hash != other_left_hash {
            assert(p =~= tag + left_hash + (right_hash + tail));
            assert(q =~= tag + other_left_hash + (right_hash + tail));
            lemma_concat_cancel(tag, left_hash, other_left_hash, right_hash + tail);
        } else {
            assert(p =~= (tag + left_hash) + right_hash + tail);
            assert(q =~= (tag + left_hash) + other_right_hash + tail);
            lemma_concat_cancel(tag + left_hash, right_hash, other_right_hash, tail);
        }
    }
}

} // verus!
