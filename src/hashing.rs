use crate::error::Error;
use crate::field::{be_bytes_128, Felt};
use rs_merkle::algorithms::Sha256;
use rs_merkle::MerkleTree;
use sha2::Digest;
use vstd::prelude::*;

verus! {

/// The SHA-256 digest of a byte string.
pub uninterp spec fn sha256_of(data: Seq<u8>) -> Seq<u8>;

/// The root of the binary SHA-256 hash tree over the given leaves, in order.
pub uninterp spec fn merkle_root_of(leaves: Seq<Seq<u8>>) -> Seq<u8>;

/// Relies on sha2::Sha256::digest: the 32-byte SHA-256 digest of `data`.
#[verifier::external_body]
pub(crate) fn sha256(data: &Vec<u8>) -> (r: [u8; 32])
    ensures
        r@ == sha256_of(data@),
{
    sha2::Sha256::digest(data.as_slice()).into()
}

/// A SHA-256 hash tree of rs_merkle, kept for the inclusion proofs that it can give.
#[verifier::external_body]
pub struct CommitmentTree {
    tree: MerkleTree<Sha256>,
}

impl CommitmentTree {
    /// The root of the tree, which exists exactly when the tree has a leaf.
    pub fn root(&self) -> (r: Option<[u8; 32]>)
        ensures
            r is Some <==> tree_leaves(*self).len() > 0,
            r matches Some(root) ==> root@ == merkle_root_of(tree_leaves(*self)),
    {
        tree_root(self)
    }
}

/// The leaves that a hash tree was built over, in order.
pub uninterp spec fn tree_leaves(t: CommitmentTree) -> Seq<Seq<u8>>;

/// Relies on rs_merkle's MerkleTree::<Sha256>::from_leaves: a tree over exactly `leaves`.
#[verifier::external_body]
pub(crate) fn tree_from_leaves(leaves: &Vec<[u8; 32]>) -> (r: CommitmentTree)
    ensures
        tree_leaves(r) == leaf_views(leaves@),
{
    CommitmentTree { tree: MerkleTree::<Sha256>::from_leaves(leaves.as_slice()) }
}

/// Relies on rs_merkle's MerkleTree::root: the root of the tree, which exists exactly
/// when the tree has a leaf.
#[verifier::external_body]
pub(crate) fn tree_root(t: &CommitmentTree) -> (r: Option<[u8; 32]>)
    ensures
        r is Some <==> tree_leaves(*t).len() > 0,
        r matches Some(root) ==> root@ == merkle_root_of(tree_leaves(*t)),
{
    t.tree.root()
}

/// The byte strings of the leaves.
pub open spec fn leaf_views(leaves: Seq<[u8; 32]>) -> Seq<Seq<u8>> {
    leaves.map_values(|l: [u8; 32]| l@)
}

/// The leaf that commits to one field element: the hash of its canonical encoding.
pub open spec fn leaf_of(f: Felt) -> Seq<u8> {
    sha256_of(be_bytes_128(f.val))
}

/// The leaves that commit to a sequence of field elements, one per element.
pub open spec fn leaves_of(elems: Seq<Felt>) -> Seq<Seq<u8>> {
    elems.map_values(|f: Felt| leaf_of(f))
}

/// The commitment root over a sequence of field elements, one leaf per element.
pub open spec fn commitment_of(elems: Seq<Felt>) -> Seq<u8> {
    merkle_root_of(leaves_of(elems))
}

/// One leaf per element: the SHA-256 digest of the element's big-endian encoding.
pub fn hash_leaves(elems: &Vec<Felt>) -> (r: Vec<[u8; 32]>)
    ensures
        r@.len() == elems@.len(),
        leaf_views(r@) == leaves_of(elems@),
{
    let mut out: Vec<[u8; 32]> = Vec::new();
    let mut i: usize = 0;
    while i < elems.len()
        invariant
            i <= elems.len(),
            out@.len() == i,
            leaf_views(out@) =~= leaves_of(elems@).take(i as int),
        decreases elems.len() - i,
    {
        let bytes = elems[i].to_be_bytes();
        let leaf = sha256(&bytes);
        let ghost prev = out@;
        out.push(leaf);
        proof {
            assert(out@ == prev.push(leaf));
            assert(leaf_views(out@)[i as int] == leaf_of(elems@[i as int]));
            assert(leaf_views(out@) =~= leaf_views(prev).push(leaf@));
        }
        i = i + 1;
    }
    assert(leaves_of(elems@).take(elems.len() as int) =~= leaves_of(elems@));
    out
}

/// The commitment root over `elems`, one leaf per element in the given order.
/// There is no root over no leaves: an empty sequence is refused.
pub fn commit_elements(elems: &Vec<Felt>) -> (r: Result<(CommitmentTree, [u8; 32]), Error>)
    ensures
        elems@.len() == 0 <==> r is Err,
        r matches Ok((tree, root)) ==> tree_leaves(tree) == leaves_of(elems@) && root@
            == commitment_of(elems@),
        r matches Err(e) ==> e == Error::Commitment,
{
    let leaves = hash_leaves(elems);
    assert(leaf_views(leaves@).len() == leaves@.len());
    let tree = tree_from_leaves(&leaves);
    match tree_root(&tree) {
        Some(root) => Ok((tree, root)),
        None => Err(Error::Commitment),
    }
}

} // verus!
