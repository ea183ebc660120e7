//! What holds of trees, of the proofs taken from them, and of the two
//! together.
//!
//! Several of these laws speak of a well-hashed tree, which says of every
//! hash in the tree that it has the digest length of the algorithm. That is a
//! fact about the hash function which these proofs cannot know by themselves.
//! It holds of every tree that `MerkleTree::from_vec` returns, which says so,
//! as does `MerkleTree::root_hash`.

use crate::builder::{build, lemma_build_is_split_tree, lemma_build_leaves, root_of, split_tree};
use crate::hashing::{digest_len, digest_of, leaf_hash, HashAlgorithm};
use crate::inclusion::{find, locate};
use crate::merkletree::{member_proof, nth_proof};
use crate::shape::{lemma_split_point_bounds, split_point};
use crate::tree::TreeView;
use vstd::prelude::*;

verus! {

/// The root of a well-hashed tree carries a hash of the digest length.
pub proof fn lemma_well_hashed_len(algorithm: HashAlgorithm, tree: TreeView)
    requires
        tree.well_hashed(algorithm),
    ensures
        tree.hash().len() == digest_len(algorithm),
{
}

/// In a well-hashed tree the hashes of the leaves are the hashes of the
/// blocks.
pub proof fn lemma_leaf_hashes(algorithm: HashAlgorithm, tree: TreeView)
    requires
        tree.well_hashed(algorithm),
    ensures
        tree.leaf_hashes().len() == tree.leaves().len(),
        forall|i: int|
            0 <= i < tree.leaves().len() ==> #[trigger] tree.leaf_hashes()[i] == leaf_hash(
                algorithm,
                tree.leaves()[i],
            ),
    decreases tree,
{
    match tree {
        TreeView::Node { left, right, .. } => {
            lemma_leaf_hashes(algorithm, *left);
            lemma_leaf_hashes(algorithm, *right);
        },
        _ => {},
    }
}

/// The search by hash finds a chain exactly where some leaf carries the hash
/// looked for.
pub proof fn lemma_find_complete(tree: TreeView, needle: Seq<u8>)
    ensures
        find(tree, needle) is Some <==> tree.leaf_hashes().contains(needle),
    decreases tree,
{
    match tree {
        TreeView::Empty { .. } => {},
        TreeView::Leaf { hash, .. } => {
            if hash == needle {
                assert(tree.leaf_hashes()[0] == needle);
            }
        },
        TreeView::Node { left, right, .. } => {
            lemma_find_complete(*left, needle);
            lemma_find_complete(*right, needle);
            let l = left.leaf_hashes();
            let r = right.leaf_hashes();
            if l.contains(needle) {
                let i = choose|i: int| 0 <= i < l.len() && l[i] == needle;
                assert((l + r)[i] == needle);
            }
            if r.contains(needle) {
                let i = choose|i: int| 0 <= i < r.len() && r[i] == needle;
                assert((l + r)[l.len() + i] == needle);
            }
            if (l + r).contains(needle) {
                let i = choose|i: int| 0 <= i < (l + r).len() && (l + r)[i] == needle;
                if i < l.len() {
                    assert(l[i] == needle);
                } else {
                    assert(r[i - l.len()] == needle);
                }
            }
        },
    }
}

/// A chain that the search by hash takes from a well-hashed tree is valid,
/// starts at the tree's root and ends at a leaf with the hash looked for.
pub proof fn lemma_find_sound(algorithm: HashAlgorithm, tree: TreeView, needle: Seq<u8>)
    requires
        tree.well_hashed(algorithm),
    ensures
        find(tree, needle) matches Some(chain) ==> {
            &&& chain.valid(algorithm)
            &&& chain.node_hash == tree.hash()
            &&& chain.leaf_hash() == needle
        },
    decreases tree,
{
    match tree {
        TreeView::Node { left, right, .. } => {
            lemma_find_sound(algorithm, *left, needle);
            lemma_find_sound(algorithm, *right, needle);
            lemma_well_hashed_len(algorithm, *left);
            lemma_well_hashed_len(algorithm, *right);
        },
        _ => {},
    }
}

/// In the tree over `blocks`, described from the root down, the look-up of
/// position `i` gives the block at `i` and a well-formed chain from the root
/// that leads back to `i`. Where the tree is well hashed, the chain is valid.
pub proof fn lemma_locate_split_tree(algorithm: HashAlgorithm, blocks: Seq<Seq<u8>>, i: nat)
    requires
        i < blocks.len(),
    ensures
        locate(split_tree(algorithm, blocks), i, blocks.len()) matches Some((chain, value)) && {
            &&& value == blocks[i as int]
            &&& chain.index(blocks.len()) == i
            &&& chain.node_hash == split_tree(algorithm, blocks).hash()
            &&& chain.well_formed()
            &&& split_tree(algorithm, blocks).well_hashed(algorithm) ==> chain.valid(algorithm)
        },
    decreases blocks.len(),
{
    let n = blocks.len();
    if n >= 2 {
        let at = split_point(n);
        lemma_split_point_bounds(n);
        let first = blocks.subrange(0, at as int);
        let rest = blocks.subrange(at as int, n as int);
        let left = split_tree(algorithm, first);
        let right = split_tree(algorithm, rest);
        if left.well_hashed(algorithm) && right.well_hashed(algorithm) {
            lemma_well_hashed_len(algorithm, left);
            lemma_well_hashed_len(algorithm, right);
        }
        if i < at {
            lemma_locate_split_tree(algorithm, first, i);
        } else {
            lemma_locate_split_tree(algorithm, rest, (i - at) as nat);
        }
    }
}

/// In the tree that the builder makes of `blocks`, the look-up of position
/// `i` gives the block at `i` and a well-formed chain from the root that
/// leads back to `i`. Where the tree is well hashed, the chain is valid.
pub proof fn lemma_locate_built(algorithm: HashAlgorithm, blocks: Seq<Seq<u8>>, i: nat)
    requires
        i < blocks.len(),
    ensures
        locate(build(algorithm, blocks), i, blocks.len()) matches Some((chain, value)) && {
            &&& value == blocks[i as int]
            &&& chain.index(blocks.len()) == i
            &&& chain.node_hash == root_of(algorithm, blocks)
            &&& chain.well_formed()
            &&& build(algorithm, blocks).well_hashed(algorithm) ==> chain.valid(algorithm)
        },
{
    lemma_build_is_split_tree(algorithm, blocks);
    lemma_locate_split_tree(algorithm, blocks, i);
}

/// Two different inputs to which `algorithm` gives the same digest.
pub open spec fn collide(algorithm: HashAlgorithm, a: Seq<u8>, b: Seq<u8>) -> bool {
    a != b && digest_of(algorithm, a) == digest_of(algorithm, b)
}

/// Two lists of as many blocks whose trees, described from the root down,
/// carry the same root hash are the same list, unless the hash function gives
/// one digest to two different inputs.
pub proof fn lemma_split_tree_binds(
    algorithm: HashAlgorithm,
    first: Seq<Seq<u8>>,
    second: Seq<Seq<u8>>,
)
    requires
        first.len() == second.len(),
        split_tree(algorithm, first).well_hashed(algorithm),
        split_tree(algorithm, second).well_hashed(algorithm),
        split_tree(algorithm, first).hash() == split_tree(algorithm, second).hash(),
    ensures
        first == second || exists|a: Seq<u8>, b: Seq<u8>| collide(algorithm, a, b),
    decreases first.len(),
{
    let n = first.len();
    if n == 0 {
        assert(first =~= second);
    } else if n == 1 {
        if first[0] == second[0] {
            assert(first =~= second);
        } else {
            assert(collide(algorithm, first[0], second[0]));
        }
    } else {
        let at = split_point(n) as int;
        lemma_split_point_bounds(n);
        let left1 = split_tree(algorithm, first.subrange(0, at));
        let right1 = split_tree(algorithm, first.subrange(at, n as int));
        let left2 = split_tree(algorithm, second.subrange(0, at));
        let right2 = split_tree(algorithm, second.subrange(at, n as int));
        lemma_well_hashed_len(algorithm, left1);
        lemma_well_hashed_len(algorithm, right1);
        lemma_well_hashed_len(algorithm, left2);
        lemma_well_hashed_len(algorithm, right2);
        let joined1 = left1.hash() + right1.hash();
        let joined2 = left2.hash() + right2.hash();
        if joined1 != joined2 {
            assert(collide(algorithm, joined1, joined2));
        } else {
            let len = digest_len(algorithm) as int;
            assert(left1.hash() =~= joined1.subrange(0, len));
            assert(left2.hash() =~= joined2.subrange(0, len));
            assert(right1.hash() =~= joined1.subrange(len, 2 * len));
            assert(right2.hash() =~= joined2.subrange(len, 2 * len));
            lemma_split_tree_binds(algorithm, first.subrange(0, at), second.subrange(0, at));
            lemma_split_tree_binds(
                algorithm,
                first.subrange(at, n as int),
                second.subrange(at, n as int),
            );
            if first.subrange(0, at) == second.subrange(0, at) && first.subrange(at, n as int)
                == second.subrange(at, n as int) {
                assert(first =~= first.subrange(0, at) + first.subrange(at, n as int));
                assert(second =~= second.subrange(0, at) + second.subrange(at, n as int));
            }
        }
    }
}

/// The root hash commits to the blocks and their order: two lists of as many
/// blocks whose well-hashed trees carry the same root hash are the same list,
/// unless the hash function gives one digest to two different inputs.
pub proof fn lemma_root_binds_blocks(
    algorithm: HashAlgorithm,
    first: Seq<Seq<u8>>,
    second: Seq<Seq<u8>>,
)
    requires
        first.len() == second.len(),
        build(algorithm, first).well_hashed(algorithm),
        build(algorithm, second).well_hashed(algorithm),
        root_of(algorithm, first) == root_of(algorithm, second),
    ensures
        first == second || exists|a: Seq<u8>, b: Seq<u8>| collide(algorithm, a, b),
{
    lemma_build_is_split_tree(algorithm, first);
    lemma_build_is_split_tree(algorithm, second);
    lemma_split_tree_binds(algorithm, first, second);
}

/// A well-hashed tree gives a proof for a value exactly where one of its
/// blocks has the hash of that value.
pub proof fn lemma_member_proof_found(
    algorithm: HashAlgorithm,
    blocks: Seq<Seq<u8>>,
    value: Seq<u8>,
)
    requires
        build(algorithm, blocks).well_hashed(algorithm),
    ensures
        member_proof(algorithm, blocks, value) is Some <==> exists|i: int|
            0 <= i < blocks.len() && #[trigger] leaf_hash(algorithm, blocks[i]) == leaf_hash(
                algorithm,
                value,
            ),
{
    let tree = build(algorithm, blocks);
    let needle = leaf_hash(algorithm, value);
    lemma_build_leaves(algorithm, blocks);
    lemma_find_complete(tree, needle);
    lemma_leaf_hashes(algorithm, tree);
    if tree.leaf_hashes().contains(needle) {
        let i = choose|i: int| 0 <= i < tree.leaf_hashes().len() && tree.leaf_hashes()[i] == needle;
        assert(leaf_hash(algorithm, blocks[i]) == needle);
    }
    if exists|i: int| 0 <= i < blocks.len() && #[trigger] leaf_hash(algorithm, blocks[i]) == needle {
        let i = choose|i: int|
            0 <= i < blocks.len() && #[trigger] leaf_hash(algorithm, blocks[i]) == needle;
        assert(tree.leaf_hashes()[i] == needle);
    }
}

/// Every proof by value that a well-hashed tree gives validates against the
/// root hash of that tree, carries the value asked for and ends at a leaf with
/// the hash of that value.
pub proof fn lemma_member_proof_validates(
    algorithm: HashAlgorithm,
    blocks: Seq<Seq<u8>>,
    value: Seq<u8>,
)
    requires
        build(algorithm, blocks).well_hashed(algorithm),
    ensures
        member_proof(algorithm, blocks, value) matches Some(given) ==> {
            &&& given.validates(root_of(algorithm, blocks))
            &&& given.value == value
            &&& given.conjecture.leaf_hash() == leaf_hash(algorithm, value)
        },
{
    lemma_find_sound(algorithm, build(algorithm, blocks), leaf_hash(algorithm, value));
}

/// For every block of a well-hashed tree, the tree gives a proof by value,
/// and that proof validates against the root hash of the tree.
pub proof fn lemma_every_block_has_a_proof(
    algorithm: HashAlgorithm,
    blocks: Seq<Seq<u8>>,
    i: int,
)
    requires
        0 <= i < blocks.len(),
        build(algorithm, blocks).well_hashed(algorithm),
    ensures
        member_proof(algorithm, blocks, blocks[i]) matches Some(given) && given.validates(
            root_of(algorithm, blocks),
        ),
{
    lemma_member_proof_found(algorithm, blocks, blocks[i]);
    lemma_member_proof_validates(algorithm, blocks, blocks[i]);
}

/// For every position `i` of a tree, the proof by position holds the block at
/// `i` and leads back to `i`; where the tree is well hashed it validates
/// against the root hash of the tree.
pub proof fn lemma_nth_proof(algorithm: HashAlgorithm, blocks: Seq<Seq<u8>>, i: nat)
    requires
        i < blocks.len(),
    ensures
        nth_proof(algorithm, blocks, i) matches Some(given) && {
            &&& given.value == blocks[i as int]
            &&& given.conjecture.well_formed()
            &&& given.index(blocks.len()) == i
            &&& build(algorithm, blocks).well_hashed(algorithm) ==> given.validates(
                root_of(algorithm, blocks),
            )
        },
{
    lemma_locate_built(algorithm, blocks, i);
}

/// A tree gives no proof for a position at or after its number of blocks.
pub proof fn lemma_nth_proof_absent(algorithm: HashAlgorithm, blocks: Seq<Seq<u8>>, i: nat)
    requires
        i >= blocks.len(),
    ensures
        nth_proof(algorithm, blocks, i) is None,
{
}

/// No proof that a tree gives validates against a root hash other than the
/// tree's own.
pub proof fn lemma_other_root_rejects(
    algorithm: HashAlgorithm,
    blocks: Seq<Seq<u8>>,
    value: Seq<u8>,
    i: nat,
    other_root: Seq<u8>,
)
    requires
        other_root != root_of(algorithm, blocks),
    ensures
        member_proof(algorithm, blocks, value) matches Some(given) ==> !given.validates(
            other_root,
        ),
        nth_proof(algorithm, blocks, i) matches Some(given) ==> !given.validates(other_root),
{
}

/// A proof taken from the tree over one list fails against the root hash of
/// the tree over another list of as many blocks, both trees well hashed,
/// unless the hash function gives one digest to two different inputs.
pub proof fn lemma_cross_tree_rejection(
    algorithm: HashAlgorithm,
    blocks: Seq<Seq<u8>>,
    others: Seq<Seq<u8>>,
    value: Seq<u8>,
    i: nat,
)
    requires
        blocks.len() == others.len(),
        blocks != others,
        build(algorithm, blocks).well_hashed(algorithm),
        build(algorithm, others).well_hashed(algorithm),
    ensures
        (exists|a: Seq<u8>, b: Seq<u8>| collide(algorithm, a, b)) || {
            &&& member_proof(algorithm, blocks, value) matches Some(given) ==> !given.validates(
                root_of(algorithm, others),
            )
            &&& nth_proof(algorithm, blocks, i) matches Some(given) ==> !given.validates(
                root_of(algorithm, others),
            )
        },
{
    if root_of(algorithm, blocks) == root_of(algorithm, others) {
        lemma_root_binds_blocks(algorithm, blocks, others);
    }
}

} // verus!
