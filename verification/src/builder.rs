//! What the builder makes of a list of blocks. The tree is defined as the
//! builder works, level by level; `split_tree` describes the same tree from
//! the root down, which is the form that a look-up by position follows.

use crate::hashing::HashAlgorithm;
use crate::shape::{
    fold_rounds, half_up, lemma_split_point_bounds, lemma_split_point_halves, split_point,
};
use crate::tree::TreeView;
use vstd::prelude::*;

verus! {

/// The lowest level of the tree over `blocks`: one leaf for each block, in
/// order.
pub open spec fn leaf_level(algorithm: HashAlgorithm, blocks: Seq<Seq<u8>>) -> Seq<TreeView> {
    Seq::new(blocks.len(), |i: int| TreeView::leaf(algorithm, blocks[i]))
}

/// One fold round: the nodes of `level` are joined two by two from the left,
/// and a node left without a partner moves up as it is.
pub open spec fn fold_level(algorithm: HashAlgorithm, level: Seq<TreeView>) -> Seq<TreeView> {
    Seq::new(
        half_up(level.len()),
        |j: int|
            if 2 * j + 1 < level.len() {
                TreeView::join(algorithm, level[2 * j], level[2 * j + 1])
            } else {
                level[2 * j]
            },
    )
}

/// The node that is left when `level` is folded until one node remains.
pub open spec fn fold_all(algorithm: HashAlgorithm, level: Seq<TreeView>) -> TreeView
    decreases level.len(),
{
    if level.len() == 0 {
        TreeView::empty(algorithm)
    } else if level.len() == 1 {
        level[0]
    } else {
        fold_all(algorithm, fold_level(algorithm, level))
    }
}

/// The tree over `blocks`.
pub open spec fn build(algorithm: HashAlgorithm, blocks: Seq<Seq<u8>>) -> TreeView {
    fold_all(algorithm, leaf_level(algorithm, blocks))
}

/// The hash at the root of the tree over `blocks`: the commitment to them.
pub open spec fn root_of(algorithm: HashAlgorithm, blocks: Seq<Seq<u8>>) -> Seq<u8> {
    build(algorithm, blocks).hash()
}

/// The tree over `blocks`, from the root down: the first `split_point` blocks
/// make the left subtree, the others the right one.
pub open spec fn split_tree(algorithm: HashAlgorithm, blocks: Seq<Seq<u8>>) -> TreeView
    decreases blocks.len(),
{
    if blocks.len() == 0 {
        TreeView::empty(algorithm)
    } else if blocks.len() == 1 {
        TreeView::leaf(algorithm, blocks[0])
    } else {
        let at = split_point(blocks.len()) as int;
        proof {
            lemma_split_point_bounds(blocks.len());
        }
        TreeView::join(
            algorithm,
            split_tree(algorithm, blocks.subrange(0, at)),
            split_tree(algorithm, blocks.subrange(at, blocks.len() as int)),
        )
    }
}

/// A fold round before the others changes nothing of what they end in.
pub proof fn lemma_fold_all_step(algorithm: HashAlgorithm, level: Seq<TreeView>)
    requires
        level.len() >= 1,
    ensures
        fold_all(algorithm, fold_level(algorithm, level)) == fold_all(algorithm, level),
{
    if level.len() == 1 {
        assert(fold_level(algorithm, level) =~= level);
    }
}

/// Folding a level joins what folding its first `split_point` nodes gives with
/// what folding the others gives.
pub proof fn lemma_fold_splits(algorithm: HashAlgorithm, level: Seq<TreeView>)
    requires
        level.len() >= 2,
    ensures
        fold_all(algorithm, level) == TreeView::join(
            algorithm,
            fold_all(algorithm, level.subrange(0, split_point(level.len()) as int)),
            fold_all(
                algorithm,
                level.subrange(split_point(level.len()) as int, level.len() as int),
            ),
        ),
    decreases level.len(),
{
    let n = level.len() as int;
    let at = split_point(level.len()) as int;
    lemma_split_point_bounds(level.len());
    let up = fold_level(algorithm, level);
    let left = level.subrange(0, at);
    let right = level.subrange(at, n);
    if n == 2 {
        assert(up[0] == TreeView::join(algorithm, level[0], level[1]));
        assert(left[0] == level[0]);
        assert(right[0] == level[1]);
    } else {
        lemma_split_point_halves(level.len());
        let half = at / 2;
        lemma_fold_splits(algorithm, up);
        assert(up.subrange(0, half) =~= fold_level(algorithm, left));
        assert(up.subrange(half, up.len() as int) =~= fold_level(algorithm, right));
        lemma_fold_all_step(algorithm, left);
        lemma_fold_all_step(algorithm, right);
    }
}

/// The builder's tree is the tree described from the root down: a tree of two
/// or more blocks has the tree over the first `split_point` blocks on its
/// left and the tree over the others on its right.
pub proof fn lemma_build_is_split_tree(algorithm: HashAlgorithm, blocks: Seq<Seq<u8>>)
    ensures
        build(algorithm, blocks) == split_tree(algorithm, blocks),
    decreases blocks.len(),
{
    if blocks.len() >= 2 {
        let n = blocks.len() as int;
        let at = split_point(blocks.len()) as int;
        lemma_split_point_bounds(blocks.len());
        let level = leaf_level(algorithm, blocks);
        lemma_fold_splits(algorithm, level);
        assert(level.subrange(0, at) =~= leaf_level(algorithm, blocks.subrange(0, at)));
        assert(level.subrange(at, n) =~= leaf_level(algorithm, blocks.subrange(at, n)));
        lemma_build_is_split_tree(algorithm, blocks.subrange(0, at));
        lemma_build_is_split_tree(algorithm, blocks.subrange(at, n));
    }
}

/// The leaves of the tree over `blocks` are the blocks, in their order.
pub proof fn lemma_build_leaves(algorithm: HashAlgorithm, blocks: Seq<Seq<u8>>)
    ensures
        build(algorithm, blocks).leaves() == blocks,
    decreases blocks.len(),
{
    lemma_build_is_split_tree(algorithm, blocks);
    if blocks.len() >= 2 {
        let n = blocks.len() as int;
        let at = split_point(blocks.len()) as int;
        lemma_split_point_bounds(blocks.len());
        lemma_build_leaves(algorithm, blocks.subrange(0, at));
        lemma_build_leaves(algorithm, blocks.subrange(at, n));
        lemma_build_is_split_tree(algorithm, blocks.subrange(0, at));
        lemma_build_is_split_tree(algorithm, blocks.subrange(at, n));
        assert(blocks.subrange(0, at) + blocks.subrange(at, n) =~= blocks);
    } else if blocks.len() == 1 {
        assert(seq![blocks[0]] =~= blocks);
    } else {
        assert(Seq::<Seq<u8>>::empty() =~= blocks);
    }
}

/// The level that `rounds` fold rounds make of `level`.
pub open spec fn fold_times(
    algorithm: HashAlgorithm,
    level: Seq<TreeView>,
    rounds: nat,
) -> Seq<TreeView>
    decreases rounds,
{
    if rounds == 0 {
        level
    } else {
        fold_times(algorithm, fold_level(algorithm, level), (rounds - 1) as nat)
    }
}

/// Folding a level takes `fold_rounds` rounds: after that many one node is
/// left, the one that `fold_all` gives, and after fewer there are still
/// several.
pub proof fn lemma_fold_rounds(algorithm: HashAlgorithm, level: Seq<TreeView>)
    requires
        level.len() >= 1,
    ensures
        fold_times(algorithm, level, fold_rounds(level.len())) == seq![fold_all(algorithm, level)],
        forall|rounds: nat|
            rounds < fold_rounds(level.len()) ==> (#[trigger] fold_times(
                algorithm,
                level,
                rounds,
            )).len() > 1,
    decreases level.len(),
{
    if level.len() == 1 {
        assert(level =~= seq![level[0]]);
    } else {
        let up = fold_level(algorithm, level);
        lemma_fold_rounds(algorithm, up);
        assert forall|rounds: nat| rounds < fold_rounds(level.len()) implies (#[trigger] fold_times(
            algorithm,
            level,
            rounds,
        )).len() > 1 by {
            if rounds > 0 {
                assert(fold_times(algorithm, level, rounds) == fold_times(
                    algorithm,
                    up,
                    (rounds - 1) as nat,
                ));
            }
        }
    }
}

} // verus!
