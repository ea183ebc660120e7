//! The arithmetic behind the shape of a tree: how many fold rounds a level of
//! `n` nodes takes, and where a tree of `n` leaves divides into its left and
//! right subtrees.

use vstd::arithmetic::power2::{lemma_pow2_pos, lemma_pow2_unfold, pow2};
use vstd::prelude::*;

verus! {

/// The number of nodes in the level above a level of `n` nodes: one for each
/// pair, and one more for a node left without a partner.
pub open spec fn half_up(n: nat) -> nat {
    (n + 1) / 2
}

/// The number of fold rounds that reduce a level of `n` nodes to one node.
pub open spec fn fold_rounds(n: nat) -> nat
    decreases n,
{
    if n <= 1 {
        0
    } else {
        1 + fold_rounds(half_up(n))
    }
}

/// The least power of two that is at least `n`.
pub open spec fn next_power_of_two(n: nat) -> nat
    decreases n,
{
    if n <= 1 {
        1
    } else {
        2 * next_power_of_two(half_up(n))
    }
}

/// The number of leaves in the left subtree of a tree of `count` leaves.
pub open spec fn split_point(count: nat) -> nat {
    next_power_of_two(count) / 2
}

/// `next_power_of_two(n)` is two to the number of fold rounds of `n`; it is at
/// least `n`, and less than twice `n` unless `n` is zero.
pub proof fn lemma_next_power_of_two(n: nat)
    ensures
        next_power_of_two(n) == pow2(fold_rounds(n)),
        n <= next_power_of_two(n),
        n >= 1 ==> next_power_of_two(n) < 2 * n,
    decreases n,
{
    if n <= 1 {
        lemma_pow2_unfold(1);
        lemma_pow2_pos(0);
        assert(pow2(0) == 1) by {
            vstd::arithmetic::power2::lemma2_to64();
        }
    } else {
        lemma_next_power_of_two(half_up(n));
        lemma_pow2_unfold(fold_rounds(n));
    }
}

/// A tree of two or more leaves divides into two subtrees that both hold
/// leaves.
pub proof fn lemma_split_point_bounds(count: nat)
    requires
        count >= 2,
    ensures
        0 < split_point(count) < count,
{
    lemma_next_power_of_two(count);
    lemma_next_power_of_two(half_up(count));
}

/// Above two leaves the split point is even, and half of it is the split point
/// of the level above.
pub proof fn lemma_split_point_halves(count: nat)
    requires
        count > 2,
    ensures
        split_point(count) % 2 == 0,
        split_point(count) / 2 == split_point(half_up(count)),
{
}

/// Between a power of two and its double the next power of two is the double.
pub proof fn lemma_split_point_is(exponent: nat, count: nat)
    requires
        pow2(exponent) < count <= 2 * pow2(exponent),
    ensures
        split_point(count) == pow2(exponent),
    decreases exponent,
{
    if exponent == 0 {
        assert(pow2(0) == 1) by {
            vstd::arithmetic::power2::lemma2_to64();
        }
        assert(count == 2);
        assert(next_power_of_two(2) == 2 * next_power_of_two(1));
    } else {
        lemma_pow2_unfold(exponent);
        let below = (exponent - 1) as nat;
        lemma_pow2_pos(below);
        lemma_split_point_is(below, half_up(count));
    }
}

/// The number of leaves in the left subtree of a tree of `count` leaves: the
/// greatest power of two below `count`, and zero where there is none.
pub fn left_count(count: usize) -> (left: usize)
    ensures
        left == split_point(count as nat),
{
    if count <= 1 {
        return 0;
    }
    let mut left: usize = 1;
    let ghost mut exponent: nat = 0;
    proof {
        assert(pow2(0) == 1) by {
            vstd::arithmetic::power2::lemma2_to64();
        }
    }
    while left < count - left
        invariant
            count >= 2,
            left == pow2(exponent),
            1 <= left < count,
        decreases count - left,
    {
        proof {
            lemma_pow2_unfold(exponent + 1);
            exponent = exponent + 1;
        }
        left = left + left;
    }
    proof {
        lemma_split_point_is(exponent, count as nat);
    }
    left
}

} // verus!
