//! The shape of the tree: which nodes exist, which leaves they cover and where they branch.
//!
//! A node `b_{i,j}` is the root of a subtree whose last leaf is `i` and whose height is `j`. It
//! covers the leaves from `first(i, j)` to `i`, and it branches after as many leaves as the
//! greatest power of two that is smaller than their number.
use crate::arith;
use vstd::arithmetic::power2::*;
use vstd::prelude::*;

verus! {

/// The number of leaves below the node `b_{i,j}`.
pub open spec fn leaves(i: nat, j: nat) -> nat
    recommends
        i >= 1,
{
    (i - 1) as nat % pow2(j) + 1
}

/// The first (leftmost) leaf below the node `b_{i,j}`.
pub open spec fn first(i: nat, j: nat) -> nat
    recommends
        i >= 1,
{
    (i - (i - 1) as nat % pow2(j)) as nat
}

/// Whether `b_{i,j}` is a node of some generation: its height is that of a tree with as many
/// leaves as it covers.
pub open spec fn valid(i: nat, j: nat) -> bool {
    i >= 1 && arith::clog2(leaves(i, j)) == j
}

/// Whether the leaf `k` is below the node `b_{i,j}`.
pub open spec fn covers(i: nat, j: nat, k: nat) -> bool {
    first(i, j) <= k <= i
}

/// The index of the left child of `b_{i,j}`; its height is `j - 1`.
pub open spec fn left_i(i: nat, j: nat) -> nat
    recommends
        i >= 1,
        j >= 1,
{
    (first(i, j) - 1 + pow2((j - 1) as nat)) as nat
}

/// The height of the right child of `b_{i,j}`; its index is `i`.
pub open spec fn right_j(i: nat, j: nat) -> nat
    recommends
        i >= 1,
        j >= 1,
{
    arith::clog2((i - left_i(i, j)) as nat)
}

/// Whether the subtree of `b_{i,j}` is a perfect binary tree. Such a node stays in every later
/// generation.
pub open spec fn perfect(i: nat, j: nat) -> bool {
    i % pow2(j) == 0
}

/// A node covers at least one leaf and at most `2^j`, and its range starts right after a multiple
/// of `2^j`.
pub proof fn lemma_span(i: nat, j: nat)
    requires
        i >= 1,
    ensures
        1 <= leaves(i, j) <= pow2(j),
        leaves(i, j) <= i,
        1 <= first(i, j) <= i,
        first(i, j) + leaves(i, j) == i + 1,
        (first(i, j) - 1) as nat % pow2(j) == 0,
{
    arith::lemma_mod_rest((i - 1) as nat, j);
    lemma_pow2_pos(j);
    assert(leaves(i, j) == (i - 1) as nat % pow2(j) + 1);
}

/// A leaf is a node that covers itself alone.
pub proof fn lemma_leaf(i: nat)
    requires
        i >= 1,
    ensures
        valid(i, 0),
        leaves(i, 0) == 1,
        first(i, 0) == i,
{
    lemma2_to64();
}

/// The two children of a node exist, are lower than it, and split its leaves in two adjoining
/// parts, of which the left one is perfect.
pub proof fn lemma_children(i: nat, j: nat)
    requires
        valid(i, j),
        j >= 1,
    ensures
        pow2((j - 1) as nat) < leaves(i, j) <= pow2(j),
        left_i(i, j) < i,
        left_i(i, j) >= 1,
        valid(left_i(i, j), (j - 1) as nat),
        perfect(left_i(i, j), (j - 1) as nat),
        first(left_i(i, j), (j - 1) as nat) == first(i, j),
        leaves(left_i(i, j), (j - 1) as nat) == pow2((j - 1) as nat),
        valid(i, right_j(i, j)),
        right_j(i, j) < j,
        first(i, right_j(i, j)) == left_i(i, j) + 1,
        leaves(i, right_j(i, j)) == leaves(i, j) - pow2((j - 1) as nat),
{
    let m = leaves(i, j);
    let h = (j - 1) as nat;
    let f = (first(i, j) - 1) as nat;
    lemma_span(i, j);
    arith::lemma_clog2(m);
    lemma_pow2_pos(h);
    lemma_pow2_unfold(j);
    // left
    let l = left_i(i, j);
    assert(l == f + pow2(h));
    arith::lemma_mod_of_sum(f, (pow2(h) - 1) as nat, j, h);
    assert((l - 1) as nat % pow2(h) == pow2(h) - 1);
    if h >= 1 {
        lemma_pow2_strictly_increases((h - 1) as nat, h);
    }
    arith::lemma_clog2_unique(pow2(h), h);
    arith::lemma_mod_divides(f, j, h);
    assert(f % pow2(h) == 0);
    assert(l % pow2(h) == 0) by {
        vstd::arithmetic::div_mod::lemma_mod_add_multiples_vanish(f as int, pow2(h) as int);
    }
    // right
    let r = (i - l) as nat;
    let g = right_j(i, j);
    assert(1 <= r <= pow2(h));
    arith::lemma_clog2(r);
    arith::lemma_clog2_bound(r, h);
    arith::lemma_mod_of_sum(l, (r - 1) as nat, h, g);
}

/// One step below a multiple of `2^j` the remainder is the greatest; elsewhere it is one less.
pub proof fn lemma_predecessor(i: nat, j: nat)
    requires
        i >= 1,
    ensures
        perfect(i, j) ==> leaves(i, j) == pow2(j),
        !perfect(i, j) ==> leaves(i, j) == i % pow2(j),
{
    lemma_pow2_pos(j);
    arith::lemma_mod_rest(i, j);
    let r = i % pow2(j);
    let base = (i - r) as nat;
    if r >= 1 {
        arith::lemma_mod_of_sum(base, (r - 1) as nat, j, j);
    } else {
        let d = pow2(j) as int;
        assert(i >= d) by {
            if i < d {
                vstd::arithmetic::div_mod::lemma_small_mod(i, pow2(j));
            }
        }
        vstd::arithmetic::div_mod::lemma_mod_sub_multiples_vanish(i as int, d);
        arith::lemma_mod_of_sum((i - d) as nat, (d - 1) as nat, j, j);
    }
}

/// A node is perfect exactly where it covers `2^j` leaves.
pub proof fn lemma_perfect(i: nat, j: nat)
    requires
        i >= 1,
    ensures
        perfect(i, j) <==> leaves(i, j) == pow2(j),
        perfect(i, j) ==> valid(i, j) && i >= pow2(j),
{
    lemma_predecessor(i, j);
    lemma_pow2_pos(j);
    arith::lemma_mod_rest(i, j);
    if perfect(i, j) {
        lemma_span(i, j);
        if j >= 1 {
            lemma_pow2_strictly_increases((j - 1) as nat, j);
        }
        arith::lemma_clog2_unique(pow2(j), j);
    }
}

/// Which nodes exist, by the remainder of the index.
pub proof fn lemma_valid(i: nat, j: nat)
    requires
        i >= 1,
    ensures
        valid(i, j) <==> perfect(i, j) || (j >= 1 && i % pow2(j) > pow2((j - 1) as nat)),
        j > arith::clog2(i) ==> !valid(i, j),
        j == arith::clog2(i) ==> valid(i, j) && leaves(i, j) == i && first(i, j) == 1,
{
    lemma_perfect(i, j);
    lemma_predecessor(i, j);
    lemma_span(i, j);
    lemma2_to64();
    let m = leaves(i, j);
    arith::lemma_mod_rest(i, j);
    if !perfect(i, j) {
        arith::lemma_clog2(m);
        if j >= 1 && m > pow2((j - 1) as nat) {
            arith::lemma_clog2_unique(m, j);
        }
    }
    arith::lemma_clog2(i);
    arith::lemma_clog2_bound(m, arith::clog2(i));
    if j == arith::clog2(i) {
        vstd::arithmetic::div_mod::lemma_small_mod((i - 1) as nat, pow2(j));
    }
}

} // verus!
