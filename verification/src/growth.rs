//! How the tree changes when one more leaf comes.
use crate::arith;
use crate::distance;
use crate::formula;
use crate::model;
use crate::nodes;
use vstd::arithmetic::power2::*;
use vstd::prelude::*;

verus! {

/// The height that the node `b_{n,h}` at the right edge of the tree has after the next leaf.
pub open spec fn next_height(n: nat, h: nat) -> nat {
    if nodes::perfect(n, h) {
        h + 1
    } else {
        h
    }
}

/// Whether `b_{n,h}` can take one more leaf on its right.
pub open spec fn open_ended(n: nat, h: nat) -> bool {
    &&& nodes::valid(n, h)
    &&& nodes::perfect(n, h) ==> (nodes::first(n, h) - 1) as nat % pow2(h + 1) == 0
}

/// The root can take one more leaf, and its height after that is the height of the next tree.
pub proof fn lemma_root_open(n: nat)
    requires
        n >= 1,
    ensures
        open_ended(n, model::height(n)),
        next_height(n, model::height(n)) == model::height(n + 1),
{
    let h = model::height(n);
    nodes::lemma_valid(n, h);
    lemma_pow2_pos(h + 1);
    vstd::arithmetic::div_mod::lemma_small_mod(0, pow2(h + 1));
    lemma_next(n, h);
    nodes::lemma_span(n + 1, next_height(n, h));
}

/// With the next leaf a perfect node becomes the left child of a new one; any other keeps its left
/// child, and the leaf goes to its right child.
pub proof fn lemma_next(n: nat, h: nat)
    requires
        open_ended(n, h),
    ensures
        nodes::valid(n + 1, next_height(n, h)),
        nodes::first(n + 1, next_height(n, h)) == nodes::first(n, h),
        nodes::perfect(n, h) ==> nodes::left_i(n + 1, h + 1) == n && nodes::right_j(n + 1, h + 1)
            == 0,
        !nodes::perfect(n, h) ==> {
            &&& h >= 1
            &&& nodes::left_i(n + 1, h) == nodes::left_i(n, h)
            &&& open_ended(n, nodes::right_j(n, h))
            &&& nodes::right_j(n + 1, h) == next_height(n, nodes::right_j(n, h))
            &&& nodes::right_j(n, h) < h
        },
    decreases h,
{
    lemma2_to64();
    nodes::lemma_span(n, h);
    nodes::lemma_perfect(n, h);
    let f = (nodes::first(n, h) - 1) as nat;
    let m = nodes::leaves(n, h);
    lemma_pow2_unfold(h + 1);
    if nodes::perfect(n, h) {
        lemma_pow2_pos(h);
        arith::lemma_mod_of_sum(f, m, h + 1, h + 1);
        assert((n + 1 - 1) as nat % pow2(h + 1) == m);
        arith::lemma_clog2_unique(m + 1, h + 1);
        assert(nodes::first(n + 1, h + 1) == f + 1);
        assert(nodes::left_i(n + 1, h + 1) == n);
        assert(arith::clog2(1) == 0);
    } else {
        assert(h >= 1) by {
            nodes::lemma_leaf(n);
        }
        nodes::lemma_children(n, h);
        arith::lemma_mod_of_sum(f, m, h, h);
        assert((n + 1 - 1) as nat % pow2(h) == m);
        arith::lemma_clog2_unique(m + 1, h);
        assert(nodes::first(n + 1, h) == f + 1);
        let g = nodes::right_j(n, h);
        let l = nodes::left_i(n, h);
        nodes::lemma_perfect(n, g);
        if nodes::perfect(n, g) {
            // a right child as high as the left one would make the node perfect
            assert(g < h - 1) by {
                if g == h - 1 {
                    lemma_pow2_unfold(h);
                }
            }
            arith::lemma_mod_divides(l, (h - 1) as nat, g + 1);
        }
        lemma_next(n, g);
        nodes::lemma_span(n + 1, next_height(n, g));
    }
}

/// The left children of the nodes that the next leaf brings are the roots of the perfect subtrees,
/// from right to left.
pub proof fn lemma_lefts(n: nat, h: nat)
    requires
        open_ended(n, h),
        n < u64::MAX,
    ensures
        model::spine(n + 1, next_height(n, h)).map_values(|b: formula::INode| b.left)
            == model::perfect_roots(n, h).reverse(),
    decreases h,
{
    let left = |b: formula::INode| b.left;
    let next = next_height(n, h);
    lemma_next(n, h);
    nodes::lemma_children(n + 1, next);
    formula::lemma_height((n + 1) as u64, next);
    let s = model::spine(n + 1, next);
    if nodes::perfect(n, h) {
        assert(model::spine(n + 1, 0) =~= seq![]);
        assert(s =~= seq![model::branch(n + 1, next)]);
        assert(s.map_values(left) =~= seq![model::addr(n, h)]);
        assert(model::perfect_roots(n, h).reverse() =~= seq![model::addr(n, h)]);
    } else {
        nodes::lemma_children(n, h);
        let g = nodes::right_j(n, h);
        lemma_lefts(n, g);
        let low = model::spine(n + 1, next_height(n, g));
        let top = model::addr(nodes::left_i(n, h), (h - 1) as nat);
        assert(s == low.push(model::branch(n + 1, h)));
        assert(s.map_values(left) =~= low.map_values(left).push(top));
        assert(model::perfect_roots(n, h).reverse() =~= model::perfect_roots(n, g).reverse().push(
            top,
        ));
    }
}

/// A perfect subtree of the next tree is one of this tree, or it ends with the new leaf.
pub proof fn lemma_roots_kept(n: nat, h: nat)
    requires
        open_ended(n, h),
        n < u64::MAX,
    ensures
        forall|k: int|
            0 <= k < model::perfect_roots(n + 1, next_height(n, h)).len() ==> {
                let root = #[trigger] model::perfect_roots(n + 1, next_height(n, h))[k];
                root.i == n + 1 || model::perfect_roots(n, h).contains(root)
            },
    decreases h,
{
    let next = next_height(n, h);
    lemma_next(n, h);
    nodes::lemma_children(n + 1, next);
    formula::lemma_height((n + 1) as u64, next);
    let after = model::perfect_roots(n + 1, next);
    let before = model::perfect_roots(n, h);
    if nodes::perfect(n + 1, next) {
        assert(after =~= seq![model::addr(n + 1, next)]);
    } else if nodes::perfect(n, h) {
        let low = model::perfect_roots(n + 1, 0);
        assert(nodes::perfect(n + 1, 0)) by {
            lemma2_to64();
        }
        assert(low =~= seq![model::addr(n + 1, 0)]);
        assert(before[0] == model::addr(n, h));
        assert(after =~= seq![model::addr(n, h)] + low);
    } else {
        nodes::lemma_children(n, h);
        let g = nodes::right_j(n, h);
        lemma_roots_kept(n, g);
        let low = model::perfect_roots(n + 1, next_height(n, g));
        let old_low = model::perfect_roots(n, g);
        let top = model::addr(nodes::left_i(n, h), (h - 1) as nat);
        assert(before[0] == top);
        assert forall|k: int| 0 <= k < after.len() implies (#[trigger] after[k]).i == n + 1
            || before.contains(after[k]) by {
            if k > 0 {
                assert(after[k] == low[k - 1]);
                if low[k - 1].i != n + 1 {
                    let x = choose|x: int| 0 <= x < old_low.len() && old_low[x] == low[k - 1];
                    assert(before[x + 1] == low[k - 1]);
                }
            } else {
                assert(after[0] == top);
            }
        }
    }
}

/// No entry comes nearer with the next leaf.
pub proof fn lemma_distance_grows(n: nat, h: nat, k: nat)
    requires
        open_ended(n, h),
        nodes::covers(n, h, k),
    ensures
        distance::distance(n, h, k) <= distance::distance(n + 1, next_height(n, h), k),
    decreases h,
{
    let next = next_height(n, h);
    lemma_next(n, h);
    nodes::lemma_children(n + 1, next);
    if !nodes::perfect(n, h) {
        nodes::lemma_children(n, h);
        let g = nodes::right_j(n, h);
        if k > nodes::left_i(n, h) {
            lemma_distance_grows(n, g, k);
        }
    }
}

} // verus!
