//! How far an entry is from the latest one, and how long the path from the root to a leaf is.
use crate::arith;
use crate::formula;
use crate::formula::{ceil_log2, contains, first_leaf, pow2e, root_of, subnodes_of, Addr, Index};
use crate::model;
use crate::nodes;
use std::ops::RangeInclusive;
use vstd::arithmetic::power2::*;
use vstd::prelude::*;

verus! {

/// The number of nodes that branch off the path from the node `b_{i,j}` to the leaf `k`.
pub open spec fn depth(i: nat, j: nat, k: nat) -> nat
    decreases j,
{
    if j == 0 || nodes::right_j(i, j) >= j {
        0
    } else if k <= nodes::left_i(i, j) {
        1 + depth(nodes::left_i(i, j), (j - 1) as nat, k)
    } else {
        1 + depth(i, nodes::right_j(i, j), k)
    }
}

/// The number of further entries to read for the leaf `k` where the entry with the node `b_{i,j}`
/// is at hand: the right child of a node is in the same entry, the left one is in another.
pub open spec fn distance(i: nat, j: nat, k: nat) -> nat
    decreases j,
{
    if j == 0 || nodes::right_j(i, j) >= j {
        0
    } else if k <= nodes::left_i(i, j) {
        1 + distance(nodes::left_i(i, j), (j - 1) as nat, k)
    } else {
        distance(i, nodes::right_j(i, j), k)
    }
}

/// A path is no longer than the height of the node that it starts from, and no entry is farther.
pub proof fn lemma_depth_bound(i: nat, j: nat, k: nat)
    requires
        nodes::valid(i, j),
    ensures
        depth(i, j, k) <= j,
        distance(i, j, k) <= depth(i, j, k),
    decreases j,
{
    if j > 0 {
        nodes::lemma_children(i, j);
        if k <= nodes::left_i(i, j) {
            lemma_depth_bound(nodes::left_i(i, j), (j - 1) as nat, k);
        } else {
            lemma_depth_bound(i, nodes::right_j(i, j), k);
        }
    }
}

/// The number of hash values in the stratum sample of the leaf `i` in the tree of `n` leaves; 0
/// where there is no such leaf.
#[inline]
pub fn stratum_sample_size(n: Index, i: Index) -> (r: u8)
    requires
        n > 0,
    ensures
        r == (if 1 <= i <= n {
            depth(n as nat, model::height(n as nat), i as nat)
        } else {
            0
        }),
{
    let (ri, rj) = root_of(n);
    proof {
        nodes::lemma_valid(n as nat, model::height(n as nat));
    }
    if contains(ri, rj, i) {
        branch_count(i, ri, rj, 0)
    } else {
        0
    }
}

/// `count` and the number of nodes that branch off the path from `b_{i,j}` to the leaf `ti`.
fn branch_count(ti: Index, i: Index, j: u8, count: u8) -> (r: u8)
    requires
        nodes::valid(i as nat, j as nat),
        nodes::covers(i as nat, j as nat, ti as nat),
        count + j <= 64,
    ensures
        r == count + depth(i as nat, j as nat, ti as nat),
    decreases j,
{
    if j == 0 {
        count
    } else {
        let ((il, jl), (ir, jr)) = subnodes_of(i, j);
        proof {
            nodes::lemma_children(i as nat, j as nat);
        }
        if contains(il, jl, ti) {
            branch_count(ti, il, jl, count + 1)
        } else {
            branch_count(ti, ir, jr, count + 1)
        }
    }
}

/// A number below `2^j` has at most `j` one bits; a further bit at `j` adds one.
pub proof fn lemma_ones(o: nat, j: nat)
    requires
        o < pow2(j),
    ensures
        arith::ones(o) <= j,
        arith::ones(o + pow2(j)) == arith::ones(o) + 1,
    decreases j,
{
    lemma2_to64();
    if j == 0 {
        assert(arith::ones(1) == 1) by {
            reveal_with_fuel(arith::ones, 2);
        }
    } else {
        lemma_pow2_unfold(j);
        lemma_ones(o / 2, (j - 1) as nat);
        let x = o + pow2(j);
        assert(x / 2 == o / 2 + pow2((j - 1) as nat));
        assert(x % 2 == o % 2);
    }
}

/// In a perfect subtree the distance is the number of zero bits in the offset of the leaf.
pub proof fn lemma_distance_perfect(i: nat, j: nat, k: nat)
    requires
        i >= 1,
        nodes::perfect(i, j),
        nodes::covers(i, j, k),
    ensures
        distance(i, j, k) + arith::ones((k - nodes::first(i, j)) as nat) == j,
        (k - nodes::first(i, j)) as nat <= pow2(j) - 1,
    decreases j,
{
    nodes::lemma_perfect(i, j);
    nodes::lemma_span(i, j);
    let o = (k - nodes::first(i, j)) as nat;
    if j > 0 {
        let h = (j - 1) as nat;
        model::lemma_spine_perfect(i, j);
        assert(nodes::perfect(i, h));
        nodes::lemma_perfect(i, h);
        nodes::lemma_children(i, j);
        lemma_pow2_unfold(j);
        nodes::lemma_span(i, h);
        let l = nodes::left_i(i, j);
        assert(nodes::right_j(i, j) == h) by {
            lemma_pow2_pos(h);
            if h >= 1 {
                lemma_pow2_strictly_increases((h - 1) as nat, h);
            }
            arith::lemma_clog2_unique(pow2(h), h);
        }
        if k <= l {
            lemma_distance_perfect(l, h, k);
        } else {
            lemma_distance_perfect(i, h, k);
            lemma_ones((o - pow2(h)) as nat, h);
        }
    } else {
        lemma2_to64();
    }
}

/// The distance to a leaf below the `p`-th perfect subtree.
pub proof fn lemma_distance_root(i: nat, j: nat, p: int, k: nat)
    requires
        nodes::valid(i, j),
        i <= u64::MAX,
        0 <= p < model::perfect_roots(i, j).len(),
        ({
            let root = model::perfect_roots(i, j)[p];
            nodes::covers(root.i as nat, root.j as nat, k)
        }),
    ensures
        ({
            let root = model::perfect_roots(i, j)[p];
            let o = (k - nodes::first(root.i as nat, root.j as nat)) as nat;
            let further: nat = if root.i != i {
                1
            } else {
                0
            };
            &&& root.i >= 1
            &&& nodes::perfect(root.i as nat, root.j as nat)
            &&& nodes::covers(i, j, k)
            &&& nodes::first(i, j) <= nodes::first(root.i as nat, root.j as nat)
            &&& root.i <= i
            &&& root.j <= j
            &&& distance(i, j, k) == root.j - arith::ones(o) + further
            &&& arith::ones(o) <= root.j
        }),
    decreases j,
{
    formula::lemma_height(i as u64, j);
    nodes::lemma_span(i, j);
    if nodes::perfect(i, j) {
        lemma_distance_perfect(i, j, k);
        lemma_ones((k - nodes::first(i, j)) as nat, j);
    } else {
        lemma2_to64();
        assert(j > 0) by {
            nodes::lemma_leaf(i);
        }
        nodes::lemma_children(i, j);
        let l = nodes::left_i(i, j);
        let h = (j - 1) as nat;
        let g = nodes::right_j(i, j);
        nodes::lemma_span(l, h);
        if p == 0 {
            assert(model::perfect_roots(i, j)[0] == model::addr(l, h));
            lemma_distance_perfect(l, h, k);
        } else {
            assert(model::perfect_roots(i, j)[p] == model::perfect_roots(i, g)[p - 1]);
            lemma_distance_root(i, g, p - 1, k);
        }
    }
}

/// Every leaf below a node is below one of its perfect subtrees.
pub proof fn lemma_roots_cover(i: nat, j: nat, k: nat) -> (p: int)
    requires
        nodes::valid(i, j),
        i <= u64::MAX,
        nodes::covers(i, j, k),
    ensures
        0 <= p < model::perfect_roots(i, j).len(),
        ({
            let root = model::perfect_roots(i, j)[p];
            nodes::covers(root.i as nat, root.j as nat, k)
        }),
    decreases j,
{
    formula::lemma_height(i as u64, j);
    if nodes::perfect(i, j) {
        0
    } else {
        lemma2_to64();
        assert(j > 0) by {
            nodes::lemma_leaf(i);
        }
        nodes::lemma_children(i, j);
        let l = nodes::left_i(i, j);
        if k <= l {
            assert(model::perfect_roots(i, j)[0] == model::addr(l, (j - 1) as nat));
            0
        } else {
            let p = lemma_roots_cover(i, nodes::right_j(i, j), k);
            assert(model::perfect_roots(i, j)[p + 1] == model::perfect_roots(
                i,
                nodes::right_j(i, j),
            )[p]);
            p + 1
        }
    }
}

/// The distance from the latest entry to the entry `k` in the tree of `n` leaves: how many entries
/// are to be read for it once the latest one is at hand. There is none for an index outside.
pub fn entry_access_distance(k: Index, n: Index) -> (r: Option<u8>)
    ensures
        r == (if 1 <= k <= n {
            Some(distance(n as nat, model::height(n as nat), k as nat) as u8)
        } else {
            None
        }),
        1 <= k <= n ==> distance(n as nat, model::height(n as nat), k as nat) <= 64,
{
    let roots = model::pbst_roots(n);
    let ghost h = model::height(n as nat);
    proof {
        if n > 0 {
            nodes::lemma_valid(n as nat, h);
            formula::lemma_height(n, h);
            lemma_depth_bound(n as nat, h, k as nat);
            if 1 <= k <= n {
                let p = lemma_roots_cover(n as nat, h, k as nat);
            }
        }
    }
    let mut p: usize = 0;
    while p < roots.len()
        invariant
            p <= roots@.len(),
            n == 0 ==> roots@.len() == 0,
            n > 0 ==> roots@ == model::perfect_roots(n as nat, h) && nodes::valid(n as nat, h)
                && nodes::first(n as nat, h) == 1,
            h <= 64 || n == 0,
            h == model::height(n as nat),
            forall|q: int|
                0 <= q < p ==> !nodes::covers(
                    (#[trigger] roots@[q]).i as nat,
                    roots@[q].j as nat,
                    k as nat,
                ),
        decreases roots@.len() - p,
    {
        let root: Addr = roots[p];
        proof {
            lemma_root(n as nat, h, p as int);
        }
        if contains(root.i, root.j, k) {
            proof {
                lemma_distance_root(n as nat, h, p as int, k as nat);
                nodes::lemma_span(root.i as nat, root.j as nat);
                lemma_depth_bound(n as nat, h, k as nat);
            }
            let zeros: u8 = root.j - formula::count_ones(k - first_leaf(root.i, root.j));
            return Some(
                if root.i != n {
                    zeros + 1
                } else {
                    zeros
                },
            );
        }
        p = p + 1;
    }
    None
}

/// A root of a perfect subtree is a perfect node.
pub proof fn lemma_root(i: nat, j: nat, p: int)
    requires
        nodes::valid(i, j),
        i <= u64::MAX,
        0 <= p < model::perfect_roots(i, j).len(),
    ensures
        ({
            let root = model::perfect_roots(i, j)[p];
            &&& 1 <= root.i <= i
            &&& root.j <= j
            &&& nodes::perfect(root.i as nat, root.j as nat)
            &&& nodes::first(root.i as nat, root.j as nat) >= nodes::first(i, j)
        }),
{
    let root = model::perfect_roots(i, j)[p];
    lemma_root_covers(i, j, p);
    lemma_distance_root(i, j, p, root.i as nat);
}

proof fn lemma_root_covers(i: nat, j: nat, p: int)
    requires
        nodes::valid(i, j),
        i <= u64::MAX,
        0 <= p < model::perfect_roots(i, j).len(),
    ensures
        ({
            let root = model::perfect_roots(i, j)[p];
            nodes::covers(root.i as nat, root.j as nat, root.i as nat)
        }),
    decreases j,
{
    formula::lemma_height(i as u64, j);
    nodes::lemma_span(i, j);
    if !nodes::perfect(i, j) {
        lemma2_to64();
        assert(j > 0) by {
            nodes::lemma_leaf(i);
        }
        nodes::lemma_children(i, j);
        let l = nodes::left_i(i, j);
        nodes::lemma_span(l, (j - 1) as nat);
        if p == 0 {
            assert(model::perfect_roots(i, j)[0] == model::addr(l, (j - 1) as nat));
        } else {
            let g = nodes::right_j(i, j);
            assert(model::perfect_roots(i, j)[p] == model::perfect_roots(i, g)[p - 1]);
            lemma_root_covers(i, g, p - 1);
        }
    }
}

/// The greatest distance to an entry from `k` to `n`.
pub open spec fn farthest(n: nat, k: nat) -> nat
    decreases n - k,
{
    let d = distance(n, model::height(n), k);
    if k >= n || d >= farthest(n, k + 1) {
        d
    } else {
        farthest(n, k + 1)
    }
}

/// The least distance to an entry from 1 to `k`.
pub open spec fn nearest(n: nat, k: nat) -> nat
    decreases k,
{
    let d = distance(n, model::height(n), k);
    if k <= 1 || d <= nearest(n, (k - 1) as nat) {
        d
    } else {
        nearest(n, (k - 1) as nat)
    }
}

/// A number of `c` one bits is at least `2^c - 1`, which has them.
proof fn lemma_ones_least(o: nat)
    ensures
        o + 1 >= pow2(arith::ones(o)),
    decreases o,
{
    lemma2_to64();
    if o > 0 {
        lemma_ones_least(o / 2);
        if o % 2 == 0 {
            lemma_pow2_pos(arith::ones(o));
        } else {
            lemma_pow2_unfold(arith::ones(o));
        }
    }
}

proof fn lemma_ones_full(c: nat)
    ensures
        arith::ones((pow2(c) - 1) as nat) == c,
    decreases c,
{
    lemma2_to64();
    if c > 0 {
        lemma_ones_full((c - 1) as nat);
        lemma_pow2_unfold(c);
        lemma_pow2_pos((c - 1) as nat);
        let x = (pow2(c) - 1) as nat;
        assert(x / 2 == pow2((c - 1) as nat) - 1);
        assert(x % 2 == 1);
    }
}

/// Among the numbers below `2^j`, those above `2^j - 2^d` have more than `j - d` one bits, and
/// that number has exactly as many.
proof fn lemma_ones_top(o: nat, j: nat, d: nat)
    requires
        d <= j,
        pow2(j) - pow2(d) <= o < pow2(j),
    ensures
        o > pow2(j) - pow2(d) ==> arith::ones(o) > j - d,
        o == pow2(j) - pow2(d) ==> arith::ones(o) == j - d,
    decreases j,
{
    lemma2_to64();
    lemma_pow2_pos(d);
    if d == j {
        if o > 0 {
            lemma_ones_positive(o);
        }
    } else {
        let h = (j - 1) as nat;
        lemma_pow2_unfold(j);
        arith::lemma_pow2_monotone(d, h);
        let rest = (o - pow2(h)) as nat;
        lemma_ones_top(rest, h, d);
        lemma_ones(rest, h);
    }
}

proof fn lemma_ones_positive(o: nat)
    requires
        o > 0,
    ensures
        arith::ones(o) > 0,
    decreases o,
{
    if o % 2 == 0 {
        lemma_ones_positive(o / 2);
    }
}

/// The last leaf below `b_{i,j}` at a distance of `d` or more; 0 where there is none.
spec fn last_at(i: nat, j: nat, d: nat) -> nat
    decreases j,
{
    if nodes::perfect(i, j) || j == 0 || nodes::right_j(i, j) >= j {
        if d <= j {
            (nodes::first(i, j) + pow2(j) - pow2(d)) as nat
        } else {
            0
        }
    } else {
        let right = last_at(i, nodes::right_j(i, j), d);
        if right > 0 {
            right
        } else if d == 0 {
            0
        } else {
            last_at(nodes::left_i(i, j), (j - 1) as nat, (d - 1) as nat)
        }
    }
}

proof fn lemma_last_at(i: nat, j: nat, d: nat)
    requires
        nodes::valid(i, j),
    ensures
        d <= j <==> last_at(i, j, d) > 0,
        d <= j ==> nodes::covers(i, j, last_at(i, j, d)),
        d <= j ==> distance(i, j, last_at(i, j, d)) >= d,
        d == 0 ==> last_at(i, j, d) == i,
        d == j ==> last_at(i, j, d) == nodes::first(i, j),
        forall|k: nat|
            nodes::covers(i, j, k) && k > last_at(i, j, d) ==> #[trigger] distance(i, j, k) < d,
    decreases j,
{
    lemma2_to64();
    nodes::lemma_span(i, j);
    lemma_pow2_pos(j);
    lemma_pow2_pos(d);
    if nodes::perfect(i, j) {
        nodes::lemma_perfect(i, j);
        let f = nodes::first(i, j);
        let x = last_at(i, j, d);
        if d <= j {
            arith::lemma_pow2_monotone(d, j);
            lemma_distance_perfect(i, j, x);
            lemma_ones_top((x - f) as nat, j, d);
            assert forall|k: nat| nodes::covers(i, j, k) && k > x implies #[trigger] distance(
                i,
                j,
                k,
            ) < d by {
                lemma_distance_perfect(i, j, k);
                lemma_ones_top((k - f) as nat, j, d);
            }
        } else {
            assert forall|k: nat| nodes::covers(i, j, k) implies #[trigger] distance(i, j, k)
                < d by {
                lemma_depth_bound(i, j, k);
            }
        }
    } else {
        assert(j > 0) by {
            nodes::lemma_leaf(i);
        }
        nodes::lemma_children(i, j);
        let l = nodes::left_i(i, j);
        let h = (j - 1) as nat;
        let g = nodes::right_j(i, j);
        lemma_last_at(i, g, d);
        let x = last_at(i, j, d);
        if d >= 1 {
            lemma_last_at(l, h, (d - 1) as nat);
        }
        assert forall|k: nat| nodes::covers(i, j, k) && k > x implies #[trigger] distance(
            i,
            j,
            k,
        ) < d by {
            if k <= l {
                assert(distance(l, h, k) < d - 1);
            } else {
                assert(distance(i, g, k) < d);
            }
        }
    }
}

/// From `k` on there is an entry at a distance of `d` or more exactly up to the last such one.
proof fn lemma_farthest(n: nat, k: nat, d: nat)
    requires
        1 <= k <= n,
        d <= model::height(n),
    ensures
        farthest(n, k) >= d <==> k <= last_at(n, model::height(n), d),
        farthest(n, k) <= model::height(n),
    decreases n - k,
{
    let h = model::height(n);
    nodes::lemma_valid(n, h);
    lemma_last_at(n, h, d);
    lemma_depth_bound(n, h, k);
    if k < n {
        lemma_farthest(n, k + 1, d);
    }
}

/// The first leaf at a distance of `d` or less.
spec fn first_at(n: nat, d: nat) -> nat {
    if d == 0 {
        n
    } else {
        pow2((model::height(n) - d) as nat)
    }
}

/// The distance to a leaf of the leftmost perfect subtree, and bounds for the others.
proof fn lemma_first_at(n: nat, d: nat)
    requires
        1 <= n <= u64::MAX,
        d <= model::height(n),
    ensures
        1 <= first_at(n, d) <= n,
        distance(n, model::height(n), first_at(n, d)) <= d,
        forall|k: nat|
            1 <= k < first_at(n, d) ==> #[trigger] distance(n, model::height(n), k) > d,
        d >= 1 ==> first_at(n, d) < first_at(n, (d - 1) as nat),
{
    let h = model::height(n);
    nodes::lemma_valid(n, h);
    arith::lemma_clog2(n);
    lemma2_to64();
    let x = first_at(n, d);
    lemma_pow2_pos((h - d) as nat);
    if d >= 1 {
        arith::lemma_pow2_monotone((h - d) as nat, (h - 1) as nat);
        if d >= 2 {
            lemma_pow2_strictly_increases((h - d) as nat, (h - d + 1) as nat);
        }
    }
    if nodes::perfect(n, h) {
        nodes::lemma_perfect(n, h);
        assert(n == pow2(h));
        lemma_distance_perfect(n, h, x);
        lemma_ones_full((h - d) as nat);
        assert forall|k: nat| 1 <= k < x implies #[trigger] distance(n, h, k) > d by {
            lemma_distance_perfect(n, h, k);
            lemma_ones_least((k - 1) as nat);
            if arith::ones((k - 1) as nat) >= h - d {
                arith::lemma_pow2_monotone((h - d) as nat, arith::ones((k - 1) as nat));
            }
        }
    } else {
        assert(h > 0) by {
            nodes::lemma_leaf(n);
        }
        nodes::lemma_children(n, h);
        let l = nodes::left_i(n, h);
        let b = (h - 1) as nat;
        nodes::lemma_span(l, b);
        nodes::lemma_perfect(l, b);
        assert(l == pow2(b));
        assert forall|k: nat| 1 <= k <= l implies #[trigger] distance(n, h, k) == h - arith::ones(
            (k - 1) as nat,
        ) by {
            lemma_distance_perfect(l, b, k);
        }
        if d >= 1 {
            assert(x <= l);
            lemma_ones_full((h - d) as nat);
            assert forall|k: nat| 1 <= k < x implies #[trigger] distance(n, h, k) > d by {
                lemma_ones_least((k - 1) as nat);
                if arith::ones((k - 1) as nat) >= h - d {
                    arith::lemma_pow2_monotone((h - d) as nat, arith::ones((k - 1) as nat));
                }
            }
        } else {
            lemma_distance_zero(n, h);
            assert forall|k: nat| 1 <= k < n implies #[trigger] distance(n, h, k) > 0 by {
                lemma_distance_positive(n, h, k);
            }
        }
    }
}

/// No further entry is to be read for the leaf of the entry at hand.
pub proof fn lemma_distance_zero(i: nat, j: nat)
    requires
        nodes::valid(i, j),
    ensures
        distance(i, j, i) == 0,
    decreases j,
{
    if j > 0 {
        nodes::lemma_children(i, j);
        lemma_distance_zero(i, nodes::right_j(i, j));
    }
}

/// Any other entry is at least one step away.
pub proof fn lemma_distance_positive(i: nat, j: nat, k: nat)
    requires
        nodes::valid(i, j),
        nodes::covers(i, j, k),
        k < i,
    ensures
        distance(i, j, k) > 0,
    decreases j,
{
    if j > 0 {
        nodes::lemma_children(i, j);
        if k > nodes::left_i(i, j) {
            lemma_distance_positive(i, nodes::right_j(i, j), k);
        }
    } else {
        nodes::lemma_leaf(i);
    }
}

/// Up to `k` there is an entry at a distance of `d` or less exactly from the first such one on.
proof fn lemma_nearest(n: nat, k: nat, d: nat)
    requires
        1 <= k <= n <= u64::MAX,
        d <= model::height(n),
    ensures
        nearest(n, k) <= d <==> k >= first_at(n, d),
        nearest(n, k) <= model::height(n),
    decreases k,
{
    let h = model::height(n);
    nodes::lemma_valid(n, h);
    lemma_first_at(n, d);
    lemma_depth_bound(n, h, k);
    if k > 1 {
        lemma_nearest(n, (k - 1) as nat, d);
    }
}

/// The height of the node over the perfect subtrees from the `p`-th on.
spec fn suffix_height(i: nat, j: nat, p: nat) -> nat
    decreases p,
{
    if p == 0 {
        j
    } else {
        suffix_height(i, nodes::right_j(i, j), (p - 1) as nat)
    }
}

proof fn lemma_suffix(i: nat, j: nat, p: nat)
    requires
        nodes::valid(i, j),
        i <= u64::MAX,
        p < model::perfect_roots(i, j).len(),
    ensures
        ({
            let g = suffix_height(i, j, p);
            &&& nodes::valid(i, g)
            &&& g <= j
            &&& p + 1 == model::perfect_roots(i, j).len() <==> nodes::perfect(i, g)
            &&& nodes::perfect(i, g) ==> model::perfect_roots(i, j)[p as int] == model::addr(i, g)
            &&& !nodes::perfect(i, g) ==> {
                &&& g >= 1
                &&& nodes::right_j(i, g) < g
                &&& suffix_height(i, j, p + 1) == nodes::right_j(i, g)
                &&& model::perfect_roots(i, j)[p as int] == model::addr(
                    nodes::left_i(i, g),
                    (g - 1) as nat,
                )
            }
        }),
    decreases p,
{
    formula::lemma_height(i as u64, j);
    if !nodes::perfect(i, j) {
        lemma2_to64();
        assert(j > 0) by {
            nodes::lemma_leaf(i);
        }
        nodes::lemma_children(i, j);
        let g = nodes::right_j(i, j);
        model::lemma_ephemerals(i, g);
        if p > 0 {
            lemma_suffix(i, g, (p - 1) as nat);
            assert(model::perfect_roots(i, j)[p as int] == model::perfect_roots(i, g)[p - 1]);
        } else {
            reveal_with_fuel(suffix_height, 2);
        }
    }
}

/// The ranges of the indices by their distance from the latest entry of the tree of `n` leaves, as
/// an upper and a lower limit: the `d`-th range of the first list holds the indices from which on
/// the farthest entry is at the distance `d`, the `d`-th range of the second list those up to which
/// the nearest entry is.
pub fn entry_access_distance_limits(n: Index) -> (r: (
    Vec<RangeInclusive<Index>>,
    Vec<RangeInclusive<Index>>,
))
    ensures
        n == 0 ==> r.0@.len() == 0 && r.1@.len() == 0,
        n > 0 ==> r.0@.len() == model::height(n as nat) + 1,
        n > 0 ==> r.1@.len() == model::height(n as nat) + 1,
        forall|d: int|
            0 <= d < r.0@.len() ==> {
                let range = (#[trigger] r.0@[d])@;
                &&& 1 <= range.start <= range.end <= n
                &&& !range.exhausted
                &&& forall|k: nat|
                    1 <= k <= n ==> (range.start <= k <= range.end <==> #[trigger] farthest(
                        n as nat,
                        k,
                    ) == d)
            },
        forall|d: int|
            0 <= d < r.1@.len() ==> {
                let range = (#[trigger] r.1@[d])@;
                &&& 1 <= range.start <= range.end <= n
                &&& !range.exhausted
                &&& forall|k: nat|
                    1 <= k <= n ==> (range.start <= k <= range.end <==> #[trigger] nearest(
                        n as nat,
                        k,
                    ) == d)
            },
{
    if n == 0 {
        return (Vec::new(), Vec::new());
    }
    (upper_limits(n), lower_limits(n))
}

/// The ranges of the indices by the distance of the nearest entry up to them.
fn lower_limits(n: Index) -> (r: Vec<RangeInclusive<Index>>)
    requires
        n > 0,
    ensures
        r@.len() == model::height(n as nat) + 1,
        forall|d: int|
            0 <= d < r@.len() ==> {
                let range = (#[trigger] r@[d])@;
                &&& 1 <= range.start <= range.end <= n
                &&& !range.exhausted
                &&& forall|k: nat|
                    1 <= k <= n ==> (range.start <= k <= range.end <==> #[trigger] nearest(
                        n as nat,
                        k,
                    ) == d)
            },
{
    let h: u8 = ceil_log2(n);
    let mut limits: Vec<RangeInclusive<Index>> = Vec::with_capacity(h as usize + 1);
    let mut end: Index = n;
    proof {
        assert forall|k: nat| 1 <= k <= n implies (n <= k <= n <==> #[trigger] nearest(n as nat, k)
            == 0) by {
            lemma_nearest(n as nat, k, 0);
        }
    }
    limits.push(RangeInclusive::new(n, n));
    let mut d: u8 = 1;
    while d <= h
        invariant
            1 <= d <= h + 1,
            h == model::height(n as nat),
            h <= 64,
            n > 0,
            end == first_at(n as nat, (d - 1) as nat),
            limits@.len() == d,
            forall|e: int|
                0 <= e < limits@.len() ==> {
                    let range = (#[trigger] limits@[e])@;
                    &&& 1 <= range.start <= range.end <= n
                    &&& !range.exhausted
                    &&& forall|k: nat|
                        1 <= k <= n ==> (range.start <= k <= range.end <==> #[trigger] nearest(
                            n as nat,
                            k,
                        ) == e)
                },
        decreases h + 1 - d,
    {
        let start: Index = pow2e(h - d);
        proof {
            lemma_first_at(n as nat, d as nat);
            lemma_first_at(n as nat, (d - 1) as nat);
            assert forall|k: nat| 1 <= k <= n implies (start <= k <= end - 1 <==> #[trigger] nearest(
                n as nat,
                k,
            ) == d) by {
                lemma_nearest(n as nat, k, d as nat);
                lemma_nearest(n as nat, k, (d - 1) as nat);
            }
        }
        limits.push(RangeInclusive::new(start, end - 1));
        end = start;
        d = d + 1;
    }
    limits
}

/// The ranges of the indices by the distance of the farthest entry from them on.
fn upper_limits(n: Index) -> (r: Vec<RangeInclusive<Index>>)
    requires
        n > 0,
    ensures
        r@.len() == model::height(n as nat) + 1,
        forall|d: int|
            0 <= d < r@.len() ==> {
                let range = (#[trigger] r@[d])@;
                &&& 1 <= range.start <= range.end <= n
                &&& !range.exhausted
                &&& forall|k: nat|
                    1 <= k <= n ==> (range.start <= k <= range.end <==> #[trigger] farthest(
                        n as nat,
                        k,
                    ) == d)
            },
{
    let h: u8 = ceil_log2(n);
    let last: Vec<Index> = last_indices(n, h);
    let mut limits: Vec<RangeInclusive<Index>> = Vec::with_capacity(h as usize + 1);
    let mut d: u8 = 0;
    while d <= h
        invariant
            d <= h + 1,
            h <= 64,
            n > 0,
            h == model::height(n as nat),
            last@.len() == h + 1,
            forall|e: int| 0 <= e <= h ==> #[trigger] last@[e] == last_at(n as nat, h as nat, e as nat),
            limits@.len() == d,
            forall|e: int|
                0 <= e < limits@.len() ==> {
                    let range = (#[trigger] limits@[e])@;
                    &&& 1 <= range.start <= range.end <= n
                    &&& !range.exhausted
                    &&& forall|k: nat|
                        1 <= k <= n ==> (range.start <= k <= range.end <==> #[trigger] farthest(
                            n as nat,
                            k,
                        ) == e)
                },
        decreases h + 1 - d,
    {
        proof {
            nodes::lemma_valid(n as nat, h as nat);
            lemma_last_at(n as nat, h as nat, d as nat);
            if d < h {
                lemma_last_at(n as nat, h as nat, (d + 1) as nat);
                lemma_last_at_ordered(n as nat, h as nat, d as nat);
            }
        }
        let start: Index = if d < h {
            last[d as usize + 1] + 1
        } else {
            1
        };
        let end: Index = last[d as usize];
        proof {
            assert forall|k: nat| 1 <= k <= n implies (start <= k <= end <==> #[trigger] farthest(
                n as nat,
                k,
            ) == d) by {
                lemma_farthest(n as nat, k, d as nat);
                if d < h {
                    lemma_farthest(n as nat, k, (d + 1) as nat);
                }
            }
        }
        limits.push(RangeInclusive::new(start, end));
        d = d + 1;
    }
    limits
}

proof fn lemma_last_at_ordered(n: nat, h: nat, d: nat)
    requires
        n >= 1,
        h == model::height(n),
        d < h,
    ensures
        last_at(n, h, d + 1) < last_at(n, h, d),
{
    nodes::lemma_valid(n, h);
    lemma_last_at(n, h, d);
    lemma_last_at(n, h, d + 1);
    // an entry at a distance of exactly `d` lies after the last one that is farther
    lemma_last_at_strict(n, h, d);
}

proof fn lemma_last_at_strict(i: nat, j: nat, d: nat)
    requires
        nodes::valid(i, j),
        d < j,
    ensures
        last_at(i, j, d + 1) < last_at(i, j, d),
    decreases j,
{
    lemma_last_at(i, j, d);
    lemma_last_at(i, j, d + 1);
    if nodes::perfect(i, j) {
        lemma_pow2_strictly_increases(d, d + 1);
        arith::lemma_pow2_monotone(d + 1, j);
    } else {
        nodes::lemma_children(i, j);
        let g = nodes::right_j(i, j);
        let l = nodes::left_i(i, j);
        let h = (j - 1) as nat;
        lemma_last_at(i, g, d);
        lemma_last_at(i, g, d + 1);
        lemma_last_at(l, h, d);
        if d < g {
            lemma_last_at_strict(i, g, d);
        } else if d >= 1 && d > g {
            lemma_last_at(l, h, (d - 1) as nat);
            lemma_last_at_strict(l, h, (d - 1) as nat);
        }
    }
}

/// For every distance up to the height the last index that is at least as far.
fn last_indices(n: Index, h: u8) -> (r: Vec<Index>)
    requires
        n > 0,
        h == model::height(n as nat),
    ensures
        r@.len() == h + 1,
        forall|d: int| 0 <= d <= h ==> #[trigger] r@[d] == last_at(n as nat, h as nat, d as nat),
{
    let roots: Vec<Addr> = model::pbst_roots(n);
    let mut last: Vec<Index> = Vec::with_capacity(h as usize + 1);
    let ghost i = n as nat;
    proof {
        nodes::lemma_valid(i, h as nat);
        formula::lemma_height(n, h as nat);
        model::lemma_ephemerals(i, h as nat);
    }
    let mut d: u8 = 0;
    while d <= h
        invariant
            d <= h + 1,
            h <= 64,
            last@.len() == d,
            forall|e: int| 0 <= e < d ==> #[trigger] last@[e] == 0,
        decreases h + 1 - d,
    {
        last.push(0);
        d = d + 1;
    }
    let mut p: usize = roots.len();
    while p > 0
        invariant
            p <= roots@.len(),
            i == n,
            n > 0,
            h <= 64,
            nodes::valid(i, h as nat),
            roots@ == model::perfect_roots(i, h as nat),
            last@.len() == h + 1,
            p == roots@.len() ==> forall|e: int| 0 <= e <= h ==> #[trigger] last@[e] == 0,
            p < roots@.len() ==> forall|e: int|
                0 <= e <= h ==> #[trigger] last@[e] == last_at(
                    i,
                    suffix_height(i, h as nat, p as nat),
                    e as nat,
                ),
        decreases p,
    {
        let ghost before = last@;
        let ghost after = p as nat;
        let rightmost: bool = p == roots.len();
        p = p - 1;
        let root: Addr = roots[p];
        let ghost g = suffix_height(i, h as nat, p as nat);
        proof {
            lemma_root(i, h as nat, p as int);
            lemma_suffix(i, h as nat, p as nat);
            nodes::lemma_perfect(root.i as nat, root.j as nat);
            nodes::lemma_span(root.i as nat, root.j as nat);
            if g >= 1 && !nodes::perfect(i, g) {
                nodes::lemma_children(i, g);
            }
        }
        let shift: u8 = if rightmost {
            0
        } else {
            1
        };
        let mut d: u8 = 0;
        while d <= root.j
            invariant
                d <= root.j + 1,
                root.j <= h <= 64,
                1 <= root.i <= n,
                shift <= 1,
                root.j + shift <= h,
                shift == 0 <==> after == roots@.len(),
                last@.len() == h + 1,
                before.len() == h + 1,
                after <= roots@.len(),
                after == roots@.len() ==> forall|e: int| 0 <= e <= h ==> #[trigger] before[e] == 0,
                nodes::perfect(root.i as nat, root.j as nat),
                nodes::leaves(root.i as nat, root.j as nat) == pow2(root.j as nat),
                forall|e: int|
                    0 <= e <= h ==> #[trigger] last@[e] == (if before[e] == 0 && shift <= e < d
                        + shift {
                        nodes::first(root.i as nat, root.j as nat) + pow2(root.j as nat) - pow2(
                            (e - shift) as nat,
                        )
                    } else {
                        before[e] as int
                    }),
            decreases root.j + 1 - d,
        {
            proof {
                nodes::lemma_perfect(root.i as nat, root.j as nat);
                nodes::lemma_span(root.i as nat, root.j as nat);
                formula::lemma_height(root.i, root.j as nat);
                arith::lemma_pow2_monotone(d as nat, root.j as nat);
                assert(root.j < 64) by {
                    lemma2_to64_rest();
                }
            }
            let slot: usize = d as usize + shift as usize;
            if last[slot] == 0 {
                let first: Index = first_leaf(root.i, root.j);
                last.set(slot, first + (pow2e(root.j) - pow2e(d)));
            }
            d = d + 1;
        }
        proof {
            assert forall|e: int| 0 <= e <= h implies #[trigger] last@[e] == last_at(
                i,
                g,
                e as nat,
            ) by {
                if rightmost {
                    assert(before[e] == 0);
                    if e <= g {
                        arith::lemma_pow2_monotone(e as nat, g);
                    }
                } else {
                    let l = nodes::left_i(i, g);
                    assert(before[e] == last_at(i, nodes::right_j(i, g), e as nat));
                    if e == 0 {
                        lemma_last_at(i, nodes::right_j(i, g), 0);
                    } else if e <= g {
                        arith::lemma_pow2_monotone((e - 1) as nat, (g - 1) as nat);
                    }
                    if e >= 1 && before[e] == 0 {
                        assert(last@[e] == last_at(l, (g - 1) as nat, (e - 1) as nat));
                    }
                }
            }
        }
    }
    last
}

} // verus!
