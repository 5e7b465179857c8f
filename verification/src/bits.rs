//! The shape of the tree in terms of the numbers alone: which leaves are below a node, which nodes
//! there are and where they branch, and how far apart entries are.
use crate::arith;
use crate::distance;
use crate::formula;
use crate::ledger;
use crate::model;
use crate::nodes;
use vstd::arithmetic::div_mod::*;
use vstd::arithmetic::power2::*;
use vstd::prelude::*;

verus! {

/// The height of a tree is the least exponent whose power of two reaches the number of leaves, and
/// the height of its first perfect subtree the greatest one that does not exceed it.
pub proof fn law_logarithms(x: nat, y: nat)
    requires
        x >= 1,
    ensures
        arith::clog2(x) <= y <==> x <= pow2(y),
        y <= arith::flog2(x) <==> pow2(y) <= x,
        model::height(x) == arith::clog2(x),
{
    arith::lemma_clog2(x);
    arith::lemma_flog2(x);
    if arith::clog2(x) <= y {
        arith::lemma_pow2_monotone(arith::clog2(x), y);
    }
    if x <= pow2(y) {
        arith::lemma_clog2_bound(x, y);
    }
    if y <= arith::flog2(x) {
        arith::lemma_pow2_monotone(y, arith::flog2(x));
    } else {
        arith::lemma_pow2_monotone(arith::flog2(x) + 1, y);
    }
}

/// The number of one bits: none in 0, as many in the double of a number, and one more in the double
/// and one.
pub proof fn law_one_bits(x: nat)
    ensures
        arith::ones(0) == 0,
        arith::ones(2 * x) == arith::ones(x),
        arith::ones(2 * x + 1) == arith::ones(x) + 1,
{
    assert((2 * x) / 2 == x && (2 * x) % 2 == 0);
    assert((2 * x + 1) / 2 == x as int && (2 * x + 1) % 2 == 1);
    reveal_with_fuel(arith::ones, 2);
}

/// A leaf is below a node exactly if it does not come after it and both are in the same block of
/// `2^j` leaves.
pub proof fn law_covers(i: nat, j: nat, k: nat)
    requires
        i >= 1,
        k >= 1,
    ensures
        nodes::covers(i, j, k) <==> k <= i && (k - 1) / pow2(j) as int == (i - 1) / pow2(j) as int,
        nodes::leaves(i, j) == i - nodes::first(i, j) + 1,
        nodes::first(i, j) == ((i - 1) / pow2(j) as int) * pow2(j) + 1,
        nodes::perfect(i, j) <==> i % pow2(j) == 0,
        !nodes::covers(i, j, 0),
{
    lemma_pow2_pos(j);
    let p = pow2(j) as int;
    let x = i - 1;
    let q = x / p;
    lemma_fundamental_div_mod(x, p);
    lemma_mod_bound(x, p);
    assert(p * q == q * p) by (nonlinear_arith);
    nodes::lemma_span(i, j);
    assert(nodes::first(i, j) == q * p + 1);
    if nodes::covers(i, j, k) {
        lemma_fundamental_div_mod_converse(k - 1, p, q, k - 1 - q * p);
    }
    if k <= i && (k - 1) / p == q {
        lemma_fundamental_div_mod(k - 1, p);
        lemma_mod_bound(k - 1, p);
    }
}

/// A leaf is a node of every index. A node of a greater height is there exactly if the index less
/// one has the bit below that height.
pub proof fn law_valid(i: nat, j: nat)
    requires
        i >= 1,
    ensures
        j == 0 ==> nodes::valid(i, j),
        j >= 1 ==> (nodes::valid(i, j) <==> ((i - 1) / pow2((j - 1) as nat) as int) % 2 == 1),
{
    nodes::lemma_leaf(i);
    if j >= 1 {
        let h = pow2((j - 1) as nat) as int;
        let p = pow2(j) as int;
        lemma_pow2_pos((j - 1) as nat);
        lemma_pow2_unfold(j);
        let x = i - 1;
        let q = x / p;
        let r = x % p;
        lemma_fundamental_div_mod(x, p);
        lemma_mod_bound(x, p);
        let m = nodes::leaves(i, j);
        assert(m == r + 1);
        arith::lemma_clog2(m);
        if r >= h {
            assert(x == (2 * q + 1) * h + (r - h)) by (nonlinear_arith)
                requires
                    x == p * q + r,
                    p == 2 * h,
            ;
            lemma_fundamental_div_mod_converse(x, h, 2 * q + 1, r - h);
            arith::lemma_clog2_unique(m, j);
        } else {
            assert(x == (2 * q) * h + r) by (nonlinear_arith)
                requires
                    x == p * q + r,
                    p == 2 * h,
            ;
            lemma_fundamental_div_mod_converse(x, h, 2 * q, r);
            arith::lemma_clog2_bound(m, (j - 1) as nat);
        }
    }
}

/// Where a node branches: its left child has the first `2^(j-1)` of its leaves and the height
/// `j - 1`, its right child has the others and is no higher than they take.
pub proof fn law_branch(i: nat, j: nat, k: nat)
    requires
        nodes::valid(i, j),
        j >= 1,
        k >= 1,
    ensures
        nodes::left_i(i, j) == ((i - 1) / pow2(j) as int) * pow2(j) + pow2((j - 1) as nat),
        1 <= nodes::left_i(i, j) < i,
        nodes::covers(nodes::left_i(i, j), (j - 1) as nat, k) <==> nodes::covers(i, j, k) && k
            <= nodes::left_i(i, j),
        nodes::covers(i, nodes::right_j(i, j), k) <==> nodes::covers(i, j, k) && k > nodes::left_i(
            i,
            j,
        ),
        forall|y: nat|
            nodes::right_j(i, j) <= y <==> i - nodes::left_i(i, j) <= #[trigger] pow2(y),
        model::branch(i, j).node == model::addr(i, j),
        model::branch(i, j).left == model::addr(nodes::left_i(i, j), (j - 1) as nat),
        model::branch(i, j).right == model::addr(i, nodes::right_j(i, j)),
{
    law_covers(i, j, i);
    nodes::lemma_children(i, j);
    nodes::lemma_span(nodes::left_i(i, j), (j - 1) as nat);
    assert forall|y: nat|
        nodes::right_j(i, j) <= y <==> i - nodes::left_i(i, j) <= #[trigger] pow2(y) by {
        law_logarithms((i - nodes::left_i(i, j)) as nat, y);
    }
}

/// The intermediate nodes that the `n`-th leaf brings are all nodes of this index above the leaf,
/// from the lowest up, each with its children.
pub proof fn law_new_nodes(n: nat)
    requires
        1 <= n <= u64::MAX,
    ensures
        ({
            let s = model::spine(n, model::height(n));
            &&& forall|x: int|
                0 <= x < s.len() ==> {
                    let j = (#[trigger] s[x]).node.j as nat;
                    &&& j >= 1
                    &&& nodes::valid(n, j)
                    &&& s[x].node.i == n
                    &&& s[x].left.i == nodes::left_i(n, j)
                    &&& s[x].left.j == j - 1
                    &&& s[x].right.i == n
                    &&& s[x].right.j == nodes::right_j(n, j)
                }
            &&& forall|x: int, y: int|
                0 <= x < y < s.len() ==> (#[trigger] s[x]).node.j < (#[trigger] s[y]).node.j
            &&& forall|j: nat|
                j >= 1 && #[trigger] nodes::valid(n, j) ==> exists|x: int|
                    0 <= x < s.len() && (#[trigger] s[x]).node.j == j
        }),
{
    let h = model::height(n);
    let s = model::spine(n, h);
    nodes::lemma_valid(n, h);
    ledger::lemma_spine_rungs(n, h);
    assert forall|x: int| 0 <= x < s.len() implies {
        let j = (#[trigger] s[x]).node.j as nat;
        &&& j >= 1
        &&& nodes::valid(n, j)
        &&& s[x].node.i == n
        &&& s[x].left.i == nodes::left_i(n, j)
        &&& s[x].left.j == j - 1
        &&& s[x].right.i == n
        &&& s[x].right.j == nodes::right_j(n, j)
    } by {
        assert(ledger::rung(n, h, x));
    }
    assert forall|j: nat| j >= 1 && #[trigger] nodes::valid(n, j) implies exists|x: int|
        0 <= x < s.len() && (#[trigger] s[x]).node.j == j by {
        nodes::lemma_valid(n, j);
        ledger::lemma_on_spine(n, h, j);
    }
}

/// The ephemeral nodes of a generation join its perfect subtrees from right to left: each has one of
/// these as its left child and, as its right child, the next ephemeral node or the last subtree.
pub proof fn law_ephemeral_nodes(n: nat)
    requires
        1 <= n <= u64::MAX,
    ensures
        ({
            let roots = model::perfect_roots(n, model::height(n));
            let joints = model::ephemerals(n, model::height(n));
            &&& joints.len() + 1 == roots.len()
            &&& forall|k: int|
                0 <= k < joints.len() ==> {
                    let b = #[trigger] joints[k];
                    &&& b.node.i == n
                    &&& b.node.j == roots[k].j + 1
                    &&& b.left == roots[k]
                    &&& k + 1 < joints.len() ==> b.right == joints[k + 1].node
                    &&& k + 1 == joints.len() ==> b.right == roots[k + 1]
                }
        }),
{
    let h = model::height(n);
    nodes::lemma_valid(n, h);
    model::lemma_ephemerals(n, h);
    let roots = model::perfect_roots(n, h);
    let joints = model::ephemerals(n, h);
    assert forall|k: int| 0 <= k < joints.len() implies {
        let b = #[trigger] joints[k];
        &&& b.node.i == n
        &&& b.node.j == roots[k].j + 1
        &&& b.left == roots[k]
        &&& k + 1 < joints.len() ==> b.right == joints[k + 1].node
        &&& k + 1 == joints.len() ==> b.right == roots[k + 1]
    } by {
        assert(model::joins(roots, joints, n, k));
    }
}

/// A node is in a generation exactly if it is perfect and does not come after its last leaf, or has
/// the index of the last leaf.
pub proof fn law_generation(n: nat, i: nat, j: nat)
    ensures
        model::in_generation(n, i, j) <==> 1 <= i <= n && nodes::valid(i, j) && (i % pow2(j) == 0
            || i == n),
{
}

/// The distance of an entry from the latest one: within the perfect subtree that holds its leaf, the
/// height of the subtree less the number of one bits in the offset of the leaf; and one more where
/// the subtree is not the last one.
pub proof fn law_distance(n: nat, p: int, k: nat)
    requires
        1 <= n <= u64::MAX,
        0 <= p < model::perfect_roots(n, model::height(n)).len(),
        ({
            let root = model::perfect_roots(n, model::height(n))[p];
            root.i - pow2(root.j as nat) < k <= root.i
        }),
    ensures
        ({
            let root = model::perfect_roots(n, model::height(n))[p];
            distance::distance(n, model::height(n), k) == root.j - arith::ones(
                (k - 1 - (root.i - pow2(root.j as nat))) as nat,
            ) + (if root.i == n {
                0int
            } else {
                1
            })
        }),
{
    let h = model::height(n);
    let root = model::perfect_roots(n, h)[p];
    nodes::lemma_valid(n, h);
    distance::lemma_root(n, h, p);
    nodes::lemma_perfect(root.i as nat, root.j as nat);
    nodes::lemma_span(root.i as nat, root.j as nat);
    distance::lemma_distance_root(n, h, p, k);
    distance::lemma_distance_perfect(root.i as nat, root.j as nat, k);
}

/// Every leaf of a tree is in one of its perfect subtrees.
pub proof fn law_subtrees_hold_all(n: nat, k: nat) -> (p: int)
    requires
        1 <= k <= n <= u64::MAX,
    ensures
        0 <= p < model::perfect_roots(n, model::height(n)).len(),
        ({
            let root = model::perfect_roots(n, model::height(n))[p];
            root.i - pow2(root.j as nat) < k <= root.i
        }),
{
    let h = model::height(n);
    nodes::lemma_valid(n, h);
    let p = distance::lemma_roots_cover(n, h, k);
    let root = model::perfect_roots(n, h)[p];
    distance::lemma_root(n, h, p);
    nodes::lemma_perfect(root.i as nat, root.j as nat);
    nodes::lemma_span(root.i as nat, root.j as nat);
    p
}

/// The greatest distance of the entries from an index on is reached by one of them and exceeded by
/// none.
pub proof fn law_farthest(n: nat, k: nat)
    requires
        1 <= k <= n,
    ensures
        forall|x: nat|
            k <= x <= n ==> #[trigger] distance::distance(n, model::height(n), x)
                <= distance::farthest(n, k),
        exists|x: nat|
            k <= x <= n && #[trigger] distance::distance(n, model::height(n), x)
                == distance::farthest(n, k),
    decreases n - k,
{
    let h = model::height(n);
    if k < n {
        law_farthest(n, k + 1);
        let far = distance::farthest(n, k + 1);
        let x = choose|x: nat| k + 1 <= x <= n && #[trigger] distance::distance(n, h, x) == far;
        if distance::distance(n, h, k) < far {
            assert(distance::distance(n, h, x) == distance::farthest(n, k));
        }
    }
    if k >= n || distance::distance(n, h, k) >= distance::farthest(n, k + 1) {
        assert(distance::distance(n, h, k) == distance::farthest(n, k));
    }
    assert forall|x: nat| k <= x <= n implies #[trigger] distance::distance(n, h, x)
        <= distance::farthest(n, k) by {
        if x > k {
            assert(distance::distance(n, h, x) <= distance::farthest(n, k + 1));
        }
    }
}

/// The least distance of the entries up to an index is reached by one of them, and none is nearer.
pub proof fn law_nearest(n: nat, k: nat)
    requires
        1 <= k <= n,
    ensures
        forall|x: nat|
            1 <= x <= k ==> #[trigger] distance::distance(n, model::height(n), x)
                >= distance::nearest(n, k),
        exists|x: nat|
            1 <= x <= k && #[trigger] distance::distance(n, model::height(n), x)
                == distance::nearest(n, k),
    decreases k,
{
    let h = model::height(n);
    if k > 1 {
        law_nearest(n, (k - 1) as nat);
        let near = distance::nearest(n, (k - 1) as nat);
        let x = choose|x: nat| 1 <= x <= k - 1 && #[trigger] distance::distance(n, h, x) == near;
        if distance::distance(n, h, k) > near {
            assert(distance::distance(n, h, x) == distance::nearest(n, k));
        }
    }
    if k <= 1 || distance::distance(n, h, k) <= distance::nearest(n, (k - 1) as nat) {
        assert(distance::distance(n, h, k) == distance::nearest(n, k));
    }
    assert forall|x: nat| 1 <= x <= k implies #[trigger] distance::distance(n, h, x)
        >= distance::nearest(n, k) by {
        if x < k {
            assert(distance::distance(n, h, x) >= distance::nearest(n, (k - 1) as nat));
        }
    }
}

/// The number of nodes that branch off the path to a leaf: none from a leaf, and one more than from
/// the child that has the leaf below it.
pub proof fn law_depth(i: nat, j: nat, k: nat)
    requires
        nodes::valid(i, j),
        nodes::covers(i, j, k),
    ensures
        j == 0 ==> distance::depth(i, j, k) == 0,
        j >= 1 && k <= nodes::left_i(i, j) ==> distance::depth(i, j, k) == 1 + distance::depth(
            nodes::left_i(i, j),
            (j - 1) as nat,
            k,
        ),
        j >= 1 && k > nodes::left_i(i, j) ==> distance::depth(i, j, k) == 1 + distance::depth(
            i,
            nodes::right_j(i, j),
            k,
        ),
{
    if j >= 1 {
        nodes::lemma_children(i, j);
    }
}

/// An address holds the index and the height, where these fit.
pub proof fn law_address(i: nat, j: nat)
    requires
        nodes::valid(i, j),
        i <= u64::MAX,
    ensures
        model::addr(i, j).i == i,
        model::addr(i, j).j == j,
        j <= formula::INDEX_SIZE,
{
    formula::lemma_height(i as u64, j);
}

/// The perfect subtrees are determined by the number of leaves: the first has the greatest power of
/// two that does not exceed it, and the others are those of the rest, moved behind the first.
pub proof fn law_subtrees_by_size(n: nat)
    requires
        1 <= n <= u64::MAX,
    ensures
        ({
            let roots = model::perfect_roots(n, model::height(n));
            &&& roots.len() >= 1
            &&& roots[0].i == pow2(arith::flog2(n))
            &&& roots[0].j == arith::flog2(n)
            &&& forall|p: int|
                0 < p < roots.len() ==> (#[trigger] roots[p]).i == roots[p - 1].i + pow2(
                    roots[p].j as nat,
                )
        }),
{
    crate::laws::law_perfect_subtrees(n);
    let roots = model::perfect_roots(n, model::height(n));
    nodes::lemma_valid(n, model::height(n));
    distance::lemma_root(n, model::height(n), 0);
    nodes::lemma_perfect(roots[0].i as nat, roots[0].j as nat);
    nodes::lemma_span(roots[0].i as nat, roots[0].j as nat);
    assert forall|p: int| 0 < p < roots.len() implies (#[trigger] roots[p]).i == roots[p - 1].i
        + pow2(roots[p].j as nat) by {
        assert(crate::laws::adjoining(roots, p - 1));
        distance::lemma_root(n, model::height(n), p);
        nodes::lemma_perfect(roots[p].i as nat, roots[p].j as nat);
        nodes::lemma_span(roots[p].i as nat, roots[p].j as nat);
    }
}

/// The size of a sample is the number of nodes that branch off the path to the leaf, which is at most
/// the height of the tree, and 0 only in a tree of one leaf.
pub proof fn law_sample_size_bounds(n: nat, k: nat)
    requires
        1 <= k <= n,
    ensures
        distance::depth(n, model::height(n), k) <= model::height(n),
        distance::depth(n, model::height(n), k) == 0 <==> n == 1,
{
    let h = model::height(n);
    nodes::lemma_valid(n, h);
    distance::lemma_depth_bound(n, h, k);
    arith::lemma_clog2(n);
    if h > 0 {
        nodes::lemma_children(n, h);
    }
}

} // verus!
