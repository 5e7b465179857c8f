//! What holds of the tree as a whole: of its shape, of walks through it, and of the entries that
//! it is stored as.
use crate::arith;
use crate::cache::Cache;
use crate::distance;
use crate::entry;
use crate::entry::{EntryModel, Position};
use crate::error::Error;
use crate::formula;
use crate::formula::{Addr, Index};
use crate::ledger;
use crate::model;
use crate::nodes;
use crate::query;
use crate::slate;
use crate::slate::Slate;
use crate::storage::Storage;
use crate::tree;
use crate::walk;
use crate::walk::{Visitor, WalkDirection};
use vstd::arithmetic::power2::*;
use vstd::prelude::*;

verus! {

/// The two children of a node share its leaves out between them: each leaf is below one of them,
/// and none is below both.
pub proof fn law_children_partition(i: nat, j: nat, k: nat)
    requires
        nodes::valid(i, j),
        j >= 1,
    ensures
        ({
            let left = nodes::covers(nodes::left_i(i, j), (j - 1) as nat, k);
            let right = nodes::covers(i, nodes::right_j(i, j), k);
            &&& nodes::covers(i, j, k) <==> left || right
            &&& !(left && right)
        }),
{
    nodes::lemma_children(i, j);
    nodes::lemma_span(nodes::left_i(i, j), (j - 1) as nat);
}

/// A perfect node is a node of every later generation, and its hash value never changes.
pub proof fn law_perfect_persists(values: Seq<Seq<u8>>, more: Seq<Seq<u8>>, i: nat, j: nat)
    requires
        1 <= i <= values.len(),
        nodes::perfect(i, j),
        values.len() <= more.len(),
        more.take(values.len() as int) == values,
    ensures
        model::in_generation(values.len(), i, j),
        model::in_generation(more.len(), i, j),
        tree::node_hash(more, i, j) == tree::node_hash(values, i, j),
{
    nodes::lemma_perfect(i, j);
    tree::lemma_hash_prefix(more, values.len(), i, j);
}

/// The perfect subtrees of the tree of `n` leaves: there are as many as `n` has one bits, they get
/// lower from left to right, and they follow each other from the first leaf to the last.
pub proof fn law_perfect_subtrees(n: nat)
    requires
        1 <= n <= u64::MAX,
    ensures
        ({
            let roots = model::perfect_roots(n, model::height(n));
            &&& roots.len() == arith::ones(n)
            &&& roots[0].j == arith::flog2(n)
            &&& nodes::first(roots[0].i as nat, roots[0].j as nat) == 1
            &&& roots.last().i == n
            &&& forall|p: int|
                0 <= p < roots.len() ==> nodes::perfect(
                    (#[trigger] roots[p]).i as nat,
                    roots[p].j as nat,
                )
            &&& forall|p: int, q: int|
                0 <= p < q < roots.len() ==> (#[trigger] roots[p]).j > (#[trigger] roots[q]).j
            &&& forall|p: int| #[trigger] adjoining(roots, p)
        }),
{
    let h = model::height(n);
    let roots = model::perfect_roots(n, h);
    nodes::lemma_valid(n, h);
    lemma_subtrees(n, h);
    assert forall|p: int| 0 <= p < roots.len() implies nodes::perfect(
        (#[trigger] roots[p]).i as nat,
        roots[p].j as nat,
    ) by {
        distance::lemma_root(n, h, p);
    }
    // the first one is the greatest perfect tree that fits
    let j = roots[0].j as nat;
    distance::lemma_root(n, h, 0);
    nodes::lemma_perfect(roots[0].i as nat, j);
    nodes::lemma_span(roots[0].i as nat, j);
    arith::lemma_clog2(n);
    lemma2_to64();
    if nodes::perfect(n, h) {
        lemma_pow2_strictly_increases(h, h + 1);
        nodes::lemma_perfect(n, h);
        arith::lemma_flog2_unique(n, h);
        formula::lemma_height(n as u64, h);
    } else {
        assert(h > 0) by {
            nodes::lemma_leaf(n);
        }
        formula::lemma_height(n as u64, h);
        nodes::lemma_perfect(n, h);
        nodes::lemma_children(n, h);
        arith::lemma_flog2_unique(n, (h - 1) as nat);
    }
}

/// Whether the leaves of the next perfect subtree follow those of the `p`-th.
pub open spec fn adjoining(roots: Seq<Addr>, p: int) -> bool {
    0 <= p < roots.len() - 1 ==> nodes::first(roots[p + 1].i as nat, roots[p + 1].j as nat)
        == roots[p].i + 1
}

proof fn lemma_subtrees(i: nat, j: nat)
    requires
        nodes::valid(i, j),
        i <= u64::MAX,
    ensures
        ({
            let roots = model::perfect_roots(i, j);
            &&& roots.len() == arith::ones(nodes::leaves(i, j))
            &&& roots.len() >= 1
            &&& nodes::first(roots[0].i as nat, roots[0].j as nat) == nodes::first(i, j)
            &&& roots.last().i == i
            &&& roots[0].j <= j
            &&& !nodes::perfect(i, j) ==> roots[0].j < j
            &&& forall|p: int, q: int|
                0 <= p < q < roots.len() ==> (#[trigger] roots[p]).j > (#[trigger] roots[q]).j
            &&& forall|p: int| #[trigger] adjoining(roots, p)
        }),
    decreases j,
{
    formula::lemma_height(i as u64, j);
    lemma2_to64();
    nodes::lemma_perfect(i, j);
    let roots = model::perfect_roots(i, j);
    if nodes::perfect(i, j) {
        lemma_pow2_pos(j);
        distance::lemma_ones(0, j);
    } else {
        assert(j > 0) by {
            nodes::lemma_leaf(i);
        }
        nodes::lemma_children(i, j);
        let g = nodes::right_j(i, j);
        let h = (j - 1) as nat;
        let l = nodes::left_i(i, j);
        let m = nodes::leaves(i, g);
        lemma_subtrees(i, g);
        nodes::lemma_span(i, j);
        lemma_pow2_unfold(j);
        assert(m < pow2(h));
        distance::lemma_ones(m, h);
        let low = model::perfect_roots(i, g);
        assert(roots =~= seq![model::addr(l, h)] + low);
        assert(low[0].j < h) by {
            if low[0].j == h {
                // a right child as high as the left one would make the node perfect
                assert(g == h);
                nodes::lemma_perfect(i, g);
            }
        }
        assert forall|p: int, q: int| 0 <= p < q < roots.len() implies (#[trigger] roots[p]).j > (
        #[trigger] roots[q]).j by {
            assert(roots[q] == low[q - 1]);
            if p > 0 {
                assert(roots[p] == low[p - 1]);
            } else if q > 1 {
                assert(low[0].j > low[q - 1].j);
            }
        }
        assert forall|p: int| #[trigger] adjoining(roots, p) by {
            if 0 <= p < roots.len() - 1 {
                assert(roots[p + 1] == low[p]);
                if p > 0 {
                    assert(roots[p] == low[p - 1]);
                    assert(adjoining(low, p - 1));
                }
            }
        }
    }
}

/// The nodes below `b_{i,j}` in the order of a full walk: the node, then the right part, then the
/// left part.
pub open spec fn preorder(i: nat, j: nat) -> Seq<Addr>
    decreases j,
{
    if j == 0 || nodes::right_j(i, j) >= j {
        seq![model::addr(i, j)]
    } else {
        seq![model::addr(i, j)] + preorder(i, nodes::right_j(i, j)) + preorder(
            nodes::left_i(i, j),
            (j - 1) as nat,
        )
    }
}

/// Whether `b_{a,b}` is one of the nodes below `b_{i,j}`.
pub open spec fn below(i: nat, j: nat, a: nat, b: nat) -> bool {
    &&& nodes::valid(a, b)
    &&& nodes::first(i, j) <= nodes::first(a, b)
    &&& a <= i
    &&& nodes::perfect(a, b) || a == i
}

/// A full walk over the tree of `n` leaves passes its `2n - 1` nodes, each of them once: every
/// perfect node of an index up to `n`, and every node of the index `n`.
pub proof fn law_node_count(n: nat)
    requires
        1 <= n <= u64::MAX,
    ensures
        ({
            let all = preorder(n, model::height(n));
            &&& all.len() == 2 * n - 1
            &&& all.no_duplicates()
            &&& forall|a: Addr| #[trigger]
                all.contains(a) <==> model::in_generation(n, a.i as nat, a.j as nat)
        }),
{
    let h = model::height(n);
    let all = preorder(n, h);
    nodes::lemma_valid(n, h);
    lemma_preorder(n, h);
    assert forall|a: Addr| #[trigger] all.contains(a) <==> model::in_generation(
        n,
        a.i as nat,
        a.j as nat,
    ) by {
        if a.i >= 1 {
            nodes::lemma_span(a.i as nat, a.j as nat);
        }
    }
}

proof fn lemma_preorder(i: nat, j: nat)
    requires
        nodes::valid(i, j),
        i <= u64::MAX,
    ensures
        preorder(i, j).len() == 2 * nodes::leaves(i, j) - 1,
        preorder(i, j).no_duplicates(),
        forall|a: Addr| #[trigger]
            preorder(i, j).contains(a) <==> below(i, j, a.i as nat, a.j as nat),
    decreases j,
{
    formula::lemma_height(i as u64, j);
    let all = preorder(i, j);
    let top = model::addr(i, j);
    nodes::lemma_span(i, j);
    if j == 0 {
        nodes::lemma_leaf(i);
        assert forall|a: Addr| #[trigger] all.contains(a) <==> below(
            i,
            j,
            a.i as nat,
            a.j as nat,
        ) by {
            if all.contains(a) {
                assert(a == top);
            }
            if below(i, j, a.i as nat, a.j as nat) {
                nodes::lemma_span(a.i as nat, a.j as nat);
                lemma_own_height(i, a.j as nat, 0);
                assert(all[0] == a);
            }
        }
    } else {
        nodes::lemma_children(i, j);
        let g = nodes::right_j(i, j);
        let h = (j - 1) as nat;
        let l = nodes::left_i(i, j);
        lemma_preorder(i, g);
        lemma_preorder(l, h);
        let right = preorder(i, g);
        let left = preorder(l, h);
        assert(all =~= seq![top] + right + left);
        assert forall|a: Addr| #[trigger] all.contains(a) <==> a == top || right.contains(a)
            || left.contains(a) by {
            if right.contains(a) {
                let x = choose|x: int| 0 <= x < right.len() && right[x] == a;
                assert(all[x + 1] == a);
            }
            if left.contains(a) {
                let x = choose|x: int| 0 <= x < left.len() && left[x] == a;
                assert(all[x + 1 + right.len()] == a);
            }
            if a == top {
                assert(all[0] == a);
            }
            if all.contains(a) {
                let x = choose|x: int| 0 <= x < all.len() && all[x] == a;
                if x > 0 && x < 1 + right.len() {
                    assert(right[x - 1] == a);
                } else if x > 0 {
                    assert(left[x - 1 - right.len()] == a);
                }
            }
        }
        assert forall|a: Addr| #[trigger] all.contains(a) <==> below(
            i,
            j,
            a.i as nat,
            a.j as nat,
        ) by {
            lemma_below(i, j, a.i as nat, a.j as nat);
        }
        assert forall|x: int, y: int| 0 <= x < y < all.len() implies all[x] != all[y] by {
            lemma_below(i, j, all[y].i as nat, all[y].j as nat);
            let r = right.len();
            if y < 1 + r {
                assert(all[y] == right[y - 1]);
                assert(right.contains(all[y]));
                if x > 0 {
                    assert(all[x] == right[x - 1]);
                }
            } else {
                assert(all[y] == left[y - 1 - r]);
                assert(left.contains(all[y]));
                if x >= 1 + r {
                    assert(all[x] == left[x - 1 - r]);
                } else if x > 0 {
                    assert(all[x] == right[x - 1]);
                    assert(right.contains(all[x]));
                    nodes::lemma_span(all[x].i as nat, all[x].j as nat);
                }
            }
        }
    }
}

/// A higher node of the same index starts at an earlier leaf.
pub proof fn lemma_own_height(i: nat, b: nat, j: nat)
    requires
        nodes::valid(i, b),
        nodes::valid(i, j),
    ensures
        b > j ==> nodes::first(i, b) < nodes::first(i, j),
        b == j ==> nodes::first(i, b) == nodes::first(i, j),
        b < j ==> nodes::first(i, b) > nodes::first(i, j),
{
    nodes::lemma_span(i, b);
    nodes::lemma_span(i, j);
    if b > j {
        nodes::lemma_children(i, b);
        arith::lemma_pow2_monotone(j, (b - 1) as nat);
    } else if b < j {
        nodes::lemma_children(i, j);
        arith::lemma_pow2_monotone(b, (j - 1) as nat);
    }
}

/// The nodes below a node are itself and those below its children.
pub proof fn lemma_below(i: nat, j: nat, a: nat, b: nat)
    requires
        nodes::valid(i, j),
        j >= 1,
    ensures
        below(i, j, a, b) <==> (a == i && b == j) || below(i, nodes::right_j(i, j), a, b) || below(
            nodes::left_i(i, j),
            (j - 1) as nat,
            a,
            b,
        ),
        !below(i, nodes::right_j(i, j), i, j),
        !below(nodes::left_i(i, j), (j - 1) as nat, i, j),
{
    nodes::lemma_children(i, j);
    nodes::lemma_span(i, j);
    let g = nodes::right_j(i, j);
    let h = (j - 1) as nat;
    let l = nodes::left_i(i, j);
    nodes::lemma_span(l, h);
    if below(i, j, a, b) {
        nodes::lemma_span(a, b);
        if a == i {
            lemma_own_height(i, b, j);
            if b < j {
                ledger::lemma_no_between(i, j, b);
                lemma_own_height(i, b, g);
            }
        } else if a > l {
            lemma_no_crossing(i, j, a, b);
        }
    }
    if below(l, h, a, b) && a == l {
        nodes::lemma_span(l, b);
        lemma_own_height(l, b, h);
        arith::lemma_mod_divides(l, h, b);
    }
}

/// A perfect node does not reach over the leaf at which a node branches.
proof fn lemma_no_crossing(i: nat, j: nat, a: nat, b: nat)
    requires
        nodes::valid(i, j),
        j >= 1,
        nodes::perfect(a, b),
        nodes::left_i(i, j) < a < i,
        nodes::first(i, j) <= nodes::first(a, b),
    ensures
        nodes::first(a, b) > nodes::left_i(i, j),
{
    nodes::lemma_children(i, j);
    nodes::lemma_span(i, j);
    nodes::lemma_span(a, b);
    nodes::lemma_perfect(a, b);
    let l = nodes::left_i(i, j);
    let c = (nodes::first(a, b) - 1) as nat;
    if nodes::first(a, b) <= l {
        if b <= j - 1 {
            arith::lemma_mod_divides(l, (j - 1) as nat, b);
            lemma_pow2_pos(b);
            arith::lemma_mod_of_sum(c, (l - c) as nat, b, b);
        } else {
            arith::lemma_pow2_monotone(j, b);
        }
    }
}

/// A visitor that always asks for both sides is shown every node once, in the order of a full
/// walk. What the visitor has seen is told by `seen`.
pub proof fn law_full_walk<V: Visitor>(
    values: Seq<Seq<u8>>,
    revision: Index,
    i: nat,
    j: nat,
    before: V,
    after: V,
    seen: spec_fn(V) -> Seq<Addr>,
)
    requires
        nodes::valid(i, j),
        i <= values.len() <= u64::MAX,
        walk::walked(values, revision, i, j, before, after),
        forall|u: V, visit: walk::Visit, v: V, d: WalkDirection| #[trigger]
            V::step(u, visit, v, d) ==> d == WalkDirection::Both && seen(v) == seen(u).push(
                Addr { i: visit.i, j: visit.j },
            ),
    ensures
        seen(after) == seen(before) + preorder(i, j),
    decreases j,
{
    formula::lemma_height(i as u64, j);
    let (mid, d) = choose|mid: V, d: WalkDirection|
        #![trigger V::step(before, walk::visit_of(values, revision, i, j), mid, d)]
        V::step(before, walk::visit_of(values, revision, i, j), mid, d) && walk::walked_on(
            values,
            revision,
            i,
            j,
            d,
            mid,
            after,
        );
    let top = model::addr(i, j);
    assert(seen(mid) == seen(before).push(top));
    if j == 0 {
        assert(seen(after) =~= seen(before) + preorder(i, j));
    } else {
        nodes::lemma_children(i, j);
        let g = nodes::right_j(i, j);
        let h = (j - 1) as nat;
        let l = nodes::left_i(i, j);
        let v = choose|v: V|
            #![trigger walk::turn(v)]
            walk::turn(v) && walk::walked(values, revision, i, g, mid, v) && walk::walked(
                values,
                revision,
                l,
                h,
                v,
                after,
            );
        law_full_walk(values, revision, i, g, mid, v, seen);
        law_full_walk(values, revision, l, h, v, after, seen);
        assert(seen(after) =~= seen(before) + preorder(i, j));
    }
}

/// An appended value is read back at its index, and every earlier value where it was.
pub proof fn law_append_then_get<S: Storage>(before: Slate<S>, value: Seq<u8>, after: Slate<S>)
    requires
        before.consistent(),
        before.appended(value, &after),
    ensures
        after.cached().n() == before.cached().n() + 1,
        query::value_at(after.values(), after.cached().n()) == Some(value),
        forall|i: nat|
            i <= before.cached().n() ==> #[trigger] query::value_at(after.values(), i)
                == query::value_at(before.values(), i),
{
    before.cached().lemma_sound(before.log());
    after.cached().lemma_sound(after.log());
}

/// The cache, the position and the value determine the next entry.
pub proof fn law_next_entry(
    cache: Cache,
    position: Position,
    value: Seq<u8>,
    one: EntryModel,
    other: EntryModel,
)
    requires
        cache.n() < u64::MAX,
        slate::follows(cache, position, value, one),
        slate::follows(cache, position, value, other),
    ensures
        one == other,
{
    assert forall|x: int| 0 <= x < one.inodes.len() implies #[trigger] one.inodes[x]
        == other.inodes[x] by {
        lemma_same_inode(cache, position, value, one, other, x as nat);
    }
    assert(one.inodes =~= other.inodes);
}

proof fn lemma_same_inode(
    cache: Cache,
    position: Position,
    value: Seq<u8>,
    one: EntryModel,
    other: EntryModel,
    x: nat,
)
    requires
        slate::follows(cache, position, value, one),
        slate::follows(cache, position, value, other),
        x < one.inodes.len(),
    ensures
        one.inodes[x as int] == other.inodes[x as int],
    decreases x,
{
    if x > 0 {
        lemma_same_inode(cache, position, value, one, other, (x - 1) as nat);
    }
    let i = one.meta.address.i as nat;
    let b = model::spine(i, model::height(i))[x as int];
    assert(ledger::matches(one.inodes[x as int], b));
    assert(ledger::matches(other.inodes[x as int], b));
    assert(slate::grafted(cache, position, one, x as int));
    assert(slate::grafted(cache, position, other, x as int));
}

/// A value that the storage refuses leaves the tree as it was: its leaves and its root are the same,
/// and the next value is for the same index and position again.
pub proof fn law_refused_append<S: Storage>(
    before: Slate<S>,
    value: Seq<u8>,
    error: Error,
    after: Slate<S>,
    next: Seq<u8>,
    e: EntryModel,
)
    requires
        before.cached().n() < u64::MAX,
        before.refused(value, error, &after),
        slate::follows(after.cached(), after.next(), next, e),
    ensures
        after.cached() == before.cached(),
        entry::root_of(after.cached().latest()) == entry::root_of(before.cached().latest()),
        e.meta.address.i == before.cached().n() + 1,
        e.meta.address.position == before.next(),
        slate::follows(before.cached(), before.next(), next, e),
        exists|put: EntryModel|
            slate::follows(before.cached(), before.next(), value, put) && #[trigger] S::putting(
                before.store(),
                before.next(),
                put,
                after.store(),
                Err::<Position, Error>(error),
            ),
{
}

/// Removing the last value undoes appending it: the entries, the values and the root hash are what
/// they were, and the next entry goes to the same position.
pub proof fn law_truncate_undoes_append<S: Storage>(
    before: Slate<S>,
    value: Seq<u8>,
    between: Slate<S>,
    after: Slate<S>,
)
    requires
        before.consistent(),
        before.appended(value, &between),
        between.truncated(between.cached().n(), &after),
    ensures
        after.log() == before.log(),
        after.values() == before.values(),
        after.cached().n() == before.cached().n(),
        after.next() == before.next(),
        tree::root_hash(after.values()) == tree::root_hash(before.values()),
{
    before.cached().lemma_sound(before.log());
    between.cached().lemma_sound(between.log());
    after.cached().lemma_sound(after.log());
    assert(between.log().take(between.cached().n() - 1) =~= before.log());
}

/// An earlier generation is the tree of the first entries: its root has the hash value that it had
/// when its last value was appended.
pub proof fn law_snapshot_is_prefix(log: Seq<EntryModel>, n: nat)
    requires
        ledger::genuine(log),
        1 <= n <= log.len(),
    ensures
        ledger::genuine(log.take(n as int)),
        ledger::payloads(log.take(n as int)) == ledger::payloads(log).take(n as int),
        log[n - 1] == ledger::entry_of(
            ledger::payloads(log).take(n as int),
            ledger::positions(log).take(n as int),
            n,
        ),
        tree::root_hash(ledger::payloads(log).take(n as int)) == tree::node_hash(
            ledger::payloads(log),
            n,
            model::height(n),
        ),
{
    let h = model::height(n);
    ledger::lemma_genuine_take(log, n);
    ledger::lemma_entry_prefix(ledger::payloads(log), ledger::positions(log), n, n);
    nodes::lemma_valid(n, h);
    tree::lemma_hash_prefix(ledger::payloads(log), n, n, h);
}

/// The values and the positions determine the entries.
pub proof fn law_entries_determined(one: Seq<EntryModel>, two: Seq<EntryModel>)
    requires
        ledger::genuine(one),
        ledger::genuine(two),
        ledger::payloads(one) == ledger::payloads(two),
        ledger::positions(one) == ledger::positions(two),
    ensures
        one == two,
{
    assert(ledger::payloads(one).len() == one.len());
    assert(ledger::payloads(two).len() == two.len());
    assert forall|k: int| 0 <= k < one.len() implies one[k] == two[k] by {
        assert(one[k] == ledger::entry_of(
            ledger::payloads(one),
            ledger::positions(one),
            (k + 1) as nat,
        ));
        assert(two[k] == ledger::entry_of(
            ledger::payloads(two),
            ledger::positions(two),
            (k + 1) as nat,
        ));
    }
    assert(one =~= two);
}

/// The path to a leaf is no longer than the tree is high, and no longer a way through entries than
/// through nodes.
pub proof fn law_distance_bounds(n: nat, k: nat)
    requires
        1 <= k <= n,
    ensures
        distance::distance(n, model::height(n), k) <= distance::depth(n, model::height(n), k),
        distance::depth(n, model::height(n), k) <= model::height(n),
{
    nodes::lemma_valid(n, model::height(n));
    distance::lemma_depth_bound(n, model::height(n), k);
}

/// A full walk passes the nodes from the last to the first: by descending index, and those of the
/// same index by descending height.
pub proof fn law_walk_order(i: nat, j: nat)
    requires
        nodes::valid(i, j),
        i <= u64::MAX,
    ensures
        forall|x: int, y: int|
            0 <= x < y < preorder(i, j).len() ==> {
                let a = #[trigger] preorder(i, j)[x];
                let b = #[trigger] preorder(i, j)[y];
                a.i > b.i || (a.i == b.i && a.j > b.j)
            },
    decreases j,
{
    formula::lemma_height(i as u64, j);
    if j > 0 {
        nodes::lemma_children(i, j);
        let g = nodes::right_j(i, j);
        let h = (j - 1) as nat;
        let l = nodes::left_i(i, j);
        law_walk_order(i, g);
        law_walk_order(l, h);
        lemma_preorder(i, g);
        lemma_preorder(l, h);
        let right = preorder(i, g);
        let left = preorder(l, h);
        let all = preorder(i, j);
        let r = right.len();
        assert(all =~= seq![model::addr(i, j)] + right + left);
        assert forall|x: int, y: int| 0 <= x < y < all.len() implies {
            let a = #[trigger] all[x];
            let b = #[trigger] all[y];
            a.i > b.i || (a.i == b.i && a.j > b.j)
        } by {
            let a = all[x];
            let b = all[y];
            if y < 1 + r {
                assert(b == right[y - 1]);
                assert(right.contains(b));
                if x > 0 {
                    assert(a == right[x - 1]);
                } else if b.i == i {
                    lemma_own_height(i, g, b.j as nat);
                }
            } else {
                assert(b == left[y - 1 - r]);
                assert(left.contains(b));
                if x >= 1 + r {
                    assert(a == left[x - 1 - r]);
                } else if x > 0 {
                    assert(a == right[x - 1]);
                    assert(right.contains(a));
                    nodes::lemma_span(a.i as nat, a.j as nat);
                }
            }
        }
    }
}

/// What a visitor is shown of a node: the size of the tree, the index and the height of the node, its
/// hash value, and of a leaf, and of it alone, the whole value.
pub proof fn law_visit(values: Seq<Seq<u8>>, revision: Index, i: nat, j: nat)
    requires
        nodes::valid(i, j),
        i <= values.len() <= u64::MAX,
    ensures
        ({
            let visit = walk::visit_of(values, revision, i, j);
            &&& visit.revision == revision
            &&& visit.i == i
            &&& visit.j == j
            &&& visit.hash == tree::node_hash(values, i, j)
            &&& j == 0 ==> visit.value == Some(values[i - 1])
            &&& j > 0 ==> visit.value is None
        }),
{
    formula::lemma_height(i as u64, j);
}

/// How a walk goes on from a node: not at all from a leaf or where the visitor ends it; and else to
/// the right child, to the left child, or to the right and then to the left child.
pub proof fn law_turns<V: Visitor>(
    values: Seq<Seq<u8>>,
    revision: Index,
    i: nat,
    j: nat,
    before: V,
    between: V,
    after: V,
)
    requires
        nodes::valid(i, j),
    ensures
        j == 0 ==> forall|d: WalkDirection| #[trigger]
            walk::walked_on(values, revision, i, j, d, before, after) <==> after == before,
        walk::walked_on(values, revision, i, j, WalkDirection::Terminate, before, after)
            <==> after == before,
        j > 0 ==> (walk::walked_on(
            values,
            revision,
            i,
            j,
            WalkDirection::Right,
            before,
            after,
        ) <==> walk::walked(values, revision, i, nodes::right_j(i, j), before, after)),
        j > 0 ==> (walk::walked_on(
            values,
            revision,
            i,
            j,
            WalkDirection::Left,
            before,
            after,
        ) <==> walk::walked(values, revision, nodes::left_i(i, j), (j - 1) as nat, before, after)),
        j > 0 && walk::walked(values, revision, i, nodes::right_j(i, j), before, between)
            && walk::walked(values, revision, nodes::left_i(i, j), (j - 1) as nat, between, after)
            ==> walk::walked_on(values, revision, i, j, WalkDirection::Both, before, after),
        j > 0 && walk::walked_on(values, revision, i, j, WalkDirection::Both, before, after)
            ==> exists|v: V|
            #![trigger walk::turn(v)]
            walk::walked(values, revision, i, nodes::right_j(i, j), before, v) && walk::walked(
                values,
                revision,
                nodes::left_i(i, j),
                (j - 1) as nat,
                v,
                after,
            ),
{
    if j > 0 {
        nodes::lemma_children(i, j);
        assert(walk::turn(between));
    }
}

/// A walk shows the node that it starts from first.
pub proof fn law_walk_starts<V: Visitor>(
    values: Seq<Seq<u8>>,
    revision: Index,
    i: nat,
    j: nat,
    before: V,
    after: V,
)
    requires
        walk::walked(values, revision, i, j, before, after),
    ensures
        exists|mid: V, d: WalkDirection|
            #![trigger V::step(before, walk::visit_of(values, revision, i, j), mid, d)]
            V::step(before, walk::visit_of(values, revision, i, j), mid, d) && walk::walked_on(
                values,
                revision,
                i,
                j,
                d,
                mid,
                after,
            ),
{
}

/// The entries of a tree: the `k`-th has the index `k`, the whole value, the hash value of its leaf,
/// and all nodes of its index above the leaf with their hash values; and every node names the
/// position of the entry in which its left child is.
pub proof fn law_genuine_entry(log: Seq<EntryModel>, k: nat)
    requires
        ledger::genuine(log),
        1 <= k <= log.len(),
    ensures
        ({
            let values = ledger::payloads(log);
            let e = log[k - 1];
            let at = e.meta.address.position;
            let nodes_of = model::spine(k, model::height(k));
            &&& values.len() == log.len()
            &&& values[k - 1] == e.payload
            &&& e.meta.address.i == k
            &&& e.meta.address.j == 0
            &&& e.meta.hash == tree::node_hash(values, k, 0)
            &&& e.inodes.len() == nodes_of.len()
            &&& forall|x: int|
                0 <= x < e.inodes.len() ==> {
                    let n = #[trigger] e.inodes[x];
                    let j = nodes_of[x].node.j;
                    &&& n.meta.address.i == k
                    &&& n.meta.address.j == j
                    &&& n.meta.address.position == at
                    &&& n.meta.hash == tree::node_hash(values, k, j as nat)
                    &&& n.left.i == nodes::left_i(k, j as nat)
                    &&& n.left.j == j - 1
                    &&& n.left.position == log[n.left.i - 1].meta.address.position
                    &&& n.right.i == k
                    &&& n.right.j == nodes::right_j(k, j as nat)
                    &&& n.right.position == at
                }
        }),
{
    let e = log[k - 1];
    let h = model::height(k);
    ledger::lemma_genuine_entry(log, k - 1);
    nodes::lemma_valid(k, h);
    ledger::lemma_spine_rungs(k, h);
    assert(log[k - 1] == ledger::entry_of(ledger::payloads(log), ledger::positions(log), k));
    assert forall|x: int| 0 <= x < e.inodes.len() implies {
        let n = #[trigger] e.inodes[x];
        let j = model::spine(k, h)[x].node.j;
        &&& n.meta.address.i == k
        &&& n.meta.address.j == j
        &&& n.meta.address.position == e.meta.address.position
        &&& n.meta.hash == tree::node_hash(ledger::payloads(log), k, j as nat)
        &&& n.left.i == nodes::left_i(k, j as nat)
        &&& n.left.j == j - 1
        &&& n.left.position == log[n.left.i - 1].meta.address.position
        &&& n.right.i == k
        &&& n.right.j == nodes::right_j(k, j as nat)
        &&& n.right.position == e.meta.address.position
    } by {
        assert(ledger::rung(k, h, x));
        nodes::lemma_children(k, model::spine(k, h)[x].node.j as nat);
    }
}

/// The values of a tree over a storage are the payloads of its entries.
pub proof fn law_values<S: Storage>(tree: Slate<S>, k: int)
    ensures
        tree.values().len() == tree.log().len(),
        tree.log() == tree.store().log(),
        0 <= k < tree.log().len() ==> tree.values()[k] == tree.log()[k].payload,
{
}

/// What appending and removing come to: one more value behind the others, and the first ones.
pub proof fn law_changes<S: Storage>(before: Slate<S>, value: Seq<u8>, i: nat, after: Slate<S>)
    ensures
        before.appended(value, &after) ==> after.consistent() && after.values()
            == before.values().push(value) && after.log().last().meta.address.position
            == before.next(),
        before.truncated(i, &after) ==> after.consistent() && after.values()
            == before.values().take(i - 1) && after.next()
            == before.log()[i - 1].meta.address.position,
{
}

/// A value that is found on the way to a leaf is that of an entry of this index, which is the entry
/// that the way starts from, or one that is kept or stored.
pub proof fn law_reached_is_stored(s: walk::Stored, e: EntryModel, k: nat, i: Index)
    requires
        walk::reached(s, e, k, i) is Found,
    ensures
        ({
            let f = walk::reached(s, e, k, i)->Found_0;
            &&& f.meta.address.i == i
            &&& f == e || kept_or_stored(s, f)
        }),
    decreases e.meta.address.i, k,
{
    let at = e.meta.address.i;
    let j = entry::node_at(e, k).address.j;
    if !(at == i && j == 0) {
        if at == i || nodes::covers(
            at as nat,
            nodes::right_j(at as nat, j as nat),
            i as nat,
        ) {
            law_reached_is_stored(s, e, (k - 1) as nat, i);
        } else {
            let (next, place) = walk::left_step(s, e, k)->Ok_0;
            lemma_at(s, e.inodes[k - 1].left);
            law_reached_is_stored(s, next, place, i);
        }
    }
}

/// Whether the entry is one that is kept, or one that is stored at some position.
pub open spec fn kept_or_stored(s: walk::Stored, e: EntryModel) -> bool {
    ||| exists|i: u64| #[trigger] s.kept.contains_key(i) && s.kept[i] == e
    ||| exists|p: u64| #[trigger] s.found.contains_key(p) && s.found[p] == e
}

proof fn lemma_at(s: walk::Stored, a: entry::Address)
    requires
        s.at(a) is Some,
    ensures
        kept_or_stored(s, s.at(a)->Some_0),
{
    if s.kept.contains_key(a.i) {
        assert(s.kept[a.i] == s.at(a)->Some_0);
    } else {
        assert(s.found.contains_key(a.position));
    }
}

/// Where an entry at an address comes from: the one of this index that is kept, or else the one that
/// is stored at the position, if it has this index.
pub proof fn law_entry_at(s: walk::Stored, a: entry::Address)
    ensures
        s.kept.contains_key(a.i) ==> s.at(a) == Some(s.kept[a.i]),
        !s.kept.contains_key(a.i) && s.found.contains_key(a.position)
            && s.found[a.position].meta.address.i == a.i ==> s.at(a) == Some(s.found[a.position]),
        !s.kept.contains_key(a.i) && !(s.found.contains_key(a.position)
            && s.found[a.position].meta.address.i == a.i) ==> s.at(a) is None,
{
}

/// The entry that a search comes to has the index that was looked for.
pub proof fn law_sought_has_index(s: walk::Stored, e: EntryModel, i: Index, n: nat)
    requires
        walk::sought_within(s, e, i, n) matches Some(reach) && reach is Found,
    ensures
        walk::sought(s, e, i) is Found,
        (walk::sought(s, e, i)->Found_0).meta.address.i == i,
    decreases n,
{
    walk::lemma_sought_is(s, e, i, n);
    if e.meta.address.i != i {
        let next = walk::next_step(s, e, i)->Ok_0;
        law_sought_has_index(s, next, i, (n - 1) as nat);
        walk::lemma_sought_is(s, next, i, (n - 1) as nat);
    }
}

/// The entries to keep are those of the tree up to the distance, and no others.
pub proof fn law_keeps(cache: Cache, k: nat)
    ensures
        cache.keeps(k) <==> 1 <= k <= cache.n() && distance::distance(
            cache.n(),
            model::height(cache.n()),
            k,
        ) <= cache.limit(),
{
}

/// The greatest payload has `2^31 - 1` bytes, and an index has 64 bits.
pub proof fn law_limits()
    ensures
        entry::MAX_PAYLOAD_SIZE == pow2(31) - 1,
        formula::INDEX_SIZE == 64,
{
    lemma2_to64();
}

/// Whether every entry that can be had has the index of its address and the nodes of its generation.
pub open spec fn well_linked(s: walk::Stored) -> bool {
    forall|a: entry::Address|
        (#[trigger] s.at(a)) matches Some(f) ==> ledger::shaped(f) && f.meta.address.i == a.i
}

/// Among entries that are all as they should be, but of which some are missing or cannot be read, the
/// way to a leaf leads to its entry, or it ends at an entry that cannot be had and says so: a value
/// that cannot be read is never taken for one that is not there.
pub proof fn law_missing_is_reported(s: walk::Stored, e: EntryModel, k: nat, i: Index)
    requires
        well_linked(s),
        ledger::shaped(e),
        k <= e.inodes.len(),
        nodes::covers(e.meta.address.i as nat, entry::height_of(e, k), i as nat),
    ensures
        match walk::reached(s, e, k, i) {
            walk::Reach::Found(f) => f.meta.address.i == i,
            walk::Reach::Broken(walk::Fault::Unread(a)) => s.at(a) is None,
            _ => false,
        },
    decreases e.meta.address.i, k,
{
    let at = e.meta.address.i as nat;
    ledger::lemma_shaped(e);
    nodes::lemma_leaf(at);
    if k > 0 {
        assert(ledger::step_of(e, k - 1));
        let j = entry::height_of(e, k);
        nodes::lemma_children(at, j);
        if e.meta.address.i == i || nodes::covers(at, nodes::right_j(at, j), i as nat) {
            nodes::lemma_span(at, nodes::right_j(at, j));
            law_missing_is_reported(s, e, (k - 1) as nat, i);
        } else {
            let left = e.inodes[k - 1].left;
            if s.at(left) is Some {
                let next = s.at(left)->Some_0;
                walk::lemma_place(next, left.j);
                law_missing_is_reported(s, next, entry::place_of(next, left.j), i);
            }
        }
    }
}

/// Among such entries a sample of a leaf either holds the value of the leaf, or it ends at an entry
/// that cannot be had and says so.
pub proof fn law_missing_in_sample(
    s: walk::Stored,
    e: EntryModel,
    k: nat,
    i: Index,
    before: query::Stratum,
)
    requires
        well_linked(s),
        ledger::shaped(e),
        k <= e.inodes.len(),
    ensures
        match query::sampled(s, e, k, i, before) {
            Ok(after) => {
                &&& nodes::covers(e.meta.address.i as nat, entry::height_of(e, k), i as nat)
                    ==> after.1 is Some
                &&& !nodes::covers(e.meta.address.i as nat, entry::height_of(e, k), i as nat)
                    ==> after.1 == before.1 && after.0 == before.0.insert(
                    (e.meta.address.i, entry::node_at(e, k).address.j),
                    entry::node_at(e, k).hash,
                )
                &&& forall|key: (Index, u8)| #[trigger]
                    before.0.contains_key(key) ==> after.0.contains_key(key)
            },
            Err(walk::Fault::Unread(a)) => s.at(a) is None,
            Err(_) => false,
        },
    decreases e.meta.address.i, k,
{
    let at = e.meta.address.i as nat;
    ledger::lemma_shaped(e);
    nodes::lemma_leaf(at);
    if k > 0 {
        assert(ledger::step_of(e, k - 1));
        let j = entry::height_of(e, k);
        nodes::lemma_children(at, j);
        if nodes::covers(at, j, i as nat) {
            law_missing_in_sample(s, e, (k - 1) as nat, i, before);
            let halfway = query::sampled(s, e, (k - 1) as nat, i, before);
            let left = e.inodes[k - 1].left;
            if halfway is Ok && s.at(left) is Some {
                let next = s.at(left)->Some_0;
                walk::lemma_place(next, left.j);
                law_missing_in_sample(
                    s,
                    next,
                    entry::place_of(next, left.j),
                    i,
                    halfway->Ok_0,
                );
                nodes::lemma_span(left.i as nat, left.j as nat);
            }
        }
    }
}

/// Among such entries a search for an entry leads to it, or it ends at one that cannot be had.
pub proof fn law_missing_in_search(s: walk::Stored, e: EntryModel, i: Index)
    requires
        well_linked(s),
        ledger::shaped(e),
        1 <= i <= e.meta.address.i,
    ensures
        match walk::sought(s, e, i) {
            walk::Reach::Found(f) => f.meta.address.i == i,
            walk::Reach::Broken(walk::Fault::Unread(a)) => s.at(a) is None,
            _ => false,
        },
{
    lemma_search_ends(s, e, i);
    walk::lemma_sought_is(s, e, i, e.meta.address.i as nat);
}

proof fn lemma_search_ends(s: walk::Stored, e: EntryModel, i: Index)
    requires
        well_linked(s),
        ledger::shaped(e),
        1 <= i <= e.meta.address.i,
    ensures
        walk::sought_within(s, e, i, e.meta.address.i as nat) is Some,
        match walk::sought_within(s, e, i, e.meta.address.i as nat)->Some_0 {
            walk::Reach::Found(f) => f.meta.address.i == i,
            walk::Reach::Broken(walk::Fault::Unread(a)) => s.at(a) is None,
            _ => false,
        },
    decreases e.meta.address.i,
{
    if e.meta.address.i != i {
        let at = e.meta.address.i as nat;
        nodes::lemma_leaf(at);
        ledger::lemma_shaped(e);
        walk::lemma_branch(e, i, 0);
        let x = walk::branch_place(e, i, 0);
        assert(ledger::step_of(e, x as int));
        let left = e.inodes[x as int].left;
        nodes::lemma_children(at, e.inodes[x as int].meta.address.j as nat);
        if s.at(left) is Some {
            let next = s.at(left)->Some_0;
            lemma_search_ends(s, next, i);
            walk::lemma_within(
                s,
                next,
                i,
                next.meta.address.i as nat,
                (e.meta.address.i - 1) as nat,
            );
        }
    }
}

/// What a removal comes to: with success the tree is that of what the storage holds after it, and the
/// error is that of the storage or the one for what is left there.
pub proof fn law_removal<S: Storage>(
    before: Slate<S>,
    position: Position,
    r: crate::error::Result<bool>,
    after: Slate<S>,
)
    requires
        before.cut_off(position, r, &after),
        before.store().reliable(),
    ensures
        r matches Ok(removed) ==> removed && exists|left: S, gone: bool|
            #[trigger] S::removing(before.store(), position, left, Ok::<bool, Error>(gone))
                && after.cached().n() == slate::size_with(left.latest()) && after.next()
                == left.end() && after.store().found() == left.found(),
        r matches Err(error) ==> S::removing(
            before.store(),
            position,
            after.store(),
            Err::<bool, Error>(error),
        ) || exists|left: S, gone: bool|
            #[trigger] S::removing(before.store(), position, left, Ok::<bool, Error>(gone))
                && slate::unopened(left, before.cached().limit(), error),
{
    match r {
        Ok(_) => {
            let left = choose|left: S| #[trigger]
                slate::removes(before.store(), position, left) && slate::loads(
                    left,
                    before.cached().limit(),
                ) && after.opened(&left, before.cached().limit());
            let gone = choose|gone: bool| #[trigger]
                S::removing(before.store(), position, left, Ok::<bool, Error>(gone));
            assert(S::removing(before.store(), position, left, Ok::<bool, Error>(gone)));
        },
        Err(error) => {
            if !S::removing(before.store(), position, after.store(), Err::<bool, Error>(error)) {
                let left = choose|left: S| #[trigger]
                    slate::removes(before.store(), position, left) && slate::unopened(
                        left,
                        before.cached().limit(),
                        error,
                    );
                let gone = choose|gone: bool| #[trigger]
                    S::removing(before.store(), position, left, Ok::<bool, Error>(gone));
                assert(S::removing(before.store(), position, left, Ok::<bool, Error>(gone)));
            }
        },
    }
}

} // verus!
