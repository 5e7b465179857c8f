//! The hash values of the nodes over a sequence of leaves.
use crate::hash;
use crate::model;
use crate::nodes;
use vstd::prelude::*;

verus! {

/// The hash value of the node `b_{i,j}` over the given leaves, of which the first has the index 1.
pub open spec fn node_hash(values: Seq<Seq<u8>>, i: nat, j: nat) -> Seq<u8>
    decreases j,
{
    if j == 0 || nodes::right_j(i, j) >= j {
        hash::digest(0, values[i - 1])
    } else {
        hash::digest(
            j as u8,
            node_hash(values, nodes::left_i(i, j), (j - 1) as nat) + node_hash(
                values,
                i,
                nodes::right_j(i, j),
            ),
        )
    }
}

/// The root hash of the tree over the given leaves.
pub open spec fn root_hash(values: Seq<Seq<u8>>) -> Seq<u8> {
    node_hash(values, values.len(), model::height(values.len()))
}

/// Every hash value is 32 bytes long.
pub proof fn lemma_hash_len(values: Seq<Seq<u8>>, i: nat, j: nat)
    ensures
        node_hash(values, i, j).len() == 32,
{
}

/// The hash value of a node depends on the leaves below it alone.
pub proof fn lemma_hash_local(a: Seq<Seq<u8>>, b: Seq<Seq<u8>>, i: nat, j: nat)
    requires
        nodes::valid(i, j),
        i <= a.len(),
        i <= b.len(),
        forall|k: int| nodes::first(i, j) - 1 <= k < i ==> #[trigger] a[k] == b[k],
    ensures
        node_hash(a, i, j) == node_hash(b, i, j),
    decreases j,
{
    nodes::lemma_span(i, j);
    if j > 0 {
        nodes::lemma_children(i, j);
        let l = nodes::left_i(i, j);
        nodes::lemma_span(l, (j - 1) as nat);
        lemma_hash_local(a, b, l, (j - 1) as nat);
        lemma_hash_local(a, b, i, nodes::right_j(i, j));
    } else {
        nodes::lemma_leaf(i);
        assert(a[i - 1] == b[i - 1]);
    }
}

/// A node keeps its hash value while further leaves come.
pub proof fn lemma_hash_prefix(values: Seq<Seq<u8>>, n: nat, i: nat, j: nat)
    requires
        nodes::valid(i, j),
        i <= n <= values.len(),
    ensures
        node_hash(values.take(n as int), i, j) == node_hash(values, i, j),
{
    nodes::lemma_span(i, j);
    lemma_hash_local(values.take(n as int), values, i, j);
}

/// The hash value of a node is the root hash of the tree over its own leaves.
pub proof fn lemma_hash_shift(values: Seq<Seq<u8>>, i: nat, j: nat, d: nat)
    requires
        nodes::valid(i, j),
        i <= values.len(),
        d < nodes::first(i, j),
        d % vstd::arithmetic::power2::pow2(j) == 0,
    ensures
        node_hash(values, i, j) == node_hash(values.skip(d as int), (i - d) as nat, j),
        nodes::valid((i - d) as nat, j),
        nodes::first((i - d) as nat, j) == nodes::first(i, j) - d,
    decreases j,
{
    let low = values.skip(d as int);
    let k = (i - d) as nat;
    lemma_shift(i, j, d);
    nodes::lemma_span(i, j);
    if j > 0 {
        nodes::lemma_children(i, j);
        let h = (j - 1) as nat;
        let l = nodes::left_i(i, j);
        let g = nodes::right_j(i, j);
        nodes::lemma_span(l, h);
        crate::arith::lemma_mod_divides(d, j, h);
        crate::arith::lemma_mod_divides(d, j, g);
        lemma_hash_shift(values, l, h, d);
        lemma_hash_shift(values, i, g, d);
        nodes::lemma_children(k, j);
        assert(nodes::left_i(k, j) == l - d);
        assert(nodes::right_j(k, j) == g);
    }
}

/// A shift by a multiple of `2^j` maps the nodes of height `j` onto each other.
proof fn lemma_shift(i: nat, j: nat, d: nat)
    requires
        nodes::valid(i, j),
        d < nodes::first(i, j),
        d % vstd::arithmetic::power2::pow2(j) == 0,
    ensures
        nodes::valid((i - d) as nat, j),
        nodes::first((i - d) as nat, j) == nodes::first(i, j) - d,
        nodes::leaves((i - d) as nat, j) == nodes::leaves(i, j),
{
    let p = vstd::arithmetic::power2::pow2(j) as int;
    vstd::arithmetic::power2::lemma_pow2_pos(j);
    nodes::lemma_span(i, j);
    let x = (i - 1 - d) as int;
    vstd::arithmetic::div_mod::lemma_fundamental_div_mod(d as int, p);
    let q = d as int / p;
    assert(d == q * p) by {
        vstd::arithmetic::mul::lemma_mul_is_commutative(p, q);
    }
    vstd::arithmetic::div_mod::lemma_mod_multiples_vanish(q, x, p);
    assert(p * q + x == i - 1) by {
        vstd::arithmetic::mul::lemma_mul_is_commutative(p, q);
    }
    assert((i - 1) as int % p == x % p);
}

/// The leaves below a node, taken by themselves, give the node's hash value as their root hash.
pub proof fn lemma_hash_of_leaves(values: Seq<Seq<u8>>, i: nat, j: nat)
    requires
        nodes::valid(i, j),
        i <= values.len(),
    ensures
        node_hash(values, i, j) == root_hash(
            values.subrange(nodes::first(i, j) - 1, i as int),
        ),
{
    let d = (nodes::first(i, j) - 1) as nat;
    nodes::lemma_span(i, j);
    lemma_hash_shift(values, i, j, d);
    let low = values.skip(d as int);
    let m = (i - d) as nat;
    let own = values.subrange(d as int, i as int);
    assert(own =~= low.take(m as int));
    lemma_hash_prefix(low, m, m, j);
    nodes::lemma_valid(m, j);
    assert(nodes::leaves(m, j) == m) by {
        nodes::lemma_span(m, j);
    }
}

/// The hash value of a leaf is the BLAKE3 hash of a zero followed by the whole value; that of any
/// other node is the BLAKE3 hash of its height followed by the hash values of its left and its right
/// child. Of each hash the first 32 bytes are taken.
pub proof fn law_node_hash(values: Seq<Seq<u8>>, i: nat, j: nat)
    requires
        nodes::valid(i, j),
        i <= values.len() <= u64::MAX,
    ensures
        node_hash(values, i, j).len() == 32,
        j == 0 ==> forall|x: int|
            0 <= x < 32 ==> #[trigger] node_hash(values, i, j)[x] == hash::blake3_of(
                seq![0u8] + values[i - 1],
            )[x],
        j >= 1 ==> forall|x: int|
            0 <= x < 32 ==> #[trigger] node_hash(values, i, j)[x] == hash::blake3_of(
                seq![j as u8] + (node_hash(values, nodes::left_i(i, j), (j - 1) as nat)
                    + node_hash(values, i, nodes::right_j(i, j))),
            )[x],
        j <= 64,
{
    crate::formula::lemma_height(i as u64, j);
    if j == 0 {
        hash::law_digest_is_blake3(0, values[i - 1]);
    } else {
        nodes::lemma_children(i, j);
        hash::law_digest_is_blake3(
            j as u8,
            node_hash(values, nodes::left_i(i, j), (j - 1) as nat) + node_hash(
                values,
                i,
                nodes::right_j(i, j),
            ),
        );
    }
}

/// The root hash of a tree is the hash value of its highest node, the only one that is above all
/// leaves.
pub proof fn law_root_hash(values: Seq<Seq<u8>>)
    requires
        1 <= values.len() <= u64::MAX,
    ensures
        ({
            let n = values.len();
            let h = model::height(n);
            &&& root_hash(values) == node_hash(values, n, h)
            &&& nodes::valid(n, h)
            &&& forall|k: nat| 1 <= k <= n ==> #[trigger] nodes::covers(n, h, k)
        }),
{
    nodes::lemma_valid(values.len(), model::height(values.len()));
}

} // verus!
