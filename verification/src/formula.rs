//! The formulas of the tree: positions, heights, ranges and distances, computed from indices
//! alone.
use crate::arith;
use crate::nodes;
use std::ops::RangeInclusive;
use vstd::arithmetic::power2::*;
use vstd::prelude::*;

pub use crate::distance::{
    entry_access_distance, entry_access_distance_limits, stratum_sample_size,
};
pub use crate::model::{pbst_roots, Model};

verus! {

/// The integer type of an index `i`.
pub type Index = u64;

/// The bit width of [`Index`].
pub const INDEX_SIZE: u8 = 64;

/// The position of a node `b_{i,j}` in the tree.
#[derive(Eq, PartialEq, Structural, Copy, Clone, Debug)]
pub struct Addr {
    pub i: Index,
    pub j: u8,
}

impl Addr {
    pub fn new(i: Index, j: u8) -> (r: Addr)
        ensures
            r == (Addr { i, j }),
    {
        Addr { i, j }
    }
}

/// The position of an intermediate node, with those of its two children.
#[derive(Eq, PartialEq, Structural, Copy, Clone, Debug)]
pub struct INode {
    pub node: Addr,
    pub left: Addr,
    pub right: Addr,
}

impl INode {
    pub fn new(node: Addr, left: Addr, right: Addr) -> (r: INode)
        ensures
            r == (INode { node, left, right }),
    {
        INode { node, left, right }
    }
}

/// `i mod 2^j`, for `j` from 0 to 64.
#[inline]
pub fn i_mod_2e(i: Index, j: u8) -> (r: Index)
    requires
        j <= 64,
    ensures
        r == i as nat % pow2(j as nat),
{
    proof {
        lemma2_to64();
        lemma2_to64_rest();
        arith::lemma_pow2_u64(j as nat);
    }
    if j >= 64 {
        proof {
            vstd::arithmetic::div_mod::lemma_small_mod(i as nat, pow2(64));
        }
        i
    } else {
        let size: u64 = pow2e(j);
        proof {
            vstd::bits::lemma_u64_low_bits_mask_is_mod(i, j as nat);
            assert(vstd::bits::low_bits_mask(j as nat) == pow2(j as nat) - 1);
        }
        i & (size - 1)
    }
}

/// `2^j`, for `j` from 0 to 63.
#[inline]
pub fn pow2e(j: u8) -> (r: Index)
    requires
        j < 64,
    ensures
        r == pow2(j as nat),
        r >= 1,
{
    proof {
        arith::lemma_pow2_u64(j as nat);
        vstd::bits::lemma_u64_shl_is_mul(1, j as u64);
    }
    1u64 << j
}

/// The number of bits that `x` takes, from 0 to 64.
fn bit_length(x: u64) -> (r: u8)
    ensures
        r <= 64,
        x < pow2(r as nat),
        r >= 1 ==> pow2((r - 1) as nat) <= x,
{
    let zeros: u32 = x.leading_zeros();
    proof {
        vstd::std_specs::bits::axiom_u64_leading_zeros(x);
        let bits = (64 - zeros) as u64;
        arith::lemma_pow2_u64(bits as nat);
        lemma2_to64();
        lemma2_to64_rest();
        if bits < 64 {
            vstd::bits::lemma_u64_shr_is_div(x, bits);
            assert(x as nat / pow2(bits as nat) == 0);
            assert(x < pow2(bits as nat)) by {
                if x >= pow2(bits as nat) {
                    vstd::arithmetic::div_mod::lemma_div_non_zero(x as int, pow2(bits as nat) as int);
                }
            }
        }
        if bits >= 1 {
            let top = (bits - 1) as u64;
            arith::lemma_pow2_u64(top as nat);
            vstd::bits::lemma_u64_shr_is_div(x, top);
            assert(x >> top != 0) by {
                assert((x >> top) & 1u64 != 0u64);
                let y = x >> top;
                assert(y & 1u64 != 0u64 ==> y != 0u64) by (bit_vector);
            }
            if x < pow2(top as nat) {
                vstd::arithmetic::div_mod::lemma_basic_div(x as int, pow2(top as nat) as int);
            }
        }
    }
    (64 - zeros) as u8
}

/// The least `y` with `x <= 2^y`, from 0 (for 1) to 64.
#[inline]
pub fn ceil_log2(x: Index) -> (r: u8)
    requires
        x > 0,
    ensures
        r == arith::clog2(x as nat),
        r <= 64,
{
    let r: u8 = bit_length(x - 1);
    proof {
        lemma2_to64();
        arith::lemma_clog2_unique(x as nat, r as nat);
    }
    r
}

/// The greatest `y` with `2^y <= x`, from 0 (for 1) to 63.
#[inline]
pub fn floor_log2(x: Index) -> (r: u8)
    requires
        x > 0,
    ensures
        r == arith::flog2(x as nat),
        r < 64,
{
    let bits: u8 = bit_length(x);
    proof {
        lemma2_to64();
        assert(bits >= 1);
        arith::lemma_flog2_unique(x as nat, (bits - 1) as nat);
    }
    bits - 1
}

/// Whether the subtree of `b_{i,j}` is a perfect binary tree. Every leaf is one.
#[inline]
pub fn is_pbst(i: Index, j: u8) -> (r: bool)
    requires
        j <= 64,
    ensures
        r == nodes::perfect(i as nat, j as nat),
{
    i_mod_2e(i, j) == 0
}

/// The number of independent perfect binary trees in the tree of `n` leaves.
#[inline]
pub fn count_pbsts(n: Index) -> (r: u8)
    ensures
        r == arith::ones(n as nat),
{
    count_ones(n)
}

/// The number of one bits of `x`.
pub(crate) fn count_ones(x: u64) -> (r: u8)
    ensures
        r == arith::ones(x as nat),
        r <= 64,
{
    let mut rest: u64 = x;
    let mut count: u8 = 0;
    let ghost mut bits: nat = 64;
    proof {
        lemma2_to64();
        lemma2_to64_rest();
    }
    while rest != 0
        invariant
            count + arith::ones(rest as nat) == arith::ones(x as nat),
            bits <= 64,
            rest < pow2(bits),
            count + bits <= 64,
        decreases rest,
    {
        proof {
            lemma2_to64();
            assert(bits > 0);
            lemma_pow2_unfold(bits);
            bits = (bits - 1) as nat;
        }
        count = count + (rest % 2) as u8;
        rest = rest / 2;
    }
    count
}

/// The number of nodes of the tree of `n` leaves, the leaves included.
#[inline]
pub fn total_nodes(n: Index) -> (r: u128)
    ensures
        r == (if n == 0 {
            0
        } else {
            2 * n - 1
        }),
{
    if n == 0 {
        0
    } else {
        2 * (n as u128) - 1
    }
}

/// The leaves below the node `b_{i,j}`, first and last included.
#[inline]
pub fn range(i: Index, j: u8) -> (r: RangeInclusive<Index>)
    requires
        i > 0,
        j <= 64,
    ensures
        r@.start == nodes::first(i as nat, j as nat),
        r@.end == i,
        !r@.exhausted,
{
    RangeInclusive::new(first_leaf(i, j), i)
}

/// The first leaf below the node `b_{i,j}`.
pub(crate) fn first_leaf(i: Index, j: u8) -> (r: Index)
    requires
        i > 0,
        j <= 64,
    ensures
        r == nodes::first(i as nat, j as nat),
        1 <= r <= i,
{
    let rest: u64 = i_mod_2e(i - 1, j);
    proof {
        nodes::lemma_span(i as nat, j as nat);
    }
    i - rest
}

/// The root `b_{i,j}` of the tree of `n` leaves.
#[inline]
pub fn root_of(n: Index) -> (r: (Index, u8))
    requires
        n > 0,
    ensures
        r.0 == n,
        r.1 == arith::clog2(n as nat),
        r.1 <= 64,
        nodes::valid(r.0 as nat, r.1 as nat),
{
    proof {
        nodes::lemma_valid(n as nat, arith::clog2(n as nat));
    }
    (n, ceil_log2(n))
}

/// The height of a node with a `u64` index is at most 64.
pub proof fn lemma_height(i: Index, j: nat)
    requires
        nodes::valid(i as nat, j),
    ensures
        j <= 64,
{
    lemma2_to64_rest();
    nodes::lemma_valid(i as nat, j);
    arith::lemma_clog2_bound(i as nat, 64);
}

/// The left and the right child of the intermediate node `b_{i,j}`.
#[inline]
pub fn subnodes_of(i: Index, j: u8) -> (r: ((Index, u8), (Index, u8)))
    requires
        nodes::valid(i as nat, j as nat),
        j >= 1,
    ensures
        r.0.0 == nodes::left_i(i as nat, j as nat),
        r.0.1 == j - 1,
        r.1.0 == i,
        r.1.1 == nodes::right_j(i as nat, j as nat),
{
    proof {
        lemma_height(i, j as nat);
        nodes::lemma_children(i as nat, j as nat);
        nodes::lemma_span(i as nat, j as nat);
    }
    let left: u64 = first_leaf(i, j) - 1 + pow2e(j - 1);
    ((left, j - 1), (i, ceil_log2(i - left)))
}

/// Whether a node `b_{i,j}` can exist.
#[inline]
pub fn is_valid(i: Index, j: u8) -> (r: bool)
    ensures
        r == nodes::valid(i as nat, j as nat),
{
    if i == 0 {
        return false;
    }
    proof {
        nodes::lemma_valid(i as nat, j as nat);
        nodes::lemma_leaf(i as nat);
    }
    if j == 0 {
        true
    } else {
        let height: u8 = ceil_log2(i);
        if j > height {
            false
        } else if j == height {
            true
        } else if is_pbst(i, j) {
            true
        } else {
            i_mod_2e(i, j) > pow2e(j - 1)
        }
    }
}

/// The number of leaves below the node `b_{i,j}`.
#[inline]
pub fn leaf_count(i: Index, j: u8) -> (r: Index)
    requires
        i > 0,
        j <= 64,
    ensures
        r == nodes::leaves(i as nat, j as nat),
{
    proof {
        nodes::lemma_span(i as nat, j as nat);
    }
    i_mod_2e(i - 1, j) + 1
}

/// Whether the leaf `k` is below the node `b_{i,j}`.
#[inline]
pub fn contains(i: Index, j: u8, k: Index) -> (r: bool)
    requires
        i > 0,
        j <= 64,
    ensures
        r == nodes::covers(i as nat, j as nat, k as nat),
{
    range(i, j).contains(&k)
}

} // verus!
