//! Values, the nodes over them, and a run of values with the nodes that join it to a root.
use crate::arith;
use crate::formula::Index;
use crate::hash;
use crate::model;
use crate::nodes;
use crate::text;
use crate::tree;
use vstd::arithmetic::power2::*;
use vstd::prelude::*;

verus! {

/// What a [`Node`] is, with its hash value as a sequence of bytes.
pub struct NodeModel {
    pub i: Index,
    pub j: u8,
    pub hash: Seq<u8>,
}

/// A node of the hash tree.
#[derive(PartialEq, Eq, Copy, Clone, Debug)]
pub struct Node {
    /// The index.
    pub i: Index,
    /// The height.
    pub j: u8,
    /// The hash value.
    pub hash: crate::Hash,
}

impl View for Node {
    type V = NodeModel;

    open spec fn view(&self) -> NodeModel {
        NodeModel { i: self.i, j: self.j, hash: self.hash@ }
    }
}

impl NodeModel {
    /// Whether the two nodes can be the left and the right child of one node.
    pub open spec fn joinable(self, right: NodeModel) -> bool {
        self.i < right.i && self.j >= right.j && self.j < 255
    }

    /// The node with this one as its left and the other one as its right child.
    pub open spec fn join(self, right: NodeModel) -> NodeModel {
        NodeModel {
            i: right.i,
            j: (self.j + 1) as u8,
            hash: hash::digest((self.j + 1) as u8, self.hash + right.hash),
        }
    }

    /// Whether the two nodes can be joined with the one of the smaller index on the left.
    pub open spec fn meets(self, branch: NodeModel) -> bool {
        if self.i < branch.i {
            self.joinable(branch)
        } else {
            branch.joinable(self)
        }
    }

    /// The two nodes joined, with the one of the smaller index on the left.
    pub open spec fn meet(self, branch: NodeModel) -> NodeModel {
        if self.i < branch.i {
            self.join(branch)
        } else {
            branch.join(self)
        }
    }

    /// Whether this node can be joined with the given ones, from the last to the first.
    pub open spec fn foldable(self, branches: Seq<NodeModel>) -> bool
        decreases branches.len(),
    {
        branches.len() > 0 ==> self.meets(branches.last()) && self.meet(branches.last()).foldable(
            branches.drop_last(),
        )
    }

    /// This node joined with the given ones, from the last to the first.
    pub open spec fn fold(self, branches: Seq<NodeModel>) -> NodeModel
        decreases branches.len(),
    {
        if branches.len() == 0 {
            self
        } else {
            self.meet(branches.last()).fold(branches.drop_last())
        }
    }
}

impl Node {
    pub fn new(i: Index, j: u8, hash: crate::Hash) -> (r: Node)
        ensures
            r == (Node { i, j, hash }),
    {
        Node { i, j, hash }
    }

    /// The parent with this node as its left and `right` as its right child.
    pub fn parent(&self, right: &Node) -> (r: Node)
        requires
            self@.joinable(right@),
        ensures
            r@ == self@.join(right@),
    {
        let i: Index = right.i;
        let j: u8 = self.j + 1;
        let hash: crate::Hash = self.hash.combine(j, &right.hash);
        Node::new(i, j, hash)
    }

    /// The index, the height and the hash value as text.
    pub fn to_str(&self) -> (r: String)
        ensures
            r@ == text::decimal_of(self.i as nat) + ","@ + text::decimal_of(self.j as nat) + ":"@
                + text::hex_of(self.hash@),
    {
        let mut text: String = text::decimal(self.i);
        text::push_text(&mut text, ",");
        text::push_decimal(&mut text, self.j as u64);
        text::push_text(&mut text, ":");
        text::push_text(&mut text, self.hash.to_str().as_str());
        text
    }
}

/// A value in the tree.
#[derive(PartialEq, Eq, Debug)]
pub struct Value {
    /// The index.
    pub i: Index,
    /// The bytes.
    pub value: Vec<u8>,
}

impl Clone for Value {
    fn clone(&self) -> (r: Value)
        ensures
            r.i == self.i,
            r.value@ == self.value@,
    {
        let value: Vec<u8> = vstd::slice::slice_to_vec(self.value.as_slice());
        Value { i: self.i, value }
    }
}

impl Value {
    pub fn new(i: Index, value: Vec<u8>) -> (r: Value)
        ensures
            r == (Value { i, value }),
    {
        Value { i, value }
    }

    /// The hash value of the leaf.
    pub fn hash(&self) -> (r: crate::Hash)
        ensures
            r@ == hash::digest(0, self.value@),
    {
        crate::Hash::from_bytes(0, self.value.as_slice())
    }

    /// The leaf.
    pub fn to_node(&self) -> (r: Node)
        ensures
            r.i == self.i,
            r.j == 0,
            r.hash@ == hash::digest(0, self.value@),
    {
        Node::new(self.i, 0u8, self.hash())
    }

    /// The index and the value as text.
    pub fn to_str(&self) -> (r: String)
        ensures
            r@ == text::decimal_of(self.i as nat) + ":"@ + text::hex_of(self.value@),
    {
        let mut text: String = text::decimal(self.i);
        text::push_text(&mut text, ":");
        text::push_text(&mut text, text::hex(self.value.as_slice()).as_str());
        text
    }
}

/// Values of consecutive indices, with the nodes that branch off the path to them. The root hash
/// that comes of them tells whether the values are those of a tree whose root hash is known.
#[derive(Debug)]
pub struct ValuesWithBranches {
    pub values: Vec<Value>,
    pub branches: Vec<Node>,
}

/// Whether the values are at least one and have consecutive indices.
pub open spec fn consecutive(values: Seq<Value>) -> bool {
    &&& values.len() > 0
    &&& forall|k: int| 0 <= k < values.len() ==> #[trigger] values[k].i == values[0].i + k
}

/// The bytes of the values.
pub open spec fn payloads(values: Seq<Value>) -> Seq<Seq<u8>> {
    values.map_values(|v: Value| v.value@)
}

/// The root of the tree over the given values, which keep their indices.
pub open spec fn top_of(values: Seq<Value>) -> NodeModel {
    NodeModel {
        i: values.last().i,
        j: model::height(values.len()) as u8,
        hash: tree::root_hash(payloads(values)),
    }
}

/// The last leaf of the `k`-th block of `2^t` leaves, out of `m`.
spec fn block_end(m: nat, t: nat, k: nat) -> nat {
    if (k + 1) * pow2(t) <= m {
        (k + 1) * pow2(t)
    } else {
        m
    }
}

/// The root of the `k`-th block of `2^t` leaves.
spec fn block(values: Seq<Value>, t: nat, k: nat) -> NodeModel {
    let m = values.len();
    let i = block_end(m, t, k);
    let j = arith::clog2((i - k * pow2(t)) as nat);
    NodeModel {
        i: (values[0].i + i - 1) as u64,
        j: j as u8,
        hash: tree::node_hash(payloads(values), i, j),
    }
}

/// A block is a node of the tree.
proof fn lemma_block(m: nat, t: nat, k: nat)
    requires
        k * pow2(t) < m,
    ensures
        ({
            let i = block_end(m, t, k);
            let r = (i - k * pow2(t)) as nat;
            let j = arith::clog2(r);
            &&& 1 <= r <= pow2(t)
            &&& i <= m
            &&& j <= t
            &&& nodes::valid(i, j)
            &&& nodes::first(i, j) == k * pow2(t) + 1
            &&& r == pow2(t) ==> j == t
        }),
{
    lemma_pow2_pos(t);
    assert((k + 1) * pow2(t) == k * pow2(t) + pow2(t)) by (nonlinear_arith);
    let i = block_end(m, t, k);
    let r = (i - k * pow2(t)) as nat;
    let j = arith::clog2(r);
    arith::lemma_clog2(r);
    arith::lemma_clog2_bound(r, t);
    arith::lemma_mod_aligned(k, (r - 1) as nat, t, j);
    if r == pow2(t) {
        if t >= 1 {
            lemma_pow2_strictly_increases((t - 1) as nat, t);
        }
        arith::lemma_clog2_unique(r, t);
    }
}

/// Two neighbouring blocks join to a block of twice the size.
proof fn lemma_pair(values: Seq<Value>, t: nat, k: nat)
    requires
        consecutive(values),
        (2 * k + 1) * pow2(t) < values.len(),
        values.len() <= u64::MAX,
        t < 64,
    ensures
        block(values, t, 2 * k).joinable(block(values, t, 2 * k + 1)),
        block(values, t + 1, k) == block(values, t, 2 * k).join(block(values, t, 2 * k + 1)),
{
    let m = values.len();
    lemma_pow2_pos(t);
    lemma_pow2_unfold(t + 1);
    let p = pow2(t);
    assert(k * pow2(t + 1) == 2 * k * p && (2 * k + 1) * p == 2 * k * p + p && (2 * k + 2) * p == 2
        * k * p + 2 * p && (k + 1) * pow2(t + 1) == 2 * k * p + 2 * p) by (nonlinear_arith)
        requires
            pow2(t + 1) == 2 * p,
    ;
    lemma_block(m, t, 2 * k);
    lemma_block(m, t, 2 * k + 1);
    lemma_block(m, t + 1, k);
    let l = block_end(m, t, 2 * k);
    let i = block_end(m, t, 2 * k + 1);
    assert(l == (2 * k + 1) * p);
    assert(block_end(m, t + 1, k) == i);
    let r = (i - k * pow2(t + 1)) as nat;
    assert(p < r <= pow2(t + 1));
    arith::lemma_clog2_unique(r, t + 1);
    assert(nodes::left_i(i, t + 1) == l);
    assert(nodes::right_j(i, t + 1) == arith::clog2((i - l) as nat));
    assert(values[i - 1].i == values[0].i + i - 1);
    assert(values[l - 1].i == values[0].i + l - 1);
}

/// A single block that is left over stays as it is.
proof fn lemma_carry(values: Seq<Value>, t: nat, k: nat)
    requires
        2 * k * pow2(t) < values.len() <= (2 * k + 1) * pow2(t),
    ensures
        block(values, t + 1, k) == block(values, t, 2 * k),
{
    lemma_pow2_pos(t);
    lemma_pow2_unfold(t + 1);
    let p = pow2(t);
    assert(k * pow2(t + 1) == 2 * k * p && (2 * k + 1) * p == 2 * k * p + p && (k + 1) * pow2(t + 1)
        == 2 * k * p + 2 * p) by (nonlinear_arith)
        requires
            pow2(t + 1) == 2 * p,
    ;
}

impl ValuesWithBranches {
    pub fn new(values: Vec<Value>, branches: Vec<Node>) -> (r: ValuesWithBranches)
        requires
            consecutive(values@),
        ensures
            r.values == values,
            r.branches == branches,
    {
        ValuesWithBranches { values, branches }
    }

    /// The root that comes of the values and the branches.
    pub fn root(&self) -> (r: Node)
        requires
            consecutive(self.values@),
            top_of(self.values@).foldable(self.branches@.map_values(|b: Node| b@)),
        ensures
            r@ == top_of(self.values@).fold(self.branches@.map_values(|b: Node| b@)),
    {
        let mut folding: Node = self.top();
        let ghost all = self.branches@.map_values(|b: Node| b@);
        let mut k: usize = self.branches.len();
        proof {
            assert(all.take(k as int) =~= all);
        }
        while k > 0
            invariant
                k <= self.branches@.len(),
                all == self.branches@.map_values(|b: Node| b@),
                folding@.foldable(all.take(k as int)),
                folding@.fold(all.take(k as int)) == top_of(self.values@).fold(all),
            decreases k,
        {
            let ghost rest = all.take(k as int);
            proof {
                assert(rest.last() == self.branches@[k - 1]@);
                assert(rest.drop_last() =~= all.take(k - 1));
            }
            k = k - 1;
            let branch: &Node = &self.branches[k];
            folding = if folding.i < branch.i {
                folding.parent(branch)
            } else {
                branch.parent(&folding)
            };
        }
        folding
    }

    /// The root of the tree over the values alone.
    fn top(&self) -> (r: Node)
        requires
            consecutive(self.values@),
        ensures
            r@ == top_of(self.values@),
    {
        let ghost values = self.values@;
        let ghost m = values.len();
        let mut hashes: Vec<Node> = Vec::with_capacity(self.values.len());
        let mut k: usize = 0;
        proof {
            lemma2_to64();
        }
        while k < self.values.len()
            invariant
                k <= self.values@.len(),
                values == self.values@,
                m == values.len(),
                consecutive(values),
                pow2(0) == 1,
                hashes@.len() == k,
                forall|x: int| 0 <= x < k ==> #[trigger] hashes@[x]@ == block(values, 0, x as nat),
            decreases self.values@.len() - k,
        {
            hashes.push(self.values[k].to_node());
            proof {
                lemma_block(m, 0, k as nat);
                assert(block_end(m, 0, k as nat) == k + 1);
                assert(values[k as int].i == values[0].i + k);
                assert(arith::clog2(1) == 0);
                assert(payloads(values)[k as int] == values[k as int].value@);
                assert(hashes@[k as int]@.hash =~= block(values, 0, k as nat).hash);
            }
            k = k + 1;
        }
        let ghost mut t: nat = 0;
        while hashes.len() > 1
            invariant
                values == self.values@,
                m == values.len(),
                1 <= m <= u64::MAX,
                consecutive(values),
                1 <= hashes@.len() <= m,
                t <= 64,
                hashes@.len() * pow2(t) >= m,
                (hashes@.len() - 1) * pow2(t) < m,
                forall|x: int|
                    0 <= x < hashes@.len() ==> #[trigger] hashes@[x]@ == block(
                        values,
                        t,
                        x as nat,
                    ),
            decreases hashes@.len(),
        {
            let ghost p = pow2(t);
            let ghost c = hashes@.len();
            proof {
                lemma_pow2_pos(t);
                lemma_pow2_unfold(t + 1);
                if t == 64 {
                    lemma2_to64_rest();
                    assert((c - 1) * p >= p) by (nonlinear_arith)
                        requires
                            c >= 2,
                            p > 0,
                    ;
                }
            }
            let mut next: Vec<Node> = Vec::with_capacity(hashes.len() / 2 + 1);
            let mut k: usize = 0;
            while k < hashes.len() / 2
                invariant
                    k <= c / 2,
                    c == hashes@.len(),
                    t < 64,
                    p == pow2(t),
                    p > 0,
                    m == values.len(),
                    m <= u64::MAX,
                    (c - 1) * p < m,
                    consecutive(values),
                    next@.len() == k,
                    forall|x: int|
                        0 <= x < c ==> #[trigger] hashes@[x]@ == block(values, t, x as nat),
                    forall|x: int|
                        0 <= x < k ==> #[trigger] next@[x]@ == block(values, t + 1, x as nat),
                decreases c / 2 - k,
            {
                proof {
                    assert((2 * k + 1) * p <= (c - 1) * p) by (nonlinear_arith)
                        requires
                            2 * k + 1 <= c - 1,
                            p > 0,
                    ;
                    lemma_pair(values, t, k as nat);
                }
                let left: &Node = &hashes[k * 2];
                let right: &Node = &hashes[k * 2 + 1];
                next.push(left.parent(right));
                k = k + 1;
            }
            if hashes.len() % 2 != 0 {
                let last: Node = hashes[hashes.len() - 1];
                next.push(last);
                proof {
                    assert(c == 2 * k + 1);
                    lemma_carry(values, t, k as nat);
                }
            }
            proof {
                let d = next@.len();
                assert(d * pow2(t + 1) >= c * p && (d - 1) * pow2(t + 1) <= (c - 1) * p)
                    by (nonlinear_arith)
                    requires
                        pow2(t + 1) == 2 * p,
                        c <= 2 * d <= c + 1,
                        p > 0,
                ;
                t = t + 1;
            }
            hashes = next;
        }
        proof {
            assert(hashes@[0]@ == block(values, t, 0));
            assert(1 * pow2(t) == pow2(t));
            lemma_block(m, t, 0);
            assert(block_end(m, t, 0) == m);
            assert(values.last().i == values[0].i + m - 1);
        }
        hashes[0]
    }
}

/// A run of values that are the leaves of one node of a tree gives that node.
pub proof fn law_top_is_node(values: Seq<Seq<u8>>, run: Seq<Value>, i: nat, j: nat)
    requires
        nodes::valid(i, j),
        i <= values.len() <= u64::MAX,
        consecutive(run),
        run.len() == nodes::leaves(i, j),
        run[0].i == nodes::first(i, j),
        payloads(run) == values.subrange(nodes::first(i, j) - 1, i as int),
    ensures
        top_of(run) == (NodeModel { i: i as u64, j: j as u8, hash: tree::node_hash(values, i, j) }),
{
    nodes::lemma_span(i, j);
    tree::lemma_hash_of_leaves(values, i, j);
    assert(run.last().i == run[0].i + (run.len() - 1));
}

} // verus!
