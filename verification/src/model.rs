//! The nodes of the tree of `n` leaves: the roots of its perfect subtrees, the ephemeral nodes
//! that join them, and the intermediate nodes that the last leaf brings.
use crate::arith;
use crate::formula::{
    ceil_log2, floor_log2, is_pbst, is_valid, pow2e, subnodes_of, Addr, INode, Index,
};
use crate::formula;
use crate::nodes;
use vstd::arithmetic::power2::*;
use vstd::prelude::*;

verus! {

/// The address of the node `b_{i,j}`.
pub open spec fn addr(i: nat, j: nat) -> Addr {
    Addr { i: i as u64, j: j as u8 }
}

/// The intermediate node `b_{i,j}` with its two children.
pub open spec fn branch(i: nat, j: nat) -> INode {
    INode {
        node: addr(i, j),
        left: addr(nodes::left_i(i, j), (j - 1) as nat),
        right: addr(i, nodes::right_j(i, j)),
    }
}

/// The roots of the greatest perfect subtrees below `b_{i,j}`, from left to right.
pub open spec fn perfect_roots(i: nat, j: nat) -> Seq<Addr>
    decreases j,
{
    if nodes::perfect(i, j) || !nodes::valid(i, j) || j == 0 || nodes::right_j(i, j) >= j {
        seq![addr(i, j)]
    } else {
        seq![addr(nodes::left_i(i, j), (j - 1) as nat)] + perfect_roots(i, nodes::right_j(i, j))
    }
}

/// The intermediate nodes that join the perfect subtrees below `b_{i,j}`, from the root down.
pub open spec fn ephemerals(i: nat, j: nat) -> Seq<INode>
    decreases j,
{
    if nodes::perfect(i, j) || !nodes::valid(i, j) || j == 0 || nodes::right_j(i, j) >= j {
        seq![]
    } else {
        seq![branch(i, j)] + ephemerals(i, nodes::right_j(i, j))
    }
}

/// The intermediate nodes of index `i` from the leaf `b_{i,0}` up to `b_{i,j}`.
pub open spec fn spine(i: nat, j: nat) -> Seq<INode>
    decreases j,
{
    if j == 0 || nodes::right_j(i, j) >= j {
        seq![]
    } else {
        spine(i, nodes::right_j(i, j)).push(branch(i, j))
    }
}

/// The height of the tree of `n` leaves.
pub open spec fn height(n: nat) -> nat {
    arith::clog2(n)
}

/// The `k`-th ephemeral node joins the `k`-th perfect subtree with all that follow it.
pub open spec fn joins(roots: Seq<Addr>, eph: Seq<INode>, i: nat, k: int) -> bool {
    &&& eph[k].node.i == i
    &&& eph[k].node.j == roots[k].j + 1
    &&& roots[k].j < 64
    &&& eph[k].left == roots[k]
    &&& eph[k].right == (if k + 1 < eph.len() {
        eph[k + 1].node
    } else {
        roots[k + 1]
    })
}

/// There is one ephemeral node fewer than there are perfect subtrees, and each joins one of them
/// with all that follow it.
pub proof fn lemma_ephemerals(i: nat, j: nat)
    requires
        nodes::valid(i, j),
        i <= u64::MAX,
    ensures
        perfect_roots(i, j).len() == ephemerals(i, j).len() + 1,
        perfect_roots(i, j).len() <= j + 1,
        forall|k: int|
            0 <= k < ephemerals(i, j).len() ==> #[trigger] joins(
                perfect_roots(i, j),
                ephemerals(i, j),
                i,
                k,
            ),
        ephemerals(i, j).len() == 0 ==> perfect_roots(i, j)[0] == addr(i, j),
        ephemerals(i, j).len() > 0 ==> ephemerals(i, j)[0].node == addr(i, j),
    decreases j,
{
    formula::lemma_height(i as u64, j);
    if !nodes::perfect(i, j) {
        lemma2_to64();
        assert(j > 0) by {
            nodes::lemma_leaf(i);
        }
        nodes::lemma_children(i, j);
        let g = nodes::right_j(i, j);
        lemma_ephemerals(i, g);
        let tail = ephemerals(i, g);
        let eph = ephemerals(i, j);
        let roots = perfect_roots(i, j);
        let rest = perfect_roots(i, g);
        assert forall|k: int| 0 <= k < eph.len() implies #[trigger] joins(roots, eph, i, k) by {
            if k > 0 {
                assert(joins(rest, tail, i, k - 1));
                assert(eph[k] == tail[k - 1]);
                assert(roots[k] == rest[k - 1]);
                assert(roots[k + 1] == rest[k]);
                if k + 1 < eph.len() {
                    assert(eph[k + 1] == tail[k]);
                }
            } else {
                assert(eph[0] == branch(i, j));
                assert(roots[1] == rest[0]);
                if 1 < eph.len() {
                    assert(eph[1] == tail[0]);
                }
            }
        }
    }
}

/// The nodes on the spine of a perfect subtree have all heights from 1 up.
pub proof fn lemma_spine_perfect(i: nat, j: nat)
    requires
        i >= 1,
        nodes::perfect(i, j),
    ensures
        spine(i, j).len() == j,
        forall|k: int| 0 <= k < j ==> #[trigger] spine(i, j)[k] == branch(i, (k + 1) as nat),
        forall|k: nat| k <= j ==> #[trigger] nodes::perfect(i, k),
    decreases j,
{
    nodes::lemma_perfect(i, j);
    assert forall|k: nat| k <= j implies #[trigger] nodes::perfect(i, k) by {
        arith::lemma_mod_divides(i, j, k);
    }
    if j > 0 {
        let h = (j - 1) as nat;
        nodes::lemma_children(i, j);
        assert(nodes::perfect(i, h));
        lemma_pow2_unfold(j);
        lemma_pow2_pos(h);
        if h >= 1 {
            lemma_pow2_strictly_increases((h - 1) as nat, h);
        }
        nodes::lemma_span(i, j);
        assert(i - nodes::left_i(i, j) == pow2(h));
        arith::lemma_clog2_unique(pow2(h), h);
        assert(nodes::right_j(i, j) == h);
        lemma_spine_perfect(i, h);
    }
}

/// The spine is made of the ephemeral nodes, from the root down, and of the nodes of the last
/// perfect subtree.
pub proof fn lemma_spine(i: nat, j: nat)
    requires
        nodes::valid(i, j),
        i <= u64::MAX,
    ensures
        ({
            let last = perfect_roots(i, j).last();
            &&& last.i == i
            &&& last.j <= j
            &&& nodes::perfect(i, last.j as nat)
            &&& spine(i, j) == spine(i, last.j as nat) + ephemerals(i, j).reverse()
        }),
        forall|k: int|
            0 <= k < perfect_roots(i, j).len() - 1 ==> (#[trigger] perfect_roots(i, j)[k]).i < i,
    decreases j,
{
    formula::lemma_height(i as u64, j);
    if nodes::perfect(i, j) {
        assert(ephemerals(i, j).reverse() =~= seq![]);
        assert(spine(i, j) + ephemerals(i, j).reverse() =~= spine(i, j));
    } else {
        lemma2_to64();
        assert(j > 0) by {
            nodes::lemma_leaf(i);
        }
        nodes::lemma_children(i, j);
        let g = nodes::right_j(i, j);
        lemma_spine(i, g);
        lemma_ephemerals(i, g);
        let roots = perfect_roots(i, j);
        let rest = perfect_roots(i, g);
        assert(roots.last() == rest.last());
        assert forall|k: int| 0 <= k < roots.len() - 1 implies (#[trigger] roots[k]).i < i by {
            if k > 0 {
                assert(roots[k] == rest[k - 1]);
            }
        }
        assert(ephemerals(i, j).reverse() =~= ephemerals(i, g).reverse().push(branch(i, j)));
        assert(spine(i, j) =~= spine(i, rest.last().j as nat) + ephemerals(i, j).reverse());
    }
}

/// The roots of the independent perfect binary trees of the tree of `n` leaves, from left to
/// right.
pub fn pbst_roots(n: Index) -> (r: Vec<Addr>)
    ensures
        n == 0 ==> r@ == Seq::<Addr>::empty(),
        n > 0 ==> r@ == perfect_roots(n as nat, height(n as nat)),
{
    let mut roots: Vec<Addr> = Vec::new();
    let mut remaining: Index = n;
    let ghost all = if n == 0 {
        seq![]
    } else {
        perfect_roots(n as nat, height(n as nat))
    };
    proof {
        if n > 0 {
            nodes::lemma_valid(n as nat, height(n as nat));
        }
        assert(all =~= roots@ + all);
    }
    while remaining != 0
        invariant
            remaining <= n,
            remaining == 0 ==> all == roots@,
            remaining != 0 ==> {
                let c = arith::clog2(remaining as nat);
                &&& nodes::valid(n as nat, c)
                &&& nodes::leaves(n as nat, c) == remaining
                &&& all == roots@ + perfect_roots(n as nat, c)
            },
        decreases remaining,
    {
        let ghost c = arith::clog2(remaining as nat);
        let ghost before = roots@;
        let j: u8 = floor_log2(remaining);
        let size: Index = pow2e(j);
        proof {
            lemma2_to64();
            arith::lemma_flog2(remaining as nat);
            nodes::lemma_span(n as nat, c);
            nodes::lemma_perfect(n as nat, c);
            formula::lemma_height(n, c);
            if remaining == size {
                if j >= 1 {
                    lemma_pow2_strictly_increases((j - 1) as nat, j as nat);
                }
                arith::lemma_clog2_unique(remaining as nat, j as nat);
            } else {
                arith::lemma_clog2_unique(remaining as nat, (j + 1) as nat);
                lemma_pow2_unfold((j + 1) as nat);
                nodes::lemma_children(n as nat, c);
            }
        }
        let i: Index = n - remaining + size;
        roots.push(Addr::new(i, j));
        remaining = remaining - size;
        proof {
            if remaining == 0 {
                assert(all =~= roots@);
            } else {
                let g = nodes::right_j(n as nat, c);
                assert(all =~= roots@ + perfect_roots(n as nat, g));
            }
        }
    }
    roots
}

/// Whether `b_{i,j}` is a node of the tree of `n` leaves: a perfect node of an index up to `n`, or
/// any node of the index `n`.
pub open spec fn in_generation(n: nat, i: nat, j: nat) -> bool {
    i <= n && nodes::valid(i, j) && (nodes::perfect(i, j) || i == n)
}

/// The shape of the tree of `n` leaves.
#[derive(PartialEq, Eq, Debug)]
pub struct Model {
    n: Index,
    pbst_roots: Vec<Addr>,
    ephemeral_nodes: Vec<INode>,
}

impl Clone for Model {
    fn clone(&self) -> (r: Self)
        ensures
            r.generation() == self.generation(),
    {
        proof {
            use_type_invariant(self);
        }
        let pbst_roots = self.pbst_roots.clone();
        let ephemeral_nodes = self.ephemeral_nodes.clone();
        proof {
            assert(pbst_roots@ =~= self.pbst_roots@);
            assert(ephemeral_nodes@ =~= self.ephemeral_nodes@);
        }
        Model { n: self.n, pbst_roots, ephemeral_nodes }
    }
}

impl Model {
    /// The number of leaves.
    pub closed spec fn generation(&self) -> nat {
        self.n as nat
    }

    #[verifier::type_invariant]
    spec fn wf(&self) -> bool {
        &&& self.n > 0
        &&& self.pbst_roots@ == perfect_roots(self.n as nat, height(self.n as nat))
        &&& self.ephemeral_nodes@ == ephemerals(self.n as nat, height(self.n as nat))
    }

    /// The shape of the tree of `n` leaves, which are at least one.
    pub fn new(n: Index) -> (r: Self)
        requires
            n > 0,
        ensures
            r.generation() == n,
    {
        let pbst_roots = pbst_roots(n);
        let ephemeral_nodes = Self::create_ephemeral_nodes(n, &pbst_roots);
        Self { n, pbst_roots, ephemeral_nodes }
    }

    /// The number of leaves.
    pub fn n(&self) -> (r: Index)
        ensures
            r == self.generation(),
            r > 0,
    {
        proof {
            use_type_invariant(self);
        }
        self.n
    }

    /// The root of the tree.
    pub fn root(&self) -> (r: Addr)
        ensures
            r.i == self.generation(),
            r.j == height(self.generation()),
    {
        proof {
            use_type_invariant(self);
            nodes::lemma_valid(self.n as nat, height(self.n as nat));
            formula::lemma_height(self.n, height(self.n as nat));
            lemma_ephemerals(self.n as nat, height(self.n as nat));
        }
        if self.ephemeral_nodes.len() > 0 {
            self.ephemeral_nodes[0].node
        } else {
            self.pbst_roots[0]
        }
    }

    /// The roots of the independent perfect binary trees, from left to right.
    pub fn pbst_roots(&self) -> (r: &Vec<Addr>)
        ensures
            r@ == perfect_roots(self.generation(), height(self.generation())),
    {
        proof {
            use_type_invariant(self);
        }
        &self.pbst_roots
    }

    /// The ephemeral intermediate nodes, from the root down.
    pub fn ephemeral_nodes(&self) -> (r: &Vec<INode>)
        ensures
            r@ == ephemerals(self.generation(), height(self.generation())),
    {
        proof {
            use_type_invariant(self);
        }
        &self.ephemeral_nodes
    }

    /// The intermediate nodes that this generation adds, from the leaf up.
    pub fn inodes(&self) -> (r: Vec<INode>)
        ensures
            r@ == spine(self.generation(), height(self.generation())),
    {
        let ghost n = self.n as nat;
        let ghost h = height(n);
        proof {
            use_type_invariant(self);
            nodes::lemma_valid(n, h);
            lemma_spine(n, h);
            lemma_ephemerals(n, h);
        }
        let mut inodes: Vec<INode> = Vec::with_capacity(ceil_log2(self.n) as usize);
        let last: Addr = self.pbst_roots[self.pbst_roots.len() - 1];
        let ghost low = spine(n, last.j as nat);
        proof {
            lemma_spine_perfect(n, last.j as nat);
            nodes::lemma_perfect(n, last.j as nat);
            formula::lemma_height(self.n, last.j as nat);
        }
        let mut j: u8 = 1;
        while j <= last.j
            invariant
                1 <= j <= last.j + 1,
                last.j <= 64,
                last.i == n,
                n == self.n,
                inodes@ == low.take(j - 1),
                low == spine(n, last.j as nat),
                low.len() == last.j,
                forall|k: int| 0 <= k < last.j ==> #[trigger] low[k] == branch(n, (k + 1) as nat),
                forall|k: nat| k <= last.j ==> #[trigger] nodes::perfect(n, k),
                n >= 1,
            decreases last.j + 1 - j,
        {
            inodes.push(Self::pbst_inode(last.i, j));
            proof {
                assert(low[j - 1] == branch(n, j as nat));
                assert(inodes@ =~= low.take(j as int));
            }
            j = j + 1;
        }
        proof {
            assert(inodes@ =~= low);
        }
        let mut k: usize = self.ephemeral_nodes.len();
        while k > 0
            invariant
                k <= self.ephemeral_nodes@.len(),
                inodes@ == low + self.ephemeral_nodes@.reverse().take(
                    self.ephemeral_nodes@.len() - k,
                ),
            decreases k,
        {
            k = k - 1;
            inodes.push(self.ephemeral_nodes[k]);
            proof {
                let rev = self.ephemeral_nodes@.reverse();
                assert(rev.take(self.ephemeral_nodes@.len() - k) =~= rev.take(
                    self.ephemeral_nodes@.len() - k - 1,
                ).push(self.ephemeral_nodes@[k as int]));
            }
        }
        proof {
            let rev = self.ephemeral_nodes@.reverse();
            assert(rev.take(rev.len() as int) =~= rev);
        }
        inodes
    }

    /// The intermediate node `b_{i,j}` of this tree, where there is one.
    pub fn inode(&self, i: Index, j: u8) -> (r: Option<INode>)
        ensures
            r == (if j >= 1 && in_generation(self.generation(), i as nat, j as nat) {
                Some(branch(i as nat, j as nat))
            } else {
                None
            }),
    {
        if j == 0 || i > self.n || !is_valid(i, j) {
            return None;
        }
        proof {
            formula::lemma_height(i, j as nat);
        }
        if is_pbst(i, j) {
            Some(Self::pbst_inode(i, j))
        } else if i == self.n {
            let ((il, jl), (ir, jr)) = subnodes_of(i, j);
            Some(INode::new(Addr::new(i, j), Addr::new(il, jl), Addr::new(ir, jr)))
        } else {
            None
        }
    }

    /// The intermediate node `b_{i,j}` of a perfect subtree.
    #[inline]
    fn pbst_inode(i: Index, j: u8) -> (r: INode)
        requires
            i >= 1,
            j >= 1,
            nodes::perfect(i as nat, j as nat),
        ensures
            r == branch(i as nat, j as nat),
    {
        proof {
            nodes::lemma_perfect(i as nat, j as nat);
            formula::lemma_height(i, j as nat);
            nodes::lemma_children(i as nat, j as nat);
            nodes::lemma_span(i as nat, j as nat);
            lemma_pow2_unfold(j as nat);
            lemma_spine_perfect(i as nat, j as nat);
            arith::lemma_pow2_u64(j as nat);
            lemma2_to64_rest();
            let h = (j - 1) as nat;
            if h >= 1 {
                lemma_pow2_strictly_increases((h - 1) as nat, h);
            }
            lemma_pow2_pos(h);
            arith::lemma_clog2_unique(pow2(h), h);
        }
        INode::new(Addr::new(i, j), Addr::new(i - pow2e(j - 1), j - 1), Addr::new(i, j - 1))
    }

    /// The ephemeral nodes over the given roots of perfect subtrees.
    fn create_ephemeral_nodes(n: Index, pbsts: &Vec<Addr>) -> (r: Vec<INode>)
        requires
            n > 0,
            pbsts@ == perfect_roots(n as nat, height(n as nat)),
        ensures
            r@ == ephemerals(n as nat, height(n as nat)),
    {
        let ghost h = height(n as nat);
        let ghost eph = ephemerals(n as nat, h);
        proof {
            nodes::lemma_valid(n as nat, h);
            lemma_ephemerals(n as nat, h);
            formula::lemma_height(n, h);
        }
        let mut ephemerals: Vec<INode> = Vec::with_capacity(pbsts.len() - 1);
        let mut position: usize = pbsts.len() - 1;
        while position > 0
            invariant
                position < pbsts@.len(),
                pbsts@ == perfect_roots(n as nat, h),
                pbsts@.len() == eph.len() + 1,
                eph == self::ephemerals(n as nat, h),
                ephemerals@ == eph.skip(position as int),
                nodes::valid(n as nat, h),
            decreases position,
        {
            proof {
                lemma_ephemerals(n as nat, h);
                assert(joins(pbsts@, eph, n as nat, position - 1));
            }
            let left: Addr = pbsts[position - 1];
            let right: Addr = if position < pbsts.len() - 1 {
                ephemerals[0].node
            } else {
                pbsts[position]
            };
            ephemerals.insert(0, INode { node: Addr::new(n, left.j + 1), left, right });
            position = position - 1;
            proof {
                assert(ephemerals@ =~= eph.skip(position as int));
            }
        }
        proof {
            assert(eph.skip(0) =~= eph);
        }
        ephemerals
    }
}

} // verus!
