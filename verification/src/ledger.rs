//! The sequence of entries that a tree is stored as, and what each entry has to hold.
use crate::entry::{
    Address, Entry, EntryModel, INode, INodeModel, MetaModel, Position, MAX_PAYLOAD_SIZE,
};
use crate::error::{inconsistency, Error, Result};
use crate::formula;
use crate::formula::Index;
use crate::model;
use crate::model::Model;
use crate::nodes;
use crate::storage;
use crate::storage::Reader;
use crate::text;
use crate::tree;
use vstd::prelude::*;

verus! {

/// The number of bytes of an entry in its serialized form.
pub open spec fn size_of(e: EntryModel) -> nat {
    57 + 50 * e.inodes.len() + e.payload.len()
}

/// The number of bytes of the entry of index `i` with a payload of the given length.
pub open spec fn size_at(i: nat, length: nat) -> nat {
    57 + 50 * model::spine(i, model::height(i)).len() + length
}

/// The height of the node below the `k`-th intermediate node on the right.
pub open spec fn right_height(inodes: Seq<INodeModel>, k: int) -> u8 {
    if k == 0 {
        0
    } else {
        inodes[k - 1].meta.address.j
    }
}

/// Whether the `k`-th intermediate node has the index and the position of the entry, and the node
/// before it as its right child.
pub open spec fn chained(e: EntryModel, position: u64, k: int) -> bool {
    let inode = e.inodes[k];
    &&& inode.meta.address.i == e.meta.address.i
    &&& inode.meta.address.j >= 1
    &&& inode.meta.address.position == position
    &&& inode.meta.hash.len() == 32
    &&& inode.right == (Address {
        i: e.meta.address.i,
        j: right_height(e.inodes, k),
        position,
    })
}

/// Whether the entry can be stored at the position and read back from there: every field that is
/// not written follows from the position and from those that are.
pub open spec fn storable(e: EntryModel, position: u64) -> bool {
    &&& e.meta.address.j == 0
    &&& e.meta.address.position == position
    &&& e.meta.hash.len() == 32
    &&& e.payload.len() <= MAX_PAYLOAD_SIZE
    &&& e.inodes.len() <= 255
    &&& forall|k: int| 0 <= k < e.inodes.len() ==> #[trigger] chained(e, position, k)
}

/// Whether the entry can be stored at the position and read back from there.
pub fn is_storable(entry: &Entry, position: Position) -> (r: bool)
    ensures
        r == storable(entry@, position),
{
    let i: u64 = entry.enode.meta.address.i;
    if entry.enode.meta.address.j != 0 || entry.enode.meta.address.position != position
        || entry.enode.payload.len() > MAX_PAYLOAD_SIZE || entry.inodes.len() > 255 {
        return false;
    }
    let mut right_j: u8 = 0;
    let mut k: usize = 0;
    while k < entry.inodes.len()
        invariant
            k <= entry.inodes@.len(),
            i == entry@.meta.address.i,
            right_j == right_height(entry@.inodes, k as int),
            forall|x: int| 0 <= x < k ==> #[trigger] chained(entry@, position, x),
        decreases entry.inodes@.len() - k,
    {
        let inode = &entry.inodes[k];
        proof {
            assert(entry@.inodes[k as int] == inode@);
        }
        if inode.meta.address.i != i || inode.meta.address.j == 0 || inode.meta.address.position
            != position || inode.right != Address::new(i, right_j, position) {
            proof {
                assert(!chained(entry@, position, k as int));
            }
            return false;
        }
        right_j = inode.meta.address.j;
        k = k + 1;
    }
    true
}

/// The payloads of the entries.
pub open spec fn payloads(log: Seq<EntryModel>) -> Seq<Seq<u8>> {
    log.map_values(|e: EntryModel| e.payload)
}

/// The positions of the entries.
pub open spec fn positions(log: Seq<EntryModel>) -> Seq<u64> {
    log.map_values(|e: EntryModel| e.meta.address.position)
}

/// Whether the positions ascend and lie before the end.
pub open spec fn ordered(log: Seq<EntryModel>, end: nat) -> bool {
    &&& log.len() <= end <= u64::MAX
    &&& forall|a: int, b: int|
        0 <= a < b < log.len() ==> (#[trigger] log[a]).meta.address.position < (
        #[trigger] log[b]).meta.address.position
    &&& forall|a: int| 0 <= a < log.len() ==> (#[trigger] log[a]).meta.address.position < end
}

/// Whether every entry of the log is found at its position.
pub open spec fn listed(log: Seq<EntryModel>, found: Map<u64, EntryModel>) -> bool {
    forall|k: int|
        0 <= k < log.len() ==> {
            let position = (#[trigger] log[k]).meta.address.position;
            found.contains_key(position) && found[position] == log[k]
        }
}

/// The position right behind the `k`-th entry.
pub open spec fn next_position(log: Seq<EntryModel>, end: nat, k: int) -> nat {
    if k + 1 < log.len() {
        log[k + 1].meta.address.position as nat
    } else {
        end
    }
}

/// The intermediate node with the given place in the tree over the values.
pub open spec fn inode_of(
    values: Seq<Seq<u8>>,
    at: Seq<u64>,
    b: formula::INode,
) -> INodeModel {
    INodeModel {
        meta: meta_of(values, at, b.node),
        left: address_of(at, b.left),
        right: address_of(at, b.right),
    }
}

/// The address of a node, in the entry of its last leaf.
pub open spec fn address_of(at: Seq<u64>, a: formula::Addr) -> Address {
    Address { i: a.i, j: a.j, position: at[a.i - 1] }
}

/// The address and the hash value of a node in the tree over the values.
pub open spec fn meta_of(values: Seq<Seq<u8>>, at: Seq<u64>, a: formula::Addr) -> MetaModel {
    MetaModel {
        address: address_of(at, a),
        hash: tree::node_hash(values, a.i as nat, a.j as nat),
    }
}

/// The `i`-th entry of the tree over the values that are stored at the given positions: the leaf,
/// and the intermediate nodes that it brings, as they stand in the tree of `i` leaves.
pub open spec fn entry_of(values: Seq<Seq<u8>>, at: Seq<u64>, i: nat) -> EntryModel {
    EntryModel {
        meta: meta_of(values, at, model::addr(i, 0)),
        payload: values[i - 1],
        inodes: model::spine(i, model::height(i)).map_values(
            |b: formula::INode| inode_of(values, at, b),
        ),
    }
}

/// Whether every entry is the one that the tree over the payloads has.
pub open spec fn genuine(log: Seq<EntryModel>) -> bool {
    &&& log.len() <= u64::MAX
    &&& forall|k: int|
        0 <= k < log.len() ==> #[trigger] log[k] == entry_of(
            payloads(log),
            positions(log),
            (k + 1) as nat,
        )
}

/// What the `k`-th node on a spine is: it exists, its right child is the node before it, and the
/// heights ascend.
pub open spec fn rung(i: nat, j: nat, k: int) -> bool {
    let s = model::spine(i, j);
    let h = s[k].node.j as nat;
    &&& s[k] == model::branch(i, h)
    &&& nodes::valid(i, h)
    &&& 1 <= h <= j
    &&& s[k].node.i == i
    &&& s[k].left.i == nodes::left_i(i, h)
    &&& s[k].left.j == h - 1
    &&& s[k].right.i == i
    &&& s[k].right.j == nodes::right_j(i, h)
    &&& nodes::right_j(i, h) == (if k == 0 {
        0
    } else {
        s[k - 1].node.j as nat
    })
    &&& k < h
}

/// The nodes on a spine are rungs, and the last one is the node that the spine leads to.
pub proof fn lemma_spine_rungs(i: nat, j: nat)
    requires
        nodes::valid(i, j),
        i <= u64::MAX,
    ensures
        forall|k: int| 0 <= k < model::spine(i, j).len() ==> #[trigger] rung(i, j, k),
        model::spine(i, j).len() <= j,
        j <= 64,
        j == 0 <==> model::spine(i, j).len() == 0,
        j > 0 ==> model::spine(i, j).last().node.j == j,
        forall|a: int, b: int|
            0 <= a < b < model::spine(i, j).len() ==> (#[trigger] model::spine(i, j)[a]).node.j < (
            #[trigger] model::spine(i, j)[b]).node.j,
    decreases j,
{
    formula::lemma_height(i as u64, j);
    if j > 0 {
        nodes::lemma_children(i, j);
        let g = nodes::right_j(i, j);
        lemma_spine_rungs(i, g);
        let s = model::spine(i, j);
        let low = model::spine(i, g);
        assert forall|k: int| 0 <= k < s.len() implies #[trigger] rung(i, j, k) by {
            if k < low.len() {
                assert(rung(i, g, k));
                assert(s[k] == low[k]);
                if k > 0 {
                    assert(s[k - 1] == low[k - 1]);
                }
            } else if k > 0 {
                assert(rung(i, g, k - 1));
                assert(s[k - 1] == low.last());
            }
        }
        assert forall|a: int, b: int| 0 <= a < b < s.len() implies (#[trigger] s[a]).node.j < (
        #[trigger] s[b]).node.j by {
            assert(rung(i, g, a));
            assert(s[a] == low[a]);
            if b < low.len() {
                assert(s[b] == low[b]);
            }
        }
    }
}

/// Every node of an index is on the spine of the highest one.
pub proof fn lemma_on_spine(i: nat, j: nat, h: nat)
    requires
        nodes::valid(i, j),
        nodes::valid(i, h),
        1 <= h <= j,
        i <= u64::MAX,
    ensures
        exists|k: int|
            0 <= k < model::spine(i, j).len() && (#[trigger] model::spine(i, j)[k]).node.j == h,
    decreases j,
{
    let s = model::spine(i, j);
    lemma_spine_rungs(i, j);
    nodes::lemma_children(i, j);
    let g = nodes::right_j(i, j);
    if h == j {
        assert(s[s.len() - 1].node.j == h);
    } else {
        // there is no node of the index between the two heights
        assert(h <= g) by {
            nodes::lemma_valid(i, h);
            nodes::lemma_span(i, h);
            nodes::lemma_span(i, j);
            lemma_no_between(i, j, h);
        }
        lemma_on_spine(i, g, h);
        let k = choose|k: int|
            0 <= k < model::spine(i, g).len() && (#[trigger] model::spine(i, g)[k]).node.j == h;
        assert(s[k] == model::spine(i, g)[k]);
    }
}

/// Between a node and its right child the index has no further node.
pub proof fn lemma_no_between(i: nat, j: nat, h: nat)
    requires
        nodes::valid(i, j),
        nodes::valid(i, h),
        h < j,
    ensures
        h <= nodes::right_j(i, j),
{
    nodes::lemma_children(i, j);
    nodes::lemma_span(i, j);
    nodes::lemma_span(i, h);
    let g = nodes::right_j(i, j);
    let l = nodes::left_i(i, j);
    if h > g {
        // `l` is a multiple of `2^(j - 1)`, so the node of height `h` starts right after it too
        crate::arith::lemma_clog2((i - l) as nat);
        crate::arith::lemma_pow2_monotone(g, h);
        crate::arith::lemma_mod_of_sum(l, (i - l - 1) as nat, (j - 1) as nat, h);
        assert(nodes::leaves(i, h) == i - l);
    }
}

/// A sequence of genuine entries stays so where the last ones are cut off.
pub proof fn lemma_genuine_take(log: Seq<EntryModel>, n: nat)
    requires
        genuine(log),
        n <= log.len(),
    ensures
        genuine(log.take(n as int)),
        payloads(log.take(n as int)) == payloads(log).take(n as int),
        positions(log.take(n as int)) == positions(log).take(n as int),
{
    let low = log.take(n as int);
    assert(payloads(low) =~= payloads(log).take(n as int));
    assert(positions(low) =~= positions(log).take(n as int));
    assert forall|k: int| 0 <= k < low.len() implies #[trigger] low[k] == entry_of(
        payloads(low),
        positions(low),
        (k + 1) as nat,
    ) by {
        assert(log[k] == entry_of(payloads(log), positions(log), (k + 1) as nat));
        lemma_entry_prefix(payloads(log), positions(log), n, (k + 1) as nat);
    }
}

/// An entry depends on the values and the positions up to its own alone.
pub proof fn lemma_entry_prefix(values: Seq<Seq<u8>>, at: Seq<u64>, n: nat, i: nat)
    requires
        1 <= i <= n <= values.len(),
        at.len() == values.len(),
        values.len() <= u64::MAX,
    ensures
        entry_of(values.take(n as int), at.take(n as int), i) == entry_of(values, at, i),
{
    let low = values.take(n as int);
    let low_at = at.take(n as int);
    let h = model::height(i);
    let s = model::spine(i, h);
    nodes::lemma_valid(i, h);
    nodes::lemma_leaf(i);
    lemma_spine_rungs(i, h);
    tree::lemma_hash_prefix(values, n, i, 0);
    let a = entry_of(low, low_at, i);
    let b = entry_of(values, at, i);
    assert forall|k: int| 0 <= k < s.len() implies #[trigger] a.inodes[k] == b.inodes[k] by {
        assert(rung(i, h, k));
        let j = s[k].node.j as nat;
        tree::lemma_hash_prefix(values, n, i, j);
        nodes::lemma_children(i, j);
    }
    assert(a.inodes =~= b.inodes);
}

/// The entry of the next leaf makes a longer sequence of genuine entries.
pub proof fn lemma_genuine_push(log: Seq<EntryModel>, e: EntryModel)
    requires
        genuine(log),
        log.len() < u64::MAX,
        e == entry_of(
            payloads(log).push(e.payload),
            positions(log).push(e.meta.address.position),
            log.len() + 1,
        ),
    ensures
        genuine(log.push(e)),
        payloads(log.push(e)) == payloads(log).push(e.payload),
        positions(log.push(e)) == positions(log).push(e.meta.address.position),
{
    let more = log.push(e);
    let n = log.len();
    assert(payloads(more) =~= payloads(log).push(e.payload));
    assert(positions(more) =~= positions(log).push(e.meta.address.position));
    assert(payloads(more).take(n as int) =~= payloads(log));
    assert(positions(more).take(n as int) =~= positions(log));
    assert forall|k: int| 0 <= k < more.len() implies #[trigger] more[k] == entry_of(
        payloads(more),
        positions(more),
        (k + 1) as nat,
    ) by {
        if k < n {
            assert(log[k] == entry_of(payloads(log), positions(log), (k + 1) as nat));
            lemma_entry_prefix(payloads(more), positions(more), n, (k + 1) as nat);
        }
    }
}

/// What the intermediate nodes of a genuine entry are.
pub proof fn lemma_genuine_entry(log: Seq<EntryModel>, k: int)
    requires
        genuine(log),
        0 <= k < log.len(),
    ensures
        ({
            let e = log[k];
            let i = (k + 1) as nat;
            let s = model::spine(i, model::height(i));
            &&& e.meta.address.i == i
            &&& e.meta.address.j == 0
            &&& e.meta.hash == tree::node_hash(payloads(log), i, 0)
            &&& e.inodes.len() == s.len()
            &&& e.inodes.len() <= 64
            &&& nodes::valid(i, model::height(i))
            &&& forall|x: int|
                0 <= x < s.len() ==> #[trigger] e.inodes[x] == inode_of(
                    payloads(log),
                    positions(log),
                    s[x],
                ) && rung(i, model::height(i), x)
        }),
{
    let i = (k + 1) as nat;
    let h = model::height(i);
    nodes::lemma_valid(i, h);
    lemma_spine_rungs(i, h);
    assert(log[k] == entry_of(payloads(log), positions(log), i));
}

/// Whether a stored intermediate node is the given one of the tree, with its two children.
pub open spec fn matches(n: INodeModel, b: formula::INode) -> bool {
    &&& n.meta.address.i == b.node.i
    &&& n.meta.address.j == b.node.j
    &&& n.left.i == b.left.i
    &&& n.left.j == b.left.j
    &&& n.right.i == b.right.i
    &&& n.right.j == b.right.j
}

/// Whether the entry has the nodes that the tree has at its index.
pub open spec fn shaped(e: EntryModel) -> bool {
    let i = e.meta.address.i as nat;
    let s = model::spine(i, model::height(i));
    &&& i >= 1
    &&& e.meta.address.j == 0
    &&& e.inodes.len() == s.len()
    &&& forall|x: int| 0 <= x < s.len() ==> matches(#[trigger] e.inodes[x], s[x])
}

/// A genuine entry has the nodes that the tree has at its index.
pub proof fn lemma_genuine_shaped(log: Seq<EntryModel>, k: int)
    requires
        genuine(log),
        0 <= k < log.len(),
    ensures
        shaped(log[k]),
        log[k].meta.address.i == k + 1,
{
    lemma_genuine_entry(log, k);
    let e = log[k];
    let i = (k + 1) as nat;
    let s = model::spine(i, model::height(i));
    assert forall|x: int| 0 <= x < s.len() implies matches(#[trigger] e.inodes[x], s[x]) by {
        assert(e.inodes[x] == inode_of(payloads(log), positions(log), s[x]));
    }
}

/// What the `x`-th intermediate node of a shaped entry is.
pub open spec fn step_of(e: EntryModel, x: int) -> bool {
    let i = e.meta.address.i as nat;
    let n = e.inodes[x];
    let h = n.meta.address.j as nat;
    &&& n.meta.address.i == i
    &&& nodes::valid(i, h)
    &&& 1 <= h <= model::height(i)
    &&& x < h <= 64
    &&& n.left.i == nodes::left_i(i, h)
    &&& n.left.i < i
    &&& n.left.j == h - 1
    &&& n.right.i == i
    &&& n.right.j == nodes::right_j(i, h)
    &&& n.right.j == (if x == 0 {
        0
    } else {
        e.inodes[x - 1].meta.address.j
    })
    &&& model::spine(i, model::height(i))[x] == model::branch(i, h)
}

/// The intermediate nodes of a shaped entry ascend from the leaf to the root.
pub proof fn lemma_shaped(e: EntryModel)
    requires
        shaped(e),
    ensures
        ({
            let i = e.meta.address.i as nat;
            &&& nodes::valid(i, model::height(i))
            &&& model::height(i) <= 64
            &&& e.inodes.len() <= 64
            &&& e.inodes.len() == 0 <==> model::height(i) == 0
            &&& e.inodes.len() > 0 ==> e.inodes.last().meta.address.j == model::height(i)
        }),
        forall|x: int| 0 <= x < e.inodes.len() ==> #[trigger] step_of(e, x),
        forall|a: int, b: int|
            0 <= a < b < e.inodes.len() ==> (#[trigger] e.inodes[a]).meta.address.j < (
            #[trigger] e.inodes[b]).meta.address.j,
{
    let i = e.meta.address.i as nat;
    let h = model::height(i);
    let s = model::spine(i, h);
    nodes::lemma_valid(i, h);
    lemma_spine_rungs(i, h);
    assert forall|x: int| 0 <= x < e.inodes.len() implies #[trigger] step_of(e, x) by {
        assert(rung(i, h, x));
        assert(matches(e.inodes[x], s[x]));
        nodes::lemma_children(i, s[x].node.j as nat);
        if x > 0 {
            assert(matches(e.inodes[x - 1], s[x - 1]));
        }
    }
    assert forall|a: int, b: int| 0 <= a < b < e.inodes.len() implies (
    #[trigger] e.inodes[a]).meta.address.j < (#[trigger] e.inodes[b]).meta.address.j by {
        assert(s[a].node.j < s[b].node.j);
    }
    if e.inodes.len() > 0 {
        assert(matches(e.inodes[s.len() - 1], s[s.len() - 1]));
    }
}

/// Whether the entry has the nodes that the tree has at its index.
pub(crate) fn is_shaped(entry: &Entry) -> (r: bool)
    ensures
        r == shaped(entry@),
{
    let i: Index = entry.enode.meta.address.i;
    if i == 0 || entry.enode.meta.address.j != 0 {
        return false;
    }
    let inodes: Vec<formula::INode> = Model::new(i).inodes();
    if entry.inodes.len() != inodes.len() {
        return false;
    }
    let mut x: usize = 0;
    while x < inodes.len()
        invariant
            x <= inodes@.len(),
            i == entry.enode.meta.address.i,
            inodes@ == model::spine(i as nat, model::height(i as nat)),
            entry.inodes@.len() == inodes@.len(),
            forall|y: int| 0 <= y < x ==> matches(#[trigger] entry@.inodes[y], inodes@[y]),
        decreases inodes@.len() - x,
    {
        let n = &entry.inodes[x];
        let b = &inodes[x];
        proof {
            assert(entry@.inodes[x as int] == n@);
        }
        if n.meta.address.i != b.node.i || n.meta.address.j != b.node.j || n.left.i != b.left.i
            || n.left.j != b.left.j || n.right.i != b.right.i || n.right.j != b.right.j {
            proof {
                assert(!matches(entry@.inodes[x as int], inodes@[x as int]));
            }
            return false;
        }
        x = x + 1;
    }
    true
}

/// What is said of an entry that is not the expected one.
pub open spec fn wrong_index(expected: Index, position: Position, actual: Index) -> Seq<char> {
    "The index of entry "@ + text::decimal_of(expected as nat) + " read from "@ + text::decimal_of(
        position as nat,
    ) + " was actually "@ + text::decimal_of(actual as nat)
}

/// What is said of an entry with other nodes than those of its generation.
pub open spec fn wrong_nodes(i: Index) -> Seq<char> {
    "The entry "@ + text::decimal_of(i as nat) + " doesn't have the nodes of its generation"@
}

/// What is said of an entry with other nodes than those of its generation.
pub(crate) fn wrong_nodes_text(i: Index) -> (r: String)
    ensures
        r@ == wrong_nodes(i),
{
    let mut message = String::new();
    text::push_text(&mut message, "The entry ");
    text::push_decimal(&mut message, i);
    text::push_text(&mut message, " doesn't have the nodes of its generation");
    proof {
        assert(message@ =~= wrong_nodes(i));
    }
    message
}

/// Whether the entry of the index is found at the position.
pub open spec fn leads(found: Map<u64, EntryModel>, position: Position, i: Index) -> bool {
    found.contains_key(position) && found[position].meta.address.i == i
}

/// Whether this is what the check of the index makes of what was read at the position: an error is
/// handed on, an entry of the expected index as well, and any other contradicts the state.
pub open spec fn checks(
    read: Result<Entry>,
    position: Position,
    expected: Index,
    r: Result<Entry>,
) -> bool {
    match read {
        Ok(entry) => if entry.enode.meta.address.i == expected {
            r == read
        } else {
            r matches Err(Error::InternalStateInconsistency { message }) && message@
                == wrong_index(expected, position, entry.enode.meta.address.i)
        },
        Err(_) => r == read,
    }
}

/// Checks the index of what was read at the position.
pub fn check_index(read: Result<Entry>, position: Position, expected_index: Index) -> (r: Result<
    Entry,
>)
    ensures
        checks(read, position, expected_index, r),
{
    match read {
        Ok(entry) => {
            let actual_index: Index = entry.enode.meta.address.i;
            if actual_index == expected_index {
                return Ok(entry);
            }
            let mut message = String::new();
            text::push_text(&mut message, "The index of entry ");
            text::push_decimal(&mut message, expected_index);
            text::push_text(&mut message, " read from ");
            text::push_decimal(&mut message, position);
            text::push_text(&mut message, " was actually ");
            text::push_decimal(&mut message, actual_index);
            proof {
                assert(message@ =~= wrong_index(expected_index, position, actual_index));
            }
            inconsistency(message)
        },
        Err(error) => Err(error),
    }
}

/// Reads the entry at the position, which must have the expected index.
pub(crate) fn read_entry_with_index_check<R: Reader>(
    r: &mut R,
    position: Position,
    expected_index: Index,
) -> (result: Result<Entry>)
    ensures
        storage::unchanged(*old(r), *final(r)),
        exists|read: Result<Entry>|
            #![trigger storage::read_gives(*old(r), position, *final(r), read)]
            storage::read_gives(*old(r), position, *final(r), read) && checks(
                read,
                position,
                expected_index,
                result,
            ),
        result matches Ok(entry) ==> leads(old(r).found(), position, expected_index) && entry@
            == old(r).found()[position],
        old(r).reliable() ==> (result is Ok <==> leads(old(r).found(), position, expected_index)),
        old(r).reliable() && old(r).found().contains_key(position) && result is Err ==> (
        result->Err_0 matches Error::InternalStateInconsistency { message } && message@
            == wrong_index(expected_index, position, old(r).found()[position].meta.address.i)),
        old(r).reliable() && !old(r).found().contains_key(position) ==> result is Err && (old(
            r,
        ).failing())(position, result->Err_0),
{
    let read: Result<Entry> = r.read(position);
    let ghost given = read;
    let result: Result<Entry> = check_index(read, position, expected_index);
    proof {
        assert(storage::read_gives(*old(r), position, *r, given));
    }
    result
}

/// What is said of a node whose left child is not in the entry that it names.
pub open spec fn missing_node(n: INodeModel) -> Seq<char> {
    "The node b_{"@ + text::decimal_of(n.right.i as nat) + ","@ + text::decimal_of(
        n.right.j as nat,
    ) + "} referenced as the right node of node b_{"@ + text::decimal_of(
        n.meta.address.i as nat,
    ) + ","@ + text::decimal_of(n.meta.address.j as nat) + "} isn't included in entry "@
        + text::decimal_of(n.right.i as nat) + " @ "@ + text::decimal_of(n.right.position as nat)
}

/// What is said of a node whose left child is not in the entry that it names.
pub(crate) fn missing_node_text(n: &INode) -> (r: String)
    ensures
        r@ == missing_node(n@),
{
    let mut message = String::new();
    text::push_text(&mut message, "The node b_{");
    text::push_decimal(&mut message, n.right.i);
    text::push_text(&mut message, ",");
    text::push_decimal(&mut message, n.right.j as u64);
    text::push_text(&mut message, "} referenced as the right node of node b_{");
    text::push_decimal(&mut message, n.meta.address.i);
    text::push_text(&mut message, ",");
    text::push_decimal(&mut message, n.meta.address.j as u64);
    text::push_text(&mut message, "} isn't included in entry ");
    text::push_decimal(&mut message, n.right.i);
    text::push_text(&mut message, " @ ");
    text::push_decimal(&mut message, n.right.position);
    proof {
        assert(message@ =~= missing_node(n@));
    }
    message
}

/// A genuine entry can be stored at its position.
pub proof fn lemma_genuine_storable(log: Seq<EntryModel>, k: int)
    requires
        genuine(log),
        0 <= k < log.len(),
        log[k].payload.len() <= MAX_PAYLOAD_SIZE,
    ensures
        storable(log[k], log[k].meta.address.position),
{
    lemma_genuine_entry(log, k);
    let e = log[k];
    let i = (k + 1) as nat;
    let h = model::height(i);
    let s = model::spine(i, h);
    tree::lemma_hash_len(payloads(log), i, 0);
    assert forall|x: int| 0 <= x < e.inodes.len() implies #[trigger] chained(
        e,
        e.meta.address.position,
        x,
    ) by {
        assert(e.inodes[x] == inode_of(payloads(log), positions(log), s[x]));
        tree::lemma_hash_len(payloads(log), i, s[x].node.j as nat);
        if x > 0 {
            assert(e.inodes[x - 1] == inode_of(payloads(log), positions(log), s[x - 1]));
        }
    }
}

/// The size of an entry is the length of its serialized form, and that of the next entry of a tree
/// follows from its index and the length of its value.
pub proof fn law_sizes(e: EntryModel, values: Seq<Seq<u8>>, at: Seq<u64>, i: nat)
    requires
        crate::serialize::writable(e),
    ensures
        size_of(e) == crate::serialize::encode(e).len(),
        size_at(i, values[i - 1].len()) == size_of(entry_of(values, at, i)),
{
    crate::serialize::lemma_encode_len(e);
}

/// What can be read at a position, with a payload that is not too long, can be stored there.
pub proof fn law_read_is_storable(t: Seq<u8>, position: u64)
    requires
        crate::serialize::readable(t),
        crate::serialize::entry_in(t, position).payload.len() <= MAX_PAYLOAD_SIZE,
    ensures
        storable(crate::serialize::entry_in(t, position), position),
{
    let e = crate::serialize::entry_in(t, position);
    crate::serialize::law_reading(t, position);
    assert forall|k: int| 0 <= k < e.inodes.len() implies #[trigger] chained(e, position, k) by {
        let n = e.inodes[k];
        if k > 0 {
            let below = e.inodes[k - 1];
        }
    }
}

/// What is said of an entry of another index, of one with other nodes, and of a node whose left child
/// is missing: every number stands in its place.
pub proof fn law_messages(expected: Index, position: Position, actual: Index, n: INodeModel)
    ensures
        wrong_index(expected, position, actual) == "The index of entry "@ + text::decimal_of(
            expected as nat,
        ) + " read from "@ + text::decimal_of(position as nat) + " was actually "@
            + text::decimal_of(actual as nat),
        wrong_nodes(actual) == "The entry "@ + text::decimal_of(actual as nat)
            + " doesn't have the nodes of its generation"@,
        missing_node(n) == "The node b_{"@ + text::decimal_of(n.right.i as nat) + ","@
            + text::decimal_of(n.right.j as nat) + "} referenced as the right node of node b_{"@
            + text::decimal_of(n.meta.address.i as nat) + ","@ + text::decimal_of(
            n.meta.address.j as nat,
        ) + "} isn't included in entry "@ + text::decimal_of(n.right.i as nat) + " @ "@
            + text::decimal_of(n.right.position as nat),
{
}

/// An entry passes the check of its index exactly if it has the expected one, and then unchanged; an
/// error is handed on as it is.
pub proof fn law_checks(
    entry: Entry,
    error: Error,
    position: Position,
    expected: Index,
    r: Result<Entry>,
)
    ensures
        checks(Err(error), position, expected, r) ==> r == Err::<Entry, Error>(error),
        checks(Ok(entry), position, expected, r) && entry.enode.meta.address.i == expected ==> r
            == Ok::<Entry, Error>(entry),
        checks(Ok(entry), position, expected, r) && entry.enode.meta.address.i != expected ==> (
        r matches Err(e) && e is InternalStateInconsistency),
{
}

/// An entry is found for an index at a position exactly if the one that stands there has the index.
pub proof fn law_leads(found: Map<u64, EntryModel>, position: Position, i: Index)
    ensures
        leads(found, position, i) <==> found.contains_key(position)
            && found[position].meta.address.i == i,
{
}

/// The address and the hash value of a node of a tree: it stands in the entry of its last leaf.
pub proof fn law_node_in_tree(values: Seq<Seq<u8>>, at: Seq<u64>, a: formula::Addr)
    ensures
        meta_of(values, at, a).address.i == a.i,
        meta_of(values, at, a).address.j == a.j,
        meta_of(values, at, a).address.position == at[a.i - 1],
        meta_of(values, at, a).hash == tree::node_hash(values, a.i as nat, a.j as nat),
{
}

/// The payloads and the positions of a log are those of all its entries, in their order.
pub proof fn law_log(log: Seq<EntryModel>)
    ensures
        payloads(log).len() == log.len(),
        positions(log).len() == log.len(),
        forall|k: int| 0 <= k < log.len() ==> #[trigger] payloads(log)[k] == log[k].payload,
        forall|k: int|
            0 <= k < log.len() ==> #[trigger] positions(log)[k] == log[k].meta.address.position,
{
}

} // verus!
