//! Entries: a leaf with its payload, and the intermediate nodes that it brings.
use crate::formula::Index;
use crate::text;
use vstd::prelude::*;

verus! {

/// A position in a storage.
pub type Position = u64;

/// The greatest length of a payload. The length of a serialized entry has to fit in `u32`. The
/// constant is a sequence of one bits, so that it can serve as a mask.
pub const MAX_PAYLOAD_SIZE: usize = 0x7FFF_FFFF;

/// Where the entry with the node `b_{i,j}` is stored.
#[derive(PartialEq, Eq, Structural, Copy, Clone, Debug)]
pub struct Address {
    /// The index, from 1 on.
    pub i: Index,
    /// The height: the distance to the farthest leaf.
    pub j: u8,
    /// The position of the entry in the storage.
    pub position: Position,
}

impl Address {
    pub fn new(i: Index, j: u8, position: Position) -> (r: Address)
        ensures
            r == (Address { i, j, position }),
    {
        Address { i, j, position }
    }
}

/// What a [`MetaInfo`] is, with its hash value as a sequence of bytes.
pub struct MetaModel {
    pub address: Address,
    pub hash: Seq<u8>,
}

/// What an [`INode`] is, with its hash value as a sequence of bytes.
pub struct INodeModel {
    pub meta: MetaModel,
    pub left: Address,
    pub right: Address,
}

/// What an [`Entry`] is: the leaf, its payload, and the intermediate nodes from the lowest up.
#[verifier::ext_equal]
pub struct EntryModel {
    pub meta: MetaModel,
    pub payload: Seq<u8>,
    pub inodes: Seq<INodeModel>,
}

/// The address and the hash value of a node `b_{i,j}`.
#[derive(PartialEq, Eq, Copy, Clone, Debug)]
pub struct MetaInfo {
    pub address: Address,
    pub hash: crate::Hash,
}

impl View for MetaInfo {
    type V = MetaModel;

    open spec fn view(&self) -> MetaModel {
        MetaModel { address: self.address, hash: self.hash@ }
    }
}

impl MetaInfo {
    pub fn new(address: Address, hash: crate::Hash) -> (r: MetaInfo)
        ensures
            r == (MetaInfo { address, hash }),
    {
        MetaInfo { address, hash }
    }

    /// The address and the hash value as text.
    pub fn to_str(&self) -> (r: String)
        ensures
            r@ == "Node("@ + text::decimal_of(self.address.i as nat) + ","@ + text::decimal_of(
                self.address.j as nat,
            ) + "@"@ + text::decimal_of(self.address.position as nat) + ")"@ + text::hex_of(
                self.hash@,
            ),
    {
        let mut text = String::new();
        text::push_text(&mut text, "Node(");
        text::push_decimal(&mut text, self.address.i);
        text::push_text(&mut text, ",");
        text::push_decimal(&mut text, self.address.j as u64);
        text::push_text(&mut text, "@");
        text::push_decimal(&mut text, self.address.position);
        text::push_text(&mut text, ")");
        text::push_text(&mut text, self.hash.to_str().as_str());
        proof {
            assert(text@ =~= "Node("@ + text::decimal_of(self.address.i as nat) + ","@
                + text::decimal_of(self.address.j as nat) + "@"@ + text::decimal_of(
                self.address.position as nat,
            ) + ")"@ + text::hex_of(self.hash@));
        }
        text
    }
}

/// An intermediate node with its two children.
#[derive(PartialEq, Eq, Copy, Clone, Debug)]
pub struct INode {
    pub meta: MetaInfo,
    /// The left child.
    pub left: Address,
    /// The right child.
    pub right: Address,
}

impl View for INode {
    type V = INodeModel;

    open spec fn view(&self) -> INodeModel {
        INodeModel { meta: self.meta@, left: self.left, right: self.right }
    }
}

impl INode {
    pub fn new(meta: MetaInfo, left: Address, right: Address) -> (r: INode)
        ensures
            r == (INode { meta, left, right }),
    {
        INode { meta, left, right }
    }
}

/// A leaf with its payload.
#[derive(PartialEq, Eq, Debug)]
pub struct ENode {
    pub meta: MetaInfo,
    pub payload: Vec<u8>,
}

impl ENode {
    pub fn new(meta: MetaInfo, payload: Vec<u8>) -> (r: Self)
        ensures
            r == (ENode { meta, payload }),
    {
        ENode { meta, payload }
    }
}

impl Clone for ENode {
    fn clone(&self) -> (r: ENode)
        ensures
            r.meta == self.meta,
            r.payload@ == self.payload@,
    {
        ENode { meta: self.meta, payload: vstd::slice::slice_to_vec(self.payload.as_slice()) }
    }
}

/// A leaf and the intermediate nodes of the same index, from the lowest up.
#[derive(PartialEq, Eq, Debug)]
pub struct Entry {
    pub enode: ENode,
    pub inodes: Vec<INode>,
}

impl View for Entry {
    type V = EntryModel;

    open spec fn view(&self) -> EntryModel {
        EntryModel {
            meta: self.enode.meta@,
            payload: self.enode.payload@,
            inodes: self.inodes@.map_values(|n: INode| n@),
        }
    }
}

impl Clone for Entry {
    fn clone(&self) -> (r: Entry)
        ensures
            r@ == self@,
            r.enode.meta == self.enode.meta,
            r.inodes@ == self.inodes@,
    {
        let enode = self.enode.clone();
        let inodes = self.inodes.clone();
        proof {
            assert(inodes@ =~= self.inodes@);
        }
        Entry { enode, inodes }
    }
}

/// The place of the first intermediate node of height `j` at or after `k`, or the number of nodes.
pub open spec fn inode_place(inodes: Seq<INodeModel>, j: u8, k: nat) -> nat
    decreases inodes.len() - k,
{
    if k >= inodes.len() {
        inodes.len()
    } else if inodes[k as int].meta.address.j == j {
        k
    } else {
        inode_place(inodes, j, k + 1)
    }
}

/// A node of the height is found, and it has that height.
pub proof fn lemma_inode_place(inodes: Seq<INodeModel>, j: u8, k: nat, y: nat)
    requires
        k <= y < inodes.len(),
        inodes[y as int].meta.address.j == j,
    ensures
        k <= inode_place(inodes, j, k) <= y,
        inodes[inode_place(inodes, j, k) as int].meta.address.j == j,
    decreases y - k,
{
    if k < y && inodes[k as int].meta.address.j != j {
        lemma_inode_place(inodes, j, k + 1, y);
    }
}

/// The place of the node of an entry with the given height; the leaf has the place 0. It is greater
/// than the number of intermediate nodes where there is no such node.
pub open spec fn place_of(e: EntryModel, j: u8) -> nat {
    if j == 0 {
        0
    } else {
        inode_place(e.inodes, j, 0) + 1
    }
}

/// The node of an entry with the given place.
pub open spec fn node_at(e: EntryModel, k: nat) -> MetaModel {
    if k == 0 {
        e.meta
    } else {
        e.inodes[k - 1].meta
    }
}

/// The height of the node of an entry with the given place.
pub open spec fn height_of(e: EntryModel, k: nat) -> nat {
    node_at(e, k).address.j as nat
}

/// The highest node of an entry.
pub open spec fn root_of(e: EntryModel) -> MetaModel {
    node_at(e, e.inodes.len())
}

/// An address as text.
pub open spec fn address_text(a: Address) -> Seq<char> {
    "Address { i: "@ + text::decimal_of(a.i as nat) + ", j: "@ + text::decimal_of(a.j as nat)
        + ", position: "@ + text::decimal_of(a.position as nat) + " }"@
}

/// A node as text.
pub open spec fn meta_text(m: MetaModel) -> Seq<char> {
    "MetaInfo { address: "@ + address_text(m.address) + ", hash: Hash("@ + text::hex_of(m.hash)
        + ") }"@
}

/// An intermediate node as text.
pub open spec fn inode_text(n: INodeModel) -> Seq<char> {
    "INode { meta: "@ + meta_text(n.meta) + ", left: "@ + address_text(n.left) + ", right: "@
        + address_text(n.right) + " }"@
}

/// What stands before an item of a list, by its number.
pub open spec fn separator(k: int) -> Seq<char> {
    if k == 0 {
        ""@
    } else {
        ", "@
    }
}

/// The bytes as text, with what stands between them.
pub open spec fn bytes_text(bytes: Seq<u8>) -> Seq<char>
    decreases bytes.len(),
{
    if bytes.len() == 0 {
        seq![]
    } else {
        bytes_text(bytes.drop_last()) + separator(bytes.len() - 1) + text::decimal_of(
            bytes.last() as nat,
        )
    }
}

/// The intermediate nodes as text, with what stands between them.
pub open spec fn inodes_text(inodes: Seq<INodeModel>) -> Seq<char>
    decreases inodes.len(),
{
    if inodes.len() == 0 {
        seq![]
    } else {
        inodes_text(inodes.drop_last()) + separator(inodes.len() - 1) + inode_text(inodes.last())
    }
}

/// An entry as text.
pub open spec fn entry_text(e: EntryModel) -> Seq<char> {
    "Entry { enode: ENode { meta: "@ + meta_text(e.meta) + ", payload: ["@ + bytes_text(e.payload)
        + "] }, inodes: ["@ + inodes_text(e.inodes) + "] }"@
}

fn push_separator(text: &mut String, k: usize)
    ensures
        final(text)@ == old(text)@ + separator(k as int),
{
    if k == 0 {
        text::push_text(text, "");
    } else {
        text::push_text(text, ", ");
    }
}

fn push_address(text: &mut String, a: &Address)
    ensures
        final(text)@ == old(text)@ + address_text(*a),
{
    text::push_text(text, "Address { i: ");
    text::push_decimal(text, a.i);
    text::push_text(text, ", j: ");
    text::push_decimal(text, a.j as u64);
    text::push_text(text, ", position: ");
    text::push_decimal(text, a.position);
    text::push_text(text, " }");
    proof {
        assert(text@ =~= old(text)@ + address_text(*a));
    }
}

fn push_meta(text: &mut String, m: &MetaInfo)
    ensures
        final(text)@ == old(text)@ + meta_text(m@),
{
    text::push_text(text, "MetaInfo { address: ");
    push_address(text, &m.address);
    text::push_text(text, ", hash: Hash(");
    text::push_text(text, m.hash.to_str().as_str());
    text::push_text(text, ") }");
    proof {
        assert(text@ =~= old(text)@ + meta_text(m@));
    }
}

fn push_inode(text: &mut String, n: &INode)
    ensures
        final(text)@ == old(text)@ + inode_text(n@),
{
    text::push_text(text, "INode { meta: ");
    push_meta(text, &n.meta);
    text::push_text(text, ", left: ");
    push_address(text, &n.left);
    text::push_text(text, ", right: ");
    push_address(text, &n.right);
    text::push_text(text, " }");
    proof {
        assert(text@ =~= old(text)@ + inode_text(n@));
    }
}

fn push_bytes(text: &mut String, bytes: &Vec<u8>)
    ensures
        final(text)@ == old(text)@ + bytes_text(bytes@),
{
    let ghost before = text@;
    let mut k: usize = 0;
    proof {
        assert(text@ =~= before + bytes_text(bytes@.take(0)));
    }
    while k < bytes.len()
        invariant
            k <= bytes@.len(),
            text@ == before + bytes_text(bytes@.take(k as int)),
        decreases bytes@.len() - k,
    {
        push_separator(text, k);
        text::push_decimal(text, bytes[k] as u64);
        proof {
            assert(bytes@.take(k + 1).drop_last() =~= bytes@.take(k as int));
            assert(text@ =~= before + bytes_text(bytes@.take(k + 1)));
        }
        k = k + 1;
    }
    proof {
        assert(bytes@.take(k as int) =~= bytes@);
    }
}

fn push_inodes(text: &mut String, entry: &Entry)
    ensures
        final(text)@ == old(text)@ + inodes_text(entry@.inodes),
{
    let ghost before = text@;
    let ghost all = entry@.inodes;
    let mut k: usize = 0;
    proof {
        assert(text@ =~= before + inodes_text(all.take(0)));
    }
    while k < entry.inodes.len()
        invariant
            k <= entry.inodes@.len(),
            all == entry@.inodes,
            text@ == before + inodes_text(all.take(k as int)),
        decreases entry.inodes@.len() - k,
    {
        push_separator(text, k);
        push_inode(text, &entry.inodes[k]);
        proof {
            assert(all.take(k + 1).drop_last() =~= all.take(k as int));
            assert(text@ =~= before + inodes_text(all.take(k + 1)));
        }
        k = k + 1;
    }
    proof {
        assert(all.take(k as int) =~= all);
    }
}

/// Puts the entry as text behind the text.
pub(crate) fn push_entry(text: &mut String, entry: &Entry)
    ensures
        final(text)@ == old(text)@ + entry_text(entry@),
{
    text::push_text(text, "Entry { enode: ENode { meta: ");
    push_meta(text, &entry.enode.meta);
    text::push_text(text, ", payload: [");
    push_bytes(text, &entry.enode.payload);
    text::push_text(text, "] }, inodes: [");
    push_inodes(text, entry);
    text::push_text(text, "] }");
    proof {
        assert(text@ =~= old(text)@ + entry_text(entry@));
    }
}

impl Entry {
    /// The entry of a leaf and of intermediate nodes, whose heights ascend.
    pub fn new(enode: ENode, inodes: Vec<INode>) -> (r: Self)
        requires
            forall|a: int, b: int|
                0 <= a < b < inodes@.len() ==> (#[trigger] inodes@[a]).meta.address.j < (
                #[trigger] inodes@[b]).meta.address.j,
        ensures
            r == (Entry { enode, inodes }),
    {
        Entry { enode, inodes }
    }

    /// The highest node of the entry: the root of the tree whose last leaf this is.
    pub fn root(&self) -> (r: MetaInfo)
        ensures
            r == (if self.inodes@.len() > 0 {
                self.inodes@.last().meta
            } else {
                self.enode.meta
            }),
    {
        if self.inodes.len() > 0 {
            self.inodes[self.inodes.len() - 1].meta
        } else {
            self.enode.meta
        }
    }

    /// The place of the intermediate node of height `j`.
    pub(crate) fn position_of(&self, j: u8) -> (r: Option<usize>)
        ensures
            r is None <==> inode_place(self@.inodes, j, 0) == self.inodes@.len(),
            r matches Some(k) ==> k == inode_place(self@.inodes, j, 0) && k < self.inodes@.len()
                && k < usize::MAX && self.inodes@[k as int].meta.address.j == j,
    {
        let mut k: usize = 0;
        while k < self.inodes.len()
            invariant
                k <= self.inodes@.len(),
                inode_place(self@.inodes, j, 0) == inode_place(self@.inodes, j, k as nat),
            decreases self.inodes@.len() - k,
        {
            proof {
                assert(self@.inodes[k as int] == self.inodes@[k as int]@);
            }
            if self.inodes[k].meta.address.j == j {
                return Some(k);
            }
            k = k + 1;
        }
        None
    }

    /// The intermediate node of height `j`, if the entry has one.
    pub fn inode(&self, j: u8) -> (r: Option<&INode>)
        ensures
            r == (if inode_place(self@.inodes, j, 0) < self.inodes@.len() {
                Some(&self.inodes@[inode_place(self@.inodes, j, 0) as int])
            } else {
                None
            }),
    {
        match self.position_of(j) {
            Some(k) => Some(&self.inodes[k]),
            None => None,
        }
    }

    /// The address and the hash value of the node of height `j`, if the entry has one.
    pub fn meta(&self, j: u8) -> (r: Option<&MetaInfo>)
        ensures
            r == (if j == 0 {
                Some(&self.enode.meta)
            } else if inode_place(self@.inodes, j, 0) < self.inodes@.len() {
                Some(&self.inodes@[inode_place(self@.inodes, j, 0) as int].meta)
            } else {
                None
            }),
    {
        if j == 0 {
            Some(&self.enode.meta)
        } else {
            match self.position_of(j) {
                Some(k) => Some(&self.inodes[k].meta),
                None => None,
            }
        }
    }
}

/// The place of an intermediate node by its height is that of the first one with this height, and it
/// is the number of nodes exactly if none has it. The leaf has the place 0.
pub proof fn law_place(e: EntryModel, j: u8, k: nat)
    requires
        k <= e.inodes.len(),
    ensures
        ({
            let place = inode_place(e.inodes, j, k);
            &&& k <= place <= e.inodes.len()
            &&& place < e.inodes.len() ==> e.inodes[place as int].meta.address.j == j
            &&& forall|x: int|
                k <= x < place ==> (#[trigger] e.inodes[x]).meta.address.j != j
        }),
        j == 0 ==> place_of(e, j) == 0,
        j > 0 ==> place_of(e, j) == inode_place(e.inodes, j, 0) + 1,
        node_at(e, 0) == e.meta,
        0 < k ==> node_at(e, k) == e.inodes[k - 1].meta,
        e.inodes.len() == 0 ==> root_of(e) == e.meta,
        e.inodes.len() > 0 ==> root_of(e) == e.inodes.last().meta,
    decreases e.inodes.len() - k,
{
    if k < e.inodes.len() && e.inodes[k as int].meta.address.j != j {
        law_place(e, j, k + 1);
    }
}

/// What an entry is holds every field of it: the address and the hash value of the leaf, all bytes of
/// the payload, and all intermediate nodes with their addresses, children and hash values.
pub proof fn law_whole_entry(entry: Entry)
    ensures
        entry@.meta.address == entry.enode.meta.address,
        entry@.meta.hash == entry.enode.meta.hash.value@,
        entry@.payload == entry.enode.payload@,
        entry@.inodes.len() == entry.inodes@.len(),
        forall|k: int|
            0 <= k < entry.inodes@.len() ==> {
                let n = #[trigger] entry.inodes@[k];
                &&& entry@.inodes[k].meta.address == n.meta.address
                &&& entry@.inodes[k].meta.hash == n.meta.hash.value@
                &&& entry@.inodes[k].left == n.left
                &&& entry@.inodes[k].right == n.right
            },
{
}

/// How an entry is shown: every field by its name, in full.
pub proof fn law_entry_text(e: EntryModel, m: MetaModel, n: INodeModel, a: Address)
    ensures
        address_text(a) == "Address { i: "@ + text::decimal_of(a.i as nat) + ", j: "@
            + text::decimal_of(a.j as nat) + ", position: "@ + text::decimal_of(a.position as nat)
            + " }"@,
        meta_text(m) == "MetaInfo { address: "@ + address_text(m.address) + ", hash: Hash("@
            + text::hex_of(m.hash) + ") }"@,
        inode_text(n) == "INode { meta: "@ + meta_text(n.meta) + ", left: "@ + address_text(n.left)
            + ", right: "@ + address_text(n.right) + " }"@,
        entry_text(e) == "Entry { enode: ENode { meta: "@ + meta_text(e.meta) + ", payload: ["@
            + bytes_text(e.payload) + "] }, inodes: ["@ + inodes_text(e.inodes) + "] }"@,
        bytes_text(seq![]) == Seq::<char>::empty(),
        inodes_text(seq![]) == Seq::<char>::empty(),
{
}

/// A list is shown with all its items in their order, and a comma and a blank between two of them.
pub proof fn law_list_text(bytes: Seq<u8>, b: u8, inodes: Seq<INodeModel>, n: INodeModel)
    ensures
        bytes.len() > 0 ==> bytes_text(bytes.push(b)) == bytes_text(bytes) + ", "@
            + text::decimal_of(b as nat),
        bytes_text(seq![b]) == text::decimal_of(b as nat),
        inodes.len() > 0 ==> inodes_text(inodes.push(n)) == inodes_text(inodes) + ", "@
            + inode_text(n),
        inodes_text(seq![n]) == inode_text(n),
{
    reveal_strlit("");
    assert(bytes.push(b).drop_last() =~= bytes);
    assert(inodes.push(n).drop_last() =~= inodes);
    assert(seq![b].drop_last() =~= seq![]);
    assert(seq![n].drop_last() =~= seq![]);
    assert(bytes_text(seq![b]) =~= text::decimal_of(b as nat)) by {
        assert(bytes_text(seq![]) =~= seq![]);
    }
    assert(inodes_text(seq![n]) =~= inode_text(n)) by {
        assert(inodes_text(seq![]) =~= seq![]);
    }
}

} // verus!
