//! The serialized form of an entry.
//!
//! An entry is written as its index, the number of its intermediate nodes, these nodes from the
//! lowest up, the length of the payload, the payload and the hash value of the leaf; then the
//! length of all this with the trailer itself, and a checksum of what stands before the trailer.
//! Numbers are little-endian. What follows from the position of the entry and from the order of
//! its nodes is not written.
use crate::entry::{
    Address, ENode, Entry, EntryModel, INode, INodeModel, MetaInfo, MetaModel, Position,
    MAX_PAYLOAD_SIZE,
};
use crate::error::{Error, Result};
use crate::hash;
use crate::ledger;
use byteorder::{ByteOrder, LittleEndian};
use vstd::bytes::*;
use vstd::prelude::*;

verus! {

/// `byteorder::LittleEndian::read_u64` gives the number that the first eight bytes hold, the
/// lowest byte first.
#[verifier::external_body]
pub(crate) fn read_u64(bytes: &[u8]) -> (r: u64)
    requires
        bytes@.len() >= 8,
    ensures
        r == spec_u64_from_le_bytes(bytes@.take(8)),
{
    LittleEndian::read_u64(bytes)
}

/// `byteorder::LittleEndian::read_u32` gives the number that the first four bytes hold, the lowest
/// byte first.
#[verifier::external_body]
pub(crate) fn read_u32(bytes: &[u8]) -> (r: u32)
    requires
        bytes@.len() >= 4,
    ensures
        r == spec_u32_from_le_bytes(bytes@.take(4)),
{
    LittleEndian::read_u32(bytes)
}

/// An intermediate node: its height less one, the position, the index and the height of its left
/// child, and its hash value.
pub open spec fn encode_inode(n: INodeModel) -> Seq<u8> {
    seq![(n.meta.address.j - 1) as u8] + spec_u64_to_le_bytes(n.left.position)
        + spec_u64_to_le_bytes(n.left.i) + seq![n.left.j] + n.meta.hash
}

/// The intermediate nodes, one after the other.
pub open spec fn encode_inodes(nodes: Seq<INodeModel>) -> Seq<u8>
    decreases nodes.len(),
{
    if nodes.len() == 0 {
        seq![]
    } else {
        encode_inodes(nodes.drop_last()) + encode_inode(nodes.last())
    }
}

/// All that stands before the trailer.
pub open spec fn encode_body(e: EntryModel) -> Seq<u8> {
    spec_u64_to_le_bytes(e.meta.address.i) + seq![e.inodes.len() as u8] + encode_inodes(e.inodes)
        + spec_u32_to_le_bytes(e.payload.len() as u32) + e.payload + e.meta.hash
}

/// The serialized form of an entry.
pub open spec fn encode(e: EntryModel) -> Seq<u8> {
    let body = encode_body(e);
    body + spec_u32_to_le_bytes((body.len() + 12) as u32) + spec_u64_to_le_bytes(
        hash::highway_of(body),
    )
}

/// Whether every field of the entry fits in its place.
pub open spec fn writable(e: EntryModel) -> bool {
    &&& e.meta.hash.len() == 32
    &&& e.payload.len() <= MAX_PAYLOAD_SIZE
    &&& e.inodes.len() <= 255
    &&& forall|k: int|
        0 <= k < e.inodes.len() ==> (#[trigger] e.inodes[k]).meta.address.j >= 1
            && e.inodes[k].meta.hash.len() == 32
}

/// An entry that can be stored can be written.
pub proof fn lemma_storable_writable(e: EntryModel, position: u64)
    requires
        ledger::storable(e, position),
    ensures
        writable(e),
{
    assert forall|k: int| 0 <= k < e.inodes.len() implies (
    #[trigger] e.inodes[k]).meta.address.j >= 1 && e.inodes[k].meta.hash.len() == 32 by {
        assert(ledger::chained(e, position, k));
    }
}

/// The number at a place in the bytes.
pub open spec fn u64_at(t: Seq<u8>, at: int) -> u64 {
    spec_u64_from_le_bytes(t.subrange(at, at + 8))
}

/// The number at a place in the bytes.
pub open spec fn u32_at(t: Seq<u8>, at: int) -> u32 {
    spec_u32_from_le_bytes(t.subrange(at, at + 4))
}

/// Where the length of the payload is, in bytes that start with an entry.
pub open spec fn length_at(t: Seq<u8>) -> int {
    9 + 50 * t[8]
}

/// Where the payload is.
pub open spec fn payload_at(t: Seq<u8>) -> int {
    length_at(t) + 4
}

/// Where the hash value of the leaf is.
pub open spec fn hash_at(t: Seq<u8>) -> int {
    payload_at(t) + u32_at(t, length_at(t))
}

/// Where the trailer is.
pub open spec fn trailer_at(t: Seq<u8>) -> int {
    hash_at(t) + 32
}

/// Where the entry ends.
pub open spec fn end_at(t: Seq<u8>) -> int {
    trailer_at(t) + 12
}

/// Whether the bytes do not end before the entry that they start with.
pub open spec fn complete(t: Seq<u8>) -> bool {
    t.len() >= 9 && t.len() >= payload_at(t) && t.len() >= end_at(t)
}

/// Where the `k`-th intermediate node is.
pub open spec fn record_at(k: int) -> int {
    9 + 50 * k
}

/// Whether the height of every intermediate node is one that a node can have.
pub open spec fn heights_fit(t: Seq<u8>) -> bool {
    forall|k: int| 0 <= k < t[8] ==> t[#[trigger] record_at(k)] < 255
}

/// Whether the bytes start with an entry that is complete and not damaged.
pub open spec fn readable(t: Seq<u8>) -> bool {
    &&& complete(t)
    &&& heights_fit(t)
    &&& u32_at(t, trailer_at(t)) == end_at(t)
    &&& u64_at(t, trailer_at(t) + 4) == hash::highway_of(t.take(trailer_at(t)))
}

/// Whether the error says that there were fewer bytes than were to be read.
pub open spec fn is_short(error: Error) -> bool {
    error matches Error::Io { message } && message@ == "failed to fill whole buffer"@
}

/// Whether the error says that no node can have the height.
pub open spec fn is_out_of_range(error: Error) -> bool {
    error matches Error::DamagedStorage(message) && message@
        == "the height of an intermediate node is out of range"@
}

/// Whether the error is the one for reading the entry at the position from bytes that start with
/// none that is complete and not damaged.
pub open spec fn unreadable(t: Seq<u8>, position: u64, error: Error) -> bool {
    if !complete(t) {
        is_short(error)
    } else if !heights_fit(t) {
        is_out_of_range(error)
    } else if u32_at(t, trailer_at(t)) != end_at(t) {
        error == (Error::IncorrectEntryHeadOffset {
            expected: u32_at(t, trailer_at(t)),
            actual: (if end_at(t) <= u32::MAX {
                end_at(t)
            } else {
                u32::MAX as int
            }) as u32,
        })
    } else {
        error == (Error::ChecksumVerificationFailed {
            at: position,
            length: trailer_at(t) as u32,
            expected: u64_at(t, trailer_at(t) + 4),
            actual: hash::highway_of(t.take(trailer_at(t))),
        })
    }
}

/// The `k`-th intermediate node in bytes that start with an entry.
pub open spec fn inode_in(t: Seq<u8>, position: u64, k: int) -> INodeModel {
    let i = u64_at(t, 0);
    let at = record_at(k);
    INodeModel {
        meta: MetaModel {
            address: Address { i, j: (t[at] + 1) as u8, position },
            hash: t.subrange(at + 18, at + 50),
        },
        left: Address { i: u64_at(t, at + 9), j: t[at + 17], position: u64_at(t, at + 1) },
        right: Address {
            i,
            j: if k == 0 {
                0
            } else {
                (t[record_at(k - 1)] + 1) as u8
            },
            position,
        },
    }
}

/// The entry that the bytes start with.
pub open spec fn entry_in(t: Seq<u8>, position: u64) -> EntryModel {
    EntryModel {
        meta: MetaModel {
            address: Address { i: u64_at(t, 0), j: 0, position },
            hash: t.subrange(hash_at(t), trailer_at(t)),
        },
        payload: t.subrange(payload_at(t), hash_at(t)),
        inodes: Seq::new(t[8] as nat, |k: int| inode_in(t, position, k)),
    }
}

/// The serialized form of an intermediate node is 50 bytes long, and each node has its place.
proof fn lemma_records(nodes: Seq<INodeModel>)
    requires
        forall|k: int| 0 <= k < nodes.len() ==> (#[trigger] nodes[k]).meta.hash.len() == 32,
    ensures
        encode_inodes(nodes).len() == 50 * nodes.len(),
        forall|k: int|
            0 <= k < nodes.len() ==> encode_inodes(nodes).subrange(50 * k, 50 * k + 50)
                == encode_inode(#[trigger] nodes[k]),
    decreases nodes.len(),
{
    lemma_auto_spec_u64_to_from_le_bytes();
    if nodes.len() > 0 {
        let low = nodes.drop_last();
        assert forall|k: int| 0 <= k < low.len() implies (#[trigger] low[k]).meta.hash.len()
            == 32 by {
            assert(low[k] == nodes[k]);
        }
        lemma_records(low);
        let all = encode_inodes(nodes);
        assert(nodes[nodes.len() - 1].meta.hash.len() == 32);
        assert(encode_inode(nodes.last()).len() == 50);
        assert forall|k: int| 0 <= k < nodes.len() implies all.subrange(50 * k, 50 * k + 50)
            == encode_inode(#[trigger] nodes[k]) by {
            if k < low.len() {
                assert(low[k] == nodes[k]);
                assert(all.subrange(50 * k, 50 * k + 50) =~= encode_inodes(low).subrange(
                    50 * k,
                    50 * k + 50,
                ));
            } else {
                assert(all.subrange(50 * k, 50 * k + 50) =~= encode_inode(nodes[k]));
            }
        }
    }
}

/// The serialized form of an entry has the length that [`ledger::size_of`] gives.
pub proof fn lemma_encode_len(e: EntryModel)
    requires
        writable(e),
    ensures
        encode_body(e).len() == ledger::size_of(e) - 12,
        encode(e).len() == ledger::size_of(e),
        ledger::size_of(e) <= 0x8000_4000,
        encode_inodes(e.inodes).len() == 50 * e.inodes.len(),
{
    lemma_auto_spec_u64_to_from_le_bytes();
    lemma_auto_spec_u32_to_from_le_bytes();
    lemma_records(e.inodes);
}

/// The fields around the intermediate nodes in the serialized form of an entry.
proof fn lemma_frame(e: EntryModel, position: u64, t: Seq<u8>)
    requires
        ledger::storable(e, position),
        t.len() >= encode(e).len(),
        t.take(encode(e).len() as int) == encode(e),
    ensures
        t[8] == e.inodes.len(),
        u64_at(t, 0) == e.meta.address.i,
        t.subrange(9, 9 + 50 * e.inodes.len() as int) == encode_inodes(e.inodes),
        complete(t),
        end_at(t) == encode(e).len(),
        t.subrange(payload_at(t), hash_at(t)) == e.payload,
        t.subrange(hash_at(t), trailer_at(t)) == e.meta.hash,
        u32_at(t, trailer_at(t)) == end_at(t),
        u64_at(t, trailer_at(t) + 4) == hash::highway_of(t.take(trailer_at(t))),
{
    lemma_auto_spec_u64_to_from_le_bytes();
    lemma_auto_spec_u32_to_from_le_bytes();
    lemma_storable_writable(e, position);
    lemma_encode_len(e);
    let c = e.inodes.len() as int;
    let p = e.payload.len() as int;
    let full = encode(e);
    let body = encode_body(e);
    let b = body.len() as int;
    let records = encode_inodes(e.inodes);
    assert(records.len() == 50 * c);
    let own = t.take(full.len() as int);
    assert(t[8] == own[8]);
    assert(full[8] == c);
    assert(t.subrange(0, 8) =~= own.subrange(0, 8));
    assert(full.subrange(0, 8) =~= spec_u64_to_le_bytes(e.meta.address.i));
    let l = 9 + 50 * c;
    assert(t.subrange(l, l + 4) =~= own.subrange(l, l + 4));
    assert(full.subrange(l, l + 4) =~= spec_u32_to_le_bytes(p as u32));
    assert(hash_at(t) == l + 4 + p);
    assert(t.subrange(l + 4, l + 4 + p) =~= own.subrange(l + 4, l + 4 + p));
    assert(full.subrange(l + 4, l + 4 + p) =~= e.payload);
    assert(t.subrange(l + 4 + p, b) =~= own.subrange(l + 4 + p, b));
    assert(full.subrange(l + 4 + p, b) =~= e.meta.hash);
    assert(t.take(b) =~= own.take(b));
    assert(full.take(b) =~= body);
    assert(t.subrange(b, b + 4) =~= own.subrange(b, b + 4));
    assert(full.subrange(b, b + 4) =~= spec_u32_to_le_bytes((body.len() + 12) as u32));
    assert(t.subrange(b + 4, b + 12) =~= own.subrange(b + 4, b + 12));
    assert(full.subrange(b + 4, b + 12) =~= spec_u64_to_le_bytes(hash::highway_of(body)));
    assert(t.subrange(9, l) =~= own.subrange(9, l));
    assert(full.subrange(9, l) =~= records);
}

/// What is read back from the serialized form of an entry, whatever follows it, is the entry.
pub proof fn law_read_back(e: EntryModel, position: u64, t: Seq<u8>)
    requires
        ledger::storable(e, position),
        t.len() >= encode(e).len(),
        t.take(encode(e).len() as int) == encode(e),
    ensures
        readable(t),
        entry_in(t, position) == e,
        end_at(t) == encode(e).len(),
{
    lemma_frame(e, position, t);
    let c = e.inodes.len() as int;
    let read = entry_in(t, position);
    assert forall|k: int| 0 <= k < c implies #[trigger] read.inodes[k] == e.inodes[k]
        && t[record_at(k)] < 255 by {
        lemma_record(e, position, t, k);
        if k > 0 {
            lemma_record(e, position, t, k - 1);
            assert(ledger::chained(e, position, k - 1));
        }
        assert(ledger::chained(e, position, k));
    }
    assert forall|k: int| 0 <= k < t[8] implies t[#[trigger] record_at(k)] < 255 by {
        assert(read.inodes[k] == e.inodes[k]);
    }
    assert(read.inodes =~= e.inodes);
}

/// The fields of the `k`-th intermediate node in the serialized form of an entry.
proof fn lemma_record(e: EntryModel, position: u64, t: Seq<u8>, k: int)
    requires
        ledger::storable(e, position),
        0 <= k < e.inodes.len(),
        t.len() >= 9 + 50 * e.inodes.len(),
        t.subrange(9, 9 + 50 * e.inodes.len() as int) == encode_inodes(e.inodes),
    ensures
        ({
            let n = e.inodes[k];
            let at = record_at(k);
            &&& t[at] == n.meta.address.j - 1
            &&& u64_at(t, at + 1) == n.left.position
            &&& u64_at(t, at + 9) == n.left.i
            &&& t[at + 17] == n.left.j
            &&& t.subrange(at + 18, at + 50) == n.meta.hash
        }),
{
    lemma_auto_spec_u64_to_from_le_bytes();
    assert forall|k: int| 0 <= k < e.inodes.len() implies (#[trigger] e.inodes[k]).meta.hash.len()
        == 32 by {
        assert(ledger::chained(e, position, k));
    }
    lemma_records(e.inodes);
    let n = e.inodes[k];
    let at = record_at(k);
    let records = encode_inodes(e.inodes);
    assert(ledger::chained(e, position, k));
    let one = encode_inode(n);
    assert(records.subrange(50 * k, 50 * k + 50) == one);
    let own = t.subrange(at, at + 50);
    assert(own =~= one) by {
        assert forall|x: int| 0 <= x < 50 implies #[trigger] own[x] == one[x] by {
            assert(records.subrange(50 * k, 50 * k + 50)[x] == records[50 * k + x]);
            assert(t.subrange(9, 9 + 50 * e.inodes.len() as int)[50 * k + x] == t[at + x]);
        }
    }
    assert(t[at] == own[0]);
    assert(t.subrange(at + 1, at + 9) =~= own.subrange(1, 9));
    assert(one.subrange(1, 9) =~= spec_u64_to_le_bytes(n.left.position));
    assert(t.subrange(at + 9, at + 17) =~= own.subrange(9, 17));
    assert(one.subrange(9, 17) =~= spec_u64_to_le_bytes(n.left.i));
    assert(t[at + 17] == own[17]);
    assert(t.subrange(at + 18, at + 50) =~= own.subrange(18, 50));
    assert(one.subrange(18, 50) =~= n.meta.hash);
}

/// The bytes behind an entry do not matter for reading it.
pub proof fn lemma_read_local(t: Seq<u8>, position: u64, n: int)
    requires
        complete(t),
        end_at(t) <= n <= t.len(),
    ensures
        complete(t.take(n)),
        end_at(t.take(n)) == end_at(t),
        trailer_at(t.take(n)) == trailer_at(t),
        heights_fit(t.take(n)) <==> heights_fit(t),
        u32_at(t.take(n), trailer_at(t)) == u32_at(t, trailer_at(t)),
        u64_at(t.take(n), trailer_at(t) + 4) == u64_at(t, trailer_at(t) + 4),
        t.take(n).take(trailer_at(t)) == t.take(trailer_at(t)),
        readable(t.take(n)) <==> readable(t),
        entry_in(t.take(n), position) == entry_in(t, position),
{
    let s = t.take(n);
    assert(s[8] == t[8]);
    let c = t[8] as int;
    assert(s.subrange(0, 8) =~= t.subrange(0, 8));
    assert(s.subrange(length_at(t), length_at(t) + 4) =~= t.subrange(
        length_at(t),
        length_at(t) + 4,
    ));
    let at = trailer_at(t);
    assert(s.subrange(at, at + 4) =~= t.subrange(at, at + 4));
    assert(s.subrange(at + 4, at + 12) =~= t.subrange(at + 4, at + 12));
    assert(s.take(at) =~= t.take(at));
    assert forall|k: int| 0 <= k < c implies s[#[trigger] record_at(k)] == t[record_at(k)] by {
    }
    assert(heights_fit(s) ==> heights_fit(t)) by {
        if heights_fit(s) {
            assert forall|k: int| 0 <= k < t[8] implies t[#[trigger] record_at(k)] < 255 by {
                assert(s[record_at(k)] == t[record_at(k)]);
            }
        }
    }
    assert(s.subrange(payload_at(t), hash_at(t)) =~= t.subrange(payload_at(t), hash_at(t)));
    assert(s.subrange(hash_at(t), trailer_at(t)) =~= t.subrange(hash_at(t), trailer_at(t)));
    assert forall|k: int| 0 <= k < c implies #[trigger] inode_in(s, position, k) == inode_in(
        t,
        position,
        k,
    ) by {
        let r = record_at(k);
        assert(s.subrange(r + 18, r + 50) =~= t.subrange(r + 18, r + 50));
        assert(s.subrange(r + 9, r + 17) =~= t.subrange(r + 9, r + 17));
        assert(s.subrange(r + 1, r + 9) =~= t.subrange(r + 1, r + 9));
        if k > 0 {
            assert(s[record_at(k - 1)] == t[record_at(k - 1)]);
        }
    }
    assert(entry_in(s, position).inodes =~= entry_in(t, position).inodes);
}

/// The checksum of the given bytes.
pub(crate) fn checksum(bytes: &[u8]) -> (r: u64)
    ensures
        r == hash::highway_of(bytes@),
{
    hash::highway64(bytes)
}

/// The serialized form of an entry.
pub(crate) fn write_entry_to(entry: &Entry) -> (r: Vec<u8>)
    requires
        writable(entry@),
    ensures
        r@ == encode(entry@),
        r@.len() == ledger::size_of(entry@),
{
    let ghost e = entry@;
    proof {
        lemma_auto_spec_u64_to_from_le_bytes();
        lemma_auto_spec_u32_to_from_le_bytes();
        lemma_encode_len(e);
    }
    let mut w: Vec<u8> = Vec::new();
    let mut number: Vec<u8> = u64_to_le_bytes(entry.enode.meta.address.i);
    w.append(&mut number);
    w.push(entry.inodes.len() as u8);
    let ghost head = spec_u64_to_le_bytes(e.meta.address.i) + seq![e.inodes.len() as u8];
    let mut k: usize = 0;
    proof {
        assert(e.inodes.take(0) =~= seq![]);
        assert(w@ =~= head + encode_inodes(e.inodes.take(0)));
    }
    while k < entry.inodes.len()
        invariant
            k <= entry.inodes@.len(),
            e == entry@,
            writable(e),
            e.inodes.len() == entry.inodes@.len(),
            w@ == head + encode_inodes(e.inodes.take(k as int)),
        decreases entry.inodes@.len() - k,
    {
        let ghost before = w@;
        let inode: INode = entry.inodes[k];
        proof {
            assert(e.inodes[k as int] == inode@);
        }
        w.push(inode.meta.address.j - 1);
        let mut number: Vec<u8> = u64_to_le_bytes(inode.left.position);
        w.append(&mut number);
        let mut number: Vec<u8> = u64_to_le_bytes(inode.left.i);
        w.append(&mut number);
        w.push(inode.left.j);
        w.extend_from_slice(inode.meta.hash.value.as_slice());
        proof {
            assert(w@ =~= before + encode_inode(inode@));
            assert(e.inodes.take(k + 1).drop_last() =~= e.inodes.take(k as int));
            assert(e.inodes.take(k + 1).last() == inode@);
            assert(w@ =~= head + encode_inodes(e.inodes.take(k + 1)));
        }
        k = k + 1;
    }
    proof {
        assert(e.inodes.take(k as int) =~= e.inodes);
    }
    let mut number: Vec<u8> = u32_to_le_bytes(entry.enode.payload.len() as u32);
    w.append(&mut number);
    w.extend_from_slice(entry.enode.payload.as_slice());
    w.extend_from_slice(entry.enode.meta.hash.value.as_slice());
    proof {
        assert(w@ =~= encode_body(e));
    }
    let offset: u32 = (w.len() + 12) as u32;
    let sum: u64 = checksum(w.as_slice());
    let mut number: Vec<u8> = u32_to_le_bytes(offset);
    w.append(&mut number);
    let mut number: Vec<u8> = u64_to_le_bytes(sum);
    w.append(&mut number);
    proof {
        assert(w@ =~= encode(e));
    }
    w
}

/// An entry as it was read, and its trailer: the recorded length and checksum, and the actual ones.
pub(crate) struct Parsed {
    pub entry: Entry,
    pub offset: u32,
    pub size: usize,
    pub recorded: u64,
    pub actual: u64,
}

/// Reads the entry that the bytes start with and that stands at the given position, whatever its
/// trailer says.
pub(crate) fn parse_entry(bytes: &[u8], position: Position) -> (r: Result<Parsed>)
    ensures
        r is Ok <==> complete(bytes@) && heights_fit(bytes@),
        r matches Ok(p) ==> {
            let t = bytes@;
            &&& p.entry@ == entry_in(t, position)
            &&& p.offset == u32_at(t, trailer_at(t))
            &&& p.size == end_at(t)
            &&& p.recorded == u64_at(t, trailer_at(t) + 4)
            &&& p.actual == hash::highway_of(t.take(trailer_at(t)))
        },
        r matches Err(error) ==> if complete(bytes@) {
            is_out_of_range(error)
        } else {
            is_short(error)
        },
{
    let ghost t = bytes@;
    if bytes.len() < 9 {
        return Err(short());
    }
    let i: u64 = read_u64(bytes);
    proof {
        assert(t.take(8) =~= t.subrange(0, 8));
    }
    let count: usize = bytes[8] as usize;
    let length_at: usize = 9 + 50 * count;
    if bytes.len() < length_at + 4 {
        return Err(short());
    }
    let part: &[u8] = vstd::slice::slice_subrange(bytes, length_at, length_at + 4);
    proof {
        assert(part@.take(4) =~= t.subrange(length_at as int, length_at + 4));
    }
    let payload_len: u32 = read_u32(part);
    if bytes.len() - length_at < 48usize || (bytes.len() - length_at - 48) < payload_len as usize {
        proof {
            assert(end_at(t) == length_at + 4 + payload_len + 44);
        }
        return Err(short());
    }
    let payload_at: usize = length_at + 4;
    let hash_at: usize = payload_at + payload_len as usize;
    let trailer_at: usize = hash_at + 32;
    proof {
        assert(trailer_at == self::trailer_at(t));
    }
    let inodes: Vec<INode> = parse_inodes(bytes, position, i, count)?;
    let part: &[u8] = vstd::slice::slice_subrange(bytes, trailer_at, trailer_at + 4);
    proof {
        assert(part@.take(4) =~= t.subrange(trailer_at as int, trailer_at + 4));
    }
    let offset: u32 = read_u32(part);
    let part: &[u8] = vstd::slice::slice_subrange(bytes, trailer_at + 4, trailer_at + 12);
    proof {
        assert(part@.take(8) =~= t.subrange(trailer_at + 4, trailer_at + 12));
    }
    let recorded: u64 = read_u64(part);
    let body: &[u8] = vstd::slice::slice_subrange(bytes, 0, trailer_at);
    proof {
        assert(body@ =~= t.take(trailer_at as int));
    }
    let actual: u64 = checksum(body);
    let payload: Vec<u8> = vstd::slice::slice_to_vec(
        vstd::slice::slice_subrange(bytes, payload_at, hash_at),
    );
    let hash = crate::Hash::from_slice(vstd::slice::slice_subrange(bytes, hash_at, trailer_at));
    let meta = MetaInfo::new(Address::new(i, 0, position), hash);
    let entry = Entry { enode: ENode::new(meta, payload), inodes };
    proof {
        assert(entry@.inodes =~= entry_in(t, position).inodes);
    }
    Ok(Parsed { entry, offset, size: trailer_at + 12, recorded, actual })
}

/// Reads the intermediate nodes of the entry that the bytes start with.
fn parse_inodes(bytes: &[u8], position: Position, i: u64, count: usize) -> (r: Result<Vec<INode>>)
    requires
        complete(bytes@),
        count == bytes@[8],
        i == u64_at(bytes@, 0),
    ensures
        r is Ok <==> heights_fit(bytes@),
        r matches Ok(inodes) ==> inodes@.len() == count && forall|x: int|
            0 <= x < count ==> #[trigger] inodes@[x]@ == inode_in(bytes@, position, x),
        r matches Err(error) ==> is_out_of_range(error),
{
    let ghost t = bytes@;
    let mut inodes: Vec<INode> = Vec::with_capacity(count);
    let mut right_j: u8 = 0;
    let mut k: usize = 0;
    while k < count
        invariant
            k <= count,
            count == t[8],
            t == bytes@,
            9 + 50 * count <= t.len(),
            i == u64_at(t, 0),
            right_j == (if k == 0 {
                0
            } else {
                (t[record_at(k - 1)] + 1) as u8
            }),
            forall|x: int| 0 <= x < k ==> t[#[trigger] record_at(x)] < 255,
            inodes@.len() == k,
            forall|x: int| 0 <= x < k ==> #[trigger] inodes@[x]@ == inode_in(t, position, x),
        decreases count - k,
    {
        let at: usize = 9 + 50 * k;
        proof {
            assert(at == record_at(k as int));
        }
        if bytes[at] == 255 {
            proof {
                assert(t[record_at(k as int)] == 255);
            }
            return Err(
                Error::DamagedStorage(
                    "the height of an intermediate node is out of range".to_owned(),
                ),
            );
        }
        let j: u8 = bytes[at] + 1;
        let part: &[u8] = vstd::slice::slice_subrange(bytes, at + 1, at + 9);
        proof {
            assert(part@.take(8) =~= t.subrange(at + 1, at + 9));
        }
        let left_position: u64 = read_u64(part);
        let part: &[u8] = vstd::slice::slice_subrange(bytes, at + 9, at + 17);
        proof {
            assert(part@.take(8) =~= t.subrange(at + 9, at + 17));
        }
        let left_i: u64 = read_u64(part);
        let left_j: u8 = bytes[at + 17];
        let hash = crate::Hash::from_slice(
            vstd::slice::slice_subrange(bytes, at + 18, at + 50),
        );
        let meta = MetaInfo::new(Address::new(i, j, position), hash);
        let left = Address::new(left_i, left_j, left_position);
        let right = Address::new(i, right_j, position);
        inodes.push(INode::new(meta, left, right));
        right_j = j;
        k = k + 1;
    }
    Ok(inodes)
}

/// Reads the entry that the bytes start with and that stands at the given position.
pub(crate) fn read_entry_from(bytes: &[u8], position: Position) -> (r: Result<Entry>)
    ensures
        r is Ok <==> readable(bytes@),
        r matches Ok(entry) ==> entry@ == entry_in(bytes@, position),
        r matches Err(error) ==> unreadable(bytes@, position, error),
{
    let parsed: Parsed = parse_entry(bytes, position)?;
    if parsed.offset as usize != parsed.size {
        let actual: u32 = if parsed.size <= 0xFFFF_FFFFusize {
            parsed.size as u32
        } else {
            0xFFFF_FFFF
        };
        return Err(Error::IncorrectEntryHeadOffset { expected: parsed.offset, actual });
    }
    if parsed.recorded != parsed.actual {
        return Err(
            Error::ChecksumVerificationFailed {
                at: position,
                length: (parsed.size - 12) as u32,
                expected: parsed.recorded,
                actual: parsed.actual,
            },
        );
    }
    Ok(parsed.entry)
}

impl Entry {
    /// The serialized form of the entry.
    pub fn write(&self) -> (r: Vec<u8>)
        requires
            self.enode.payload@.len() <= MAX_PAYLOAD_SIZE,
            self.inodes@.len() <= 255,
            forall|k: int|
                0 <= k < self.inodes@.len() ==> (#[trigger] self.inodes@[k]).meta.address.j >= 1,
        ensures
            r@ == encode(self@),
            r@.len() == ledger::size_of(self@),
    {
        proof {
            assert forall|k: int| 0 <= k < self@.inodes.len() implies (
            #[trigger] self@.inodes[k]).meta.address.j >= 1 && self@.inodes[k].meta.hash.len()
                == 32 by {
                assert(self@.inodes[k] == self.inodes@[k]@);
            }
        }
        write_entry_to(self)
    }

    /// The entry that the bytes start with and that stands at the given position.
    pub fn read(bytes: &[u8], position: Position) -> (r: Result<Entry>)
        ensures
            r is Ok <==> readable(bytes@),
            r matches Ok(entry) ==> entry@ == entry_in(bytes@, position),
            r matches Err(error) ==> unreadable(bytes@, position, error),
    {
        read_entry_from(bytes, position)
    }
}

/// There were fewer bytes than were to be read.
pub(crate) fn short() -> (r: Error)
    ensures
        is_short(r),
{
    Error::Io { message: "failed to fill whole buffer".to_owned() }
}

/// Every field of an entry has its place in the serialized form: the index, the number of
/// intermediate nodes and 50 bytes for each of them, the length of the payload, the payload, the
/// hash value of the leaf, the length of the whole, and the checksum of all before the length.
pub proof fn law_layout(e: EntryModel)
    requires
        writable(e),
    ensures
        ({
            let b = encode(e);
            let c = e.inodes.len() as int;
            let p = e.payload.len() as int;
            let l = 9 + 50 * c;
            let end = l + 4 + p + 32;
            &&& b.len() == end + 12
            &&& spec_u64_from_le_bytes(b.subrange(0, 8)) == e.meta.address.i
            &&& b[8] == c
            &&& forall|k: int|
                0 <= k < c ==> {
                    let n = #[trigger] e.inodes[k];
                    let at = 9 + 50 * k;
                    &&& b[at] == n.meta.address.j - 1
                    &&& spec_u64_from_le_bytes(b.subrange(at + 1, at + 9)) == n.left.position
                    &&& spec_u64_from_le_bytes(b.subrange(at + 9, at + 17)) == n.left.i
                    &&& b[at + 17] == n.left.j
                    &&& b.subrange(at + 18, at + 50) == n.meta.hash
                }
            &&& spec_u32_from_le_bytes(b.subrange(l, l + 4)) == p
            &&& b.subrange(l + 4, l + 4 + p) == e.payload
            &&& b.subrange(l + 4 + p, end) == e.meta.hash
            &&& spec_u32_from_le_bytes(b.subrange(end, end + 4)) == b.len()
            &&& spec_u64_from_le_bytes(b.subrange(end + 4, end + 12)) == hash::highway_of(
                b.take(end),
            )
        }),
{
    lemma_auto_spec_u64_to_from_le_bytes();
    lemma_auto_spec_u32_to_from_le_bytes();
    lemma_encode_len(e);
    lemma_records(e.inodes);
    let b = encode(e);
    let c = e.inodes.len() as int;
    let p = e.payload.len() as int;
    let l = 9 + 50 * c;
    let end = l + 4 + p + 32;
    let records = encode_inodes(e.inodes);
    let body = encode_body(e);
    assert(b.subrange(0, 8) =~= spec_u64_to_le_bytes(e.meta.address.i));
    assert(b.subrange(9, l) =~= records);
    assert forall|k: int| 0 <= k < c implies {
        let n = #[trigger] e.inodes[k];
        let at = 9 + 50 * k;
        &&& b[at] == n.meta.address.j - 1
        &&& spec_u64_from_le_bytes(b.subrange(at + 1, at + 9)) == n.left.position
        &&& spec_u64_from_le_bytes(b.subrange(at + 9, at + 17)) == n.left.i
        &&& b[at + 17] == n.left.j
        &&& b.subrange(at + 18, at + 50) == n.meta.hash
    } by {
        let n = e.inodes[k];
        let at = 9 + 50 * k;
        let own = encode_inode(n);
        assert(own.len() == 50);
        assert(records.subrange(50 * k, 50 * k + 50) == own);
        assert(b.subrange(at, at + 50) =~= own) by {
            assert(b.subrange(at, at + 50) =~= b.subrange(9, l).subrange(50 * k, 50 * k + 50));
        }
        assert(b[at] == b.subrange(at, at + 50)[0]);
        assert(b[at + 17] == b.subrange(at, at + 50)[17]);
        assert(b.subrange(at + 1, at + 9) =~= own.subrange(1, 9));
        assert(own.subrange(1, 9) =~= spec_u64_to_le_bytes(n.left.position));
        assert(b.subrange(at + 9, at + 17) =~= own.subrange(9, 17));
        assert(own.subrange(9, 17) =~= spec_u64_to_le_bytes(n.left.i));
        assert(b.subrange(at + 18, at + 50) =~= own.subrange(18, 50));
        assert(own.subrange(18, 50) =~= n.meta.hash);
    }
    assert(b.subrange(l, l + 4) =~= spec_u32_to_le_bytes(p as u32));
    assert(b.subrange(l + 4, l + 4 + p) =~= e.payload);
    assert(b.subrange(l + 4 + p, end) =~= e.meta.hash);
    assert(b.subrange(end, end + 4) =~= spec_u32_to_le_bytes((body.len() + 12) as u32));
    assert(b.subrange(end + 4, end + 12) =~= spec_u64_to_le_bytes(hash::highway_of(body)));
    assert(b.take(end) =~= body);
}

/// An entry is read exactly where the bytes do not end before it, no height is out of range, the
/// recorded length is that of the entry, and the recorded checksum is the HighwayHash of all bytes
/// of the entry before its trailer, whatever the length.
pub proof fn law_reading_is_checked(t: Seq<u8>)
    ensures
        ({
            let l = 9 + 50 * t[8];
            let p = spec_u32_from_le_bytes(t.subrange(l, l + 4));
            let x = l + 4 + p + 32;
            readable(t) <==> {
                &&& t.len() >= 9
                &&& t.len() >= l + 4
                &&& t.len() >= x + 12
                &&& forall|k: int| #![trigger t[9 + 50 * k]] 0 <= k < t[8] ==> t[9 + 50 * k] < 255
                &&& spec_u32_from_le_bytes(t.subrange(x, x + 4)) == x + 12
                &&& spec_u64_from_le_bytes(t.subrange(x + 4, x + 12)) == hash::highway_of(t.take(x))
            }
        }),
{
    assert(heights_fit(t) <==> forall|k: int|
        #![trigger t[9 + 50 * k]]
        0 <= k < t[8] ==> t[9 + 50 * k] < 255) by {
        if heights_fit(t) {
            assert forall|k: int| #![trigger t[9 + 50 * k]] 0 <= k < t[8] implies t[9 + 50 * k]
                < 255 by {
                assert(t[record_at(k)] < 255);
            }
        }
        if forall|k: int| #![trigger t[9 + 50 * k]] 0 <= k < t[8] ==> t[9 + 50 * k] < 255 {
            assert forall|k: int| 0 <= k < t[8] implies t[#[trigger] record_at(k)] < 255 by {
                assert(t[9 + 50 * k] < 255);
            }
        }
    }
}

/// What is read of bytes that hold an entry: every field stands at its place, and what is not
/// written follows from the position and the order of the nodes.
pub proof fn law_reading(t: Seq<u8>, position: u64)
    requires
        readable(t),
    ensures
        ({
            let e = entry_in(t, position);
            let c = t[8] as int;
            let l = 9 + 50 * c;
            let p = spec_u32_from_le_bytes(t.subrange(l, l + 4));
            let i = spec_u64_from_le_bytes(t.subrange(0, 8));
            &&& end_at(t) == l + 4 + p + 44
            &&& e.meta.address == (Address { i, j: 0, position })
            &&& e.meta.hash == t.subrange(l + 4 + p, l + 4 + p + 32)
            &&& e.payload == t.subrange(l + 4, l + 4 + p)
            &&& e.inodes.len() == c
            &&& forall|k: int|
                0 <= k < c ==> {
                    let n = #[trigger] e.inodes[k];
                    let at = 9 + 50 * k;
                    &&& n.meta.address.i == i
                    &&& n.meta.address.j == t[at] + 1
                    &&& n.meta.address.position == position
                    &&& n.meta.hash == t.subrange(at + 18, at + 50)
                    &&& n.left.position == spec_u64_from_le_bytes(t.subrange(at + 1, at + 9))
                    &&& n.left.i == spec_u64_from_le_bytes(t.subrange(at + 9, at + 17))
                    &&& n.left.j == t[at + 17]
                    &&& n.right.i == i
                    &&& n.right.position == position
                    &&& k == 0 ==> n.right.j == 0
                    &&& k > 0 ==> n.right.j == t[at - 50] + 1
                }
        }),
{
    let e = entry_in(t, position);
    assert forall|k: int| 0 <= k < t[8] implies {
        let n = #[trigger] e.inodes[k];
        let at = 9 + 50 * k;
        &&& n.meta.address.j == t[at] + 1
        &&& k > 0 ==> n.right.j == t[at - 50] + 1
    } by {
        assert(t[record_at(k)] < 255);
        if k > 0 {
            assert(t[record_at(k - 1)] < 255);
        }
    }
}

/// Bytes of the length of a stored entry and with its trailer that are read as an entry of that
/// length are the stored ones, or two different messages have the same checksum.
pub proof fn law_damage_is_noticed(e: EntryModel, t: Seq<u8>)
    requires
        writable(e),
        t.len() == encode(e).len(),
        t.skip(t.len() - 12) == encode(e).skip(t.len() - 12),
        readable(t),
        9 + 50 * t[8] + 4 + spec_u32_from_le_bytes(
            t.subrange(9 + 50 * t[8], 9 + 50 * t[8] + 4),
        ) + 44 == t.len(),
    ensures
        t == encode(e) || (t.take(t.len() - 12) != encode(e).take(t.len() - 12) && hash::highway_of(
            t.take(t.len() - 12),
        ) == hash::highway_of(encode(e).take(t.len() - 12))),
{
    law_layout(e);
    law_reading_is_checked(t);
    let b = encode(e);
    let x = t.len() - 12;
    assert(t.subrange(x + 4, x + 12) =~= t.skip(x).subrange(4, 12));
    assert(b.subrange(x + 4, x + 12) =~= b.skip(x).subrange(4, 12));
    if t.take(x) == b.take(x) {
        assert(t =~= t.take(x) + t.skip(x));
        assert(b =~= b.take(x) + b.skip(x));
    }
}

/// With which error bytes are refused that hold no entry: there are too few of them, a height is out
/// of range, the recorded length is another, or the recorded checksum is.
pub proof fn law_refusal(t: Seq<u8>, position: u64, error: Error)
    requires
        unreadable(t, position, error),
        !readable(t),
    ensures
        ({
            let l = 9 + 50 * t[8];
            let p = spec_u32_from_le_bytes(t.subrange(l, l + 4));
            let x = l + 4 + p + 32;
            if t.len() < 9 || t.len() < l + 4 || t.len() < x + 12 {
                error is Io
            } else if exists|k: int| #![trigger t[9 + 50 * k]] 0 <= k < t[8] && t[9 + 50 * k] == 255 {
                error is DamagedStorage
            } else if spec_u32_from_le_bytes(t.subrange(x, x + 4)) != x + 12 {
                error matches Error::IncorrectEntryHeadOffset { expected, actual } && expected
                    == spec_u32_from_le_bytes(t.subrange(x, x + 4)) && (x + 12 <= u32::MAX
                    ==> actual == x + 12)
            } else {
                error matches Error::ChecksumVerificationFailed {
                    at,
                    length,
                    expected,
                    actual,
                } && at == position && length == x && expected == spec_u64_from_le_bytes(
                    t.subrange(x + 4, x + 12),
                ) && actual == hash::highway_of(t.take(x)) && expected != actual
            }
        }),
{
    law_reading_is_checked(t);
    if exists|k: int| #![trigger t[9 + 50 * k]] 0 <= k < t[8] && t[9 + 50 * k] == 255 {
        let k = choose|k: int| #![trigger t[9 + 50 * k]] 0 <= k < t[8] && t[9 + 50 * k] == 255;
        assert(t[record_at(k)] == 255);
    } else {
        assert forall|k: int| 0 <= k < t[8] implies t[#[trigger] record_at(k)] < 255 by {
            assert(t[9 + 50 * k] != 255);
        }
    }
}

} // verus!
