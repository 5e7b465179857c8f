//! Stored bytes in a form for people to read.
use crate::block;
use crate::block::{is_version_compatible, STORAGE_IDENTIFIER};
use crate::entry::{Entry, EntryModel, INode, INodeModel};
use crate::error::{Error, Result};
use crate::hash;
use crate::ledger;
use crate::model;
use crate::nodes;
use crate::serialize;
use crate::text;
use std::collections::HashMap;
use vstd::prelude::*;

verus! {

broadcast use vstd::std_specs::hash::group_hash_axioms;

/// The mark for a test.
pub open spec fn mark(passed: bool) -> Seq<char> {
    if passed {
        "✔"@
    } else {
        "❌"@
    }
}

/// Puts the mark for a test behind the text.
fn push_mark(text: &mut String, passed: bool)
    ensures
        final(text)@ == old(text)@ + mark(passed),
{
    if passed {
        text::push_text(text, "✔");
    } else {
        text::push_text(text, "❌");
    }
}

/// The last of the nodes with the height.
pub open spec fn last_with(inodes: Seq<INodeModel>, j: u8) -> Option<Seq<u8>>
    decreases inodes.len(),
{
    if inodes.len() == 0 {
        None
    } else if inodes.last().meta.address.j == j {
        Some(inodes.last().meta.hash)
    } else {
        last_with(inodes.drop_last(), j)
    }
}

/// The position of the latest of the entries with the index.
pub open spec fn position_known(seen: Seq<EntryModel>, i: u64) -> Option<u64>
    decreases seen.len(),
{
    if seen.len() == 0 {
        None
    } else if seen.last().meta.address.i == i {
        Some(seen.last().meta.address.position)
    } else {
        position_known(seen.drop_last(), i)
    }
}

/// The hash value of the node `b_{i,j}` in the latest of the entries that has it.
pub open spec fn hash_known(seen: Seq<EntryModel>, i: u64, j: u8) -> Option<Seq<u8>>
    decreases seen.len(),
{
    if seen.len() == 0 {
        None
    } else if seen.last().meta.address.i == i && j == 0 {
        Some(seen.last().meta.hash)
    } else if seen.last().meta.address.i == i && last_with(seen.last().inodes, j) is Some {
        last_with(seen.last().inodes, j)
    } else {
        hash_known(seen.drop_last(), i, j)
    }
}

/// The text for a hash value, or none.
pub open spec fn hash_text(hash: Option<Seq<u8>>) -> Seq<char> {
    match hash {
        Some(bytes) => text::hex_of(bytes),
        None => seq![],
    }
}

/// The hash value of two hash values that are both known.
pub open spec fn combined(j: u8, left: Option<Seq<u8>>, right: Option<Seq<u8>>) -> Option<
    Seq<u8>,
> {
    match (left, right) {
        (Some(l), Some(r)) => Some(hash::digest(j, l + r)),
        _ => None,
    }
}

/// The lines on an intermediate node. Its left child has to stand where the node says. Its hash
/// value is held against that of its children at the height of the left one.
pub open spec fn inode_lines(seen: Seq<EntryModel>, n: INodeModel) -> Seq<Seq<char>> {
    let i = n.meta.address.i;
    let left = hash_known(seen, n.left.i, n.left.j);
    let right = hash_known(seen, i, n.right.j);
    let own = combined(n.left.j, left, right);
    seq![
        "INODE: ("@ + text::decimal_of(i as nat) + ", "@ + text::decimal_of(
            n.meta.address.j as nat,
        ) + ")"@,
        "  LEFT : ("@ + text::decimal_of(n.left.i as nat) + ", "@ + text::decimal_of(
            n.left.j as nat,
        ) + ") @"@ + text::decimal_of(n.left.position as nat) + " "@ + mark(
            position_known(seen, n.left.i) == Some(n.left.position),
        ),
        "  RIGHT: ("@ + text::decimal_of(i as nat) + ", "@ + text::decimal_of(n.right.j as nat)
            + ") @"@ + text::decimal_of(n.meta.address.position as nat) + " "@ + mark(
            n.right.j == 0 || position_known(seen, i) == Some(n.meta.address.position),
        ),
        "  HASH : "@ + text::hex_of(n.meta.hash) + " (32 bytes) "@ + mark(
            own == Some(n.meta.hash),
        ) + (if own == Some(n.meta.hash) {
            seq![]
        } else {
            "; hash("@ + hash_text(left) + " || "@ + hash_text(right) + ") = "@ + hash_text(own)
        }),
    ]
}

/// The lines on the first of the intermediate nodes.
pub open spec fn inodes_lines(seen: Seq<EntryModel>, inodes: Seq<INodeModel>) -> Seq<Seq<char>>
    decreases inodes.len(),
{
    if inodes.len() == 0 {
        seq![]
    } else {
        inodes_lines(seen, inodes.drop_last()) + inode_lines(seen, inodes.last())
    }
}

/// A payload in hexadecimal; of a long one the beginning and the end.
pub open spec fn payload_text(payload: Seq<u8>) -> Seq<char> {
    let full = text::hex_of(payload);
    if full.len() > 64 {
        full.take(32) + "..."@ + full.skip(full.len() - 32)
    } else {
        full
    }
}

/// The lines on the entry that the bytes start with, after those seen before.
pub open spec fn entry_lines(before: Seq<EntryModel>, t: Seq<u8>, position: u64) -> Seq<
    Seq<char>,
> {
    let e = serialize::entry_in(t, position);
    let seen = before.push(e);
    let i = e.meta.address.i;
    let at = serialize::trailer_at(t);
    seq![
        "--------"@,
        "ENTRY: "@ + text::decimal_of(i as nat) + " @"@ + text::decimal_of(position as nat),
    ] + inodes_lines(seen, e.inodes) + seq![
        "ENODE: ("@ + text::decimal_of(i as nat) + ", 0)"@,
        "  PAYLOAD: "@ + payload_text(e.payload) + " ("@ + text::decimal_of(e.payload.len())
            + " bytes) "@ + mark(true),
        "  HASH   : "@ + text::hex_of(e.meta.hash) + " (32 bytes) "@ + mark(
            hash::digest(0, e.payload) == e.meta.hash,
        ),
        "OFFSET   : "@ + text::decimal_of(serialize::u32_at(t, at) as nat) + " "@ + mark(
            serialize::u32_at(t, at) == serialize::end_at(t),
        ),
        "CHECKSUM : "@ + text::hex_of(
            vstd::bytes::spec_u64_to_le_bytes(serialize::u64_at(t, at + 4)),
        ) + " "@ + mark(serialize::u64_at(t, at + 4) == hash::highway_of(t.take(at))),
    ]
}

/// Whether the bytes at the position start with a complete entry.
pub open spec fn legible(b: Seq<u8>, position: nat) -> bool {
    let t = b.skip(position as int);
    serialize::complete(t) && serialize::heights_fit(t)
}

/// The lines on all entries from the position on, up to one that is not complete.
pub open spec fn entries_lines(b: Seq<u8>, position: nat, before: Seq<EntryModel>) -> Seq<
    Seq<char>,
>
    decreases b.len() - position,
{
    if position >= b.len() || !legible(b, position) {
        seq![]
    } else {
        let t = b.skip(position as int);
        entry_lines(before, t, position as u64) + entries_lines(
            b,
            position + serialize::end_at(t) as nat,
            before.push(serialize::entry_in(t, position as u64)),
        )
    }
}

/// Whether all entries from the position on are complete.
pub open spec fn all_legible(b: Seq<u8>, position: nat) -> bool
    decreases b.len() - position,
{
    position >= b.len() || (legible(b, position) && all_legible(
        b,
        position + serialize::end_at(b.skip(position as int)) as nat,
    ))
}

/// Where the first entry is that is not complete, from the position on; the end where there is none.
pub open spec fn stop(b: Seq<u8>, position: nat) -> nat
    decreases b.len() - position,
{
    if position >= b.len() || !legible(b, position) {
        position
    } else {
        stop(b, position + serialize::end_at(b.skip(position as int)) as nat)
    }
}

/// The lines on the identifier and the version.
pub open spec fn header_lines(b: Seq<u8>) -> Seq<Seq<char>> {
    seq![
        "IDENTIFIER: "@ + text::hex_of(b.take(3)) + " "@ + mark(b.take(3) == STORAGE_IDENTIFIER@),
        "VERSION   : "@ + text::decimal_of(b[3] as nat / 16) + "."@ + text::decimal_of(
            b[3] as nat % 16,
        ) + " "@ + mark(block::compatible(b[3])),
    ]
}

/// The lines of a report on the bytes.
pub open spec fn report_lines(b: Seq<u8>) -> Seq<Seq<char>> {
    if b.len() < 4 {
        seq![]
    } else {
        header_lines(b) + entries_lines(b, 4, seq![])
    }
}

/// The texts of the lines.
pub open spec fn texts(lines: Seq<String>) -> Seq<Seq<char>> {
    lines.map_values(|l: String| l@)
}

/// Puts a line behind the others.
fn push_line(lines: &mut Vec<String>, line: String)
    ensures
        texts(final(lines)@) == texts(old(lines)@).push(line@),
{
    lines.push(line);
    proof {
        assert(texts(lines@) =~= texts(old(lines)@).push(line@));
    }
}

/// The key for the node `b_{i,j}`.
spec fn key_of(i: u64, j: u8) -> u128 {
    (i * 256 + j) as u128
}

/// What was read so far: the position of every index, and the hash value of every node.
struct Known {
    positions: HashMap<u64, u64>,
    hashes: HashMap<u128, crate::Hash>,
}

impl Known {
    /// Whether this is what the entries tell.
    spec fn tells(&self, seen: Seq<EntryModel>) -> bool {
        &&& forall|i: u64|
            position_known(seen, i) == (if #[trigger] self.positions@.contains_key(i) {
                Some(self.positions@[i])
            } else {
                None
            })
        &&& forall|i: u64, j: u8| #[trigger]
            hash_known(seen, i, j) == (if self.hashes@.contains_key(key_of(i, j)) {
                Some(self.hashes@[key_of(i, j)]@)
            } else {
                None
            })
    }

    fn new() -> (r: Self)
        ensures
            r.tells(seq![]),
    {
        Known { positions: HashMap::new(), hashes: HashMap::new() }
    }

    fn position(&self, i: u64) -> (r: Option<u64>)
        ensures
            forall|seen: Seq<EntryModel>| #[trigger] self.tells(seen) ==> r == position_known(
                seen,
                i,
            ),
    {
        match self.positions.get(&i) {
            Some(position) => Some(*position),
            None => None,
        }
    }

    fn hash(&self, i: u64, j: u8) -> (r: Option<crate::Hash>)
        ensures
            forall|seen: Seq<EntryModel>| #[trigger]
                self.tells(seen) ==> view_of(r) == hash_known(seen, i, j),
    {
        let key: u128 = (i as u128) * 256 + (j as u128);
        proof {
            assert(key == key_of(i, j));
        }
        match self.hashes.get(&key) {
            Some(hash) => Some(*hash),
            None => None,
        }
    }

    /// Takes in one more entry.
    fn learn(&mut self, entry: &Entry)
        requires
            forall|k: int|
                0 <= k < entry@.inodes.len() ==> (#[trigger] entry@.inodes[k]).meta.address.j >= 1
                    && entry@.inodes[k].meta.address.i == entry@.meta.address.i,
        ensures
            forall|seen: Seq<EntryModel>| #[trigger]
                old(self).tells(seen) ==> final(self).tells(seen.push(entry@)),
    {
        let i: u64 = entry.enode.meta.address.i;
        let ghost e = entry@;
        let ghost positions = self.positions@;
        let ghost hashes = self.hashes@;
        self.positions.insert(i, entry.enode.meta.address.position);
        let mut k: usize = 0;
        proof {
            assert(e.inodes.take(0) =~= seq![]);
        }
        while k < entry.inodes.len()
            invariant
                k <= entry.inodes@.len(),
                e == entry@,
                i == e.meta.address.i,
                forall|k: int|
                    0 <= k < e.inodes.len() ==> (#[trigger] e.inodes[k]).meta.address.j >= 1
                        && e.inodes[k].meta.address.i == i,
                self.positions@ == positions.insert(i, e.meta.address.position),
                forall|a: u64, b: u8|
                    #![trigger key_of(a, b)]
                    if a == i && last_with(e.inodes.take(k as int), b) is Some {
                        self.hashes@.contains_key(key_of(a, b)) && Some(
                            self.hashes@[key_of(a, b)]@,
                        ) == last_with(e.inodes.take(k as int), b)
                    } else {
                        &&& self.hashes@.contains_key(key_of(a, b)) <==> hashes.contains_key(
                            key_of(a, b),
                        )
                        &&& hashes.contains_key(key_of(a, b)) ==> self.hashes@[key_of(a, b)]
                            == hashes[key_of(a, b)]
                    },
            decreases entry.inodes@.len() - k,
        {
            let j: u8 = entry.inodes[k].meta.address.j;
            let key: u128 = (i as u128) * 256 + (j as u128);
            let ghost step = self.hashes@;
            self.hashes.insert(key, entry.inodes[k].meta.hash);
            proof {
                assert(e.inodes[k as int] == entry.inodes@[k as int]@);
                assert(key == key_of(i, j));
                let low = e.inodes.take(k as int);
                let more = e.inodes.take(k + 1);
                assert(more.drop_last() =~= low);
                assert(more.last() == e.inodes[k as int]);
                assert forall|a: u64, b: u8| #![trigger key_of(a, b)] key_of(a, b) == key implies a
                    == i && b == j by {
                }
            }
            k = k + 1;
        }
        let ghost step = self.hashes@;
        let key: u128 = (i as u128) * 256;
        self.hashes.insert(key, entry.enode.meta.hash);
        proof {
            assert(key == key_of(i, 0));
            assert(e.inodes.take(k as int) =~= e.inodes);
            lemma_no_leaf_inode(e.inodes);
            assert forall|seen: Seq<EntryModel>| #[trigger]
                old(self).tells(seen) implies self.tells(seen.push(e)) by {
                let more = seen.push(e);
                assert(more.drop_last() =~= seen);
                assert(more.last() == e);
                assert forall|a: u64|
                    position_known(more, a) == (if #[trigger] self.positions@.contains_key(a) {
                        Some(self.positions@[a])
                    } else {
                        None
                    }) by {
                    assert(position_known(seen, a) == (if positions.contains_key(a) {
                        Some(positions[a])
                    } else {
                        None
                    }));
                }
                assert forall|a: u64, b: u8| #[trigger]
                    hash_known(more, a, b) == (if self.hashes@.contains_key(key_of(a, b)) {
                        Some(self.hashes@[key_of(a, b)]@)
                    } else {
                        None
                    }) by {
                    assert(hash_known(seen, a, b) == (if hashes.contains_key(key_of(a, b)) {
                        Some(hashes[key_of(a, b)]@)
                    } else {
                        None
                    }));
                    if key_of(a, b) == key {
                        assert(a == i && b == 0);
                    } else {
                        assert(step.contains_key(key_of(a, b)) <==> self.hashes@.contains_key(
                            key_of(a, b),
                        ));
                    }
                }
            }
        }
    }
}

/// No intermediate node has the height of a leaf.
proof fn lemma_no_leaf_inode(inodes: Seq<INodeModel>)
    requires
        forall|k: int| 0 <= k < inodes.len() ==> (#[trigger] inodes[k]).meta.address.j >= 1,
    ensures
        last_with(inodes, 0) is None,
    decreases inodes.len(),
{
    if inodes.len() > 0 {
        assert(inodes[inodes.len() - 1].meta.address.j >= 1);
        assert forall|k: int| 0 <= k < inodes.drop_last().len() implies (
        #[trigger] inodes.drop_last()[k]).meta.address.j >= 1 by {
            assert(inodes.drop_last()[k] == inodes[k]);
        }
        lemma_no_leaf_inode(inodes.drop_last());
    }
}

/// A hash value as a sequence of bytes.
pub open spec fn view_of(hash: Option<crate::Hash>) -> Option<Seq<u8>> {
    match hash {
        Some(h) => Some(h@),
        None => None,
    }
}

/// Puts a hash value behind the text, if there is one.
fn push_hash(text: &mut String, hash: Option<crate::Hash>)
    ensures
        final(text)@ == old(text)@ + hash_text(view_of(hash)),
{
    match hash {
        Some(h) => text::push_text(text, h.to_str().as_str()),
        None => {
            proof {
                assert(text@ + seq![] =~= text@);
            }
        },
    }
}

/// Puts the lines on an intermediate node behind the others.
fn report_inode(lines: &mut Vec<String>, known: &Known, inode: &INode, Ghost(seen): Ghost<Seq<EntryModel>>)
    requires
        known.tells(seen),
    ensures
        texts(final(lines)@) == texts(old(lines)@) + inode_lines(seen, inode@),
{
    let i: u64 = inode.meta.address.i;
    let mut line = String::new();
    text::push_text(&mut line, "INODE: (");
    text::push_decimal(&mut line, i);
    text::push_text(&mut line, ", ");
    text::push_decimal(&mut line, inode.meta.address.j as u64);
    text::push_text(&mut line, ")");
    let ghost want = inode_lines(seen, inode@);
    proof {
        assert(line@ =~= want[0]);
    }
    push_line(lines, line);
    let mut line = String::new();
    text::push_text(&mut line, "  LEFT : (");
    text::push_decimal(&mut line, inode.left.i);
    text::push_text(&mut line, ", ");
    text::push_decimal(&mut line, inode.left.j as u64);
    text::push_text(&mut line, ") @");
    text::push_decimal(&mut line, inode.left.position);
    text::push_text(&mut line, " ");
    push_mark(
        &mut line,
        match known.position(inode.left.i) {
            Some(position) => position == inode.left.position,
            None => false,
        },
    );
    proof {
        assert(line@ =~= want[1]);
    }
    push_line(lines, line);
    let mut line = String::new();
    text::push_text(&mut line, "  RIGHT: (");
    text::push_decimal(&mut line, i);
    text::push_text(&mut line, ", ");
    text::push_decimal(&mut line, inode.right.j as u64);
    text::push_text(&mut line, ") @");
    text::push_decimal(&mut line, inode.meta.address.position);
    text::push_text(&mut line, " ");
    push_mark(
        &mut line,
        inode.right.j == 0 || match known.position(i) {
            Some(position) => position == inode.meta.address.position,
            None => false,
        },
    );
    proof {
        assert(line@ =~= want[2]);
    }
    push_line(lines, line);
    let left: Option<crate::Hash> = known.hash(inode.left.i, inode.left.j);
    let right: Option<crate::Hash> = known.hash(i, inode.right.j);
    let own: Option<crate::Hash> = match left {
        Some(l) => match right {
            Some(r) => Some(l.combine(inode.left.j, &r)),
            None => None,
        },
        None => None,
    };
    let passed: bool = match own {
        Some(h) => {
            proof {
                hash::lemma_same_bytes(h, inode.meta.hash);
            }
            h == inode.meta.hash
        },
        None => false,
    };
    let mut line = String::new();
    text::push_text(&mut line, "  HASH : ");
    text::push_text(&mut line, inode.meta.hash.to_str().as_str());
    text::push_text(&mut line, " (32 bytes) ");
    push_mark(&mut line, passed);
    if !passed {
        text::push_text(&mut line, "; hash(");
        push_hash(&mut line, left);
        text::push_text(&mut line, " || ");
        push_hash(&mut line, right);
        text::push_text(&mut line, ") = ");
        push_hash(&mut line, own);
    }
    proof {
        assert(line@ =~= want[3]);
    }
    push_line(lines, line);
    proof {
        assert(texts(lines@) =~= texts(old(lines)@) + want);
    }
}

/// Puts a payload in hexadecimal behind the text; of a long one the beginning and the end.
fn push_payload(text: &mut String, payload: &[u8])
    ensures
        final(text)@ == old(text)@ + payload_text(payload@),
{
    let ghost full = text::hex_of(payload@);
    if payload.len() > 32 {
        let head: String = text::hex(vstd::slice::slice_subrange(payload, 0, 16));
        let tail: String = text::hex(
            vstd::slice::slice_subrange(payload, payload.len() - 16, payload.len()),
        );
        proof {
            let n = payload@.len() as int;
            let first = payload@.subrange(0, 16);
            let last = payload@.subrange(n - 16, n);
            assert(head@ =~= full.take(32)) by {
                assert forall|x: int| 0 <= x < 32 implies head@[x] == full.take(32)[x] by {
                    assert(first[x / 2] == payload@[x / 2]);
                }
            }
            assert(tail@ =~= full.skip(full.len() - 32)) by {
                assert forall|x: int| 0 <= x < 32 implies tail@[x] == full.skip(full.len() - 32)[x] by {
                    let y = x + full.len() - 32;
                    assert(y / 2 == x / 2 + n - 16);
                    assert(y % 2 == x % 2);
                    assert(last[x / 2] == payload@[y / 2]);
                }
            }
        }
        text::push_text(text, head.as_str());
        text::push_text(text, "...");
        text::push_text(text, tail.as_str());
        proof {
            assert(text@ =~= old(text)@ + payload_text(payload@));
        }
    } else {
        text::push_text(text, text::hex(payload).as_str());
    }
}

/// Puts the lines on an entry behind the others.
fn report_entry(
    lines: &mut Vec<String>,
    known: &mut Known,
    parsed: &serialize::Parsed,
    position: u64,
    Ghost(before): Ghost<Seq<EntryModel>>,
    Ghost(t): Ghost<Seq<u8>>,
)
    requires
        old(known).tells(before),
        serialize::complete(t),
        serialize::heights_fit(t),
        parsed.entry@ == serialize::entry_in(t, position),
        parsed.offset == serialize::u32_at(t, serialize::trailer_at(t)),
        parsed.size == serialize::end_at(t),
        parsed.recorded == serialize::u64_at(t, serialize::trailer_at(t) + 4),
        parsed.actual == hash::highway_of(t.take(serialize::trailer_at(t))),
    ensures
        texts(final(lines)@) == texts(old(lines)@) + entry_lines(before, t, position),
        final(known).tells(before.push(serialize::entry_in(t, position))),
{
    let ghost e = parsed.entry@;
    let ghost seen = before.push(e);
    let ghost want = entry_lines(before, t, position);
    let ghost start = texts(lines@);
    let entry: &Entry = &parsed.entry;
    let i: u64 = entry.enode.meta.address.i;
    proof {
        assert forall|k: int| 0 <= k < e.inodes.len() implies (
        #[trigger] e.inodes[k]).meta.address.j >= 1 && e.inodes[k].meta.address.i == i by {
            assert(e.inodes[k] == serialize::inode_in(t, position, k));
            assert(t[serialize::record_at(k)] < 255);
        }
    }
    known.learn(entry);
    push_line(lines, "--------".to_owned());
    let mut line = String::new();
    text::push_text(&mut line, "ENTRY: ");
    text::push_decimal(&mut line, i);
    text::push_text(&mut line, " @");
    text::push_decimal(&mut line, position);
    let ghost head = seq![
        "--------"@,
        "ENTRY: "@ + text::decimal_of(i as nat) + " @"@ + text::decimal_of(position as nat),
    ];
    proof {
        assert(line@ =~= head[1]);
    }
    push_line(lines, line);
    let mut k: usize = 0;
    proof {
        assert(e.inodes.take(0) =~= seq![]);
        assert(texts(lines@) =~= start + head + inodes_lines(seen, e.inodes.take(0)));
    }
    while k < entry.inodes.len()
        invariant
            k <= entry.inodes@.len(),
            e == entry@,
            known.tells(seen),
            texts(lines@) == start + head + inodes_lines(seen, e.inodes.take(k as int)),
        decreases entry.inodes@.len() - k,
    {
        report_inode(lines, known, &entry.inodes[k], Ghost(seen));
        proof {
            let more = e.inodes.take(k + 1);
            assert(e.inodes[k as int] == entry.inodes@[k as int]@);
            assert(more.drop_last() =~= e.inodes.take(k as int));
            assert(more.last() == e.inodes[k as int]);
            assert(texts(lines@) =~= start + head + inodes_lines(seen, more));
        }
        k = k + 1;
    }
    proof {
        assert(e.inodes.take(k as int) =~= e.inodes);
    }
    let mut line = String::new();
    text::push_text(&mut line, "ENODE: (");
    text::push_decimal(&mut line, i);
    text::push_text(&mut line, ", 0)");
    let ghost line0 = line@;
    push_line(lines, line);
    let mut line = String::new();
    text::push_text(&mut line, "  PAYLOAD: ");
    push_payload(&mut line, entry.enode.payload.as_slice());
    text::push_text(&mut line, " (");
    text::push_decimal(&mut line, entry.enode.payload.len() as u64);
    text::push_text(&mut line, " bytes) ");
    push_mark(&mut line, true);
    let ghost line1 = line@;
    push_line(lines, line);
    let hash = crate::Hash::from_bytes(0, entry.enode.payload.as_slice());
    proof {
        hash::lemma_same_bytes(hash, entry.enode.meta.hash);
    }
    let mut line = String::new();
    text::push_text(&mut line, "  HASH   : ");
    text::push_text(&mut line, entry.enode.meta.hash.to_str().as_str());
    text::push_text(&mut line, " (32 bytes) ");
    push_mark(&mut line, hash == entry.enode.meta.hash);
    let ghost line2 = line@;
    push_line(lines, line);
    let mut line = String::new();
    text::push_text(&mut line, "OFFSET   : ");
    text::push_decimal(&mut line, parsed.offset as u64);
    text::push_text(&mut line, " ");
    push_mark(&mut line, parsed.offset as usize == parsed.size);
    let ghost line3 = line@;
    push_line(lines, line);
    let mut line = String::new();
    text::push_text(&mut line, "CHECKSUM : ");
    text::push_text(
        &mut line,
        text::hex(vstd::bytes::u64_to_le_bytes(parsed.recorded).as_slice()).as_str(),
    );
    text::push_text(&mut line, " ");
    push_mark(&mut line, parsed.recorded == parsed.actual);
    let ghost line4 = line@;
    push_line(lines, line);
    proof {
        let tail = seq![line0, line1, line2, line3, line4];
        let n = want.len() - 5;
        assert(want =~= head + inodes_lines(seen, e.inodes) + seq![
            want[n],
            want[n + 1],
            want[n + 2],
            want[n + 3],
            want[n + 4],
        ]);
        assert(line0 =~= want[n]);
        assert(line1 =~= want[n + 1]);
        assert(line2 =~= want[n + 2]);
        assert(line3 =~= want[n + 3]);
        assert(line4 =~= want[n + 4]);
        assert(texts(lines@) =~= start + want);
    }
}

/// A report on the bytes of a storage: the identifier and the version, then every entry with its
/// nodes, each with the result of a test. It ends before an entry that is not complete, with an
/// error.
pub fn report(bytes: &[u8]) -> (r: (Vec<String>, Result<()>))
    ensures
        texts(r.0@) == report_lines(bytes@),
        r.1 is Ok <==> bytes@.len() >= 4 && all_legible(bytes@, 4),
        r.1 matches Err(error) ==> if bytes@.len() < 4 || !serialize::complete(
            bytes@.skip(stop(bytes@, 4) as int),
        ) {
            serialize::is_short(error)
        } else {
            serialize::is_out_of_range(error)
        },
{
    let mut lines: Vec<String> = Vec::new();
    let ghost b = bytes@;
    proof {
        assert(texts(lines@) =~= seq![]);
    }
    if bytes.len() < 4 {
        return (lines, Err(serialize::short()));
    }
    let id: &[u8] = vstd::slice::slice_subrange(bytes, 0, 3);
    let passed: bool = id[0] == STORAGE_IDENTIFIER[0] && id[1] == STORAGE_IDENTIFIER[1] && id[2]
        == STORAGE_IDENTIFIER[2];
    proof {
        assert(id@ =~= b.take(3));
        if passed {
            assert(b.take(3) =~= STORAGE_IDENTIFIER@);
        } else {
            assert(b.take(3)[0] == id@[0] && b.take(3)[1] == id@[1] && b.take(3)[2] == id@[2]);
        }
    }
    let mut line = String::new();
    text::push_text(&mut line, "IDENTIFIER: ");
    text::push_text(&mut line, text::hex(id).as_str());
    text::push_text(&mut line, " ");
    push_mark(&mut line, passed);
    let ghost want = header_lines(b);
    proof {
        assert(line@ =~= want[0]);
    }
    push_line(&mut lines, line);
    let mut line = String::new();
    text::push_text(&mut line, "VERSION   : ");
    text::push_decimal(&mut line, (bytes[3] / 16) as u64);
    text::push_text(&mut line, ".");
    text::push_decimal(&mut line, (bytes[3] % 16) as u64);
    text::push_text(&mut line, " ");
    push_mark(&mut line, is_version_compatible(bytes[3]));
    proof {
        assert(line@ =~= want[1]);
    }
    push_line(&mut lines, line);
    let mut known = Known::new();
    let mut at: usize = 4;
    let ghost mut before: Seq<EntryModel> = seq![];
    proof {
        assert(texts(lines@) =~= want);
        assert(texts(lines@) + entries_lines(b, 4, before) =~= report_lines(b));
    }
    while at < bytes.len()
        invariant
            b == bytes@,
            4 <= at <= b.len(),
            known.tells(before),
            texts(lines@) + entries_lines(b, at as nat, before) == report_lines(b),
            all_legible(b, 4) <==> all_legible(b, at as nat),
            stop(b, 4) == stop(b, at as nat),
        decreases b.len() - at,
    {
        let rest: &[u8] = vstd::slice::slice_subrange(bytes, at, bytes.len());
        let ghost t = b.skip(at as int);
        proof {
            assert(rest@ =~= t);
        }
        match serialize::parse_entry(rest, at as u64) {
            Err(error) => {
                proof {
                    assert(texts(lines@) + seq![] =~= texts(lines@));
                }
                return (lines, Err(error));
            },
            Ok(parsed) => {
                let ghost written = texts(lines@);
                report_entry(&mut lines, &mut known, &parsed, at as u64, Ghost(before), Ghost(t));
                proof {
                    let e = serialize::entry_in(t, at as u64);
                    let next = (at + serialize::end_at(t)) as nat;
                    assert(written + (entry_lines(before, t, at as u64) + entries_lines(
                        b,
                        next,
                        before.push(e),
                    )) =~= texts(lines@) + entries_lines(b, next, before.push(e)));
                    before = before.push(e);
                }
                at = at + parsed.size;
            },
        }
    }
    proof {
        assert(texts(lines@) + seq![] =~= texts(lines@));
    }
    (lines, Ok(()))
}

/// A storage that is not damaged is reported on to its end.
pub proof fn law_report_is_complete(b: Seq<u8>, log: Seq<EntryModel>)
    requires
        block::holds(b, log),
    ensures
        b.len() >= 4,
        all_legible(b, 4),
{
    lemma_legible_from(b, log, 0);
}

proof fn lemma_legible_from(b: Seq<u8>, log: Seq<EntryModel>, k: nat)
    requires
        block::holds(b, log),
        k <= log.len(),
    ensures
        all_legible(b, block::offset(log, k)),
    decreases log.len() - k,
{
    if k < log.len() {
        block::lemma_placed(b, log, k as int);
        lemma_legible_from(b, log, k + 1);
    }
}

/// Whether the text is free of the mark for a test that failed.
pub open spec fn clean(s: Seq<char>) -> bool {
    forall|x: int| 0 <= x < s.len() ==> #[trigger] s[x] != '❌'
}

/// Whether this is the line on the hash value of an intermediate node.
pub open spec fn on_hash(line: Seq<char>) -> bool {
    exists|rest: Seq<char>| line == "  HASH : "@ + rest
}

/// Whether no test failed, by the lines, but for those on the hash values of intermediate nodes.
pub open spec fn all_clean(lines: Seq<Seq<char>>) -> bool {
    forall|x: int| 0 <= x < lines.len() ==> clean(#[trigger] lines[x]) || on_hash(lines[x])
}

proof fn lemma_clean_add()
    ensures
        forall|a: Seq<char>, b: Seq<char>|
            clean(a) && clean(b) ==> #[trigger] clean(a + b),
{
    assert forall|a: Seq<char>, b: Seq<char>| clean(a) && clean(b) implies #[trigger] clean(
        a + b,
    ) by {
        let all = a + b;
        assert forall|x: int| 0 <= x < all.len() implies #[trigger] all[x] != '❌' by {
            if x < a.len() {
                assert(all[x] == a[x]);
            } else {
                assert(all[x] == b[x - a.len()]);
            }
        }
    }
}

proof fn lemma_clean_decimal(n: nat)
    ensures
        clean(text::decimal_of(n)),
    decreases n,
{
    if n >= 10 {
        lemma_clean_decimal(n / 10);
    }
}

proof fn lemma_clean_hex(bytes: Seq<u8>)
    ensures
        clean(text::hex_of(bytes)),
{
}

proof fn lemma_clean_words()
    ensures
        clean(mark(true)),
        clean(" "@),
        clean("."@),
        clean("..."@),
        clean(" ("@),
        clean(")"@),
        clean(", "@),
        clean(", 0)"@),
        clean(" @"@),
        clean(") @"@),
        clean(" bytes) "@),
        clean(" (32 bytes) "@),
        clean("--------"@),
        clean("ENTRY: "@),
        clean("INODE: ("@),
        clean("ENODE: ("@),
        clean("  LEFT : ("@),
        clean("  RIGHT: ("@),
        clean("  HASH   : "@),
        clean("  PAYLOAD: "@),
        clean("OFFSET   : "@),
        clean("CHECKSUM : "@),
        clean("IDENTIFIER: "@),
        clean("VERSION   : "@),
{
    reveal_strlit("✔");
    reveal_strlit(" ");
    reveal_strlit(".");
    reveal_strlit("...");
    reveal_strlit(" (");
    reveal_strlit(")");
    reveal_strlit(", ");
    reveal_strlit(", 0)");
    reveal_strlit(" @");
    reveal_strlit(") @");
    reveal_strlit(" bytes) ");
    reveal_strlit(" (32 bytes) ");
    reveal_strlit("--------");
    reveal_strlit("ENTRY: ");
    reveal_strlit("INODE: (");
    reveal_strlit("ENODE: (");
    reveal_strlit("  LEFT : (");
    reveal_strlit("  RIGHT: (");
    reveal_strlit("  HASH   : ");
    reveal_strlit("  PAYLOAD: ");
    reveal_strlit("OFFSET   : ");
    reveal_strlit("CHECKSUM : ");
    reveal_strlit("IDENTIFIER: ");
    reveal_strlit("VERSION   : ");
}

/// In a genuine log the entry of an index is where it says.
proof fn lemma_position_known(log: Seq<EntryModel>, n: nat, i: u64)
    requires
        ledger::genuine(log),
        1 <= i <= n <= log.len(),
    ensures
        position_known(log.take(n as int), i) == Some(log[i - 1].meta.address.position),
    decreases n,
{
    let seen = log.take(n as int);
    ledger::lemma_genuine_entry(log, n - 1);
    assert(seen.last() == log[n - 1]);
    if i < n {
        assert(seen.drop_last() =~= log.take(n - 1));
        lemma_position_known(log, (n - 1) as nat, i);
    }
}

/// The tests on the first nodes of a genuine entry pass.
proof fn lemma_inodes_pass(log: Seq<EntryModel>, k: int, x: nat)
    requires
        ledger::genuine(log),
        0 <= k < log.len(),
        x <= log[k].inodes.len(),
    ensures
        all_clean(inodes_lines(log.take(k + 1), log[k].inodes.take(x as int))),
    decreases x,
{
    let seen = log.take(k + 1);
    let e = log[k];
    let some = e.inodes.take(x as int);
    if x > 0 {
        let n = e.inodes[x - 1];
        assert(some.last() == n);
        assert(some.drop_last() =~= e.inodes.take(x - 1));
        lemma_inodes_pass(log, k, (x - 1) as nat);
        let i = (k + 1) as nat;
        let h = n.meta.address.j as nat;
        let values = ledger::payloads(log);
        ledger::lemma_genuine_entry(log, k);
        ledger::lemma_genuine_shaped(log, k);
        ledger::lemma_shaped(e);
        assert(ledger::step_of(e, x - 1));
        assert(n == ledger::inode_of(
            values,
            ledger::positions(log),
            model::spine(i, model::height(i))[x - 1],
        ));
        nodes::lemma_children(i, h);
        lemma_position_known(log, i, n.left.i);
        lemma_position_known(log, i, i as u64);
        lemma_node_passes(seen, n);
    }
}

/// The tests on the places of the children of a node pass where these are known.
proof fn lemma_node_passes(seen: Seq<EntryModel>, n: INodeModel)
    requires
        position_known(seen, n.left.i) == Some(n.left.position),
        position_known(seen, n.meta.address.i) == Some(n.meta.address.position),
    ensures
        all_clean(inode_lines(seen, n)),
{
    let lines = inode_lines(seen, n);
    lemma_clean_words();
    lemma_clean_add();
    lemma_clean_decimal(n.meta.address.i as nat);
    lemma_clean_decimal(n.meta.address.j as nat);
    lemma_clean_decimal(n.left.i as nat);
    lemma_clean_decimal(n.left.j as nat);
    lemma_clean_decimal(n.left.position as nat);
    lemma_clean_decimal(n.right.j as nat);
    lemma_clean_decimal(n.meta.address.position as nat);
    assert(clean(lines[0]));
    assert(clean(lines[1]));
    assert(clean(lines[2]));
    let own = combined(
        n.left.j,
        hash_known(seen, n.left.i, n.left.j),
        hash_known(seen, n.meta.address.i, n.right.j),
    );
    let passed = own == Some(n.meta.hash);
    let remark = if passed {
        seq![]
    } else {
        "; hash("@ + hash_text(hash_known(seen, n.left.i, n.left.j)) + " || "@ + hash_text(
            hash_known(seen, n.meta.address.i, n.right.j),
        ) + ") = "@ + hash_text(own)
    };
    let rest = text::hex_of(n.meta.hash) + " (32 bytes) "@ + mark(passed) + remark;
    assert(lines[3] =~= "  HASH : "@ + rest);
}

/// The tests on a genuine entry pass.
proof fn lemma_entry_passes(b: Seq<u8>, log: Seq<EntryModel>, k: int)
    requires
        block::holds(b, log),
        ledger::genuine(log),
        0 <= k < log.len(),
    ensures
        ({
            let at = block::offset(log, k as nat);
            all_clean(entry_lines(log.take(k), b.skip(at as int), at as u64))
        }),
{
    let at = block::offset(log, k as nat);
    let t = b.skip(at as int);
    let e = log[k];
    block::lemma_placed(b, log, k);
    assert(log.take(k).push(e) =~= log.take(k + 1));
    assert(e.inodes.take(e.inodes.len() as int) =~= e.inodes);
    lemma_inodes_pass(log, k, e.inodes.len());
    ledger::lemma_genuine_entry(log, k);
    assert(ledger::payloads(log)[k] == e.payload);
    assert(hash::digest(0, e.payload) == e.meta.hash);
    lemma_clean_words();
    lemma_clean_add();
    lemma_clean_decimal(e.meta.address.i as nat);
    lemma_clean_decimal(at);
    lemma_clean_decimal(e.payload.len());
    lemma_clean_decimal(serialize::u32_at(t, serialize::trailer_at(t)) as nat);
    lemma_clean_hex(e.payload);
    lemma_clean_hex(e.meta.hash);
    lemma_clean_hex(
        vstd::bytes::spec_u64_to_le_bytes(serialize::u64_at(t, serialize::trailer_at(t) + 4)),
    );
    let full = text::hex_of(e.payload);
    assert(clean(payload_text(e.payload))) by {
        if full.len() > 64 {
            let tail = full.skip(full.len() - 32);
            assert(clean(full.take(32)));
            assert forall|x: int| 0 <= x < tail.len() implies #[trigger] tail[x] != '❌' by {
                assert(tail[x] == full[full.len() - 32 + x]);
            }
        }
    }
    let lines = entry_lines(log.take(k), t, at as u64);
    let middle = inodes_lines(log.take(k + 1), e.inodes);
    let m = middle.len() as int;
    assert(clean(lines[0]));
    assert(clean(lines[1]));
    assert(clean(lines[m + 2]));
    assert(clean(lines[m + 3]));
    assert(clean(lines[m + 4]));
    assert(clean(lines[m + 5]));
    assert(clean(lines[m + 6]));
    assert forall|x: int| 0 <= x < lines.len() implies clean(#[trigger] lines[x])
        || on_hash(lines[x]) by {
        if 2 <= x < m + 2 {
            assert(lines[x] == middle[x - 2]);
        }
    }
}

proof fn lemma_entries_pass(b: Seq<u8>, log: Seq<EntryModel>, k: nat)
    requires
        block::holds(b, log),
        ledger::genuine(log),
        k <= log.len(),
    ensures
        all_clean(entries_lines(b, block::offset(log, k), log.take(k as int))),
    decreases log.len() - k,
{
    if k < log.len() {
        let at = block::offset(log, k);
        let t = b.skip(at as int);
        block::lemma_placed(b, log, k as int);
        lemma_entry_passes(b, log, k as int);
        lemma_entries_pass(b, log, k + 1);
        assert(log.take(k as int).push(log[k as int]) =~= log.take((k + 1) as int));
        let one = entry_lines(log.take(k as int), t, at as u64);
        let two = entries_lines(b, block::offset(log, k + 1), log.take((k + 1) as int));
        let all = entries_lines(b, at, log.take(k as int));
        assert(all == one + two);
        assert forall|x: int| 0 <= x < all.len() implies clean(#[trigger] all[x])
            || on_hash(all[x]) by {
            if x < one.len() {
                assert(all[x] == one[x]);
            } else {
                assert(all[x] == two[x - one.len()]);
            }
        }
    }
}

/// In a report on a storage whose entries are those of a tree, no test fails but those on the hash
/// values of intermediate nodes.
pub proof fn law_genuine_report(b: Seq<u8>, log: Seq<EntryModel>)
    requires
        block::holds(b, log),
        ledger::genuine(log),
    ensures
        all_clean(report_lines(b)),
{
    lemma_entries_pass(b, log, 0);
    assert(log.take(0) =~= seq![]);
    lemma_clean_words();
    lemma_clean_add();
    lemma_clean_hex(b.take(3));
    lemma_clean_decimal(b[3] as nat / 16);
    lemma_clean_decimal(b[3] as nat % 16);
    let head = header_lines(b);
    let rest = entries_lines(b, 4, seq![]);
    assert(clean(head[0]));
    assert(clean(head[1]));
    let all = report_lines(b);
    assert forall|x: int| 0 <= x < all.len() implies clean(#[trigger] all[x])
            || on_hash(all[x]) by {
        if x < 2 {
            assert(all[x] == head[x]);
        } else {
            assert(all[x] == rest[x - 2]);
        }
    }
}

/// A number in hexadecimal, with leading zeros up to the width.
pub open spec fn padded_hex(n: nat, width: nat) -> Seq<char>
    decreases n + width,
{
    if n == 0 && width == 0 {
        seq![]
    } else {
        padded_hex(
            n / 16,
            if width == 0 {
                0
            } else {
                (width - 1) as nat
            },
        ).push(text::digit(n % 16))
    }
}

/// Puts a number in hexadecimal behind the text, with leading zeros up to the width.
fn push_padded_hex(text: &mut String, n: u64, width: u8)
    ensures
        final(text)@ == old(text)@ + padded_hex(n as nat, width as nat),
    decreases n + width,
{
    if n == 0 && width == 0 {
        proof {
            assert(text@ + seq![] =~= text@);
        }
    } else {
        push_padded_hex(
            text,
            n / 16,
            if width == 0 {
                0
            } else {
                width - 1
            },
        );
        text.push(text::digit_char((n % 16) as u8));
        proof {
            assert(text@ =~= old(text)@ + padded_hex(n as nat, width as nat));
        }
    }
}

/// Eight bytes from a place on in hexadecimal, with blanks between them, and blanks where there are
/// no bytes.
pub open spec fn eight_hex(b: Seq<u8>, from: int) -> Seq<char> {
    Seq::new(
        23,
        |c: int|
            if c % 3 == 2 || from + c / 3 >= b.len() {
                ' '
            } else if c % 3 == 0 {
                text::digit(b[from + c / 3] as nat / 16)
            } else {
                text::digit(b[from + c / 3] as nat % 16)
            },
    )
}

/// Sixteen bytes from a place on as characters; a dot for one that is not graphic, and a blank where
/// there is no byte.
pub open spec fn sixteen_chars(b: Seq<u8>, from: int) -> Seq<char> {
    Seq::new(
        16,
        |c: int|
            if from + c >= b.len() {
                ' '
            } else if 0x21 <= b[from + c] <= 0x7E {
                b[from + c] as char
            } else {
                '.'
            },
    )
}

/// The `k`-th line of a dump.
pub open spec fn dump_line(b: Seq<u8>, k: int) -> Seq<char> {
    padded_hex((16 * k) as nat, 8) + ": "@ + eight_hex(b, 16 * k) + "  "@ + eight_hex(b, 16 * k + 8)
        + ": "@ + sixteen_chars(b, 16 * k)
}

/// Puts eight bytes in hexadecimal behind the text.
fn push_eight_hex(text: &mut String, bytes: &[u8], from: usize)
    requires
        from <= bytes@.len() + 8,
        bytes@.len() + 16 <= usize::MAX,
    ensures
        final(text)@ == old(text)@ + eight_hex(bytes@, from as int),
{
    let ghost start = text@;
    let ghost want = eight_hex(bytes@, from as int);
    let mut x: usize = 0;
    while x < 8
        invariant
            x <= 8,
            from <= bytes@.len() + 8,
            bytes@.len() + 16 <= usize::MAX,
            want == eight_hex(bytes@, from as int),
            text@ == start + want.take(if x == 0 {
                0
            } else {
                3 * x - 1
            }),
        decreases 8 - x,
    {
        if x > 0 {
            text.push(' ');
        }
        if from + x < bytes.len() {
            text.push(text::digit_char(bytes[from + x] / 16));
            text.push(text::digit_char(bytes[from + x] % 16));
        } else {
            text.push(' ');
            text.push(' ');
        }
        proof {
            let c = 3 * x as int;
            assert(c / 3 == x && (c + 1) / 3 == x && c % 3 == 0 && (c + 1) % 3 == 1);
            if x > 0 {
                assert((c - 1) % 3 == 2);
            }
            assert(text@ =~= start + want.take(3 * (x + 1) - 1));
        }
        x = x + 1;
    }
    proof {
        assert(want.take(23) =~= want);
    }
}

/// Puts sixteen bytes as characters behind the text.
fn push_sixteen_chars(text: &mut String, bytes: &[u8], from: usize)
    requires
        from <= bytes@.len(),
        bytes@.len() + 16 <= usize::MAX,
    ensures
        final(text)@ == old(text)@ + sixteen_chars(bytes@, from as int),
{
    let ghost start = text@;
    let ghost want = sixteen_chars(bytes@, from as int);
    let mut x: usize = 0;
    while x < 16
        invariant
            x <= 16,
            from <= bytes@.len(),
            bytes@.len() + 16 <= usize::MAX,
            want == sixteen_chars(bytes@, from as int),
            text@ == start + want.take(x as int),
        decreases 16 - x,
    {
        let c: char = if from + x >= bytes.len() {
            ' '
        } else if 0x21 <= bytes[from + x] && bytes[from + x] <= 0x7E {
            bytes[from + x] as char
        } else {
            '.'
        };
        text.push(c);
        proof {
            assert(text@ =~= start + want.take(x + 1));
        }
        x = x + 1;
    }
    proof {
        assert(want.take(16) =~= want);
    }
}

/// A dump of the bytes, sixteen in a line: their place, their values in hexadecimal, and the
/// characters that they stand for.
pub fn hex_dump(bytes: &[u8]) -> (r: Vec<String>)
    requires
        bytes@.len() + 16 <= usize::MAX,
    ensures
        r@.len() == bytes@.len() / 16 + 1,
        forall|k: int| 0 <= k < r@.len() ==> (#[trigger] r@[k])@ == dump_line(bytes@, k),
{
    let count: usize = bytes.len() / 16 + 1;
    let mut lines: Vec<String> = Vec::with_capacity(count);
    let mut k: usize = 0;
    while k < count
        invariant
            k <= count,
            count == bytes@.len() / 16 + 1,
            bytes@.len() + 16 <= usize::MAX,
            lines@.len() == k,
            forall|x: int| 0 <= x < k ==> (#[trigger] lines@[x])@ == dump_line(bytes@, x),
        decreases count - k,
    {
        let mut line = String::new();
        push_padded_hex(&mut line, 16 * k as u64, 8);
        text::push_text(&mut line, ": ");
        push_eight_hex(&mut line, bytes, 16 * k);
        text::push_text(&mut line, "  ");
        push_eight_hex(&mut line, bytes, 16 * k + 8);
        text::push_text(&mut line, ": ");
        push_sixteen_chars(&mut line, bytes, 16 * k);
        proof {
            assert(line@ =~= dump_line(bytes@, k as int));
        }
        lines.push(line);
        k = k + 1;
    }
    lines
}

/// A payload of up to 32 bytes is shown whole. Of a longer one the first and the last 16 bytes are
/// shown, with three dots between them.
pub proof fn law_payload_text(p: Seq<u8>)
    ensures
        p.len() <= 32 ==> payload_text(p) == text::hex_of(p),
        p.len() > 32 ==> {
            &&& payload_text(p).len() == 67
            &&& payload_text(p).take(32) == text::hex_of(p.take(16))
            &&& payload_text(p).subrange(32, 35) == seq!['.', '.', '.']
            &&& payload_text(p).skip(35) == text::hex_of(p.skip(p.len() - 16))
        },
{
    reveal_strlit("...");
    if p.len() > 32 {
        let shown = payload_text(p);
        let full = text::hex_of(p);
        let n = p.len() as int;
        assert(shown.take(32) =~= text::hex_of(p.take(16))) by {
            assert forall|x: int| 0 <= x < 32 implies shown.take(32)[x] == text::hex_of(
                p.take(16),
            )[x] by {
                assert(p.take(16)[x / 2] == p[x / 2]);
            }
        }
        assert(shown.subrange(32, 35) =~= seq!['.', '.', '.']);
        assert(shown.skip(35) =~= text::hex_of(p.skip(n - 16))) by {
            assert forall|x: int| 0 <= x < 32 implies shown.skip(35)[x] == text::hex_of(
                p.skip(n - 16),
            )[x] by {
                let y = x + full.len() - 32;
                assert(shown.skip(35)[x] == full[y]);
                assert(y / 2 == x / 2 + n - 16);
                assert(y % 2 == x % 2);
                assert(p.skip(n - 16)[x / 2] == p[y / 2]);
            }
        }
    }
}

/// The number that hexadecimal digits stand for.
pub open spec fn hex_number(digits: Seq<char>) -> int
    decreases digits.len(),
{
    if digits.len() == 0 {
        0
    } else {
        16 * hex_number(digits.drop_last()) + text::hexadecimal_digit(digits.last())
    }
}

/// A number in hexadecimal with a width stands for the number, has at least so many digits, and
/// starts with 0 only up to the width.
pub proof fn law_padded_hex(n: nat, width: nat)
    ensures
        hex_number(padded_hex(n, width)) == n,
        padded_hex(n, width).len() >= width,
        padded_hex(n, width).len() > width ==> padded_hex(n, width)[0] != '0',
        forall|k: int|
            0 <= k < padded_hex(n, width).len() ==> ('0' <= #[trigger] padded_hex(n, width)[k]
                <= '9') || ('A' <= padded_hex(n, width)[k] <= 'F'),
    decreases n + width,
{
    if n > 0 || width > 0 {
        let low: nat = if width == 0 {
            0
        } else {
            (width - 1) as nat
        };
        law_padded_hex(n / 16, low);
        let digits = padded_hex(n, width);
        let high = padded_hex(n / 16, low);
        assert(digits.drop_last() =~= high);
        assert forall|k: int| 0 <= k < digits.len() implies ('0' <= #[trigger] digits[k] <= '9')
            || ('A' <= digits[k] <= 'F') by {
            if k < high.len() {
                assert(digits[k] == high[k]);
            }
        }
        if digits.len() > width {
            if high.len() > 0 {
                assert(digits[0] == high[0]);
                if high.len() == low {
                    assert(width == 0);
                }
            } else {
                assert(n / 16 == 0);
            }
        }
    }
}

/// A line of a dump starts with the place of its first byte in hexadecimal, in at least eight
/// digits. Each of its up to 16 bytes stands there twice: as two hexadecimal digits, in two groups of
/// eight with a blank between the bytes and two between the groups; and as a character, which is the
/// byte itself where it is a graphic one, from the exclamation mark to the tilde, and else a dot.
/// Where there is no byte there are blanks.
pub proof fn law_dump_line(b: Seq<u8>, k: int, x: int)
    requires
        0 <= k,
        0 <= x < 16,
    ensures
        ({
            let line = dump_line(b, k);
            let w = line.len() - 68;
            let at = 16 * k + x;
            let c = w + 2 + 3 * x + (if x >= 8 {
                1int
            } else {
                0
            });
            &&& w >= 8
            &&& w > 8 ==> line[0] != '0'
            &&& hex_number(line.take(w)) == 16 * k
            &&& line[w] == ':'
            &&& line[w + 1] == ' '
            &&& line[w + 25] == ' '
            &&& line[w + 26] == ' '
            &&& line[w + 50] == ':'
            &&& line[w + 51] == ' '
            &&& x != 7 && x != 15 ==> line[c + 2] == ' '
            &&& at < b.len() ==> b[at] == 16 * text::hexadecimal_digit(line[c])
                + text::hexadecimal_digit(line[c + 1])
            &&& at < b.len() ==> (('0' <= line[c] <= '9') || ('A' <= line[c] <= 'F')) && (('0'
                <= line[c + 1] <= '9') || ('A' <= line[c + 1] <= 'F'))
            &&& at < b.len() && '!' as int <= b[at] <= '~' as int ==> line[w + 52 + x] as int
                == b[at]
            &&& at < b.len() && !('!' as int <= b[at] <= '~' as int) ==> line[w + 52 + x] == '.'
            &&& at >= b.len() ==> line[c] == ' ' && line[c + 1] == ' ' && line[w + 52 + x] == ' '
        }),
{
    reveal_strlit(": ");
    reveal_strlit("  ");
    let place = padded_hex((16 * k) as nat, 8);
    law_padded_hex((16 * k) as nat, 8);
    let line = dump_line(b, k);
    let w = place.len() as int;
    assert(line.len() == w + 68);
    assert(line.take(w) =~= place);
    assert(line[0] == place[0]);
    let one = eight_hex(b, 16 * k);
    let two = eight_hex(b, 16 * k + 8);
    let y = if x >= 8 {
        x - 8
    } else {
        x
    };
    assert((3 * y) / 3 == y && (3 * y + 1) / 3 == y && (3 * y) % 3 == 0 && (3 * y + 1) % 3 == 1
        && (3 * y + 2) % 3 == 2);
    if x >= 8 {
        assert(line[w + 2 + 3 * x + 1] == two[3 * y]);
        assert(line[w + 2 + 3 * x + 2] == two[3 * y + 1]);
        if x != 15 {
            assert(line[w + 2 + 3 * x + 3] == two[3 * y + 2]);
        }
    } else {
        assert(line[w + 2 + 3 * x] == one[3 * y]);
        assert(line[w + 2 + 3 * x + 1] == one[3 * y + 1]);
        if x != 7 {
            assert(line[w + 2 + 3 * x + 2] == one[3 * y + 2]);
        }
    }
    assert(line[w + 52 + x] == sixteen_chars(b, 16 * k)[x]);
}

/// The last one of the entries with an index tells its position.
pub proof fn law_position_known(seen: Seq<EntryModel>, i: u64)
    ensures
        position_known(seen, i) is None <==> forall|x: int|
            0 <= x < seen.len() ==> (#[trigger] seen[x]).meta.address.i != i,
        position_known(seen, i) matches Some(position) ==> exists|x: int|
            0 <= x < seen.len() && (#[trigger] seen[x]).meta.address.i == i
                && seen[x].meta.address.position == position && forall|y: int|
                x < y < seen.len() ==> (#[trigger] seen[y]).meta.address.i != i,
    decreases seen.len(),
{
    if seen.len() > 0 {
        let low = seen.drop_last();
        let last = seen.len() - 1;
        law_position_known(low, i);
        if seen[last].meta.address.i == i {
            assert(seen[last] == seen.last());
        } else if position_known(low, i) is Some {
            let x = choose|x: int|
                0 <= x < low.len() && (#[trigger] low[x]).meta.address.i == i
                    && low[x].meta.address.position == position_known(low, i)->Some_0 && forall|
                    y: int,
                |
                    x < y < low.len() ==> (#[trigger] low[y]).meta.address.i != i;
            assert(seen[x] == low[x]);
            assert forall|y: int| x < y < seen.len() implies (
            #[trigger] seen[y]).meta.address.i != i by {
                if y < last {
                    assert(seen[y] == low[y]);
                }
            }
        } else {
            assert forall|x: int| 0 <= x < seen.len() implies (
            #[trigger] seen[x]).meta.address.i != i by {
                if x < last {
                    assert(seen[x] == low[x]);
                }
            }
        }
    }
}

/// A hash value is known exactly if one of the entries has the node, and it is that of the node in
/// one of them.
pub proof fn law_hash_known(seen: Seq<EntryModel>, i: u64, j: u8)
    ensures
        hash_known(seen, i, j) is Some <==> exists|x: int|
            0 <= x < seen.len() && (#[trigger] seen[x]).meta.address.i == i && (j == 0
                || last_with(seen[x].inodes, j) is Some),
        hash_known(seen, i, j) matches Some(hash) ==> exists|x: int|
            0 <= x < seen.len() && (#[trigger] seen[x]).meta.address.i == i && (if j == 0 {
                hash == seen[x].meta.hash
            } else {
                exists|y: int|
                    0 <= y < seen[x].inodes.len() && (#[trigger] seen[x].inodes[y]).meta.address.j
                        == j && hash == seen[x].inodes[y].meta.hash
            }),
    decreases seen.len(),
{
    if seen.len() > 0 {
        let low = seen.drop_last();
        let last = seen.len() - 1;
        law_hash_known(low, i, j);
        assert(seen[last] == seen.last());
        law_last_with(seen[last].inodes, j);
        let own = seen[last].meta.address.i == i && (j == 0 || last_with(seen[last].inodes, j)
            is Some);
        if !own {
            if exists|x: int|
                0 <= x < seen.len() && (#[trigger] seen[x]).meta.address.i == i && (j == 0
                    || last_with(seen[x].inodes, j) is Some) {
                let x = choose|x: int|
                    0 <= x < seen.len() && (#[trigger] seen[x]).meta.address.i == i && (j == 0
                        || last_with(seen[x].inodes, j) is Some);
                assert(x < last);
                assert(low[x] == seen[x]);
            }
            if hash_known(low, i, j) is Some {
                let hash = hash_known(low, i, j)->Some_0;
                let x = choose|x: int|
                    0 <= x < low.len() && (#[trigger] low[x]).meta.address.i == i && (if j == 0 {
                        hash == low[x].meta.hash
                    } else {
                        exists|y: int|
                            0 <= y < low[x].inodes.len() && (
                            #[trigger] low[x].inodes[y]).meta.address.j == j && hash
                                == low[x].inodes[y].meta.hash
                    });
                assert(seen[x] == low[x]);
                let z = choose|z: int|
                    0 <= z < low.len() && (#[trigger] low[z]).meta.address.i == i && (j == 0
                        || last_with(low[z].inodes, j) is Some);
                assert(seen[z] == low[z]);
            }
        }
    }
}

/// The last of the nodes with a height is one of them, and there is none exactly if no node has the
/// height.
pub proof fn law_last_with(inodes: Seq<INodeModel>, j: u8)
    ensures
        last_with(inodes, j) is None <==> forall|y: int|
            0 <= y < inodes.len() ==> (#[trigger] inodes[y]).meta.address.j != j,
        last_with(inodes, j) matches Some(hash) ==> exists|y: int|
            0 <= y < inodes.len() && (#[trigger] inodes[y]).meta.address.j == j && hash
                == inodes[y].meta.hash && forall|z: int|
                y < z < inodes.len() ==> (#[trigger] inodes[z]).meta.address.j != j,
    decreases inodes.len(),
{
    if inodes.len() > 0 {
        let low = inodes.drop_last();
        let last = inodes.len() - 1;
        law_last_with(low, j);
        if inodes[last].meta.address.j == j {
            assert(inodes[last] == inodes.last());
        } else if last_with(low, j) is Some {
            let y = choose|y: int|
                0 <= y < low.len() && (#[trigger] low[y]).meta.address.j == j && last_with(
                    low,
                    j,
                )->Some_0 == low[y].meta.hash && forall|z: int|
                    y < z < low.len() ==> (#[trigger] low[z]).meta.address.j != j;
            assert(inodes[y] == low[y]);
            assert forall|z: int| y < z < inodes.len() implies (
            #[trigger] inodes[z]).meta.address.j != j by {
                if z < last {
                    assert(inodes[z] == low[z]);
                }
            }
        } else {
            assert forall|z: int| 0 <= z < inodes.len() implies (
            #[trigger] inodes[z]).meta.address.j != j by {
                if z < last {
                    assert(inodes[z] == low[z]);
                }
            }
        }
    }
}

/// Whether the text starts with the other.
pub open spec fn starts_with(all: Seq<char>, head: Seq<char>) -> bool {
    all.len() >= head.len() && all.take(head.len() as int) == head
}

/// A report starts with the identifier and the version of the storage, each with a tick exactly if it
/// is that of this library, and a cross if not.
pub proof fn law_report_header(b: Seq<u8>)
    requires
        b.len() >= 4,
    ensures
        report_lines(b).len() >= 2,
        report_lines(b)[0].take(18) == "IDENTIFIER: "@ + text::hex_of(b.take(3)),
        report_lines(b)[0].last() == '✔' <==> b[0] == STORAGE_IDENTIFIER[0] && b[1]
            == STORAGE_IDENTIFIER[1] && b[2] == STORAGE_IDENTIFIER[2],
        report_lines(b)[0].last() == '✔' || report_lines(b)[0].last() == '❌',
        starts_with(
            report_lines(b)[1],
            "VERSION   : "@ + text::decimal_of(b[3] as nat / 16) + "."@ + text::decimal_of(
                b[3] as nat % 16,
            ) + " "@,
        ),
        report_lines(b)[1].last() == '✔' <==> b[3] / 16 == block::STORAGE_VERSION / 16,
        report_lines(b)[1].last() == '✔' || report_lines(b)[1].last() == '❌',
{
    reveal_strlit("IDENTIFIER: ");
    reveal_strlit("✔");
    reveal_strlit("❌");
    let one = report_lines(b)[0];
    assert(one == header_lines(b)[0]);
    assert(report_lines(b)[1] == header_lines(b)[1]);
    assert(one.take(18) =~= "IDENTIFIER: "@ + text::hex_of(b.take(3)));
    assert(b.take(3)[0] == b[0] && b.take(3)[1] == b[1] && b.take(3)[2] == b[2]);
    if b[0] == STORAGE_IDENTIFIER[0] && b[1] == STORAGE_IDENTIFIER[1] && b[2]
        == STORAGE_IDENTIFIER[2] {
        assert(b.take(3) =~= STORAGE_IDENTIFIER@);
    }
    let two = report_lines(b)[1];
    let head = "VERSION   : "@ + text::decimal_of(b[3] as nat / 16) + "."@ + text::decimal_of(
        b[3] as nat % 16,
    ) + " "@;
    assert(two == head + mark(block::compatible(b[3])));
    assert(two.take(head.len() as int) =~= head);
}

/// After its first two lines a report goes on, from the fourth byte, through the entries that can be
/// read, one right behind the other: the lines on an entry, then those on what follows it.
pub proof fn law_report_goes_on(b: Seq<u8>, position: nat, before: Seq<EntryModel>)
    ensures
        b.len() >= 4 ==> report_lines(b).skip(2) == entries_lines(b, 4, seq![]),
        b.len() < 4 ==> report_lines(b).len() == 0,
        ({
            let t = b.skip(position as int);
            let readable = serialize::complete(t) && serialize::heights_fit(t);
            if position < b.len() && readable {
                let e = serialize::entry_in(t, position as u64);
                let own = entry_lines(before, t, position as u64);
                let all = entries_lines(b, position, before);
                &&& own.len() == 7 + 4 * e.inodes.len()
                &&& all.take(own.len() as int) == own
                &&& all.skip(own.len() as int) == entries_lines(
                    b,
                    position + serialize::end_at(t) as nat,
                    before.push(e),
                )
            } else {
                entries_lines(b, position, before).len() == 0
            }
        }),
{
    if b.len() >= 4 {
        assert(report_lines(b).skip(2) =~= entries_lines(b, 4, seq![]));
    }
    let t = b.skip(position as int);
    if position < b.len() && legible(b, position) {
        let e = serialize::entry_in(t, position as u64);
        let own = entry_lines(before, t, position as u64);
        let all = entries_lines(b, position, before);
        lemma_inodes_lines(before.push(e), e.inodes);
        assert(all.take(own.len() as int) =~= own);
        assert(all.skip(own.len() as int) =~= entries_lines(
            b,
            position + serialize::end_at(t) as nat,
            before.push(e),
        ));
    }
}

proof fn lemma_inodes_lines(seen: Seq<EntryModel>, inodes: Seq<INodeModel>)
    ensures
        inodes_lines(seen, inodes).len() == 4 * inodes.len(),
        forall|x: int, y: int|
            0 <= x < inodes.len() && 0 <= y < 4 ==> #[trigger] inodes_lines(seen, inodes)[4 * x + y]
                == inode_lines(seen, inodes[x])[y],
    decreases inodes.len(),
{
    if inodes.len() > 0 {
        let low = inodes.drop_last();
        lemma_inodes_lines(seen, low);
        let all = inodes_lines(seen, inodes);
        assert forall|x: int, y: int| 0 <= x < inodes.len() && 0 <= y < 4 implies #[trigger] all[4
            * x + y] == inode_lines(seen, inodes[x])[y] by {
            if x < low.len() {
                assert(all[4 * x + y] == inodes_lines(seen, low)[4 * x + y]);
                assert(low[x] == inodes[x]);
            }
        }
    }
}

/// The four lines on an intermediate node: its index and height; its left child, with a tick exactly
/// if the latest entry of that index stands where the node says; its right child, with a tick
/// exactly if it is a leaf or the latest entry of its index stands at the position; and its hash
/// value, with a tick exactly if both children are known and BLAKE3 gives the hash value for the
/// height of the left child followed by the hash values of the two.
pub proof fn law_inode_lines(seen: Seq<EntryModel>, n: INodeModel)
    requires
        n.meta.hash.len() == 32,
    ensures
        ({
            let i = n.meta.address.i;
            let lines = inode_lines(seen, n);
            let left = hash_known(seen, n.left.i, n.left.j);
            let right = hash_known(seen, i, n.right.j);
            &&& lines.len() == 4
            &&& lines[0] == "INODE: ("@ + text::decimal_of(i as nat) + ", "@ + text::decimal_of(
                n.meta.address.j as nat,
            ) + ")"@
            &&& starts_with(
                lines[1],
                "  LEFT : ("@ + text::decimal_of(n.left.i as nat) + ", "@ + text::decimal_of(
                    n.left.j as nat,
                ) + ") @"@ + text::decimal_of(n.left.position as nat) + " "@,
            )
            &&& lines[1].last() == '✔' || lines[1].last() == '❌'
            &&& lines[1].last() == '✔' <==> position_known(seen, n.left.i) == Some(n.left.position)
            &&& starts_with(
                lines[2],
                "  RIGHT: ("@ + text::decimal_of(i as nat) + ", "@ + text::decimal_of(
                    n.right.j as nat,
                ) + ") @"@ + text::decimal_of(n.meta.address.position as nat) + " "@,
            )
            &&& lines[2].last() == '✔' || lines[2].last() == '❌'
            &&& lines[2].last() == '✔' <==> n.right.j == 0 || position_known(seen, i) == Some(
                n.meta.address.position,
            )
            &&& starts_with(
                lines[3],
                "  HASH : "@ + text::hex_of(n.meta.hash) + " (32 bytes) "@,
            )
            &&& lines[3].len() > 85
            &&& lines[3][85] == '✔' || lines[3][85] == '❌'
            &&& lines[3][85] == '✔' <==> left is Some && right is Some && forall|x: int|
                0 <= x < 32 ==> n.meta.hash[x] == #[trigger] hash::blake3_of(
                    seq![n.left.j] + (left->Some_0 + right->Some_0),
                )[x]
        }),
{
    reveal_strlit("✔");
    reveal_strlit("❌");
    reveal_strlit("  HASH : ");
    reveal_strlit(" (32 bytes) ");
    let i = n.meta.address.i;
    let lines = inode_lines(seen, n);
    let left = hash_known(seen, n.left.i, n.left.j);
    let right = hash_known(seen, i, n.right.j);
    let head = "  LEFT : ("@ + text::decimal_of(n.left.i as nat) + ", "@ + text::decimal_of(
        n.left.j as nat,
    ) + ") @"@ + text::decimal_of(n.left.position as nat) + " "@;
    assert(lines[1].take(head.len() as int) =~= head);
    let head = "  RIGHT: ("@ + text::decimal_of(i as nat) + ", "@ + text::decimal_of(
        n.right.j as nat,
    ) + ") @"@ + text::decimal_of(n.meta.address.position as nat) + " "@;
    assert(lines[2].take(head.len() as int) =~= head);
    let head = "  HASH : "@ + text::hex_of(n.meta.hash) + " (32 bytes) "@;
    assert(head.len() == 85);
    assert(lines[3].take(head.len() as int) =~= head);
    let own = combined(n.left.j, left, right);
    assert(lines[3][85] == mark(own == Some(n.meta.hash))[0]);
    if left is Some && right is Some {
        let message = left->Some_0 + right->Some_0;
        hash::law_digest_is_blake3(n.left.j, message);
        if forall|x: int|
            0 <= x < 32 ==> n.meta.hash[x] == #[trigger] hash::blake3_of(
                seq![n.left.j] + message,
            )[x] {
            assert(n.meta.hash =~= hash::digest(n.left.j, message));
        } else {
            let x = choose|x: int|
                0 <= x < 32 && n.meta.hash[x] != #[trigger] hash::blake3_of(
                    seq![n.left.j] + message,
                )[x];
            assert(hash::digest(n.left.j, message)[x] == hash::blake3_of(
                seq![n.left.j] + message,
            )[x]);
        }
    }
}

/// The lines on an entry that the bytes start with: a separator, the index and the position, four
/// lines for each intermediate node, the leaf, its payload and its hash value, the recorded length
/// and the recorded checksum. The hash value has a tick exactly if BLAKE3 gives it for a zero
/// followed by the payload, the length exactly if it is that of the entry, and the checksum exactly
/// if it is the HighwayHash of what stands before.
pub proof fn law_entry_lines(before: Seq<EntryModel>, t: Seq<u8>, position: u64)
    requires
        serialize::complete(t),
    ensures
        ({
            let e = serialize::entry_in(t, position);
            let lines = entry_lines(before, t, position);
            let i = e.meta.address.i;
            let m = 2 + 4 * e.inodes.len() as int;
            let x = serialize::end_at(t) - 12;
            &&& lines.len() == m + 5
            &&& lines[0] == "--------"@
            &&& lines[1] == "ENTRY: "@ + text::decimal_of(i as nat) + " @"@ + text::decimal_of(
                position as nat,
            )
            &&& forall|k: int, y: int|
                0 <= k < e.inodes.len() && 0 <= y < 4 ==> #[trigger] lines[2 + (4 * k + y)]
                    == inode_lines(before.push(e), e.inodes[k])[y]
            &&& lines[m] == "ENODE: ("@ + text::decimal_of(i as nat) + ", 0)"@
            &&& lines[m + 1] == "  PAYLOAD: "@ + payload_text(e.payload) + " ("@
                + text::decimal_of(e.payload.len()) + " bytes) ✔"@
            &&& starts_with(
                lines[m + 2],
                "  HASH   : "@ + text::hex_of(e.meta.hash) + " (32 bytes) "@,
            )
            &&& lines[m + 2].last() == '✔' || lines[m + 2].last() == '❌'
            &&& lines[m + 2].last() == '✔' <==> forall|y: int|
                0 <= y < 32 ==> e.meta.hash[y] == #[trigger] hash::blake3_of(
                    seq![0u8] + e.payload,
                )[y]
            &&& starts_with(
                lines[m + 3],
                "OFFSET   : "@ + text::decimal_of(
                    vstd::bytes::spec_u32_from_le_bytes(t.subrange(x, x + 4)) as nat,
                ) + " "@,
            )
            &&& lines[m + 3].last() == '✔' || lines[m + 3].last() == '❌'
            &&& lines[m + 3].last() == '✔' <==> vstd::bytes::spec_u32_from_le_bytes(
                t.subrange(x, x + 4),
            ) == serialize::end_at(t)
            &&& starts_with(
                lines[m + 4],
                "CHECKSUM : "@ + text::hex_of(t.subrange(x + 4, x + 12)) + " "@,
            )
            &&& lines[m + 4].last() == '✔' || lines[m + 4].last() == '❌'
            &&& lines[m + 4].last() == '✔' <==> vstd::bytes::spec_u64_from_le_bytes(
                t.subrange(x + 4, x + 12),
            ) == hash::highway_of(t.take(x))
        }),
{
    reveal_strlit("✔");
    reveal_strlit("❌");
    reveal_strlit(" bytes) ");
    reveal_strlit(" bytes) ✔");
    let e = serialize::entry_in(t, position);
    let lines = entry_lines(before, t, position);
    let m = 2 + 4 * e.inodes.len() as int;
    let x = serialize::end_at(t) - 12;
    let nodes = inodes_lines(before.push(e), e.inodes);
    lemma_inodes_lines(before.push(e), e.inodes);
    assert forall|k: int, y: int| 0 <= k < e.inodes.len() && 0 <= y < 4 implies #[trigger] lines[2
        + (4 * k + y)] == inode_lines(before.push(e), e.inodes[k])[y] by {
        assert(lines[2 + (4 * k + y)] == nodes[4 * k + y]);
    }
    assert(" bytes) ✔"@ =~= " bytes) "@ + mark(true));
    assert(lines[m + 1] =~= "  PAYLOAD: "@ + payload_text(e.payload) + " ("@ + text::decimal_of(
        e.payload.len(),
    ) + " bytes) ✔"@);
    let head = "  HASH   : "@ + text::hex_of(e.meta.hash) + " (32 bytes) "@;
    assert(lines[m + 2].take(head.len() as int) =~= head);
    hash::law_digest_is_blake3(0, e.payload);
    if forall|y: int|
        0 <= y < 32 ==> e.meta.hash[y] == #[trigger] hash::blake3_of(seq![0u8] + e.payload)[y] {
        assert(e.meta.hash =~= hash::digest(0, e.payload));
    } else {
        let y = choose|y: int|
            0 <= y < 32 && e.meta.hash[y] != #[trigger] hash::blake3_of(seq![0u8] + e.payload)[y];
        assert(hash::digest(0, e.payload)[y] == hash::blake3_of(seq![0u8] + e.payload)[y]);
    }
    let head = "OFFSET   : "@ + text::decimal_of(
        vstd::bytes::spec_u32_from_le_bytes(t.subrange(x, x + 4)) as nat,
    ) + " "@;
    assert(lines[m + 3].take(head.len() as int) =~= head);
    let sum = t.subrange(x + 4, x + 12);
    vstd::bytes::lemma_auto_spec_u64_to_from_le_bytes();
    assert(vstd::bytes::spec_u64_to_le_bytes(vstd::bytes::spec_u64_from_le_bytes(sum)) == sum);
    let head = "CHECKSUM : "@ + text::hex_of(sum) + " "@;
    assert(lines[m + 4].take(head.len() as int) =~= head);
}

/// Where a report ends: at the end of the bytes, or at the first entry that is not complete or has a
/// height out of range; and it succeeds exactly in the first case.
pub proof fn law_report_ends(b: Seq<u8>, position: nat)
    ensures
        stop(b, position) >= position,
        all_legible(b, position) <==> stop(b, position) >= b.len(),
        stop(b, position) < b.len() ==> !(serialize::complete(b.skip(stop(b, position) as int))
            && serialize::heights_fit(b.skip(stop(b, position) as int))),
        position < b.len() && serialize::complete(b.skip(position as int))
            && serialize::heights_fit(b.skip(position as int)) ==> stop(b, position) == stop(
            b,
            position + serialize::end_at(b.skip(position as int)) as nat,
        ),
    decreases b.len() - position,
{
    if position < b.len() && legible(b, position) {
        law_report_ends(b, position + serialize::end_at(b.skip(position as int)) as nat);
    }
}

/// The texts of lines are those of all lines, each in full and in their order.
pub proof fn law_texts(lines: Seq<String>)
    ensures
        texts(lines).len() == lines.len(),
        forall|k: int| 0 <= k < lines.len() ==> #[trigger] texts(lines)[k] == lines[k]@,
{
}

} // verus!
