//! Storage on a device that holds bytes: an identifier and a version, then the serialized entries.
use crate::entry::{Entry, EntryModel, Position};
use crate::error::{Error, Result};
use crate::ledger;
use crate::memory::MemoryDevice;
use crate::serialize;
use crate::storage::{Reader, Storage};
use vstd::prelude::*;

verus! {

/// The bytes that a storage starts with.
pub const STORAGE_IDENTIFIER: [u8; 3] = [0x53, 0x4C, 0x54];

/// The version of the storage: the major version in the upper half, the minor one in the lower.
pub const STORAGE_VERSION: u8 = 0x01;

/// A device that holds bytes.
pub trait BlockDevice: Sized {
    /// The bytes on the device.
    open spec fn bytes(&self) -> Seq<u8> {
        arbitrary()
    }

    /// Whether no operation fails for a reason that lies outside.
    open spec fn reliable(&self) -> bool {
        arbitrary()
    }

    /// Whether the device can be written to.
    open spec fn writable(&self) -> bool {
        arbitrary()
    }

    /// Another view of the bytes that are on the device now. It shows no bytes that are written
    /// later. Bytes that are removed later stay in a view that is reliable; through another one
    /// reading them can fail.
    fn share(&self) -> (r: Result<Self>)
        ensures
            self.reliable() ==> r is Ok,
            r matches Ok(other) ==> other.bytes() == self.bytes() && other.reliable()
                == self.reliable(),
    ;

    /// The number of bytes on the device.
    fn size(&self) -> (r: Result<u64>)
        ensures
            self.reliable() ==> r is Ok,
            r matches Ok(n) ==> n == self.bytes().len(),
    ;

    /// The bytes from a position on.
    fn read(&self, position: u64, length: u64) -> (r: Result<Vec<u8>>)
        ensures
            r matches Ok(bytes) ==> position + length <= self.bytes().len() && bytes@
                == self.bytes().subrange(position as int, position + length),
            self.reliable() && position + length <= self.bytes().len() ==> r is Ok,
            self.reliable() && r is Err ==> r->Err_0 is Io,
    ;

    /// Puts bytes behind those on the device.
    fn append(&mut self, bytes: &[u8]) -> (r: Result<()>)
        ensures
            final(self).reliable() == old(self).reliable(),
            final(self).writable() == old(self).writable(),
            r is Ok ==> final(self).bytes() == old(self).bytes() + bytes@,
            !old(self).writable() ==> r is Err,
            old(self).reliable() && r is Err ==> *final(self) == *old(self) && r->Err_0 is Io,
            old(self).reliable() && old(self).writable() && old(self).bytes().len() + bytes@.len()
                <= u64::MAX ==> r is Ok,
    ;

    /// Removes all bytes but the first ones.
    fn truncate(&mut self, length: u64) -> (r: Result<()>)
        ensures
            final(self).reliable() == old(self).reliable(),
            final(self).writable() == old(self).writable(),
            r is Ok && length <= old(self).bytes().len() ==> final(self).bytes() == old(
                self,
            ).bytes().take(length as int),
            !old(self).writable() ==> r is Err,
            old(self).reliable() && r is Err ==> *final(self) == *old(self) && r->Err_0 is Io,
            old(self).reliable() && old(self).writable() && length <= old(self).bytes().len()
                ==> r is Ok,
    ;
}

/// Whether a storage of the version can be read: the major version is the same.
pub open spec fn compatible(version: u8) -> bool {
    version / 16 == STORAGE_VERSION / 16
}

/// Whether a storage of the version can be read.
pub fn is_version_compatible(version: u8) -> (r: bool)
    ensures
        r == compatible(version),
{
    version / 16 == STORAGE_VERSION / 16
}

/// Whether the bytes start as those of a storage do.
pub open spec fn header_fits(b: Seq<u8>) -> bool {
    &&& b.len() >= 4
    &&& b.take(3) == STORAGE_IDENTIFIER@
    &&& compatible(b[3])
}

/// Where the `k`-th entry starts, or the end for the number of entries.
pub open spec fn offset(log: Seq<EntryModel>, k: nat) -> nat
    decreases k,
{
    if k == 0 {
        4
    } else {
        offset(log, (k - 1) as nat) + ledger::size_of(log[k - 1])
    }
}

/// Whether the `k`-th entry stands in its place.
pub open spec fn placed(b: Seq<u8>, log: Seq<EntryModel>, k: int) -> bool {
    let at = offset(log, k as nat);
    let size = ledger::size_of(log[k]);
    &&& log[k].meta.address.position == at
    &&& ledger::storable(log[k], at as u64)
    &&& at + size <= b.len()
    &&& b.subrange(at as int, (at + size) as int) == serialize::encode(log[k])
}

/// Whether the bytes are those of a storage with the given entries.
pub open spec fn holds(b: Seq<u8>, log: Seq<EntryModel>) -> bool {
    &&& b.len() <= u64::MAX
    &&& header_fits(b)
    &&& b.len() == offset(log, log.len())
    &&& forall|k: int| 0 <= k < log.len() ==> #[trigger] placed(b, log, k)
}

/// Whether the bytes are those of a storage, or there are none yet.
pub open spec fn bytes_intact(b: Seq<u8>) -> bool {
    b.len() == 0 || exists|log: Seq<EntryModel>| holds(b, log)
}

/// The entries that the bytes hold.
pub open spec fn bytes_log(b: Seq<u8>) -> Seq<EntryModel> {
    if b.len() == 0 {
        seq![]
    } else {
        choose|log: Seq<EntryModel>| holds(b, log)
    }
}

/// The position for the next entry.
pub open spec fn bytes_end(b: Seq<u8>) -> nat {
    if b.len() == 0 {
        4
    } else {
        b.len()
    }
}

/// The entries that are found at the positions.
pub open spec fn bytes_found(b: Seq<u8>) -> Map<u64, EntryModel> {
    Map::new(
        |p: u64| p < b.len() && serialize::readable(b.skip(p as int)),
        |p: u64| serialize::entry_in(b.skip(p as int), p),
    )
}

/// The errors with which reading at the other positions fails.
pub open spec fn bytes_failing(b: Seq<u8>) -> spec_fn(Position, Error) -> bool {
    |p: Position, error: Error|
        if p < b.len() {
            serialize::unreadable(b.skip(p as int), p, error)
        } else {
            serialize::is_short(error)
        }
}

/// The position right behind the entry that is found at a position.
pub open spec fn bytes_behind(b: Seq<u8>) -> spec_fn(Position) -> Position {
    |p: Position| (p + serialize::end_at(b.skip(p as int))) as Position
}

/// Whether a position lies behind the last entry.
pub open spec fn bytes_past(b: Seq<u8>) -> spec_fn(Position) -> bool {
    |p: Position| p >= b.len()
}

/// What a storage without entries holds: the identifier and the version.
pub open spec fn header() -> Seq<u8> {
    STORAGE_IDENTIFIER@.push(STORAGE_VERSION)
}

/// The bytes after the storage is made ready: those of a storage without entries where there were
/// none, and else the same.
pub open spec fn bytes_readied(b: Seq<u8>) -> Seq<u8> {
    if b.len() == 0 {
        header()
    } else {
        b
    }
}

/// Whether the error is that of a damaged storage, with the message.
pub open spec fn damaged(error: Error, message: Seq<char>) -> bool {
    error matches Error::DamagedStorage(said) && said@ == message
}

/// Whether the error is the one for bytes that do not end with an entry.
pub open spec fn ends_badly(b: Seq<u8>, error: Error) -> bool {
    if b.len() < 61 {
        damaged(error, "the last entry is too short"@)
    } else if last_start(b) < 4 {
        damaged(error, "the offset to the last entry is too large"@)
    } else if last_start(b) >= b.len() {
        damaged(error, "the last entry is missing"@)
    } else if !serialize::readable(b.skip(last_start(b))) {
        serialize::unreadable(b.skip(last_start(b)), last_start(b) as u64, error)
    } else {
        damaged(error, "the last entry doesn't end with the storage"@)
    }
}

/// Whether the error says that the bytes are not those of a storage, with the message.
pub open spec fn foreign(error: Error, message: Seq<char>) -> bool {
    error matches Error::StorageisNotForSlate { message: said } && said@ == message
}

/// Whether the error is the one for bytes whose latest entry cannot be told.
pub open spec fn unopened(b: Seq<u8>, error: Error) -> bool {
    if b.len() == 0 {
        error is Io
    } else if b.len() < 4 {
        foreign(error, "the identifier is missing"@)
    } else if b.take(3) != STORAGE_IDENTIFIER@ {
        foreign(error, "invalid identifier"@)
    } else if !compatible(b[3]) {
        error == Error::IncompatibleVersion((b[3] / 16) as u8, (b[3] % 16) as u8)
    } else {
        ends_badly(b, error)
    }
}

/// Whether the error says that an argument is out of range, with the message.
pub open spec fn refused(error: Error, message: Seq<char>) -> bool {
    error matches Error::InvalidArgument(said) && said@ == message
}

/// Where the last entry starts, by the length that the bytes end with.
pub open spec fn last_start(b: Seq<u8>) -> int {
    b.len() - serialize::u32_at(b, b.len() - 12)
}

/// Whether the bytes end with an entry.
pub open spec fn ends_well(b: Seq<u8>) -> bool {
    &&& b.len() >= 61
    &&& 4 <= last_start(b) < b.len()
    &&& serialize::readable(b.skip(last_start(b)))
    &&& last_start(b) + serialize::end_at(b.skip(last_start(b))) == b.len()
}

/// Whether the bytes start as those of a storage do, and end with an entry if there is any.
pub open spec fn bytes_open(b: Seq<u8>) -> bool {
    header_fits(b) && (b.len() == 4 || ends_well(b))
}

/// The latest entry.
pub open spec fn bytes_latest(b: Seq<u8>) -> Option<EntryModel> {
    if b.len() <= 4 {
        None
    } else {
        Some(serialize::entry_in(b.skip(last_start(b)), last_start(b) as u64))
    }
}

/// Where an entry starts depends on those before it alone.
proof fn lemma_offset(a: Seq<EntryModel>, b: Seq<EntryModel>, k: nat)
    requires
        k <= a.len(),
        k <= b.len(),
        forall|x: int| 0 <= x < k ==> a[x] == b[x],
    ensures
        offset(a, k) == offset(b, k),
    decreases k,
{
    if k > 0 {
        lemma_offset(a, b, (k - 1) as nat);
    }
}

/// Entries start one after the other.
proof fn lemma_offset_ascends(log: Seq<EntryModel>, a: nat, b: nat)
    requires
        a <= b <= log.len(),
    ensures
        offset(log, a) + 57 * (b - a) <= offset(log, b),
    decreases b,
{
    if a < b {
        lemma_offset_ascends(log, a, (b - 1) as nat);
    }
}

/// What stands at the place of an entry is read as this entry.
pub proof fn lemma_placed(b: Seq<u8>, log: Seq<EntryModel>, k: int)
    requires
        holds(b, log),
        0 <= k < log.len(),
    ensures
        ({
            let at = offset(log, k as nat);
            let t = b.skip(at as int);
            &&& 4 <= at < b.len()
            &&& serialize::readable(t)
            &&& serialize::entry_in(t, at as u64) == log[k]
            &&& at + serialize::end_at(t) == offset(log, (k + 1) as nat)
            &&& offset(log, (k + 1) as nat) <= b.len()
        }),
{
    let at = offset(log, k as nat);
    let t = b.skip(at as int);
    let size = ledger::size_of(log[k]);
    lemma_offset_ascends(log, 0, k as nat);
    lemma_offset_ascends(log, (k + 1) as nat, log.len());
    assert(placed(b, log, k));
    serialize::lemma_storable_writable(log[k], at as u64);
    serialize::lemma_encode_len(log[k]);
    assert(t.take(size as int) =~= b.subrange(at as int, (at + size) as int));
    serialize::law_read_back(log[k], at as u64, t);
}

/// The bytes determine the entries.
pub proof fn law_one_log(b: Seq<u8>, one: Seq<EntryModel>, other: Seq<EntryModel>)
    requires
        holds(b, one),
        holds(b, other),
    ensures
        one == other,
{
    lemma_common(b, one, other, one.len());
    if one.len() < other.len() {
        lemma_offset(one, other, one.len());
        lemma_offset_ascends(other, one.len(), other.len());
    }
    assert(one =~= other);
}

proof fn lemma_common(b: Seq<u8>, one: Seq<EntryModel>, other: Seq<EntryModel>, k: nat)
    requires
        holds(b, one),
        holds(b, other),
        k <= one.len(),
    ensures
        k <= other.len(),
        forall|x: int| 0 <= x < k ==> one[x] == other[x],
    decreases k,
{
    if k > 0 {
        let m = (k - 1) as nat;
        lemma_common(b, one, other, m);
        lemma_offset(one, other, m);
        lemma_offset_ascends(one, m, one.len());
        if m == other.len() {
            assert(offset(other, m) == b.len());
        } else {
            lemma_placed(b, one, m as int);
            lemma_placed(b, other, m as int);
        }
    }
}

/// The entries and the version determine the bytes.
pub proof fn law_one_form(a: Seq<u8>, b: Seq<u8>, log: Seq<EntryModel>)
    requires
        holds(a, log),
        holds(b, log),
        a[3] == b[3],
    ensures
        a == b,
{
    lemma_same_start(a, b, log, log.len());
    assert(a.take(a.len() as int) =~= a);
    assert(b.take(b.len() as int) =~= b);
}

proof fn lemma_same_start(a: Seq<u8>, b: Seq<u8>, log: Seq<EntryModel>, k: nat)
    requires
        holds(a, log),
        holds(b, log),
        a[3] == b[3],
        k <= log.len(),
    ensures
        a.take(offset(log, k) as int) == b.take(offset(log, k) as int),
    decreases k,
{
    lemma_offset_ascends(log, k, log.len());
    let end = offset(log, k) as int;
    if k == 0 {
        assert forall|x: int| 0 <= x < 4 implies a[x] == b[x] by {
            if x < 3 {
                assert(a.take(3)[x] == b.take(3)[x]);
            }
        }
    } else {
        lemma_same_start(a, b, log, (k - 1) as nat);
        assert(placed(a, log, k - 1));
        assert(placed(b, log, k - 1));
        let at = offset(log, (k - 1) as nat) as int;
        assert(a.take(end) =~= a.take(at) + a.subrange(at, end));
        assert(b.take(end) =~= b.take(at) + b.subrange(at, end));
    }
}

/// The positions of the entries ascend.
proof fn lemma_bytes_ordered(b: Seq<u8>, log: Seq<EntryModel>)
    requires
        holds(b, log),
    ensures
        ledger::ordered(log, b.len()),
        forall|k: int|
            0 <= k < log.len() ==> (#[trigger] log[k]).meta.address.position == offset(
                log,
                k as nat,
            ) && ledger::next_position(log, b.len(), k) == offset(log, (k + 1) as nat),
{
    lemma_offset_ascends(log, 0, log.len());
    assert forall|k: int| 0 <= k < log.len() implies (#[trigger] log[k]).meta.address.position
        == offset(log, k as nat) && ledger::next_position(log, b.len(), k) == offset(
        log,
        (k + 1) as nat,
    ) by {
        assert(placed(b, log, k));
        if k + 1 < log.len() {
            assert(placed(b, log, k + 1));
        }
    }
    assert forall|x: int, y: int| 0 <= x < y < log.len() implies (
    #[trigger] log[x]).meta.address.position < (#[trigger] log[y]).meta.address.position by {
        lemma_offset_ascends(log, x as nat, y as nat);
    }
    assert forall|x: int| 0 <= x < log.len() implies (#[trigger] log[x]).meta.address.position
        < b.len() by {
        lemma_offset_ascends(log, x as nat, log.len());
    }
}

/// One more entry.
proof fn lemma_holds_push(b: Seq<u8>, log: Seq<EntryModel>, e: EntryModel)
    requires
        holds(b, log),
        ledger::storable(e, b.len() as u64),
        b.len() + ledger::size_of(e) <= u64::MAX,
    ensures
        holds(b + serialize::encode(e), log.push(e)),
{
    let more = b + serialize::encode(e);
    let longer = log.push(e);
    serialize::lemma_storable_writable(e, b.len() as u64);
    serialize::lemma_encode_len(e);
    lemma_offset(log, longer, log.len());
    assert(more.take(3) =~= b.take(3));
    assert forall|k: int| 0 <= k < longer.len() implies #[trigger] placed(more, longer, k) by {
        lemma_offset(log, longer, if k < log.len() {
            k as nat
        } else {
            log.len()
        });
        if k < log.len() {
            assert(placed(b, log, k));
            let at = offset(log, k as nat);
            let end = at + ledger::size_of(log[k]);
            assert(more.subrange(at as int, end as int) =~= b.subrange(at as int, end as int));
        } else {
            assert(more.subrange(b.len() as int, more.len() as int) =~= serialize::encode(e));
        }
    }
}

/// The entries before the `n`-th.
proof fn lemma_holds_take(b: Seq<u8>, log: Seq<EntryModel>, n: nat)
    requires
        holds(b, log),
        n <= log.len(),
    ensures
        holds(b.take(offset(log, n) as int), log.take(n as int)),
        4 <= offset(log, n) <= b.len(),
{
    let low = log.take(n as int);
    lemma_offset_ascends(log, 0, n);
    lemma_offset_ascends(log, n, log.len());
    let less = b.take(offset(log, n) as int);
    lemma_offset(log, low, n);
    assert(less.take(3) =~= b.take(3));
    assert forall|k: int| 0 <= k < low.len() implies #[trigger] placed(less, low, k) by {
        lemma_offset(log, low, k as nat);
        lemma_offset_ascends(log, (k + 1) as nat, n);
        assert(placed(b, log, k));
        let at = offset(log, k as nat);
        let end = at + ledger::size_of(log[k]);
        assert(less.subrange(at as int, end as int) =~= b.subrange(at as int, end as int));
    }
}

/// The last bytes of a storage give the size of the last entry.
proof fn lemma_trailer(b: Seq<u8>, log: Seq<EntryModel>)
    requires
        holds(b, log),
        log.len() > 0,
    ensures
        b.len() >= 61,
        serialize::u32_at(b, b.len() - 12) == ledger::size_of(log.last()),
        b.len() - ledger::size_of(log.last()) == offset(log, (log.len() - 1) as nat),
        offset(log, (log.len() - 1) as nat) >= 4,
{
    let n = log.len();
    lemma_placed(b, log, n - 1);
    lemma_offset_ascends(log, 0, (n - 1) as nat);
    let at = offset(log, (n - 1) as nat) as int;
    let t = b.skip(at);
    let x = serialize::trailer_at(t);
    assert(t.subrange(x, x + 4) =~= b.subrange(b.len() - 12, b.len() - 8));
}

/// Reads the entry at a position of the device, and the position right behind it.
fn read_at<D: BlockDevice>(device: &D, position: Position) -> (r: Result<
    Option<(Entry, Position)>,
>)
    ensures
        r matches Ok(None) ==> position >= device.bytes().len(),
        r matches Ok(Some((entry, next))) ==> {
            let t = device.bytes().skip(position as int);
            &&& position < device.bytes().len()
            &&& serialize::readable(t)
            &&& entry@ == serialize::entry_in(t, position)
            &&& next == position + serialize::end_at(t)
        },
        device.reliable() && position >= device.bytes().len() ==> r is Ok,
        device.reliable() && position < device.bytes().len() && serialize::readable(
            device.bytes().skip(position as int),
        ) ==> r is Ok,
        device.reliable() && r is Err ==> position < device.bytes().len()
            && serialize::unreadable(device.bytes().skip(position as int), position, r->Err_0),
{
    let size: u64 = device.size()?;
    if position >= size {
        return Ok(None);
    }
    let ghost b = device.bytes();
    let ghost t = b.skip(position as int);
    if size - position < 9 {
        return Err(serialize::short());
    }
    let mut all: Vec<u8> = device.read(position, 9)?;
    proof {
        assert(all@ =~= t.take(9));
    }
    let count: u64 = all[8] as u64;
    let length: u64 = 50 * count + 4;
    if size - position - 9 < length {
        return Err(serialize::short());
    }
    let mut part: Vec<u8> = device.read(position + 9, length)?;
    proof {
        assert(part@ =~= t.subrange(9, 9 + length));
        assert(part@.subrange(50 * count as int, 50 * count + 4).take(4) =~= t.subrange(
            serialize::length_at(t),
            serialize::length_at(t) + 4,
        ));
    }
    let payload_len: u32 = serialize::read_u32(
        vstd::slice::slice_subrange(
            part.as_slice(),
            50 * count as usize,
            50 * count as usize + 4,
        ),
    );
    all.append(&mut part);
    let rest: u64 = payload_len as u64 + 44;
    proof {
        assert(all@ =~= t.take(9 + length));
        assert(serialize::end_at(t) == 9 + length + rest);
    }
    if size - position - 9 - length < rest {
        return Err(serialize::short());
    }
    let mut part: Vec<u8> = device.read(position + 9 + length, rest)?;
    proof {
        assert(part@ =~= t.subrange(9 + length, 9 + length + rest));
    }
    all.append(&mut part);
    proof {
        assert(all@ =~= t.take(serialize::end_at(t)));
        serialize::lemma_read_local(t, position, serialize::end_at(t));
    }
    match serialize::read_entry_from(all.as_slice(), position) {
        Ok(entry) => Ok(Some((entry, position + 9 + length + rest))),
        Err(error) => Err(error),
    }
}

/// A storage on a device.
#[derive(Debug)]
pub struct BlockStorage<D: BlockDevice> {
    device: D,
}

impl<D: BlockDevice> BlockStorage<D> {
    /// The bytes on the device.
    pub closed spec fn bytes(&self) -> Seq<u8> {
        self.device.bytes()
    }

    /// The device.
    pub closed spec fn on(&self) -> D {
        self.device
    }

    /// A storage on the device.
    pub fn new(device: D) -> (r: Self)
        ensures
            r.on() == device,
            r.bytes() == device.bytes(),
            r.reliable() == device.reliable(),
            r.writable() == device.writable(),
    {
        BlockStorage { device }
    }

    /// The device.
    pub fn device(&self) -> (r: &D)
        ensures
            *r == self.on(),
            r.bytes() == self.bytes(),
    {
        &self.device
    }

    /// Puts the identifier and the version on the device.
    fn boot(&mut self) -> (r: Result<()>)
        requires
            old(self).bytes().len() == 0,
        ensures
            final(self).reliable() == old(self).reliable(),
            final(self).writable() == old(self).writable(),
            r is Ok ==> final(self).bytes() == header() && holds(final(self).bytes(), seq![]),
            old(self).reliable() && r is Err ==> *final(self) == *old(self) && r->Err_0 is Io,
            old(self).reliable() && old(self).writable() ==> r is Ok,
            !old(self).writable() ==> r is Err,
    {
        let mut head: Vec<u8> = Vec::with_capacity(4);
        head.push(STORAGE_IDENTIFIER[0]);
        head.push(STORAGE_IDENTIFIER[1]);
        head.push(STORAGE_IDENTIFIER[2]);
        head.push(STORAGE_VERSION);
        let r = self.device.append(head.as_slice());
        proof {
            if r is Ok {
                let b = self.device.bytes();
                assert(b =~= header());
                assert(b.take(3) =~= STORAGE_IDENTIFIER@);
                let none: Seq<EntryModel> = seq![];
                assert(holds(b, none));
            }
        }
        r
    }

    /// Tests the identifier and the version.
    fn check_header(&self) -> (r: Result<()>)
        requires
            self.bytes().len() >= 4,
        ensures
            r is Ok ==> header_fits(self.bytes()),
            self.reliable() && header_fits(self.bytes()) ==> r is Ok,
            self.reliable() && self.bytes().take(3) != STORAGE_IDENTIFIER@ ==> r is Err && foreign(
                r->Err_0,
                "invalid identifier"@,
            ),
            self.reliable() && self.bytes().take(3) == STORAGE_IDENTIFIER@ && !compatible(
                self.bytes()[3],
            ) ==> r == Err::<(), Error>(
                Error::IncompatibleVersion(
                    (self.bytes()[3] / 16) as u8,
                    (self.bytes()[3] % 16) as u8,
                ),
            ),
    {
        let head: Vec<u8> = self.device.read(0, 4)?;
        proof {
            assert(head@ =~= self.bytes().take(4));
            assert(self.bytes()[3] == head@[3]);
        }
        if head[0] != STORAGE_IDENTIFIER[0] || head[1] != STORAGE_IDENTIFIER[1] || head[2]
            != STORAGE_IDENTIFIER[2] {
            proof {
                assert(self.bytes().take(3)[0] == head@[0]);
                assert(self.bytes().take(3)[1] == head@[1]);
                assert(self.bytes().take(3)[2] == head@[2]);
            }
            return Err(
                Error::StorageisNotForSlate { message: "invalid identifier" },
            );
        }
        proof {
            assert(self.bytes().take(3) =~= STORAGE_IDENTIFIER@);
        }
        if !is_version_compatible(head[3]) {
            return Err(Error::IncompatibleVersion(head[3] / 16, head[3] % 16));
        }
        Ok(())
    }

    /// Reads the last entry, by the offset that the device ends with.
    fn read_last(&self, size: u64) -> (r: Result<Entry>)
        requires
            size == self.bytes().len(),
            size > 4,
        ensures
            self.reliable() ==> (r is Ok <==> ends_well(self.bytes())),
            self.reliable() && r is Err ==> ends_badly(self.bytes(), r->Err_0),
            r matches Ok(entry) ==> ends_well(self.bytes()) && Some(entry@) == bytes_latest(
                self.bytes(),
            ),
            forall|log: Seq<EntryModel>| #[trigger]
                holds(self.bytes(), log) ==> {
                    &&& self.reliable() ==> r is Ok
                    &&& r matches Ok(entry) ==> log.len() > 0 && entry@ == log.last()
                },
    {
        let ghost b = self.device.bytes();
        proof {
            assert forall|log: Seq<EntryModel>| #[trigger] holds(b, log) implies log.len() > 0 by {
                assert(offset(log, log.len()) == size);
            }
            assert forall|log: Seq<EntryModel>| #[trigger] holds(b, log) implies {
                &&& b.len() >= 61
                &&& serialize::u32_at(b, b.len() - 12) == ledger::size_of(log.last())
                &&& b.len() - ledger::size_of(log.last()) == offset(log, (log.len() - 1) as nat)
                &&& offset(log, (log.len() - 1) as nat) >= 4
            } by {
                lemma_trailer(b, log);
            }
        }
        if size < 61 {
            return Err(Error::DamagedStorage("the last entry is too short".to_owned()));
        }
        let trailer: Vec<u8> = self.device.read(size - 12, 12)?;
        proof {
            assert(trailer@.take(4) =~= b.subrange(b.len() - 12, b.len() - 8));
        }
        let back: u32 = serialize::read_u32(trailer.as_slice());
        if back as u64 > size - 4 {
            return Err(
                Error::DamagedStorage("the offset to the last entry is too large".to_owned()),
            );
        }
        let position: u64 = size - back as u64;
        proof {
            assert forall|log: Seq<EntryModel>| #[trigger] holds(b, log) implies {
                let t = b.skip(position as int);
                &&& serialize::readable(t)
                &&& serialize::entry_in(t, position) == log.last()
                &&& position + serialize::end_at(t) == size
                &&& position < size
            } by {
                lemma_placed(b, log, log.len() - 1);
            }
        }
        match read_at(&self.device, position) {
            Ok(Some((entry, next))) => if next == size {
                Ok(entry)
            } else {
                Err(
                    Error::DamagedStorage(
                        "the last entry doesn't end with the storage".to_owned(),
                    ),
                )
            },
            Ok(None) => Err(Error::DamagedStorage("the last entry is missing".to_owned())),
            Err(error) => Err(error),
        }
    }
}

impl BlockStorage<MemoryDevice> {
    /// An empty storage in memory.
    pub fn memory() -> (r: Self)
        ensures
            r.bytes() == Seq::<u8>::empty(),
            r.reliable(),
            r.writable(),
    {
        BlockStorage { device: MemoryDevice::new() }
    }

    /// A storage in memory with the given bytes.
    pub fn from_buffer(buffer: Vec<u8>, read_only: bool) -> (r: Self)
        ensures
            r.bytes() == buffer@,
            r.reliable(),
            r.writable() == !read_only,
    {
        BlockStorage { device: MemoryDevice::with(buffer, read_only) }
    }
}

impl<D: BlockDevice> Storage for BlockStorage<D> {
    type Reader = BlockReader<D>;

    open spec fn log(&self) -> Seq<EntryModel> {
        bytes_log(self.bytes())
    }

    open spec fn end(&self) -> nat {
        bytes_end(self.bytes())
    }

    open spec fn intact(&self) -> bool {
        bytes_intact(self.bytes())
    }

    open spec fn found(&self) -> Map<u64, EntryModel> {
        bytes_found(self.bytes())
    }

    open spec fn failing(&self) -> spec_fn(Position, Error) -> bool {
        bytes_failing(self.bytes())
    }

    open spec fn behind(&self) -> spec_fn(Position) -> Position {
        bytes_behind(self.bytes())
    }

    open spec fn past(&self) -> spec_fn(Position) -> bool {
        bytes_past(self.bytes())
    }

    open spec fn readied(&self, after: &Self) -> bool {
        after.bytes() == bytes_readied(self.bytes())
    }

    open spec fn telling(before: Self, after: Self, r: Result<(Option<Entry>, Position)>) -> bool {
        let b = before.bytes();
        &&& b.len() > 0 ==> after == before
        &&& match r {
            Ok((_, position)) => position == bytes_end(b) && after.bytes() == bytes_readied(b),
            Err(error) => before.reliable() ==> after == before && unopened(b, error),
        }
    }

    open spec fn putting(
        before: Self,
        position: Position,
        entry: EntryModel,
        after: Self,
        r: Result<Position>,
    ) -> bool {
        let b = before.bytes();
        let fits = position == bytes_end(b) && ledger::storable(entry, position);
        match r {
            Ok(next) => {
                &&& fits
                &&& next == position + ledger::size_of(entry)
                &&& after.bytes() == bytes_readied(b) + serialize::encode(entry)
            },
            Err(error) => before.reliable() ==> after == before && if fits {
                error is Io
            } else {
                refused(error, "the entry doesn't belong to the position"@)
            },
        }
    }

    open spec fn removing(before: Self, position: Position, after: Self, r: Result<bool>) -> bool {
        let b = before.bytes();
        match r {
            Ok(removed) => {
                &&& removed == (position < b.len())
                &&& removed ==> position >= 4
                &&& after.bytes() == (if removed {
                    b.take(position as int)
                } else {
                    b
                })
            },
            Err(error) => before.reliable() ==> after == before && if position < 4 {
                refused(error, "the position is before the first entry"@)
            } else {
                error is Io
            },
        }
    }

    open spec fn opens(&self) -> bool {
        (self.bytes().len() == 0 && self.writable()) || bytes_open(self.bytes())
    }

    open spec fn latest(&self) -> Option<EntryModel> {
        bytes_latest(self.bytes())
    }

    open spec fn reliable(&self) -> bool {
        self.on().reliable()
    }

    open spec fn writable(&self) -> bool {
        self.on().writable()
    }

    fn last(&mut self) -> (r: Result<(Option<Entry>, Position)>) {
        let size: u64 = self.device.size()?;
        let ghost b = self.device.bytes();
        if size == 0 {
            match self.boot() {
                Ok(()) => {},
                Err(error) => {
                    return Err(error);
                },
            }
            proof {
                assert(self.found() =~= old(self).found());
                let none: Seq<EntryModel> = seq![];
                law_one_log(self.bytes(), none, self.log());
            }
            return Ok((None, 4));
        }
        if size < 4 {
            return Err(
                Error::StorageisNotForSlate { message: "the identifier is missing" },
            );
        }
        match self.check_header() {
            Ok(()) => {},
            Err(error) => {
                return Err(error);
            },
        }
        if size == 4 {
            proof {
                if bytes_intact(b) {
                    lemma_offset_ascends(self.log(), 0, self.log().len());
                }
            }
            return Ok((None, 4));
        }
        match self.read_last(size) {
            Ok(entry) => Ok((Some(entry), size)),
            Err(error) => Err(error),
        }
    }

    fn put(&mut self, position: Position, entry: &Entry) -> (r: Result<Position>) {
        let size: u64 = self.device.size()?;
        let ghost b = self.device.bytes();
        let ghost log = self.log();
        let end: u64 = if size == 0 {
            4
        } else {
            size
        };
        if position != end || !ledger::is_storable(entry, position) {
            return Err(
                Error::InvalidArgument("the entry doesn't belong to the position".to_owned()),
            );
        }
        proof {
            serialize::lemma_storable_writable(entry@, position);
        }
        let bytes: Vec<u8> = serialize::write_entry_to(entry);
        if bytes.len() as u64 > u64::MAX - end {
            return Err(Error::Io { message: "the storage is full".to_owned() });
        }
        if size == 0 {
            match self.boot() {
                Ok(()) => {},
                Err(error) => {
                    return Err(error);
                },
            }
            proof {
                let none: Seq<EntryModel> = seq![];
                law_one_log(self.bytes(), none, self.log());
                assert(log =~= none);
            }
        }
        let ghost booted = self.device.bytes();
        match self.device.append(bytes.as_slice()) {
            Ok(()) => {
                proof {
                    if bytes_intact(b) {
                        lemma_holds_push(booted, log, entry@);
                        law_one_log(self.bytes(), log.push(entry@), self.log());
                    }
                }
                Ok(position + bytes.len() as u64)
            },
            Err(error) => Err(error),
        }
    }

    fn truncate(&mut self, position: Position) -> (r: Result<bool>) {
        let size: u64 = self.device.size()?;
        let ghost b = self.device.bytes();
        let ghost log = self.log();
        proof {
            if bytes_intact(b) && b.len() > 0 {
                lemma_bytes_ordered(b, log);
            }
        }
        if position >= size {
            return Ok(false);
        }
        if position < 4 {
            return Err(
                Error::InvalidArgument("the position is before the first entry".to_owned()),
            );
        }
        match self.device.truncate(position) {
            Ok(()) => {},
            Err(error) => {
                return Err(error);
            },
        }
        proof {
            if bytes_intact(b) {
                assert forall|k: int|
                    0 <= k < log.len() && (#[trigger] log[k]).meta.address.position
                        == position implies self.log() == log.take(k) && self.intact()
                    && self.end() == position by {
                    lemma_holds_take(b, log, k as nat);
                    law_one_log(self.bytes(), log.take(k), self.log());
                }
            }
        }
        Ok(true)
    }

    fn reader(&self) -> (r: Result<BlockReader<D>>) {
        proof {
            if self.intact() && self.bytes().len() > 0 {
                lemma_bytes_ordered(self.bytes(), self.log());
                assert forall|k: int| 0 <= k < self.log().len() implies {
                    let position = (#[trigger] self.log()[k]).meta.address.position;
                    self.found().contains_key(position) && self.found()[position] == self.log()[k]
                } by {
                    lemma_placed(self.bytes(), self.log(), k);
                }
            }
        }
        Ok(BlockReader { device: self.device.share()? })
    }
}

/// Reads entries from a [`BlockStorage`].
pub struct BlockReader<D: BlockDevice> {
    device: D,
}

impl<D: BlockDevice> BlockReader<D> {
    /// The bytes on the device.
    pub closed spec fn bytes(&self) -> Seq<u8> {
        self.device.bytes()
    }

    /// The device.
    pub closed spec fn on(&self) -> D {
        self.device
    }
}

impl<D: BlockDevice> Reader for BlockReader<D> {
    open spec fn log(&self) -> Seq<EntryModel> {
        bytes_log(self.bytes())
    }

    open spec fn end(&self) -> nat {
        bytes_end(self.bytes())
    }

    open spec fn intact(&self) -> bool {
        bytes_intact(self.bytes())
    }

    open spec fn found(&self) -> Map<u64, EntryModel> {
        bytes_found(self.bytes())
    }

    open spec fn failing(&self) -> spec_fn(Position, Error) -> bool {
        bytes_failing(self.bytes())
    }

    open spec fn behind(&self) -> spec_fn(Position) -> Position {
        bytes_behind(self.bytes())
    }

    open spec fn past(&self) -> spec_fn(Position) -> bool {
        bytes_past(self.bytes())
    }

    open spec fn reading(
        before: Self,
        position: Position,
        after: Self,
        r: Result<Option<(Entry, Position)>>,
    ) -> bool {
        let b = before.bytes();
        let t = b.skip(position as int);
        match r {
            Ok(None) => position >= b.len(),
            Ok(Some((entry, next))) => {
                &&& position < b.len()
                &&& serialize::readable(t)
                &&& entry@ == serialize::entry_in(t, position)
                &&& next == position + serialize::end_at(t)
            },
            Err(error) => before.reliable() ==> {
                &&& position < b.len()
                &&& !serialize::readable(t)
                &&& serialize::unreadable(t, position, error)
            },
        }
    }

    open spec fn reliable(&self) -> bool {
        self.on().reliable()
    }

    fn read_next(&mut self, position: Position) -> (r: Result<Option<(Entry, Position)>>) {
        let ghost b = self.device.bytes();
        let ghost log = self.log();
        proof {
            if bytes_intact(b) && b.len() > 0 {
                lemma_bytes_ordered(b, log);
                assert forall|k: int|
                    0 <= k < log.len() && (#[trigger] log[k]).meta.address.position
                        == position implies {
                    let t = b.skip(position as int);
                    &&& position < b.len()
                    &&& serialize::readable(t)
                    &&& serialize::entry_in(t, position) == log[k]
                    &&& position + serialize::end_at(t) == ledger::next_position(log, b.len(), k)
                } by {
                    lemma_placed(b, log, k);
                }
            }
        }
        read_at(&self.device, position)
    }
}

/// A storage starts with the three bytes of the identifier and a version whose upper half is that of
/// this version; one without entries holds these four bytes and nothing else.
pub proof fn law_header(b: Seq<u8>)
    ensures
        header_fits(b) <==> b.len() >= 4 && b[0] == STORAGE_IDENTIFIER[0] && b[1]
            == STORAGE_IDENTIFIER[1] && b[2] == STORAGE_IDENTIFIER[2] && b[3] / 16
            == STORAGE_VERSION / 16,
        header() == seq![
            STORAGE_IDENTIFIER[0],
            STORAGE_IDENTIFIER[1],
            STORAGE_IDENTIFIER[2],
            STORAGE_VERSION,
        ],
        b.len() == 0 ==> bytes_readied(b) == header(),
        b.len() > 0 ==> bytes_readied(b) == b,
{
    assert(header() =~= seq![
        STORAGE_IDENTIFIER[0],
        STORAGE_IDENTIFIER[1],
        STORAGE_IDENTIFIER[2],
        STORAGE_VERSION,
    ]);
    if b.len() >= 4 {
        assert(b.take(3)[0] == b[0] && b.take(3)[1] == b[1] && b.take(3)[2] == b[2]);
        if b[0] == STORAGE_IDENTIFIER[0] && b[1] == STORAGE_IDENTIFIER[1] && b[2]
            == STORAGE_IDENTIFIER[2] {
            assert(b.take(3) =~= STORAGE_IDENTIFIER@);
        }
    }
}

/// The entries of a storage stand one behind the other, from the fourth byte to the end, each in its
/// serialized form at its position.
pub proof fn law_storage_layout(b: Seq<u8>, log: Seq<EntryModel>)
    requires
        holds(b, log),
    ensures
        header_fits(b),
        log.len() == 0 ==> b.len() == 4,
        log.len() > 0 ==> log[0].meta.address.position == 4,
        forall|k: int|
            0 <= k < log.len() ==> {
                let at = (#[trigger] log[k]).meta.address.position as int;
                let size = serialize::encode(log[k]).len() as int;
                &&& at + size <= b.len()
                &&& b.subrange(at, at + size) == serialize::encode(log[k])
                &&& k + 1 < log.len() ==> log[k + 1].meta.address.position == at + size
                &&& k + 1 == log.len() ==> at + size == b.len()
            },
{
    lemma_bytes_ordered(b, log);
    assert forall|k: int| 0 <= k < log.len() implies {
        let at = (#[trigger] log[k]).meta.address.position as int;
        let size = serialize::encode(log[k]).len() as int;
        &&& at + size <= b.len()
        &&& b.subrange(at, at + size) == serialize::encode(log[k])
        &&& k + 1 < log.len() ==> log[k + 1].meta.address.position == at + size
        &&& k + 1 == log.len() ==> at + size == b.len()
    } by {
        assert(placed(b, log, k));
        let at = offset(log, k as nat);
        serialize::lemma_storable_writable(log[k], at as u64);
        serialize::lemma_encode_len(log[k]);
        if k + 1 < log.len() {
            assert(placed(b, log, k + 1));
        }
    }
    if log.len() > 0 {
        assert(placed(b, log, 0));
    }
}

/// What is found at a position is the entry that the bytes from there on start with, where there is
/// one that is not damaged; the next one is looked for right behind it; and behind the last byte
/// there is none.
pub proof fn law_found(b: Seq<u8>, p: u64)
    ensures
        bytes_found(b).contains_key(p) <==> p < b.len() && serialize::readable(b.skip(p as int)),
        bytes_found(b).contains_key(p) ==> bytes_found(b)[p] == serialize::entry_in(
            b.skip(p as int),
            p,
        ),
        bytes_found(b).contains_key(p) && b.len() <= u64::MAX ==> (bytes_behind(b))(p) == p
            + serialize::end_at(b.skip(p as int)),
        (bytes_past(b))(p) <==> p >= b.len(),
        forall|error: Error| #[trigger]
            (bytes_failing(b))(p, error) ==> (p < b.len() ==> serialize::unreadable(
                b.skip(p as int),
                p,
                error,
            )) && (p >= b.len() ==> error is Io),
{
}

/// In a storage every entry is found at its position, and the latest one is the last.
pub proof fn law_latest(b: Seq<u8>, log: Seq<EntryModel>)
    requires
        holds(b, log),
    ensures
        bytes_open(b),
        log.len() == 0 ==> bytes_latest(b) is None,
        log.len() > 0 ==> bytes_latest(b) == Some(log.last()),
        forall|k: int|
            0 <= k < log.len() ==> bytes_found(b).contains_key(
                (#[trigger] log[k]).meta.address.position,
            ) && bytes_found(b)[log[k].meta.address.position] == log[k],
{
    lemma_bytes_ordered(b, log);
    lemma_offset_ascends(log, 0, log.len());
    if log.len() > 0 {
        lemma_trailer(b, log);
        lemma_placed(b, log, log.len() - 1);
    }
    assert forall|k: int| 0 <= k < log.len() implies bytes_found(b).contains_key(
        (#[trigger] log[k]).meta.address.position,
    ) && bytes_found(b)[log[k].meta.address.position] == log[k] by {
        lemma_placed(b, log, k);
    }
}

/// The serialized form of an entry that belongs to the end of a storage, put behind it, makes the
/// storage with one more entry; and what stands before an entry is the storage of the earlier ones.
pub proof fn law_grow_and_cut(b: Seq<u8>, log: Seq<EntryModel>, e: EntryModel, k: int)
    requires
        holds(b, log),
    ensures
        ledger::storable(e, b.len() as u64) && b.len() + serialize::encode(e).len() <= u64::MAX
            ==> holds(b + serialize::encode(e), log.push(e)),
        0 <= k < log.len() ==> holds(
            b.take(log[k].meta.address.position as int),
            log.take(k),
        ),
{
    if ledger::storable(e, b.len() as u64) && b.len() + serialize::encode(e).len() <= u64::MAX {
        serialize::lemma_storable_writable(e, b.len() as u64);
        serialize::lemma_encode_len(e);
        lemma_holds_push(b, log, e);
    }
    if 0 <= k < log.len() {
        assert(placed(b, log, k));
        lemma_holds_take(b, log, k as nat);
    }
}

/// The version of a storage can be read exactly if its major part, the upper half, is that of this
/// version.
pub proof fn law_version(version: u8)
    ensures
        compatible(version) <==> version / 16 == STORAGE_VERSION / 16,
{
}

/// With which error bytes are refused whose latest entry cannot be told: they are not those of a
/// storage, or of another major version, or they do not end with an entry.
pub proof fn law_unopened(b: Seq<u8>, error: Error)
    requires
        unopened(b, error),
        b.len() > 0,
        !bytes_open(b),
    ensures
        if b.len() < 4 || b[0] != STORAGE_IDENTIFIER[0] || b[1] != STORAGE_IDENTIFIER[1] || b[2]
            != STORAGE_IDENTIFIER[2] {
            error is StorageisNotForSlate
        } else if b[3] / 16 != STORAGE_VERSION / 16 {
            error == Error::IncompatibleVersion((b[3] / 16) as u8, (b[3] % 16) as u8)
        } else {
            let start = b.len() - vstd::bytes::spec_u32_from_le_bytes(
                b.subrange(b.len() - 12, b.len() - 8),
            );
            &&& b.len() > 4
            &&& b.len() >= 61 && 4 <= start < b.len() && !serialize::readable(b.skip(start))
                ==> serialize::unreadable(b.skip(start), start as u64, error)
            &&& !(b.len() >= 61 && 4 <= start < b.len() && !serialize::readable(b.skip(start)))
                ==> error is DamagedStorage
        },
{
    law_header(b);
    if b.len() >= 4 {
        assert(b.take(3)[0] == b[0] && b.take(3)[1] == b[1] && b.take(3)[2] == b[2]);
        if b[0] == STORAGE_IDENTIFIER[0] && b[1] == STORAGE_IDENTIFIER[1] && b[2]
            == STORAGE_IDENTIFIER[2] {
            assert(b.take(3) =~= STORAGE_IDENTIFIER@);
        }
    }
}

/// Bytes are opened exactly if they start as those of a storage do and are nothing else, or end with
/// an entry whose recorded length leads back to its first byte.
pub proof fn law_opened(b: Seq<u8>)
    ensures
        ({
            let start = b.len() - vstd::bytes::spec_u32_from_le_bytes(
                b.subrange(b.len() - 12, b.len() - 8),
            );
            bytes_open(b) <==> header_fits(b) && (b.len() == 4 || {
                &&& b.len() >= 61
                &&& 4 <= start < b.len()
                &&& serialize::readable(b.skip(start))
                &&& start + serialize::end_at(b.skip(start)) == b.len()
            })
        }),
        bytes_open(b) && b.len() > 4 ==> {
            let start = b.len() - vstd::bytes::spec_u32_from_le_bytes(
                b.subrange(b.len() - 12, b.len() - 8),
            );
            bytes_latest(b) == Some(serialize::entry_in(b.skip(start), start as u64))
        },
{
}

/// What the operations of a storage on a device leave on it: telling the latest entry leaves the
/// bytes, or the header where there were none; storing an entry puts its serialized form behind
/// them; removing leaves those before the position.
pub proof fn law_operations<D: BlockDevice>(
    before: BlockStorage<D>,
    after: BlockStorage<D>,
    position: Position,
    next: Position,
    e: EntryModel,
    latest: Option<Entry>,
    removed: bool,
)
    ensures
        <BlockStorage<D> as Storage>::telling(before, after, Ok((latest, next))) ==> after.bytes()
            == (if before.bytes().len() == 0 {
            header()
        } else {
            before.bytes()
        }) && next == after.bytes().len(),
        <BlockStorage<D> as Storage>::putting(before, position, e, after, Ok(next))
            ==> after.bytes() == (if before.bytes().len() == 0 {
            header()
        } else {
            before.bytes()
        }) + serialize::encode(e) && next == after.bytes().len() && position + serialize::encode(
            e,
        ).len() == next,
        <BlockStorage<D> as Storage>::removing(before, position, after, Ok(removed)) ==> (removed
            <==> position < before.bytes().len()) && (removed ==> position >= 4 && after.bytes()
            == before.bytes().take(position as int)) && (!removed ==> after.bytes()
            == before.bytes()),
{
    if <BlockStorage<D> as Storage>::putting(before, position, e, after, Ok(next)) {
        serialize::lemma_storable_writable(e, position);
        serialize::lemma_encode_len(e);
    }
}

} // verus!
