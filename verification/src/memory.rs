//! Storage in memory.
use crate::block;
use crate::block::BlockDevice;
use crate::entry::{Entry, EntryModel, Position};
use crate::error::{Error, Result};
use crate::ledger;
use crate::serialize;
use crate::shared::{make_mut, share};
use crate::storage::{Reader, Storage};
use std::collections::HashMap;
use std::sync::Arc;
use vstd::prelude::*;

verus! {

broadcast use vstd::std_specs::hash::group_hash_axioms;

/// The entries under the keys from 0 on.
pub open spec fn kvs_log(kvs: Map<u64, Entry>) -> Seq<EntryModel> {
    Seq::new(kvs.len(), |k: int| kvs[k as u64]@)
}

/// Whether the keys are the numbers from 0 on, and every entry has its key as its position.
pub open spec fn kvs_intact(kvs: Map<u64, Entry>) -> bool {
    &&& kvs.dom().finite()
    &&& kvs.len() <= u64::MAX
    &&& forall|k: u64| #[trigger] kvs.contains_key(k) <==> k < kvs.len()
    &&& forall|k: u64| k < kvs.len() ==> ledger::storable((#[trigger] kvs[k])@, k)
}

/// The entries that are found at the positions.
pub open spec fn kvs_found(kvs: Map<u64, Entry>) -> Map<u64, EntryModel> {
    Map::new(|p: u64| p < u64::MAX && kvs.contains_key(p), |p: u64| kvs[p]@)
}

/// The errors with which reading at the other positions fails.
pub open spec fn kvs_failing() -> spec_fn(Position, Error) -> bool {
    |_p: Position, error: Error| serialize::is_short(error)
}

/// The position right behind the entry that is found at a position.
pub open spec fn kvs_behind() -> spec_fn(Position) -> Position {
    |p: Position| (p + 1) as Position
}

/// Whether a position is one without an entry.
pub open spec fn kvs_past(kvs: Map<u64, Entry>) -> spec_fn(Position) -> bool {
    |p: Position| !kvs_found(kvs).contains_key(p)
}

/// Whether there are no entries, or the last one by number is there.
pub open spec fn kvs_open(kvs: Map<u64, Entry>) -> bool {
    kvs.len() == 0 || kvs.contains_key((kvs.len() - 1) as u64)
}

/// The last entry by number.
pub open spec fn kvs_latest(kvs: Map<u64, Entry>) -> Option<EntryModel> {
    if kvs.len() == 0 {
        None
    } else {
        Some(kvs[(kvs.len() - 1) as u64]@)
    }
}

/// A storage that keeps the entries in a hash map, under their positions.
#[derive(Debug)]
pub struct MemKVS {
    kvs: Arc<HashMap<Position, Entry>>,
}

impl MemKVS {
    /// The entries by position.
    pub closed spec fn entries(&self) -> Map<u64, Entry> {
        self.kvs@
    }

    /// A storage without entries.
    pub fn new() -> (r: Self)
        ensures
            r.entries() == Map::<u64, Entry>::empty(),
            r.reliable(),
            r.writable(),
            r.intact(),
            r.log() == Seq::<EntryModel>::empty(),
    {
        let r = MemKVS { kvs: Arc::new(HashMap::new()) };
        proof {
            assert(r.log() =~= seq![]);
        }
        r
    }

    /// A storage with the entries of the map.
    pub fn with_kvs(kvs: HashMap<Position, Entry>) -> (r: Self)
        ensures
            r.entries() == kvs@,
            r.reliable(),
            r.writable(),
    {
        MemKVS { kvs: Arc::new(kvs) }
    }

    /// The entries by position.
    pub fn kvs(&self) -> (r: &HashMap<Position, Entry>)
        ensures
            r@ == self.entries(),
    {
        &self.kvs
    }
}

proof fn lemma_kvs_ordered(kvs: Map<u64, Entry>)
    requires
        kvs_intact(kvs),
    ensures
        ledger::ordered(kvs_log(kvs), kvs.len()),
        forall|k: int|
            0 <= k < kvs.len() ==> (#[trigger] kvs_log(kvs)[k]).meta.address.position == k,
{
    let log = kvs_log(kvs);
    assert forall|k: int| 0 <= k < log.len() implies (#[trigger] log[k]).meta.address.position
        == k by {
        assert(ledger::storable(kvs[k as u64]@, k as u64));
    }
}

impl Storage for MemKVS {
    type Reader = KvsReader;

    open spec fn log(&self) -> Seq<EntryModel> {
        kvs_log(self.entries())
    }

    open spec fn end(&self) -> nat {
        self.entries().len()
    }

    open spec fn intact(&self) -> bool {
        kvs_intact(self.entries())
    }

    open spec fn found(&self) -> Map<u64, EntryModel> {
        kvs_found(self.entries())
    }

    open spec fn failing(&self) -> spec_fn(Position, Error) -> bool {
        kvs_failing()
    }

    open spec fn behind(&self) -> spec_fn(Position) -> Position {
        kvs_behind()
    }

    open spec fn past(&self) -> spec_fn(Position) -> bool {
        kvs_past(self.entries())
    }

    open spec fn readied(&self, after: &Self) -> bool {
        *after == *self
    }

    open spec fn telling(before: Self, after: Self, r: Result<(Option<Entry>, Position)>) -> bool {
        &&& after == before
        &&& match r {
            Ok((_, position)) => position == before.entries().len(),
            Err(error) => block::damaged(error, "the last entry is missing"@),
        }
    }

    open spec fn putting(
        before: Self,
        position: Position,
        entry: EntryModel,
        after: Self,
        r: Result<Position>,
    ) -> bool {
        let fits = position == before.entries().len() && position < u64::MAX && ledger::storable(
            entry,
            position,
        );
        match r {
            Ok(next) => {
                &&& fits
                &&& next == position + 1
                &&& after.entries().dom() == before.entries().dom().insert(position)
                &&& after.entries()[position]@ == entry
                &&& forall|k: u64|
                    k != position ==> #[trigger] after.entries()[k] == before.entries()[k]
            },
            Err(error) => !fits && after == before && block::refused(
                error,
                "the entry doesn't belong to the position"@,
            ),
        }
    }

    open spec fn removing(before: Self, position: Position, after: Self, r: Result<bool>) -> bool {
        let count = before.entries().len();
        &&& r == Ok::<bool, Error>(position < count)
        &&& forall|k: u64| #[trigger]
            after.entries().contains_key(k) <==> before.entries().contains_key(k) && !(position
                <= k < count)
        &&& forall|k: u64|
            after.entries().contains_key(k) ==> #[trigger] after.entries()[k] == before.entries()[k]
    }

    open spec fn opens(&self) -> bool {
        kvs_open(self.entries())
    }

    open spec fn latest(&self) -> Option<EntryModel> {
        kvs_latest(self.entries())
    }

    open spec fn reliable(&self) -> bool {
        true
    }

    open spec fn writable(&self) -> bool {
        true
    }

    fn last(&mut self) -> (r: Result<(Option<Entry>, Position)>) {
        let count: u64 = self.kvs.len() as u64;
        if count == 0 {
            return Ok((None, 0));
        }
        match self.kvs.get(&(count - 1)) {
            Some(entry) => Ok((Some(entry.clone()), count)),
            None => Err(Error::DamagedStorage("the last entry is missing".to_owned())),
        }
    }

    fn put(&mut self, position: Position, entry: &Entry) -> (r: Result<Position>) {
        if position != self.kvs.len() as u64 || position == u64::MAX || !ledger::is_storable(
            entry,
            position,
        ) {
            return Err(
                Error::InvalidArgument("the entry doesn't belong to the position".to_owned()),
            );
        }
        let ghost before = self.kvs@;
        let copy: Entry = entry.clone();
        make_mut(&mut self.kvs).insert(position, copy);
        proof {
            if kvs_intact(before) {
                let after = self.kvs@;
                assert(after == before.insert(position, copy));
                assert(after.len() == before.len() + 1);
                assert forall|k: u64| k < after.len() implies ledger::storable(
                    (#[trigger] after[k])@,
                    k,
                ) by {
                    if k < position {
                        assert(after[k] == before[k]);
                    }
                }
                assert(kvs_log(after) =~= kvs_log(before).push(entry@));
            }
        }
        Ok(position + 1)
    }

    fn truncate(&mut self, position: Position) -> (r: Result<bool>) {
        let count: u64 = self.kvs.len() as u64;
        if position >= count {
            return Ok(false);
        }
        let ghost before = self.kvs@;
        let mut k: u64 = count;
        while k > position
            invariant
                position <= k <= count,
                before == old(self).entries(),
                count == before.len(),
                forall|x: u64| #[trigger]
                    self.kvs@.contains_key(x) <==> before.contains_key(x) && !(k <= x < count),
                forall|x: u64|
                    self.kvs@.contains_key(x) ==> #[trigger] self.kvs@[x] == before[x],
                kvs_intact(before) ==> {
                    &&& self.kvs@.dom().finite()
                    &&& self.kvs@.len() == k
                    &&& forall|x: u64| #[trigger] self.kvs@.contains_key(x) <==> x < k
                    &&& forall|x: u64| x < k ==> (#[trigger] self.kvs@[x]) == before[x]
                },
            decreases k,
        {
            k = k - 1;
            make_mut(&mut self.kvs).remove(&k);
        }
        proof {
            if kvs_intact(before) {
                lemma_kvs_ordered(before);
                let after = self.kvs@;
                assert forall|x: u64| x < after.len() implies ledger::storable(
                    (#[trigger] after[x])@,
                    x,
                ) by {
                    assert(after[x] == before[x]);
                }
                assert(kvs_log(after) =~= kvs_log(before).take(position as int));
            }
        }
        Ok(true)
    }

    fn reader(&self) -> (r: Result<KvsReader>) {
        proof {
            if self.intact() {
                lemma_kvs_ordered(self.entries());
            }
        }
        Ok(KvsReader { kvs: share(&self.kvs) })
    }
}

/// Reads entries from a [`MemKVS`].
pub struct KvsReader {
    kvs: Arc<HashMap<Position, Entry>>,
}

impl KvsReader {
    /// The entries by position.
    pub closed spec fn entries(&self) -> Map<u64, Entry> {
        self.kvs@
    }
}

impl Reader for KvsReader {
    open spec fn log(&self) -> Seq<EntryModel> {
        kvs_log(self.entries())
    }

    open spec fn end(&self) -> nat {
        self.entries().len()
    }

    open spec fn intact(&self) -> bool {
        kvs_intact(self.entries())
    }

    open spec fn found(&self) -> Map<u64, EntryModel> {
        kvs_found(self.entries())
    }

    open spec fn failing(&self) -> spec_fn(Position, Error) -> bool {
        kvs_failing()
    }

    open spec fn behind(&self) -> spec_fn(Position) -> Position {
        kvs_behind()
    }

    open spec fn past(&self) -> spec_fn(Position) -> bool {
        kvs_past(self.entries())
    }

    open spec fn reading(
        before: Self,
        position: Position,
        after: Self,
        r: Result<Option<(Entry, Position)>>,
    ) -> bool {
        r matches Ok(found) && match found {
            Some((entry, next)) => {
                &&& position < u64::MAX
                &&& before.entries().contains_key(position)
                &&& entry@ == before.entries()[position]@
                &&& next == position + 1
            },
            None => position == u64::MAX || !before.entries().contains_key(position),
        }
    }

    open spec fn reliable(&self) -> bool {
        true
    }

    fn read_next(&mut self, position: Position) -> (r: Result<Option<(Entry, Position)>>) {
        proof {
            if kvs_intact(self.kvs@) {
                lemma_kvs_ordered(self.kvs@);
            }
        }
        if position == u64::MAX {
            return Ok(None);
        }
        match self.kvs.get(&position) {
            Some(entry) => Ok(Some((entry.clone(), position + 1))),
            None => Ok(None),
        }
    }
}

/// Whether the error says that the device cannot be written to.
pub open spec fn is_read_only(error: Error) -> bool {
    error matches Error::Io { message } && message@ == "the device is read-only"@
}

/// A device in memory.
#[derive(Debug)]
pub struct MemoryDevice {
    buffer: Arc<Vec<u8>>,
    read_only: bool,
}

impl MemoryDevice {
    /// A device without bytes.
    pub fn new() -> (r: Self)
        ensures
            r.bytes() == Seq::<u8>::empty(),
            r.reliable(),
            r.writable(),
    {
        MemoryDevice { buffer: Arc::new(Vec::new()), read_only: false }
    }

    /// A device with the given bytes.
    pub fn with(buffer: Vec<u8>, read_only: bool) -> (r: Self)
        ensures
            r.bytes() == buffer@,
            r.reliable(),
            r.writable() == !read_only,
    {
        MemoryDevice { buffer: Arc::new(buffer), read_only }
    }

    /// The bytes on the device.
    pub fn content(&self) -> (r: &Vec<u8>)
        ensures
            r@ == self.bytes(),
    {
        &self.buffer
    }
}

impl BlockDevice for MemoryDevice {
    closed spec fn bytes(&self) -> Seq<u8> {
        self.buffer@
    }

    open spec fn reliable(&self) -> bool {
        true
    }

    closed spec fn writable(&self) -> bool {
        !self.read_only
    }

    fn share(&self) -> (r: Result<Self>) {
        Ok(MemoryDevice { buffer: share(&self.buffer), read_only: self.read_only })
    }

    fn size(&self) -> (r: Result<u64>) {
        Ok(self.buffer.len() as u64)
    }

    fn read(&self, position: u64, length: u64) -> (r: Result<Vec<u8>>)
        ensures
            r matches Err(error) ==> serialize::is_short(error),
    {
        let size: u64 = self.buffer.len() as u64;
        if position > size || length > size - position {
            return Err(serialize::short());
        }
        let part: &[u8] = vstd::slice::slice_subrange(
            self.buffer.as_slice(),
            position as usize,
            (position + length) as usize,
        );
        Ok(vstd::slice::slice_to_vec(part))
    }

    fn append(&mut self, bytes: &[u8]) -> (r: Result<()>)
        ensures
            r matches Err(error) ==> is_read_only(error),
    {
        if self.read_only {
            return Err(Error::Io { message: "the device is read-only".to_owned() });
        }
        make_mut(&mut self.buffer).extend_from_slice(bytes);
        proof {
            assert(self.buffer@ =~= old(self).buffer@ + bytes@);
        }
        Ok(())
    }

    fn truncate(&mut self, length: u64) -> (r: Result<()>)
        ensures
            r matches Err(error) ==> is_read_only(error),
    {
        if self.read_only {
            return Err(Error::Io { message: "the device is read-only".to_owned() });
        }
        if length < self.buffer.len() as u64 {
            make_mut(&mut self.buffer).truncate(length as usize);
        }
        Ok(())
    }
}

/// In a hash map that holds the entries of a log, the `k`-th entry is under the key `k`, is found
/// there, and has this position; the latest one is the last.
pub proof fn law_kvs(kvs: Map<u64, Entry>, k: u64)
    requires
        kvs_intact(kvs),
    ensures
        kvs_log(kvs).len() == kvs.len(),
        kvs.contains_key(k) <==> k < kvs.len(),
        k < kvs.len() ==> {
            &&& kvs_log(kvs)[k as int] == kvs[k]@
            &&& kvs[k]@.meta.address.position == k
            &&& kvs_found(kvs).contains_key(k)
            &&& kvs_found(kvs)[k] == kvs[k]@
        },
        kvs_open(kvs),
        kvs.len() == 0 ==> kvs_latest(kvs) is None,
        kvs.len() > 0 ==> kvs_latest(kvs) == Some(kvs_log(kvs).last()),
{
    if k < kvs.len() {
        assert(ledger::storable(kvs[k]@, k));
    }
    if kvs.len() > 0 {
        let last = (kvs.len() - 1) as u64;
        assert(kvs.contains_key(last));
    }
}

/// What the operations of a storage in a hash map leave in it: storing an entry puts it under its
/// position and changes no other, and removing takes out exactly those from the position on.
pub proof fn law_kvs_operations(
    before: MemKVS,
    after: MemKVS,
    position: Position,
    next: Position,
    e: EntryModel,
    removed: bool,
    k: u64,
)
    ensures
        MemKVS::putting(before, position, e, after, Ok(next)) ==> {
            &&& position == before.entries().len()
            &&& next == position + 1
            &&& after.entries().contains_key(position)
            &&& after.entries()[position]@ == e
            &&& k != position ==> (after.entries().contains_key(k)
                <==> before.entries().contains_key(k)) && after.entries()[k] == before.entries()[k]
        },
        MemKVS::removing(before, position, after, Ok(removed)) ==> {
            &&& removed <==> position < before.entries().len()
            &&& after.entries().contains_key(k) <==> before.entries().contains_key(k) && !(position
                <= k < before.entries().len())
            &&& after.entries().contains_key(k) ==> after.entries()[k] == before.entries()[k]
        },
{
    if MemKVS::putting(before, position, e, after, Ok(next)) {
        assert(after.entries().dom().contains(position));
        assert(after.entries().dom().contains(k) <==> before.entries().dom().insert(
            position,
        ).contains(k));
    }
}

} // verus!
