//! The tree over a storage, and its snapshots.
use crate::block;
use crate::block::BlockStorage;
use crate::cache;
use crate::cache::Cache;
use crate::entry;
use crate::entry::{Address, ENode, Entry, EntryModel, INode, MetaInfo, Position, MAX_PAYLOAD_SIZE};
use crate::error::{inconsistency, Error, Result};
use crate::formula;
use crate::formula::{Addr, Index};
use crate::growth;
use crate::hash;
use crate::ledger;
use crate::memory;
use crate::memory::{MemKVS, MemoryDevice};
use crate::model;
use crate::model::Model;
use crate::nodes;
use crate::query;
use crate::query::{CachedEntry, Query, Sought};
use crate::shared::share;
use crate::storage;
#[allow(unused_imports)]
use crate::storage::Reader;
use crate::storage::Storage;
use crate::text;
use crate::tree;
use crate::walk;
use std::collections::HashMap;
use std::sync::Arc;
use vstd::prelude::*;

verus! {

/// A generation of the tree over a storage.
#[derive(Debug)]
pub struct Snapshot<'a, S: Storage> {
    cache: Arc<Cache>,
    storage: &'a S,
}

impl<'a, S: Storage> Snapshot<'a, S> {
    /// The storage.
    pub closed spec fn store(&self) -> S {
        *self.storage
    }

    /// The cache of the generation.
    pub closed spec fn cached(&self) -> Cache {
        *self.cache
    }

    /// Where the entries of the generation come from.
    pub open spec fn stored(&self) -> walk::Stored {
        walk::Stored {
            kept: self.cached().kept(),
            found: self.store().found(),
            failing: self.store().failing(),
        }
    }

    /// The entries of the generation.
    pub open spec fn log(&self) -> Seq<EntryModel> {
        self.store().log().take(self.cached().n() as int)
    }

    /// The values of the generation.
    pub open spec fn values(&self) -> Seq<Seq<u8>> {
        ledger::payloads(self.log())
    }

    /// Whether the storage holds the tree that the cache is of.
    pub open spec fn consistent(&self) -> bool {
        &&& self.store().intact()
        &&& ledger::genuine(self.store().log())
        &&& self.cached().n() <= self.store().log().len()
        &&& self.cached().sound(self.log())
    }

    /// The root of the tree, which has at least one leaf.
    pub fn root(&self) -> (r: MetaInfo)
        requires
            self.cached().n() > 0,
        ensures
            r@ == entry::root_of(self.cached().latest()),
            r.address.i == self.cached().n(),
            r.address.j == model::height(self.cached().n()),
            self.consistent() ==> r.hash@ == tree::root_hash(self.values()),
            self.consistent() ==> r@ == ledger::meta_of(
                self.values(),
                ledger::positions(self.log()),
                model::addr(self.cached().n(), model::height(self.cached().n())),
            ),
    {
        proof {
            if self.consistent() {
                self.cached().lemma_sound(self.log());
                lemma_root_hash(self.values(), ledger::positions(self.log()));
            }
        }
        *self.cache.root().unwrap()
    }

    /// The generation: the number of leaves.
    pub fn revision(&self) -> (r: Index)
        ensures
            r == self.cached().n(),
    {
        self.cache.revision()
    }

    /// The number of leaves.
    pub fn n(&self) -> (r: Index)
        ensures
            r == self.cached().n(),
    {
        self.cache.revision()
    }

    /// A query on the generation.
    pub fn query(&self) -> (r: Result<Query<S>>)
        ensures
            self.store().reliable() ==> r is Ok,
            r matches Ok(query) ==> {
                &&& query.cached() == self.cached()
                &&& query.reader().log() == self.store().log()
                &&& query.stored() == self.stored()
                &&& query.trail() == (storage::Trail {
                    found: self.store().found(),
                    behind: self.store().behind(),
                    past: self.store().past(),
                    failing: self.store().failing(),
                })
                &&& self.consistent() ==> query.consistent() && query.values() == self.values()
                    && query.log() == self.log()
                &&& self.store().reliable() ==> query.reliable()
            },
    {
        let cursor = self.storage.reader()?;
        Ok(Query::new(cursor, share(&self.cache)))
    }
}

/// The hash value of the root node is the root hash.
proof fn lemma_root_hash(values: Seq<Seq<u8>>, at: Seq<u64>)
    requires
        1 <= values.len() <= u64::MAX,
    ensures
        ledger::meta_of(values, at, model::addr(values.len(), model::height(values.len()))).hash
            == tree::root_hash(values),
{
    let n = values.len();
    nodes::lemma_valid(n, model::height(n));
    formula::lemma_height(n as u64, model::height(n));
}

/// The tree over a storage.
#[derive(Debug)]
pub struct Slate<S: Storage> {
    position: Position,
    storage: S,
    cache: Arc<Cache>,
}

/// The number of leaves of the tree with the given latest entry.
pub open spec fn size_with(latest: Option<EntryModel>) -> nat {
    match latest {
        Some(e) => e.meta.address.i as nat,
        None => 0,
    }
}

/// The entries that are in memory after the tree with the given latest entry is opened.
pub open spec fn kept_with(
    found: Map<u64, EntryModel>,
    latest: Option<EntryModel>,
    level: nat,
) -> Map<u64, EntryModel> {
    match latest {
        Some(e) => cache::loaded(found, e, level),
        None => Map::empty(),
    }
}

/// Whether a tree can be opened over what is found: the latest entry, and the entries to keep with
/// it.
pub open spec fn opens_with(
    found: Map<u64, EntryModel>,
    latest: Option<EntryModel>,
    level: nat,
) -> bool {
    latest matches Some(e) ==> cache::loadable(found, e, level)
}

/// Whether a tree can be opened over the storage.
pub open spec fn loads<S: Storage>(storage: S, level: nat) -> bool {
    storage.opens() && opens_with(storage.found(), storage.latest(), level)
}

/// Whether the error is the one for a storage over which no tree can be opened. Where the latest
/// entry cannot be told, it is that of the storage.
pub open spec fn unopened<S: Storage>(storage: S, level: nat, error: Error) -> bool {
    if storage.opens() {
        storage.latest() matches Some(e) && cache::unloadable(
            walk::found_in(storage),
            e,
            level,
            error,
        )
    } else {
        untold(storage, error)
    }
}

/// Whether the error is the one with which the storage refuses to tell its latest entry.
pub open spec fn untold<S: Storage>(storage: S, error: Error) -> bool {
    exists|after: S| #[trigger]
        S::telling(storage, after, Err::<(Option<Entry>, Position), Error>(error))
}

/// Whether the `x`-th intermediate node of an entry at the position joins the root of a perfect
/// subtree that is in the cache with the node below it.
pub open spec fn grafted(cache: Cache, position: Position, e: EntryModel, x: int) -> bool {
    let n = e.inodes[x];
    let left = cache::root_in(cache.subtrees(), n.left.i, n.left.j, 0);
    &&& n.meta.address.position == position
    &&& n.left == left.address
    &&& n.right.position == position
    &&& n.meta.hash == hash::digest(
        n.meta.address.j,
        left.hash + entry::node_at(e, x as nat).hash,
    )
}

/// Whether this is the entry for the value at the position, behind those of the tree that the cache
/// is of.
pub open spec fn follows(cache: Cache, position: Position, value: Seq<u8>, e: EntryModel) -> bool {
    &&& ledger::shaped(e)
    &&& e.meta.address == (Address { i: (cache.n() + 1) as u64, j: 0, position })
    &&& e.meta.hash == hash::digest(0, value)
    &&& e.payload == value
    &&& forall|x: int| 0 <= x < e.inodes.len() ==> #[trigger] grafted(cache, position, e, x)
    &&& forall|log: Seq<EntryModel>| #[trigger]
        cache.sound(log) ==> e == ledger::entry_of(
            ledger::payloads(log).push(value),
            ledger::positions(log).push(position),
            log.len() + 1,
        )
}

/// Whether the storage after comes of the one before by removing the entries from the position on.
pub open spec fn removes<S: Storage>(before: S, position: Position, after: S) -> bool {
    exists|removed: bool| #[trigger]
        S::removing(before, position, after, Ok::<bool, Error>(removed))
}

/// What is said of an index without an entry.
pub open spec fn not_contained(i: Index, n: nat) -> Seq<char> {
    "Entry "@ + text::decimal_of(i as nat) + " is not contained in the current revision "@
        + text::decimal_of(n)
}

/// What is said of an entry from which no way leads to the index.
pub open spec fn no_path(i: Index, e: EntryModel) -> Seq<char> {
    "The entry doesn't have a path to "@ + text::decimal_of(i as nat) + ": "@ + entry::entry_text(
        e,
    )
}

impl<S: Storage> Slate<S> {
    /// The storage.
    pub closed spec fn store(&self) -> S {
        self.storage
    }

    /// The cache of the latest generation.
    pub closed spec fn cached(&self) -> Cache {
        *self.cache
    }

    /// The position for the next entry.
    pub closed spec fn next(&self) -> Position {
        self.position
    }

    /// Where the entries come from.
    pub open spec fn stored(&self) -> walk::Stored {
        walk::Stored {
            kept: self.cached().kept(),
            found: self.store().found(),
            failing: self.store().failing(),
        }
    }

    /// Where the way from the latest entry to the one of the index comes to.
    pub open spec fn sought(&self, i: Index) -> walk::Reach {
        walk::sought(self.stored(), self.cached().latest(), i)
    }

    /// Where the search for the entry of the index comes to: at once to the one that is kept, or
    /// else where the way from the latest entry does.
    pub open spec fn entry_at(&self, i: Index) -> walk::Reach {
        if self.cached().kept().contains_key(i) {
            walk::Reach::Found(self.cached().kept()[i])
        } else {
            self.sought(i)
        }
    }

    /// The entries.
    pub open spec fn log(&self) -> Seq<EntryModel> {
        self.store().log()
    }

    /// The values, from the first to the last.
    pub open spec fn values(&self) -> Seq<Seq<u8>> {
        ledger::payloads(self.log())
    }

    /// Whether the storage holds a tree, and the cache is of its latest generation.
    pub open spec fn consistent(&self) -> bool {
        &&& self.store().intact()
        &&& self.cached().sound(self.log())
        &&& self.cached().n() == self.log().len()
        &&& self.next() == self.store().end()
    }

    /// Whether this is the tree over what is found in the storage, with the entries up to the
    /// distance in memory.
    pub open spec fn opened(&self, storage: &S, level: nat) -> bool {
        &&& self.next() == storage.end()
        &&& self.cached().n() == size_with(storage.latest())
        &&& storage.latest() matches Some(e) ==> self.cached().latest() == e
        &&& self.cached().kept() == kept_with(storage.found(), storage.latest(), level)
        &&& storage.latest() matches Some(e) ==> self.cached().subtrees() == cache::loaded_roots(
            storage.found(),
            e,
        )
        &&& self.store().found() == storage.found()
        &&& storage.readied(&self.store())
    }

    /// Whether the storage refused the next entry for the value with the error, and but for the
    /// storage nothing changed.
    pub open spec fn refused(&self, value: Seq<u8>, error: Error, after: &Self) -> bool {
        &&& exists|e: EntryModel|
            follows(self.cached(), self.next(), value, e) && #[trigger] S::putting(
                self.store(),
                self.next(),
                e,
                after.store(),
                Err::<Position, Error>(error),
            )
        &&& after.cached() == self.cached()
        &&& after.next() == self.next()
    }

    /// Whether the storage took the next entry for the value, and the cache with it.
    pub open spec fn grown(&self, value: Seq<u8>, after: &Self) -> bool {
        let e = after.cached().latest();
        &&& follows(self.cached(), self.next(), value, e)
        &&& S::putting(
            self.store(),
            self.next(),
            e,
            after.store(),
            Ok::<Position, Error>(after.next()),
        )
        &&& after.cached().kept() == cache::migrated(
            self.cached().kept(),
            e,
            self.cached().limit(),
        )
        &&& after.cached().subtrees() == cache::migrated_roots(self.cached().subtrees(), e)
    }

    /// Whether the tree after is this one with one more value.
    pub open spec fn appended(&self, value: Seq<u8>, after: &Self) -> bool {
        &&& after.consistent()
        &&& after.log().len() == self.log().len() + 1
        &&& after.log().drop_last() == self.log()
        &&& after.log().last().meta.address.position == self.next()
        &&& after.values() == self.values().push(value)
    }

    /// Whether this is what becomes of the tree where the entries from the position on are removed.
    /// With success, it is opened anew from what the storage holds after the removal. The error is
    /// that of the storage, or the one for what is left there.
    pub open spec fn cut_off(&self, position: Position, r: Result<bool>, after: &Self) -> bool {
        match r {
            Ok(removed) => removed && exists|left: S| #[trigger]
                removes(self.store(), position, left) && loads(left, self.cached().limit())
                    && after.opened(&left, self.cached().limit()),
            Err(error) => {
                ||| S::removing(self.store(), position, after.store(), Err::<bool, Error>(error))
                ||| exists|left: S| #[trigger]
                    removes(self.store(), position, left) && (self.store().reliable() ==> unopened(
                        left,
                        self.cached().limit(),
                        error,
                    ))
            },
        }
    }

    /// Whether the tree after is this one without the values from the index on.
    pub open spec fn truncated(&self, i: nat, after: &Self) -> bool {
        &&& after.consistent()
        &&& after.log() == self.log().take(i - 1)
        &&& after.values() == self.values().take(i - 1)
        &&& after.next() == self.log()[i - 1].meta.address.position
    }

    /// The tree over the storage, with the latest entry in memory.
    pub fn new(storage: S) -> (r: Result<Self>)
        ensures
            storage.reliable() ==> (r is Ok <==> loads(storage, 0)),
            storage.reliable() && r is Err ==> unopened(storage, 0, r->Err_0),
            r matches Ok(slate) ==> loads(storage, 0) && slate.opened(&storage, 0),
            storage.intact() && ledger::genuine(storage.log()) ==> {
                &&& storage.reliable() && (storage.writable() || storage.log().len() > 0) ==> r is Ok
                &&& r matches Ok(slate) ==> {
                    &&& slate.consistent()
                    &&& slate.log() == storage.log()
                    &&& slate.store().end() == storage.end()
                    &&& slate.store().reliable() == storage.reliable()
                    &&& slate.store().writable() == storage.writable()
                }
            },
            r matches Ok(slate) ==> slate.cached().limit() == 0,
    {
        Self::with_cache_level(storage, 0)
    }

    /// The tree over the storage, with the entries up to a distance from the latest one in memory.
    /// A level of 1 or 2 makes reading faster, and writing slower.
    pub fn with_cache_level(storage: S, level: usize) -> (r: Result<Self>)
        ensures
            storage.reliable() ==> (r is Ok <==> loads(storage, level as nat)),
            storage.reliable() && r is Err ==> unopened(storage, level as nat, r->Err_0),
            r matches Ok(slate) ==> loads(storage, level as nat) && slate.opened(
                &storage,
                level as nat,
            ),
            storage.intact() && ledger::genuine(storage.log()) ==> {
                &&& storage.reliable() && (storage.writable() || storage.log().len() > 0) ==> r is Ok
                &&& r matches Ok(slate) ==> {
                    &&& slate.consistent()
                    &&& slate.log() == storage.log()
                    &&& slate.store().end() == storage.end()
                    &&& slate.store().reliable() == storage.reliable()
                    &&& slate.store().writable() == storage.writable()
                }
            },
            r matches Ok(slate) ==> slate.cached().limit() == level,
    {
        let mut storage: S = storage;
        match Self::load_metadata(&mut storage, level) {
            Ok((cache, position)) => Ok(Slate { position, storage, cache: Arc::new(cache) }),
            Err(error) => Err(error),
        }
    }

    /// The root of the tree; none where the tree has no leaves.
    pub fn root(&self) -> (r: Option<&MetaInfo>)
        ensures
            r is Some <==> self.cached().n() > 0,
            r matches Some(root) ==> root@ == entry::root_of(self.cached().latest()),
            r matches Some(root) ==> root.address.i == self.cached().n() && root.address.j
                == model::height(self.cached().n()),
            r matches Some(root) ==> (self.consistent() ==> root.hash@ == tree::root_hash(
                self.values(),
            ) && root@ == ledger::meta_of(
                self.values(),
                ledger::positions(self.log()),
                model::addr(self.cached().n(), model::height(self.cached().n())),
            )),
    {
        proof {
            if self.consistent() {
                self.cached().lemma_sound(self.log());
                if self.cached().n() > 0 {
                    lemma_root_hash(self.values(), ledger::positions(self.log()));
                }
            }
        }
        self.cache.root()
    }

    /// The number of leaves.
    pub fn n(&self) -> (r: Index)
        ensures
            r == self.cached().n(),
            self.consistent() ==> r == self.values().len(),
    {
        self.cache.revision()
    }

    /// The height of the tree; 0 where it has no leaves.
    pub fn height(&self) -> (r: u8)
        ensures
            r == (if self.cached().n() == 0 {
                0
            } else {
                model::height(self.cached().n())
            }),
    {
        match self.root() {
            Some(root) => root.address.j,
            None => 0,
        }
    }

    /// The cache of the latest generation.
    pub fn cache(&self) -> (r: &Cache)
        ensures
            *r == self.cached(),
    {
        &self.cache
    }

    /// The storage.
    pub fn storage(&self) -> (r: &S)
        ensures
            *r == self.store(),
    {
        &self.storage
    }

    /// Appends a value, and gives the root of the tree after that: its index is the number of
    /// leaves, its height is that of the tree, its hash value is the root hash.
    pub fn append(&mut self, value: &[u8]) -> (r: Result<MetaInfo>)
        requires
            old(self).cached().n() < u64::MAX,
        ensures
            final(self).store().reliable() == old(self).store().reliable(),
            final(self).store().writable() == old(self).store().writable(),
            final(self).cached().limit() == old(self).cached().limit(),
            value@.len() > MAX_PAYLOAD_SIZE ==> *final(self) == *old(self) && (r matches Err(
                Error::TooLargePayload { size },
            ) && size == value@.len()),
            value@.len() <= MAX_PAYLOAD_SIZE && r is Err ==> old(self).refused(
                value@,
                r->Err_0,
                final(self),
            ),
            r matches Ok(root) ==> {
                &&& final(self).cached().n() == old(self).cached().n() + 1
                &&& root.address.i == final(self).cached().n()
                &&& root.address.j == model::height(final(self).cached().n())
                &&& root.address.position == old(self).next()
                &&& root@ == entry::root_of(final(self).cached().latest())
                &&& old(self).grown(value@, final(self))
            },
            old(self).store().intact() && r is Ok ==> {
                let last = final(self).log().last();
                &&& final(self).store().intact()
                &&& final(self).log().len() == old(self).log().len() + 1
                &&& final(self).log().drop_last() == old(self).log()
                &&& last.meta.address.i == final(self).cached().n()
                &&& last.meta.address.position == old(self).next()
                &&& last.meta.hash == hash::digest(0, value@)
                &&& last.payload == value@
                &&& ledger::shaped(last)
            },
            old(self).consistent() && r is Ok ==> final(self).values() == old(
                self,
            ).values().push(value@) && final(self).consistent(),
            old(self).consistent() && r is Ok ==> {
                &&& old(self).appended(value@, final(self))
                &&& (r->Ok_0).hash@ == tree::root_hash(final(self).values())
            },
            !old(self).store().writable() ==> r is Err,
            r is Err ==> final(self).cached() == old(self).cached() && final(self).next() == old(
                self,
            ).next(),
            old(self).consistent() && old(self).store().reliable() && r is Err ==> {
                &&& final(self).consistent()
                &&& final(self).log() == old(self).log()
            },
            old(self).consistent() && old(self).store().reliable() && old(self).store().writable()
                && value@.len() <= MAX_PAYLOAD_SIZE && old(self).next() + ledger::size_at(
                old(self).cached().n() + 1,
                value@.len(),
            ) <= u64::MAX ==> r is Ok,
    {
        if value.len() > MAX_PAYLOAD_SIZE {
            return Err(Error::TooLargePayload { size: value.len() });
        }
        let position: Position = self.position;
        let i: Index = self.cache.revision() + 1;
        let model = Model::new(i);
        let entry: Entry = build_entry(&self.cache, &model, position, value);
        let root: MetaInfo = entry.root();
        let ghost log = self.log();
        let ghost before = self.cached();
        proof {
            ledger::lemma_shaped(entry@);
            if entry.inodes@.len() > 0 {
                let x = entry.inodes@.len() - 1;
                assert(entry@.inodes[x] == entry.inodes@[x]@);
                assert(ledger::step_of(entry@, x));
                assert(grafted(before, position, entry@, x));
            }
            if self.consistent() {
                before.lemma_sound(log);
                ledger::lemma_genuine_push(log, entry@);
                let more = log.push(entry@);
                assert(more[log.len() as int] == entry@);
                ledger::lemma_genuine_storable(more, log.len() as int);
                ledger::lemma_genuine_entry(more, log.len() as int);
                let n = more.len();
                lemma_root_hash(ledger::payloads(more), ledger::positions(more));
                if entry.inodes@.len() > 0 {
                    let x = entry.inodes@.len() - 1;
                    assert(entry@.inodes[x] == ledger::inode_of(
                        ledger::payloads(more),
                        ledger::positions(more),
                        model::spine(n, model::height(n))[x],
                    ));
                }
                assert(more.drop_last() =~= log);
            }
        }
        let ghost e = entry@;
        match self.storage.put(self.position, &entry) {
            Ok(next) => {
                proof {
                    assert(S::putting(
                        old(self).store(),
                        old(self).next(),
                        e,
                        self.store(),
                        Ok::<Position, Error>(next),
                    ));
                }
                self.position = next;
            },
            Err(error) => {
                proof {
                    assert(S::putting(
                        old(self).store(),
                        old(self).next(),
                        e,
                        self.store(),
                        Err::<Position, Error>(error),
                    ));
                }
                return Err(error);
            },
        }
        proof {
            assert(log.push(entry@).drop_last() =~= log);
        }
        let cache: Cache = self.cache.migrate(entry, model);
        self.cache = Arc::new(cache);
        Ok(root)
    }

    /// Removes the entries from the index on. Gives `false` where there is no such entry.
    pub fn truncate(&mut self, i: Index) -> (r: Result<bool>)
        ensures
            final(self).store().reliable() == old(self).store().reliable(),
            final(self).store().writable() == old(self).store().writable(),
            final(self).cached().limit() == old(self).cached().limit(),
            (i == 0 || i > old(self).cached().n()) && r is Ok ==> !r->Ok_0 && *final(self) == *old(
                self,
            ),
            (i == 0 || i > old(self).cached().n()) && old(self).store().reliable() ==> r is Ok,
            1 <= i <= old(self).cached().n() && (r is Ok || old(
                self,
            ).store().reliable()) ==> match old(self).sought(i) {
                walk::Reach::Found(e) => old(self).cut_off(e.meta.address.position, r, final(self)),
                walk::Reach::Nowhere(_) => r matches Ok(false) && *final(self) == *old(self),
                walk::Reach::Broken(fault) => (r matches Err(error) && walk::told(
                    old(self).stored(),
                    fault,
                    error,
                )) && *final(self) == *old(self),
            },
            r is Err ==> final(self).cached() == old(self).cached() && final(self).next() == old(
                self,
            ).next(),
            old(self).consistent() && 1 <= i <= old(self).cached().n() && r is Ok ==> {
                &&& r->Ok_0
                &&& old(self).truncated(i as nat, final(self))
                &&& final(self).consistent()
                &&& final(self).values() == old(self).values().take(i - 1)
            },
            old(self).consistent() && 1 <= i <= old(self).cached().n() && old(
                self,
            ).store().reliable() ==> {
                &&& r is Ok <==> old(self).store().writable()
                &&& r is Err ==> *final(self) == *old(self)
            },
    {
        let ghost log = self.log();
        let mut query = self.snapshot().query()?;
        let found: Option<Entry> = match query.read_entry(i) {
            Ok(found) => found,
            Err(error) => {
                return Err(error);
            },
        };
        match found {
            Some(entry) => {
                let position: Position = entry.enode.meta.address.position;
                proof {
                    if self.consistent() {
                        self.cached().lemma_sound(log);
                        assert(log.take(log.len() as int) =~= log);
                        assert(log[i - 1].meta.address.position == position);
                        ledger::lemma_genuine_take(log, (i - 1) as nat);
                    }
                }
                match self.storage.truncate(position) {
                    Ok(removed) => {
                        proof {
                            assert(S::removing(
                                old(self).store(),
                                position,
                                self.store(),
                                Ok::<bool, Error>(removed),
                            ));
                            assert(removes(old(self).store(), position, self.store()));
                        }
                    },
                    Err(error) => {
                        return Err(error);
                    },
                }
                match Self::load_metadata(&mut self.storage, self.cache.level()) {
                    Ok((cache, position)) => {
                        self.position = position;
                        self.cache = Arc::new(cache);
                        Ok(true)
                    },
                    Err(error) => Err(error),
                }
            },
            None => Ok(false),
        }
    }

    /// A snapshot of the latest generation.
    pub fn snapshot(&self) -> (r: Snapshot<'_, S>)
        ensures
            r.store() == self.store(),
            r.cached() == self.cached(),
            self.consistent() ==> r.consistent() && r.values() == self.values() && r.log()
                == self.log(),
    {
        proof {
            if self.consistent() {
                self.cached().lemma_sound(self.log());
                assert(self.log().take(self.log().len() as int) =~= self.log());
            }
        }
        Snapshot { cache: share(&self.cache), storage: &self.storage }
    }

    /// A snapshot of a generation.
    pub fn snapshot_at(&self, revision: Index) -> (r: Result<Snapshot<'_, S>>)
        ensures
            revision == 0 || revision > self.cached().n() ==> (r matches Err(
                Error::InvalidArgument(message),
            ) && message@ == not_contained(revision, self.cached().n())),
            r matches Ok(snapshot) ==> snapshot.store() == self.store() && snapshot.cached().n()
                == revision && snapshot.cached().limit() == self.cached().limit(),
            1 <= revision <= self.cached().n() && self.store().reliable() ==> match self.entry_at(
                revision,
            ) {
                walk::Reach::Found(e) => {
                    let found = self.store().found();
                    let level = self.cached().limit();
                    &&& r is Ok <==> cache::loadable(found, e, level)
                    &&& r matches Err(error) ==> cache::unloadable(
                        walk::found_in(self.store()),
                        e,
                        level,
                        error,
                    )
                    &&& r matches Ok(snapshot) ==> snapshot.cached().latest() == e
                        && snapshot.cached().kept() == cache::loaded(found, e, level)
                        && snapshot.cached().subtrees() == cache::loaded_roots(found, e)
                },
                walk::Reach::Nowhere(e) => r is Err && walk::contradicts(
                    r->Err_0,
                    no_path(revision, e),
                ),
                walk::Reach::Broken(fault) => r is Err && walk::told(
                    self.stored(),
                    fault,
                    r->Err_0,
                ),
            },
            self.consistent() && 1 <= revision <= self.cached().n() ==> {
                &&& self.store().reliable() ==> r is Ok
                &&& r matches Ok(snapshot) ==> snapshot.consistent() && snapshot.values()
                    == self.values().take(revision as int) && snapshot.log() == self.log().take(
                    revision as int,
                )
            },
    {
        proof {
            if self.consistent() {
                self.cached().lemma_sound(self.log());
                if revision <= self.cached().n() {
                    ledger::lemma_genuine_take(self.log(), revision as nat);
                }
            }
        }
        let entry: Entry = match self.load_entry(revision) {
            Ok(entry) => entry.into_owned(),
            Err(error) => {
                return Err(error);
            },
        };
        match Cache::load(&self.storage, self.cache.level(), entry) {
            Ok(cache) => Ok(Snapshot { cache: Arc::new(cache), storage: &self.storage }),
            Err(error) => Err(error),
        }
    }

    /// The cache of the latest generation in the storage, and the position for the next entry.
    fn load_metadata(storage: &mut S, level: usize) -> (r: Result<(Cache, Position)>)
        ensures
            final(storage).reliable() == old(storage).reliable(),
            final(storage).writable() == old(storage).writable(),
            r matches Ok((cache, position)) ==> cache.limit() == level,
            old(storage).reliable() ==> (r is Ok <==> loads(*old(storage), level as nat)),
            old(storage).reliable() && r is Err ==> unopened(
                *old(storage),
                level as nat,
                r->Err_0,
            ),
            r matches Ok((cache, position)) ==> {
                &&& loads(*old(storage), level as nat)
                &&& position == old(storage).end()
                &&& cache.n() == size_with(old(storage).latest())
                &&& old(storage).latest() matches Some(e) ==> cache.latest() == e
                    && cache.subtrees() == cache::loaded_roots(old(storage).found(), e)
                &&& cache.kept() == kept_with(
                    old(storage).found(),
                    old(storage).latest(),
                    level as nat,
                )
                &&& final(storage).found() == old(storage).found()
                &&& old(storage).readied(final(storage))
            },
            old(storage).intact() && ledger::genuine(old(storage).log()) ==> {
                &&& old(storage).reliable() && (old(storage).writable() || old(storage).log().len()
                    > 0) ==> r is Ok
                &&& r matches Ok((cache, position)) ==> {
                    &&& final(storage).intact()
                    &&& final(storage).log() == old(storage).log()
                    &&& final(storage).end() == old(storage).end()
                    &&& cache.sound(old(storage).log())
                    &&& cache.n() == old(storage).log().len()
                    &&& position == old(storage).end()
                }
            },
    {
        let (latest, position) = match storage.last() {
            Ok(found) => found,
            Err(error) => {
                proof {
                    assert(S::telling(
                        *old(storage),
                        *storage,
                        Err::<(Option<Entry>, Position), Error>(error),
                    ));
                }
                return Err(error);
            },
        };
        let ghost log = old(storage).log();
        let cache: Cache = match latest {
            Some(entry) => {
                proof {
                    if old(storage).intact() && ledger::genuine(log) {
                        ledger::lemma_genuine_shaped(log, log.len() - 1);
                        assert(log.take(log.len() as int) =~= log);
                    }
                }
                match Cache::load(storage, level, entry) {
                    Ok(cache) => cache,
                    Err(error) => {
                        return Err(error);
                    },
                }
            },
            None => {
                proof {
                    if old(storage).intact() {
                        assert(log =~= seq![]);
                    }
                }
                Cache::empty(level)
            },
        };
        proof {
            if old(storage).intact() && ledger::genuine(log) {
                cache.lemma_sound(log);
            }
        }
        Ok((cache, position))
    }

    /// The entry of the index.
    fn load_entry(&self, i: Index) -> (r: Result<CachedEntry<'_>>)
        ensures
            i == 0 || i > self.cached().n() ==> (r matches Err(Error::InvalidArgument(message))
                && message@ == not_contained(i, self.cached().n())),
            r matches Ok(entry) ==> entry.of()@.meta.address.i == i,
            1 <= i <= self.cached().n() && (r is Ok
                || self.store().reliable()) ==> match self.entry_at(i) {
                walk::Reach::Found(e) => r matches Ok(entry) && entry.of()@ == e,
                walk::Reach::Nowhere(e) => r matches Err(error) && walk::contradicts(
                    error,
                    no_path(i, e),
                ),
                walk::Reach::Broken(fault) => r matches Err(error) && walk::told(
                    self.stored(),
                    fault,
                    error,
                ),
            },
            self.consistent() && 1 <= i <= self.cached().n() ==> {
                &&& self.store().reliable() ==> r is Ok
                &&& r matches Ok(entry) ==> entry.of()@ == self.log()[i - 1]
            },
    {
        let n: Index = self.n();
        if i == 0 || i > n {
            let mut message = String::new();
            text::push_text(&mut message, "Entry ");
            text::push_decimal(&mut message, i);
            text::push_text(&mut message, " is not contained in the current revision ");
            text::push_decimal(&mut message, n);
            proof {
                assert(message@ =~= not_contained(i, n as nat));
            }
            return Err(Error::InvalidArgument(message));
        }
        match self.cache.entry(i) {
            Some(entry) => {
                return Ok(CachedEntry::Cached(entry));
            },
            None => {},
        }
        let mut reader = self.storage.reader()?;
        let last = CachedEntry::Cached(self.cache.last_entry().unwrap());
        proof {
            if self.consistent() {
                self.cached().lemma_sound(self.log());
                self.cached().lemma_kept(self.log());
                assert(self.log().take(n as int) =~= self.log());
                walk::lemma_sought(reader, self.cached(), last.of()@, i);
            }
        }
        match query::seek(&mut reader, &self.cache, last, i) {
            Ok(Sought::Found(entry)) => Ok(entry),
            Ok(Sought::Nowhere(entry)) => {
                let mut message = String::new();
                text::push_text(&mut message, "The entry doesn't have a path to ");
                text::push_decimal(&mut message, i);
                text::push_text(&mut message, ": ");
                entry::push_entry(&mut message, entry.as_ref());
                proof {
                    assert(message@ =~= no_path(i, entry.of()@));
                }
                inconsistency(message)
            },
            Err(error) => Err(error),
        }
    }
}

/// The next entry of the tree that the cache is of.
fn build_entry(cache: &Cache, model: &Model, position: Position, value: &[u8]) -> (r: Entry)
    requires
        cache.n() < u64::MAX,
        model.generation() == cache.n() + 1,
    ensures
        follows(*cache, position, value@, r@),
{
    let i: Index = model.n();
    let ghost n = cache.n();
    let ghost h = model::height(i as nat);
    let ghost s = model::spine(i as nat, h);
    let hash = crate::Hash::from_bytes(0, value);
    let meta = MetaInfo::new(Address::new(i, 0, position), hash);
    let enode = ENode::new(meta, vstd::slice::slice_to_vec(value));
    let plan: Vec<formula::INode> = model.inodes();
    let mut inodes: Vec<INode> = Vec::with_capacity(plan.len());
    let mut right_hash: crate::Hash = hash;
    let ghost roots = if n > 0 {
        model::perfect_roots(n, model::height(n))
    } else {
        seq![]
    };
    proof {
        nodes::lemma_valid(i as nat, h);
        ledger::lemma_spine_rungs(i as nat, h);
        if n > 0 {
            growth::lemma_root_open(n);
            growth::lemma_lefts(n, model::height(n));
        } else {
            assert(h == 0);
        }
        assert forall|log: Seq<EntryModel>| #[trigger] cache.sound(log) implies right_hash@
            == tree::node_hash(ledger::payloads(log).push(value@), i as nat, 0) by {
            cache.lemma_sound(log);
        }
    }
    let mut x: usize = 0;
    while x < plan.len()
        invariant
            x <= plan@.len(),
            plan@ == s,
            s == model::spine(i as nat, h),
            h == model::height(i as nat),
            nodes::valid(i as nat, h),
            n == cache.n(),
            i == n + 1,
            hash@ == hash::digest(0, value@),
            n > 0 ==> roots == model::perfect_roots(n, model::height(n)) && s.map_values(
                |b: formula::INode| b.left,
            ) == roots.reverse(),
            n == 0 ==> s.len() == 0,
            inodes@.len() == x,
            right_hash@ == (if x == 0 {
                hash@
            } else {
                inodes@[x - 1].meta.hash@
            }),
            forall|y: int|
                0 <= y < x ==> ledger::matches((#[trigger] inodes@[y])@, s[y]) && {
                    let n = inodes@[y];
                    let left = cache::root_in(cache.subtrees(), n.left.i, n.left.j, 0);
                    &&& n.meta.address.position == position
                    &&& n.left == left.address
                    &&& n.right.position == position
                    &&& n.meta.hash@ == hash::digest(
                        n.meta.address.j,
                        left.hash + (if y == 0 {
                            hash@
                        } else {
                            inodes@[y - 1].meta.hash@
                        }),
                    )
                },
            forall|log: Seq<EntryModel>| #[trigger]
                cache.sound(log) ==> right_hash@ == tree::node_hash(
                    ledger::payloads(log).push(value@),
                    i as nat,
                    if x == 0 {
                        0
                    } else {
                        s[x - 1].node.j as nat
                    },
                ),
            forall|log: Seq<EntryModel>, y: int|
                #![trigger cache.sound(log), inodes@[y]]
                cache.sound(log) && 0 <= y < x ==> inodes@[y]@ == ledger::inode_of(
                    ledger::payloads(log).push(value@),
                    ledger::positions(log).push(position),
                    s[y],
                ),
        decreases plan@.len() - x,
    {
        let b: formula::INode = plan[x];
        let ghost before = inodes@;
        let ghost j = b.node.j as nat;
        proof {
            ledger::lemma_spine_rungs(i as nat, h);
            assert(ledger::rung(i as nat, h, x as int));
            nodes::lemma_children(i as nat, j);
            // the left child is the root of a perfect subtree
            let lefts = s.map_values(|b: formula::INode| b.left);
            assert(lefts[x as int] == b.left);
            assert(roots.reverse()[x as int] == roots[roots.len() - 1 - x]);
            assert(roots.contains(b.left));
            assert(b.left == (Addr { i: b.left.i, j: b.left.j }));
        }
        let left: MetaInfo = *cache.get_pbst_root(b.left.i, b.left.j).unwrap();
        let right = Address::new(b.right.i, b.right.j, position);
        let own_hash: crate::Hash = left.hash.combine(b.node.j, &right_hash);
        let node = MetaInfo::new(Address::new(b.node.i, b.node.j, position), own_hash);
        inodes.push(INode::new(node, left.address, right));
        proof {
            assert forall|log: Seq<EntryModel>| #[trigger] cache.sound(log) implies {
                &&& own_hash@ == tree::node_hash(ledger::payloads(log).push(value@), i as nat, j)
                &&& inodes@[x as int]@ == ledger::inode_of(
                    ledger::payloads(log).push(value@),
                    ledger::positions(log).push(position),
                    b,
                )
            } by {
                cache.lemma_sound(log);
                let values = ledger::payloads(log);
                let more = values.push(value@);
                assert(more.take(n as int) =~= values);
                tree::lemma_hash_prefix(more, n, b.left.i as nat, b.left.j as nat);
            }
            assert forall|log: Seq<EntryModel>, y: int|
                #![trigger cache.sound(log), inodes@[y]]
                cache.sound(log) && 0 <= y < x + 1 implies inodes@[y]@ == ledger::inode_of(
                ledger::payloads(log).push(value@),
                ledger::positions(log).push(position),
                s[y],
            ) by {
                if y < x {
                    assert(inodes@[y] == before[y]);
                }
            }
            assert forall|y: int| 0 <= y < x + 1 implies ledger::matches(
                (#[trigger] inodes@[y])@,
                s[y],
            ) && {
                let n = inodes@[y];
                let left = cache::root_in(cache.subtrees(), n.left.i, n.left.j, 0);
                &&& n.meta.address.position == position
                &&& n.left == left.address
                &&& n.right.position == position
                &&& n.meta.hash@ == hash::digest(
                    n.meta.address.j,
                    left.hash + (if y == 0 {
                        hash@
                    } else {
                        inodes@[y - 1].meta.hash@
                    }),
                )
            } by {
                if y < x {
                    assert(inodes@[y] == before[y]);
                    if y > 0 {
                        assert(inodes@[y - 1] == before[y - 1]);
                    }
                }
            }
        }
        right_hash = own_hash;
        x = x + 1;
    }
    proof {
        assert forall|a: int, b: int| 0 <= a < b < inodes@.len() implies (
        #[trigger] inodes@[a]).meta.address.j < (#[trigger] inodes@[b]).meta.address.j by {
            assert(ledger::matches(inodes@[a]@, s[a]));
            assert(ledger::matches(inodes@[b]@, s[b]));
        }
    }
    let entry = Entry::new(enode, inodes);
    proof {
        assert forall|y: int| 0 <= y < s.len() implies ledger::matches(
            #[trigger] entry@.inodes[y],
            s[y],
        ) by {
            assert(entry@.inodes[y] == inodes@[y]@);
        }
        assert forall|y: int| 0 <= y < entry@.inodes.len() implies #[trigger] grafted(
            *cache,
            position,
            entry@,
            y,
        ) by {
            assert(entry@.inodes[y] == inodes@[y]@);
            if y > 0 {
                assert(entry@.inodes[y - 1] == inodes@[y - 1]@);
            }
        }
        assert forall|log: Seq<EntryModel>| #[trigger] cache.sound(log) implies entry@
            == ledger::entry_of(
            ledger::payloads(log).push(value@),
            ledger::positions(log).push(position),
            log.len() + 1,
        ) by {
            cache.lemma_sound(log);
            let expected = ledger::entry_of(
                ledger::payloads(log).push(value@),
                ledger::positions(log).push(position),
                log.len() + 1,
            );
            assert forall|y: int| 0 <= y < s.len() implies #[trigger] entry@.inodes[y]
                == expected.inodes[y] by {
                assert(entry@.inodes[y] == inodes@[y]@);
            }
            assert(entry@.inodes =~= expected.inodes);
        }
    }
    entry
}

impl Slate<BlockStorage<MemoryDevice>> {
    /// An empty tree in memory.
    pub fn new_on_memory() -> (r: Self)
        ensures
            r.consistent(),
            r.values() == Seq::<Seq<u8>>::empty(),
            r.store().reliable(),
            r.store().writable(),
            r.store().bytes() == block::header(),
            r.cached().n() == 0,
    {
        Self::new_on_memory_with_buffer(Vec::new())
    }

    /// An empty tree in memory, with room for the given number of bytes.
    pub fn new_on_memory_with_capacity(capacity: usize) -> (r: Self)
        ensures
            r.consistent(),
            r.values() == Seq::<Seq<u8>>::empty(),
            r.store().reliable(),
            r.store().writable(),
            r.store().bytes() == block::header(),
            r.cached().n() == 0,
    {
        Self::new_on_memory_with_buffer(Vec::with_capacity(capacity))
    }

    /// The tree in the given bytes, which are none or those of a storage.
    pub fn new_on_memory_with_buffer(buffer: Vec<u8>) -> (r: Self)
        requires
            buffer@.len() == 0 || (block::bytes_open(buffer@) && opens_with(
                block::bytes_found(buffer@),
                block::bytes_latest(buffer@),
                0,
            )),
        ensures
            r.cached().n() == size_with(block::bytes_latest(buffer@)),
            r.cached().limit() == 0,
            r.store().bytes() == block::bytes_readied(buffer@),
            block::bytes_intact(buffer@) && ledger::genuine(block::bytes_log(buffer@)) ==> {
                &&& r.consistent()
                &&& r.log() == block::bytes_log(buffer@)
                &&& r.store().reliable()
                &&& r.store().writable()
            },
    {
        Self::new(BlockStorage::from_buffer(buffer, false)).unwrap()
    }
}

impl Slate<MemKVS> {
    /// An empty tree in a hash map.
    pub fn new_on_memkvs() -> (r: Self)
        ensures
            r.consistent(),
            r.values() == Seq::<Seq<u8>>::empty(),
            r.store().reliable(),
            r.store().writable(),
            r.cached().n() == 0,
    {
        let kvs: HashMap<Position, Entry> = HashMap::new();
        proof {
            assert(memory::kvs_log(kvs@) =~= seq![]);
        }
        let r = Self::new_on_memkvs_with_hashmap(kvs);
        proof {
            assert(r.values() =~= seq![]);
        }
        r
    }

    /// The tree in the given hash map, whose entries are those of a tree.
    pub fn new_on_memkvs_with_hashmap(kvs: HashMap<Position, Entry>) -> (r: Self)
        requires
            memory::kvs_open(kvs@),
            opens_with(memory::kvs_found(kvs@), memory::kvs_latest(kvs@), 0),
        ensures
            r.cached().n() == size_with(memory::kvs_latest(kvs@)),
            r.cached().limit() == 0,
            memory::kvs_intact(kvs@) && ledger::genuine(memory::kvs_log(kvs@)) ==> {
                &&& r.consistent()
                &&& r.log() == memory::kvs_log(kvs@)
                &&& r.store().reliable()
                &&& r.store().writable()
            },
    {
        Self::new(MemKVS::with_kvs(kvs)).unwrap()
    }
}

/// What is said of an index without an entry, and of an entry from which no way leads to it.
pub proof fn law_messages(i: Index, n: nat, e: EntryModel)
    ensures
        not_contained(i, n) == "Entry "@ + text::decimal_of(i as nat)
            + " is not contained in the current revision "@ + text::decimal_of(n),
        no_path(i, e) == "The entry doesn't have a path to "@ + text::decimal_of(i as nat) + ": "@
            + entry::entry_text(e),
{
}

/// The number of leaves of the tree over a storage is the index of its latest entry.
pub proof fn law_size(e: EntryModel)
    ensures
        size_with(Some(e)) == e.meta.address.i,
        size_with(None) == 0,
{
}

} // verus!
