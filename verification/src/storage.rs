//! Where entries are kept: what every storage does, and a scan over stored entries.
use crate::entry::{Entry, EntryModel, Position};
use crate::error::{Error, Result};
use crate::ledger;
use crate::serialize;
use vstd::prelude::*;

verus! {

/// A sequence of entries, each at its position.
///
/// What a storage holds is told by the functions from `log` to `writable`, which the contracts of
/// the methods speak of. A storage that leaves them out promises that there are values for them
/// that meet the contracts.
pub trait Storage: Sized {
    type Reader: Reader;

    /// The stored entries, from the first to the last.
    open spec fn log(&self) -> Seq<EntryModel> {
        arbitrary()
    }

    /// The position right behind the last entry.
    open spec fn end(&self) -> nat {
        arbitrary()
    }

    /// Whether the storage holds the entries of the log and nothing else.
    open spec fn intact(&self) -> bool {
        arbitrary()
    }

    /// The entries that are found at the positions, whether they belong to a log or not.
    open spec fn found(&self) -> Map<u64, EntryModel> {
        arbitrary()
    }

    /// Whether the error is the one with which reading at the position fails.
    open spec fn failing(&self) -> spec_fn(Position, Error) -> bool {
        arbitrary()
    }

    /// The position right behind the entry that is found at a position.
    open spec fn behind(&self) -> spec_fn(Position) -> Position {
        arbitrary()
    }

    /// Whether a position lies behind the last entry.
    open spec fn past(&self) -> spec_fn(Position) -> bool {
        arbitrary()
    }

    /// Whether the storage is not damaged at its ends: the latest entry can be told.
    open spec fn opens(&self) -> bool {
        arbitrary()
    }

    /// The latest entry of a storage that opens, if there is one.
    open spec fn latest(&self) -> Option<EntryModel> {
        arbitrary()
    }

    /// Whether the storage after is this one made ready to be written to.
    open spec fn readied(&self, after: &Self) -> bool {
        true
    }

    /// Whether no operation fails for a reason that lies outside.
    open spec fn reliable(&self) -> bool {
        arbitrary()
    }

    /// Whether the storage can be written to.
    open spec fn writable(&self) -> bool {
        arbitrary()
    }

    /// Whether this is what telling the last entry comes to: the storage before and after, and the
    /// result.
    open spec fn telling(before: Self, after: Self, r: Result<(Option<Entry>, Position)>) -> bool {
        true
    }

    /// Whether this is what storing an entry comes to: the storage before and after, and the
    /// result.
    open spec fn putting(
        before: Self,
        position: Position,
        entry: EntryModel,
        after: Self,
        r: Result<Position>,
    ) -> bool {
        true
    }

    /// Whether this is what removing entries comes to: the storage before and after, and the
    /// result.
    open spec fn removing(before: Self, position: Position, after: Self, r: Result<bool>) -> bool {
        true
    }

    /// The last entry, if there is one, and the position for the next. A storage that was never
    /// written to is made ready by this.
    fn last(&mut self) -> (r: Result<(Option<Entry>, Position)>)
        ensures
            final(self).reliable() == old(self).reliable(),
            final(self).writable() == old(self).writable(),
            Self::telling(*old(self), *final(self), r),
            old(self).reliable() ==> (r is Ok <==> old(self).opens()),
            r matches Ok((entry, position)) ==> {
                &&& old(self).opens()
                &&& position == old(self).end()
                &&& final(self).end() == old(self).end()
                &&& entry is Some <==> old(self).latest() is Some
                &&& entry matches Some(e) ==> e@ == old(self).latest()->Some_0
                &&& final(self).found() == old(self).found()
                &&& final(self).failing() == old(self).failing()
                &&& old(self).readied(final(self))
            },
            old(self).intact() && old(self).reliable() && (old(self).writable() || old(
                self,
            ).log().len() > 0) ==> r is Ok,
            old(self).intact() && r is Ok ==> {
                let (entry, position) = r->Ok_0;
                &&& final(self).intact()
                &&& final(self).log() == old(self).log()
                &&& position == old(self).end()
                &&& entry is None <==> old(self).log().len() == 0
                &&& entry matches Some(e) ==> e@ == old(self).log().last()
            },
    ;

    /// Stores an entry behind the last one and gives the position for the next.
    fn put(&mut self, position: Position, entry: &Entry) -> (r: Result<Position>)
        ensures
            final(self).reliable() == old(self).reliable(),
            final(self).writable() == old(self).writable(),
            Self::putting(*old(self), position, entry@, *final(self), r),
            !old(self).writable() ==> r is Err,
            old(self).intact() && r is Ok ==> {
                &&& position == old(self).end()
                &&& ledger::storable(entry@, position)
                &&& final(self).intact()
                &&& final(self).log() == old(self).log().push(entry@)
                &&& final(self).end() == r->Ok_0
            },
            old(self).intact() && old(self).reliable() && old(self).writable() && position == old(
                self,
            ).end() && ledger::storable(entry@, position) && position + ledger::size_of(entry@)
                <= u64::MAX ==> r is Ok,
            old(self).intact() && old(self).reliable() && r is Err ==> {
                &&& final(self).intact()
                &&& final(self).log() == old(self).log()
                &&& final(self).end() == old(self).end()
            },
    ;

    /// Removes the entry at the position and all that follow it. Gives `false` where there is none
    /// to remove, because the position lies behind the last entry.
    fn truncate(&mut self, position: Position) -> (r: Result<bool>)
        ensures
            final(self).reliable() == old(self).reliable(),
            final(self).writable() == old(self).writable(),
            Self::removing(*old(self), position, *final(self), r),
            old(self).intact() ==> forall|k: int|
                0 <= k < old(self).log().len() && (#[trigger] old(
                    self,
                ).log()[k]).meta.address.position == position ==> {
                    &&& old(self).reliable() && old(self).writable() ==> r is Ok
                    &&& !old(self).writable() ==> r is Err
                    &&& old(self).reliable() && r is Err ==> *final(self) == *old(self)
                    &&& r matches Ok(removed) ==> {
                        &&& removed
                        &&& final(self).intact()
                        &&& final(self).log() == old(self).log().take(k)
                        &&& final(self).end() == position
                    }
                },
            old(self).intact() && position >= old(self).end() ==> {
                &&& old(self).reliable() ==> r is Ok
                &&& r matches Ok(removed) ==> !removed
                &&& *final(self) == *old(self)
            },
    ;

    /// A reader over the entries that are stored now. It sees none that is stored later. An entry
    /// that is removed later stays in a reader that is reliable; through another one reading it can
    /// fail.
    fn reader(&self) -> (r: Result<Self::Reader>)
        ensures
            self.reliable() ==> r is Ok,
            r matches Ok(reader) ==> {
                &&& reader.log() == self.log()
                &&& reader.end() == self.end()
                &&& reader.found() == self.found()
                &&& reader.failing() == self.failing()
                &&& reader.behind() == self.behind()
                &&& reader.past() == self.past()
                &&& self.intact() ==> reader.intact() && ledger::ordered(self.log(), self.end())
                    && ledger::listed(self.log(), self.found())
                &&& self.reliable() ==> reader.reliable()
            },
    ;
}

/// Reads entries of a storage.
pub trait Reader: Sized {
    /// The stored entries, from the first to the last.
    open spec fn log(&self) -> Seq<EntryModel> {
        arbitrary()
    }

    /// The position right behind the last entry.
    open spec fn end(&self) -> nat {
        arbitrary()
    }

    /// Whether the storage holds the entries of the log and nothing else.
    open spec fn intact(&self) -> bool {
        arbitrary()
    }

    /// The entries that are found at the positions, whether they belong to a log or not.
    open spec fn found(&self) -> Map<u64, EntryModel> {
        arbitrary()
    }

    /// Whether the error is the one with which reading at the position fails.
    open spec fn failing(&self) -> spec_fn(Position, Error) -> bool {
        arbitrary()
    }

    /// Whether no operation fails for a reason that lies outside.
    open spec fn reliable(&self) -> bool {
        arbitrary()
    }

    /// The position right behind the entry that is found at a position.
    open spec fn behind(&self) -> spec_fn(Position) -> Position {
        arbitrary()
    }

    /// Whether a position lies behind the last entry.
    open spec fn past(&self) -> spec_fn(Position) -> bool {
        arbitrary()
    }

    /// Whether this is what reading at a position comes to: the reader before and after, and the
    /// result.
    open spec fn reading(
        before: Self,
        position: Position,
        after: Self,
        r: Result<Option<(Entry, Position)>>,
    ) -> bool {
        true
    }

    /// The entry at the position and the position right behind it; none where the position lies
    /// behind the last entry.
    fn read_next(&mut self, position: Position) -> (r: Result<Option<(Entry, Position)>>)
        ensures
            final(self).log() == old(self).log(),
            final(self).end() == old(self).end(),
            final(self).intact() == old(self).intact(),
            final(self).reliable() == old(self).reliable(),
            final(self).found() == old(self).found(),
            final(self).failing() == old(self).failing(),
            final(self).behind() == old(self).behind(),
            final(self).past() == old(self).past(),
            old(self).reliable() && old(self).found().contains_key(position) ==> r is Ok,
            r matches Ok(found) ==> {
                &&& found is Some <==> old(self).found().contains_key(position)
                &&& found matches Some(f) ==> f.0@ == old(self).found()[position] && f.1 == (old(
                    self,
                ).behind())(position)
                &&& found is None ==> (old(self).past())(position)
                &&& found is None ==> forall|error: Error| #[trigger]
                    serialize::is_short(error) ==> (old(self).failing())(position, error)
            },
            old(self).reliable() && r is Err ==> {
                &&& (old(self).failing())(position, r->Err_0)
                &&& !(old(self).past())(position)
            },
            Self::reading(*old(self), position, *final(self), r),
            old(self).intact() ==> forall|k: int|
                0 <= k < old(self).log().len() && (#[trigger] old(
                    self,
                ).log()[k]).meta.address.position == position ==> {
                    &&& old(self).reliable() ==> r is Ok
                    &&& r matches Ok(found) ==> {
                        &&& found is Some
                        &&& (found->Some_0).0@ == old(self).log()[k]
                        &&& (found->Some_0).1 == ledger::next_position(
                            old(self).log(),
                            old(self).end(),
                            k,
                        )
                    }
                },
            old(self).intact() && position >= old(self).end() ==> {
                &&& old(self).reliable() ==> r is Ok
                &&& r matches Ok(found) ==> found is None
            },
    ;

    /// The entry at the position.
    fn read(&mut self, position: Position) -> (r: Result<Entry>)
        ensures
            final(self).log() == old(self).log(),
            final(self).end() == old(self).end(),
            final(self).intact() == old(self).intact(),
            final(self).reliable() == old(self).reliable(),
            final(self).found() == old(self).found(),
            final(self).failing() == old(self).failing(),
            final(self).behind() == old(self).behind(),
            final(self).past() == old(self).past(),
            old(self).reliable() ==> (r is Ok <==> old(self).found().contains_key(position)),
            r matches Ok(entry) ==> old(self).found().contains_key(position) && entry@ == old(
                self,
            ).found()[position],
            old(self).reliable() && r is Err ==> (old(self).failing())(position, r->Err_0),
            exists|found: Result<Option<(Entry, Position)>>|
                taken(found, r) && #[trigger] Self::reading(
                    *old(self),
                    position,
                    *final(self),
                    found,
                ),
            old(self).intact() ==> forall|k: int|
                0 <= k < old(self).log().len() && (#[trigger] old(
                    self,
                ).log()[k]).meta.address.position == position ==> {
                    &&& old(self).reliable() ==> r is Ok
                    &&& r matches Ok(entry) ==> entry@ == old(self).log()[k]
                },
            old(self).intact() && position >= old(self).end() ==> r is Err && (old(self).reliable()
                ==> serialize::is_short(r->Err_0)),
    {
        let found: Result<Option<(Entry, Position)>> = self.read_next(position);
        let ghost given = found;
        let r: Result<Entry> = match found {
            Ok(Some((entry, _next))) => Ok(entry),
            Ok(None) => Err(serialize::short()),
            Err(error) => Err(error),
        };
        proof {
            assert(taken(given, r));
            assert(Self::reading(*old(self), position, *self, given));
        }
        r
    }

    /// Hands up to `count` entries from the position on to the visitor, and gives their number. It
    /// ends where the visitor refuses an entry.
    fn scan<V: EntryVisitor>(&mut self, position: Position, count: u64, visitor: &mut V) -> (r:
        Result<u64>)
        ensures
            final(self).log() == old(self).log(),
            final(self).end() == old(self).end(),
            final(self).intact() == old(self).intact(),
            final(self).reliable() == old(self).reliable(),
            final(self).found() == old(self).found(),
            final(self).failing() == old(self).failing(),
            final(self).behind() == old(self).behind(),
            final(self).past() == old(self).past(),
            old(self).intact() && ledger::ordered(old(self).log(), old(self).end()) ==> forall|
                k: int,
            |
                0 <= k < old(self).log().len() && (#[trigger] old(
                    self,
                ).log()[k]).meta.address.position == position ==> scan_result(
                    old(self).log().subrange(k, scan_end(old(self).log().len(), k, count)),
                    old(self).reliable(),
                    *old(visitor),
                    *final(visitor),
                    r,
                ),
            old(self).intact() && ledger::ordered(old(self).log(), old(self).end()) && position
                >= old(self).end() ==> scan_result(
                seq![],
                old(self).reliable(),
                *old(visitor),
                *final(visitor),
                r,
            ),
            scan_ran(
                (Trail {
                    found: old(self).found(),
                    behind: old(self).behind(),
                    past: old(self).past(),
                    failing: old(self).failing(),
                }),
                old(self).reliable(),
                position,
                count as nat,
                *old(visitor),
                *final(visitor),
                r,
            ),
    {
        let mut at: Position = position;
        let ghost trail = Trail {
            found: self.found(),
            behind: self.behind(),
            past: self.past(),
            failing: self.failing(),
        };
        let ghost mut done: Seq<EntryModel> = seq![];
        let mut scanned: u64 = 0;
        let ghost log = self.log();
        let ghost end = self.end();
        let ghost first = *visitor;
        let ghost sane = self.intact() && ledger::ordered(log, end);
        let ghost sure = self.reliable();
        let ghost known = exists|k: int|
            0 <= k < log.len() && (#[trigger] log[k]).meta.address.position == position;
        let ghost start: int = if known {
            choose|k: int|
                0 <= k < log.len() && (#[trigger] log[k]).meta.address.position == position
        } else {
            log.len() as int
        };
        proof {
            if sane {
                assert forall|k: int|
                    0 <= k < log.len() && (#[trigger] log[k]).meta.address.position
                        == position implies k == start by {
                    if k < start {
                        assert(log[k].meta.address.position < log[start].meta.address.position);
                    } else if k > start {
                        assert(log[start].meta.address.position < log[k].meta.address.position);
                    }
                }
            }
            assert(log.subrange(start, start) =~= seq![]);
            assert(done + trail.entries(position, count as nat) =~= trail.entries(
                position,
                count as nat,
            ));
        }
        while scanned < count
            invariant
                trail == (Trail {
                    found: old(self).found(),
                    behind: old(self).behind(),
                    past: old(self).past(),
                    failing: old(self).failing(),
                }),
                done.len() == scanned,
                trail.entries(position, count as nat) == done + trail.entries(
                    at,
                    (count - scanned) as nat,
                ),
                trail.end(position, count as nat) == trail.end(at, (count - scanned) as nat),
                scanned_all(first, done, *visitor, None),
                log == old(self).log(),
                end == old(self).end(),
                sane == (old(self).intact() && ledger::ordered(log, end)),
                sure == old(self).reliable(),
                first == *old(visitor),
                sane ==> ledger::ordered(log, end),
                sane ==> forall|k: int|
                    0 <= k < log.len() && (#[trigger] log[k]).meta.address.position == position
                        ==> known && k == start,
                self.log() == old(self).log(),
                self.end() == old(self).end(),
                self.intact() == old(self).intact(),
                self.reliable() == old(self).reliable(),
                self.found() == old(self).found(),
                self.failing() == old(self).failing(),
                self.behind() == old(self).behind(),
                self.past() == old(self).past(),
                0 <= start <= log.len(),
                scanned <= count,
                known ==> log[start].meta.address.position == position && start < log.len(),
                !known ==> start == log.len(),
                sane && known ==> start + scanned <= log.len() && at == (if scanned == 0 {
                    position as nat
                } else {
                    ledger::next_position(log, end, start + scanned - 1)
                }),
                sane && !known && position >= end ==> scanned == 0 && at == position,
                sane && (known || position >= end) ==> scanned_all(
                    first,
                    log.subrange(start, start + scanned),
                    *visitor,
                    None,
                ),
            decreases count - scanned,
        {
            let ghost before = *visitor;
            proof {
                assert(done + seq![] =~= done);
                assert(done.take(done.len() as int) =~= done);
            }
            match self.read_next(at) {
                Err(error) => {
                    proof {
                        let all = trail.entries(position, count as nat);
                        assert(all.take(scanned as int) =~= done);
                        assert(scanned_all(first, all.take(scanned as int), *visitor, None));
                    }
                    return Err(error);
                },
                Ok(None) => {
                    return Ok(scanned);
                },
                Ok(Some((entry, next))) => {
                    let ghost e = entry@;
                    let ghost x = start + scanned;
                    let ghost rest = trail.entries(next, (count - scanned - 1) as nat);
                    proof {
                        assert(done + (seq![e] + rest) =~= done.push(e) + rest);
                        if sane && known {
                            if x < log.len() {
                                assert(log[x].meta.address.position == at);
                                assert(e == log[x]);
                            }
                            assert(log.subrange(start, x + 1) =~= log.subrange(start, x).push(e));
                        }
                    }
                    match visitor.visit(entry) {
                        Ok(()) => {
                            at = next;
                            scanned = scanned + 1;
                            proof {
                                lemma_scanned_push(first, done, before, e, *visitor, None);
                                done = done.push(e);
                                if sane && known {
                                    lemma_scanned_push(
                                        first,
                                        log.subrange(start, x),
                                        before,
                                        e,
                                        *visitor,
                                        None,
                                    );
                                }
                            }
                        },
                        Err(message) => {
                            proof {
                                lemma_scanned_push(first, done, before, e, *visitor, Some(message@));
                                let whole = trail.entries(position, count as nat);
                                assert(whole.take(scanned + 1) =~= done.push(e));
                                assert(refused_at(first, whole, *visitor, message@)) by {
                                    let m = scanned + 1;
                                    assert(0 < m <= whole.len() && scanned_all(
                                        first,
                                        whole.take(m),
                                        *visitor,
                                        Some(message@),
                                    ));
                                }
                                if sane && known {
                                    lemma_scanned_push(
                                        first,
                                        log.subrange(start, x),
                                        before,
                                        e,
                                        *visitor,
                                        Some(message@),
                                    );
                                    let all = log.subrange(start, scan_end(log.len(), start, count));
                                    assert(all.take(scanned + 1) =~= log.subrange(start, x + 1));
                                    let m = scanned + 1;
                                    assert(0 < m <= all.len() && scanned_all(
                                        first,
                                        all.take(m),
                                        *visitor,
                                        Some(message@),
                                    ));
                                    let failed: Result<u64> = Err(Error::Callback(message));
                                    assert(failed->Err_0->Callback_0@ == message@);
                                }
                            }
                            return Err(Error::Callback(message));
                        },
                    }
                },
            }
        }
        proof {
            assert(done + seq![] =~= done);
        }
        Ok(scanned)
    }
}

/// How entries follow one another from position to position.
pub struct Trail {
    /// The entries that are found at the positions.
    pub found: Map<u64, EntryModel>,
    /// The position right behind the entry that is found at a position.
    pub behind: spec_fn(Position) -> Position,
    /// Whether a position lies behind the last entry.
    pub past: spec_fn(Position) -> bool,
    /// Whether the error is the one with which reading at the position fails.
    pub failing: spec_fn(Position, Error) -> bool,
}

impl Trail {
    /// Up to `count` entries from the position on, as far as they are found.
    pub open spec fn entries(self, position: Position, count: nat) -> Seq<EntryModel>
        decreases count,
    {
        if count == 0 || !self.found.contains_key(position) {
            seq![]
        } else {
            seq![self.found[position]] + self.entries(
                (self.behind)(position),
                (count - 1) as nat,
            )
        }
    }

    /// The position right behind them.
    pub open spec fn end(self, position: Position, count: nat) -> Position
        decreases count,
    {
        if count == 0 || !self.found.contains_key(position) {
            position
        } else {
            self.end((self.behind)(position), (count - 1) as nat)
        }
    }
}

/// Whether the visitor was given the first of the entries and refused the last of those.
pub open spec fn refused_at<V: EntryVisitor>(
    before: V,
    entries: Seq<EntryModel>,
    after: V,
    message: Seq<char>,
) -> bool {
    exists|m: int|
        0 < m <= entries.len() && #[trigger] scanned_all(
            before,
            entries.take(m),
            after,
            Some(message),
        )
}

/// What a scan comes to, whatever is stored. All entries are handed on, up to the count or to a
/// position behind the last entry; or the visitor refuses one of them; or the next one cannot be
/// read, and the error says so.
pub open spec fn scan_ran<V: EntryVisitor>(
    trail: Trail,
    reliable: bool,
    position: Position,
    count: nat,
    before: V,
    after: V,
    r: Result<u64>,
) -> bool {
    let entries = trail.entries(position, count);
    let end = trail.end(position, count);
    match r {
        Ok(scanned) => {
            &&& scanned == entries.len()
            &&& scanned_all(before, entries, after, None)
            &&& scanned == count || (trail.past)(end)
        },
        Err(error) => {
            ||| error matches Error::Callback(message) && refused_at(
                before,
                entries,
                after,
                message@,
            )
            ||| reliable && entries.len() < count && scanned_all(before, entries, after, None)
                && !(trail.past)(end) && (trail.failing)(end, error)
            ||| !reliable && exists|m: int|
                0 <= m <= entries.len() && #[trigger] scanned_all(
                    before,
                    entries.take(m),
                    after,
                    None,
                )
        },
    }
}

/// Whether this is the entry at a position, by what reading there comes to: where the position lies
/// behind the last entry, there are too few bytes for one.
pub open spec fn taken(found: Result<Option<(Entry, Position)>>, r: Result<Entry>) -> bool {
    match found {
        Ok(Some(f)) => r == Ok::<Entry, Error>(f.0),
        Ok(None) => r is Err && serialize::is_short(r->Err_0),
        Err(error) => r == Err::<Entry, Error>(error),
    }
}

/// Whether reading the entry at a position comes to this: the reader before and after, and the
/// result.
pub open spec fn read_gives<R: Reader>(
    before: R,
    position: Position,
    after: R,
    r: Result<Entry>,
) -> bool {
    exists|found: Result<Option<(Entry, Position)>>|
        taken(found, r) && #[trigger] R::reading(before, position, after, found)
}

/// Whether the reader after has the same entries to read as the one before.
pub open spec fn unchanged<R: Reader>(before: R, after: R) -> bool {
    &&& after.log() == before.log()
    &&& after.end() == before.end()
    &&& after.intact() == before.intact()
    &&& after.reliable() == before.reliable()
    &&& after.found() == before.found()
    &&& after.failing() == before.failing()
    &&& after.behind() == before.behind()
    &&& after.past() == before.past()
}

/// Where a scan of `count` entries from the `k`-th on ends, out of `n`.
pub open spec fn scan_end(n: nat, k: int, count: u64) -> int {
    if k + count <= n {
        k + count
    } else {
        n as int
    }
}

/// Takes entries, one after the other.
pub trait EntryVisitor: Sized {
    /// Whether this is what the visitor does with an entry: what it is before and after, and the
    /// message with which it refuses the entry.
    open spec fn step(
        before: Self,
        entry: EntryModel,
        after: Self,
        refusal: Option<Seq<char>>,
    ) -> bool {
        true
    }

    fn visit(&mut self, entry: Entry) -> (r: std::result::Result<(), String>)
        ensures
            Self::step(
                *old(self),
                entry@,
                *final(self),
                match r {
                    Ok(_) => None,
                    Err(message) => Some(message@),
                },
            ),
    ;
}

/// Whether the visitor was given all the entries, and refused at most the last one.
pub open spec fn scanned_all<V: EntryVisitor>(
    before: V,
    entries: Seq<EntryModel>,
    after: V,
    refusal: Option<Seq<char>>,
) -> bool
    decreases entries.len(),
{
    if entries.len() == 0 {
        after == before && refusal is None
    } else {
        exists|mid: V|
            scanned_all(before, entries.drop_last(), mid, None) && #[trigger] V::step(
                mid,
                entries.last(),
                after,
                refusal,
            )
    }
}

/// What a scan over the entries comes to: all of them are handed on and their number is returned;
/// or the visitor refuses one of them, and nothing follows.
pub open spec fn scan_result<V: EntryVisitor>(
    entries: Seq<EntryModel>,
    reliable: bool,
    before: V,
    after: V,
    r: Result<u64>,
) -> bool {
    match r {
        Ok(count) => count == entries.len() && scanned_all(before, entries, after, None),
        Err(Error::Callback(message)) => reliable ==> exists|m: int|
            0 < m <= entries.len() && #[trigger] scanned_all(
                before,
                entries.take(m),
                after,
                Some(message@),
            ),
        Err(_) => !reliable,
    }
}

/// One more entry.
proof fn lemma_scanned_push<V: EntryVisitor>(
    before: V,
    entries: Seq<EntryModel>,
    mid: V,
    e: EntryModel,
    after: V,
    refusal: Option<Seq<char>>,
)
    requires
        scanned_all(before, entries, mid, None),
        V::step(mid, e, after, refusal),
    ensures
        scanned_all(before, entries.push(e), after, refusal),
{
    let more = entries.push(e);
    assert(more.drop_last() =~= entries);
    assert(more.last() == e);
}

/// Keeps every entry that it is given.
#[derive(Debug)]
pub struct Collector {
    pub entries: Vec<Entry>,
}

impl Collector {
    /// The entries that were kept.
    pub open spec fn kept(&self) -> Seq<EntryModel> {
        self.entries@.map_values(|e: Entry| e@)
    }

    pub fn new() -> (r: Self)
        ensures
            r.entries@ == Seq::<Entry>::empty(),
    {
        Collector { entries: Vec::new() }
    }
}

impl EntryVisitor for Collector {
    open spec fn step(
        before: Self,
        entry: EntryModel,
        after: Self,
        refusal: Option<Seq<char>>,
    ) -> bool {
        &&& refusal is None
        &&& after.entries@.len() == before.entries@.len() + 1
        &&& after.entries@.drop_last() == before.entries@
        &&& after.entries@.last()@ == entry
    }

    fn visit(&mut self, entry: Entry) -> (r: std::result::Result<(), String>) {
        self.entries.push(entry);
        proof {
            assert(self.entries@.drop_last() =~= old(self).entries@);
        }
        Ok(())
    }
}

/// A scan with a collector keeps exactly the entries of the scan, in their order.
pub proof fn law_scan_collects(
    before: Collector,
    entries: Seq<EntryModel>,
    after: Collector,
    refusal: Option<Seq<char>>,
)
    requires
        scanned_all(before, entries, after, refusal),
    ensures
        refusal is None,
        after.kept() == before.kept() + entries,
    decreases entries.len(),
{
    if entries.len() == 0 {
        assert(after.kept() =~= before.kept() + entries);
    } else {
        let low = entries.drop_last();
        let mid = choose|mid: Collector|
            scanned_all(before, low, mid, None) && #[trigger] Collector::step(
                mid,
                entries.last(),
                after,
                refusal,
            );
        law_scan_collects(before, low, mid, None);
        assert(after.kept() =~= mid.kept().push(entries.last()));
        assert(entries =~= low.push(entries.last()));
        assert(after.kept() =~= before.kept() + entries);
    }
}

/// A scan with a collector over entries that can all be read hands on every one of them, once and in
/// their order, and gives their number.
pub proof fn law_scan_hands_on_all(
    entries: Seq<EntryModel>,
    before: Collector,
    after: Collector,
    r: Result<u64>,
)
    requires
        scan_result(entries, true, before, after, r),
    ensures
        r is Ok,
        r->Ok_0 == entries.len(),
        after.kept() == before.kept() + entries,
{
    match r {
        Ok(_) => {
            law_scan_collects(before, entries, after, None);
        },
        Err(Error::Callback(message)) => {
            let m = choose|m: int|
                0 < m <= entries.len() && #[trigger] scanned_all(
                    before,
                    entries.take(m),
                    after,
                    Some(message@),
                );
            law_scan_collects(before, entries.take(m), after, Some(message@));
        },
        Err(_) => {},
    }
}

/// A visitor that refuses an entry is shown none after it, and the scan ends with its message.
pub proof fn law_scan_ends_at_refusal<V: EntryVisitor>(
    entries: Seq<EntryModel>,
    before: V,
    after: V,
    error: Error,
)
    requires
        scan_result(entries, true, before, after, Err::<u64, Error>(error)),
    ensures
        error is Callback,
        exists|m: int, mid: V|
            0 < m <= entries.len() && #[trigger] scanned_all(
                before,
                entries.take(m - 1),
                mid,
                None,
            ) && V::step(mid, entries[m - 1], after, Some(error->Callback_0@)),
{
    let message = error->Callback_0;
    let m = choose|m: int|
        0 < m <= entries.len() && #[trigger] scanned_all(
            before,
            entries.take(m),
            after,
            Some(message@),
        );
    let part = entries.take(m);
    let mid = choose|mid: V|
        scanned_all(before, part.drop_last(), mid, None) && #[trigger] V::step(
            mid,
            part.last(),
            after,
            Some(message@),
        );
    assert(part.drop_last() =~= entries.take(m - 1));
    assert(0 < m <= entries.len() && scanned_all(before, entries.take(m - 1), mid, None));
}

/// A scan of `count` entries from the `k`-th on takes as many as there are, up to the count.
pub proof fn law_scan_end(n: nat, k: int, count: u64)
    requires
        0 <= k <= n,
    ensures
        k <= scan_end(n, k, count) <= n,
        scan_end(n, k, count) - k <= count,
        scan_end(n, k, count) == n || scan_end(n, k, count) - k == count,
{
}

/// The entries of a trail: each is found where the one before it ends, and there are as many as the
/// count, or the next one is not found.
pub proof fn law_trail(t: Trail, position: Position, count: nat)
    ensures
        ({
            let entries = t.entries(position, count);
            &&& entries.len() <= count
            &&& count > 0 && t.found.contains_key(position) ==> entries.len() > 0 && entries[0]
                == t.found[position] && entries.skip(1) == t.entries(
                (t.behind)(position),
                (count - 1) as nat,
            )
            &&& entries.len() < count ==> !t.found.contains_key(t.end(position, count))
        }),
    decreases count,
{
    if count > 0 && t.found.contains_key(position) {
        law_trail(t, (t.behind)(position), (count - 1) as nat);
        let entries = t.entries(position, count);
        assert(entries.skip(1) =~= t.entries((t.behind)(position), (count - 1) as nat));
    }
}

/// A scan with a collector, whatever is stored, hands on the entries that follow one another from the
/// position on, up to the count; it is an error exactly if the next one is there and cannot be read.
pub proof fn law_scan_follows_trail(
    t: Trail,
    position: Position,
    count: nat,
    before: Collector,
    after: Collector,
    r: Result<u64>,
)
    requires
        scan_ran(t, true, position, count, before, after, r),
    ensures
        after.kept() == before.kept() + t.entries(position, count),
        r matches Ok(n) ==> n == t.entries(position, count).len() && (n == count || (t.past)(
            t.end(position, count),
        )),
        r matches Err(error) ==> t.entries(position, count).len() < count && !(t.past)(
            t.end(position, count),
        ) && (t.failing)(t.end(position, count), error),
{
    let entries = t.entries(position, count);
    match r {
        Ok(_) => {
            law_scan_collects(before, entries, after, None);
        },
        Err(error) => {
            if error is Callback && refused_at(before, entries, after, error->Callback_0@) {
                let message = error->Callback_0@;
                let m = choose|m: int|
                    0 < m <= entries.len() && #[trigger] scanned_all(
                        before,
                        entries.take(m),
                        after,
                        Some(message),
                    );
                law_scan_collects(before, entries.take(m), after, Some(message));
            } else {
                law_scan_collects(before, entries, after, None);
            }
        },
    }
}

/// The entry at a position is the one that is read there; behind the last entry there are too few
/// bytes, and an error is handed on.
pub proof fn law_taken(entry: Entry, next: Position, error: Error, r: Result<Entry>)
    ensures
        taken(Ok(Some((entry, next))), r) ==> r == Ok::<Entry, Error>(entry),
        taken(Ok(None), r) ==> r is Err && r->Err_0 is Io,
        taken(Err(error), r) ==> r == Err::<Entry, Error>(error),
{
}

/// A collector holds the entries that it keeps, each with all that it is, in their order.
pub proof fn law_kept(c: Collector)
    ensures
        c.kept().len() == c.entries@.len(),
        forall|k: int| 0 <= k < c.entries@.len() ==> #[trigger] c.kept()[k] == c.entries@[k]@,
{
}

} // verus!
