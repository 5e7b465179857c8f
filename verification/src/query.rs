//! Queries on a generation of the tree.
use crate::arith;
use crate::cache::Cache;
use crate::entry;
use crate::entry::{Address, Entry, EntryModel, Position};
use crate::error::{inconsistency, Error, Result};
use crate::evidence;
use crate::formula;
use crate::formula::{contains, is_valid, subnodes_of, Index};
use crate::ledger;
use crate::model;
use crate::nodes;
use crate::sample;
use crate::sample::{StratumSample, Witnesses};
use crate::storage;
use crate::storage::{EntryVisitor, Reader, Storage};
use crate::text;
use crate::value::Value;
use crate::walk;
use crate::walk::{Visit, Visitor, WalkDirection};
use std::sync::Arc;
use vstd::arithmetic::power2::*;
use vstd::prelude::*;

verus! {

/// Looks for the value of a leaf.
struct Finder {
    i: Index,
    result: Result<Option<Vec<u8>>>,
}

/// What is said of a node of height 0 that is no leaf.
fn valueless_text(i: Index) -> (r: String)
    ensures
        r@ == walk::valueless(i),
{
    let mut message = String::new();
    text::push_text(&mut message, "The value was not passed at the leaf node b_");
    text::push_decimal(&mut message, i);
    text::push_text(&mut message, " reached");
    proof {
        assert(message@ =~= walk::valueless(i));
    }
    message
}

/// What is said of a node that no tree has.
fn impossible_text(i: Index, j: u8) -> (r: String)
    ensures
        r@ == walk::impossible(i, j),
{
    let mut message = String::new();
    text::push_text(&mut message, "There is no node b_{");
    text::push_decimal(&mut message, i);
    text::push_text(&mut message, ",");
    text::push_decimal(&mut message, j as u64);
    text::push_text(&mut message, "}");
    proof {
        assert(message@ =~= walk::impossible(i, j));
    }
    message
}

impl Visitor for Finder {
    closed spec fn step(
        before: Self,
        visit: Visit,
        after: Self,
        direction: WalkDirection,
    ) -> bool {
        let i = visit.i;
        let j = visit.j;
        &&& after.i == before.i
        &&& if i == before.i {
            if j == 0 {
                &&& direction == WalkDirection::Terminate
                &&& match visit.value {
                    Some(value) => after.result is Ok && bytes_of(after.result->Ok_0) == Some(
                        value,
                    ),
                    None => after.result is Err && walk::contradicts(
                        after.result->Err_0,
                        walk::valueless(i),
                    ),
                }
            } else {
                direction == WalkDirection::Right && after.result == before.result
            }
        } else if visit.value is Some {
            direction == WalkDirection::Terminate && after.result == before.result
        } else if j == 0 || !nodes::valid(i as nat, j as nat) {
            &&& direction == WalkDirection::Terminate
            &&& after.result is Err
            &&& walk::contradicts(after.result->Err_0, walk::impossible(i, j))
        } else {
            &&& after.result == before.result
            &&& direction == (if nodes::covers(
                i as nat,
                nodes::right_j(i as nat, j as nat),
                before.i as nat,
            ) {
                WalkDirection::Right
            } else {
                WalkDirection::Left
            })
        }
    }

    fn visit(
        &mut self,
        _revision: Index,
        i: Index,
        j: u8,
        _hash: &crate::Hash,
        value: Option<&[u8]>,
    ) -> (r: WalkDirection) {
        if i == self.i {
            if j == 0 {
                self.result = match value {
                    Some(v) => Ok(Some(vstd::slice::slice_to_vec(v))),
                    None => inconsistency(valueless_text(i)),
                };
                WalkDirection::Terminate
            } else {
                WalkDirection::Right
            }
        } else if value.is_some() {
            WalkDirection::Terminate
        } else if j == 0 || !is_valid(i, j) {
            self.result = inconsistency(impossible_text(i, j));
            WalkDirection::Terminate
        } else {
            let ((_il, _jl), (ir, jr)) = subnodes_of(i, j);
            proof {
                formula::lemma_height(i, j as nat);
                nodes::lemma_children(i as nat, j as nat);
            }
            if contains(ir, jr, self.i) {
                WalkDirection::Right
            } else {
                WalkDirection::Left
            }
        }
    }
}

/// Whether this is the result for where the way to a leaf comes to.
pub open spec fn answers(
    s: walk::Stored,
    reach: walk::Reach,
    r: Result<Option<Vec<u8>>>,
) -> bool {
    match reach {
        walk::Reach::Found(e) => r is Ok && bytes_of(r->Ok_0) == Some(e.payload),
        walk::Reach::Nowhere(_) => r is Ok && r->Ok_0 is None,
        walk::Reach::Broken(fault) => r is Err && walk::told(s, fault, r->Err_0),
    }
}

/// The walk to a leaf gives what the way to it comes to.
proof fn lemma_finds(
    s: walk::Stored,
    revision: Index,
    e: EntryModel,
    k: nat,
    before: Finder,
    after: Finder,
)
    requires
        before.result is Ok,
        before.result->Ok_0 is None,
        walk::traced(s, revision, e, k, before, after),
    ensures
        answers(s, walk::reached(s, e, k, before.i), after.result),
    decreases e.meta.address.i, k,
{
    let (mid, d) = choose|mid: Finder, d: WalkDirection|
        #![trigger Finder::step(before, walk::visit_in(revision, e, k), mid, d)]
        Finder::step(before, walk::visit_in(revision, e, k), mid, d) && walk::traced_on(
            s,
            revision,
            e,
            k,
            d,
            mid,
            after,
        );
    if k > 0 {
        match d {
            WalkDirection::Right => {
                lemma_finds(s, revision, e, (k - 1) as nat, mid, after);
            },
            WalkDirection::Left => {
                let (next, place) = walk::left_step(s, e, k)->Ok_0;
                lemma_finds(s, revision, next, place, mid, after);
            },
            _ => {},
        }
    }
}

/// The walk to a leaf breaks only where the way to it does.
proof fn lemma_loses(
    s: walk::Stored,
    revision: Index,
    e: EntryModel,
    k: nat,
    before: Finder,
    after: Finder,
    error: Error,
)
    requires
        walk::broken(s, true, revision, e, k, before, after, error),
    ensures
        walk::reached(s, e, k, before.i) matches walk::Reach::Broken(fault) && walk::told(
            s,
            fault,
            error,
        ),
    decreases e.meta.address.i, k,
{
    let (mid, d) = choose|mid: Finder, d: WalkDirection|
        #![trigger Finder::step(before, walk::visit_in(revision, e, k), mid, d)]
        Finder::step(before, walk::visit_in(revision, e, k), mid, d) && walk::broken_on(
            s,
            true,
            revision,
            e,
            k,
            d,
            mid,
            after,
            error,
        );
    match d {
        WalkDirection::Right => {
            lemma_loses(s, revision, e, (k - 1) as nat, mid, after, error);
        },
        _ => {
            if walk::left_step(s, e, k) is Ok {
                let (next, place) = walk::left_step(s, e, k)->Ok_0;
                lemma_loses(s, revision, next, place, mid, after, error);
            }
        },
    }
}

/// Every leaf of the tree is below the highest node of its latest entry.
proof fn lemma_above(e: EntryModel, i: nat)
    requires
        ledger::shaped(e),
        1 <= i <= e.meta.address.i,
    ensures
        entry::height_of(e, e.inodes.len()) == model::height(e.meta.address.i as nat),
        nodes::covers(e.meta.address.i as nat, entry::height_of(e, e.inodes.len()), i),
{
    let n = e.meta.address.i as nat;
    ledger::lemma_shaped(e);
    nodes::lemma_valid(n, model::height(n));
}

/// Whether the leaf `k` is below the node `b_{i,j}`, whatever the height.
fn has_below(i: Index, j: u8, k: Index) -> (r: bool)
    requires
        i > 0,
    ensures
        r == nodes::covers(i as nat, j as nat, k as nat),
{
    if j <= 64 {
        contains(i, j, k)
    } else {
        proof {
            // every index is below `2^64`, so the node has all leaves up to its own
            lemma2_to64_rest();
            arith::lemma_pow2_monotone(64, j as nat);
            vstd::arithmetic::div_mod::lemma_small_mod((i - 1) as nat, pow2(64));
            vstd::arithmetic::div_mod::lemma_small_mod((i - 1) as nat, pow2(j as nat));
        }
        contains(i, 64, k)
    }
}

/// Collects the witnesses of a leaf, and its value.
struct Sampler {
    i: Index,
    witnesses: Witnesses,
    leaf: Option<Vec<u8>>,
}

impl Sampler {
    /// What was collected.
    spec fn stratum(self) -> Stratum {
        (self.witnesses@, bytes_of(self.leaf))
    }
}

impl Visitor for Sampler {
    closed spec fn step(
        before: Self,
        visit: Visit,
        after: Self,
        direction: WalkDirection,
    ) -> bool {
        &&& after.i == before.i
        &&& if !nodes::covers(visit.i as nat, visit.j as nat, before.i as nat) {
            &&& direction == WalkDirection::Terminate
            &&& after.witnesses@ == before.witnesses@.insert((visit.i, visit.j), visit.hash)
            &&& after.leaf == before.leaf
        } else if visit.j == 0 {
            &&& direction == WalkDirection::Terminate
            &&& after.witnesses@ == before.witnesses@
            &&& bytes_of(after.leaf) == visit.value
        } else {
            &&& direction == WalkDirection::Both
            &&& after.witnesses@ == before.witnesses@
            &&& after.leaf == before.leaf
        }
    }

    fn visit(
        &mut self,
        _revision: Index,
        i: Index,
        j: u8,
        hash: &crate::Hash,
        value: Option<&[u8]>,
    ) -> (r: WalkDirection) {
        if !has_below(i, j, self.i) {
            self.witnesses.insert((i, j), *hash);
            WalkDirection::Terminate
        } else if j == 0 {
            self.leaf = match value {
                Some(v) => Some(vstd::slice::slice_to_vec(v)),
                None => None,
            };
            WalkDirection::Terminate
        } else {
            WalkDirection::Both
        }
    }
}

/// What a node on the way adds to the sample of a leaf.
proof fn lemma_samples(
    values: Seq<Seq<u8>>,
    revision: Index,
    i: nat,
    j: nat,
    before: Sampler,
    after: Sampler,
)
    requires
        nodes::valid(i, j),
        i <= values.len(),
        i <= u64::MAX,
        walk::walked(values, revision, i, j, before, after),
    ensures
        after.i == before.i,
        !nodes::covers(i, j, before.i as nat) ==> {
            &&& after.witnesses@ == before.witnesses@.insert(
                (i as u64, j as u8),
                crate::tree::node_hash(values, i, j),
            )
            &&& after.leaf == before.leaf
        },
        nodes::covers(i, j, before.i as nat) ==> {
            &&& after.witnesses@ == before.witnesses@.union_prefer_right(
                sample::stratum(values, i, j, before.i as nat),
            )
            &&& after.leaf is Some
            &&& after.leaf->Some_0@ == values[before.i - 1]
        },
    decreases j,
{
    formula::lemma_height(i as u64, j);
    let (mid, d) = choose|mid: Sampler, d: WalkDirection|
        #![trigger Sampler::step(before, walk::visit_of(values, revision, i, j), mid, d)]
        Sampler::step(before, walk::visit_of(values, revision, i, j), mid, d) && walk::walked_on(
            values,
            revision,
            i,
            j,
            d,
            mid,
            after,
        );
    let k = before.i as nat;
    if nodes::covers(i, j, k) {
        if j == 0 {
            nodes::lemma_leaf(i);
            assert(after.witnesses@ =~= before.witnesses@.union_prefer_right(
                sample::stratum(values, i, j, k),
            ));
        } else {
            nodes::lemma_children(i, j);
            let g = nodes::right_j(i, j);
            let l = nodes::left_i(i, j);
            let h = (j - 1) as nat;
            let v = choose|v: Sampler|
                #![trigger walk::turn(v)]
                walk::turn(v) && walk::walked(values, revision, i, g, mid, v) && walk::walked(
                    values,
                    revision,
                    l,
                    h,
                    v,
                    after,
                );
            lemma_samples(values, revision, i, g, mid, v);
            lemma_samples(values, revision, l, h, v, after);
            sample::lemma_stratum_keys(values, i, g, k);
            sample::lemma_stratum_keys(values, l, h, k);
            assert(after.witnesses@ =~= before.witnesses@.union_prefer_right(
                sample::stratum(values, i, j, k),
            ));
        }
    }
}

/// The witnesses of a leaf, and its value.
pub type Stratum = (Map<(Index, u8), Seq<u8>>, Option<Seq<u8>>);

/// What the part of the tree from the node of an entry with the given place adds to the sample of
/// the leaf `i`, with the hash values that are stored: a node beside the way is a witness, a node
/// above the leaf brings what its right and then its left child bring.
pub open spec fn sampled(s: walk::Stored, e: EntryModel, k: nat, i: Index, before: Stratum) -> (
std::result::Result<Stratum, walk::Fault>)
    decreases e.meta.address.i, k,
{
    let node = entry::node_at(e, k);
    let at = e.meta.address.i;
    if !nodes::covers(at as nat, node.address.j as nat, i as nat) {
        Ok((before.0.insert((at, node.address.j), node.hash), before.1))
    } else if node.address.j == 0 {
        Ok(
            (
                before.0,
                if k == 0 {
                    Some(e.payload)
                } else {
                    None
                },
            ),
        )
    } else if k == 0 {
        Ok(before)
    } else {
        match sampled(s, e, (k - 1) as nat, i, before) {
            Ok(halfway) => match walk::left_step(s, e, k) {
                Ok((next, place)) => sampled(s, next, place, i, halfway),
                Err(fault) => Err(fault),
            },
            Err(fault) => Err(fault),
        }
    }
}

/// The walk for a sample collects what is stored.
proof fn lemma_samples_stored(
    s: walk::Stored,
    revision: Index,
    e: EntryModel,
    k: nat,
    before: Sampler,
    after: Sampler,
)
    requires
        walk::traced(s, revision, e, k, before, after),
    ensures
        after.i == before.i,
        sampled(s, e, k, before.i, before.stratum()) == Ok::<Stratum, walk::Fault>(
            after.stratum(),
        ),
    decreases e.meta.address.i, k,
{
    let (mid, d) = choose|mid: Sampler, d: WalkDirection|
        #![trigger Sampler::step(before, walk::visit_in(revision, e, k), mid, d)]
        Sampler::step(before, walk::visit_in(revision, e, k), mid, d) && walk::traced_on(
            s,
            revision,
            e,
            k,
            d,
            mid,
            after,
        );
    if k > 0 && d == WalkDirection::Both {
        let below = (k - 1) as nat;
        let v = choose|v: Sampler|
            #![trigger walk::turn(v)]
            walk::turn(v) && walk::traced(s, revision, e, below, mid, v) && walk::traced_left(
                s,
                revision,
                e,
                k,
                v,
                after,
            );
        lemma_samples_stored(s, revision, e, below, mid, v);
        let (next, place) = walk::left_step(s, e, k)->Ok_0;
        lemma_samples_stored(s, revision, next, place, v, after);
    }
}

/// The walk for a sample breaks only where a node that it takes is not there.
proof fn lemma_sample_breaks(
    s: walk::Stored,
    revision: Index,
    e: EntryModel,
    k: nat,
    before: Sampler,
    after: Sampler,
    error: Error,
)
    requires
        walk::broken(s, true, revision, e, k, before, after, error),
    ensures
        sampled(s, e, k, before.i, before.stratum()) matches Err(fault) && walk::told(
            s,
            fault,
            error,
        ),
    decreases e.meta.address.i, k,
{
    let (mid, d) = choose|mid: Sampler, d: WalkDirection|
        #![trigger Sampler::step(before, walk::visit_in(revision, e, k), mid, d)]
        Sampler::step(before, walk::visit_in(revision, e, k), mid, d) && walk::broken_on(
            s,
            true,
            revision,
            e,
            k,
            d,
            mid,
            after,
            error,
        );
    let below = (k - 1) as nat;
    if walk::broken(s, true, revision, e, below, mid, after, error) {
        lemma_sample_breaks(s, revision, e, below, mid, after, error);
    } else {
        let v = choose|v: Sampler|
            #![trigger walk::turn(v)]
            walk::turn(v) && walk::traced(s, revision, e, below, mid, v) && walk::broken_left(
                s,
                true,
                revision,
                e,
                k,
                v,
                after,
                error,
            );
        lemma_samples_stored(s, revision, e, below, mid, v);
        if walk::left_step(s, e, k) is Ok {
            let (next, place) = walk::left_step(s, e, k)->Ok_0;
            lemma_sample_breaks(s, revision, next, place, v, after, error);
        }
    }
}

/// A query on a generation of the tree.
pub struct Query<S: Storage> {
    cursor: S::Reader,
    cache: Arc<Cache>,
}

/// The first index of a scan: the lower bound, but no less than 1.
pub open spec fn scan_from(i0: Index, i1: Index) -> int {
    let low = if i0 <= i1 {
        i0
    } else {
        i1
    };
    if low == 0 {
        1
    } else {
        low as int
    }
}

/// The last index of a scan: the upper bound, but no more than `n`.
pub open spec fn scan_to(i0: Index, i1: Index, n: nat) -> int {
    let high = if i0 <= i1 {
        i1
    } else {
        i0
    };
    if high > n {
        n as int
    } else {
        high as int
    }
}

/// The value at the index; none where the index is out of range, as 0 is.
pub open spec fn value_at(values: Seq<Seq<u8>>, i: nat) -> Option<Seq<u8>> {
    if 1 <= i <= values.len() {
        Some(values[i - 1])
    } else {
        None
    }
}

/// The bytes of a value, if there is one.
pub open spec fn bytes_of(value: Option<Vec<u8>>) -> Option<Seq<u8>> {
    match value {
        Some(v) => Some(v@),
        None => None,
    }
}

impl<S: Storage> Query<S> {
    /// The reader over the stored entries.
    pub closed spec fn reader(&self) -> S::Reader {
        self.cursor
    }

    /// The cache of the generation.
    pub closed spec fn cached(&self) -> Cache {
        *self.cache
    }

    /// Whether the storage holds the tree that the cache is of.
    pub open spec fn consistent(&self) -> bool {
        walk::agrees(self.reader(), self.cached())
    }

    /// The entries of the generation.
    pub open spec fn log(&self) -> Seq<EntryModel> {
        self.reader().log().take(self.cached().n() as int)
    }

    /// The values of the generation.
    pub open spec fn values(&self) -> Seq<Seq<u8>> {
        ledger::payloads(self.log())
    }

    /// Whether reading does not fail for a reason that lies outside.
    pub open spec fn reliable(&self) -> bool {
        self.reader().reliable()
    }

    /// Whether this is the same query after a step.
    pub open spec fn same(&self, before: &Self) -> bool {
        &&& self.cached() == before.cached()
        &&& storage::unchanged(before.reader(), self.reader())
        &&& self.consistent() == before.consistent()
        &&& self.values() == before.values()
    }

    /// A query over the entries of a reader, for the generation of a cache.
    pub(crate) fn new(cursor: S::Reader, cache: Arc<Cache>) -> (r: Self)
        ensures
            r.reader() == cursor,
            r.cached() == *cache,
    {
        Query { cursor, cache }
    }

    /// The generation that the query is on.
    pub fn revision(&self) -> (r: Index)
        ensures
            r == self.cached().n(),
            self.consistent() ==> r == self.values().len(),
    {
        self.cache.revision()
    }

    /// Where the entries of the generation come from.
    pub open spec fn stored(&self) -> walk::Stored {
        walk::stored(self.reader(), self.cached())
    }

    /// How the stored entries follow one another.
    pub open spec fn trail(&self) -> storage::Trail {
        storage::Trail {
            found: self.reader().found(),
            behind: self.reader().behind(),
            past: self.reader().past(),
            failing: self.reader().failing(),
        }
    }

    /// Walks down from the root, as the visitor says at each node.
    pub fn walk_down<V: Visitor>(&mut self, visitor: &mut V) -> (r: Result<()>)
        ensures
            final(self).same(old(self)),
            old(self).cached().n() == 0 ==> r is Ok && *final(visitor) == *old(visitor),
            old(self).cached().n() > 0 && r is Ok ==> walk::traced(
                old(self).stored(),
                old(self).cached().n() as u64,
                old(self).cached().latest(),
                old(self).cached().latest().inodes.len(),
                *old(visitor),
                *final(visitor),
            ),
            r is Err ==> walk::broken(
                old(self).stored(),
                old(self).reliable(),
                old(self).cached().n() as u64,
                old(self).cached().latest(),
                old(self).cached().latest().inodes.len(),
                *old(visitor),
                *final(visitor),
                r->Err_0,
            ),
            old(self).consistent() && old(self).reliable() ==> r is Ok,
            old(self).consistent() && r is Ok && old(self).cached().n() > 0 ==> walk::walked(
                old(self).values(),
                old(self).cached().n() as u64,
                old(self).cached().n(),
                model::height(old(self).cached().n()),
                *old(visitor),
                *final(visitor),
            ),
    {
        let ghost low = self.log();
        let ghost n = self.cached().n();
        let ghost before = *visitor;
        match self.cache.last_entry() {
            Some(entry) => {
                proof {
                    ledger::lemma_shaped(entry@);
                    if self.consistent() {
                        assert(entry@ == low.last());
                        assert(low.last() == self.reader().log()[n - 1]);
                    }
                }
                let r = walk::walk(
                    &mut self.cursor,
                    &self.cache,
                    entry.inodes.len(),
                    entry,
                    visitor,
                );
                proof {
                    if old(self).consistent() && r is Ok {
                        walk::lemma_traced(
                            old(self).reader(),
                            old(self).cached(),
                            n as u64,
                            entry@,
                            entry@.inodes.len(),
                            before,
                            *visitor,
                        );
                    }
                    if old(self).consistent() && old(self).reliable() && r is Err {
                        walk::lemma_whole(
                            old(self).reader(),
                            old(self).cached(),
                            n as u64,
                            entry@,
                            entry@.inodes.len(),
                            before,
                            *visitor,
                            r->Err_0,
                        );
                    }
                }
                r
            },
            None => Ok(()),
        }
    }

    /// Where the way from the root to the leaf `i` comes to.
    pub open spec fn reached(&self, i: Index) -> walk::Reach {
        walk::reached(
            self.stored(),
            self.cached().latest(),
            self.cached().latest().inodes.len(),
            i,
        )
    }

    /// Where the way from the latest entry to the one of the index comes to.
    pub open spec fn sought(&self, i: Index) -> walk::Reach {
        walk::sought(self.stored(), self.cached().latest(), i)
    }

    /// The value at the index; none where the index is out of range, as 0 is.
    pub fn get(&mut self, i: Index) -> (r: Result<Option<Vec<u8>>>)
        ensures
            final(self).same(old(self)),
            i == 0 || i > old(self).cached().n() ==> r is Ok && r->Ok_0 is None,
            1 <= i <= old(self).cached().n() && (r is Ok || old(self).reliable()) ==> answers(
                old(self).stored(),
                old(self).reached(i),
                r,
            ),
            old(self).consistent() && old(self).reliable() ==> r is Ok,
            old(self).consistent() && r is Ok ==> bytes_of(r->Ok_0) == value_at(
                old(self).values(),
                i as nat,
            ),
            old(self).consistent() && r is Ok ==> {
                &&& r->Ok_0 is Some <==> 1 <= i <= old(self).values().len()
                &&& r->Ok_0 matches Some(value) ==> value@ == old(self).values()[i - 1]
            },
    {
        let n: Index = self.cache.revision();
        if i == 0 || i > n {
            return Ok(None);
        }
        let mut finder = Finder { i, result: Ok(None) };
        let ghost before = finder;
        let ghost s = self.stored();
        let ghost e = self.cached().latest();
        let ghost k = e.inodes.len();
        let r: Result<()> = self.walk_down(&mut finder);
        proof {
            if r is Ok {
                lemma_finds(s, n, e, k, before, finder);
            } else if old(self).reliable() {
                lemma_loses(s, n, e, k, before, finder, r->Err_0);
            }
            if old(self).consistent() {
                lemma_above(e, i as nat);
                old(self).cached().lemma_sound(old(self).log());
                old(self).cached().lemma_kept(old(self).log());
                assert(e == old(self).reader().log()[n - 1]);
                walk::lemma_reached(old(self).reader(), old(self).cached(), e, k, i);
                assert(old(self).log()[i - 1] == old(self).reader().log()[i - 1]);
            }
        }
        match r {
            Ok(()) => finder.result,
            Err(error) => Err(error),
        }
    }

    /// The value at the index with its stratum sample; none where the index is out of range, as 0
    /// is.
    pub fn get_sample(&mut self, i: Index) -> (r: Result<Option<StratumSample>>)
        ensures
            final(self).same(old(self)),
            i == 0 || i > old(self).cached().n() ==> {
                &&& old(self).reliable() ==> r is Ok
                &&& r is Ok ==> r->Ok_0 is None
            },
            old(self).cached().n() > 0 && (r is Ok || old(self).reliable()) ==> {
                let s = old(self).stored();
                let e = old(self).cached().latest();
                match sampled(s, e, e.inodes.len(), i, (Map::empty(), None)) {
                    Ok((witnesses, Some(value))) => r matches Ok(Some(sample)) && {
                        &&& sample.revision == old(self).cached().n()
                        &&& sample.leaf.i == i
                        &&& sample.leaf.value@ == value
                        &&& sample.witnesses@ == witnesses
                    },
                    Ok((_, None)) => r matches Ok(None),
                    Err(fault) => r matches Err(error) && walk::told(s, fault, error),
                }
            },
            old(self).consistent() && old(self).reliable() ==> r is Ok,
            old(self).consistent() && r is Ok ==> {
                let n = old(self).cached().n();
                &&& r->Ok_0 is Some <==> 1 <= i <= n
                &&& r->Ok_0 matches Some(s) ==> evidence::sample_of(
                    s,
                    old(self).values(),
                    i as nat,
                )
            },
            r matches Ok(Some(s)) ==> evidence::listed_once(s),
    {
        let mut sampler = Sampler { i, witnesses: Witnesses::new(), leaf: None };
        let ghost before = sampler;
        let ghost s = self.stored();
        let ghost e = self.cached().latest();
        let ghost k = e.inodes.len();
        let revision: Index = self.cache.revision();
        let walked: Result<()> = self.walk_down(&mut sampler);
        proof {
            if revision > 0 {
                let n = revision as nat;
                ledger::lemma_shaped(e);
                nodes::lemma_valid(n, model::height(n));
                assert(entry::height_of(e, k) == model::height(n));
                assert(before.stratum() == (Map::<(Index, u8), Seq<u8>>::empty(), None::<Seq<u8>>));
                if walked is Ok {
                    lemma_samples_stored(s, revision, e, k, before, sampler);
                } else if old(self).reliable() {
                    lemma_sample_breaks(s, revision, e, k, before, sampler, walked->Err_0);
                }
                if old(self).consistent() && walked is Ok {
                    old(self).cached().lemma_sound(old(self).log());
                    lemma_samples(
                        old(self).values(),
                        revision,
                        n,
                        model::height(n),
                        before,
                        sampler,
                    );
                    let all = sample::stratum(old(self).values(), n, model::height(n), i as nat);
                    assert(before.witnesses@.union_prefer_right(all) =~= all);
                }
            }
        }
        match walked {
            Ok(()) => {},
            Err(error) => {
                return Err(error);
            },
        }
        match sampler.leaf {
            Some(value) => Ok(
                Some(StratumSample::new(revision, Value::new(i, value), sampler.witnesses)),
            ),
            None => Ok(None),
        }
    }

    /// Hands the entries of the range, both ends included, on to the visitor, and gives their
    /// number.
    pub fn scan<V: EntryVisitor>(&mut self, i0: Index, i1: Index, visitor: &mut V) -> (r: Result<
        u64,
    >)
        ensures
            final(self).same(old(self)),
            ({
                let from = scan_from(i0, i1);
                let to = scan_to(i0, i1, old(self).cached().n());
                &&& from > to ==> r is Ok && r->Ok_0 == 0 && *final(visitor) == *old(visitor)
                &&& old(self).consistent() && from <= to && old(self).reliable() && (r is Ok) ==> {
                    let n = old(self).values().len();
                    let low = if i0 <= i1 {
                        i0
                    } else {
                        i1
                    };
                    let high = if i0 <= i1 {
                        i1
                    } else {
                        i0
                    };
                    r->Ok_0 == (if high <= n {
                        high as int
                    } else {
                        n as int
                    }) - (if low >= 1 {
                        low as int
                    } else {
                        1
                    }) + 1
                }
                &&& from <= to && (r is Ok || old(self).reliable()) ==> match old(self).sought(
                    from as u64,
                ) {
                    walk::Reach::Found(e) => storage::scan_ran(
                        old(self).trail(),
                        old(self).reliable(),
                        e.meta.address.position,
                        (to - from + 1) as nat,
                        *old(visitor),
                        *final(visitor),
                        r,
                    ),
                    walk::Reach::Nowhere(_) => r is Ok && r->Ok_0 == 0 && *final(visitor) == *old(
                        visitor,
                    ),
                    walk::Reach::Broken(fault) => r is Err && walk::told(
                        old(self).stored(),
                        fault,
                        r->Err_0,
                    ) && *final(visitor) == *old(visitor),
                }
                &&& from <= to && old(self).consistent() ==> storage::scan_result(
                    old(self).log().subrange(from - 1, to),
                    old(self).reliable(),
                    *old(visitor),
                    *final(visitor),
                    r,
                )
            }),
    {
        let n: Index = self.cache.revision();
        let (low, high) = if i0 <= i1 {
            (i0, i1)
        } else {
            (i1, i0)
        };
        let from: Index = if low == 0 {
            1
        } else {
            low
        };
        let to: Index = if high > n {
            n
        } else {
            high
        };
        if from > to {
            return Ok(0);
        }
        let ghost known = self.consistent();
        let ghost log = self.reader().log();
        proof {
            assert(from == scan_from(i0, i1));
            assert(to == scan_to(i0, i1, self.cached().n()));
        }
        let first: Option<Entry> = match self.read_entry(from) {
            Ok(first) => first,
            Err(error) => {
                return Err(error);
            },
        };
        match first {
            Some(entry) => {
                proof {
                    if known {
                        assert(log[from - 1].meta.address.position
                            == entry.enode.meta.address.position);
                        assert(log.subrange(
                            from - 1,
                            storage::scan_end(log.len(), from - 1, (to - from + 1) as u64),
                        ) =~= old(self).log().subrange(from - 1, to as int));
                    }
                }
                self.cursor.scan(entry.enode.meta.address.position, to - from + 1, visitor)
            },
            None => Ok(0),
        }
    }

    /// The entry of the index; none where the index is out of range, as 0 is.
    pub fn read_entry(&mut self, i: Index) -> (r: Result<Option<Entry>>)
        ensures
            final(self).same(old(self)),
            i == 0 || i > old(self).cached().n() ==> r is Ok && r->Ok_0 is None,
            1 <= i <= old(self).cached().n() && (r is Ok || old(self).reliable()) ==> match old(
                self,
            ).sought(i) {
                walk::Reach::Found(e) => r is Ok && (r->Ok_0 matches Some(entry) && entry@ == e),
                walk::Reach::Nowhere(_) => r is Ok && r->Ok_0 is None,
                walk::Reach::Broken(fault) => r is Err && walk::told(
                    old(self).stored(),
                    fault,
                    r->Err_0,
                ),
            },
            old(self).consistent() && old(self).reliable() ==> r is Ok,
            r matches Ok(Some(entry)) ==> entry@.meta.address.i == i,
            old(self).consistent() && r is Ok && 1 <= i <= old(self).cached().n() ==> (
            r->Ok_0 matches Some(entry) && entry@ == old(self).log()[i - 1]),
    {
        let n: Index = self.cache.revision();
        if i == 0 || i > n {
            return Ok(None);
        }
        match self.cache.last_entry() {
            Some(entry) => {
                proof {
                    if self.consistent() {
                        assert(entry@ == self.log().last());
                        assert(entry@ == self.reader().log()[n - 1]);
                        walk::lemma_sought(self.reader(), self.cached(), entry@, i);
                        assert(self.log()[i - 1] == self.reader().log()[i - 1]);
                    }
                }
                let last = CachedEntry::Cached(entry);
                match seek(&mut self.cursor, &self.cache, last, i) {
                    Ok(Sought::Found(found)) => Ok(Some(found.into_owned())),
                    Ok(Sought::Nowhere(_)) => Ok(None),
                    Err(error) => Err(error),
                }
            },
            None => Ok(None),
        }
    }
}

/// An entry that is kept in the cache, or one that was read from the storage.
pub(crate) enum CachedEntry<'a> {
    Cached(&'a Entry),
    Fresh(Entry),
}

impl<'a> CachedEntry<'a> {
    /// The entry.
    pub(crate) open spec fn of(&self) -> Entry {
        match self {
            CachedEntry::Cached(entry) => **entry,
            CachedEntry::Fresh(entry) => *entry,
        }
    }

    /// The entry by itself.
    pub(crate) fn into_owned(self) -> (r: Entry)
        ensures
            r@ == self.of()@,
    {
        match self {
            CachedEntry::Cached(entry) => entry.clone(),
            CachedEntry::Fresh(entry) => entry,
        }
    }

    /// The entry.
    pub(crate) fn as_ref(&self) -> (r: &Entry)
        ensures
            *r == self.of(),
    {
        match self {
            CachedEntry::Cached(entry) => entry,
            CachedEntry::Fresh(entry) => entry,
        }
    }
}

/// Where a search for an entry ends: at the entry, or at one from which no way leads on.
pub(crate) enum Sought<'a> {
    Found(CachedEntry<'a>),
    Nowhere(CachedEntry<'a>),
}

/// Follows the left children from an entry to the one of the index.
pub(crate) fn seek<'c, R: Reader>(
    cursor: &mut R,
    cache: &'c Cache,
    entry: CachedEntry<'c>,
    i: Index,
) -> (r: Result<Sought<'c>>)
    ensures
        storage::unchanged(*old(cursor), *final(cursor)),
        r is Ok || old(cursor).reliable() ==> ({
            let s = walk::stored(*old(cursor), *cache);
            match walk::sought(s, entry.of()@, i) {
                walk::Reach::Found(e) => r matches Ok(Sought::Found(found)) && found.of()@ == e,
                walk::Reach::Nowhere(e) => r matches Ok(Sought::Nowhere(last)) && last.of()@ == e,
                walk::Reach::Broken(fault) => r matches Err(error) && walk::told(s, fault, error),
            }
        }),
        r matches Ok(Sought::Found(found)) ==> found.of()@.meta.address.i == i,
{
    let mut current: CachedEntry<'c> = entry;
    let mut links: Vec<(Index, Position)> = Vec::new();
    let ghost s = walk::stored(*cursor, *cache);
    let ghost mut way: Seq<EntryModel> = seq![entry.of()@];
    while current.as_ref().enode.meta.address.i != i
        invariant
            storage::unchanged(*old(cursor), *cursor),
            s == walk::stored(*old(cursor), *cache),
            walk::is_way(s, way, i),
            way.len() == links@.len() + 1,
            way[0] == entry.of()@,
            way.last() == current.of()@,
            links@.no_duplicates(),
            forall|x: int|
                0 <= x < links@.len() ==> s.at(link_to(#[trigger] links@[x])) == Some(way[x + 1]),
        decreases all_links() - links@.len(),
    {
        let x: usize = branch_to(current.as_ref(), i);
        if x >= current.as_ref().inodes.len() {
            proof {
                walk::lemma_way_ends(s, way, i, 0);
            }
            return Ok(Sought::Nowhere(current));
        }
        let left = current.as_ref().inodes[x].left;
        let link = (left.i, left.position);
        proof {
            assert(current.of()@.inodes[x as int] == current.of().inodes@[x as int]@);
            assert(s.at(left) == s.at(link_to(link)));
        }
        let passed: Option<usize> = place_in(&links, link);
        if let Some(back) = passed {
            proof {
                assert(links@[back as int] == link);
                walk::lemma_way_circles(s, way, i, back + 1);
            }
            return inconsistency(endless_text(i));
        }
        let next: CachedEntry<'c> = match cache.entry(left.i) {
            Some(kept) => CachedEntry::Cached(kept),
            None => match ledger::read_entry_with_index_check(cursor, left.position, left.i) {
                Ok(found) => CachedEntry::Fresh(found),
                Err(error) => {
                    proof {
                        if old(cursor).reliable() {
                            walk::lemma_way_ends(s, way, i, 0);
                        }
                    }
                    return Err(error);
                },
            },
        };
        let ghost before = links@;
        links.push(link);
        proof {
            assert(links@.no_duplicates());
            lemma_few_links(links@);
            let longer = way.push(next.of()@);
            assert forall|y: int| 0 <= y < links@.len() implies s.at(
                link_to(#[trigger] links@[y]),
            ) == Some(longer[y + 1]) by {
                if y < before.len() {
                    assert(links@[y] == before[y]);
                }
            }
            way = longer;
        }
        current = next;
    }
    proof {
        walk::lemma_way_ends(s, way, i, 0);
    }
    Ok(Sought::Found(current))
}

/// The number of all links: pairs of an index and a position.
spec fn all_links() -> int {
    (u64::MAX + 1) * (u64::MAX + 1)
}

/// The address that a link leads to.
pub open spec fn link_to(link: (Index, Position)) -> Address {
    Address { i: link.0, j: 0, position: link.1 }
}

/// There are no more different links than there are pairs of an index and a position.
proof fn lemma_few_links(links: Seq<(Index, Position)>)
    requires
        links.no_duplicates(),
    ensures
        links.len() <= all_links(),
{
    let size: int = u64::MAX + 1;
    let codes = links.map_values(|link: (Index, Position)| link.0 * size + link.1);
    assert(codes.no_duplicates()) by {
        assert forall|x: int, y: int| 0 <= x < codes.len() && 0 <= y < codes.len() && x
            != y implies codes[x] != codes[y] by {
            assert(links[x] != links[y]);
        }
    }
    let all = vstd::set_lib::set_int_range(0, all_links());
    vstd::set_lib::lemma_int_range(0, all_links());
    codes.unique_seq_to_set();
    assert(codes.to_set().subset_of(all)) by {
        assert forall|c: int| codes.to_set().contains(c) implies all.contains(c) by {
            let x = choose|x: int| 0 <= x < codes.len() && codes[x] == c;
            assert(codes[x] == links[x].0 * size + links[x].1);
        }
    }
    vstd::set_lib::lemma_len_subset(codes.to_set(), all);
}

/// Where the link is among the others.
fn place_in(links: &Vec<(Index, Position)>, link: (Index, Position)) -> (r: Option<usize>)
    ensures
        r is None <==> !links@.contains(link),
        r matches Some(x) ==> x < links@.len() && links@[x as int] == link,
{
    let mut x: usize = 0;
    while x < links.len()
        invariant
            x <= links@.len(),
            forall|y: int| 0 <= y < x ==> links@[y] != link,
        decreases links@.len() - x,
    {
        if links[x].0 == link.0 && links[x].1 == link.1 {
            return Some(x);
        }
        x = x + 1;
    }
    None
}

/// What is said of links that lead in a circle.
fn endless_text(i: Index) -> (r: String)
    ensures
        r@ == walk::endless(i),
{
    let mut message = String::new();
    text::push_text(&mut message, "The way to the entry ");
    text::push_decimal(&mut message, i);
    text::push_text(&mut message, " leads in a circle");
    proof {
        assert(message@ =~= walk::endless(i));
    }
    message
}

/// The place of the first node in the entry whose left child has the leaf `i` below it, or the
/// number of nodes.
fn branch_to(entry: &Entry, i: Index) -> (r: usize)
    ensures
        r == walk::branch_place(entry@, i, 0),
        r <= entry.inodes@.len(),
{
    let mut x: usize = 0;
    while x < entry.inodes.len()
        invariant
            x <= entry.inodes@.len(),
            walk::branch_place(entry@, i, 0) == walk::branch_place(entry@, i, x as nat),
        decreases entry.inodes@.len() - x,
    {
        let left = entry.inodes[x].left;
        proof {
            assert(entry@.inodes[x as int] == entry.inodes@[x as int]@);
        }
        if left.i > 0 && has_below(left.i, left.j, i) {
            return x;
        }
        x = x + 1;
    }
    x
}

/// A scan of a range in a tree of `n` values is over the index `k` exactly if there is a value with
/// this index and it lies between the two ends, which may be given in either order.
pub proof fn law_scan_range(i0: Index, i1: Index, n: nat, k: int)
    ensures
        scan_from(i0, i1) <= k <= scan_to(i0, i1, n) <==> 1 <= k <= n && ((i0 <= k <= i1) || (i1
            <= k <= i0)),
{
}

/// A scan of a range with a collector gives the entries whose index is one of the tree and lies
/// between the two ends, and no others: each once, in ascending order.
pub proof fn law_scan_exact(
    log: Seq<EntryModel>,
    i0: Index,
    i1: Index,
    before: storage::Collector,
    after: storage::Collector,
    r: Result<u64>,
)
    requires
        ledger::genuine(log),
        before.kept() == Seq::<EntryModel>::empty(),
        scan_from(i0, i1) <= scan_to(i0, i1, log.len()),
        storage::scan_result(
            log.subrange(scan_from(i0, i1) - 1, scan_to(i0, i1, log.len())),
            true,
            before,
            after,
            r,
        ),
    ensures
        r is Ok,
        r->Ok_0 == after.kept().len(),
        forall|k: int|
            1 <= k <= log.len() && ((i0 <= k <= i1) || (i1 <= k <= i0)) ==> after.kept().contains(
                #[trigger] log[k - 1],
            ),
        forall|x: int|
            0 <= x < after.kept().len() ==> {
                let k = (#[trigger] after.kept()[x]).meta.address.i;
                &&& 1 <= k <= log.len()
                &&& (i0 <= k <= i1) || (i1 <= k <= i0)
                &&& after.kept()[x] == log[k - 1]
            },
        forall|x: int, y: int|
            0 <= x < y < after.kept().len() ==> (#[trigger] after.kept()[x]).meta.address.i < (
            #[trigger] after.kept()[y]).meta.address.i,
{
    let from = scan_from(i0, i1);
    let to = scan_to(i0, i1, log.len());
    let part = log.subrange(from - 1, to);
    law_scan_range(i0, i1, log.len(), from);
    law_scan_range(i0, i1, log.len(), to);
    storage::law_scan_hands_on_all(part, before, after, r);
    assert(after.kept() =~= part);
    assert forall|x: int| 0 <= x < part.len() implies {
        let k = (#[trigger] part[x]).meta.address.i;
        &&& k == from + x
        &&& 1 <= k <= log.len()
        &&& (i0 <= k <= i1) || (i1 <= k <= i0)
        &&& part[x] == log[k - 1]
    } by {
        assert(part[x] == log[from - 1 + x]);
        ledger::lemma_genuine_entry(log, from - 1 + x);
        law_scan_range(i0, i1, log.len(), from + x);
    }
    assert forall|k: int|
        1 <= k <= log.len() && ((i0 <= k <= i1) || (i1 <= k <= i0)) implies part.contains(
        #[trigger] log[k - 1],
    ) by {
        law_scan_range(i0, i1, log.len(), k);
        assert(part[k - from] == log[k - 1]);
    }
}

/// A value is read exactly at the indices from 1 to the number of values, and it is the whole value
/// at its place.
pub proof fn law_value_at(values: Seq<Seq<u8>>, i: nat)
    ensures
        value_at(values, i) is Some <==> 1 <= i <= values.len(),
        1 <= i <= values.len() ==> value_at(values, i) == Some(values[i - 1]),
{
}

/// The result of reading a value follows from where the way to it comes to: all bytes of the value,
/// nothing, or an error.
pub proof fn law_answers(s: walk::Stored, e: EntryModel, r: Result<Option<Vec<u8>>>)
    ensures
        answers(s, walk::Reach::Found(e), r) ==> (r matches Ok(Some(value)) && value@ == e.payload),
        answers(s, walk::Reach::Nowhere(e), r) ==> (r matches Ok(None)),
        forall|fault: walk::Fault| #[trigger]
            answers(s, walk::Reach::Broken(fault), r) ==> r is Err,
{
}

} // verus!
