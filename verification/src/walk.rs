//! The walk from the root to the leaves.
use crate::cache::Cache;
use crate::entry;
use crate::entry::{Address, Entry, EntryModel, INode, INodeModel};
use crate::error::{inconsistency, Error, Result};
use crate::formula::Index;
use crate::ledger;
use crate::model;
use crate::nodes;
use crate::storage;
use crate::storage::{Reader, Storage};
use crate::text;
use crate::tree;
use vstd::prelude::*;

verus! {

/// Where to go on from a node.
#[derive(Debug, Clone, Copy, PartialEq, Eq, Structural)]
pub enum WalkDirection {
    Left,
    Right,
    Both,
    Terminate,
}

/// A visit of a node: the generation of the tree, the node, its hash value, and the value of a
/// leaf.
pub struct Visit {
    pub revision: Index,
    pub i: Index,
    pub j: u8,
    pub hash: Seq<u8>,
    pub value: Option<Seq<u8>>,
}

/// Is shown the nodes, and says where to go on.
pub trait Visitor: Sized {
    /// Whether this is what the visitor does on a visit: what it is before and after, and where it
    /// says to go on.
    open spec fn step(before: Self, visit: Visit, after: Self, direction: WalkDirection) -> bool {
        true
    }

    fn visit(
        &mut self,
        revision: Index,
        i: Index,
        j: u8,
        hash: &crate::Hash,
        value: Option<&[u8]>,
    ) -> (r: WalkDirection)
        requires
            1 <= i <= revision,
        ensures
            Self::step(
                *old(self),
                (Visit {
                    revision,
                    i,
                    j,
                    hash: hash@,
                    value: match value {
                        Some(v) => Some(v@),
                        None => None,
                    },
                }),
                *final(self),
                r,
            ),
    ;
}

/// The visit of the node `b_{i,j}` in the tree over the values.
pub open spec fn visit_of(values: Seq<Seq<u8>>, revision: Index, i: nat, j: nat) -> Visit {
    Visit {
        revision,
        i: i as u64,
        j: j as u8,
        hash: tree::node_hash(values, i, j),
        value: if j == 0 {
            Some(values[i - 1])
        } else {
            None
        },
    }
}

/// A state of the visitor between the right and the left part of a walk.
pub open spec fn turn<V>(v: V) -> bool {
    true
}

/// Whether this is what becomes of the visitor in the walk from the node `b_{i,j}`: the node is
/// shown to it, then it goes on below the node as the visitor said.
pub open spec fn walked<V: Visitor>(
    values: Seq<Seq<u8>>,
    revision: Index,
    i: nat,
    j: nat,
    before: V,
    after: V,
) -> bool
    decreases j, 1nat,
{
    exists|mid: V, d: WalkDirection|
        #![trigger V::step(before, visit_of(values, revision, i, j), mid, d)]
        V::step(before, visit_of(values, revision, i, j), mid, d) && walked_on(
            values,
            revision,
            i,
            j,
            d,
            mid,
            after,
        )
}

/// Whether this is what becomes of the visitor in the walk below the node `b_{i,j}`, in the given
/// direction: to the right before the left.
pub open spec fn walked_on<V: Visitor>(
    values: Seq<Seq<u8>>,
    revision: Index,
    i: nat,
    j: nat,
    direction: WalkDirection,
    before: V,
    after: V,
) -> bool
    decreases j, 0nat,
{
    if j == 0 || nodes::right_j(i, j) >= j {
        after == before
    } else {
        let l = nodes::left_i(i, j);
        let h = (j - 1) as nat;
        let g = nodes::right_j(i, j);
        match direction {
            WalkDirection::Terminate => after == before,
            WalkDirection::Right => walked(values, revision, i, g, before, after),
            WalkDirection::Left => walked(values, revision, l, h, before, after),
            WalkDirection::Both => exists|v: V|
                #![trigger turn(v)]
                turn(v) && walked(values, revision, i, g, before, v) && walked(
                    values,
                    revision,
                    l,
                    h,
                    v,
                    after,
                ),
        }
    }
}

/// Where entries come from: those that are kept in memory, by index, and those that are found in
/// the storage, by position, with the errors at the other positions.
pub struct Stored {
    pub kept: Map<u64, EntryModel>,
    pub found: Map<u64, EntryModel>,
    /// Whether the error is the one with which reading at the position fails.
    pub failing: spec_fn(u64, Error) -> bool,
}

impl Stored {
    /// The entry at an address: the one that is kept, or else the one that is found there, if it
    /// is the entry of that index.
    pub open spec fn at(self, a: Address) -> Option<EntryModel> {
        if self.kept.contains_key(a.i) {
            Some(self.kept[a.i])
        } else if ledger::leads(self.found, a.position, a.i) {
            Some(self.found[a.position])
        } else {
            None
        }
    }
}

/// Where the entries of the tree that the cache is of come from.
pub open spec fn stored<R: Reader>(cursor: R, cache: Cache) -> Stored {
    Stored { kept: cache.kept(), found: cursor.found(), failing: cursor.failing() }
}

/// Where entries come from that are all read.
pub open spec fn found_by<R: Reader>(cursor: R) -> Stored {
    Stored { kept: Map::empty(), found: cursor.found(), failing: cursor.failing() }
}

/// Where the entries of the storage come from that are all read.
pub open spec fn found_in<S: Storage>(storage: S) -> Stored {
    Stored { kept: Map::empty(), found: storage.found(), failing: storage.failing() }
}

/// Why a way through the stored entries ends before its goal.
pub enum Fault {
    /// The entry at the address cannot be read, or it is one of another index.
    Unread(Address),
    /// The left child of the node is not further down in the tree, or not in the entry that the
    /// node names.
    Unlinked(INodeModel),
    /// A node of height 0 is none of the leaves.
    Valueless(Index),
    /// No tree has a node of this index and height.
    Impossible(Index, u8),
    /// The links on the way to the entry of the index lead in a circle.
    Endless(Index),
}

/// What is said of a node of height 0 that is no leaf.
pub open spec fn valueless(i: Index) -> Seq<char> {
    "The value was not passed at the leaf node b_"@ + text::decimal_of(i as nat) + " reached"@
}

/// What is said of a node that no tree has.
pub open spec fn impossible(i: Index, j: u8) -> Seq<char> {
    "There is no node b_{"@ + text::decimal_of(i as nat) + ","@ + text::decimal_of(j as nat)
        + "}"@
}

/// What is said of links that lead in a circle.
pub open spec fn endless(i: Index) -> Seq<char> {
    "The way to the entry "@ + text::decimal_of(i as nat) + " leads in a circle"@
}

/// Whether the error is that of a state with the given contradiction.
pub open spec fn contradicts(error: Error, message: Seq<char>) -> bool {
    error matches Error::InternalStateInconsistency { message: said } && said@ == message
}

/// Whether the error is the one for the fault.
pub open spec fn told(s: Stored, fault: Fault, error: Error) -> bool {
    match fault {
        Fault::Unread(a) => if s.found.contains_key(a.position) {
            contradicts(
                error,
                ledger::wrong_index(a.i, a.position, s.found[a.position].meta.address.i),
            )
        } else {
            (s.failing)(a.position, error)
        },
        Fault::Unlinked(inode) => contradicts(error, ledger::missing_node(inode)),
        Fault::Valueless(i) => contradicts(error, valueless(i)),
        Fault::Impossible(i, j) => contradicts(error, impossible(i, j)),
        Fault::Endless(i) => contradicts(error, endless(i)),
    }
}

/// The step from the intermediate node of an entry with the given place to its left child: the
/// entry of that child, and its place there.
pub open spec fn left_step(s: Stored, e: EntryModel, k: nat) -> std::result::Result<
    (EntryModel, nat),
    Fault,
> {
    let inode = e.inodes[k - 1];
    match s.at(inode.left) {
        Some(next) => {
            let place = entry::place_of(next, inode.left.j);
            if 1 <= next.meta.address.i < e.meta.address.i && place <= next.inodes.len() {
                Ok((next, place))
            } else {
                Err(Fault::Unlinked(inode))
            }
        },
        None => Err(Fault::Unread(inode.left)),
    }
}

/// The visit of the node of an entry with the given place.
pub open spec fn visit_in(revision: Index, e: EntryModel, k: nat) -> Visit {
    Visit {
        revision,
        i: e.meta.address.i,
        j: entry::node_at(e, k).address.j,
        hash: entry::node_at(e, k).hash,
        value: if k == 0 {
            Some(e.payload)
        } else {
            None
        },
    }
}

/// Where a way to a leaf comes to: the entry of the leaf; an entry from which no way leads on; or a
/// fault.
pub enum Reach {
    Found(EntryModel),
    Nowhere(EntryModel),
    Broken(Fault),
}

/// Where the way to the leaf `i` comes to from the node of an entry with the given place, through
/// the nodes above the leaf.
pub open spec fn reached(s: Stored, e: EntryModel, k: nat, i: Index) -> Reach
    decreases e.meta.address.i, k,
{
    let at = e.meta.address.i;
    let j = entry::node_at(e, k).address.j;
    if at == i && j == 0 {
        if k == 0 {
            Reach::Found(e)
        } else {
            Reach::Broken(Fault::Valueless(i))
        }
    } else if k == 0 {
        Reach::Nowhere(e)
    } else if at == i {
        reached(s, e, (k - 1) as nat, i)
    } else if j == 0 || !nodes::valid(at as nat, j as nat) {
        Reach::Broken(Fault::Impossible(at, j))
    } else if nodes::covers(at as nat, nodes::right_j(at as nat, j as nat), i as nat) {
        reached(s, e, (k - 1) as nat, i)
    } else {
        match left_step(s, e, k) {
            Ok((next, place)) => reached(s, next, place, i),
            Err(fault) => Reach::Broken(fault),
        }
    }
}

/// The place of the first intermediate node at or after `x` whose left child has the leaf `i` below
/// it, or the number of nodes.
pub open spec fn branch_place(e: EntryModel, i: Index, x: nat) -> nat
    decreases e.inodes.len() - x,
{
    if x >= e.inodes.len() {
        e.inodes.len()
    } else if e.inodes[x as int].left.i >= 1 && nodes::covers(
        e.inodes[x as int].left.i as nat,
        e.inodes[x as int].left.j as nat,
        i as nat,
    ) {
        x
    } else {
        branch_place(e, i, x + 1)
    }
}

/// The next entry on the way from an entry to the one of the index, through the entries of the left
/// children alone; or what the way has come to.
pub open spec fn next_step(s: Stored, e: EntryModel, i: Index) -> std::result::Result<
    EntryModel,
    Reach,
> {
    let x = branch_place(e, i, 0);
    if e.meta.address.i == i {
        Err(Reach::Found(e))
    } else if x >= e.inodes.len() {
        Err(Reach::Nowhere(e))
    } else {
        match s.at(e.inodes[x as int].left) {
            Some(next) => Ok(next),
            None => Err(Reach::Broken(Fault::Unread(e.inodes[x as int].left))),
        }
    }
}

/// What the way comes to, if it does within `n` steps.
pub open spec fn sought_within(s: Stored, e: EntryModel, i: Index, n: nat) -> Option<Reach>
    decreases n,
{
    match next_step(s, e, i) {
        Ok(next) => if n == 0 {
            None
        } else {
            sought_within(s, next, i, (n - 1) as nat)
        },
        Err(reach) => Some(reach),
    }
}

/// What the way from an entry to the one of the index comes to. Of links that lead in a circle there
/// is no end.
pub open spec fn sought(s: Stored, e: EntryModel, i: Index) -> Reach {
    if exists|n: nat| #[trigger] sought_within(s, e, i, n) is Some {
        sought_within(s, e, i, choose|n: nat| #[trigger] sought_within(s, e, i, n) is Some)->Some_0
    } else {
        Reach::Broken(Fault::Endless(i))
    }
}

/// What the way comes to does not change with more steps.
pub proof fn lemma_within(s: Stored, e: EntryModel, i: Index, n: nat, m: nat)
    requires
        sought_within(s, e, i, n) is Some,
        n <= m,
    ensures
        sought_within(s, e, i, m) == sought_within(s, e, i, n),
    decreases n,
{
    if n > 0 && next_step(s, e, i) is Ok {
        lemma_within(s, next_step(s, e, i)->Ok_0, i, (n - 1) as nat, (m - 1) as nat);
    }
}

/// A way that comes to something within some steps comes to this.
pub proof fn lemma_sought_is(s: Stored, e: EntryModel, i: Index, n: nat)
    requires
        sought_within(s, e, i, n) is Some,
    ensures
        sought(s, e, i) == sought_within(s, e, i, n)->Some_0,
{
    let m = choose|m: nat| #[trigger] sought_within(s, e, i, m) is Some;
    if n <= m {
        lemma_within(s, e, i, n, m);
    } else {
        lemma_within(s, e, i, m, n);
    }
}

/// Whether the entries are a part of the way, one after the other.
pub open spec fn is_way(s: Stored, way: Seq<EntryModel>, i: Index) -> bool {
    &&& way.len() > 0
    &&& forall|x: int|
        0 <= x < way.len() - 1 ==> next_step(s, #[trigger] way[x], i) == Ok::<EntryModel, Reach>(
            way[x + 1],
        )
}

/// A way whose last entry is the end of it comes to that.
pub proof fn lemma_way_ends(s: Stored, way: Seq<EntryModel>, i: Index, x: int)
    requires
        is_way(s, way, i),
        next_step(s, way.last(), i) is Err,
        0 <= x < way.len(),
    ensures
        sought(s, way[x], i) == next_step(s, way.last(), i)->Err_0,
        sought_within(s, way[x], i, (way.len() - 1 - x) as nat) is Some,
        sought_within(s, way[x], i, (way.len() - 1 - x) as nat)->Some_0 == next_step(
            s,
            way.last(),
            i,
        )->Err_0,
    decreases way.len() - x,
{
    if x < way.len() - 1 {
        lemma_way_ends(s, way, i, x + 1);
    }
    lemma_sought_is(s, way[x], i, (way.len() - 1 - x) as nat);
}

/// A way whose last entry leads back to an earlier one has no end.
pub proof fn lemma_way_circles(s: Stored, way: Seq<EntryModel>, i: Index, back: int)
    requires
        is_way(s, way, i),
        0 <= back < way.len(),
        next_step(s, way.last(), i) == Ok::<EntryModel, Reach>(way[back]),
    ensures
        sought(s, way[0], i) == Reach::Broken(Fault::Endless(i)),
{
    assert forall|n: nat| #[trigger] sought_within(s, way[0], i, n) is None by {
        lemma_circle(s, way, i, back, 0, n);
    }
}

proof fn lemma_circle(s: Stored, way: Seq<EntryModel>, i: Index, back: int, x: int, n: nat)
    requires
        is_way(s, way, i),
        0 <= back < way.len(),
        next_step(s, way.last(), i) == Ok::<EntryModel, Reach>(way[back]),
        0 <= x < way.len(),
    ensures
        sought_within(s, way[x], i, n) is None,
    decreases n,
{
    if n > 0 {
        if x < way.len() - 1 {
            lemma_circle(s, way, i, back, x + 1, (n - 1) as nat);
        } else {
            lemma_circle(s, way, i, back, back, (n - 1) as nat);
        }
    }
}

/// Whether this is what becomes of the visitor in the walk from the node of the entry with the
/// given place, through the entries as they are stored.
pub open spec fn traced<V: Visitor>(
    s: Stored,
    revision: Index,
    e: EntryModel,
    k: nat,
    before: V,
    after: V,
) -> bool
    decreases e.meta.address.i, k, 2nat,
{
    exists|mid: V, d: WalkDirection|
        #![trigger V::step(before, visit_in(revision, e, k), mid, d)]
        V::step(before, visit_in(revision, e, k), mid, d) && traced_on(
            s,
            revision,
            e,
            k,
            d,
            mid,
            after,
        )
}

/// Whether this is what becomes of the visitor in the walk below the node, in the given direction:
/// to the right before the left.
pub open spec fn traced_on<V: Visitor>(
    s: Stored,
    revision: Index,
    e: EntryModel,
    k: nat,
    direction: WalkDirection,
    before: V,
    after: V,
) -> bool
    decreases e.meta.address.i, k, 1nat,
{
    if k == 0 {
        after == before
    } else {
        match direction {
            WalkDirection::Terminate => after == before,
            WalkDirection::Right => traced(s, revision, e, (k - 1) as nat, before, after),
            WalkDirection::Left => traced_left(s, revision, e, k, before, after),
            WalkDirection::Both => exists|v: V|
                #![trigger turn(v)]
                turn(v) && traced(s, revision, e, (k - 1) as nat, before, v) && traced_left(
                    s,
                    revision,
                    e,
                    k,
                    v,
                    after,
                ),
        }
    }
}

/// Whether this is what becomes of the visitor in the walk from the left child of the node.
pub open spec fn traced_left<V: Visitor>(
    s: Stored,
    revision: Index,
    e: EntryModel,
    k: nat,
    before: V,
    after: V,
) -> bool
    decreases e.meta.address.i, k, 0nat,
{
    match left_step(s, e, k) {
        Ok((next, place)) => traced(s, revision, next, place, before, after),
        Err(_) => false,
    }
}

/// Whether this is what becomes of the visitor in the walk from the node of the entry with the
/// given place that ends with the error, at a left child that is not there. Where it is not sure
/// that the reader fails for no reason that lies outside, the walk can end at any left child.
pub open spec fn broken<V: Visitor>(
    s: Stored,
    sure: bool,
    revision: Index,
    e: EntryModel,
    k: nat,
    before: V,
    after: V,
    error: Error,
) -> bool
    decreases e.meta.address.i, k, 2nat,
{
    exists|mid: V, d: WalkDirection|
        #![trigger V::step(before, visit_in(revision, e, k), mid, d)]
        V::step(before, visit_in(revision, e, k), mid, d) && broken_on(
            s,
            sure,
            revision,
            e,
            k,
            d,
            mid,
            after,
            error,
        )
}

/// Whether this is what becomes of the visitor in the walk below the node, in the given direction,
/// that ends with the error.
pub open spec fn broken_on<V: Visitor>(
    s: Stored,
    sure: bool,
    revision: Index,
    e: EntryModel,
    k: nat,
    direction: WalkDirection,
    before: V,
    after: V,
    error: Error,
) -> bool
    decreases e.meta.address.i, k, 1nat,
{
    k > 0 && match direction {
        WalkDirection::Terminate => false,
        WalkDirection::Right => broken(
            s,
            sure,
            revision,
            e,
            (k - 1) as nat,
            before,
            after,
            error,
        ),
        WalkDirection::Left => broken_left(s, sure, revision, e, k, before, after, error),
        WalkDirection::Both => {
            ||| broken(s, sure, revision, e, (k - 1) as nat, before, after, error)
            ||| exists|v: V|
                #![trigger turn(v)]
                turn(v) && traced(s, revision, e, (k - 1) as nat, before, v) && broken_left(
                    s,
                    sure,
                    revision,
                    e,
                    k,
                    v,
                    after,
                    error,
                )
        },
    }
}

/// Whether the left child of the node is not there, and the error says so; or this is what becomes
/// of the visitor in the walk from there that ends with the error.
pub open spec fn broken_left<V: Visitor>(
    s: Stored,
    sure: bool,
    revision: Index,
    e: EntryModel,
    k: nat,
    before: V,
    after: V,
    error: Error,
) -> bool
    decreases e.meta.address.i, k, 0nat,
{
    ||| !sure && after == before
    ||| match left_step(s, e, k) {
        Ok((next, place)) => broken(s, sure, revision, next, place, before, after, error),
        Err(fault) => after == before && told(s, fault, error),
    }
}

/// Whether the cache and the reader show the same tree, the one of the first entries of the log.
pub open spec fn agrees<R: Reader>(cursor: R, cache: Cache) -> bool {
    &&& cursor.intact()
    &&& ledger::ordered(cursor.log(), cursor.end())
    &&& ledger::listed(cursor.log(), cursor.found())
    &&& ledger::genuine(cursor.log())
    &&& cache.n() <= cursor.log().len()
    &&& cache.sound(cursor.log().take(cache.n() as int))
}

/// The values of the tree that the cache is of.
pub open spec fn values_of<R: Reader>(cursor: R, cache: Cache) -> Seq<Seq<u8>> {
    ledger::payloads(cursor.log().take(cache.n() as int))
}

/// Whether this is an entry of the tree that the cache is of.
pub open spec fn is_entry<R: Reader>(cursor: R, cache: Cache, e: EntryModel) -> bool {
    &&& agrees(cursor, cache)
    &&& 1 <= e.meta.address.i <= cache.n()
    &&& e == cursor.log()[e.meta.address.i - 1]
}

/// The place of a node in an entry with the nodes of its generation.
pub proof fn lemma_place(e: EntryModel, j: u8)
    requires
        ledger::shaped(e),
        nodes::valid(e.meta.address.i as nat, j as nat),
    ensures
        entry::place_of(e, j) <= e.inodes.len(),
        entry::height_of(e, entry::place_of(e, j)) == j,
{
    if j > 0 {
        let i = e.meta.address.i as nat;
        let h = model::height(i);
        ledger::lemma_shaped(e);
        nodes::lemma_valid(i, j as nat);
        ledger::lemma_on_spine(i, h, j as nat);
        let y = choose|y: int|
            0 <= y < model::spine(i, h).len() && (#[trigger] model::spine(i, h)[y]).node.j == j;
        assert(ledger::matches(e.inodes[y], model::spine(i, h)[y]));
        entry::lemma_inode_place(e.inodes, j, 0, y as nat);
    }
}

/// What a node of an entry of the tree is, and where its children are.
pub proof fn lemma_node<R: Reader>(cursor: R, cache: Cache, e: EntryModel, k: nat)
    requires
        is_entry(cursor, cache, e),
        k <= e.inodes.len(),
    ensures
        ({
            let i = e.meta.address.i as nat;
            let j = entry::height_of(e, k);
            let values = values_of(cursor, cache);
            &&& ledger::shaped(e)
            &&& nodes::valid(i, j)
            &&& i <= values.len() <= u64::MAX
            &&& forall|revision: Index| #[trigger]
                visit_in(revision, e, k) == visit_of(values, revision, i, j)
            &&& k == 0 <==> j == 0
            &&& k > 0 ==> {
                let left = e.inodes[k - 1].left;
                let next = cursor.log()[left.i - 1];
                &&& entry::height_of(e, (k - 1) as nat) == nodes::right_j(i, j)
                &&& nodes::right_j(i, j) < j
                &&& left.i == nodes::left_i(i, j)
                &&& 1 <= left.i < i
                &&& left.j == j - 1
                &&& stored(cursor, cache).at(left) == Some(next)
                &&& left_step(stored(cursor, cache), e, k) == Ok::<(EntryModel, nat), Fault>(
                    (next, entry::place_of(next, left.j)),
                )
                &&& next.meta.address.i == left.i
                &&& is_entry(cursor, cache, next)
                &&& entry::place_of(next, left.j) <= next.inodes.len()
                &&& entry::height_of(next, entry::place_of(next, left.j)) == left.j
            }
        }),
{
    let n = cache.n();
    let log = cursor.log();
    let low = log.take(n as int);
    let values = ledger::payloads(low);
    let i = e.meta.address.i as nat;
    let j = entry::height_of(e, k);
    cache.lemma_sound(low);
    cache.lemma_kept(low);
    assert(low[i - 1] == e);
    assert(values[i - 1] == low[i - 1].payload);
    ledger::lemma_genuine_shaped(low, i - 1);
    ledger::lemma_genuine_entry(low, i - 1);
    ledger::lemma_shaped(e);
    nodes::lemma_leaf(i);
    if k > 0 {
        let x = k - 1;
        assert(ledger::step_of(e, x));
        nodes::lemma_children(i, j);
        assert(e.inodes[x] == ledger::inode_of(
            values,
            ledger::positions(low),
            model::spine(i, model::height(i))[x],
        ));
        let left = e.inodes[x].left;
        let l = left.i as int;
        assert(low[l - 1] == log[l - 1]);
        assert(ledger::positions(low)[l - 1] == log[l - 1].meta.address.position);
        ledger::lemma_genuine_shaped(low, l - 1);
        lemma_place(log[l - 1], left.j);
    }
}

/// In a tree that is whole every leaf is reached.
pub proof fn lemma_reached<R: Reader>(cursor: R, cache: Cache, e: EntryModel, k: nat, i: Index)
    requires
        is_entry(cursor, cache, e),
        k <= e.inodes.len(),
        nodes::covers(e.meta.address.i as nat, entry::height_of(e, k), i as nat),
    ensures
        1 <= i <= cursor.log().len(),
        reached(stored(cursor, cache), e, k, i) == Reach::Found(cursor.log()[i - 1]),
    decreases e.meta.address.i, k,
{
    lemma_node(cursor, cache, e, k);
    let at = e.meta.address.i as nat;
    let j = entry::height_of(e, k);
    if k == 0 {
        nodes::lemma_leaf(at);
    } else {
        nodes::lemma_children(at, j);
        let left = e.inodes[k - 1].left;
        let next = cursor.log()[left.i - 1];
        if i > left.i {
            lemma_reached(cursor, cache, e, (k - 1) as nat, i);
        } else {
            lemma_reached(cursor, cache, next, entry::place_of(next, left.j), i);
        }
    }
}

/// In a tree that is whole a walk through the stored entries is one through the tree.
pub proof fn lemma_traced<R: Reader, V: Visitor>(
    cursor: R,
    cache: Cache,
    revision: Index,
    e: EntryModel,
    k: nat,
    before: V,
    after: V,
)
    requires
        is_entry(cursor, cache, e),
        k <= e.inodes.len(),
        traced(stored(cursor, cache), revision, e, k, before, after),
    ensures
        walked(
            values_of(cursor, cache),
            revision,
            e.meta.address.i as nat,
            entry::height_of(e, k),
            before,
            after,
        ),
    decreases e.meta.address.i, k,
{
    let s = stored(cursor, cache);
    let values = values_of(cursor, cache);
    let i = e.meta.address.i as nat;
    let j = entry::height_of(e, k);
    lemma_node(cursor, cache, e, k);
    let (mid, d) = choose|mid: V, d: WalkDirection|
        #![trigger V::step(before, visit_in(revision, e, k), mid, d)]
        V::step(before, visit_in(revision, e, k), mid, d) && traced_on(
            s,
            revision,
            e,
            k,
            d,
            mid,
            after,
        );
    assert(V::step(before, visit_of(values, revision, i, j), mid, d));
    if k > 0 {
        let left = e.inodes[k - 1].left;
        let next = cursor.log()[left.i - 1];
        let place = entry::place_of(next, left.j);
        let below = (k - 1) as nat;
        match d {
            WalkDirection::Terminate => {},
            WalkDirection::Right => {
                lemma_traced(cursor, cache, revision, e, below, mid, after);
            },
            WalkDirection::Left => {
                lemma_traced(cursor, cache, revision, next, place, mid, after);
            },
            WalkDirection::Both => {
                let v = choose|v: V|
                    #![trigger turn(v)]
                    turn(v) && traced(s, revision, e, below, mid, v) && traced_left(
                        s,
                        revision,
                        e,
                        k,
                        v,
                        after,
                    );
                lemma_traced(cursor, cache, revision, e, below, mid, v);
                lemma_traced(cursor, cache, revision, next, place, v, after);
                assert(turn(v));
            },
        }
    }
}

/// In a tree that is whole every entry is stored.
pub proof fn lemma_whole<R: Reader, V: Visitor>(
    cursor: R,
    cache: Cache,
    revision: Index,
    e: EntryModel,
    k: nat,
    before: V,
    after: V,
    error: Error,
)
    requires
        is_entry(cursor, cache, e),
        k <= e.inodes.len(),
    ensures
        !broken(stored(cursor, cache), true, revision, e, k, before, after, error),
    decreases e.meta.address.i, k,
{
    let s = stored(cursor, cache);
    lemma_node(cursor, cache, e, k);
    if broken(s, true, revision, e, k, before, after, error) {
        let (mid, d) = choose|mid: V, d: WalkDirection|
            #![trigger V::step(before, visit_in(revision, e, k), mid, d)]
            V::step(before, visit_in(revision, e, k), mid, d) && broken_on(
                s,
                true,
                revision,
                e,
                k,
                d,
                mid,
                after,
                error,
            );
        let left = e.inodes[k - 1].left;
        let next = cursor.log()[left.i - 1];
        let place = entry::place_of(next, left.j);
        let below = (k - 1) as nat;
        lemma_whole(cursor, cache, revision, e, below, mid, after, error);
        lemma_whole(cursor, cache, revision, next, place, mid, after, error);
        if d == WalkDirection::Both {
            let v = choose|v: V|
                #![trigger turn(v)]
                turn(v) && traced(s, revision, e, below, mid, v) && broken_left(
                    s,
                    true,
                    revision,
                    e,
                    k,
                    v,
                    after,
                    error,
                );
            lemma_whole(cursor, cache, revision, next, place, v, after, error);
        }
    }
}

/// In a tree that is whole the way through the left children leads to every entry.
pub proof fn lemma_sought<R: Reader>(cursor: R, cache: Cache, e: EntryModel, i: Index)
    requires
        is_entry(cursor, cache, e),
        1 <= i <= e.meta.address.i,
    ensures
        i <= cursor.log().len(),
        sought(stored(cursor, cache), e, i) == Reach::Found(cursor.log()[i - 1]),
{
    lemma_sought_soon(cursor, cache, e, i);
    lemma_sought_is(stored(cursor, cache), e, i, e.meta.address.i as nat);
}

/// In a tree that is whole the way to an entry takes no more steps than the entry has leaves before
/// it.
proof fn lemma_sought_soon<R: Reader>(cursor: R, cache: Cache, e: EntryModel, i: Index)
    requires
        is_entry(cursor, cache, e),
        1 <= i <= e.meta.address.i,
    ensures
        i <= cursor.log().len(),
        sought_within(stored(cursor, cache), e, i, e.meta.address.i as nat) == Some(
            Reach::Found(cursor.log()[i - 1]),
        ),
    decreases e.meta.address.i,
{
    if e.meta.address.i != i {
        lemma_node(cursor, cache, e, 0);
        lemma_branch(e, i, 0);
        let x = branch_place(e, i, 0);
        lemma_node(cursor, cache, e, x + 1);
        let left = e.inodes[x as int].left;
        let next = cursor.log()[left.i - 1];
        lemma_sought_soon(cursor, cache, next, i);
        lemma_within(
            stored(cursor, cache),
            next,
            i,
            next.meta.address.i as nat,
            (e.meta.address.i - 1) as nat,
        );
    }
}

/// In an entry with the nodes of its generation every earlier leaf is below a left child.
pub proof fn lemma_branch(e: EntryModel, i: Index, x: nat)
    requires
        ledger::shaped(e),
        1 <= i < e.meta.address.i,
        x <= e.inodes.len(),
        !nodes::covers(e.meta.address.i as nat, entry::height_of(e, x), i as nat),
    ensures
        x <= branch_place(e, i, x) < e.inodes.len(),
        ({
            let left = e.inodes[branch_place(e, i, x) as int].left;
            nodes::covers(left.i as nat, left.j as nat, i as nat)
        }),
    decreases e.inodes.len() - x,
{
    let at = e.meta.address.i as nat;
    ledger::lemma_shaped(e);
    nodes::lemma_valid(at, model::height(at));
    if x < e.inodes.len() {
        assert(ledger::step_of(e, x as int));
        let h = e.inodes[x as int].meta.address.j as nat;
        nodes::lemma_children(at, h);
        nodes::lemma_span(at, nodes::right_j(at, h));
        let left = e.inodes[x as int].left;
        if !nodes::covers(left.i as nat, left.j as nat, i as nat) {
            lemma_branch(e, i, x + 1);
        }
    } else if x > 0 {
        assert(ledger::step_of(e, x - 1));
    }
}

/// Walks down from the node of the entry with the given place.
pub(crate) fn walk<R: Reader, V: Visitor>(
    cursor: &mut R,
    cache: &Cache,
    node_index: usize,
    entry: &Entry,
    visitor: &mut V,
) -> (r: Result<()>)
    requires
        1 <= entry@.meta.address.i <= cache.n(),
        node_index <= entry@.inodes.len(),
    ensures
        storage::unchanged(*old(cursor), *final(cursor)),
        r is Ok ==> traced(
            stored(*old(cursor), *cache),
            cache.n() as u64,
            entry@,
            node_index as nat,
            *old(visitor),
            *final(visitor),
        ),
        r is Err ==> broken(
            stored(*old(cursor), *cache),
            old(cursor).reliable(),
            cache.n() as u64,
            entry@,
            node_index as nat,
            *old(visitor),
            *final(visitor),
            r->Err_0,
        ),
    decreases entry.enode.meta.address.i, node_index, 1nat,
{
    let i: Index = entry.enode.meta.address.i;
    let revision: Index = cache.revision();
    let ghost k = node_index as nat;
    let ghost before = *visitor;
    proof {
        if node_index > 0 {
            assert(entry@.inodes[node_index - 1] == entry.inodes@[node_index - 1]@);
        }
    }
    let direction: WalkDirection = if node_index == 0 {
        let node = &entry.enode;
        visitor.visit(
            revision,
            i,
            node.meta.address.j,
            &node.meta.hash,
            Some(node.payload.as_slice()),
        )
    } else {
        let node = &entry.inodes[node_index - 1];
        visitor.visit(revision, i, node.meta.address.j, &node.meta.hash, None)
    };
    let ghost mid = *visitor;
    proof {
        assert(V::step(before, visit_in(revision, entry@, k), mid, direction));
    }
    if node_index == 0 || direction == WalkDirection::Terminate {
        return Ok(());
    }
    if direction == WalkDirection::Right || direction == WalkDirection::Both {
        match walk(cursor, cache, node_index - 1, entry, visitor) {
            Ok(()) => {},
            Err(error) => {
                return Err(error);
            },
        }
    }
    if direction == WalkDirection::Left || direction == WalkDirection::Both {
        let ghost halfway = *visitor;
        let r = walk_to_left(cursor, cache, node_index, entry, visitor);
        proof {
            let s = stored(*old(cursor), *cache);
            assert(turn(halfway));
            assert(r is Ok ==> traced_on(s, revision, entry@, k, direction, mid, *visitor));
            assert(r is Err ==> broken_on(
                s,
                cursor.reliable(),
                revision,
                entry@,
                k,
                direction,
                mid,
                *visitor,
                r->Err_0,
            ));
        }
        return r;
    }
    Ok(())
}

/// Walks down from the left child of the intermediate node of the entry with the given place.
fn walk_to_left<R: Reader, V: Visitor>(
    cursor: &mut R,
    cache: &Cache,
    node_index: usize,
    entry: &Entry,
    visitor: &mut V,
) -> (r: Result<()>)
    requires
        1 <= entry@.meta.address.i <= cache.n(),
        1 <= node_index <= entry@.inodes.len(),
    ensures
        storage::unchanged(*old(cursor), *final(cursor)),
        r is Ok ==> traced_left(
            stored(*old(cursor), *cache),
            cache.n() as u64,
            entry@,
            node_index as nat,
            *old(visitor),
            *final(visitor),
        ),
        r is Err ==> broken_left(
            stored(*old(cursor), *cache),
            old(cursor).reliable(),
            cache.n() as u64,
            entry@,
            node_index as nat,
            *old(visitor),
            *final(visitor),
            r->Err_0,
        ),
    decreases entry.enode.meta.address.i, node_index, 0nat,
{
    let current = &entry.inodes[node_index - 1];
    let i: Index = entry.enode.meta.address.i;
    proof {
        assert(entry@.inodes[node_index - 1] == current@);
    }
    match cache.entry(current.left.i) {
        Some(kept) => walk_left(cursor, cache, i, current, kept, visitor),
        None => {
            match ledger::read_entry_with_index_check(
                cursor,
                current.left.position,
                current.left.i,
            ) {
                Ok(found) => walk_left(cursor, cache, i, current, &found, visitor),
                Err(error) => Err(error),
            }
        },
    }
}

/// Walks down from the left child of the intermediate node, in the entry of that child.
fn walk_left<R: Reader, V: Visitor>(
    cursor: &mut R,
    cache: &Cache,
    i: Index,
    current: &INode,
    entry: &Entry,
    visitor: &mut V,
) -> (r: Result<()>)
    requires
        i <= cache.n(),
    ensures
        storage::unchanged(*old(cursor), *final(cursor)),
        ({
            let s = stored(*old(cursor), *cache);
            let place = entry::place_of(entry@, current.left.j);
            let linked = 1 <= entry@.meta.address.i < i && place <= entry@.inodes.len();
            &&& r is Ok ==> linked && traced(
                s,
                cache.n() as u64,
                entry@,
                place,
                *old(visitor),
                *final(visitor),
            )
            &&& r is Err && linked ==> broken(
                s,
                old(cursor).reliable(),
                cache.n() as u64,
                entry@,
                place,
                *old(visitor),
                *final(visitor),
                r->Err_0,
            )
            &&& r is Err && !linked ==> *final(visitor) == *old(visitor) && contradicts(
                r->Err_0,
                ledger::missing_node(current@),
            )
        }),
    decreases i, 0nat, 0nat,
{
    let at: Index = entry.enode.meta.address.i;
    if at == 0 || at >= i {
        return inconsistency(ledger::missing_node_text(current));
    }
    let node_index: usize = if current.left.j == 0 {
        0
    } else {
        match entry.position_of(current.left.j) {
            Some(k) => k + 1,
            None => {
                return inconsistency(ledger::missing_node_text(current));
            },
        }
    };
    walk(cursor, cache, node_index, entry, visitor)
}

/// What is said of faults on the way: every number stands in its place.
pub proof fn law_messages(i: Index, j: u8)
    ensures
        valueless(i) == "The value was not passed at the leaf node b_"@ + text::decimal_of(i as nat)
            + " reached"@,
        impossible(i, j) == "There is no node b_{"@ + text::decimal_of(i as nat) + ","@
            + text::decimal_of(j as nat) + "}"@,
        endless(i) == "The way to the entry "@ + text::decimal_of(i as nat)
            + " leads in a circle"@,
{
}

/// What a visitor is shown of a node in a stored entry: the index of the entry, the height and the
/// hash value of the node, and of the leaf, and of it alone, the whole payload.
pub proof fn law_visit_in(revision: Index, e: EntryModel, k: nat)
    ensures
        ({
            let visit = visit_in(revision, e, k);
            &&& visit.revision == revision
            &&& visit.i == e.meta.address.i
            &&& k == 0 ==> visit.j == e.meta.address.j && visit.hash == e.meta.hash && visit.value
                == Some(e.payload)
            &&& k > 0 ==> visit.j == e.inodes[k - 1].meta.address.j && visit.hash == e.inodes[k
                - 1].meta.hash && visit.value is None
        }),
{
}

/// With which error a way ends: where no entry is stored at an address, the one for reading there;
/// and at every other fault the one for a storage that contradicts the internal state.
pub proof fn law_told(s: Stored, fault: Fault, error: Error)
    requires
        told(s, fault, error),
    ensures
        fault matches Fault::Unread(a) && !s.found.contains_key(a.position) ==> (s.failing)(
            fault->Unread_0.position,
            error,
        ),
        !(fault matches Fault::Unread(a) && !s.found.contains_key(a.position))
            ==> error is InternalStateInconsistency,
{
}

} // verus!
