//! Entries of a tree that are kept in memory: those near the latest one.
use crate::distance;
use crate::distance::entry_access_distance;
use crate::entry;
use crate::entry::{Address, Entry, EntryModel, MetaInfo, MetaModel};
use crate::error::{inconsistency, Error, Result};
use crate::formula;
use crate::formula::{Addr, Index};
use crate::growth;
use crate::ledger;
use crate::model;
use crate::model::Model;
use crate::nodes;
use crate::storage;
use crate::storage::{Reader, Storage};
use crate::walk;
use crate::walk::{Fault, Stored};
use vstd::prelude::*;

verus! {

/// What the entries are.
pub open spec fn models(entries: Seq<Entry>) -> Seq<EntryModel> {
    entries.map_values(|e: Entry| e@)
}

/// Whether one of the entries has the index.
pub open spec fn lists(list: Seq<EntryModel>, k: nat) -> bool {
    exists|x: int| 0 <= x < list.len() && (#[trigger] list[x]).meta.address.i == k
}

/// Two lists have the indices of both.
proof fn lemma_lists_add(one: Seq<EntryModel>, two: Seq<EntryModel>, k: nat)
    ensures
        lists(one + two, k) <==> lists(one, k) || lists(two, k),
{
    let all = one + two;
    if lists(one, k) {
        let x = choose|x: int| 0 <= x < one.len() && (#[trigger] one[x]).meta.address.i == k;
        assert(all[x].meta.address.i == k);
    }
    if lists(two, k) {
        let x = choose|x: int| 0 <= x < two.len() && (#[trigger] two[x]).meta.address.i == k;
        assert(all[one.len() + x].meta.address.i == k);
    }
    if lists(all, k) {
        let x = choose|x: int| 0 <= x < all.len() && (#[trigger] all[x]).meta.address.i == k;
        if x < one.len() {
            assert(one[x].meta.address.i == k);
        } else {
            assert(two[x - one.len()].meta.address.i == k);
        }
    }
}

/// One more entry brings its index.
proof fn lemma_lists_push(list: Seq<EntryModel>, e: EntryModel, k: nat)
    ensures
        lists(list.push(e), k) <==> lists(list, k) || e.meta.address.i == k,
{
    assert(list.push(e) =~= list + seq![e]);
    lemma_lists_add(list, seq![e], k);
    assert(seq![e][0] == e);
}

/// The first of the entries from the `x`-th on that has the index.
pub open spec fn first_with(list: Seq<EntryModel>, i: u64, x: nat) -> EntryModel
    decreases list.len() - x,
{
    if x >= list.len() {
        arbitrary()
    } else if list[x as int].meta.address.i == i {
        list[x as int]
    } else {
        first_with(list, i, x + 1)
    }
}

/// The entries by index; of those with the same index, the first.
pub open spec fn by_index(list: Seq<EntryModel>) -> Map<u64, EntryModel> {
    Map::new(|i: u64| lists(list, i as nat), |i: u64| first_with(list, i, 0))
}

proof fn lemma_first_with(list: Seq<EntryModel>, i: u64, x: nat)
    requires
        exists|y: int| x <= y < list.len() && (#[trigger] list[y]).meta.address.i == i,
    ensures
        first_with(list, i, x).meta.address.i == i,
        exists|y: int|
            x <= y < list.len() && (#[trigger] list[y]) == first_with(list, i, x),
    decreases list.len() - x,
{
    let y = choose|y: int| x <= y < list.len() && (#[trigger] list[y]).meta.address.i == i;
    if list[x as int].meta.address.i == i {
        assert(list[x as int] == first_with(list, i, x));
    } else {
        assert(list[y].meta.address.i == i);
        lemma_first_with(list, i, x + 1);
    }
}

/// One more entry comes after all of the same index.
proof fn lemma_first_push(list: Seq<EntryModel>, e: EntryModel, i: u64, x: nat)
    requires
        x <= list.len(),
    ensures
        (exists|y: int| x <= y < list.len() && (#[trigger] list[y]).meta.address.i == i)
            ==> first_with(list.push(e), i, x) == first_with(list, i, x),
        (forall|y: int| x <= y < list.len() ==> (#[trigger] list[y]).meta.address.i != i)
            && e.meta.address.i == i ==> first_with(list.push(e), i, x) == e,
    decreases list.len() - x,
{
    if x < list.len() {
        lemma_first_push(list, e, i, x + 1);
        if list[x as int].meta.address.i != i {
            if exists|y: int| x <= y < list.len() && (#[trigger] list[y]).meta.address.i == i {
                let y = choose|y: int|
                    x <= y < list.len() && (#[trigger] list[y]).meta.address.i == i;
                assert(x + 1 <= y && list[y].meta.address.i == i);
            }
        }
    } else {
        assert(list.push(e)[x as int] == e);
        reveal_with_fuel(first_with, 2);
    }
}

/// One more entry, by index.
proof fn lemma_by_index_push(list: Seq<EntryModel>, e: EntryModel)
    ensures
        by_index(list.push(e)) == (if lists(list, e.meta.address.i as nat) {
            by_index(list)
        } else {
            by_index(list).insert(e.meta.address.i, e)
        }),
{
    let before = by_index(list);
    let after = by_index(list.push(e));
    assert forall|i: u64| #[trigger] after.contains_key(i) <==> before.contains_key(i)
        || e.meta.address.i == i by {
        lemma_lists_push(list, e, i as nat);
    }
    assert forall|i: u64| #[trigger] after.contains_key(i) implies after[i] == (if lists(
        list,
        i as nat,
    ) {
        before[i]
    } else {
        e
    }) by {
        lemma_first_push(list, e, i, 0);
    }
    if lists(list, e.meta.address.i as nat) {
        assert(after =~= before);
    } else {
        assert(after =~= before.insert(e.meta.address.i, e));
    }
}

/// Whether every entry is the one that the log has at its index.
pub open spec fn copies(list: Seq<EntryModel>, log: Seq<EntryModel>) -> bool {
    forall|x: int|
        0 <= x < list.len() ==> {
            let i = (#[trigger] list[x]).meta.address.i;
            1 <= i <= log.len() && list[x] == log[i - 1]
        }
}

/// Whether the `k`-th kept root has its place in the tree of `n` leaves.
pub open spec fn root_fits(roots: Seq<MetaInfo>, n: nat, k: int) -> bool {
    let a = model::perfect_roots(n, model::height(n))[k];
    roots[k].address.i == a.i && roots[k].address.j == a.j
}

/// Whether the left child of the `x`-th node of an entry is the root of a perfect subtree of the
/// tree whose latest entry this is.
pub open spec fn left_is_root(e: EntryModel, x: int) -> bool {
    let n = e.meta.address.i as nat;
    model::perfect_roots(n, model::height(n)).contains(
        Addr { i: e.inodes[x].left.i, j: e.inodes[x].left.j },
    )
}

/// Why the left child of the `x`-th node of an entry is not found, where it is not.
pub open spec fn root_fault(found: Map<u64, EntryModel>, e: EntryModel, x: int) -> Option<Fault> {
    let left = e.inodes[x].left;
    if !ledger::leads(found, left.position, left.i) {
        Some(Fault::Unread(left))
    } else if entry::place_of(found[left.position], left.j) > found[left.position].inodes.len() {
        Some(Fault::Unlinked(e.inodes[x]))
    } else {
        None
    }
}

/// Whether the roots of the perfect subtrees of the tree whose latest entry is the given one are
/// found.
pub open spec fn roots_found(found: Map<u64, EntryModel>, e: EntryModel) -> bool {
    forall|x: int|
        0 <= x < e.inodes.len() && #[trigger] left_is_root(e, x) ==> root_fault(found, e, x) is None
}

/// Why the entries below the nodes of an entry, from the `x`-th up to the height `j`, are not all
/// found up to the distance, where they are not: the entry of a left child is not found, or it is
/// no earlier one.
pub open spec fn near_fault(
    found: Map<u64, EntryModel>,
    e: EntryModel,
    j: u8,
    level: nat,
    x: nat,
) -> Option<Fault>
    decreases level, e.inodes.len() - x,
{
    if level == 0 || x >= e.inodes.len() || e.inodes[x as int].meta.address.j > j {
        None
    } else {
        let left = e.inodes[x as int].left;
        if !ledger::leads(found, left.position, left.i) {
            Some(Fault::Unread(left))
        } else if !(1 <= left.i < e.meta.address.i) {
            Some(Fault::Unlinked(e.inodes[x as int]))
        } else {
            match near_fault(found, found[left.position], left.j, (level - 1) as nat, 0) {
                Some(fault) => Some(fault),
                None => near_fault(found, e, j, level, x + 1),
            }
        }
    }
}

/// The entries below the nodes of an entry, from the `x`-th up to the height `j`, up to the
/// distance.
pub open spec fn near(
    found: Map<u64, EntryModel>,
    e: EntryModel,
    j: u8,
    level: nat,
    x: nat,
) -> Seq<EntryModel>
    decreases level, e.inodes.len() - x,
{
    if level == 0 || x >= e.inodes.len() || e.inodes[x as int].meta.address.j > j {
        seq![]
    } else {
        let left = e.inodes[x as int].left;
        let next = found[left.position];
        near(found, next, left.j, (level - 1) as nat, 0).push(next) + near(
            found,
            e,
            j,
            level,
            x + 1,
        )
    }
}

/// Whether a cache can be loaded for the tree whose latest entry is the given one.
pub open spec fn loadable(found: Map<u64, EntryModel>, e: EntryModel, level: nat) -> bool {
    &&& ledger::shaped(e)
    &&& roots_found(found, e)
    &&& near_fault(found, e, model::height(e.meta.address.i as nat) as u8, level, 0) is None
}

/// Whether the error is the one for a tree whose cache cannot be loaded: the latest entry has other
/// nodes than those of its generation, or the root of a perfect subtree is not found, or an entry
/// to keep is not.
pub open spec fn unloadable(s: Stored, e: EntryModel, level: nat, error: Error) -> bool {
    if !ledger::shaped(e) {
        walk::contradicts(error, ledger::wrong_nodes(e.meta.address.i))
    } else if !roots_found(s.found, e) {
        rootless(s, e, error)
    } else {
        near_fault(
            s.found,
            e,
            model::height(e.meta.address.i as nat) as u8,
            level,
            0,
        ) matches Some(fault) && walk::told(s, fault, error)
    }
}

/// Whether the error is the one for the root of a perfect subtree that is not found.
pub open spec fn rootless(s: Stored, e: EntryModel, error: Error) -> bool {
    exists|x: int|
        0 <= x < e.inodes.len() && #[trigger] left_is_root(e, x) && (root_fault(
            s.found,
            e,
            x,
        ) matches Some(fault) && walk::told(s, fault, error))
}

/// The entries that a cache keeps which is loaded for the tree whose latest entry is the given one.
pub open spec fn loaded(found: Map<u64, EntryModel>, e: EntryModel, level: nat) -> Map<
    u64,
    EntryModel,
> {
    by_index(near(found, e, model::height(e.meta.address.i as nat) as u8, level, 0).push(e))
}

/// The entries that are kept after one more entry: those that are still near, and this entry.
pub open spec fn migrated(kept: Map<u64, EntryModel>, e: EntryModel, limit: nat) -> Map<
    u64,
    EntryModel,
> {
    let n = e.meta.address.i as nat;
    Map::new(
        |i: u64|
            i == n || (kept.contains_key(i) && distance::distance(n, model::height(n), i as nat)
                <= limit),
        |i: u64|
            if i == n {
                e
            } else {
                kept[i]
            },
    )
}

/// The first of the nodes from the `k`-th on with the index and the height.
pub open spec fn root_in(roots: Seq<MetaModel>, i: Index, j: u8, k: nat) -> MetaModel
    decreases roots.len() - k,
{
    if k >= roots.len() {
        arbitrary()
    } else if roots[k as int].address.i == i && roots[k as int].address.j == j {
        roots[k as int]
    } else {
        root_in(roots, i, j, k + 1)
    }
}

/// The place of the first node of an entry from the `x`-th on that has the given left child, or the
/// number of nodes.
pub open spec fn left_with(e: EntryModel, a: Addr, x: nat) -> nat
    decreases e.inodes.len() - x,
{
    if x >= e.inodes.len() {
        e.inodes.len()
    } else if e.inodes[x as int].left.i == a.i && e.inodes[x as int].left.j == a.j {
        x
    } else {
        left_with(e, a, x + 1)
    }
}

/// The root of a perfect subtree, as it stands in the latest entry or in the one that the latest
/// entry names.
pub open spec fn loaded_root(found: Map<u64, EntryModel>, e: EntryModel, a: Addr) -> MetaModel {
    if a.i == e.meta.address.i {
        entry::node_at(e, entry::place_of(e, a.j))
    } else {
        let position = e.inodes[left_with(e, a, 0) as int].left.position;
        MetaModel {
            address: Address { i: a.i, j: a.j, position },
            hash: entry::node_at(found[position], entry::place_of(found[position], a.j)).hash,
        }
    }
}

/// The roots of the perfect subtrees of the tree whose latest entry is the given one.
pub open spec fn loaded_roots(found: Map<u64, EntryModel>, e: EntryModel) -> Seq<MetaModel> {
    let n = e.meta.address.i as nat;
    model::perfect_roots(n, model::height(n)).map_values(|a: Addr| loaded_root(found, e, a))
}

/// The roots of the perfect subtrees after one more entry: those in this entry, and earlier ones.
pub open spec fn migrated_roots(roots: Seq<MetaModel>, e: EntryModel) -> Seq<MetaModel> {
    let n = e.meta.address.i as nat;
    model::perfect_roots(n, model::height(n)).map_values(
        |a: Addr|
            if a.i == n {
                entry::node_at(e, entry::place_of(e, a.j))
            } else {
                root_in(roots, a.i, a.j, 0)
            },
    )
}

/// The latest entry of a tree, the entries up to a distance from it, and the roots of the perfect
/// subtrees.
#[derive(Debug)]
pub struct Cache {
    level: usize,
    entries: Vec<Entry>,
    roots: Vec<MetaInfo>,
}

impl Cache {
    /// The number of leaves of the tree.
    pub closed spec fn n(&self) -> nat {
        if self.entries@.len() == 0 {
            0
        } else {
            self.entries@.last().enode.meta.address.i as nat
        }
    }

    /// The greatest distance of an entry that is kept.
    pub closed spec fn limit(&self) -> nat {
        self.level as nat
    }

    /// Whether the entry of index `k` is one to keep.
    pub open spec fn keeps(&self, k: nat) -> bool {
        1 <= k <= self.n() && distance::distance(self.n(), model::height(self.n()), k)
            <= self.limit()
    }

    /// The entries that are kept, by index.
    pub closed spec fn kept(&self) -> Map<u64, EntryModel> {
        by_index(models(self.entries@))
    }

    /// The roots of the perfect subtrees, from left to right.
    pub closed spec fn subtrees(&self) -> Seq<MetaModel> {
        self.roots@.map_values(|m: MetaInfo| m@)
    }

    /// The latest entry of a tree that has leaves.
    pub closed spec fn latest(&self) -> EntryModel {
        self.entries@.last()@
    }

    /// Whether the latest entry has the index of the number of leaves and the nodes of its
    /// generation, and every entry that is kept has its index, which is not greater.
    pub open spec fn ordinary(&self) -> bool {
        &&& self.n() > 0 ==> {
            &&& ledger::shaped(self.latest())
            &&& self.latest().meta.address.i == self.n()
            &&& self.kept().contains_key(self.n() as u64)
            &&& self.kept()[self.n() as u64] == self.latest()
        }
        &&& forall|i: u64| #[trigger]
            self.kept().contains_key(i) ==> 1 <= i <= self.n() && self.kept()[i].meta.address.i
                == i
    }

    /// Whether all that is kept is what the tree with the given entries has, and the entries that
    /// are kept are those up to the distance.
    pub closed spec fn sound(&self, log: Seq<EntryModel>) -> bool {
        &&& ledger::genuine(log)
        &&& log.len() == self.n()
        &&& copies(models(self.entries@), log)
        &&& forall|k: nat| #[trigger] lists(models(self.entries@), k) <==> self.keeps(k)
        &&& forall|k: int|
            0 <= k < self.roots@.len() ==> (#[trigger] self.roots@[k])@ == ledger::meta_of(
                ledger::payloads(log),
                ledger::positions(log),
                model::perfect_roots(self.n(), model::height(self.n()))[k],
            )
    }

    #[verifier::type_invariant]
    spec fn wf(&self) -> bool {
        &&& self.entries@.len() == 0 <==> self.n() == 0
        &&& self.n() == 0 ==> self.roots@.len() == 0
        &&& self.n() > 0 ==> ledger::shaped(self.latest()) && self.roots@.len()
            == model::perfect_roots(self.n(), model::height(self.n())).len()
        &&& forall|x: int|
            0 <= x < self.entries@.len() - 1 ==> 1 <= (
            #[trigger] self.entries@[x]).enode.meta.address.i < self.n()
        &&& forall|k: int| 0 <= k < self.roots@.len() ==> #[trigger] root_fits(
            self.roots@,
            self.n(),
            k,
        )
    }

    /// What holds of every cache.
    proof fn lemma_ordinary(&self)
        requires
            self.wf(),
        ensures
            self.ordinary(),
    {
        let list = models(self.entries@);
        assert forall|i: u64| #[trigger] self.kept().contains_key(i) implies 1 <= i <= self.n()
            && self.kept()[i].meta.address.i == i by {
            let x = choose|x: int| 0 <= x < list.len() && (#[trigger] list[x]).meta.address.i == i;
            assert(list[x] == self.entries@[x]@);
            lemma_first_with(list, i, 0);
        }
        if self.n() > 0 {
            let n = self.n() as u64;
            let last = self.entries@.len() - 1;
            assert(list[last] == self.latest());
            assert(list[last].meta.address.i == n);
            lemma_first_with(list, n, 0);
            let y = choose|y: int|
                0 <= y < list.len() && (#[trigger] list[y]) == first_with(list, n, 0);
            assert(list[y] == self.entries@[y]@);
            assert(self.kept().contains_key(n));
        }
    }

    /// A cached tree is one of genuine entries.
    pub proof fn lemma_sound(&self, log: Seq<EntryModel>)
        requires
            self.sound(log),
        ensures
            ledger::genuine(log),
            log.len() == self.n(),
    {
    }

    /// The entries that are kept are those of the tree.
    pub proof fn lemma_kept(&self, log: Seq<EntryModel>)
        requires
            self.sound(log),
        ensures
            forall|i: u64| #[trigger]
                self.kept().contains_key(i) ==> 1 <= i <= log.len() && self.kept()[i] == log[i - 1],
            self.n() > 0 ==> self.latest() == log.last(),
    {
        assert forall|i: u64| #[trigger] self.kept().contains_key(i) implies 1 <= i <= log.len()
            && self.kept()[i] == log[i - 1] by {
            let list = models(self.entries@);
            let x = choose|x: int| 0 <= x < list.len() && (#[trigger] list[x]).meta.address.i == i;
            lemma_first_with(list, i, 0);
        }
        if self.n() > 0 {
            let last = self.entries@.len() - 1;
            assert(models(self.entries@)[last] == self.latest());
        }
    }

    /// The cache of a tree without leaves.
    pub fn empty(level: usize) -> (r: Self)
        ensures
            r.n() == 0,
            r.limit() == level,
            r.kept() == Map::<u64, EntryModel>::empty(),
            r.sound(seq![]),
    {
        let r = Cache { level, entries: Vec::new(), roots: Vec::new() };
        proof {
            assert(r.kept() =~= Map::<u64, EntryModel>::empty());
        }
        r
    }

    /// Loads the cache of the tree whose latest entry is the given one.
    pub fn load<S: Storage>(storage: &S, level: usize, entry: Entry) -> (r: Result<Self>)
        ensures
            r matches Ok(cache) ==> {
                &&& cache.n() == entry@.meta.address.i
                &&& cache.n() > 0
                &&& cache.limit() == level
                &&& cache.latest() == entry@
                &&& cache.kept() == loaded(storage.found(), entry@, level as nat)
                &&& cache.subtrees() == loaded_roots(storage.found(), entry@)
            },
            r is Ok ==> loadable(storage.found(), entry@, level as nat),
            storage.reliable() ==> (r is Ok <==> loadable(storage.found(), entry@, level as nat)),
            r is Err && (storage.reliable() || !ledger::shaped(entry@)) ==> unloadable(
                walk::found_in(*storage),
                entry@,
                level as nat,
                r->Err_0,
            ),
            storage.intact() && ledger::genuine(storage.log()) && 1 <= entry@.meta.address.i
                <= storage.log().len() && entry@ == storage.log()[entry@.meta.address.i - 1] ==> {
                &&& storage.reliable() ==> r is Ok
                &&& r matches Ok(cache) ==> cache.sound(
                    storage.log().take(entry@.meta.address.i as int),
                )
            },
    {
        let n: Index = entry.enode.meta.address.i;
        let ghost log = storage.log();
        let ghost known = storage.intact() && ledger::genuine(log) && 1 <= n <= log.len() && entry@
            == log[n - 1];
        proof {
            if known {
                ledger::lemma_genuine_shaped(log, n - 1);
            }
        }
        if !ledger::is_shaped(&entry) {
            return inconsistency(ledger::wrong_nodes_text(n));
        }
        let mut reader = storage.reader()?;
        let ghost h = model::height(n as nat);
        proof {
            ledger::lemma_shaped(entry@);
            formula::lemma_height(n, h);
        }
        let model = Model::new(n);
        let roots: Vec<MetaInfo> = match load_roots(&mut reader, &entry, &model) {
            Ok(roots) => roots,
            Err(error) => {
                return Err(error);
            },
        };
        let mut entries: Vec<Entry> = Vec::new();
        proof {
            nodes::lemma_valid(n as nat, h);
            if known {
                lemma_near(log, storage.found(), n as nat, h as u8, level as nat, 0);
            }
        }
        match gather(&mut reader, &entry, formula::ceil_log2(n), level, &mut entries) {
            Ok(()) => {},
            Err(error) => {
                return Err(error);
            },
        }
        let ghost others = near(storage.found(), entry@, h as u8, level as nat, 0);
        let ghost before = entries@;
        proof {
            assert(models(before) =~= others);
            lemma_earlier(storage.found(), entry@, h as u8, level as nat, 0);
            assert forall|x: int| 0 <= x < before.len() implies 1 <= (
            #[trigger] before[x]).enode.meta.address.i < n by {
                assert(others[x] == before[x]@);
            }
        }
        entries.push(entry);
        proof {
            assert(models(entries@) =~= others.push(entry@));
            assert forall|x: int| 0 <= x < entries@.len() - 1 implies 1 <= (
            #[trigger] entries@[x]).enode.meta.address.i < n by {
                assert(entries@[x] == before[x]);
            }
        }
        let cache = Cache { level, entries, roots };
        proof {
            assert(cache.subtrees() =~= loaded_roots(storage.found(), entry@));
            if known {
                let low = log.take(n as int);
                ledger::lemma_genuine_take(log, n as nat);
                nodes::lemma_leaf(n as nat);
                distance::lemma_distance_zero(n as nat, h);
                let list = models(cache.entries@);
                assert(list == others.push(entry@));
                assert forall|k: nat| #[trigger] lists(list, k) <==> cache.keeps(k) by {
                    lemma_lists_push(others, entry@, k);
                }
                assert forall|x: int| 0 <= x < list.len() implies {
                    let i = (#[trigger] list[x]).meta.address.i;
                    1 <= i <= low.len() && list[x] == low[i - 1]
                } by {
                    if x < others.len() {
                        assert(list[x] == others[x]);
                        assert(lists(others, list[x].meta.address.i as nat));
                    }
                }
                assert forall|k: int| 0 <= k < cache.roots@.len() implies (
                #[trigger] cache.roots@[k])@ == ledger::meta_of(
                    ledger::payloads(low),
                    ledger::positions(low),
                    model::perfect_roots(n as nat, h)[k],
                ) by {
                    lemma_root_meta(log, n as nat, k);
                }
            }
        }
        Ok(cache)
    }

    /// The greatest distance of an entry that is kept.
    pub fn level(&self) -> (r: usize)
        ensures
            r == self.limit(),
    {
        self.level
    }

    /// The number of leaves of the tree.
    pub fn revision(&self) -> (r: Index)
        ensures
            r == self.n(),
            self.ordinary(),
    {
        proof {
            use_type_invariant(self);
            self.lemma_ordinary();
        }
        if self.entries.len() == 0 {
            0
        } else {
            self.entries[self.entries.len() - 1].enode.meta.address.i
        }
    }

    /// The latest entry; none where the tree has no leaves.
    pub fn last_entry(&self) -> (r: Option<&Entry>)
        ensures
            r is Some <==> self.n() > 0,
            r matches Some(e) ==> e@.meta.address.i == self.n() && ledger::shaped(e@),
            r matches Some(e) ==> e@ == self.latest(),
            r matches Some(e) ==> forall|log: Seq<EntryModel>| #[trigger]
                self.sound(log) ==> e@ == log.last(),
    {
        proof {
            use_type_invariant(self);
            assert forall|log: Seq<EntryModel>| #[trigger] self.sound(log) && self.n()
                > 0 implies self.latest() == log.last() by {
                self.lemma_kept(log);
            }
        }
        if self.entries.len() == 0 {
            None
        } else {
            Some(&self.entries[self.entries.len() - 1])
        }
    }

    /// The entry of the index, if it is kept.
    pub fn entry(&self, i: Index) -> (r: Option<&Entry>)
        ensures
            r is Some <==> self.kept().contains_key(i),
            r matches Some(e) ==> e@ == self.kept()[i],
            r matches Some(e) ==> e@.meta.address.i == i && 1 <= i <= self.n(),
            forall|log: Seq<EntryModel>| #[trigger]
                self.sound(log) ==> (r is Some <==> self.keeps(i as nat)) && (r matches Some(e)
                    ==> e@ == log[i - 1]),
    {
        let ghost list = models(self.entries@);
        proof {
            use_type_invariant(self);
            self.lemma_ordinary();
            assert forall|log: Seq<EntryModel>| #[trigger]
                self.sound(log) && self.kept().contains_key(i) implies self.kept()[i] == log[i
                - 1] by {
                self.lemma_kept(log);
            }
        }
        let mut x: usize = 0;
        while x < self.entries.len()
            invariant
                x <= self.entries@.len(),
                self.ordinary(),
                list == models(self.entries@),
                first_with(list, i, 0) == first_with(list, i, x as nat),
                forall|y: int| 0 <= y < x ==> (#[trigger] list[y]).meta.address.i != i,
                forall|log: Seq<EntryModel>| #[trigger]
                    self.sound(log) && self.kept().contains_key(i) ==> self.kept()[i] == log[i - 1],
            decreases self.entries@.len() - x,
        {
            proof {
                assert(list[x as int] == self.entries@[x as int]@);
            }
            if self.entries[x].enode.meta.address.i == i {
                proof {
                    assert(lists(list, i as nat));
                    assert(self.kept().contains_key(i));
                }
                return Some(&self.entries[x]);
            }
            x = x + 1;
        }
        proof {
            assert(!lists(list, i as nat));
        }
        None
    }

    /// The root of the tree; none where the tree has no leaves.
    pub fn root(&self) -> (r: Option<&MetaInfo>)
        ensures
            r is Some <==> self.n() > 0,
            r matches Some(root) ==> root@ == entry::root_of(self.latest()),
            r matches Some(root) ==> root.address.i == self.n() && root.address.j == model::height(
                self.n(),
            ),
            r matches Some(root) ==> forall|log: Seq<EntryModel>| #[trigger]
                self.sound(log) ==> root@ == ledger::meta_of(
                    ledger::payloads(log),
                    ledger::positions(log),
                    model::addr(self.n(), model::height(self.n())),
                ),
    {
        match self.last_entry() {
            None => None,
            Some(entry) => {
                proof {
                    ledger::lemma_shaped(entry@);
                    assert forall|log: Seq<EntryModel>| #[trigger]
                        self.sound(log) implies log.len() > 0 && log.last() == ledger::entry_of(
                        ledger::payloads(log),
                        ledger::positions(log),
                        log.len(),
                    ) by {
                        assert(log[log.len() - 1] == ledger::entry_of(
                            ledger::payloads(log),
                            ledger::positions(log),
                            log.len(),
                        ));
                    }
                }
                let k: usize = entry.inodes.len();
                if k > 0 {
                    proof {
                        assert(entry@.inodes[k - 1] == entry.inodes@[k - 1]@);
                        assert(ledger::step_of(entry@, k - 1));
                        let n = self.n();
                        let h = model::height(n);
                        assert forall|log: Seq<EntryModel>| #[trigger]
                            self.sound(log) implies entry.inodes@[k - 1].meta@ == ledger::meta_of(
                            ledger::payloads(log),
                            ledger::positions(log),
                            model::addr(n, h),
                        ) by {
                            ledger::lemma_genuine_entry(log, log.len() - 1);
                            assert(log.last().inodes[k - 1] == entry@.inodes[k - 1]);
                        }
                    }
                    Some(&entry.inodes[k - 1].meta)
                } else {
                    Some(&entry.enode.meta)
                }
            },
        }
    }

    /// The root of a perfect subtree.
    pub fn get_pbst_root(&self, i: Index, j: u8) -> (r: Option<&MetaInfo>)
        ensures
            r is Some <==> self.n() > 0 && model::perfect_roots(
                self.n(),
                model::height(self.n()),
            ).contains(Addr { i, j }),
            r matches Some(root) ==> root@ == root_in(self.subtrees(), i, j, 0),
            r matches Some(root) ==> root.address.i == i && root.address.j == j,
            r matches Some(root) ==> forall|log: Seq<EntryModel>| #[trigger]
                self.sound(log) ==> root@ == ledger::meta_of(
                    ledger::payloads(log),
                    ledger::positions(log),
                    Addr { i, j },
                ),
    {
        proof {
            use_type_invariant(self);
        }
        let ghost all = model::perfect_roots(self.n(), model::height(self.n()));
        let mut k: usize = 0;
        while k < self.roots.len()
            invariant
                k <= self.roots@.len(),
                self.wf(),
                all == model::perfect_roots(self.n(), model::height(self.n())),
                forall|x: int| 0 <= x < k ==> (#[trigger] all[x]) != (Addr { i, j }),
                root_in(self.subtrees(), i, j, 0) == root_in(self.subtrees(), i, j, k as nat),
            decreases self.roots@.len() - k,
        {
            proof {
                assert(root_fits(self.roots@, self.n(), k as int));
                assert(self.subtrees()[k as int] == self.roots@[k as int]@);
            }
            let root: &MetaInfo = &self.roots[k];
            if root.address.i == i && root.address.j == j {
                proof {
                    assert(all[k as int] == (Addr { i, j }));
                }
                return Some(root);
            }
            k = k + 1;
        }
        None
    }

    /// The cache after one more entry.
    pub fn migrate(&self, entry: Entry, model: Model) -> (r: Self)
        requires
            ledger::shaped(entry@),
            entry@.meta.address.i == self.n() + 1,
            model.generation() == self.n() + 1,
        ensures
            r.n() == self.n() + 1,
            r.limit() == self.limit(),
            r.latest() == entry@,
            r.kept() == migrated(self.kept(), entry@, self.limit()),
            r.subtrees() == migrated_roots(self.subtrees(), entry@),
            forall|log: Seq<EntryModel>|
                self.sound(log) && ledger::genuine(#[trigger] log.push(entry@)) ==> r.sound(
                    log.push(entry@),
                ),
    {
        proof {
            use_type_invariant(self);
            ledger::lemma_shaped(entry@);
        }
        let ghost before = self.n();
        let n: Index = entry.enode.meta.address.i;
        let ghost h = model::height(n as nat);
        let ghost all = model::perfect_roots(n as nat, h);
        let addresses: &Vec<Addr> = model.pbst_roots();
        let mut roots: Vec<MetaInfo> = Vec::with_capacity(addresses.len());
        let mut k: usize = 0;
        proof {
            if before > 0 {
                growth::lemma_root_open(before);
                growth::lemma_roots_kept(before, model::height(before));
            } else {
                lemma_first_root();
            }
        }
        while k < addresses.len()
            invariant
                k <= addresses@.len(),
                addresses@ == all,
                all == model::perfect_roots(n as nat, h),
                h == model::height(n as nat),
                before == self.n(),
                n == before + 1,
                n == entry@.meta.address.i,
                ledger::shaped(entry@),
                roots@.len() == k,
                forall|x: int|
                    0 <= x < all.len() ==> (#[trigger] all[x]).i == n || (before > 0
                        && model::perfect_roots(before, model::height(before)).contains(all[x])),
                forall|x: int| 0 <= x < k ==> #[trigger] root_fits(roots@, n as nat, x),
                forall|x: int|
                    0 <= x < k ==> (#[trigger] roots@[x])@ == migrated_roots(
                        self.subtrees(),
                        entry@,
                    )[x],
                forall|log: Seq<EntryModel>, x: int|
                    #![trigger log.push(entry@), roots@[x]]
                    self.sound(log) && ledger::genuine(log.push(entry@)) && 0 <= x < k
                        ==> roots@[x]@ == ledger::meta_of(
                        ledger::payloads(log.push(entry@)),
                        ledger::positions(log.push(entry@)),
                        all[x],
                    ),
            decreases addresses@.len() - k,
        {
            let a: Addr = addresses[k];
            let ghost roots_before = roots@;
            proof {
                nodes::lemma_valid(n as nat, h);
                distance::lemma_root(n as nat, h, k as int);
                nodes::lemma_perfect(a.i as nat, a.j as nat);
            }
            if a.i == n {
                proof {
                    walk::lemma_place(entry@, a.j);
                    lemma_meta(&entry, a.j);
                    lemma_meta_fits(entry@, a.j);
                }
                let meta: MetaInfo = *entry.meta(a.j).unwrap();
                roots.push(meta);
                proof {
                    assert forall|log: Seq<EntryModel>|
                        self.sound(log) && ledger::genuine(
                            #[trigger] log.push(entry@),
                        ) implies meta@ == ledger::meta_of(
                        ledger::payloads(log.push(entry@)),
                        ledger::positions(log.push(entry@)),
                        a,
                    ) by {
                        let more = log.push(entry@);
                        assert(more[n - 1] == entry@);
                        lemma_own_meta(more, n as nat, a);
                    }
                }
            } else {
                let kept: Option<&MetaInfo> = self.get_pbst_root(a.i, a.j);
                proof {
                    assert(all[k as int] == a);
                    assert(a == (Addr { i: a.i, j: a.j }));
                }
                let meta: MetaInfo = *kept.unwrap();
                roots.push(meta);
                proof {
                    assert forall|log: Seq<EntryModel>|
                        self.sound(log) && ledger::genuine(
                            #[trigger] log.push(entry@),
                        ) implies meta@ == ledger::meta_of(
                        ledger::payloads(log.push(entry@)),
                        ledger::positions(log.push(entry@)),
                        a,
                    ) by {
                        let more = log.push(entry@);
                        self.lemma_sound(log);
                        assert(more.take(log.len() as int) =~= log);
                        lemma_meta_kept(more, log.len(), a);
                    }
                }
            }
            proof {
                assert(root_fits(roots@, n as nat, k as int));
                assert forall|x: int| 0 <= x < k + 1 implies (#[trigger] roots@[x])@
                    == migrated_roots(self.subtrees(), entry@)[x] by {
                    if x < k {
                        assert(roots_before[x] == roots@[x]);
                    }
                }
                assert forall|x: int| 0 <= x < k + 1 implies #[trigger] root_fits(
                    roots@,
                    n as nat,
                    x,
                ) by {
                    if x < k {
                        assert(root_fits(roots_before, n as nat, x));
                    }
                }
                assert forall|log: Seq<EntryModel>, x: int|
                    #![trigger log.push(entry@), roots@[x]]
                    self.sound(log) && ledger::genuine(log.push(entry@)) && 0 <= x < k
                        + 1 implies roots@[x]@ == ledger::meta_of(
                    ledger::payloads(log.push(entry@)),
                    ledger::positions(log.push(entry@)),
                    all[x],
                ) by {
                    if x < k {
                        assert(roots_before[x] == roots@[x]);
                    }
                }
            }
            k = k + 1;
        }
        let entries: Vec<Entry> = self.migrate_entries(entry);
        let r = Cache { level: self.level, entries, roots };
        proof {
            assert(r.subtrees() =~= migrated_roots(self.subtrees(), entry@));
            assert forall|log: Seq<EntryModel>|
                self.sound(log) && ledger::genuine(#[trigger] log.push(entry@)) implies r.sound(
                log.push(entry@),
            ) by {
                let more = log.push(entry@);
                assert forall|k: nat| #[trigger] lists(models(r.entries@), k) <==> r.keeps(k) by {
                    assert(lists(models(self.entries@), k) <==> self.keeps(k));
                    distance::lemma_distance_zero(n as nat, h);
                    if 1 <= k <= before {
                        growth::lemma_root_open(before);
                        nodes::lemma_valid(before, model::height(before));
                        growth::lemma_distance_grows(before, model::height(before), k);
                    }
                }
                assert forall|x: int| 0 <= x < r.roots@.len() implies (#[trigger] r.roots@[x])@
                    == ledger::meta_of(
                    ledger::payloads(more),
                    ledger::positions(more),
                    model::perfect_roots(r.n(), model::height(r.n()))[x],
                ) by {
                    assert(r.roots@[x] == roots@[x]);
                }
            }
        }
        r
    }

    /// The entries that are still near after one more entry, and this entry.
    fn migrate_entries(&self, entry: Entry) -> (r: Vec<Entry>)
        requires
            ledger::shaped(entry@),
            entry@.meta.address.i == self.n() + 1,
        ensures
            r@.len() > 0,
            r@.last() == entry,
            forall|x: int|
                0 <= x < r@.len() - 1 ==> 1 <= (#[trigger] r@[x]).enode.meta.address.i <= self.n(),
            by_index(models(r@)) == migrated(self.kept(), entry@, self.limit()),
            forall|k: nat| #[trigger]
                lists(models(r@), k) <==> k == self.n() + 1 || (lists(models(self.entries@), k)
                    && distance::distance(self.n() + 1, model::height(self.n() + 1), k)
                    <= self.limit()),
            forall|log: Seq<EntryModel>|
                self.sound(log) ==> copies(models(r@), #[trigger] log.push(entry@)),
    {
        let ghost before = self.n();
        let ghost all = models(self.entries@);
        proof {
            use_type_invariant(self);
            assert forall|x: int| 0 <= x < self.entries@.len() implies 1 <= (
            #[trigger] self.entries@[x]).enode.meta.address.i <= before by {
                if x == self.entries@.len() - 1 {
                    assert(self.entries@[x] == self.entries@.last());
                }
            }
        }
        let n: Index = entry.enode.meta.address.i;
        let ghost h = model::height(n as nat);
        let mut entries: Vec<Entry> = Vec::new();
        let mut x: usize = 0;
        proof {
            assert(models(entries@) =~= seq![]);
            assert(all.take(0) =~= seq![]);
        }
        while x < self.entries.len()
            invariant
                x <= self.entries@.len(),
                before == self.n(),
                n == before + 1,
                h == model::height(n as nat),
                all == models(self.entries@),
                forall|y: int|
                    0 <= y < self.entries@.len() ==> 1 <= (
                    #[trigger] self.entries@[y]).enode.meta.address.i <= before,
                forall|y: int|
                    0 <= y < entries@.len() ==> 1 <= (
                    #[trigger] entries@[y]).enode.meta.address.i <= before,
                forall|i: u64| #[trigger]
                    by_index(models(entries@)).contains_key(i) <==> by_index(
                        all.take(x as int),
                    ).contains_key(i) && distance::distance(n as nat, h, i as nat) <= self.limit(),
                forall|i: u64| #[trigger]
                    by_index(models(entries@)).contains_key(i) ==> by_index(models(entries@))[i]
                        == by_index(all.take(x as int))[i],
                forall|log: Seq<EntryModel>| #[trigger]
                    self.sound(log) ==> copies(models(entries@), log),
            decreases self.entries@.len() - x,
        {
            let kept: &Entry = &self.entries[x];
            let i: Index = kept.enode.meta.address.i;
            let ghost list = models(entries@);
            let ghost low = all.take(x as int);
            proof {
                assert(all[x as int] == kept@);
                assert(all.take(x + 1) =~= low.push(kept@));
                lemma_by_index_push(low, kept@);
                lemma_by_index_push(list, kept@);
                assert(by_index(list).contains_key(i) <==> lists(list, i as nat));
                assert(by_index(low).contains_key(i) <==> lists(low, i as nat));
            }
            let near: bool = match entry_access_distance(i, n) {
                Some(d) => d as usize <= self.level,
                None => false,
            };
            if near {
                let copy: Entry = kept.clone();
                entries.push(copy);
                proof {
                    assert(models(entries@) =~= list.push(kept@));
                    assert forall|log: Seq<EntryModel>| #[trigger] self.sound(log) implies copies(
                        models(entries@),
                        log,
                    ) by {
                        assert(copies(all, log));
                        assert(copies(list, log));
                    }
                }
            }
            x = x + 1;
        }
        let ghost list = models(entries@);
        proof {
            assert(all.take(x as int) =~= all);
            if lists(list, n as nat) {
                let y = choose|y: int|
                    0 <= y < list.len() && (#[trigger] list[y]).meta.address.i == n;
                assert(list[y] == entries@[y]@);
            }
            lemma_by_index_push(list, entry@);
        }
        entries.push(entry);
        proof {
            assert(models(entries@) =~= list.push(entry@));
            assert(by_index(models(entries@)) =~= migrated(self.kept(), entry@, self.limit()));
            assert forall|k: nat| #[trigger] lists(models(entries@), k) <==> k == n || (lists(
                all,
                k,
            ) && distance::distance(n as nat, h, k) <= self.limit()) by {
                lemma_lists_push(list, entry@, k);
                if k <= u64::MAX {
                    let i = k as u64;
                    assert(by_index(list).contains_key(i) <==> lists(list, k));
                    assert(by_index(all).contains_key(i) <==> lists(all, k));
                } else {
                    assert(!lists(list, k) && !lists(all, k));
                }
            }
            assert forall|log: Seq<EntryModel>| self.sound(log) implies copies(
                models(entries@),
                #[trigger] log.push(entry@),
            ) by {
                assert(copies(list, log));
            }
        }
        entries
    }
}

/// The tree of one leaf is a perfect subtree.
proof fn lemma_first_root()
    ensures
        model::perfect_roots(1, model::height(1)) == seq![Addr { i: 1, j: 0 }],
{
    assert(model::height(1) == 0);
    vstd::arithmetic::power2::lemma2_to64();
    assert(nodes::perfect(1, 0));
}

/// The root of a perfect subtree has the same place and hash value in a longer tree.
proof fn lemma_meta_kept(log: Seq<EntryModel>, n: nat, a: Addr)
    requires
        ledger::genuine(log),
        n <= log.len(),
        1 <= a.i <= n,
        nodes::valid(a.i as nat, a.j as nat),
    ensures
        ledger::meta_of(
            ledger::payloads(log.take(n as int)),
            ledger::positions(log.take(n as int)),
            a,
        ) == ledger::meta_of(ledger::payloads(log), ledger::positions(log), a),
{
    ledger::lemma_genuine_take(log, n);
    crate::tree::lemma_hash_prefix(ledger::payloads(log), n, a.i as nat, a.j as nat);
}

proof fn lemma_root_meta(log: Seq<EntryModel>, n: nat, k: int)
    requires
        ledger::genuine(log),
        1 <= n <= log.len(),
        0 <= k < model::perfect_roots(n, model::height(n)).len(),
    ensures
        ({
            let a = model::perfect_roots(n, model::height(n))[k];
            ledger::meta_of(
                ledger::payloads(log.take(n as int)),
                ledger::positions(log.take(n as int)),
                a,
            ) == ledger::meta_of(ledger::payloads(log), ledger::positions(log), a)
        }),
{
    nodes::lemma_valid(n, model::height(n));
    distance::lemma_root(n, model::height(n), k);
    let a = model::perfect_roots(n, model::height(n))[k];
    nodes::lemma_perfect(a.i as nat, a.j as nat);
    lemma_meta_kept(log, n, a);
}

/// What [`Entry::meta`] gives.
proof fn lemma_meta(entry: &Entry, j: u8)
    requires
        entry::place_of(entry@, j) <= entry.inodes@.len(),
    ensures
        j > 0 ==> entry.inodes@[entry::inode_place(entry@.inodes, j, 0) as int].meta@
            == entry::node_at(entry@, entry::place_of(entry@, j)),
{
    if j > 0 {
        let k = entry::inode_place(entry@.inodes, j, 0) as int;
        assert(entry@.inodes[k] == entry.inodes@[k]@);
    }
}

/// A node of an entry with the nodes of its generation has the index of the entry and its height.
proof fn lemma_meta_fits(e: EntryModel, j: u8)
    requires
        ledger::shaped(e),
        nodes::valid(e.meta.address.i as nat, j as nat),
    ensures
        entry::node_at(e, entry::place_of(e, j)).address.i == e.meta.address.i,
        entry::node_at(e, entry::place_of(e, j)).address.j == j,
{
    walk::lemma_place(e, j);
    ledger::lemma_shaped(e);
    if j > 0 {
        assert(ledger::step_of(e, entry::place_of(e, j) - 1));
    }
}

/// What the node of a genuine entry is.
proof fn lemma_own_meta(log: Seq<EntryModel>, n: nat, a: Addr)
    requires
        ledger::genuine(log),
        1 <= n <= log.len(),
        a.i == n,
        nodes::valid(n, a.j as nat),
    ensures
        entry::node_at(log[n - 1], entry::place_of(log[n - 1], a.j)) == ledger::meta_of(
            ledger::payloads(log),
            ledger::positions(log),
            a,
        ),
{
    let e = log[n - 1];
    let h = model::height(n);
    ledger::lemma_genuine_shaped(log, n - 1);
    ledger::lemma_genuine_entry(log, n - 1);
    lemma_meta_fits(e, a.j);
    walk::lemma_place(e, a.j);
    assert(log[n - 1] == ledger::entry_of(ledger::payloads(log), ledger::positions(log), n));
    if a.j > 0 {
        let x = entry::place_of(e, a.j) - 1;
        assert(e.inodes[x] == ledger::inode_of(
            ledger::payloads(log),
            ledger::positions(log),
            model::spine(n, h)[x],
        ));
        assert(ledger::rung(n, h, x));
    }
}

/// The roots of the perfect subtrees of the tree whose latest entry is the given one.
fn load_roots<R: Reader>(reader: &mut R, entry: &Entry, model: &Model) -> (r: Result<
    Vec<MetaInfo>,
>)
    requires
        ledger::shaped(entry@),
        model.generation() == entry@.meta.address.i,
    ensures
        storage::unchanged(*old(reader), *final(reader)),
        r is Ok ==> roots_found(old(reader).found(), entry@),
        old(reader).reliable() ==> (r is Ok <==> roots_found(old(reader).found(), entry@)),
        old(reader).reliable() && r is Err ==> rootless(
            walk::found_by(*old(reader)),
            entry@,
            r->Err_0,
        ),
        r matches Ok(roots) ==> {
            let n = entry@.meta.address.i as nat;
            &&& roots@.len() == model::perfect_roots(n, model::height(n)).len()
            &&& forall|k: int| 0 <= k < roots@.len() ==> #[trigger] root_fits(roots@, n, k)
            &&& forall|k: int|
                0 <= k < roots@.len() ==> (#[trigger] roots@[k])@ == loaded_roots(
                    old(reader).found(),
                    entry@,
                )[k]
        },
        ledger::listed(old(reader).log(), old(reader).found()) && ledger::genuine(
            old(reader).log(),
        ) && 1 <= entry@.meta.address.i <= old(reader).log().len() && entry@ == old(
            reader,
        ).log()[entry@.meta.address.i - 1] ==> {
            let n = entry@.meta.address.i as nat;
            let log = old(reader).log();
            &&& old(reader).reliable() ==> r is Ok
            &&& r matches Ok(roots) ==> forall|k: int|
                0 <= k < roots@.len() ==> (#[trigger] roots@[k])@ == ledger::meta_of(
                    ledger::payloads(log),
                    ledger::positions(log),
                    model::perfect_roots(n, model::height(n))[k],
                )
        },
{
    let n: Index = entry.enode.meta.address.i;
    let ghost h = model::height(n as nat);
    let ghost all = model::perfect_roots(n as nat, h);
    let ghost log = reader.log();
    let ghost values = ledger::payloads(log);
    let ghost at = ledger::positions(log);
    let ghost known = ledger::listed(log, reader.found()) && ledger::genuine(log) && 1 <= n
        <= log.len() && entry@ == log[n - 1];
    let ghost sure = reader.reliable();
    proof {
        ledger::lemma_shaped(entry@);
    }
    let addresses: &Vec<Addr> = model.pbst_roots();
    let mut roots: Vec<MetaInfo> = Vec::with_capacity(addresses.len());
    let mut k: usize = 0;
    while k < addresses.len()
        invariant
            k <= addresses@.len(),
            addresses@ == all,
            all == model::perfect_roots(n as nat, h),
            h == model::height(n as nat),
            nodes::valid(n as nat, h),
            n == entry@.meta.address.i,
            ledger::shaped(entry@),
            log == old(reader).log(),
            values == ledger::payloads(log),
            at == ledger::positions(log),
            sure == old(reader).reliable(),
            known == (ledger::listed(log, old(reader).found()) && ledger::genuine(log) && 1 <= n
                <= log.len() && entry@ == log[n - 1]),
            storage::unchanged(*old(reader), *reader),
            forall|x: int|
                0 <= x < entry@.inodes.len() && #[trigger] left_is_root(entry@, x) && all.take(
                    k as int,
                ).contains(Addr { i: entry@.inodes[x].left.i, j: entry@.inodes[x].left.j })
                    ==> root_fault(old(reader).found(), entry@, x) is None,
            roots@.len() == k,
            forall|x: int| 0 <= x < k ==> #[trigger] root_fits(roots@, n as nat, x),
            forall|x: int|
                0 <= x < k ==> (#[trigger] roots@[x])@ == loaded_roots(
                    old(reader).found(),
                    entry@,
                )[x],
            known ==> forall|x: int|
                0 <= x < k ==> (#[trigger] roots@[x])@ == ledger::meta_of(values, at, all[x]),
        decreases addresses@.len() - k,
    {
        let a: Addr = addresses[k];
        let ghost roots_before = roots@;
        proof {
            distance::lemma_root(n as nat, h, k as int);
            nodes::lemma_perfect(a.i as nat, a.j as nat);
            ledger::lemma_shaped(entry@);
            assert(all.take(k + 1) =~= all.take(k as int).push(a));
            assert forall|b: Addr| #[trigger] all.take(k + 1).contains(b) implies b == a
                || all.take(k as int).contains(b) by {
                let more = all.take(k + 1);
                let y = choose|y: int| 0 <= y < more.len() && more[y] == b;
                if y < k {
                    assert(all.take(k as int)[y] == b);
                }
            }
            assert forall|x: int| 0 <= x < entry@.inodes.len() implies (
            #[trigger] entry@.inodes[x]).left.i < n by {
                assert(ledger::step_of(entry@, x));
            }
        }
        let meta: MetaInfo = if a.i == n {
            proof {
                walk::lemma_place(entry@, a.j);
                lemma_meta(entry, a.j);
                lemma_meta_fits(entry@, a.j);
                if known {
                    lemma_own_meta(log, n as nat, a);
                }
            }
            *entry.meta(a.j).unwrap()
        } else {
            let x: usize = left_place(entry, a);
            let inode = entry.inodes[x];
            proof {
                assert(entry@.inodes[x as int] == inode@);
                assert(a == (Addr { i: inode.left.i, j: inode.left.j }));
                assert(all.contains(a));
                assert(left_is_root(entry@, x as int));
                assert forall|y: int|
                    0 <= y < entry@.inodes.len() && (#[trigger] entry@.inodes[y]).left.i == a.i
                        && entry@.inodes[y].left.j == a.j implies y == x by {
                    assert(ledger::step_of(entry@, y));
                    assert(ledger::step_of(entry@, x as int));
                    if y < x {
                        assert(entry@.inodes[y].meta.address.j
                            < entry@.inodes[x as int].meta.address.j);
                    } else if y > x {
                        assert(entry@.inodes[x as int].meta.address.j
                            < entry@.inodes[y].meta.address.j);
                    }
                }
                if known {
                    ledger::lemma_genuine_entry(log, n - 1);
                    assert(entry@.inodes[x as int] == ledger::inode_of(
                        values,
                        at,
                        model::spine(n as nat, h)[x as int],
                    ));
                }
            }
            let other: Entry = match ledger::read_entry_with_index_check(
                reader,
                inode.left.position,
                a.i,
            ) {
                Ok(other) => other,
                Err(error) => {
                    return Err(error);
                },
            };
            proof {
                if known {
                    assert(log[a.i - 1].meta.address.position == inode.left.position);
                    ledger::lemma_genuine_shaped(log, a.i - 1);
                    lemma_own_meta(log, a.i as nat, a);
                    walk::lemma_place(log[a.i - 1], a.j);
                }
            }
            match other.meta(a.j) {
                Some(meta) => {
                    proof {
                        lemma_meta(&other, a.j);
                    }
                    MetaInfo::new(Address::new(a.i, a.j, inode.left.position), meta.hash)
                },
                None => {
                    return inconsistency(ledger::missing_node_text(&inode));
                },
            }
        };
        roots.push(meta);
        proof {
            assert(meta@ == loaded_root(old(reader).found(), entry@, a));
            assert forall|x: int| 0 <= x < k + 1 implies (#[trigger] roots@[x])@ == loaded_roots(
                old(reader).found(),
                entry@,
            )[x] by {
                if x < k {
                    assert(roots_before[x] == roots@[x]);
                }
            }
            assert forall|x: int| 0 <= x < k + 1 implies #[trigger] root_fits(
                roots@,
                n as nat,
                x,
            ) by {
                if x < k {
                    assert(root_fits(roots_before, n as nat, x));
                }
            }
            if known {
                assert forall|x: int| 0 <= x < k + 1 implies (#[trigger] roots@[x])@
                    == ledger::meta_of(values, at, all[x]) by {
                    if x < k {
                        assert(roots_before[x] == roots@[x]);
                    }
                }
            }
        }
        k = k + 1;
    }
    proof {
        assert(all.take(k as int) =~= all);
    }
    Ok(roots)
}

/// A perfect subtree other than the last is the left child of a node of the latest entry.
proof fn lemma_root_is_left(i: nat, j: nat, p: int)
    requires
        nodes::valid(i, j),
        i <= u64::MAX,
        0 <= p < model::perfect_roots(i, j).len(),
        model::perfect_roots(i, j)[p].i != i,
    ensures
        exists|x: int|
            0 <= x < model::spine(i, j).len() && (#[trigger] model::spine(i, j)[x]).left
                == model::perfect_roots(i, j)[p],
    decreases j,
{
    formula::lemma_height(i as u64, j);
    let s = model::spine(i, j);
    if !nodes::perfect(i, j) {
        assert(j > 0) by {
            nodes::lemma_leaf(i);
            vstd::arithmetic::power2::lemma2_to64();
        }
        nodes::lemma_children(i, j);
        let g = nodes::right_j(i, j);
        if p == 0 {
            assert(s[s.len() - 1] == model::branch(i, j));
        } else {
            let low = model::perfect_roots(i, g);
            assert(model::perfect_roots(i, j)[p] == low[p - 1]);
            lemma_root_is_left(i, g, p - 1);
            let x = choose|x: int|
                0 <= x < model::spine(i, g).len() && (#[trigger] model::spine(i, g)[x]).left
                    == low[p - 1];
            assert(s[x] == model::spine(i, g)[x]);
        }
    }
}

/// The place of the node whose left child is the given root of a perfect subtree.
fn left_place(entry: &Entry, a: Addr) -> (r: usize)
    requires
        ledger::shaped(entry@),
        ({
            let n = entry@.meta.address.i as nat;
            model::perfect_roots(n, model::height(n)).contains(a) && a.i != n
        }),
    ensures
        r < entry.inodes@.len(),
        r == left_with(entry@, a, 0),
        entry.inodes@[r as int].left.i == a.i,
        entry.inodes@[r as int].left.j == a.j,
{
    let ghost n = entry@.meta.address.i as nat;
    let ghost h = model::height(n);
    proof {
        ledger::lemma_shaped(entry@);
        let p = choose|p: int|
            0 <= p < model::perfect_roots(n, h).len() && model::perfect_roots(n, h)[p] == a;
        lemma_root_is_left(n, h, p);
        let y = choose|y: int|
            0 <= y < model::spine(n, h).len() && (#[trigger] model::spine(n, h)[y]).left == a;
        assert(ledger::matches(entry@.inodes[y], model::spine(n, h)[y]));
        assert(entry.inodes@[y]@ == entry@.inodes[y]);
    }
    let mut x: usize = 0;
    while x < entry.inodes.len()
        invariant
            x <= entry.inodes@.len(),
            left_with(entry@, a, 0) == left_with(entry@, a, x as nat),
            forall|y: int|
                0 <= y < x ==> (#[trigger] entry.inodes@[y]).left.i != a.i
                    || entry.inodes@[y].left.j != a.j,
            exists|y: int|
                0 <= y < entry.inodes@.len() && (#[trigger] entry.inodes@[y]).left.i == a.i
                    && entry.inodes@[y].left.j == a.j,
        decreases entry.inodes@.len() - x,
    {
        proof {
            assert(entry@.inodes[x as int] == entry.inodes@[x as int]@);
        }
        if entry.inodes[x].left.i == a.i && entry.inodes[x].left.j == a.j {
            return x;
        }
        x = x + 1;
    }
    0
}

/// Collects the entries below the node of height `j` of the entry that are at most `level` away.
fn gather<R: Reader>(
    reader: &mut R,
    entry: &Entry,
    j: u8,
    level: usize,
    list: &mut Vec<Entry>,
) -> (r: Result<()>)
    ensures
        storage::unchanged(*old(reader), *final(reader)),
        ({
            let fault = near_fault(old(reader).found(), entry@, j, level as nat, 0);
            &&& r is Ok ==> fault is None
            &&& old(reader).reliable() && r is Err ==> fault is Some && walk::told(
                walk::found_by(*old(reader)),
                fault->Some_0,
                r->Err_0,
            )
        }),
        r is Ok ==> models(final(list)@) == models(old(list)@) + near(
            old(reader).found(),
            entry@,
            j,
            level as nat,
            0,
        ),
    decreases level,
{
    let i: Index = entry.enode.meta.address.i;
    let ghost found = reader.found();
    let ghost e = entry@;
    let ghost first = models(list@) + near(found, e, j, level as nat, 0);
    let mut x: usize = 0;
    while level > 0 && x < entry.inodes.len() && entry.inodes[x].meta.address.j <= j
        invariant
            x <= entry.inodes@.len(),
            i == e.meta.address.i,
            e == entry@,
            storage::unchanged(*old(reader), *reader),
            found == old(reader).found(),
            near_fault(found, e, j, level as nat, 0) == near_fault(
                found,
                e,
                j,
                level as nat,
                x as nat,
            ),
            first == models(list@) + near(found, e, j, level as nat, x as nat),
        decreases entry.inodes@.len() - x,
    {
        let inode = &entry.inodes[x];
        let ghost before = models(list@);
        proof {
            assert(e.inodes[x as int] == inode@);
        }
        let left: Entry = match ledger::read_entry_with_index_check(
            reader,
            inode.left.position,
            inode.left.i,
        ) {
            Ok(left) => left,
            Err(error) => {
                return Err(error);
            },
        };
        if inode.left.i == 0 || inode.left.i >= i {
            return inconsistency(ledger::missing_node_text(inode));
        }
        match gather(reader, &left, inode.left.j, level - 1, list) {
            Ok(()) => {},
            Err(error) => {
                return Err(error);
            },
        }
        let ghost below = models(list@);
        let ghost next = left@;
        list.push(left);
        proof {
            assert(models(list@) =~= below.push(next));
            assert(first =~= models(list@) + near(found, e, j, level as nat, (x + 1) as nat));
        }
        x = x + 1;
    }
    proof {
        if x < entry.inodes@.len() {
            assert(e.inodes[x as int] == entry.inodes@[x as int]@);
        }
        assert(first =~= models(list@));
    }
    Ok(())
}

/// The entries that are gathered come before the one that they are gathered for.
proof fn lemma_earlier(found: Map<u64, EntryModel>, e: EntryModel, j: u8, level: nat, x: nat)
    requires
        near_fault(found, e, j, level, x) is None,
    ensures
        forall|y: int|
            0 <= y < near(found, e, j, level, x).len() ==> 1 <= (#[trigger] near(
                found,
                e,
                j,
                level,
                x,
            )[y]).meta.address.i < e.meta.address.i,
    decreases level, e.inodes.len() - x,
{
    if !(level == 0 || x >= e.inodes.len() || e.inodes[x as int].meta.address.j > j) {
        let left = e.inodes[x as int].left;
        let next = found[left.position];
        let low = (level - 1) as nat;
        lemma_earlier(found, next, left.j, low, 0);
        lemma_earlier(found, e, j, level, x + 1);
        let one = near(found, next, left.j, low, 0);
        let two = near(found, e, j, level, x + 1);
        let all = near(found, e, j, level, x);
        assert forall|y: int| 0 <= y < all.len() implies 1 <= (#[trigger] all[y]).meta.address.i
            < e.meta.address.i by {
            if y < one.len() {
                assert(all[y] == one[y]);
            } else if y == one.len() {
                assert(all[y] == next);
            } else {
                assert(all[y] == two[y - one.len() - 1]);
            }
        }
    }
}

/// A leaf below a lower node of the same index is as far away from the higher node.
proof fn lemma_same_distance(i: nat, j: nat, h: nat, k: nat)
    requires
        nodes::valid(i, j),
        nodes::valid(i, h),
        h <= j,
        nodes::covers(i, h, k),
    ensures
        nodes::covers(i, j, k),
        distance::distance(i, j, k) == distance::distance(i, h, k),
    decreases j,
{
    if h < j {
        nodes::lemma_children(i, j);
        let g = nodes::right_j(i, j);
        ledger::lemma_no_between(i, j, h);
        lemma_same_distance(i, g, h, k);
    }
}

/// In a genuine log the entries that are gathered from the `x`-th node on are those that the nodes
/// before it do not cover, up to the distance.
proof fn lemma_near(
    log: Seq<EntryModel>,
    found: Map<u64, EntryModel>,
    i: nat,
    j: u8,
    level: nat,
    x: nat,
)
    requires
        ledger::genuine(log),
        ledger::listed(log, found),
        1 <= i <= log.len(),
        nodes::valid(i, j as nat),
        x <= log[i - 1].inodes.len(),
        entry::height_of(log[i - 1], x) <= j,
    ensures
        near_fault(found, log[i - 1], j, level, x) is None,
        copies(near(found, log[i - 1], j, level, x), log),
        forall|k: nat| #[trigger]
            lists(near(found, log[i - 1], j, level, x), k) <==> k < i && nodes::covers(
                i,
                j as nat,
                k,
            ) && !nodes::covers(i, entry::height_of(log[i - 1], x), k) && distance::distance(
                i,
                j as nat,
                k,
            ) <= level,
    decreases level, log[i - 1].inodes.len() - x,
{
    let e = log[i - 1];
    let done = entry::height_of(e, x);
    let all = near(found, e, j, level, x);
    ledger::lemma_genuine_shaped(log, i - 1);
    ledger::lemma_genuine_entry(log, i - 1);
    ledger::lemma_shaped(e);
    nodes::lemma_leaf(i);
    nodes::lemma_span(i, j as nat);
    if x > 0 {
        assert(ledger::step_of(e, x - 1));
    }
    if level == 0 {
        assert forall|k: nat| k < i && nodes::covers(i, j as nat, k) implies distance::distance(
            i,
            j as nat,
            k,
        ) > 0 by {
            distance::lemma_distance_positive(i, j as nat, k);
        }
    } else if x >= e.inodes.len() || e.inodes[x as int].meta.address.j > j {
        lemma_done(e, x, j as nat);
        assert(done == j);
    } else {
        assert(ledger::step_of(e, x as int));
        let h = e.inodes[x as int].meta.address.j as nat;
        nodes::lemma_children(i, h);
        let left = e.inodes[x as int].left;
        let l = left.i as nat;
        assert(e.inodes[x as int] == ledger::inode_of(
            ledger::payloads(log),
            ledger::positions(log),
            model::spine(i, model::height(i))[x as int],
        ));
        assert(log[l - 1].meta.address.position == left.position);
        let next = log[l - 1];
        ledger::lemma_genuine_shaped(log, l - 1);
        nodes::lemma_leaf(l);
        let low = (level - 1) as nat;
        lemma_near(log, found, l, left.j, low, 0);
        lemma_near(log, found, i, j, level, x + 1);
        let one = near(found, next, left.j, low, 0);
        let two = near(found, e, j, level, x + 1);
        assert(all == one.push(next) + two);
        assert(copies(all, log)) by {
            assert forall|y: int| 0 <= y < all.len() implies {
                let at = (#[trigger] all[y]).meta.address.i;
                1 <= at <= log.len() && all[y] == log[at - 1]
            } by {
                if y < one.len() {
                    assert(all[y] == one[y]);
                } else if y == one.len() {
                    assert(all[y] == next);
                } else {
                    assert(all[y] == two[y - one.len() - 1]);
                }
            }
        }
        assert forall|k: nat| #[trigger] lists(all, k) <==> k < i && nodes::covers(i, j as nat, k)
            && !nodes::covers(i, done, k) && distance::distance(i, j as nat, k) <= level by {
            assert(entry::height_of(next, 0) == 0);
            assert(entry::height_of(e, x + 1) == h);
            assert(lists(one, k) <==> lists(near(found, log[l - 1], left.j, low, 0), k));
            assert(lists(two, k) <==> lists(near(found, log[i - 1], j, level, x + 1), k));
            lemma_near_step(i, j as nat, h, level, one, next, two, k);
        }
    }
}

/// The left child of a node brings what the node covers and its right child does not.
proof fn lemma_near_step(
    i: nat,
    j: nat,
    h: nat,
    level: nat,
    one: Seq<EntryModel>,
    next: EntryModel,
    two: Seq<EntryModel>,
    k: nat,
)
    requires
        nodes::valid(i, j),
        nodes::valid(i, h),
        1 <= h <= j,
        level > 0,
        next.meta.address.i == nodes::left_i(i, h),
        lists(one, k) <==> k < nodes::left_i(i, h) && nodes::covers(
            nodes::left_i(i, h),
            (h - 1) as nat,
            k,
        ) && !nodes::covers(nodes::left_i(i, h), 0, k) && distance::distance(
            nodes::left_i(i, h),
            (h - 1) as nat,
            k,
        ) <= level - 1,
        lists(two, k) <==> k < i && nodes::covers(i, j, k) && !nodes::covers(i, h, k)
            && distance::distance(i, j, k) <= level,
    ensures
        lists(one.push(next) + two, k) <==> k < i && nodes::covers(i, j, k) && !nodes::covers(
            i,
            nodes::right_j(i, h),
            k,
        ) && distance::distance(i, j, k) <= level,
{
    let l = nodes::left_i(i, h);
    lemma_lists_add(one.push(next), two, k);
    lemma_lists_push(one, next, k);
    nodes::lemma_children(i, h);
    nodes::lemma_leaf(l);
    distance::lemma_distance_zero(l, (h - 1) as nat);
    nodes::lemma_span(l, (h - 1) as nat);
    if nodes::covers(i, h, k) {
        lemma_same_distance(i, j, h, k);
    }
}

/// The nodes of an entry up to a height end with the one of that height.
proof fn lemma_done(e: EntryModel, x: nat, j: nat)
    requires
        ledger::shaped(e),
        nodes::valid(e.meta.address.i as nat, j),
        x <= e.inodes.len(),
        x < e.inodes.len() ==> e.inodes[x as int].meta.address.j > j,
        x > 0 ==> e.inodes[x - 1].meta.address.j <= j,
    ensures
        x == 0 ==> j == 0,
        x > 0 ==> e.inodes[x - 1].meta.address.j == j,
{
    let i = e.meta.address.i as nat;
    let h = model::height(i);
    ledger::lemma_shaped(e);
    if j > 0 {
        nodes::lemma_valid(i, j);
        ledger::lemma_on_spine(i, h, j);
        let y = choose|y: int|
            0 <= y < model::spine(i, h).len() && (#[trigger] model::spine(i, h)[y]).node.j == j;
        assert(ledger::matches(e.inodes[y], model::spine(i, h)[y]));
        if y >= x {
            if y > x {
                assert(e.inodes[x as int].meta.address.j < e.inodes[y].meta.address.j);
            }
        } else if y < x - 1 {
            assert(e.inodes[y].meta.address.j < e.inodes[x - 1].meta.address.j);
        }
    } else if x > 0 {
        assert(ledger::step_of(e, x - 1));
    }
}

} // verus!
