//! Stratum samples: a leaf with the hash values of the nodes that branch off the path to it.
use crate::distance;
use crate::error::{Error, Result};
use crate::formula;
use crate::formula::{contains, root_of, subnodes_of, Index};
use crate::hash;
use crate::model;
use crate::nodes;
use crate::text;
use crate::tree;
use crate::value::Value;
use vstd::prelude::*;

verus! {

/// Whether a node comes before another in a list of nodes: it has the greater index, or the same
/// index and the greater height.
pub open spec fn above(a: (Index, u8), b: (Index, u8)) -> bool {
    a.0 > b.0 || (a.0 == b.0 && a.1 > b.1)
}

/// Whether a node comes before another in a list of nodes.
fn is_above(a: (Index, u8), b: (Index, u8)) -> (r: bool)
    ensures
        r == above(a, b),
{
    a.0 > b.0 || (a.0 == b.0 && a.1 > b.1)
}

/// Whether the nodes of the list descend, and none occurs twice.
pub open spec fn descending(list: Seq<((Index, u8), crate::Hash)>) -> bool {
    forall|x: int, y: int|
        0 <= x < y < list.len() ==> above((#[trigger] list[x]).0, (#[trigger] list[y]).0)
}

/// Whether the node is in the list.
pub open spec fn listed(list: Seq<((Index, u8), crate::Hash)>, key: (Index, u8)) -> bool {
    exists|x: int| 0 <= x < list.len() && (#[trigger] list[x]).0 == key
}

/// The hash value of a node in the list.
pub open spec fn lookup(list: Seq<((Index, u8), crate::Hash)>, key: (Index, u8)) -> Seq<u8> {
    list[choose|x: int| 0 <= x < list.len() && (#[trigger] list[x]).0 == key].1@
}

proof fn lemma_lookup(list: Seq<((Index, u8), crate::Hash)>, x: int)
    requires
        descending(list),
        0 <= x < list.len(),
    ensures
        listed(list, list[x].0),
        lookup(list, list[x].0) == list[x].1@,
{
    let key = list[x].0;
    let y = choose|y: int| 0 <= y < list.len() && (#[trigger] list[y]).0 == key;
    assert(list[x].0 == key);
    if x < y {
        assert(above(list[x].0, list[y].0));
    } else if y < x {
        assert(above(list[y].0, list[x].0));
    }
}

/// Nodes with their hash values.
#[derive(PartialEq, Eq, Debug)]
pub struct Witnesses {
    list: Vec<((Index, u8), crate::Hash)>,
}

impl View for Witnesses {
    type V = Map<(Index, u8), Seq<u8>>;

    closed spec fn view(&self) -> Map<(Index, u8), Seq<u8>> {
        Map::new(|key: (Index, u8)| listed(self.list@, key), |key: (Index, u8)| lookup(self.list@, key))
    }
}

impl Clone for Witnesses {
    fn clone(&self) -> (r: Self)
        ensures
            r@ == self@,
            r.keys() == self.keys(),
    {
        proof {
            use_type_invariant(self);
        }
        let mut list: Vec<((Index, u8), crate::Hash)> = Vec::with_capacity(self.list.len());
        let mut k: usize = 0;
        while k < self.list.len()
            invariant
                k <= self.list@.len(),
                list@ == self.list@.take(k as int),
            decreases self.list@.len() - k,
        {
            list.push(self.list[k]);
            proof {
                assert(list@ =~= self.list@.take(k + 1));
            }
            k = k + 1;
        }
        proof {
            assert(list@ =~= self.list@);
        }
        Witnesses { list }
    }
}

impl Witnesses {
    #[verifier::type_invariant]
    spec fn wf(&self) -> bool {
        descending(self.list@)
    }

    /// The nodes, from the last to the first.
    pub closed spec fn keys(&self) -> Seq<(Index, u8)> {
        self.list@.map_values(|e: ((Index, u8), crate::Hash)| e.0)
    }

    /// No nodes.
    pub fn new() -> (r: Self)
        ensures
            r@ == Map::<(Index, u8), Seq<u8>>::empty(),
    {
        let r = Witnesses { list: Vec::new() };
        proof {
            assert(r@ =~= Map::<(Index, u8), Seq<u8>>::empty());
        }
        r
    }

    /// The place where the node is, or where it would be.
    fn find(&self, key: (Index, u8)) -> (r: usize)
        ensures
            r <= self.list@.len(),
            forall|x: int| 0 <= x < r ==> above((#[trigger] self.list@[x]).0, key),
            forall|x: int| r <= x < self.list@.len() ==> !above((#[trigger] self.list@[x]).0, key),
            listed(self.list@, key) <==> r < self.list@.len() && self.list@[r as int].0 == key,
            listed(self.list@, key) ==> self@.contains_key(key) && self@[key]
                == self.list@[r as int].1@,
            !listed(self.list@, key) ==> !self@.contains_key(key),
    {
        proof {
            use_type_invariant(self);
        }
        let mut k: usize = 0;
        while k < self.list.len() && is_above(self.list[k].0, key)
            invariant
                k <= self.list@.len(),
                forall|x: int| 0 <= x < k ==> above((#[trigger] self.list@[x]).0, key),
            decreases self.list@.len() - k,
        {
            k = k + 1;
        }
        proof {
            assert forall|x: int| k <= x < self.list@.len() implies !above(
                (#[trigger] self.list@[x]).0,
                key,
            ) by {
                if x > k {
                    assert(above(self.list@[k as int].0, self.list@[x].0));
                }
            }
            if listed(self.list@, key) {
                let x = choose|x: int|
                    0 <= x < self.list@.len() && (#[trigger] self.list@[x]).0 == key;
                assert(x >= k);
                if x > k {
                    assert(above(self.list@[k as int].0, self.list@[x].0));
                }
                lemma_lookup(self.list@, k as int);
            }
        }
        k
    }

    /// Sets the hash value of a node.
    pub fn insert(&mut self, key: (Index, u8), hash: crate::Hash)
        ensures
            final(self)@ == old(self)@.insert(key, hash@),
    {
        proof {
            use_type_invariant(&*self);
        }
        let ghost before = self.list@;
        let ghost old_view = self@;
        let k: usize = self.find(key);
        let mut list: Vec<((Index, u8), crate::Hash)> = Vec::with_capacity(self.list.len());
        let mut x: usize = 0;
        while x < k
            invariant
                x <= k,
                k <= self.list@.len(),
                before == self.list@,
                list@ == before.take(x as int),
            decreases k - x,
        {
            list.push(self.list[x]);
            proof {
                assert(list@ =~= before.take(x + 1));
            }
            x = x + 1;
        }
        list.push((key, hash));
        if k < self.list.len() && self.list[k].0.0 == key.0 && self.list[k].0.1 == key.1 {
            x = x + 1;
        }
        let ghost rest = x as int;
        while x < self.list.len()
            invariant
                0 <= rest <= x <= self.list@.len(),
                before == self.list@,
                k <= before.len(),
                list@ == before.take(k as int).push((key, hash)) + before.subrange(rest, x as int),
            decreases self.list@.len() - x,
        {
            list.push(self.list[x]);
            proof {
                assert(list@ =~= before.take(k as int).push((key, hash)) + before.subrange(
                    rest,
                    x + 1,
                ));
            }
            x = x + 1;
        }
        proof {
            lemma_spliced(before, list@, key, hash, k as int, rest);
        }
        self.list = list;
        proof {
            assert(self@ =~= old_view.insert(key, hash@)) by {
                assert forall|other: (Index, u8)| listed(list@, other) implies self@[other]
                    == old_view.insert(key, hash@)[other] by {
                }
            }
        }
    }

    /// The hash value of a node, if it is one of these.
    pub fn get(&self, i: Index, j: u8) -> (r: Option<&crate::Hash>)
        ensures
            r is Some <==> self@.contains_key((i, j)),
            r matches Some(hash) ==> hash@ == self@[(i, j)],
    {
        let k: usize = self.find((i, j));
        if k < self.list.len() && self.list[k].0.0 == i && self.list[k].0.1 == j {
            Some(&self.list[k].1)
        } else {
            None
        }
    }

    /// The number of nodes.
    pub fn len(&self) -> (r: usize)
        ensures
            r == self@.len(),
            r == self.keys().len(),
            self@.dom().finite(),
            self.keys().no_duplicates(),
            self.keys().to_set() == self@.dom(),
            forall|x: int, y: int|
                0 <= x < y < self.keys().len() ==> above(
                    #[trigger] self.keys()[x],
                    #[trigger] self.keys()[y],
                ),
    {
        proof {
            use_type_invariant(self);
            self.lemma_keys();
        }
        self.list.len()
    }

    /// The `k`-th node from the last, with its hash value.
    pub fn at(&self, k: usize) -> (r: ((Index, u8), crate::Hash))
        requires
            k < self.keys().len(),
        ensures
            r.0 == self.keys()[k as int],
            self@.contains_key(r.0),
            self@[r.0] == r.1@,
    {
        proof {
            use_type_invariant(self);
            lemma_lookup(self.list@, k as int);
        }
        self.list[k]
    }

    /// The nodes are listed once each.
    proof fn lemma_keys(&self)
        requires
            self.wf(),
        ensures
            self.keys().no_duplicates(),
            self.keys().to_set() == self@.dom(),
            self@.dom().finite(),
            self@.len() == self.keys().len(),
    {
        let keys = self.keys();
        assert(keys.no_duplicates()) by {
            assert forall|x: int, y: int| 0 <= x < keys.len() && 0 <= y < keys.len() && x
                != y implies keys[x] != keys[y] by {
                if x < y {
                    assert(above(self.list@[x].0, self.list@[y].0));
                } else {
                    assert(above(self.list@[y].0, self.list@[x].0));
                }
            }
        }
        assert(keys.to_set() =~= self@.dom()) by {
            assert forall|key: (Index, u8)| keys.to_set().contains(key) <==> listed(
                self.list@,
                key,
            ) by {
                if keys.to_set().contains(key) {
                    let x = choose|x: int| 0 <= x < keys.len() && keys[x] == key;
                    assert(self.list@[x].0 == key);
                }
                if listed(self.list@, key) {
                    let x = choose|x: int|
                        0 <= x < self.list@.len() && (#[trigger] self.list@[x]).0 == key;
                    assert(keys[x] == key);
                }
            }
        }
        keys.unique_seq_to_set();
    }
}

/// A list with a node put in at its place.
proof fn lemma_spliced(
    before: Seq<((Index, u8), crate::Hash)>,
    after: Seq<((Index, u8), crate::Hash)>,
    key: (Index, u8),
    hash: crate::Hash,
    k: int,
    rest: int,
)
    requires
        descending(before),
        0 <= k <= before.len(),
        rest == k || rest == k + 1,
        rest <= before.len(),
        forall|x: int| 0 <= x < k ==> above((#[trigger] before[x]).0, key),
        rest == k ==> forall|x: int|
            k <= x < before.len() ==> !above((#[trigger] before[x]).0, key) && before[x].0 != key,
        rest == k + 1 ==> before[k].0 == key,
        after == before.take(k).push((key, hash)) + before.subrange(rest, before.len() as int),
    ensures
        descending(after),
        forall|other: (Index, u8)| #[trigger]
            listed(after, other) <==> listed(before, other) || other == key,
        forall|other: (Index, u8)|
            listed(after, other) ==> #[trigger] lookup(after, other) == (if other == key {
                hash@
            } else {
                lookup(before, other)
            }),
{
    assert forall|x: int, y: int| 0 <= x < y < after.len() implies above(
        (#[trigger] after[x]).0,
        (#[trigger] after[y]).0,
    ) by {
        if y < k {
            assert(above(before[x].0, before[y].0));
        } else if x < k && y > k {
            assert(above(before[x].0, before[y - 1 - k + rest].0));
        } else if x == k {
            let z = y - 1 - k + rest;
            assert(after[y] == before[z]);
            if rest == k + 1 {
                assert(above(before[k].0, before[z].0));
            }
        } else if x > k {
            assert(above(before[x - 1 - k + rest].0, before[y - 1 - k + rest].0));
        }
    }
    assert(after[k].0 == key);
    assert forall|other: (Index, u8)| #[trigger] listed(after, other) <==> listed(before, other)
        || other == key by {
        if listed(before, other) && other != key {
            let x = choose|x: int| 0 <= x < before.len() && (#[trigger] before[x]).0 == other;
            if x < k {
                assert(after[x].0 == other);
            } else {
                assert(after[x + 1 + k - rest].0 == other);
            }
        }
        if listed(after, other) && other != key {
            let x = choose|x: int| 0 <= x < after.len() && (#[trigger] after[x]).0 == other;
            if x < k {
                assert(before[x].0 == other);
            } else {
                assert(before[x - 1 - k + rest].0 == other);
            }
        }
    }
    assert forall|other: (Index, u8)| listed(after, other) implies #[trigger] lookup(after, other)
        == (if other == key {
        hash@
    } else {
        lookup(before, other)
    }) by {
        let x = choose|x: int| 0 <= x < after.len() && (#[trigger] after[x]).0 == other;
        lemma_lookup(after, x);
        if other != key {
            let z = if x < k {
                x
            } else {
                x - 1 - k + rest
            };
            assert(before[z] == after[x]);
            lemma_lookup(before, z);
        } else {
            lemma_lookup(after, k);
        }
    }
}

/// The witnesses for the leaf `k` below the node `b_{i,j}`: the nodes that branch off the path,
/// with their hash values.
pub open spec fn stratum(values: Seq<Seq<u8>>, i: nat, j: nat, k: nat) -> Map<
    (Index, u8),
    Seq<u8>,
>
    decreases j,
{
    if j == 0 || nodes::right_j(i, j) >= j {
        Map::empty()
    } else {
        let l = nodes::left_i(i, j);
        let h = (j - 1) as nat;
        let g = nodes::right_j(i, j);
        if k <= l {
            stratum(values, l, h, k).insert((i as u64, g as u8), tree::node_hash(values, i, g))
        } else {
            stratum(values, i, g, k).insert((l as u64, h as u8), tree::node_hash(values, l, h))
        }
    }
}

/// The witnesses for a leaf below a node are nodes below it too, and there are as many as nodes
/// branch off the path.
pub proof fn lemma_stratum_keys(values: Seq<Seq<u8>>, i: nat, j: nat, k: nat)
    requires
        nodes::valid(i, j),
        i <= u64::MAX,
    ensures
        forall|key: (Index, u8)| #[trigger]
            stratum(values, i, j, k).contains_key(key) ==> nodes::first(i, j) <= key.0 <= i,
        stratum(values, i, j, k).dom().finite(),
        stratum(values, i, j, k).len() == distance::depth(i, j, k),
    decreases j,
{
    formula::lemma_height(i as u64, j);
    if j > 0 {
        nodes::lemma_children(i, j);
        nodes::lemma_span(i, j);
        let l = nodes::left_i(i, j);
        let h = (j - 1) as nat;
        let g = nodes::right_j(i, j);
        nodes::lemma_span(l, h);
        lemma_stratum_keys(values, l, h, k);
        lemma_stratum_keys(values, i, g, k);
    }
}

/// What is said where the path ends at a leaf other than the one that the sample holds.
pub open spec fn wrong_leaf(i: nat, leaf: Index) -> Seq<char> {
    "The sample structure is incorrect: This path is for b_"@ + text::decimal_of(i) + ", but b_"@
        + text::decimal_of(leaf as nat) + " is stored"@
}

/// What is said where the leaf is not in the tree.
pub open spec fn no_leaf(leaf: Index) -> Seq<char> {
    "The stratum sample structure is incorrect: The leaf node b_"@ + text::decimal_of(leaf as nat)
        + " is not contained"@
}

/// What is said where a witness is missing.
pub open spec fn no_witness(i: nat, j: nat) -> Seq<char> {
    "The stratum sample structure is incorrect: The witness b_{"@ + text::decimal_of(i) + ","@
        + text::decimal_of(j) + "} is missing"@
}

/// What is said where the samples are from different generations.
pub open spec fn other_revision(one: Index, two: Index) -> Seq<char> {
    "The revisions being compared are different: "@ + text::decimal_of(one as nat) + " != "@
        + text::decimal_of(two as nat)
}

/// What is said where the samples are of different leaves.
pub open spec fn other_leaf(one: Index, two: Index, revision: Index) -> Seq<char> {
    "The different stratum sample between "@ + text::decimal_of(one as nat) + " and "@
        + text::decimal_of(two as nat) + " in revisions "@ + text::decimal_of(revision as nat)
        + " cannot be compared"@
}

/// The first node of the list that is not among the witnesses.
pub open spec fn first_missing(
    keys: Seq<(Index, u8)>,
    witnesses: Map<(Index, u8), Seq<u8>>,
) -> (Index, u8)
    decreases keys.len(),
{
    if keys.len() == 0 || !witnesses.contains_key(keys[0]) {
        keys[0]
    } else {
        first_missing(keys.drop_first(), witnesses)
    }
}

/// The hash value of the node `b_{i,j}` that comes of a leaf and of witnesses, or what is wrong
/// with them.
pub open spec fn computed(
    leaf: Index,
    value: Seq<u8>,
    witnesses: Map<(Index, u8), Seq<u8>>,
    i: nat,
    j: nat,
) -> std::result::Result<Seq<u8>, Seq<char>>
    decreases j,
{
    if j == 0 || nodes::right_j(i, j) >= j {
        if leaf == i {
            Ok(hash::digest(0, value))
        } else {
            Err(wrong_leaf(i, leaf))
        }
    } else {
        let l = nodes::left_i(i, j);
        let h = (j - 1) as nat;
        let g = nodes::right_j(i, j);
        if nodes::covers(l, h, leaf as nat) {
            match computed(leaf, value, witnesses, l, h) {
                Err(message) => Err(message),
                Ok(left) => if witnesses.contains_key((i as u64, g as u8)) {
                    Ok(hash::digest(j as u8, left + witnesses[(i as u64, g as u8)]))
                } else {
                    Err(no_witness(i, g))
                },
            }
        } else if nodes::covers(i, g, leaf as nat) {
            match computed(leaf, value, witnesses, i, g) {
                Err(message) => Err(message),
                Ok(right) => if witnesses.contains_key((l as u64, h as u8)) {
                    Ok(hash::digest(j as u8, witnesses[(l as u64, h as u8)] + right))
                } else {
                    Err(no_witness(l, h))
                },
            }
        } else {
            Err(no_leaf(leaf))
        }
    }
}

/// What comes of comparing two samples.
#[derive(Debug, PartialEq, Eq)]
pub enum Prove {
    /// The trees are the same.
    Identical,
    /// The nodes below which the trees differ, from the last to the first.
    Divergent(Vec<(Index, u8)>),
}

impl Clone for Prove {
    fn clone(&self) -> (r: Self)
        ensures
            self is Identical <==> r is Identical,
            self matches Prove::Divergent(list) ==> r->Divergent_0@ == list@,
    {
        match self {
            Prove::Identical => Prove::Identical,
            Prove::Divergent(list) => {
                let copy: Vec<(Index, u8)> = vstd::slice::slice_to_vec(list.as_slice());
                Prove::Divergent(copy)
            },
        }
    }
}

/// The stratum sample of a leaf in a generation of the tree: the path of authentication to it.
#[derive(Debug, PartialEq, Eq)]
pub struct StratumSample {
    pub revision: Index,
    pub leaf: Value,
    pub witnesses: Witnesses,
}

impl Clone for StratumSample {
    fn clone(&self) -> (r: Self)
        ensures
            r.revision == self.revision,
            r.leaf.i == self.leaf.i,
            r.leaf.value@ == self.leaf.value@,
            r.witnesses@ == self.witnesses@,
            r.witnesses.keys() == self.witnesses.keys(),
    {
        StratumSample {
            revision: self.revision,
            leaf: self.leaf.clone(),
            witnesses: self.witnesses.clone(),
        }
    }
}

/// The node at its place in a descending list.
pub open spec fn insert_descending(list: Seq<(Index, u8)>, key: (Index, u8)) -> Seq<(Index, u8)>
    decreases list.len(),
{
    if list.len() == 0 {
        seq![key]
    } else if above(list[0], key) {
        seq![list[0]] + insert_descending(list.drop_first(), key)
    } else {
        seq![key] + list
    }
}

impl StratumSample {
    pub(crate) fn new(revision: Index, leaf: Value, witnesses: Witnesses) -> (r: Self)
        ensures
            r == (StratumSample { revision, leaf, witnesses }),
            r.witnesses.keys().no_duplicates(),
            r.witnesses.keys().to_set() == r.witnesses@.dom(),
    {
        proof {
            use_type_invariant(&witnesses);
            witnesses.lemma_keys();
        }
        StratumSample { revision, leaf, witnesses }
    }

    /// The root hash that comes of the sample, or what is wrong with it.
    pub open spec fn root(&self) -> std::result::Result<Seq<u8>, Seq<char>> {
        if self.revision == 0 {
            Err(no_leaf(self.leaf.i))
        } else {
            computed(
                self.leaf.i,
                self.leaf.value@,
                self.witnesses@,
                self.revision as nat,
                model::height(self.revision as nat),
            )
        }
    }

    /// The nodes whose witnesses in the other sample are others, from the last to the first.
    pub open spec fn differing(&self, other: &StratumSample) -> Seq<(Index, u8)> {
        self.witnesses.keys().filter(
            |key: (Index, u8)| self.witnesses@[key] != other.witnesses@[key],
        )
    }

    /// The nodes below which the trees of the two samples differ, from the last to the first.
    pub open spec fn divergents(&self, other: &StratumSample) -> Seq<(Index, u8)> {
        if hash::digest(0, self.leaf.value@) != hash::digest(0, other.leaf.value@) {
            insert_descending(self.differing(other), (self.leaf.i, 0))
        } else {
            self.differing(other)
        }
    }

    /// The root hash that comes of the sample. It is an error where the structure of the sample is
    /// not valid.
    pub fn root_hash(&self) -> (r: Result<crate::Hash>)
        ensures
            match self.root() {
                Ok(root) => r is Ok && r->Ok_0@ == root,
                Err(message) => r matches Err(Error::SampleVerificationFailed(text)) && text@
                    == message,
            },
    {
        if self.revision == 0 {
            return Err(Error::SampleVerificationFailed(no_leaf_text(self.leaf.i)));
        }
        let (i, j) = root_of(self.revision);
        self.compute_hash(i, j)
    }

    fn compute_hash(&self, i: Index, j: u8) -> (r: Result<crate::Hash>)
        requires
            nodes::valid(i as nat, j as nat),
        ensures
            match computed(
                self.leaf.i,
                self.leaf.value@,
                self.witnesses@,
                i as nat,
                j as nat,
            ) {
                Ok(root) => r is Ok && r->Ok_0@ == root,
                Err(message) => r matches Err(Error::SampleVerificationFailed(text)) && text@
                    == message,
            },
        decreases j,
    {
        if j == 0 {
            if self.leaf.i == i {
                Ok(self.leaf.hash())
            } else {
                let mut message = String::new();
                text::push_text(
                    &mut message,
                    "The sample structure is incorrect: This path is for b_",
                );
                text::push_decimal(&mut message, i);
                text::push_text(&mut message, ", but b_");
                text::push_decimal(&mut message, self.leaf.i);
                text::push_text(&mut message, " is stored");
                proof {
                    assert(message@ =~= wrong_leaf(i as nat, self.leaf.i));
                }
                Err(Error::SampleVerificationFailed(message))
            }
        } else {
            let ((il, jl), (ir, jr)) = subnodes_of(i, j);
            proof {
                nodes::lemma_children(i as nat, j as nat);
                formula::lemma_height(i, j as nat);
            }
            if contains(il, jl, self.leaf.i) {
                let left: crate::Hash = self.compute_hash(il, jl)?;
                match self.witnesses.get(ir, jr) {
                    Some(right) => Ok(left.combine(j, right)),
                    None => Err(Error::SampleVerificationFailed(no_witness_text(ir, jr))),
                }
            } else if contains(ir, jr, self.leaf.i) {
                let right: crate::Hash = self.compute_hash(ir, jr)?;
                match self.witnesses.get(il, jl) {
                    Some(left) => Ok(left.combine(j, &right)),
                    None => Err(Error::SampleVerificationFailed(no_witness_text(il, jl))),
                }
            } else {
                Err(Error::SampleVerificationFailed(no_leaf_text(self.leaf.i)))
            }
        }
    }

    /// Compares two samples and tells whether the trees that they are from are the same, or else
    /// the nodes below which they differ.
    ///
    /// With this the leaves in which two trees differ can be narrowed down: from a sample of any
    /// leaf to one below a node that differs, and so on to the leaf itself.
    pub fn compare(&self, other: &StratumSample) -> (r: Result<Prove>)
        ensures
            r is Ok <==> self.revision == other.revision && self.leaf.i == other.leaf.i
                && self.root() is Ok && other.root() is Ok && (self.root() == other.root()
                || self.witnesses@.dom().subset_of(other.witnesses@.dom())),
            r matches Ok(prove) ==> {
                &&& prove is Identical <==> self.root() == other.root()
                &&& prove matches Prove::Divergent(list) ==> list@ == self.divergents(other)
            },
            r matches Err(error) ==> error is SampleVerificationFailed && (
            error->SampleVerificationFailed_0)@ == (if self.revision != other.revision {
                other_revision(self.revision, other.revision)
            } else if self.leaf.i != other.leaf.i {
                other_leaf(self.leaf.i, other.leaf.i, self.revision)
            } else if self.root() is Err {
                self.root()->Err_0
            } else if other.root() is Err {
                other.root()->Err_0
            } else {
                let missing = first_missing(self.witnesses.keys(), other.witnesses@);
                no_witness(missing.0 as nat, missing.1 as nat)
            }),
    {
        if self.revision != other.revision {
            let mut message = String::new();
            text::push_text(&mut message, "The revisions being compared are different: ");
            text::push_decimal(&mut message, self.revision);
            text::push_text(&mut message, " != ");
            text::push_decimal(&mut message, other.revision);
            proof {
                assert(message@ =~= other_revision(self.revision, other.revision));
            }
            return Err(Error::SampleVerificationFailed(message));
        } else if self.leaf.i != other.leaf.i {
            let mut message = String::new();
            text::push_text(&mut message, "The different stratum sample between ");
            text::push_decimal(&mut message, self.leaf.i);
            text::push_text(&mut message, " and ");
            text::push_decimal(&mut message, other.leaf.i);
            text::push_text(&mut message, " in revisions ");
            text::push_decimal(&mut message, self.revision);
            text::push_text(&mut message, " cannot be compared");
            proof {
                assert(message@ =~= other_leaf(self.leaf.i, other.leaf.i, self.revision));
            }
            return Err(Error::SampleVerificationFailed(message));
        }
        let one: crate::Hash = self.root_hash()?;
        let two: crate::Hash = other.root_hash()?;
        proof {
            hash::lemma_same_bytes(one, two);
        }
        if one == two {
            return Ok(Prove::Identical);
        }
        let count: usize = self.witnesses.len();
        let ghost keys = self.witnesses.keys();
        let ghost differs = |key: (Index, u8)| self.witnesses@[key] != other.witnesses@[key];
        let mut list: Vec<(Index, u8)> = Vec::with_capacity(count);
        let mut k: usize = 0;
        proof {
            assert(keys.take(0).filter(differs) =~= seq![]) by {
                reveal(Seq::filter);
            }
            assert(keys.skip(0) =~= keys);
        }
        while k < count
            invariant
                k <= count,
                count == keys.len(),
                keys == self.witnesses.keys(),
                keys.to_set() == self.witnesses@.dom(),
                differs == (|key: (Index, u8)| self.witnesses@[key] != other.witnesses@[key]),
                list@ == keys.take(k as int).filter(differs),
                forall|x: int| 0 <= x < k ==> other.witnesses@.contains_key(#[trigger] keys[x]),
                first_missing(keys, other.witnesses@) == first_missing(
                    keys.skip(k as int),
                    other.witnesses@,
                ),
                self.revision == other.revision,
                self.leaf.i == other.leaf.i,
                self.root() is Ok,
                other.root() is Ok,
                self.root() != other.root(),
            decreases count - k,
        {
            let (key, h1) = self.witnesses.at(k);
            proof {
                assert(keys.skip(k as int)[0] == key);
                assert(keys.skip(k as int).drop_first() =~= keys.skip(k + 1));
            }
            match other.witnesses.get(key.0, key.1) {
                Some(h2) => {
                    proof {
                        hash::lemma_same_bytes(h1, *h2);
                        lemma_filter_push(keys, differs, k as int);
                    }
                    if h1 != *h2 {
                        list.push(key);
                    }
                },
                None => {
                    proof {
                        assert(self.witnesses@.dom().contains(key));
                        assert(!other.witnesses@.dom().contains(key));
                    }
                    return Err(Error::SampleVerificationFailed(no_witness_text(key.0, key.1)));
                },
            }
            k = k + 1;
        }
        proof {
            assert(keys.take(k as int) =~= keys);
            assert(self.witnesses@.dom().subset_of(other.witnesses@.dom())) by {
                assert forall|key: (Index, u8)| self.witnesses@.dom().contains(
                    key,
                ) implies other.witnesses@.dom().contains(key) by {
                    assert(keys.to_set().contains(key));
                    let x = choose|x: int| 0 <= x < keys.len() && keys[x] == key;
                    assert(other.witnesses@.contains_key(keys[x]));
                }
            }
        }
        let leaf_one: crate::Hash = self.leaf.hash();
        let leaf_two: crate::Hash = other.leaf.hash();
        proof {
            hash::lemma_same_bytes(leaf_one, leaf_two);
        }
        if leaf_one != leaf_two {
            let key: (Index, u8) = (self.leaf.i, 0);
            let mut p: usize = 0;
            while p < list.len() && is_above(list[p], key)
                invariant
                    p <= list@.len(),
                    forall|x: int| 0 <= x < p ==> above(#[trigger] list@[x], key),
                decreases list@.len() - p,
            {
                p = p + 1;
            }
            proof {
                lemma_insert_descending(list@, key, p as int);
            }
            list.insert(p, key);
        }
        Ok(Prove::Divergent(list))
    }
}

proof fn lemma_filter_push<A>(s: Seq<A>, f: spec_fn(A) -> bool, k: int)
    requires
        0 <= k < s.len(),
    ensures
        s.take(k + 1).filter(f) == (if f(s[k]) {
            s.take(k).filter(f).push(s[k])
        } else {
            s.take(k).filter(f)
        }),
{
    reveal(Seq::filter);
    let more = s.take(k + 1);
    assert(more.drop_last() =~= s.take(k));
    assert(more.last() == s[k]);
}

proof fn lemma_insert_descending(list: Seq<(Index, u8)>, key: (Index, u8), p: int)
    requires
        0 <= p <= list.len(),
        forall|x: int| 0 <= x < p ==> above(#[trigger] list[x], key),
        p < list.len() ==> !above(list[p], key),
    ensures
        insert_descending(list, key) == list.insert(p, key),
    decreases list.len(),
{
    if list.len() > 0 && above(list[0], key) {
        let rest = list.drop_first();
        assert forall|x: int| 0 <= x < p - 1 implies above(#[trigger] rest[x], key) by {
            assert(rest[x] == list[x + 1]);
        }
        lemma_insert_descending(rest, key, p - 1);
        assert(list.insert(p, key) =~= seq![list[0]] + rest.insert(p - 1, key));
    } else {
        assert(list.insert(p, key) =~= insert_descending(list, key));
    }
}

fn no_leaf_text(leaf: Index) -> (r: String)
    ensures
        r@ == no_leaf(leaf),
{
    let mut message = String::new();
    text::push_text(
        &mut message,
        "The stratum sample structure is incorrect: The leaf node b_",
    );
    text::push_decimal(&mut message, leaf);
    text::push_text(&mut message, " is not contained");
    proof {
        assert(message@ =~= no_leaf(leaf));
    }
    message
}

fn no_witness_text(i: Index, j: u8) -> (r: String)
    ensures
        r@ == no_witness(i as nat, j as nat),
{
    let mut message = String::new();
    text::push_text(
        &mut message,
        "The stratum sample structure is incorrect: The witness b_{",
    );
    text::push_decimal(&mut message, i);
    text::push_text(&mut message, ",");
    text::push_decimal(&mut message, j as u64);
    text::push_text(&mut message, "} is missing");
    proof {
        assert(message@ =~= no_witness(i as nat, j as nat));
    }
    message
}

/// What is said of samples that cannot be verified or compared: every number stands in its place.
pub proof fn law_messages(i: nat, j: nat, one: Index, two: Index, revision: Index)
    ensures
        wrong_leaf(i, one) == "The sample structure is incorrect: This path is for b_"@
            + text::decimal_of(i) + ", but b_"@ + text::decimal_of(one as nat) + " is stored"@,
        no_leaf(one) == "The stratum sample structure is incorrect: The leaf node b_"@
            + text::decimal_of(one as nat) + " is not contained"@,
        no_witness(i, j) == "The stratum sample structure is incorrect: The witness b_{"@
            + text::decimal_of(i) + ","@ + text::decimal_of(j) + "} is missing"@,
        other_revision(one, two) == "The revisions being compared are different: "@
            + text::decimal_of(one as nat) + " != "@ + text::decimal_of(two as nat),
        other_leaf(one, two, revision) == "The different stratum sample between "@
            + text::decimal_of(one as nat) + " and "@ + text::decimal_of(two as nat)
            + " in revisions "@ + text::decimal_of(revision as nat) + " cannot be compared"@,
{
}

/// One node comes before another in a list exactly if it has the greater index, or the same index and
/// the greater height.
pub proof fn law_above(a: (Index, u8), b: (Index, u8))
    ensures
        above(a, b) <==> a.0 > b.0 || (a.0 == b.0 && a.1 > b.1),
{
}

} // verus!
