//! What hash values prove.
//!
//! Two trees with the same root hash hold the same values, and a sample that leads to the root hash
//! of a tree is a sample of that tree: or else there are two different messages with the same hash
//! value. The laws name these messages.
use crate::formula;
use crate::formula::Index;
use crate::hash;
use crate::laws;
use crate::model;
use crate::nodes;
use crate::sample;
use crate::sample::StratumSample;
use crate::tree;
use crate::value;
use crate::value::{NodeModel, Value};
use vstd::prelude::*;

verus! {

/// Two messages, each with the height that is hashed in front of it.
pub struct Pair {
    pub one: (u8, Seq<u8>),
    pub two: (u8, Seq<u8>),
}

impl Pair {
    /// Whether the messages are different and have the same hash value.
    pub open spec fn collides(self) -> bool {
        self.one != self.two && hash::digest(self.one.0, self.one.1) == hash::digest(
            self.two.0,
            self.two.1,
        )
    }
}

/// Two different messages with the same hash value are two different inputs of BLAKE3 whose hashes
/// agree in the first 32 bytes.
pub proof fn law_collision(pair: Pair)
    requires
        pair.collides(),
    ensures
        seq![pair.one.0] + pair.one.1 != seq![pair.two.0] + pair.two.1,
        forall|x: int|
            0 <= x < 32 ==> #[trigger] hash::blake3_of(seq![pair.one.0] + pair.one.1)[x]
                == hash::blake3_of(seq![pair.two.0] + pair.two.1)[x],
{
    hash::law_digest_collision(pair.one.0, pair.one.1, pair.two.0, pair.two.1);
}

/// Where two hash values of 32 bytes each are put together, the whole determines them.
proof fn lemma_split(a: Seq<u8>, b: Seq<u8>, c: Seq<u8>, d: Seq<u8>)
    requires
        a + b == c + d,
        a.len() == c.len() || b.len() == d.len(),
    ensures
        a == c,
        b == d,
{
    let whole = a + b;
    assert(whole.len() == c.len() + d.len());
    assert(a =~= whole.take(a.len() as int));
    assert(c =~= (c + d).take(a.len() as int));
    assert(b =~= whole.skip(a.len() as int));
    assert(d =~= (c + d).skip(a.len() as int));
}

/// The messages to look at where two trees have the same hash value at the node `b_{i,j}` and
/// different values at the leaf `c` below it.
pub open spec fn node_pair(a: Seq<Seq<u8>>, b: Seq<Seq<u8>>, i: nat, j: nat, c: nat) -> Pair
    decreases j,
{
    if j == 0 || nodes::right_j(i, j) >= j {
        Pair { one: (0, a[i - 1]), two: (0, b[i - 1]) }
    } else {
        let l = nodes::left_i(i, j);
        let h = (j - 1) as nat;
        let g = nodes::right_j(i, j);
        let one = tree::node_hash(a, l, h) + tree::node_hash(a, i, g);
        let two = tree::node_hash(b, l, h) + tree::node_hash(b, i, g);
        if one != two {
            Pair { one: (j as u8, one), two: (j as u8, two) }
        } else if c <= l {
            node_pair(a, b, l, h, c)
        } else {
            node_pair(a, b, i, g, c)
        }
    }
}

/// A hash value binds the leaves below its node: where two trees have the same hash value at a
/// node, but different values at a leaf below it, two different messages have the same hash value.
pub proof fn law_hash_binds_leaves(a: Seq<Seq<u8>>, b: Seq<Seq<u8>>, i: nat, j: nat, c: nat)
    requires
        nodes::valid(i, j),
        i <= a.len(),
        i <= b.len(),
        nodes::covers(i, j, c),
        a[c - 1] != b[c - 1],
        tree::node_hash(a, i, j) == tree::node_hash(b, i, j),
    ensures
        node_pair(a, b, i, j, c).collides(),
    decreases j,
{
    if j == 0 {
        nodes::lemma_leaf(i);
    } else {
        nodes::lemma_children(i, j);
        let l = nodes::left_i(i, j);
        let h = (j - 1) as nat;
        let g = nodes::right_j(i, j);
        let one = tree::node_hash(a, l, h) + tree::node_hash(a, i, g);
        let two = tree::node_hash(b, l, h) + tree::node_hash(b, i, g);
        if one == two {
            tree::lemma_hash_len(a, l, h);
            tree::lemma_hash_len(b, l, h);
            lemma_split(
                tree::node_hash(a, l, h),
                tree::node_hash(a, i, g),
                tree::node_hash(b, l, h),
                tree::node_hash(b, i, g),
            );
            if c <= l {
                law_hash_binds_leaves(a, b, l, h, c);
            } else {
                law_hash_binds_leaves(a, b, i, g, c);
            }
        }
    }
}

/// Two trees of the same size with the same root hash hold the same value at every index, or two
/// different messages have the same hash value.
pub proof fn law_root_binds_values(a: Seq<Seq<u8>>, b: Seq<Seq<u8>>, c: nat)
    requires
        a.len() == b.len(),
        1 <= c <= a.len(),
        tree::root_hash(a) == tree::root_hash(b),
    ensures
        a[c - 1] == b[c - 1] || node_pair(a, b, a.len(), model::height(a.len()), c).collides(),
{
    let n = a.len();
    nodes::lemma_valid(n, model::height(n));
    if a[c - 1] != b[c - 1] {
        law_hash_binds_leaves(a, b, n, model::height(n), c);
    }
}

/// The witnesses of a leaf lead from the leaf to the hash value of the node above, whatever
/// further witnesses there are.
pub proof fn law_sample_leads_to_root(
    values: Seq<Seq<u8>>,
    i: nat,
    j: nat,
    k: Index,
    witnesses: Map<(Index, u8), Seq<u8>>,
)
    requires
        nodes::valid(i, j),
        i <= values.len() <= u64::MAX,
        nodes::covers(i, j, k as nat),
        sample::stratum(values, i, j, k as nat).submap_of(witnesses),
    ensures
        sample::computed(k, values[k - 1], witnesses, i, j) == Ok::<Seq<u8>, Seq<char>>(
            tree::node_hash(values, i, j),
        ),
    decreases j,
{
    formula::lemma_height(i as u64, j);
    if j == 0 {
        nodes::lemma_leaf(i);
    } else {
        nodes::lemma_children(i, j);
        let l = nodes::left_i(i, j);
        let h = (j - 1) as nat;
        let g = nodes::right_j(i, j);
        let all = sample::stratum(values, i, j, k as nat);
        if k <= l {
            let low = sample::stratum(values, l, h, k as nat);
            let key = (i as u64, g as u8);
            sample::lemma_stratum_keys(values, l, h, k as nat);
            assert(!low.contains_key(key));
            assert(low.submap_of(witnesses)) by {
                assert forall|x: (Index, u8)| #[trigger]
                    low.dom().contains(x) implies witnesses.dom().contains(x) && low[x]
                    == witnesses[x] by {
                    assert(low.contains_key(x));
                    assert(all.dom().contains(x) && all[x] == low[x]);
                    assert(witnesses.dom().contains(x));
                }
            }
            assert(all.dom().contains(key) && witnesses.dom().contains(key));
            law_sample_leads_to_root(values, l, h, k, witnesses);
        } else {
            let low = sample::stratum(values, i, g, k as nat);
            let key = (l as u64, h as u8);
            sample::lemma_stratum_keys(values, i, g, k as nat);
            assert(!low.contains_key(key));
            assert(low.submap_of(witnesses)) by {
                assert forall|x: (Index, u8)| #[trigger]
                    low.dom().contains(x) implies witnesses.dom().contains(x) && low[x]
                    == witnesses[x] by {
                    assert(low.contains_key(x));
                    assert(all.dom().contains(x) && all[x] == low[x]);
                    assert(witnesses.dom().contains(x));
                }
            }
            assert(all.dom().contains(key) && witnesses.dom().contains(key));
            assert(!nodes::covers(l, h, k as nat));
            law_sample_leads_to_root(values, i, g, k, witnesses);
        }
    }
}

/// Whether this is the sample of the leaf `k` of the tree over the values.
pub open spec fn sample_of(s: StratumSample, values: Seq<Seq<u8>>, k: nat) -> bool {
    &&& 1 <= k <= values.len() <= u64::MAX
    &&& s.revision == values.len()
    &&& s.leaf.i == k
    &&& s.leaf.value@ == values[k - 1]
    &&& s.witnesses@ == sample::stratum(values, values.len(), model::height(values.len()), k)
}

/// The sample of any leaf gives the root hash of its tree.
pub proof fn law_sample_root(s: StratumSample, values: Seq<Seq<u8>>, k: nat)
    requires
        sample_of(s, values, k),
    ensures
        s.root() == Ok::<Seq<u8>, Seq<char>>(tree::root_hash(values)),
{
    let n = values.len();
    nodes::lemma_valid(n, model::height(n));
    law_sample_leads_to_root(values, n, model::height(n), k as u64, s.witnesses@);
}

/// The size of a sample: as many witnesses as nodes branch off the path to the leaf.
pub proof fn law_sample_size(s: StratumSample, values: Seq<Seq<u8>>, k: nat)
    requires
        sample_of(s, values, k),
    ensures
        s.witnesses@.len() == crate::distance::depth(
            values.len(),
            model::height(values.len()),
            k,
        ),
        s.witnesses@.len() <= model::height(values.len()),
{
    let n = values.len();
    nodes::lemma_valid(n, model::height(n));
    sample::lemma_stratum_keys(values, n, model::height(n), k);
    crate::distance::lemma_depth_bound(n, model::height(n), k);
}

/// The messages to look at where a leaf and its witnesses lead to the hash value of the node
/// `b_{i,j}`, but are not those of the tree.
pub open spec fn path_pair(
    values: Seq<Seq<u8>>,
    leaf: Index,
    value: Seq<u8>,
    witnesses: Map<(Index, u8), Seq<u8>>,
    i: nat,
    j: nat,
) -> Pair
    decreases j,
{
    if j == 0 || nodes::right_j(i, j) >= j {
        Pair { one: (0, value), two: (0, values[i - 1]) }
    } else {
        let l = nodes::left_i(i, j);
        let h = (j - 1) as nat;
        let g = nodes::right_j(i, j);
        let two = tree::node_hash(values, l, h) + tree::node_hash(values, i, g);
        if nodes::covers(l, h, leaf as nat) {
            let one = sample::computed(leaf, value, witnesses, l, h)->Ok_0 + witnesses[(
                i as u64,
                g as u8,
            )];
            if one != two {
                Pair { one: (j as u8, one), two: (j as u8, two) }
            } else {
                path_pair(values, leaf, value, witnesses, l, h)
            }
        } else {
            let one = witnesses[(l as u64, h as u8)] + sample::computed(
                leaf,
                value,
                witnesses,
                i,
                g,
            )->Ok_0;
            if one != two {
                Pair { one: (j as u8, one), two: (j as u8, two) }
            } else {
                path_pair(values, leaf, value, witnesses, i, g)
            }
        }
    }
}

/// A leaf and witnesses that lead to the hash value of a node are those of the tree: the value is
/// the one at the index, and every witness on the path is the hash value of its node. Or else two
/// different messages have the same hash value.
pub proof fn law_path_is_evidence(
    values: Seq<Seq<u8>>,
    leaf: Index,
    value: Seq<u8>,
    witnesses: Map<(Index, u8), Seq<u8>>,
    i: nat,
    j: nat,
)
    requires
        nodes::valid(i, j),
        i <= values.len() <= u64::MAX,
        sample::computed(leaf, value, witnesses, i, j) == Ok::<Seq<u8>, Seq<char>>(
            tree::node_hash(values, i, j),
        ),
    ensures
        nodes::covers(i, j, leaf as nat),
        path_pair(values, leaf, value, witnesses, i, j).collides() || (value == values[leaf - 1]
            && sample::stratum(values, i, j, leaf as nat).submap_of(witnesses)),
    decreases j,
{
    formula::lemma_height(i as u64, j);
    nodes::lemma_span(i, j);
    if j == 0 {
        nodes::lemma_leaf(i);
    } else {
        nodes::lemma_children(i, j);
        let l = nodes::left_i(i, j);
        let h = (j - 1) as nat;
        let g = nodes::right_j(i, j);
        nodes::lemma_span(l, h);
        let left = tree::node_hash(values, l, h);
        let right = tree::node_hash(values, i, g);
        tree::lemma_hash_len(values, l, h);
        tree::lemma_hash_len(values, i, g);
        if nodes::covers(l, h, leaf as nat) {
            let own = sample::computed(leaf, value, witnesses, l, h)->Ok_0;
            let key = (i as u64, g as u8);
            lemma_computed_len(leaf, value, witnesses, l, h);
            if own + witnesses[key] == left + right {
                lemma_split(own, witnesses[key], left, right);
                law_path_is_evidence(values, leaf, value, witnesses, l, h);
                lemma_submap_insert(
                    sample::stratum(values, l, h, leaf as nat),
                    witnesses,
                    key,
                    right,
                );
            }
        } else {
            let own = sample::computed(leaf, value, witnesses, i, g)->Ok_0;
            let key = (l as u64, h as u8);
            lemma_computed_len(leaf, value, witnesses, i, g);
            if witnesses[key] + own == left + right {
                lemma_split(witnesses[key], own, left, right);
                law_path_is_evidence(values, leaf, value, witnesses, i, g);
                lemma_submap_insert(
                    sample::stratum(values, i, g, leaf as nat),
                    witnesses,
                    key,
                    left,
                );
            }
        }
    }
}

proof fn lemma_submap_insert(
    low: Map<(Index, u8), Seq<u8>>,
    all: Map<(Index, u8), Seq<u8>>,
    key: (Index, u8),
    hash: Seq<u8>,
)
    requires
        all.contains_key(key),
        all[key] == hash,
    ensures
        low.submap_of(all) ==> low.insert(key, hash).submap_of(all),
{
    if low.submap_of(all) {
        let more = low.insert(key, hash);
        assert forall|x: (Index, u8)| #[trigger] more.dom().contains(x) implies all.dom().contains(x)
            && more[x] == all[x] by {
            if x != key {
                assert(low.dom().contains(x));
            }
        }
    }
}

proof fn lemma_computed_len(
    leaf: Index,
    value: Seq<u8>,
    witnesses: Map<(Index, u8), Seq<u8>>,
    i: nat,
    j: nat,
)
    requires
        sample::computed(leaf, value, witnesses, i, j) is Ok,
    ensures
        (sample::computed(leaf, value, witnesses, i, j)->Ok_0).len() == 32,
{
}

/// A sample that gives the root hash of a tree of its generation is the sample of its leaf, or two
/// different messages have the same hash value.
pub proof fn law_sample_is_evidence(s: StratumSample, values: Seq<Seq<u8>>)
    requires
        1 <= values.len() <= u64::MAX,
        s.revision == values.len(),
        s.root() == Ok::<Seq<u8>, Seq<char>>(tree::root_hash(values)),
    ensures
        1 <= s.leaf.i <= values.len(),
        path_pair(
            values,
            s.leaf.i,
            s.leaf.value@,
            s.witnesses@,
            values.len(),
            model::height(values.len()),
        ).collides() || (s.leaf.value@ == values[s.leaf.i - 1] && sample::stratum(
            values,
            values.len(),
            model::height(values.len()),
            s.leaf.i as nat,
        ).submap_of(s.witnesses@)),
{
    let n = values.len();
    nodes::lemma_valid(n, model::height(n));
    law_path_is_evidence(values, s.leaf.i, s.leaf.value@, s.witnesses@, n, model::height(n));
}

/// The node that branches off the path from `b_{i,j}` to the leaf `k` and has the leaf `c` below
/// it; the leaf `k` itself for `k`.
pub open spec fn branch_over(i: nat, j: nat, k: nat, c: nat) -> (nat, nat)
    decreases j,
{
    if j == 0 || nodes::right_j(i, j) >= j {
        (i, j)
    } else {
        let l = nodes::left_i(i, j);
        let h = (j - 1) as nat;
        let g = nodes::right_j(i, j);
        if k <= l {
            if c <= l {
                branch_over(l, h, k, c)
            } else {
                (i, g)
            }
        } else {
            if c <= l {
                (l, h)
            } else {
                branch_over(i, g, k, c)
            }
        }
    }
}

/// The witnesses of a leaf and the leaf itself share all leaves out between them.
pub proof fn law_sample_covers_all(values: Seq<Seq<u8>>, i: nat, j: nat, k: nat, c: nat)
    requires
        nodes::valid(i, j),
        i <= values.len() <= u64::MAX,
        nodes::covers(i, j, k),
        nodes::covers(i, j, c),
    ensures
        ({
            let (wi, wj) = branch_over(i, j, k, c);
            &&& nodes::valid(wi, wj)
            &&& wi <= i
            &&& wj <= j
            &&& nodes::covers(wi, wj, c)
            &&& c == k ==> wi == k && wj == 0
            &&& c != k ==> !nodes::covers(wi, wj, k) && sample::stratum(
                values,
                i,
                j,
                k,
            ).contains_key((wi as u64, wj as u8)) && sample::stratum(values, i, j, k)[(
                wi as u64,
                wj as u8,
            )] == tree::node_hash(values, wi, wj)
        }),
    decreases j,
{
    formula::lemma_height(i as u64, j);
    if j == 0 {
        nodes::lemma_leaf(i);
    } else {
        nodes::lemma_children(i, j);
        let l = nodes::left_i(i, j);
        let h = (j - 1) as nat;
        let g = nodes::right_j(i, j);
        nodes::lemma_span(l, h);
        if k <= l {
            if c <= l {
                law_sample_covers_all(values, l, h, k, c);
                sample::lemma_stratum_keys(values, l, h, k);
            }
        } else {
            if c > l {
                law_sample_covers_all(values, i, g, k, c);
                sample::lemma_stratum_keys(values, i, g, k);
            }
        }
    }
}

/// The witnesses of a leaf are nodes of the tree with their hash values, and the leaf is not below
/// any of them.
proof fn lemma_witness(values: Seq<Seq<u8>>, i: nat, j: nat, k: nat, key: (Index, u8))
    requires
        nodes::valid(i, j),
        i <= values.len() <= u64::MAX,
        sample::stratum(values, i, j, k).contains_key(key),
    ensures
        nodes::valid(key.0 as nat, key.1 as nat),
        1 <= key.0 <= i,
        laws::below(i, j, key.0 as nat, key.1 as nat),
        sample::stratum(values, i, j, k)[key] == tree::node_hash(
            values,
            key.0 as nat,
            key.1 as nat,
        ),
    decreases j,
{
    formula::lemma_height(i as u64, j);
    if j > 0 {
        nodes::lemma_children(i, j);
        let l = nodes::left_i(i, j);
        let h = (j - 1) as nat;
        let g = nodes::right_j(i, j);
        laws::lemma_below(i, j, key.0 as nat, key.1 as nat);
        nodes::lemma_span(l, h);
        nodes::lemma_span(i, g);
        if k <= l {
            if key != (i as u64, g as u8) {
                lemma_witness(values, l, h, k, key);
            }
        } else {
            if key != (l as u64, h as u8) {
                lemma_witness(values, i, g, k, key);
            }
        }
    }
}

/// Whether the witnesses of the sample are listed once each.
pub open spec fn listed_once(s: StratumSample) -> bool {
    s.witnesses.keys().no_duplicates() && s.witnesses.keys().to_set() == s.witnesses@.dom()
}

/// Which nodes a comparison reports.
pub proof fn lemma_divergents(s: StratumSample, t: StratumSample, key: (Index, u8))
    requires
        listed_once(s),
    ensures
        s.divergents(&t).contains(key) <==> (s.witnesses@.contains_key(key) && s.witnesses@[key]
            != t.witnesses@[key]) || (key == (s.leaf.i, 0u8) && hash::digest(0, s.leaf.value@)
            != hash::digest(0, t.leaf.value@)),
{
    let keys = s.witnesses.keys();
    let differs = |x: (Index, u8)| s.witnesses@[x] != t.witnesses@[x];
    let list = s.differing(&t);
    assert(list == keys.filter(differs));
    assert(list.contains(key) <==> keys.contains(key) && differs(key)) by {
        if keys.contains(key) && differs(key) {
            let x = choose|x: int| 0 <= x < keys.len() && keys[x] == key;
            keys.lemma_filter_contains(differs, x);
        }
        if list.contains(key) {
            let x = choose|x: int| 0 <= x < list.len() && list[x] == key;
            keys.lemma_filter_contains_rev(differs, key);
            keys.lemma_filter_pred(differs, x);
        }
    }
    assert(keys.contains(key) <==> s.witnesses@.contains_key(key)) by {
        assert(keys.to_set().contains(key) <==> keys.contains(key));
    }
    lemma_inserted(list, (s.leaf.i, 0u8), key);
}

proof fn lemma_inserted(list: Seq<(Index, u8)>, key: (Index, u8), x: (Index, u8))
    ensures
        sample::insert_descending(list, key).contains(x) <==> list.contains(x) || x == key,
    decreases list.len(),
{
    let more = sample::insert_descending(list, key);
    if list.len() == 0 {
        assert(more[0] == key);
    } else if sample::above(list[0], key) {
        let rest = list.drop_first();
        lemma_inserted(rest, key, x);
        let tail = sample::insert_descending(rest, key);
        assert(more =~= seq![list[0]] + tail);
        if tail.contains(x) {
            let y = choose|y: int| 0 <= y < tail.len() && tail[y] == x;
            assert(more[y + 1] == x);
        }
        if list.contains(x) {
            let y = choose|y: int| 0 <= y < list.len() && list[y] == x;
            if y > 0 {
                assert(rest[y - 1] == x);
            } else {
                assert(more[0] == x);
            }
        }
        if more.contains(x) {
            let y = choose|y: int| 0 <= y < more.len() && more[y] == x;
            if y > 0 {
                assert(tail[y - 1] == x);
            } else {
                assert(list[0] == x);
            }
        }
        if rest.contains(x) {
            let y = choose|y: int| 0 <= y < rest.len() && rest[y] == x;
            assert(list[y + 1] == x);
        }
    } else {
        assert(more =~= seq![key] + list);
        assert(more[0] == key);
        if list.contains(x) {
            let y = choose|y: int| 0 <= y < list.len() && list[y] == x;
            assert(more[y + 1] == x);
        }
        if more.contains(x) {
            let y = choose|y: int| 0 <= y < more.len() && more[y] == x;
            if y > 0 {
                assert(list[y - 1] == x);
            }
        }
    }
}

/// Samples of the same tree agree on the root hash, so that a comparison finds the trees
/// identical.
pub proof fn law_same_tree_is_identical(
    s: StratumSample,
    t: StratumSample,
    values: Seq<Seq<u8>>,
    k: nat,
)
    requires
        sample_of(s, values, k),
        sample_of(t, values, k),
    ensures
        s.root() == t.root(),
        s.root() is Ok,
{
    law_sample_root(s, values, k);
    law_sample_root(t, values, k);
}

/// Where the comparison finds two trees identical, they hold the same value at every index, or two
/// different messages have the same hash value.
pub proof fn law_identical_is_same(
    s: StratumSample,
    t: StratumSample,
    a: Seq<Seq<u8>>,
    b: Seq<Seq<u8>>,
    k: nat,
    c: nat,
)
    requires
        sample_of(s, a, k),
        sample_of(t, b, k),
        a.len() == b.len(),
        1 <= c <= a.len(),
        s.root() == t.root(),
    ensures
        a[c - 1] == b[c - 1] || node_pair(a, b, a.len(), model::height(a.len()), c).collides(),
{
    law_sample_root(s, a, k);
    law_sample_root(t, b, k);
    law_root_binds_values(a, b, c);
}

/// Every node that the comparison reports has a leaf below it at which the trees differ.
pub proof fn law_divergent_is_different(
    s: StratumSample,
    t: StratumSample,
    a: Seq<Seq<u8>>,
    b: Seq<Seq<u8>>,
    k: nat,
    key: (Index, u8),
)
    requires
        sample_of(s, a, k),
        sample_of(t, b, k),
        a.len() == b.len(),
        listed_once(s),
        s.divergents(&t).contains(key),
    ensures
        nodes::valid(key.0 as nat, key.1 as nat),
        exists|c: int|
            nodes::first(key.0 as nat, key.1 as nat) - 1 <= c < key.0 && #[trigger] a[c] != b[c],
{
    let n = a.len();
    let h = model::height(n);
    nodes::lemma_valid(n, h);
    lemma_divergents(s, t, key);
    if s.witnesses@.contains_key(key) && s.witnesses@[key] != t.witnesses@[key] {
        lemma_witness(a, n, h, k, key);
        lemma_stratum_same_keys(a, b, n, h, k, key);
        lemma_witness(b, n, h, k, key);
        let i = key.0 as nat;
        let j = key.1 as nat;
        nodes::lemma_span(i, j);
        if !(exists|c: int| nodes::first(i, j) - 1 <= c < i && #[trigger] a[c] != b[c]) {
            tree::lemma_hash_local(a, b, i, j);
        }
    } else {
        nodes::lemma_leaf(k);
        assert(a[k - 1] != b[k - 1]);
    }
}

/// The places of the witnesses depend on the size of the tree alone.
proof fn lemma_stratum_same_keys(
    a: Seq<Seq<u8>>,
    b: Seq<Seq<u8>>,
    i: nat,
    j: nat,
    k: nat,
    key: (Index, u8),
)
    ensures
        sample::stratum(a, i, j, k).contains_key(key) <==> sample::stratum(
            b,
            i,
            j,
            k,
        ).contains_key(key),
    decreases j,
{
    if j > 0 && nodes::right_j(i, j) < j {
        let l = nodes::left_i(i, j);
        let h = (j - 1) as nat;
        let g = nodes::right_j(i, j);
        lemma_stratum_same_keys(a, b, l, h, k, key);
        lemma_stratum_same_keys(a, b, i, g, k, key);
    }
}

/// Every leaf at which the trees differ is below a node that the comparison reports, or two
/// different messages have the same hash value.
pub proof fn law_difference_is_reported(
    s: StratumSample,
    t: StratumSample,
    a: Seq<Seq<u8>>,
    b: Seq<Seq<u8>>,
    k: nat,
    c: nat,
)
    requires
        sample_of(s, a, k),
        sample_of(t, b, k),
        a.len() == b.len(),
        listed_once(s),
        1 <= c <= a.len(),
        a[c - 1] != b[c - 1],
    ensures
        ({
            let (wi, wj) = branch_over(a.len(), model::height(a.len()), k, c);
            &&& nodes::covers(wi, wj, c)
            &&& s.divergents(&t).contains((wi as u64, wj as u8)) || node_pair(
                a,
                b,
                wi,
                wj,
                c,
            ).collides()
        }),
{
    let n = a.len();
    let h = model::height(n);
    nodes::lemma_valid(n, h);
    let (wi, wj) = branch_over(n, h, k, c);
    let key = (wi as u64, wj as u8);
    law_sample_covers_all(a, n, h, k, c);
    law_sample_covers_all(b, n, h, k, c);
    formula::lemma_height(wi as u64, wj);
    lemma_divergents(s, t, key);
    if c == k {
        nodes::lemma_leaf(k);
        if hash::digest(0, a[k - 1]) == hash::digest(0, b[k - 1]) {
            law_hash_binds_leaves(a, b, wi, wj, c);
        }
    } else if s.witnesses@[key] == t.witnesses@[key] {
        law_hash_binds_leaves(a, b, wi, wj, c);
    }
}

/// The search for a difference comes nearer with every step: from a node that was reported on to a
/// sample of its last leaf, every leaf below the node is below a lower node of the new sample, or
/// is the leaf itself.
pub proof fn law_search_narrows(i: nat, j: nat, a: nat, b: nat, c: nat)
    requires
        nodes::valid(i, j),
        laws::below(i, j, a, b),
        b >= 1,
        nodes::covers(a, b, c),
    ensures
        ({
            let (wi, wj) = branch_over(i, j, a, c);
            &&& wj < b
            &&& nodes::covers(wi, wj, c)
            &&& nodes::first(a, b) <= nodes::first(wi, wj)
            &&& wi <= a
        }),
    decreases j,
{
    nodes::lemma_span(a, b);
    if a == i && b == j {
        lemma_lower(i, j, c);
    } else if j == 0 {
        nodes::lemma_leaf(i);
        nodes::lemma_children(a, b);
        nodes::lemma_span(i, j);
    } else {
        nodes::lemma_children(i, j);
        laws::lemma_below(i, j, a, b);
        let l = nodes::left_i(i, j);
        let h = (j - 1) as nat;
        let g = nodes::right_j(i, j);
        if laws::below(l, h, a, b) {
            law_search_narrows(l, h, a, b, c);
        } else {
            law_search_narrows(i, g, a, b, c);
        }
    }
}

/// Below a node the sample of its last leaf has lower nodes only.
proof fn lemma_lower(i: nat, j: nat, c: nat)
    requires
        nodes::valid(i, j),
        nodes::covers(i, j, c),
    ensures
        ({
            let (wi, wj) = branch_over(i, j, i, c);
            &&& j >= 1 ==> wj < j
            &&& wj <= j
            &&& nodes::covers(wi, wj, c)
            &&& nodes::first(i, j) <= nodes::first(wi, wj)
            &&& wi <= i
        }),
    decreases j,
{
    if j > 0 {
        nodes::lemma_children(i, j);
        if c > nodes::left_i(i, j) {
            lemma_lower(i, nodes::right_j(i, j), c);
        }
    }
}

/// The node `b_{i,j}` of the tree over the values.
pub open spec fn node_of(values: Seq<Seq<u8>>, i: nat, j: nat) -> NodeModel {
    NodeModel { i: i as u64, j: j as u8, hash: tree::node_hash(values, i, j) }
}

/// The nodes that branch off the path from `b_{i,j}` down to `b_{a,b}`, from the highest on.
pub open spec fn branches_of(values: Seq<Seq<u8>>, i: nat, j: nat, a: nat, b: nat) -> Seq<NodeModel>
    decreases j,
{
    if (a == i && b == j) || j == 0 || nodes::right_j(i, j) >= j {
        seq![]
    } else {
        let l = nodes::left_i(i, j);
        let h = (j - 1) as nat;
        let g = nodes::right_j(i, j);
        if laws::below(l, h, a, b) {
            seq![node_of(values, i, g)] + branches_of(values, l, h, a, b)
        } else {
            seq![node_of(values, l, h)] + branches_of(values, i, g, a, b)
        }
    }
}

/// The first branch is the last one to be joined.
proof fn lemma_fold_first(n: NodeModel, x: NodeModel, rest: Seq<NodeModel>)
    ensures
        n.fold(seq![x] + rest) == n.fold(rest).meet(x),
        n.foldable(seq![x] + rest) <==> n.foldable(rest) && n.fold(rest).meets(x),
    decreases rest.len(),
{
    let all = seq![x] + rest;
    if rest.len() == 0 {
        assert(all.last() == x);
        assert(all.drop_last() =~= rest);
        assert(n.meet(x).fold(all.drop_last()) == n.meet(x));
        assert(n.meet(x).foldable(all.drop_last()));
    } else {
        assert(all.last() == rest.last());
        assert(all.drop_last() =~= seq![x] + rest.drop_last());
        lemma_fold_first(n.meet(rest.last()), x, rest.drop_last());
    }
}

/// A node and the nodes that branch off the path to it lead to the node that the path starts from.
pub proof fn law_branches_lead_up(values: Seq<Seq<u8>>, i: nat, j: nat, a: nat, b: nat)
    requires
        nodes::valid(i, j),
        i <= values.len() <= u64::MAX,
        laws::below(i, j, a, b),
    ensures
        node_of(values, a, b).foldable(branches_of(values, i, j, a, b)),
        node_of(values, a, b).fold(branches_of(values, i, j, a, b)) == node_of(values, i, j),
    decreases j,
{
    formula::lemma_height(i as u64, j);
    let own = node_of(values, a, b);
    if !(a == i && b == j) {
        if j == 0 {
            lemma_only_leaf(i, a, b);
        } else {
            nodes::lemma_children(i, j);
            laws::lemma_below(i, j, a, b);
            let l = nodes::left_i(i, j);
            let h = (j - 1) as nat;
            let g = nodes::right_j(i, j);
            if laws::below(l, h, a, b) {
                law_branches_lead_up(values, l, h, a, b);
                lemma_fold_first(own, node_of(values, i, g), branches_of(values, l, h, a, b));
            } else {
                law_branches_lead_up(values, i, g, a, b);
                lemma_fold_first(own, node_of(values, l, h), branches_of(values, i, g, a, b));
            }
        }
    }
}

/// A leaf is the only node below itself.
proof fn lemma_only_leaf(i: nat, a: nat, b: nat)
    requires
        nodes::valid(i, 0),
        laws::below(i, 0, a, b),
    ensures
        a == i,
        b == 0,
{
    nodes::lemma_leaf(i);
    nodes::lemma_span(a, b);
    if b > 0 {
        nodes::lemma_children(a, b);
        nodes::lemma_span(a, nodes::right_j(a, b));
    }
}

/// The leaves of a node and the nodes that branch off the path to it give the root of the tree.
pub proof fn law_values_lead_to_root(values: Seq<Seq<u8>>, run: Seq<Value>, a: nat, b: nat)
    requires
        1 <= values.len() <= u64::MAX,
        model::in_generation(values.len(), a, b),
        value::consecutive(run),
        run.len() == nodes::leaves(a, b),
        run[0].i == nodes::first(a, b),
        value::payloads(run) == values.subrange(nodes::first(a, b) - 1, a as int),
    ensures
        ({
            let n = values.len();
            let branches = branches_of(values, n, model::height(n), a, b);
            &&& value::top_of(run).foldable(branches)
            &&& value::top_of(run).fold(branches) == node_of(values, n, model::height(n))
            &&& value::top_of(run).fold(branches).hash == tree::root_hash(values)
        }),
{
    let n = values.len();
    nodes::lemma_valid(n, model::height(n));
    nodes::lemma_span(a, b);
    value::law_top_is_node(values, run, a, b);
    law_branches_lead_up(values, n, model::height(n), a, b);
}

/// Whether the nodes have the places of the others, whatever their hash values.
pub open spec fn same_places(one: Seq<NodeModel>, two: Seq<NodeModel>) -> bool {
    &&& one.len() == two.len()
    &&& forall|x: int|
        0 <= x < one.len() ==> (#[trigger] one[x]).i == two[x].i && one[x].j == two[x].j
            && one[x].hash.len() == 32
}

/// The messages to look at where a node, joined with nodes beside it, has the hash value of the node
/// `b_{i,j}` of the tree, but is not the node `b_{a,b}` of the tree.
pub open spec fn fold_pair(
    values: Seq<Seq<u8>>,
    i: nat,
    j: nat,
    a: nat,
    b: nat,
    own: NodeModel,
    branches: Seq<NodeModel>,
) -> Pair
    decreases j,
{
    if (a == i && b == j) || j == 0 || nodes::right_j(i, j) >= j {
        Pair { one: (0, seq![]), two: (0, seq![]) }
    } else {
        let l = nodes::left_i(i, j);
        let h = (j - 1) as nat;
        let g = nodes::right_j(i, j);
        let rest = branches.skip(1);
        let two = tree::node_hash(values, l, h) + tree::node_hash(values, i, g);
        if laws::below(l, h, a, b) {
            let one = own.fold(rest).hash + branches[0].hash;
            if one != two {
                Pair { one: (j as u8, one), two: (j as u8, two) }
            } else {
                fold_pair(values, l, h, a, b, own, rest)
            }
        } else {
            let one = branches[0].hash + own.fold(rest).hash;
            if one != two {
                Pair { one: (j as u8, one), two: (j as u8, two) }
            } else {
                fold_pair(values, i, g, a, b, own, rest)
            }
        }
    }
}

/// The place of a node that is joined with the nodes beside a path.
proof fn lemma_fold_place(
    values: Seq<Seq<u8>>,
    i: nat,
    j: nat,
    a: nat,
    b: nat,
    own: NodeModel,
    branches: Seq<NodeModel>,
)
    requires
        nodes::valid(i, j),
        i <= values.len() <= u64::MAX,
        laws::below(i, j, a, b),
        own.i == a,
        own.j == b,
        own.hash.len() == 32,
        same_places(branches, branches_of(values, i, j, a, b)),
    ensures
        own.fold(branches).i == i,
        own.fold(branches).j == j,
        own.fold(branches).hash.len() == 32,
    decreases j,
{
    formula::lemma_height(i as u64, j);
    if !(a == i && b == j) {
        if j == 0 {
            lemma_only_leaf(i, a, b);
        } else {
            nodes::lemma_children(i, j);
            laws::lemma_below(i, j, a, b);
            let l = nodes::left_i(i, j);
            let h = (j - 1) as nat;
            let g = nodes::right_j(i, j);
            let all = branches_of(values, i, j, a, b);
            let rest = branches.skip(1);
            assert(branches =~= seq![branches[0]] + rest);
            lemma_fold_first(own, branches[0], rest);
            assert(branches[0].i == all[0].i && branches[0].j == all[0].j);
            if laws::below(l, h, a, b) {
                lemma_rest(branches, all, node_of(values, i, g), branches_of(values, l, h, a, b));
                lemma_fold_place(values, l, h, a, b, own, rest);
            } else {
                lemma_rest(branches, all, node_of(values, l, h), branches_of(values, i, g, a, b));
                lemma_fold_place(values, i, g, a, b, own, rest);
            }
        }
    }
}

proof fn lemma_rest(
    branches: Seq<NodeModel>,
    all: Seq<NodeModel>,
    first: NodeModel,
    rest: Seq<NodeModel>,
)
    requires
        same_places(branches, all),
        all == seq![first] + rest,
    ensures
        same_places(branches.skip(1), rest),
        branches[0].i == first.i,
        branches[0].j == first.j,
        branches[0].hash.len() == 32,
{
    assert(all[0] == first);
    assert(branches[0].i == all[0].i);
    assert forall|x: int| 0 <= x < rest.len() implies (#[trigger] branches.skip(1)[x]).i
        == rest[x].i && branches.skip(1)[x].j == rest[x].j && branches.skip(1)[x].hash.len()
        == 32 by {
        assert(branches[x + 1].i == all[x + 1].i);
        assert(all[x + 1] == rest[x]);
    }
}

/// A node that, joined with nodes beside a path, has the hash value of a node of a tree is the node
/// of the tree at the end of the path; or two different messages have the same hash value.
pub proof fn law_branches_are_evidence(
    values: Seq<Seq<u8>>,
    i: nat,
    j: nat,
    a: nat,
    b: nat,
    own: NodeModel,
    branches: Seq<NodeModel>,
)
    requires
        nodes::valid(i, j),
        i <= values.len() <= u64::MAX,
        laws::below(i, j, a, b),
        own.i == a,
        own.j == b,
        own.hash.len() == 32,
        same_places(branches, branches_of(values, i, j, a, b)),
        own.fold(branches).hash == tree::node_hash(values, i, j),
    ensures
        own.hash == tree::node_hash(values, a, b) || fold_pair(
            values,
            i,
            j,
            a,
            b,
            own,
            branches,
        ).collides(),
    decreases j,
{
    formula::lemma_height(i as u64, j);
    if a == i && b == j {
        assert(branches =~= seq![]);
    } else if j == 0 {
        lemma_only_leaf(i, a, b);
    } else {
        nodes::lemma_children(i, j);
        laws::lemma_below(i, j, a, b);
        let l = nodes::left_i(i, j);
        let h = (j - 1) as nat;
        let g = nodes::right_j(i, j);
        let all = branches_of(values, i, j, a, b);
        let rest = branches.skip(1);
        assert(branches =~= seq![branches[0]] + rest);
        lemma_fold_first(own, branches[0], rest);
        tree::lemma_hash_len(values, l, h);
        tree::lemma_hash_len(values, i, g);
        let left = tree::node_hash(values, l, h);
        let right = tree::node_hash(values, i, g);
        if laws::below(l, h, a, b) {
            lemma_rest(branches, all, node_of(values, i, g), branches_of(values, l, h, a, b));
            lemma_fold_place(values, l, h, a, b, own, rest);
            let one = own.fold(rest).hash;
            if one + branches[0].hash == left + right {
                lemma_split(one, branches[0].hash, left, right);
                law_branches_are_evidence(values, l, h, a, b, own, rest);
            }
        } else {
            lemma_rest(branches, all, node_of(values, l, h), branches_of(values, i, g, a, b));
            lemma_fold_place(values, i, g, a, b, own, rest);
            let one = own.fold(rest).hash;
            if branches[0].hash + one == left + right {
                lemma_split(branches[0].hash, one, left, right);
                law_branches_are_evidence(values, i, g, a, b, own, rest);
            }
        }
    }
}

/// Values that, with the nodes beside the path to them, give the root hash of a tree are the values
/// of the tree; or two different messages have the same hash value. `c` counts the values from 1 on.
pub proof fn law_values_are_evidence(
    values: Seq<Seq<u8>>,
    run: Seq<Value>,
    branches: Seq<NodeModel>,
    a: nat,
    b: nat,
    c: nat,
)
    requires
        1 <= values.len() <= u64::MAX,
        model::in_generation(values.len(), a, b),
        value::consecutive(run),
        run.len() == nodes::leaves(a, b),
        run[0].i == nodes::first(a, b),
        same_places(
            branches,
            branches_of(values, values.len(), model::height(values.len()), a, b),
        ),
        value::top_of(run).fold(branches).hash == tree::root_hash(values),
        1 <= c <= run.len(),
    ensures
        ({
            let n = values.len();
            let top = value::top_of(run);
            let own = values.subrange(nodes::first(a, b) - 1, a as int);
            ||| run[c - 1].value@ == values[nodes::first(a, b) + c - 2]
            ||| fold_pair(values, n, model::height(n), a, b, top, branches).collides()
            ||| node_pair(
                value::payloads(run),
                own,
                run.len(),
                model::height(run.len()),
                c,
            ).collides()
        }),
{
    let n = values.len();
    let h = model::height(n);
    let top = value::top_of(run);
    let own = values.subrange(nodes::first(a, b) - 1, a as int);
    nodes::lemma_valid(n, h);
    nodes::lemma_span(a, b);
    formula::lemma_height(a as u64, b);
    assert(run.last().i == run[0].i + (run.len() - 1));
    assert(value::payloads(run).len() == run.len());
    tree::lemma_hash_len(value::payloads(run), run.len(), model::height(run.len()));
    law_branches_are_evidence(values, n, h, a, b, top, branches);
    if top.hash == tree::node_hash(values, a, b) {
        tree::lemma_hash_of_leaves(values, a, b);
        law_root_binds_values(value::payloads(run), own, c);
    }
}

/// The sample of a leaf holds the size of the tree, the index and the whole value of the leaf, and as
/// witnesses the hash values of the nodes that branch off the path from the root to the leaf: of
/// each node above the leaf the child that does not have it below.
pub proof fn law_sample_of(s: StratumSample, values: Seq<Seq<u8>>, k: nat)
    requires
        sample_of(s, values, k),
    ensures
        s.revision == values.len(),
        s.leaf.i == k,
        s.leaf.value@ == values[k - 1],
        forall|key: (Index, u8)| #[trigger]
            s.witnesses@.contains_key(key) ==> {
                &&& nodes::valid(key.0 as nat, key.1 as nat)
                &&& model::in_generation(values.len(), key.0 as nat, key.1 as nat)
                &&& !nodes::covers(key.0 as nat, key.1 as nat, k)
                &&& s.witnesses@[key] == tree::node_hash(values, key.0 as nat, key.1 as nat)
            },
        forall|c: nat|
            1 <= c <= values.len() && c != k ==> {
                let (wi, wj) = #[trigger] branch_over(
                    values.len(),
                    model::height(values.len()),
                    k,
                    c,
                );
                nodes::covers(wi, wj, c) && s.witnesses@.contains_key((wi as u64, wj as u8))
            },
{
    let n = values.len();
    let h = model::height(n);
    nodes::lemma_valid(n, h);
    assert forall|key: (Index, u8)| #[trigger] s.witnesses@.contains_key(key) implies {
        &&& nodes::valid(key.0 as nat, key.1 as nat)
        &&& model::in_generation(values.len(), key.0 as nat, key.1 as nat)
        &&& !nodes::covers(key.0 as nat, key.1 as nat, k)
        &&& s.witnesses@[key] == tree::node_hash(values, key.0 as nat, key.1 as nat)
    } by {
        lemma_witness(values, n, h, k, key);
        lemma_beside(values, n, h, k, key);
    }
    assert forall|c: nat| 1 <= c <= values.len() && c != k implies {
        let (wi, wj) = #[trigger] branch_over(n, h, k, c);
        nodes::covers(wi, wj, c) && s.witnesses@.contains_key((wi as u64, wj as u8))
    } by {
        law_sample_covers_all(values, n, h, k, c);
    }
}

/// A witness does not have the leaf below it.
proof fn lemma_beside(values: Seq<Seq<u8>>, i: nat, j: nat, k: nat, key: (Index, u8))
    requires
        nodes::valid(i, j),
        i <= values.len() <= u64::MAX,
        nodes::covers(i, j, k),
        sample::stratum(values, i, j, k).contains_key(key),
    ensures
        !nodes::covers(key.0 as nat, key.1 as nat, k),
    decreases j,
{
    formula::lemma_height(i as u64, j);
    if j > 0 {
        nodes::lemma_children(i, j);
        let l = nodes::left_i(i, j);
        let h = (j - 1) as nat;
        let g = nodes::right_j(i, j);
        nodes::lemma_span(l, h);
        if k <= l {
            if key != (i as u64, g as u8) {
                lemma_beside(values, l, h, k, key);
            }
        } else if key != (l as u64, h as u8) {
            lemma_beside(values, i, g, k, key);
        }
    }
}

/// A sample gives a root hash exactly if its leaf is one of the tree and every witness is there that
/// a sample of this leaf needs, whatever the values of the tree are.
pub proof fn law_root_of_sample(s: StratumSample, values: Seq<Seq<u8>>)
    ensures
        s.revision == 0 ==> s.root() is Err,
        s.revision >= 1 ==> (s.root() is Ok <==> 1 <= s.leaf.i <= s.revision && sample::stratum(
            values,
            s.revision as nat,
            model::height(s.revision as nat),
            s.leaf.i as nat,
        ).dom().subset_of(s.witnesses@.dom())),
{
    let n = s.revision as nat;
    if n >= 1 {
        nodes::lemma_valid(n, model::height(n));
        lemma_computed_ok(s.leaf.i, s.leaf.value@, s.witnesses@, values, n, model::height(n));
    }
}

proof fn lemma_computed_ok(
    leaf: Index,
    value: Seq<u8>,
    witnesses: Map<(Index, u8), Seq<u8>>,
    values: Seq<Seq<u8>>,
    i: nat,
    j: nat,
)
    requires
        nodes::valid(i, j),
        i <= u64::MAX,
    ensures
        sample::computed(leaf, value, witnesses, i, j) is Ok <==> nodes::covers(i, j, leaf as nat)
            && sample::stratum(values, i, j, leaf as nat).dom().subset_of(witnesses.dom()),
    decreases j,
{
    formula::lemma_height(i as u64, j);
    let k = leaf as nat;
    if j == 0 {
        nodes::lemma_leaf(i);
    } else {
        nodes::lemma_children(i, j);
        let l = nodes::left_i(i, j);
        let h = (j - 1) as nat;
        let g = nodes::right_j(i, j);
        nodes::lemma_span(l, h);
        lemma_computed_ok(leaf, value, witnesses, values, l, h);
        lemma_computed_ok(leaf, value, witnesses, values, i, g);
        let all = sample::stratum(values, i, j, k);
        if k <= l {
            let low = sample::stratum(values, l, h, k);
            lemma_dom_insert(low, witnesses, (i as u64, g as u8), tree::node_hash(values, i, g));
        } else {
            let low = sample::stratum(values, i, g, k);
            lemma_dom_insert(low, witnesses, (l as u64, h as u8), tree::node_hash(values, l, h));
        }
    }
}

proof fn lemma_dom_insert(
    low: Map<(Index, u8), Seq<u8>>,
    all: Map<(Index, u8), Seq<u8>>,
    key: (Index, u8),
    hash: Seq<u8>,
)
    ensures
        low.insert(key, hash).dom().subset_of(all.dom()) <==> low.dom().subset_of(all.dom())
            && all.contains_key(key),
{
    let more = low.insert(key, hash);
    if more.dom().subset_of(all.dom()) {
        assert(more.dom().contains(key));
        assert forall|x: (Index, u8)| low.dom().contains(x) implies all.dom().contains(x) by {
            assert(more.dom().contains(x));
        }
    }
    if low.dom().subset_of(all.dom()) && all.contains_key(key) {
        assert forall|x: (Index, u8)| more.dom().contains(x) implies all.dom().contains(x) by {
            if x != key {
                assert(low.dom().contains(x));
            }
        }
    }
}

/// What a comparison reports, from the last node to the first: each witness whose hash value is
/// another one in the other sample, and the leaf where the values have different hashes.
pub proof fn law_divergents(s: StratumSample, t: StratumSample, key: (Index, u8))
    requires
        listed_once(s),
        forall|x: int, y: int|
            0 <= x < y < s.witnesses.keys().len() ==> sample::above(
                #[trigger] s.witnesses.keys()[x],
                #[trigger] s.witnesses.keys()[y],
            ),
    ensures
        s.divergents(&t).contains(key) <==> (s.witnesses@.contains_key(key) && s.witnesses@[key]
            != t.witnesses@[key]) || (key.0 == s.leaf.i && key.1 == 0 && exists|x: int|
            0 <= x < 32 && #[trigger] hash::blake3_of(seq![0u8] + s.leaf.value@)[x]
                != hash::blake3_of(seq![0u8] + t.leaf.value@)[x]),
        forall|x: int, y: int|
            0 <= x < y < s.divergents(&t).len() ==> {
                let a = #[trigger] s.divergents(&t)[x];
                let b = #[trigger] s.divergents(&t)[y];
                a.0 > b.0 || (a.0 == b.0 && a.1 >= b.1)
            },
{
    lemma_divergents(s, t, key);
    hash::law_digest_is_blake3(0, s.leaf.value@);
    hash::law_digest_is_blake3(0, t.leaf.value@);
    let one = hash::digest(0, s.leaf.value@);
    let two = hash::digest(0, t.leaf.value@);
    if one != two {
        if forall|x: int| 0 <= x < 32 ==> #[trigger] one[x] == two[x] {
            assert(one =~= two);
        }
        let x = choose|x: int| 0 <= x < 32 && #[trigger] one[x] != two[x];
        assert(hash::blake3_of(seq![0u8] + s.leaf.value@)[x] == one[x]);
        assert(hash::blake3_of(seq![0u8] + t.leaf.value@)[x] == two[x]);
    } else {
        assert forall|x: int| 0 <= x < 32 implies #[trigger] hash::blake3_of(
            seq![0u8] + s.leaf.value@,
        )[x] == hash::blake3_of(seq![0u8] + t.leaf.value@)[x] by {
            assert(one[x] == two[x]);
        }
    }
    let differs = |key: (Index, u8)| s.witnesses@[key] != t.witnesses@[key];
    lemma_filter_descends(s.witnesses.keys(), differs);
    assert(s.differing(&t) == s.witnesses.keys().filter(differs));
    if one != two {
        lemma_insert_descends(s.differing(&t), (s.leaf.i, 0u8));
    }
}

/// Whether the nodes do not ascend.
spec fn descends(list: Seq<(Index, u8)>) -> bool {
    forall|x: int, y: int|
        0 <= x < y < list.len() ==> !sample::above(#[trigger] list[y], #[trigger] list[x])
}

proof fn lemma_filter_descends(list: Seq<(Index, u8)>, f: spec_fn((Index, u8)) -> bool)
    requires
        forall|x: int, y: int|
            0 <= x < y < list.len() ==> sample::above(#[trigger] list[x], #[trigger] list[y]),
    ensures
        descends(list.filter(f)),
        forall|x: int| 0 <= x < list.filter(f).len() ==> list.contains(#[trigger] list.filter(f)[x]),
    decreases list.len(),
{
    reveal(Seq::filter);
    if list.len() > 0 {
        let low = list.drop_last();
        assert forall|x: int, y: int| 0 <= x < y < low.len() implies sample::above(
            #[trigger] low[x],
            #[trigger] low[y],
        ) by {
            assert(sample::above(list[x], list[y]));
        }
        lemma_filter_descends(low, f);
        let some = low.filter(f);
        let all = list.filter(f);
        assert forall|x: int| 0 <= x < all.len() implies list.contains(#[trigger] all[x]) by {
            if x < some.len() {
                assert(low.contains(some[x]));
                let z = choose|z: int| 0 <= z < low.len() && low[z] == some[x];
                assert(list[z] == some[x]);
            } else {
                assert(list[list.len() - 1] == all[x]);
            }
        }
        assert forall|x: int, y: int| 0 <= x < y < all.len() implies !sample::above(
            #[trigger] all[y],
            #[trigger] all[x],
        ) by {
            if y >= some.len() {
                assert(low.contains(some[x]));
                let z = choose|z: int| 0 <= z < low.len() && low[z] == some[x];
                assert(sample::above(list[z], list[list.len() - 1]));
            }
        }
    }
}

proof fn lemma_insert_descends(list: Seq<(Index, u8)>, key: (Index, u8))
    requires
        descends(list),
    ensures
        descends(sample::insert_descending(list, key)),
    decreases list.len(),
{
    let all = sample::insert_descending(list, key);
    if list.len() > 0 {
        if sample::above(list[0], key) {
            let rest = list.drop_first();
            lemma_insert_descends(rest, key);
            let low = sample::insert_descending(rest, key);
            assert forall|x: int, y: int| 0 <= x < y < all.len() implies !sample::above(
                #[trigger] all[y],
                #[trigger] all[x],
            ) by {
                assert(all[y] == low[y - 1]);
                if x > 0 {
                    assert(all[x] == low[x - 1]);
                } else {
                    lemma_inserted(rest, key, low[y - 1]);
                    assert(low.contains(low[y - 1]));
                    if rest.contains(low[y - 1]) {
                        let z = choose|z: int| 0 <= z < rest.len() && rest[z] == low[y - 1];
                        assert(list[z + 1] == low[y - 1]);
                    }
                }
            }
        } else {
            assert forall|x: int, y: int| 0 <= x < y < all.len() implies !sample::above(
                #[trigger] all[y],
                #[trigger] all[x],
            ) by {
                assert(all[y] == list[y - 1]);
                if x > 0 {
                    assert(all[x] == list[x - 1]);
                } else if y > 1 {
                    assert(!sample::above(list[y - 1], list[0]));
                }
            }
        }
    }
}

/// The first witness that the other sample lacks is one of the list that it lacks, and it has all
/// that come before it.
pub proof fn law_first_missing(keys: Seq<(Index, u8)>, witnesses: Map<(Index, u8), Seq<u8>>)
    requires
        exists|x: int| 0 <= x < keys.len() && !witnesses.contains_key(#[trigger] keys[x]),
    ensures
        !witnesses.contains_key(sample::first_missing(keys, witnesses)),
        exists|x: int|
            0 <= x < keys.len() && #[trigger] keys[x] == sample::first_missing(keys, witnesses)
                && forall|y: int| 0 <= y < x ==> witnesses.contains_key(#[trigger] keys[y]),
    decreases keys.len(),
{
    let x = choose|x: int| 0 <= x < keys.len() && !witnesses.contains_key(#[trigger] keys[x]);
    if witnesses.contains_key(keys[0]) {
        let rest = keys.drop_first();
        assert(rest[x - 1] == keys[x]);
        law_first_missing(rest, witnesses);
        let z = choose|z: int|
            0 <= z < rest.len() && #[trigger] rest[z] == sample::first_missing(rest, witnesses)
                && forall|y: int| 0 <= y < z ==> witnesses.contains_key(#[trigger] rest[y]);
        assert(keys[z + 1] == rest[z]);
        assert forall|y: int| 0 <= y < z + 1 implies witnesses.contains_key(#[trigger] keys[y]) by {
            if y > 0 {
                assert(keys[y] == rest[y - 1]);
            }
        }
    } else {
        assert(keys[0] == sample::first_missing(keys, witnesses));
    }
}

/// A parent has the index of its right child, one more than the height of its left child, and the
/// BLAKE3 hash of this height followed by the hash values of both. Of two nodes that meet, the one
/// with the smaller index is on the left; and a node is joined with the last of its branches first.
pub proof fn law_join(one: NodeModel, two: NodeModel, rest: Seq<NodeModel>)
    ensures
        one.j < 255 ==> {
            let p = one.join(two);
            &&& p.i == two.i
            &&& p.j == one.j + 1
            &&& p.hash.len() == 32
            &&& forall|x: int|
                0 <= x < 32 ==> #[trigger] p.hash[x] == hash::blake3_of(
                    seq![(one.j + 1) as u8] + (one.hash + two.hash),
                )[x]
        },
        one.joinable(two) <==> one.i < two.i && one.j >= two.j && one.j < 255,
        one.i < two.i ==> one.meet(two) == one.join(two),
        one.i >= two.i ==> one.meet(two) == two.join(one),
        one.fold(seq![]) == one,
        one.fold(rest.push(two)) == one.meet(two).fold(rest),
{
    hash::law_digest_is_blake3((one.j + 1) as u8, one.hash + two.hash);
    assert(rest.push(two).drop_last() =~= rest);
}

/// The root over values alone has the last index and the height of a tree of so many leaves.
pub proof fn law_top(run: Seq<Value>)
    requires
        value::consecutive(run),
        run.len() <= u64::MAX,
    ensures
        value::top_of(run).i == run[0].i + run.len() - 1,
        value::top_of(run).j == model::height(run.len()),
        value::top_of(run).hash == tree::root_hash(value::payloads(run)),
        value::payloads(run).len() == run.len(),
        forall|k: int|
            0 <= k < run.len() ==> #[trigger] value::payloads(run)[k] == run[k].value@,
{
    assert(run[run.len() - 1].i == run[0].i + (run.len() - 1));
    nodes::lemma_valid(run.len(), model::height(run.len()));
    formula::lemma_height(run.len() as u64, model::height(run.len()));
}

} // verus!
