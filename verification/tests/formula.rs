//! The formulas of the tree on concrete values, and against direct computations.
use slate::formula::{
    ceil_log2, contains, count_pbsts, entry_access_distance, entry_access_distance_limits,
    floor_log2, i_mod_2e, is_pbst, is_valid, leaf_count, pbst_roots, pow2e, range, root_of,
    stratum_sample_size, subnodes_of, total_nodes, Addr, INode, Model,
};

/// The path from the root to a leaf: the nodes that branch off it, and the left turns.
fn path(n: u64, k: u64) -> (Vec<(u64, u8)>, u8) {
    let (mut i, mut j) = root_of(n);
    let mut branches = Vec::new();
    let mut turns = 0;
    while j > 0 {
        let (left, right) = subnodes_of(i, j);
        if contains(left.0, left.1, k) {
            branches.push(right);
            turns += 1;
            (i, j) = left;
        } else {
            branches.push(left);
            (i, j) = right;
        }
    }
    assert_eq!(k, i);
    (branches, turns)
}

#[test]
fn remainders_of_powers_of_two() {
    assert_eq!(0, i_mod_2e(u64::MAX, 0));
    assert_eq!(1, i_mod_2e(u64::MAX, 1));
    assert_eq!(3, i_mod_2e(u64::MAX, 2));
    assert_eq!(7, i_mod_2e(u64::MAX, 3));
    assert_eq!(u64::MAX, i_mod_2e(u64::MAX, 64));
    assert_eq!(5, i_mod_2e(13, 3));
}

#[test]
fn powers_of_two() {
    assert_eq!(1, pow2e(0));
    assert_eq!(2, pow2e(1));
    assert_eq!(4, pow2e(2));
    assert_eq!(8, pow2e(3));
    assert_eq!(u64::MAX / 2 + 1, pow2e(63));
}

#[test]
fn logarithms_rounded_up() {
    assert_eq!(0, ceil_log2(1));
    assert_eq!(1, ceil_log2(2));
    assert_eq!(2, ceil_log2(3));
    assert_eq!(8, ceil_log2(255));
    assert_eq!(8, ceil_log2(256));
    assert_eq!(9, ceil_log2(257));
    assert_eq!(64, ceil_log2(u64::MAX));
}

#[test]
fn logarithms_rounded_down() {
    assert_eq!(0, floor_log2(1));
    assert_eq!(1, floor_log2(2));
    assert_eq!(1, floor_log2(3));
    assert_eq!(7, floor_log2(255));
    assert_eq!(8, floor_log2(256));
    assert_eq!(63, floor_log2(u64::MAX));
}

#[test]
fn node_totals() {
    assert_eq!(0, total_nodes(0));
    assert_eq!(1, total_nodes(1));
    assert_eq!(9, total_nodes(5));
    assert_eq!((u64::MAX as u128) * 2 - 1, total_nodes(u64::MAX));
}

#[test]
fn perfect_subtrees_of_small_trees() {
    assert_eq!(Vec::<Addr>::new(), pbst_roots(0));
    assert_eq!(vec![Addr::new(1, 0)], pbst_roots(1));
    assert_eq!(vec![Addr::new(4, 2), Addr::new(6, 1), Addr::new(7, 0)], pbst_roots(7));
    assert_eq!(vec![Addr::new(8, 3)], pbst_roots(8));
    for n in 1..=1024u64 {
        let roots = pbst_roots(n);
        assert_eq!(n.count_ones() as u8, count_pbsts(n));
        assert_eq!(count_pbsts(n) as usize, roots.len());
        // they follow each other, and get lower
        let mut next = 1;
        let mut height = 64;
        for root in roots.iter() {
            assert!(is_pbst(root.i, root.j));
            assert_eq!(next, *range(root.i, root.j).start());
            assert!(root.j < height);
            next = root.i + 1;
            height = root.j;
        }
        assert_eq!(n + 1, next);
    }
    assert_eq!(64, pbst_roots(u64::MAX).len());
    assert_eq!(64, count_pbsts(u64::MAX));
}

#[test]
fn leaves_of_a_node() {
    assert_eq!((5, 7), (*range(7, 2).start(), *range(7, 2).end()));
    assert_eq!((1, u64::MAX), (*range(u64::MAX, 64).start(), *range(u64::MAX, 64).end()));
    assert_eq!(3, leaf_count(7, 2));
    assert_eq!(u64::MAX, leaf_count(u64::MAX, 64));
    assert!(contains(7, 2, 5));
    assert!(!contains(7, 2, 4));
    assert!(!contains(7, 2, 8));
    assert!(!contains(7, 2, 0));
}

#[test]
fn roots_of_generations() {
    assert_eq!((1, 0), root_of(1));
    assert_eq!((5, 3), root_of(5));
    assert_eq!((8, 3), root_of(8));
    assert_eq!((u64::MAX, 64), root_of(u64::MAX));
}

#[test]
fn children_share_the_leaves_out() {
    assert_eq!(((4, 2), (5, 0)), subnodes_of(5, 3));
    assert_eq!(((6, 1), (7, 0)), subnodes_of(7, 2));
    assert_eq!(((1 << 63, 63), (u64::MAX, 63)), subnodes_of(u64::MAX, 64));
    for i in 1..=256u64 {
        for j in 1..=9u8 {
            if is_valid(i, j) {
                let ((il, jl), (ir, jr)) = subnodes_of(i, j);
                assert!(is_pbst(il, jl));
                assert_eq!(i, ir);
                assert!(jl < j && jr < j);
                assert_eq!(leaf_count(i, j), leaf_count(il, jl) + leaf_count(ir, jr));
                for k in 0..=257u64 {
                    let left = contains(il, jl, k);
                    let right = contains(ir, jr, k);
                    assert_eq!(contains(i, j, k), left || right);
                    assert!(!(left && right));
                }
            }
        }
    }
}

#[test]
fn nodes_that_exist() {
    assert!(!is_valid(0, 0));
    assert!(is_valid(1, 0));
    assert!(!is_valid(1, 1));
    assert!(is_valid(3, 2));
    assert!(!is_valid(3, 1));
    assert!(is_valid(5, 3));
    assert!(!is_valid(5, 1));
    assert!(!is_valid(5, 2));
    assert!(is_valid(7, 2));
    assert!(!is_valid(7, 200));
    // the nodes that are reached from some root are those that exist
    for i in 1..=64u64 {
        let mut found = Vec::new();
        for n in i..=128u64 {
            let mut stack = vec![root_of(n)];
            while let Some((a, b)) = stack.pop() {
                if a == i && !found.contains(&b) {
                    found.push(b);
                }
                if b > 0 {
                    let (left, right) = subnodes_of(a, b);
                    stack.push(left);
                    stack.push(right);
                }
            }
        }
        for j in 0..=9u8 {
            assert_eq!(found.contains(&j), is_valid(i, j), "({i}, {j})");
        }
    }
}

#[test]
fn models_of_small_trees() {
    let model = Model::new(7);
    assert_eq!(7, model.n());
    assert_eq!(Addr::new(7, 3), model.root());
    assert_eq!(&pbst_roots(7), model.pbst_roots());
    let n73 = INode::new(Addr::new(7, 3), Addr::new(4, 2), Addr::new(7, 2));
    let n72 = INode::new(Addr::new(7, 2), Addr::new(6, 1), Addr::new(7, 0));
    assert_eq!(&vec![n73, n72], model.ephemeral_nodes());
    assert_eq!(vec![n72, n73], model.inodes());
    assert_eq!(Some(n73), model.inode(7, 3));
    assert_eq!(Some(n72), model.inode(7, 2));
    assert_eq!(
        Some(INode::new(Addr::new(4, 2), Addr::new(2, 1), Addr::new(4, 1))),
        model.inode(4, 2)
    );
    assert_eq!(None, model.inode(7, 1));
    assert_eq!(None, model.inode(7, 0));
    assert_eq!(None, model.inode(3, 2));
    assert_eq!(None, model.inode(8, 3));
    assert_eq!(None, model.inode(0, 1));

    let model = Model::new(8);
    assert_eq!(Addr::new(8, 3), model.root());
    assert!(model.ephemeral_nodes().is_empty());
    assert_eq!(3, model.inodes().len());
    assert_eq!(
        Some(INode::new(Addr::new(8, 3), Addr::new(4, 2), Addr::new(8, 2))),
        model.inode(8, 3)
    );
    assert_eq!(model, model.clone());

    let model = Model::new(1);
    assert_eq!(Addr::new(1, 0), model.root());
    assert!(model.inodes().is_empty());
}

#[test]
fn sample_sizes_and_distances_along_paths() {
    for n in 1..=200u64 {
        assert_eq!(0, stratum_sample_size(n, 0));
        assert_eq!(0, stratum_sample_size(n, n + 1));
        assert_eq!(None, entry_access_distance(0, n));
        assert_eq!(None, entry_access_distance(n + 1, n));
        for k in 1..=n {
            let (branches, turns) = path(n, k);
            assert_eq!(branches.len() as u8, stratum_sample_size(n, k));
            assert_eq!(Some(turns), entry_access_distance(k, n));
            assert!(turns <= stratum_sample_size(n, k));
            assert!(stratum_sample_size(n, k) <= ceil_log2(n));
        }
    }
    assert_eq!(None, entry_access_distance(1, 0));
    assert_eq!(Some(64), entry_access_distance(1, u64::MAX));
    assert_eq!(64, stratum_sample_size(u64::MAX, 1));
    assert_eq!(63, stratum_sample_size(u64::MAX, u64::MAX));
}

#[test]
fn distance_limits_of_a_tree() {
    let (ul, ll) = entry_access_distance_limits(12);
    for (distance, range) in [(12, 12), (10, 11), (6, 9), (2, 5), (1, 1)].iter().enumerate() {
        assert_eq!(*range, (*ul[distance].start(), *ul[distance].end()));
    }
    for (distance, range) in [(12, 12), (8, 11), (4, 7), (2, 3), (1, 1)].iter().enumerate() {
        assert_eq!(*range, (*ll[distance].start(), *ll[distance].end()));
    }
    let (ul, ll) = entry_access_distance_limits(0);
    assert!(ul.is_empty() && ll.is_empty());
}

#[test]
fn distance_limits_bound_the_distances() {
    for n in 1..=300u64 {
        let distances =
            (1..=n).map(|k| entry_access_distance(k, n).unwrap() as usize).collect::<Vec<_>>();
        let (ul, ll) = entry_access_distance_limits(n);
        assert_eq!(ceil_log2(n) as usize + 1, ul.len());
        assert_eq!(ul.len(), ll.len());
        for k in 1..=n {
            let farthest = *distances[k as usize - 1..].iter().max().unwrap();
            let nearest = *distances[..k as usize].iter().min().unwrap();
            for d in 0..ul.len() {
                assert_eq!(d == farthest, ul[d].contains(&k), "n={n}, k={k}, d={d}");
                assert_eq!(d == nearest, ll[d].contains(&k), "n={n}, k={k}, d={d}");
            }
        }
    }
    let (ul, ll) = entry_access_distance_limits(u64::MAX);
    assert_eq!(65, ul.len());
    assert_eq!(65, ll.len());
}
