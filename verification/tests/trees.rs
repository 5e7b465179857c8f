//! What holds of trees as a whole, on concrete values.
use slate::error::Error;
use slate::formula::{ceil_log2, contains};
use slate::{
    BlockStorage, Collector, Index, Prove, Slate, StratumSample, Value, ValuesWithBranches, Visitor,
    WalkDirection, Witnesses, MAX_PAYLOAD_SIZE,
};

/// Lets a closure visit nodes.
struct Walker<F>(F);

impl<F> Visitor for Walker<F>
where
    F: FnMut(Index, Index, u8, &slate::Hash, Option<&[u8]>) -> WalkDirection,
{
    fn visit(
        &mut self,
        revision: Index,
        i: Index,
        j: u8,
        hash: &slate::Hash,
        value: Option<&[u8]>,
    ) -> WalkDirection {
        (self.0)(revision, i, j, hash, value)
    }
}

fn values(n: u64) -> Vec<Vec<u8>> {
    (1..=n).map(|i| i.to_be_bytes().to_vec()).collect()
}

#[test]
fn values_come_back() {
    let mut slate = Slate::new_on_memory();
    slate.append("first".as_bytes()).unwrap();
    slate.append("second".as_bytes()).unwrap();
    slate.append("third".as_bytes()).unwrap();

    let mut query = slate.snapshot().query().unwrap();
    assert_eq!("first".as_bytes(), query.get(1).unwrap().unwrap());
    assert_eq!("second".as_bytes(), query.get(2).unwrap().unwrap());
    assert_eq!("third".as_bytes(), query.get(3).unwrap().unwrap());
}

#[test]
fn the_root_hash_is_that_of_the_values() {
    let mut block = Slate::new_on_memory_with_capacity(100);
    let mut kvs = Slate::new_on_memkvs();
    assert_eq!(0, block.height());
    let mut all = Vec::new();
    for (k, value) in values(70).into_iter().enumerate() {
        let root = block.append(&value).unwrap();
        let other = kvs.append(&value).unwrap();
        all.push(Value::new(k as u64 + 1, value));
        let expected = ValuesWithBranches::new(all.clone(), vec![]).root();
        assert_eq!((expected.i, expected.j), (root.address.i, root.address.j));
        assert_eq!(expected.hash, root.hash);
        assert_eq!(root.hash, other.hash);
        assert_eq!(Some(&root), block.root());
        assert_eq!(ceil_log2(k as u64 + 1), block.height());
    }
}

#[test]
fn truncating_undoes_appending() {
    let mut db = Slate::new_on_memory();
    for value in values(20) {
        let before = db.storage().device().content().clone();
        let root = db.root().cloned();
        db.append(&value).unwrap();
        let n = db.n();
        assert!(db.truncate(n).unwrap());
        assert_eq!(&before, db.storage().device().content());
        assert_eq!(root, db.root().cloned());
        db.append(&value).unwrap();
    }
    assert!(!db.truncate(0).unwrap());
    assert_eq!(20, db.n());
}

#[test]
fn snapshots_are_the_trees_of_the_first_values() {
    let all = values(40);
    let mut db = Slate::with_cache_level(BlockStorage::memory(), 2).unwrap();
    for value in all.iter() {
        db.append(value).unwrap();
    }
    let mut short = Slate::new_on_memory();
    for n in 1..=40u64 {
        short.append(&all[n as usize - 1]).unwrap();
        let snapshot = db.snapshot_at(n).unwrap();
        assert_eq!(n, snapshot.n());
        assert_eq!(n, snapshot.revision());
        assert_eq!(short.root(), Some(&snapshot.root()));
        let mut query = snapshot.query().unwrap();
        let mut collector = Collector::new();
        assert_eq!(n, query.scan(0, u64::MAX, &mut collector).unwrap());
        for (k, entry) in collector.entries.iter().enumerate() {
            assert_eq!(&all[k], &entry.enode.payload);
            assert_eq!(
                short.snapshot().query().unwrap().read_entry(k as u64 + 1).unwrap().as_ref(),
                Some(entry)
            );
        }
    }
    assert!(matches!(
        db.snapshot_at(41).map(|s| s.n()),
        Err(Error::InvalidArgument(message))
            if message == "Entry 41 is not contained in the current revision 40"
    ));
}

#[test]
fn payloads_over_the_limit_are_refused() {
    let mut db = Slate::new_on_memory();
    let large = vec![0u8; MAX_PAYLOAD_SIZE + 1];
    match db.append(&large) {
        Err(Error::TooLargePayload { size }) => assert_eq!(MAX_PAYLOAD_SIZE + 1, size),
        other => panic!("{other:?}"),
    }
    assert_eq!(0, db.n());
}

#[test]
fn walking_to_the_left() {
    let mut db = Slate::new(BlockStorage::memory()).unwrap();
    for i in 0..5u8 {
        db.append(&[i]).unwrap();
    }
    let snapshot = db.snapshot();
    let mut query = snapshot.query().unwrap();
    let mut leaf = None;
    let mut path = Vec::new();
    query
        .walk_down(&mut Walker(
            |revision: Index, i: Index, j: u8, _: &slate::Hash, value: Option<&[u8]>| {
                assert_eq!(5, revision);
                path.push((i, j));
                if j == 0 {
                    leaf = value.map(|a| a.to_vec());
                    WalkDirection::Terminate
                } else {
                    assert!(value.is_none());
                    WalkDirection::Left
                }
            },
        ))
        .unwrap();
    assert_eq!(vec![(5, 3), (4, 2), (2, 1), (1, 0)], path);
    assert_eq!(vec![0u8], leaf.unwrap());
}

#[test]
fn full_walks_go_to_the_right_first() {
    let mut db = Slate::new(BlockStorage::memory()).unwrap();
    for i in 0..5u8 {
        db.append(&[i]).unwrap();
    }
    let mut nodes = Vec::new();
    db.snapshot()
        .query()
        .unwrap()
        .walk_down(&mut Walker(
            |_: Index, i: Index, j: u8, _: &slate::Hash, _: Option<&[u8]>| {
                nodes.push((i, j));
                WalkDirection::Both
            },
        ))
        .unwrap();
    let expected = vec![
        (5, 3),
        (5, 0),
        (4, 2),
        (4, 1),
        (4, 0),
        (3, 0),
        (2, 1),
        (2, 0),
        (1, 0),
    ];
    assert_eq!(expected, nodes);
}

#[test]
fn entries_of_a_small_tree() {
    let mut db = Slate::new_on_memory();
    for value in values(3) {
        db.append(&value).unwrap();
    }
    let entry = db.snapshot().query().unwrap().read_entry(3).unwrap().unwrap();
    assert_eq!(*db.root().unwrap(), entry.root());
    assert_eq!(1, entry.inodes.len());
    assert_eq!(Some(&entry.inodes[0]), entry.inode(2));
    assert_eq!(None, entry.inode(1));
    assert_eq!(Some(&entry.enode.meta), entry.meta(0));
    assert_eq!(Some(&entry.inodes[0].meta), entry.meta(2));
    assert_eq!(None, entry.meta(5));
    assert_eq!((2, 1), (entry.inodes[0].left.i, entry.inodes[0].left.j));
    assert_eq!((3, 0), (entry.inodes[0].right.i, entry.inodes[0].right.j));
    let first = db.snapshot().query().unwrap().read_entry(1).unwrap().unwrap();
    assert_eq!(first.enode.meta, first.root());
    assert_eq!(None, db.snapshot().query().unwrap().read_entry(0).unwrap());
    assert_eq!(None, db.snapshot().query().unwrap().read_entry(4).unwrap());
}

fn sample(values: &[Vec<u8>], k: u64) -> StratumSample {
    let mut db = Slate::new_on_memory();
    for value in values {
        db.append(value).unwrap();
    }
    let sample = db.snapshot().query().unwrap().get_sample(k).unwrap().unwrap();
    assert_eq!(db.root().unwrap().hash, sample.root_hash().unwrap());
    sample
}

/// A sample with the witnesses of another, of which those that `keep` refuses are left out.
fn with_witnesses(sample: &StratumSample, keep: impl Fn(usize) -> bool) -> StratumSample {
    let mut witnesses = Witnesses::new();
    for k in 0..sample.witnesses.len() {
        let (key, hash) = sample.witnesses.at(k);
        if keep(k) {
            witnesses.insert(key, hash);
        }
    }
    StratumSample { revision: sample.revision, leaf: sample.leaf.clone(), witnesses }
}

#[test]
fn changed_samples_do_not_lead_to_the_root() {
    let all = values(21);
    for k in 1..=21u64 {
        let good = sample(&all, k);
        let root = good.root_hash().unwrap();
        // the value
        let mut bad = good.clone();
        bad.leaf.value[0] ^= 1;
        assert_ne!(root, bad.root_hash().unwrap());
        // a witness
        for w in 0..good.witnesses.len() {
            let (key, hash) = good.witnesses.at(w);
            let mut bad = good.clone();
            let mut value = hash.value;
            value[31] ^= 0x10;
            bad.witnesses.insert(key, slate::Hash::new(value));
            assert_ne!(root, bad.root_hash().unwrap());
            assert_eq!(good.witnesses.len(), bad.witnesses.len());
        }
        // a copy is the same
        assert_eq!(good, good.clone());
        assert_eq!(good, with_witnesses(&good, |_| true));
    }
}

fn failure<T: std::fmt::Debug>(result: slate::Result<T>) -> String {
    match result {
        Err(Error::SampleVerificationFailed(message)) => message,
        other => panic!("{other:?}"),
    }
}

#[test]
fn samples_that_are_not_valid() {
    let good = sample(&values(6), 3);
    let mut bad = good.clone();
    bad.leaf.i = 7;
    assert_eq!(
        "The stratum sample structure is incorrect: The leaf node b_7 is not contained",
        failure(bad.root_hash())
    );
    bad.leaf.i = 0;
    assert_eq!(
        "The stratum sample structure is incorrect: The leaf node b_0 is not contained",
        failure(bad.root_hash())
    );
    bad.revision = 1;
    bad.leaf.i = 2;
    assert_eq!(
        "The sample structure is incorrect: This path is for b_1, but b_2 is stored",
        failure(bad.root_hash())
    );
    bad.revision = 0;
    assert_eq!(
        "The stratum sample structure is incorrect: The leaf node b_2 is not contained",
        failure(bad.root_hash())
    );
    let bad = with_witnesses(&good, |k| k != 0);
    assert_eq!(
        "The stratum sample structure is incorrect: The witness b_{6,1} is missing",
        failure(bad.root_hash())
    );
    assert_eq!(failure(bad.root_hash()), failure(bad.compare(&good)));
    assert_eq!(failure(bad.root_hash()), failure(good.compare(&bad)));
}

#[test]
fn samples_that_cannot_be_compared() {
    let one = sample(&values(6), 3);
    assert_eq!(
        "The revisions being compared are different: 6 != 7",
        failure(one.compare(&sample(&values(7), 3)))
    );
    assert_eq!(
        "The different stratum sample between 3 and 4 in revisions 6 cannot be compared",
        failure(one.compare(&sample(&values(6), 4)))
    );
    // a witness beside the path that the other sample lacks
    let mut changed = values(6);
    changed[0][0] = 1;
    let other = sample(&changed, 3);
    let mut more = one.clone();
    more.witnesses.insert((1, 0), slate::Hash::new([0; 32]));
    assert_eq!(one.root_hash().unwrap(), more.root_hash().unwrap());
    assert_eq!(
        "The stratum sample structure is incorrect: The witness b_{1,0} is missing",
        failure(more.compare(&other))
    );
    assert_eq!(Prove::Identical, more.compare(&one).unwrap());
}

#[test]
fn every_difference_is_below_a_reported_node() {
    let one = values(23);
    for changes in [vec![1u64], vec![23], vec![5, 6], vec![1, 9, 17, 22], (1..=23).collect()] {
        let mut two = one.clone();
        for c in changes.iter() {
            two[*c as usize - 1].push(0);
        }
        for k in 1..=23u64 {
            let s = sample(&one, k);
            let t = sample(&two, k);
            assert_eq!(Prove::Identical, s.compare(&s.clone()).unwrap());
            match s.compare(&t).unwrap() {
                Prove::Identical => panic!(),
                Prove::Divergent(list) => {
                    // from the last to the first
                    for pair in list.windows(2) {
                        assert!(pair[0] > pair[1]);
                    }
                    for (i, j) in list.iter() {
                        assert!(changes.iter().any(|c| contains(*i, *j, *c)));
                    }
                    for c in changes.iter() {
                        assert!(list.iter().any(|(i, j)| contains(*i, *j, *c)));
                    }
                    assert_eq!(
                        Prove::Divergent(list.clone()),
                        Prove::Divergent(list).clone()
                    );
                }
            }
        }
    }
}

#[test]
fn the_search_for_a_difference_narrows() {
    let mut server = Slate::new_on_memory();
    let mut client = Slate::new_on_memory();
    for i in 1u32..=256 {
        server.append(&i.to_le_bytes()).unwrap();
        client.append(&(if i != 199 { i.to_le_bytes() } else { i.to_be_bytes() })).unwrap();
    }
    assert_ne!(client.root(), server.root());

    let revision = client.n();
    let mut i = revision;
    let mut height = 64;
    let mut interactions = 0;
    let proved_index = loop {
        let snapshot = client.snapshot_at(revision).unwrap();
        let mut query = snapshot.query().unwrap();
        let sample = query.get_sample(i).unwrap().unwrap();
        interactions += 1;

        let snapshot = server.snapshot_at(sample.revision).unwrap();
        let mut query = snapshot.query().unwrap();
        let server_sample = query.get_sample(sample.leaf.i).unwrap().unwrap();
        match server_sample.compare(&sample).unwrap() {
            Prove::Divergent(diffs) => {
                assert_eq!(1, diffs.len());
                let (di, dj) = diffs[0];
                assert!(contains(di, dj, 199));
                assert!(dj < height);
                if dj == 0 {
                    break di;
                }
                height = dj;
                i = di;
            }
            Prove::Identical => panic!(),
        }
    };
    assert_eq!(4, interactions);
    assert_eq!(199, proved_index);
}

#[test]
fn witnesses_by_node() {
    let mut witnesses = Witnesses::new();
    let hash = |b: u8| slate::Hash::new([b; 32]);
    assert_eq!(0, witnesses.len());
    for (k, key) in [(4, 2), (9, 0), (4, 0), (1, 1), (9, 3)].into_iter().enumerate() {
        witnesses.insert(key, hash(k as u8));
    }
    assert_eq!(5, witnesses.len());
    assert_eq!(Some(&hash(2)), witnesses.get(4, 0));
    assert_eq!(None, witnesses.get(4, 1));
    witnesses.insert((4, 0), hash(9));
    assert_eq!(5, witnesses.len());
    assert_eq!(Some(&hash(9)), witnesses.get(4, 0));
    let keys = (0..5).map(|k| witnesses.at(k).0).collect::<Vec<_>>();
    assert_eq!(vec![(9, 3), (9, 0), (4, 2), (4, 0), (1, 1)], keys);
    assert_eq!(witnesses, witnesses.clone());
}

#[test]
fn queries_go_on_while_values_are_appended_and_removed() {
    let mut db = Slate::new_on_memory();
    let mut kvs = Slate::new_on_memkvs();
    for value in values(10) {
        db.append(&value).unwrap();
        kvs.append(&value).unwrap();
    }
    let mut query = db.snapshot().query().unwrap();
    let mut kvs_query = kvs.snapshot().query().unwrap();
    let root = query.get_sample(3).unwrap().unwrap().root_hash().unwrap();
    for value in values(20) {
        db.append(&value).unwrap();
        kvs.append(&value).unwrap();
        for i in 0..=11u64 {
            let expected =
                if 1 <= i && i <= 10 { Some(i.to_be_bytes().to_vec()) } else { None };
            assert_eq!(expected, query.get(i).unwrap());
            assert_eq!(expected, kvs_query.get(i).unwrap());
        }
        assert_eq!(10, query.revision());
        let mut collector = Collector::new();
        assert_eq!(10, query.scan(1, 30, &mut collector).unwrap());
    }
    assert!(db.truncate(2).unwrap());
    assert_eq!(1, db.n());
    let again = query.get_sample(3).unwrap().unwrap().root_hash().unwrap();
    assert_eq!(root, again);
}
