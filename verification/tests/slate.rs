//! Trees over storages in memory: appending, reading back, scanning, truncating, walking, and
//! comparing samples.
use slate::formula::{ceil_log2, contains, stratum_sample_size, subnodes_of, total_nodes};
use slate::{
    BlockStorage, Entry, EntryVisitor, Index, MemoryDevice, Prove, Slate, Visitor, WalkDirection,
    STORAGE_IDENTIFIER, STORAGE_VERSION,
};
use std::cmp::{max, min};
use std::collections::HashSet;

/// Lets a closure visit nodes.
struct Walker<F>(F);

impl<F> Visitor for Walker<F>
where
    F: FnMut(Index, Index, u8, &slate::Hash, Option<&[u8]>) -> WalkDirection,
{
    fn visit(
        &mut self,
        revision: Index,
        i: Index,
        j: u8,
        hash: &slate::Hash,
        value: Option<&[u8]>,
    ) -> WalkDirection {
        (self.0)(revision, i, j, hash, value)
    }
}

/// Lets a closure take entries.
struct Scanner<F>(F);

impl<F> EntryVisitor for Scanner<F>
where
    F: FnMut(Entry) -> Result<(), String>,
{
    fn visit(&mut self, entry: Entry) -> Result<(), String> {
        (self.0)(entry)
    }
}

#[test]
fn test_bootstrap() {
    // an empty storage gets the identifier and the version
    let storage = BlockStorage::from_buffer(Vec::new(), false);
    let db = Slate::new(storage).unwrap();
    let content = db.storage().device().content();
    let snapshot = db.snapshot();
    let mut query = snapshot.query().unwrap();
    assert_eq!(None, db.root());
    assert_eq!(0, db.n());
    assert_eq!(0, query.revision());
    assert_eq!(None, query.get(1).unwrap());
    assert_eq!(4, content.len());
    assert_eq!(&STORAGE_IDENTIFIER[..], &content[..3]);
    assert_eq!(STORAGE_VERSION, content[3]);

    // the serialized form of 0 to n entries
    let n = 100;
    let samples = (0..=n as u64)
        .map(|i| (0u64..i).map(|j| splitmix64(i * i + j)).collect::<Vec<_>>())
        .map(|value| value.iter().map(|i| i.to_le_bytes().to_vec()).collect::<Vec<_>>())
        .map(|values| {
            let storage = BlockStorage::from_buffer(Vec::new(), false);
            let mut db = Slate::new(storage).unwrap();
            for value in values.iter() {
                db.append(value).unwrap();
            }
            let buffer = db.storage().device().content().clone();
            (values, buffer)
        })
        .collect::<Vec<_>>();

    // the values come back from a storage with the serialized form
    for (values, buffer) in samples {
        let storage = BlockStorage::from_buffer(buffer, false);
        let db = Slate::new(storage).unwrap();
        let snapshot = db.snapshot();
        let mut query = snapshot.query().unwrap();
        for (i, expected) in values.iter().enumerate() {
            println!("{}/{}: {expected:?}", i + 1, db.n());
            let actual = query.get(i as u64 + 1).unwrap().unwrap();
            assert_eq!(expected, &actual);
        }
        match db.root() {
            Some(root) => {
                assert_eq!(values.len() as Index, root.address.i);
                assert_eq!(ceil_log2(values.len() as Index), root.address.j);
            }
            None => assert!(values.is_empty()),
        }
    }
}

#[test]
fn can_resume_from_saved_data() {
    let mut buffer = Vec::new();
    for n in 1..=256 {
        let storage = BlockStorage::from_buffer(buffer.clone(), false);
        let mut db = Slate::new(storage).unwrap();
        assert_eq!(n - 1, db.n());

        // read previously saved data
        let snapshot = db.snapshot();
        let mut query = snapshot.query().unwrap();
        assert_eq!(n - 1, query.revision());
        for i in 1..n {
            let expected = splitmix64(i).to_le_bytes();
            assert_eq!(Some(expected.to_vec()), query.get(i).unwrap());
        }

        // save a new data
        db.append(&splitmix64(n).to_le_bytes()).unwrap();
        buffer = db.storage().device().content().clone();
    }
}

const PAYLOAD_SIZE: usize = 4;

#[test]
fn append_and_get() {
    const N: u64 = 100;
    for n in 1..=N {
        let db = prepare_db(n, PAYLOAD_SIZE);
        let snapshot = db.snapshot();
        let mut query = snapshot.query().unwrap();

        // every leaf
        for i in 0..n {
            let expected = random_payload(PAYLOAD_SIZE, i + 1);
            let value = query.get(i + 1).unwrap();
            assert!(value.is_some());
            assert_eq!(&expected, &value.unwrap());
        }

        // out of range
        assert!(query.get(0).unwrap().is_none());
        assert!(query.get(n + 1).unwrap().is_none());
    }
}

#[test]
fn append_and_scan() {
    const N: u64 = 105;
    let n = N - 5;
    let db = prepare_db(N, PAYLOAD_SIZE);
    let snapshot = db.snapshot_at(n).unwrap();
    let mut query = snapshot.query().unwrap();

    // all entries
    let mut scanned = 0u64;
    let count = query
        .scan(
            1,
            n,
            &mut Scanner(|entry: Entry| {
                scanned += 1;
                assert_eq!(scanned, entry.enode.meta.address.i);
                let expected = random_payload(PAYLOAD_SIZE, scanned);
                let actual = entry.enode.payload;
                assert_eq!(&expected, &actual);
                Ok(())
            }),
        )
        .unwrap();
    assert_eq!(n, count);
    assert_eq!(n, scanned);

    // any part of the range
    for i in 0..10 {
        let i0 = splitmix64(i) % n + 1;
        let i1 = splitmix64(i + 10) % n + 1;
        let (i0, i1) = (min(i0, i1), max(i0, i1));
        scanned = 0u64;
        let count = query
            .scan(
                i0,
                i1,
                &mut Scanner(|entry: Entry| {
                    scanned += 1;
                    assert_eq!(i0 + scanned - 1, entry.enode.meta.address.i);
                    let expected = random_payload(PAYLOAD_SIZE, i0 + scanned - 1);
                    let actual = entry.enode.payload;
                    assert_eq!(&expected, &actual, "{i0}..{i1}, scanned={scanned}");
                    Ok(())
                }),
            )
            .unwrap();
        assert_eq!((i1).abs_diff(i0) + 1, count, "{i0}, {i1}");
        assert_eq!((i1).abs_diff(i0) + 1, scanned, "{i0}, {i1}");
    }

    // nothing happens beyond the bounds
    let mut scanned = 0u64;
    let count = query
        .scan(
            n + 1,
            u64::MAX,
            &mut Scanner(|_: Entry| {
                scanned += 1;
                Ok(())
            }),
        )
        .unwrap();
    assert_eq!(0, count);
    assert_eq!(0, scanned);

    let mut scanned = 0u64;
    let count = query
        .scan(
            0,
            0,
            &mut Scanner(|_: Entry| {
                scanned += 1;
                Ok(())
            }),
        )
        .unwrap();
    assert_eq!(0, count);
    assert_eq!(0, scanned);

    // only the part in range
    let mut scanned = 0u64;
    let count = query
        .scan(
            n,
            n + 1,
            &mut Scanner(|entry: Entry| {
                scanned += 1;
                assert_eq!(n, entry.enode.meta.address.i);
                Ok(())
            }),
        )
        .unwrap();
    assert_eq!(1, count);
    assert_eq!(1, scanned);

    let mut scanned = 0u64;
    let count = query
        .scan(
            0,
            1,
            &mut Scanner(|entry: Entry| {
                scanned += 1;
                assert_eq!(1, entry.enode.meta.address.i);
                Ok(())
            }),
        )
        .unwrap();
    assert_eq!(1, count);
    assert_eq!(1, scanned);

    // bounds the wrong way round
    let mut scanned = 0u64;
    let count = query
        .scan(
            u64::MAX,
            0,
            &mut Scanner(|entry: Entry| {
                scanned += 1;
                assert_eq!(scanned, entry.enode.meta.address.i);
                Ok(())
            }),
        )
        .unwrap();
    assert_eq!(n, count);
    assert_eq!(n, scanned);
}

#[test]
fn append_and_truncate() {
    const N: u64 = 100;
    for n in 1..=N {
        let mut db = prepare_db(n, PAYLOAD_SIZE);

        // an entry out of range
        assert!(!db.truncate(n + 1).unwrap());
        assert_eq!(n, db.n());
        assert_eq!(None, db.snapshot().query().unwrap().get(n + 1).unwrap());
        assert_eq!(
            Some(random_payload(PAYLOAD_SIZE, n)),
            db.snapshot().query().unwrap().get(n).unwrap()
        );

        // the last entry alone
        assert!(db.truncate(n).unwrap());
        assert_eq!(n - 1, db.n());
        assert_eq!(None, db.snapshot().query().unwrap().get(n).unwrap());
        if n > 1 {
            assert_eq!(
                Some(random_payload(PAYLOAD_SIZE, n - 1)),
                db.snapshot().query().unwrap().get(n - 1).unwrap()
            );
        }

        // the entries from the middle on
        let s = n / 2 + 1;
        if s != n {
            assert!(db.truncate(s).unwrap());
            assert_eq!(s - 1, db.n());
            assert_eq!(None, db.snapshot().query().unwrap().get(s).unwrap());
            if s > 1 {
                assert_eq!(
                    Some(random_payload(PAYLOAD_SIZE, s - 1)),
                    db.snapshot().query().unwrap().get(s - 1).unwrap()
                );
            }
        }

        // the first entry
        if n != 1 {
            assert!(db.truncate(1).unwrap());
            assert_eq!(0, db.n());
            assert_eq!(None, db.snapshot().query().unwrap().get(1).unwrap());
        }
    }
}

#[test]
fn referencing_a_specific_snapshot() {
    let storage = BlockStorage::memory();
    let mut db = Slate::new(storage).unwrap();
    assert!(db.snapshot_at(0).is_err());
    assert!(db.snapshot_at(1).is_err());

    let mut roots = Vec::new();
    for n in 1..=64 {
        roots.push(db.append(&[n - 1]).unwrap());
    }

    assert!(db.snapshot_at(0).is_err());
    assert!(db.snapshot_at(65).is_err());
    for n in 1..=64 {
        let snapshot = db.snapshot_at(n).unwrap();
        let root = snapshot.root();
        assert_eq!(n, root.address.i);
        assert_eq!(roots[n as usize - 1], root);
        assert_eq!(None, snapshot.query().unwrap().get(0).unwrap());
        assert_eq!(vec![0u8], snapshot.query().unwrap().get(1).unwrap().unwrap());
        assert_eq!(vec![n as u8 - 1], snapshot.query().unwrap().get(n).unwrap().unwrap());
        assert_eq!(None, snapshot.query().unwrap().get(n + 1).unwrap());
    }
}

#[test]
fn walk_down_for_empty() {
    let storage = BlockStorage::memory();
    let db = Slate::new(storage).unwrap();
    let snapshot = db.snapshot();
    let mut query = snapshot.query().unwrap();
    let mut count = 0;
    query
        .walk_down(&mut Walker(
            |_: Index, i: Index, j: u8, _: &slate::Hash, _: Option<&[u8]>| {
                println!("({i}, {j})");
                count += 1;
                WalkDirection::Both
            },
        ))
        .unwrap();
    assert_eq!(0, count);
}

#[test]
fn walk_down_randomly_left_and_right() {
    let mut rand = splitmix64(9876543210);
    for _ in 0..512 {
        let storage = BlockStorage::memory();
        let mut db = Slate::new(storage).unwrap();
        rand = splitmix64(rand);
        for i in 1..=((rand % 0xFF) as u8) {
            db.append(&[i]).unwrap();
        }
        let snapshot = db.snapshot();

        let mut next = None;
        let mut query = snapshot.query().unwrap();
        query
            .walk_down(&mut Walker(
                |_revision: Index, i: Index, j: u8, _hash: &slate::Hash, _value: Option<&[u8]>| {
                    if let Some((i2, j2)) = next {
                        assert!(i == i2 && j == j2);
                    }
                    if j == 0 {
                        next = None;
                        WalkDirection::Terminate
                    } else {
                        let ((il, jl), (ir, jr)) = subnodes_of(i, j);
                        rand = splitmix64(rand);
                        if rand % 2 == 0 {
                            next = Some((il, jl));
                            WalkDirection::Left
                        } else {
                            next = Some((ir, jr));
                            WalkDirection::Right
                        }
                    }
                },
            ))
            .unwrap();
        assert_eq!(None, next);
    }
}

#[test]
fn walk_down_all_nodes() {
    let mut rand = splitmix64(!9876543210);
    for _ in 0..512 {
        let storage = BlockStorage::memory();
        let mut db = Slate::new(storage).unwrap();
        rand = splitmix64(rand);
        for i in 0..=max(1, (rand % 0xFF) as u8) {
            db.append(&[i]).unwrap();
        }
        let snapshot = db.snapshot();

        let mut nodes = HashSet::new();
        let mut query = snapshot.query().unwrap();
        query
            .walk_down(&mut Walker(
                |_revision: Index, i: Index, j: u8, _hash: &slate::Hash, _value: Option<&[u8]>| {
                    assert!(nodes.insert((i, j)), "duplicate visited: ({i}, {j})");
                    WalkDirection::Both
                },
            ))
            .unwrap();
        assert_eq!(total_nodes(snapshot.revision()), nodes.len() as u128);
    }
}

#[test]
fn generate_stratum_sample() {
    // sample cannot obtain from empty tree
    let storage = BlockStorage::memory();
    let mut db = Slate::new(storage).unwrap();
    let snapshot = db.snapshot();
    let mut query = snapshot.query().unwrap();
    assert_eq!(None, query.get_sample(0).unwrap());
    assert_eq!(None, query.get_sample(1).unwrap());

    for n in 1..=64 {
        db.append(&[n - 1]).unwrap();
        let snapshot = db.snapshot();
        let mut query = snapshot.query().unwrap();
        assert!(query.get_sample(0).unwrap().is_none());
        for i in 1..=n {
            let sample = query.get_sample(i as Index).unwrap().unwrap();
            assert_eq!(i as Index, sample.leaf.i);
            assert_eq!(vec![i - 1], sample.leaf.value);
            assert_eq!(
                stratum_sample_size(n as Index, i as Index),
                sample.witnesses.len() as u8,
                "{n}: {sample:?}"
            );
        }
        assert!(query.get_sample(n as Index + 1).unwrap().is_none());
    }
}

#[test]
fn compare_stratum_sample() {
    // generate samples from the same trees and confirm that they match
    let mut db1 = Slate::new(BlockStorage::memory()).unwrap();
    let mut db2 = Slate::new(BlockStorage::memory()).unwrap();
    for n in 1..=64 {
        db1.append(&[n - 1]).unwrap();
        db2.append(&[n - 1]).unwrap();
        let s1 = db1.snapshot();
        let s2 = db2.snapshot();
        let mut q1 = s1.query().unwrap();
        let mut q2 = s2.query().unwrap();
        for i in 1..=n {
            let sample1 = q1.get_sample(i as Index).unwrap().unwrap();
            let sample2 = q2.get_sample(i as Index).unwrap().unwrap();
            assert_eq!(db1.root(), db2.root());
            assert_eq!(sample1.root_hash().unwrap(), sample2.root_hash().unwrap());
            assert_eq!(db1.root().unwrap().hash, sample1.root_hash().unwrap());
            assert_eq!(Prove::Identical, sample1.compare(&sample2).unwrap());
        }
    }
}

#[test]
fn detect_differences_in_stratum_samples() {
    const N: Index = 1024;
    let rand = splitmix64(1231239999);
    let garbling_index = rand % N + 1;
    let garbling_bit = ((rand / (N + 1)) % u8::BITS as Index) as usize;
    println!("grabling b_{garbling_index}:{garbling_bit}");

    // build instances that differ by only 1-bit
    let mut db1 = Slate::new(BlockStorage::memory()).unwrap();
    let mut db2 = Slate::new(BlockStorage::memory()).unwrap();
    for n in 1..=N {
        let b = (splitmix64(n) & 0xFF) as u8;
        db1.append(&[b]).unwrap();
        if n != garbling_index {
            db2.append(&[b]).unwrap();
        } else {
            db2.append(&[b ^ (1 << garbling_bit)]).unwrap();
        }
    }
    assert_ne!(db1.root(), db2.root());
    let s1 = db1.snapshot();
    let s2 = db2.snapshot();
    let mut q1 = s1.query().unwrap();
    let mut q2 = s2.query().unwrap();
    for i in 1..=N {
        let sample1 = q1.get_sample(i as Index).unwrap().unwrap();
        let sample2 = q2.get_sample(i as Index).unwrap().unwrap();
        assert_ne!(db1.root(), db2.root());
        assert_ne!(sample1.root_hash().unwrap(), sample2.root_hash().unwrap());
        assert_eq!(db1.root().unwrap().hash, sample1.root_hash().unwrap());
        assert_eq!(db2.root().unwrap().hash, sample2.root_hash().unwrap());
        match sample1.compare(&sample2).unwrap() {
            Prove::Identical => panic!(),
            Prove::Divergent(divergents) => {
                assert_eq!(1, divergents.len(), "{sample1:?} {sample2:?}");
                let (i, j) = divergents[0];
                assert!(contains(i, j, garbling_index));
            }
        }
    }

    // find the index of different leaf nodes
    let mut sample1 = q1.get_sample(s1.revision()).unwrap().unwrap();
    let mut steps = 0;
    let detected_i = loop {
        let sample2 = q2.get_sample(sample1.leaf.i).unwrap().unwrap();
        let (i, j) = match sample2.compare(&sample1).unwrap() {
            Prove::Divergent(divergents) => divergents[0],
            Prove::Identical => panic!(),
        };
        steps += 1;
        if j == 0 {
            break i;
        }
        sample1 = q1.get_sample(i).unwrap().unwrap();
    };
    println!("{steps} interactions");
    assert_eq!(garbling_index, detected_i);
}

/// A tree of `n` leaves with pseudo-random values of the given size.
fn prepare_db(n: u64, payload_size: usize) -> Slate<BlockStorage<MemoryDevice>> {
    let storage = BlockStorage::from_buffer(Vec::<u8>::with_capacity(4 * 1024), false);
    let mut db = Slate::new(storage).unwrap();

    for i in 0..n {
        let value = random_payload(payload_size, i + 1);
        let root = db.append(value.as_slice()).expect("append() failed");
        assert_eq!(db.root().cloned().unwrap(), root, "n={n}, i={i}");
        assert_eq!(i + 1, root.address.i);
        assert_eq!(ceil_log2(i + 1), root.address.j);
    }
    db
}

fn random_payload(length: usize, seed: u64) -> Vec<u8> {
    let mut buffer = Vec::with_capacity(length);
    let mut rand = seed;
    while buffer.len() < length {
        rand = splitmix64(rand);
        let bytes = rand.to_be_bytes();
        let len = min(bytes.len(), length - buffer.len());
        buffer.extend_from_slice(&bytes[..len]);
    }
    buffer
}

fn splitmix64(x: u64) -> u64 {
    let mut z = x;
    z = (z ^ (z >> 30)).wrapping_mul(0xbf58476d1ce4e5b9);
    z = (z ^ (z >> 27)).wrapping_mul(0x94d049bb133111eb);
    z ^ (z >> 31)
}
