//! Storages: what every one of them does, what the bytes of a storage are, and what is reported of
//! damaged ones.
use highway::HighwayHash;
use slate::error::Error;
use slate::formula::{entry_access_distance, Model};
use slate::ledger::check_index;
use slate::memory::KvsReader;
use slate::{
    is_version_compatible, Address, BlockDevice, BlockStorage, Collector, ENode, Entry,
    EntryVisitor, INode, Index, MemKVS, MemoryDevice, MetaInfo, Position, Reader, Slate, Storage,
    Visitor, WalkDirection, STORAGE_IDENTIFIER, STORAGE_VERSION,
};
use std::cell::RefCell;
use std::collections::HashMap;
use std::fmt::Debug;
use std::rc::Rc;

/// Lets a closure take entries.
struct Scanner<F>(F);

impl<F> EntryVisitor for Scanner<F>
where
    F: FnMut(Entry) -> Result<(), String>,
{
    fn visit(&mut self, entry: Entry) -> Result<(), String> {
        (self.0)(entry)
    }
}

fn build_entry(i: Index, value: &[u8], positions: &[Position]) -> Entry {
    let position = positions[i as usize - 1];
    let model = Model::new(i);
    let enode = ENode {
        meta: MetaInfo::new(Address::new(i, 0, position), slate::Hash::from_bytes(0, value)),
        payload: value.to_vec(),
    };
    let inodes = model
        .inodes()
        .iter()
        .map(|inode| {
            let meta = MetaInfo::new(
                Address::new(inode.node.i, inode.node.j, position),
                slate::Hash::new([0; slate::Hash::SIZE]),
            );
            let left =
                Address::new(inode.left.i, inode.left.j, positions[inode.left.i as usize - 1]);
            let right =
                Address::new(inode.right.i, inode.right.j, positions[inode.right.i as usize - 1]);
            INode::new(meta, left, right)
        })
        .collect();
    Entry::new(enode, inodes)
}

fn splitmix64(x: u64) -> u64 {
    let mut z = x;
    z = (z ^ (z >> 30)).wrapping_mul(0xbf58476d1ce4e5b9);
    z = (z ^ (z >> 27)).wrapping_mul(0x94d049bb133111eb);
    z ^ (z >> 31)
}

fn verify_storage_spec<S: Storage + Debug>(storage: &mut S) {
    // nothing is stored yet
    let (entry, first_position) = storage.last().unwrap();
    assert!(entry.is_none());

    // writing and reading in turn
    let mut positions = vec![first_position];
    for i in 0..1024 {
        if positions.len() == 1 || splitmix64(i as u64) < u64::MAX / 2 {
            let i = positions.len() as u64;
            let position = *positions.last().unwrap();
            let value = i.to_le_bytes().to_vec();
            let entry = build_entry(i, &value, &positions);
            positions.push(storage.put(position, &entry).unwrap());
        } else {
            let rand = splitmix64(!i as u64);
            let i = (rand % (positions.len() as u64 - 1) + 1) as Index;
            let position = positions[i as usize - 1];
            let value = i.to_le_bytes().to_vec();
            let expected = build_entry(i, &value, &positions);

            let mut cursor = storage.reader().unwrap();
            let entry = cursor.read(position).unwrap();
            assert_eq!(i, entry.enode.meta.address.i);
            assert_eq!(0, entry.enode.meta.address.j);
            assert_eq!(position, entry.enode.meta.address.position);
            assert_eq!(&value, &entry.enode.payload);
            let hash = slate::Hash::from_bytes(0, &value);
            assert_eq!(hash, entry.enode.meta.hash);
            assert_eq!(&expected, &entry);
        }
    }

    verify_storage_truncate(storage, first_position);
    verify_storage_scan(storage, first_position);
}

fn verify_storage_truncate<S: Storage + Debug>(storage: &mut S, first_position: Position) {
    // all entries
    assert!(storage.truncate(first_position).unwrap());
    let (entry, truncated_first_position) = storage.last().unwrap();
    assert_eq!(first_position, truncated_first_position);
    assert!(entry.is_none());

    // nothing to remove
    assert!(!storage.truncate(first_position).unwrap());
    let (entry, truncated_first_position) = storage.last().unwrap();
    assert_eq!(first_position, truncated_first_position);
    assert!(entry.is_none());

    // behind the end
    assert!(!storage.truncate(100).unwrap());
    let (entry, truncated_first_position) = storage.last().unwrap();
    assert_eq!(first_position, truncated_first_position);
    assert!(entry.is_none());

    let mut positions = vec![truncated_first_position];
    for _ in 0..256 {
        let i = positions.len() as u64;
        let position = *positions.last().unwrap();
        let value = i.to_le_bytes().to_vec();
        let entry = build_entry(i, &value, &positions);
        positions.push(storage.put(position, &entry).unwrap());
    }
    assert!(!storage.truncate(*positions.last().unwrap()).unwrap());
    assert!(!storage.truncate(*positions.last().unwrap() + 1).unwrap());

    // one entry after the other, from the last on
    positions.pop();
    while !positions.is_empty() {
        let n = positions.len() as Index;
        let position = positions.pop().unwrap();
        let entry = storage.reader().unwrap().read(position).unwrap();
        assert_eq!(n, entry.enode.meta.address.i);
        assert_eq!(position, entry.enode.meta.address.position);
        assert!(storage.truncate(position).unwrap());
        for i in 1..n {
            let p = positions[i as usize - 1];
            let e = storage.reader().unwrap().read(p).unwrap();
            assert_eq!(i, e.enode.meta.address.i);
            assert_eq!(p, e.enode.meta.address.position);
        }
        let (el, p) = storage.last().unwrap();
        match positions.last() {
            Some(pl) => {
                assert_eq!(storage.reader().unwrap().read(*pl).unwrap(), el.clone().unwrap());
                assert_eq!(el.unwrap().enode.meta.address.position, *pl);
            }
            None => {
                assert_eq!(None, el);
                assert_eq!(first_position, p);
            }
        }
        assert!(matches!(
            storage.reader().unwrap().read(position),
            Err(Error::Io { .. })
        ));
    }
}

fn verify_storage_scan<S: Storage + Debug>(storage: &mut S, first_position: Position) {
    const N: Index = 256;
    storage.truncate(first_position).unwrap();
    let mut positions = vec![first_position];
    for i in 1..=N {
        let position = *positions.last().unwrap();
        let value = i.to_le_bytes().to_vec();
        let entry = build_entry(i, &value, &positions);
        positions.push(storage.put(position, &entry).unwrap());
    }

    // all entries
    let mut reader = storage.reader().unwrap();
    let mut scanned = 0u64;
    let count = reader
        .scan(
            first_position,
            N,
            &mut Scanner(|entry: Entry| {
                scanned += 1;
                let i = scanned as Index;
                let expected = build_entry(i, i.to_le_bytes().as_ref(), &positions);
                assert_eq!(expected, entry);
                Ok(())
            }),
        )
        .unwrap();
    assert_eq!(N, count);
    assert_eq!(N, scanned);

    // nothing happens behind the end
    let mut scanned = 0u64;
    let count = reader
        .scan(
            u64::MAX,
            u64::MAX,
            &mut Scanner(|_: Entry| {
                scanned += 1;
                Ok(())
            }),
        )
        .unwrap();
    assert_eq!(0, count);
    assert_eq!(0, scanned);

    // more than there is
    let mut collector = Collector::new();
    assert_eq!(2, reader.scan(positions[N as usize - 2], 100, &mut collector).unwrap());
    assert_eq!(N - 1, collector.entries[0].enode.meta.address.i);
    assert_eq!(N, collector.entries[1].enode.meta.address.i);

    // the visitor refuses the third entry
    let mut scanned = 0u64;
    let refused = reader.scan(
        first_position,
        N,
        &mut Scanner(|_: Entry| {
            scanned += 1;
            if scanned == 3 {
                Err("no more".to_string())
            } else {
                Ok(())
            }
        }),
    );
    assert!(matches!(refused, Err(Error::Callback(message)) if message == "no more"));
    assert_eq!(3, scanned);
}

#[test]
fn block_storage_in_memory_keeps_entries() {
    verify_storage_spec(&mut BlockStorage::memory());
}

#[test]
fn hash_map_storage_keeps_entries() {
    verify_storage_spec(&mut MemKVS::new());
}

#[test]
fn entries_that_cannot_be_stored_are_refused() {
    let mut block = BlockStorage::memory();
    let mut kvs = MemKVS::new();
    let (_, first) = block.last().unwrap();
    assert_eq!(4, first);
    let good = build_entry(1, b"x", &[first]);
    assert!(matches!(block.put(5, &good), Err(Error::InvalidArgument(_))));
    assert!(matches!(block.put(first, &build_entry(1, b"x", &[7])), Err(Error::InvalidArgument(_))));
    assert!(matches!(kvs.put(0, &good), Err(Error::InvalidArgument(_))));
    assert_eq!(first + 57 + 1, block.put(first, &good).unwrap());
    assert!(matches!(block.truncate(3), Err(Error::InvalidArgument(_))));
    assert_eq!(1, kvs.put(0, &build_entry(1, b"x", &[0])).unwrap());
}

#[test]
fn serialized_form_of_entries() {
    let mut db = Slate::new_on_memory();
    db.append(b"first").unwrap();
    db.append(b"second").unwrap();
    let content = db.storage().device().content().clone();

    let h1 = slate::Hash::from_bytes(0, b"first");
    let h2 = slate::Hash::from_bytes(0, b"second");
    let root = h1.combine(1, &h2);
    let mut expected = Vec::new();
    expected.extend_from_slice(&STORAGE_IDENTIFIER);
    expected.push(STORAGE_VERSION);
    let mut body = Vec::new();
    body.extend_from_slice(&1u64.to_le_bytes());
    body.push(0);
    body.extend_from_slice(&5u32.to_le_bytes());
    body.extend_from_slice(b"first");
    body.extend_from_slice(&h1.value);
    finish(&mut expected, body);
    let mut body = Vec::new();
    body.extend_from_slice(&2u64.to_le_bytes());
    body.push(1);
    body.push(0);
    body.extend_from_slice(&4u64.to_le_bytes());
    body.extend_from_slice(&1u64.to_le_bytes());
    body.push(0);
    body.extend_from_slice(&root.value);
    body.extend_from_slice(&6u32.to_le_bytes());
    body.extend_from_slice(b"second");
    body.extend_from_slice(&h2.value);
    finish(&mut expected, body);
    assert_eq!(expected, content);
}

/// Puts the serialized form of an entry behind the bytes, with its trailer.
fn finish(bytes: &mut Vec<u8>, body: Vec<u8>) {
    let checksum = highway::HighwayHasher::default().hash64(&body);
    let size = body.len() as u32 + 12;
    bytes.extend_from_slice(&body);
    bytes.extend_from_slice(&size.to_le_bytes());
    bytes.extend_from_slice(&checksum.to_le_bytes());
}

#[test]
fn foreign_and_incompatible_storages_are_refused() {
    assert!(is_version_compatible(STORAGE_VERSION));
    assert!(is_version_compatible(STORAGE_VERSION ^ 0x0F));
    assert!(!is_version_compatible(STORAGE_VERSION ^ 0x10));
    let open = |bytes: Vec<u8>| Slate::new(BlockStorage::from_buffer(bytes, false));

    assert!(matches!(open(b"XYZ1".to_vec()), Err(Error::StorageisNotForSlate { .. })));
    assert!(matches!(open(vec![STORAGE_IDENTIFIER[0]]), Err(Error::StorageisNotForSlate { .. })));
    let mut bytes = STORAGE_IDENTIFIER.to_vec();
    bytes.push(0xA7);
    assert!(matches!(open(bytes), Err(Error::IncompatibleVersion(10, 7))));
    let mut bytes = STORAGE_IDENTIFIER.to_vec();
    bytes.push(STORAGE_VERSION);
    bytes.extend_from_slice(&[0; 20]);
    assert!(matches!(open(bytes.clone()), Err(Error::DamagedStorage(_))));
    bytes.extend_from_slice(&[0xFF; 80]);
    assert!(matches!(open(bytes), Err(Error::DamagedStorage(_))));
}

#[test]
fn damaged_entries_are_reported() {
    let mut db = Slate::new_on_memory();
    for i in 0..4u8 {
        db.append(&[i; 8]).unwrap();
    }
    let content = db.storage().device().content().clone();
    let size = 57 + 8;
    let get = |bytes: Vec<u8>| {
        let db = Slate::new(BlockStorage::from_buffer(bytes, false))?;
        let value = db.snapshot().query()?.get(1)?;
        Ok::<Option<Vec<u8>>, Error>(value)
    };
    assert_eq!(Some(vec![0; 8]), get(content.clone()).unwrap());

    // the payload of the first entry
    let mut bytes = content.clone();
    bytes[4 + 13] ^= 1;
    match get(bytes) {
        Err(Error::ChecksumVerificationFailed { at, length, expected, actual }) => {
            assert_eq!((4, size - 12), (at, length));
            assert_ne!(expected, actual);
        }
        other => panic!("{other:?}"),
    }

    // its recorded length
    let mut bytes = content.clone();
    bytes[4 + size as usize - 12] += 1;
    match get(bytes) {
        Err(Error::IncorrectEntryHeadOffset { expected, actual }) => {
            assert_eq!((size + 1, size), (expected, actual));
        }
        other => panic!("{other:?}"),
    }

    // the length of the payload
    let mut bytes = content.clone();
    bytes[4 + 9 + 3] = 0x7F;
    assert!(matches!(get(bytes), Err(Error::Io { .. })));

    // the height of a node
    let mut bytes = content.clone();
    bytes[4 + size as usize + 9] = 255;
    assert!(matches!(get(bytes), Err(Error::DamagedStorage(_))));
}

#[test]
fn read_only_storages_cannot_be_written() {
    let mut db = Slate::new_on_memory();
    db.append(b"value").unwrap();
    let content = db.storage().device().content().clone();
    let mut db = Slate::new(BlockStorage::from_buffer(content, true)).unwrap();
    assert_eq!(1, db.n());
    assert!(matches!(db.append(b"more"), Err(Error::Io { .. })));
    assert!(matches!(db.truncate(1), Err(Error::Io { .. })));
    assert_eq!(Some(b"value".to_vec()), db.snapshot().query().unwrap().get(1).unwrap());
    // an empty one cannot even be made ready
    assert!(Slate::new(BlockStorage::from_buffer(vec![], true)).is_err());
}

#[test]
fn devices_in_memory() {
    let mut device = MemoryDevice::with(vec![1, 2, 3], false);
    assert_eq!(3, device.size().unwrap());
    device.append(&[4, 5]).unwrap();
    assert_eq!(vec![2, 3, 4], device.read(1, 3).unwrap());
    assert!(matches!(device.read(3, 3), Err(Error::Io { .. })));
    assert!(matches!(device.read(u64::MAX, 2), Err(Error::Io { .. })));
    let shared = device.share().unwrap();
    device.truncate(2).unwrap();
    assert_eq!(&vec![1, 2], device.content());
    assert_eq!(&vec![1, 2, 3, 4, 5], shared.content());
    let storage = BlockStorage::new(MemoryDevice::new());
    assert!(storage.device().content().is_empty());
}

#[test]
fn entries_of_another_tree_are_inconsistent() {
    let mut db = Slate::new_on_memkvs();
    for i in 1..=3u8 {
        db.append(&[i]).unwrap();
    }
    let good = db.storage().kvs().clone();
    let db = Slate::new_on_memkvs_with_hashmap(good.clone());
    assert_eq!(Some(vec![1]), db.snapshot().query().unwrap().get(1).unwrap());

    // the index of an entry
    let mut kvs = good.clone();
    kvs.get_mut(&0).unwrap().enode.meta.address.i = 9;
    let db = Slate::new(MemKVS::with_kvs(kvs)).unwrap();
    match db.snapshot().query().unwrap().get(1) {
        Err(Error::InternalStateInconsistency { message }) => {
            assert_eq!("The index of entry 1 read from 0 was actually 9", message);
        }
        other => panic!("{other:?}"),
    }

    // a perfect subtree without its root
    let mut kvs = good.clone();
    kvs.get_mut(&1).unwrap().inodes.clear();
    match Slate::new(MemKVS::with_kvs(kvs)) {
        Err(Error::InternalStateInconsistency { message }) => assert_eq!(
            "The node b_{3,0} referenced as the right node of node b_{3,2} isn't included in \
             entry 3 @ 2",
            message
        ),
        other => panic!("{other:?}"),
    }

    // the nodes of the latest entry
    let mut kvs = good.clone();
    kvs.get_mut(&2).unwrap().inodes.clear();
    match Slate::new(MemKVS::with_kvs(kvs)) {
        Err(Error::InternalStateInconsistency { message }) => {
            assert_eq!("The entry 3 doesn't have the nodes of its generation", message);
        }
        other => panic!("{other:?}"),
    }

    // the last entry is missing
    let mut kvs = good.clone();
    kvs.remove(&2);
    kvs.insert(7, good[&2].clone());
    assert!(matches!(Slate::new(MemKVS::with_kvs(kvs)), Err(Error::DamagedStorage(_))));
}

/// A tree of as many values, after a change of the stored entries.
fn changed(n: u8, change: impl Fn(&mut HashMap<Position, Entry>)) -> Slate<MemKVS> {
    let mut db = Slate::new_on_memkvs();
    for i in 1..=n {
        db.append(&[i]).unwrap();
    }
    let mut kvs = db.storage().kvs().clone();
    change(&mut kvs);
    Slate::new(MemKVS::with_kvs(kvs)).unwrap()
}

/// What is said of an inconsistent state.
fn said<T: Debug>(result: slate::Result<T>) -> String {
    match result {
        Err(Error::InternalStateInconsistency { message }) => message,
        other => panic!("{other:?}"),
    }
}

#[test]
fn entries_are_read_as_they_are_stored() {
    // the entry 2 has lost its node, which is no root of the latest generation
    let mut db = changed(4, |kvs| kvs.get_mut(&1).unwrap().inodes.clear());
    let snapshot = db.snapshot();
    let mut query = snapshot.query().unwrap();
    let missing = "The node b_{4,1} referenced as the right node of node b_{4,2} isn't included \
                   in entry 4 @ 3";
    assert_eq!(missing, said(query.get(1)));
    assert_eq!(missing, said(query.get(2)));
    assert_eq!(Some(vec![3]), query.get(3).unwrap());
    assert_eq!(missing, said(query.get_sample(3)));
    // it is still an entry of its index, but there is no way from it to the first one
    let stored = db.storage().kvs()[&1].clone();
    assert!(stored.inodes.is_empty());
    assert_eq!(Some(stored.clone()), query.read_entry(2).unwrap());
    assert_eq!(None, query.read_entry(1).unwrap());
    assert_eq!(0, query.scan(1, 4, &mut Collector::new()).unwrap());
    assert_eq!(3, query.scan(2, 4, &mut Collector::new()).unwrap());
    assert_eq!(
        format!(
            "The entry doesn't have a path to 1: Entry {{ enode: ENode {{ meta: MetaInfo {{ \
             address: Address {{ i: 2, j: 0, position: 1 }}, hash: Hash({}) }}, payload: [2] }}, \
             inodes: [] }}",
            stored.enode.meta.hash.to_str()
        ),
        said(db.snapshot_at(1).map(|snapshot| snapshot.n()))
    );
    assert_eq!(
        "The entry 2 doesn't have the nodes of its generation",
        said(db.snapshot_at(2).map(|snapshot| snapshot.n()))
    );
    assert!(!db.truncate(1).unwrap());
    assert_eq!(4, db.n());
    assert!(db.truncate(3).unwrap_err().to_str().contains("the nodes of its generation"));
}

#[test]
fn ways_that_do_not_lead_down_are_inconsistent() {
    // to an entry of another index
    let db = changed(4, |kvs| kvs.get_mut(&1).unwrap().inodes[0].left.i = 7);
    let mut query = db.snapshot().query().unwrap();
    assert_eq!("The index of entry 7 read from 0 was actually 1", said(query.get(1)));
    assert_eq!(Some(vec![2]), query.get(2).unwrap());
    assert_eq!(None, query.read_entry(1).unwrap());

    // to a later one
    let db = changed(4, |kvs| {
        kvs.get_mut(&1).unwrap().inodes[0].left = Address::new(4, 2, 3);
    });
    let mut query = db.snapshot().query().unwrap();
    assert_eq!(
        "The node b_{2,0} referenced as the right node of node b_{2,1} isn't included in entry 2 \
         @ 1",
        said(query.get(1))
    );
    assert_eq!("The way to the entry 1 leads in a circle", said(query.read_entry(1)));
    let snapshot = db.snapshot_at(1).map(|snapshot| snapshot.n());
    assert_eq!("The way to the entry 1 leads in a circle", said(snapshot));
    let error = Slate::with_cache_level(MemKVS::with_kvs(db.storage().kvs().clone()), 2);
    assert!(said(error).starts_with("The node b_{2,0} referenced"));

    // to none
    let db = changed(4, |kvs| {
        kvs.get_mut(&1).unwrap().inodes[0].left = Address::new(0, 0, 9);
    });
    let mut query = db.snapshot().query().unwrap();
    assert!(matches!(query.get(1), Err(Error::Io { message })
        if message == "failed to fill whole buffer"));
    assert_eq!(None, query.read_entry(1).unwrap());
}

#[test]
fn a_way_may_lead_through_a_later_entry() {
    let db = changed(8, |kvs| {
        let first = kvs[&0].enode.meta.address;
        kvs.get_mut(&3).unwrap().inodes[1].left = Address::new(6, 3, 5);
        kvs.get_mut(&5).unwrap().inodes[1].left = Address::new(1, 0, first.position);
    });
    let snapshot = db.snapshot();
    let mut query = snapshot.query().unwrap();
    assert_eq!(Some(db.storage().kvs()[&0].clone()), query.read_entry(1).unwrap());
    assert_eq!(8, query.scan(1, 8, &mut Collector::new()).unwrap());
    assert_eq!(1, db.snapshot_at(1).unwrap().n());
    // from the later entry there is no way to the second one
    assert_eq!(None, query.read_entry(2).unwrap());
}

#[test]
fn what_was_read_is_checked() {
    let entry = build_entry(1, b"x", &[4]);
    assert_eq!(entry, check_index(Ok(entry.clone()), 4, 1).unwrap());
    assert_eq!(
        "The index of entry 2 read from 4 was actually 1",
        said(check_index(Ok(entry), 4, 2))
    );
    let failed = Err(Error::Otherwise { message: "lost".to_string() });
    assert!(matches!(check_index(failed, 4, 1), Err(Error::Otherwise { message })
        if message == "lost"));
}

#[test]
fn scans_of_damaged_storages() {
    let mut db = Slate::new_on_memory();
    for i in 1..=5u8 {
        db.append(&[i; 3]).unwrap();
    }
    // the third entry is damaged, which none but itself needs
    let mut bytes = db.storage().device().content().clone();
    let third = db.snapshot().query().unwrap().read_entry(3).unwrap().unwrap();
    let at = third.enode.meta.address.position;
    bytes[at as usize + 13] ^= 1;
    let db = Slate::new_on_memory_with_buffer(bytes);
    let mut query = db.snapshot().query().unwrap();
    let mut collector = Collector::new();
    match query.scan(1, 5, &mut collector) {
        Err(Error::ChecksumVerificationFailed { at: found, .. }) => assert_eq!(at, found),
        other => panic!("{other:?}"),
    }
    assert_eq!(2, collector.entries.len());
    assert_eq!(2, query.scan(4, 5, &mut Collector::new()).unwrap());

    // where an entry of a hash map is missing, the scan ends
    let db = changed(4, |kvs| {
        let last = kvs.remove(&2).unwrap();
        kvs.insert(9, last);
    });
    let mut collector = Collector::new();
    assert_eq!(2, db.snapshot().query().unwrap().scan(1, 4, &mut collector).unwrap());
    assert_eq!(2, collector.entries[1].enode.meta.address.i);
}

/// Counts the nodes that it is shown.
struct Counter(Vec<(Index, u8)>);

impl Visitor for Counter {
    fn visit(
        &mut self,
        _revision: Index,
        i: Index,
        j: u8,
        _hash: &slate::Hash,
        _value: Option<&[u8]>,
    ) -> WalkDirection {
        self.0.push((i, j));
        WalkDirection::Both
    }
}

#[test]
fn a_walk_shows_nodes_up_to_one_that_is_missing() {
    let db = changed(4, |kvs| kvs.get_mut(&1).unwrap().inodes.clear());
    let mut counter = Counter(Vec::new());
    assert!(db.snapshot().query().unwrap().walk_down(&mut counter).is_err());
    assert_eq!(vec![(4, 2), (4, 1), (4, 0), (3, 0)], counter.0);
}

#[test]
fn the_root_is_that_of_the_latest_entry() {
    let other = slate::Hash::from_bytes(9, b"other");
    let mut db = changed(4, |kvs| kvs.get_mut(&3).unwrap().inodes[1].meta.hash = other);
    assert_eq!(other, db.root().unwrap().hash);
    assert_eq!(other, db.snapshot().root().hash);
    // the next entry is built on it
    let root = db.append(b"next").unwrap();
    assert_eq!(other.combine(3, &slate::Hash::from_bytes(0, b"next")), root.hash);
    // and what is left after a removal is what the storage holds
    assert!(db.truncate(5).unwrap());
    assert_eq!((4, other), (db.n(), db.root().unwrap().hash));
    assert!(db.truncate(4).unwrap());
    assert_eq!(3, db.n());
    assert_ne!(other, db.root().unwrap().hash);
}

#[test]
fn nodes_of_other_heights() {
    // a node of height 0 that is no leaf
    let db = changed(4, |kvs| {
        let inodes = &mut kvs.get_mut(&1).unwrap().inodes;
        let mut low = inodes[0];
        low.meta.address.j = 0;
        inodes.insert(0, low);
    });
    let mut query = db.snapshot().query().unwrap();
    assert_eq!("The value was not passed at the leaf node b_2 reached", said(query.get(2)));
    assert_eq!(None, query.get_sample(2).unwrap());
    assert_eq!(Some(vec![1]), query.get(1).unwrap());

    // a leaf of another height
    let db = changed(4, |kvs| kvs.get_mut(&0).unwrap().enode.meta.address.j = 3);
    let mut query = db.snapshot().query().unwrap();
    assert_eq!(None, query.get(1).unwrap());
    assert_eq!(None, query.get_sample(1).unwrap());
    assert_eq!(Some(vec![2]), query.get(2).unwrap());

    // a node that no tree has
    let db = changed(8, |kvs| kvs.get_mut(&3).unwrap().inodes[0].meta.address.j = 200);
    let mut query = db.snapshot().query().unwrap();
    assert_eq!("There is no node b_{4,200}", said(query.get(3)));
    assert_eq!(Some(vec![4]), query.get(4).unwrap());
    assert_eq!(Some(vec![1]), query.get(1).unwrap());
    assert_eq!(vec![3], query.get_sample(3).unwrap().unwrap().leaf.value);
}

#[test]
fn readers_go_on_after_entries_are_removed() {
    fn check<S: Storage + Debug>(mut storage: S) {
        let (_, first) = storage.last().unwrap();
        let mut positions = vec![first];
        for i in 1..=20u64 {
            let entry = build_entry(i, &i.to_le_bytes(), &positions);
            positions.push(storage.put(positions[i as usize - 1], &entry).unwrap());
        }
        for n in (1..=20u64).rev() {
            let position = positions[n as usize - 1];
            let mut reader = storage.reader().unwrap();
            let entry = reader.read(position).unwrap();
            assert_eq!(n, entry.enode.meta.address.i);
            assert!(storage.truncate(position).unwrap());
            // the entries before it are read as before
            for i in 1..n {
                let p = positions[i as usize - 1];
                let e2 = reader.read(p).unwrap();
                let e3 = storage.reader().unwrap().read(p).unwrap();
                assert_eq!(i, e2.enode.meta.address.i);
                assert_eq!(p, e2.enode.meta.address.position);
                assert_eq!(e2, e3);
            }
            // a later reader does not find the removed one
            assert!(matches!(
                storage.reader().unwrap().read(position),
                Err(Error::Io { .. })
            ));
        }
    }
    check(BlockStorage::memory());
    check(MemKVS::new());
}

/// A storage that refuses to store while it is closed.
#[derive(Debug)]
struct Gate {
    kvs: MemKVS,
    closed: bool,
    asked: Vec<(Position, Index)>,
}

/// A storage with a gate that can be opened while a tree is over it.
#[derive(Debug)]
struct Gated(Rc<RefCell<Gate>>);

impl Storage for Gated {
    type Reader = KvsReader;

    fn last(&mut self) -> slate::Result<(Option<Entry>, Position)> {
        self.0.borrow_mut().kvs.last()
    }

    fn put(&mut self, position: Position, entry: &Entry) -> slate::Result<Position> {
        let mut gate = self.0.borrow_mut();
        gate.asked.push((position, entry.enode.meta.address.i));
        if gate.closed {
            return Err(Error::Otherwise { message: "closed".to_string() });
        }
        gate.kvs.put(position, entry)
    }

    fn truncate(&mut self, position: Position) -> slate::Result<bool> {
        self.0.borrow_mut().kvs.truncate(position)
    }

    fn reader(&self) -> slate::Result<KvsReader> {
        self.0.borrow().kvs.reader()
    }
}

#[test]
fn a_refused_value_leaves_the_tree_as_it_was() {
    let gate = Rc::new(RefCell::new(Gate {
        kvs: MemKVS::new(),
        closed: false,
        asked: Vec::new(),
    }));
    let mut db = Slate::new(Gated(gate.clone())).unwrap();
    for i in 1..=3u8 {
        db.append(&[i]).unwrap();
    }
    let root = db.root().cloned();
    gate.borrow_mut().closed = true;
    let refused = db.append(b"no");
    assert!(matches!(refused, Err(Error::Otherwise { message }) if message == "closed"));
    assert_eq!((3, 2, root), (db.n(), db.height(), db.root().cloned()));
    assert_eq!(3, db.cache().revision());
    gate.borrow_mut().closed = false;
    assert_eq!(4, db.append(&[4]).unwrap().address.i);
    assert_eq!(vec![(0, 1), (1, 2), (2, 3), (3, 4), (3, 4)], gate.borrow().asked);
    let mut query = db.snapshot().query().unwrap();
    for i in 1..=4u8 {
        assert_eq!(Some(vec![i]), query.get(i as Index).unwrap());
    }
}

#[test]
fn trees_and_storages_are_shown() {
    let mut db = Slate::new_on_memkvs();
    db.append(b"x").unwrap();
    assert!(format!("{db:?}").starts_with("Slate { position: 1, storage: MemKVS {"));
    assert!(format!("{:?}", db.snapshot()).starts_with("Snapshot { cache: Cache {"));
    assert!(format!("{:?}", db.storage()).contains("payload: [120]"));
}

#[test]
fn the_cache_keeps_the_entries_up_to_its_level() {
    for level in 0..5usize {
        let mut db = Slate::with_cache_level(BlockStorage::memory(), level).unwrap();
        assert_eq!(level, db.cache().level());
        for n in 1..=70u64 {
            db.append(&n.to_le_bytes()).unwrap();
            let bytes = db.storage().device().content().clone();
            let fresh =
                Slate::with_cache_level(BlockStorage::from_buffer(bytes, false), level).unwrap();
            for k in 0..=n + 1 {
                let near = match entry_access_distance(k, n) {
                    Some(d) => d as usize <= level,
                    None => false,
                };
                assert_eq!(near, db.cache().entry(k).is_some(), "{level}: {k}/{n}");
                assert_eq!(db.cache().entry(k), fresh.cache().entry(k));
            }
            assert_eq!(db.cache().last_entry(), fresh.cache().last_entry());
            assert_eq!(db.root(), fresh.root());
            // the roots of the perfect subtrees are kept at every level
            for root in slate::formula::pbst_roots(n) {
                let kept = fresh.cache().get_pbst_root(root.i, root.j).unwrap();
                assert_eq!((root.i, root.j), (kept.address.i, kept.address.j));
                assert_eq!(Some(kept), db.cache().get_pbst_root(root.i, root.j));
            }
            assert!(fresh.cache().get_pbst_root(n + 1, 0).is_none());
        }
        // the results do not depend on the level
        let plain = Slate::new(BlockStorage::from_buffer(
            db.storage().device().content().clone(),
            false,
        ))
        .unwrap();
        let one = db.snapshot();
        let two = plain.snapshot();
        for k in 0..=71 {
            assert_eq!(
                one.query().unwrap().get(k).unwrap(),
                two.query().unwrap().get(k).unwrap()
            );
            assert_eq!(
                one.query().unwrap().get_sample(k).unwrap(),
                two.query().unwrap().get_sample(k).unwrap()
            );
            assert_eq!(
                one.query().unwrap().read_entry(k).unwrap(),
                two.query().unwrap().read_entry(k).unwrap()
            );
        }
    }
}

#[test]
fn entries_are_written_and_read() {
    let positions = [4, 100, 200, 300];
    for i in 1..=4u64 {
        let entry = build_entry(i, &i.to_be_bytes(), &positions);
        let position = positions[i as usize - 1];
        let mut bytes = entry.write();
        assert_eq!(57 + 50 * entry.inodes.len() + 8, bytes.len());
        assert_eq!(entry, Entry::read(&bytes, position).unwrap());
        // what follows does not matter, what is missing does
        bytes.push(1);
        assert_eq!(entry, Entry::read(&bytes, position).unwrap());
        for n in 0..bytes.len() - 1 {
            assert!(matches!(Entry::read(&bytes[..n], position), Err(Error::Io { .. })));
        }
        // no byte can be changed
        for n in 0..bytes.len() - 1 {
            let mut damaged = bytes.clone();
            damaged[n] ^= 0x80;
            assert!(Entry::read(&damaged, position).is_err());
        }
    }
}

#[test]
fn trees_in_given_bytes() {
    let mut one = Slate::new_on_memory();
    let mut two = Slate::new_on_memory_with_buffer(vec![]);
    for i in 1..=5u8 {
        one.append(&[i; 3]).unwrap();
        two.append(&[i; 3]).unwrap();
    }
    let bytes = one.storage().device().content().clone();
    assert_eq!(&bytes, two.storage().device().content());
    let again = Slate::new_on_memory_with_buffer(bytes.clone());
    assert_eq!(one.root(), again.root());
    for i in 1..=5u8 {
        let value = again.snapshot().query().unwrap().get(i as u64).unwrap();
        assert_eq!(Some(vec![i; 3]), value);
    }
    // the first entry is neither the latest one nor the root of a perfect subtree
    let mut damaged = bytes.clone();
    damaged[4 + 13] ^= 1;
    let open = |level| {
        Slate::with_cache_level(BlockStorage::from_buffer(damaged.clone(), false), level)
    };
    let partly = Slate::new_on_memory_with_buffer(damaged.clone());
    assert_eq!(one.root(), partly.root());
    assert_eq!(Some(vec![4; 3]), partly.snapshot().query().unwrap().get(4).unwrap());
    assert!(matches!(
        partly.snapshot().query().unwrap().get(1),
        Err(Error::ChecksumVerificationFailed { at: 4, .. })
    ));
    assert!(open(0).is_ok() && open(2).is_ok());
    assert!(partly.snapshot().query().unwrap().get_sample(2).is_err());
    assert!(partly.snapshot().query().unwrap().get_sample(5).unwrap().is_some());
    assert!(partly.snapshot_at(1).is_err());
    assert_eq!(4, partly.snapshot_at(4).unwrap().n());
    assert!(partly.snapshot().query().unwrap().scan(1, 2, &mut Collector::new()).is_err());
    assert_eq!(4, partly.snapshot().query().unwrap().scan(2, 9, &mut Collector::new()).unwrap());
    assert!(matches!(open(3), Err(Error::ChecksumVerificationFailed { at: 4, .. })));
    assert_eq!(Some(3), entry_access_distance(1, 5));
}
