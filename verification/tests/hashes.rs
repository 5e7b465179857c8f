//! Hash values, nodes and values.
use highway::HighwayHash;
use slate::hash::{Algorithm, Features};
use slate::{Address, MetaInfo, Node, Value, ValuesWithBranches};

fn hex(bytes: &[u8]) -> String {
    bytes.iter().map(|b| format!("{b:02x}")).collect()
}

#[test]
fn digests_of_a_known_message() {
    // the message "abc", of which the first byte is the height
    let expected = [
        (Algorithm::Blake3, "6437b3ac38465133ffb63b75273a8db548c558465d79db03fd359c6cd5bd9d85"),
        (
            Algorithm::Sha512,
            "ddaf35a193617abacc417349ae20413112e6fa4e89a97ea20a9eeee64b55d39a\
             2192992a274fc1a836ba3c23a3feebbd454d4423643ce80e2a9ac94fa54ca49f",
        ),
        (Algorithm::Sha256, "ba7816bf8f01cfea414140de5dae2223b00361a396177a9cb410ff61f20015ad"),
        (Algorithm::Sha512_256, "53048e2681941ef99b2e29b76b4c7dabe4c2d0c634fc6d46e0e2f13107e7af23"),
        (Algorithm::Sha224, "23097d223405d8228642a477bda255b32aadbce4bda0b3f7e36c9da7"),
        (Algorithm::Sha512_224, "4634270f707b6a54daae7530460842e20e37ed265ceee9a43e8924aa"),
    ];
    for (algorithm, digest) in expected {
        assert_eq!(digest, hex(&algorithm.digest(b'a', b"bc")), "{algorithm:?}");
        assert_eq!(digest.len() / 2, algorithm.size());
    }
    let highway = highway::HighwayHasher::default().hash64(b"abc");
    assert_eq!(
        highway.to_le_bytes().to_vec(),
        Algorithm::HighwayHash64.digest(b'a', b"bc")
    );
    assert_eq!(8, Algorithm::HighwayHash64.size());
}

#[test]
fn the_strongest_algorithm_is_taken() {
    let none = Features {
        blake3: false,
        sha512: false,
        sha256: false,
        sha512_256: false,
        sha224: false,
        sha512_224: false,
        highwayhash64: false,
    };
    assert_eq!(None, none.strongest());
    let weakest = Features { highwayhash64: true, ..none };
    assert_eq!(Some(Algorithm::HighwayHash64), weakest.strongest());
    let weak = Features { sha512_224: true, ..weakest };
    assert_eq!(Some(Algorithm::Sha512_224), weak.strongest());
    let weak = Features { sha224: true, ..weak };
    assert_eq!(Some(Algorithm::Sha224), weak.strongest());
    let fair = Features { sha512_256: true, ..weak };
    assert_eq!(Some(Algorithm::Sha512_256), fair.strongest());
    let fair = Features { sha256: true, ..fair };
    assert_eq!(Some(Algorithm::Sha256), fair.strongest());
    let strong = Features { sha512: true, ..fair };
    assert_eq!(Some(Algorithm::Sha512), strong.strongest());
    let all = Features { blake3: true, ..strong };
    assert_eq!(Some(Algorithm::Blake3), all.strongest());
}

#[test]
fn hash_values() {
    assert_eq!(32, slate::Hash::SIZE);
    let hash = slate::Hash::from_bytes(b'a', b"bc");
    assert_eq!(
        "6437B3AC38465133FFB63B75273A8DB548C558465D79DB03FD359C6CD5BD9D85",
        hash.to_str()
    );
    assert_eq!(hash, slate::Hash::new(hash.value));
    assert_eq!(hash, slate::Hash::from(&hash.value));
    assert_ne!(hash, slate::Hash::from_bytes(b'b', b"bc"));
    let other = slate::Hash::from_bytes(0, b"");
    let both = [hash.value, other.value].concat();
    assert_eq!(slate::Hash::from_bytes(7, &both), hash.combine(7, &other));
    assert_ne!(hash.combine(7, &other), other.combine(7, &hash));
    let mut last = hash.value;
    last[31] ^= 1;
    assert_ne!(hash, slate::Hash::new(last));
}

#[test]
fn nodes_and_values_as_text() {
    let hash = slate::Hash::new([0xA5; 32]);
    assert_eq!(format!("12,3:{}", "A5".repeat(32)), Node::new(12, 3, hash).to_str());
    assert_eq!("7:00FF10", Value::new(7, vec![0, 255, 16]).to_str());
    assert_eq!("7:", Value::new(7, vec![]).to_str());
    let meta = MetaInfo::new(Address::new(u64::MAX, 64, 100), hash);
    assert_eq!(
        format!("Node(18446744073709551615,64@100){}", "A5".repeat(32)),
        meta.to_str()
    );
}

#[test]
fn parents_of_nodes() {
    let left = Value::new(1, vec![1]).to_node();
    let right = Value::new(2, vec![2]).to_node();
    assert_eq!(Value::new(1, vec![1]).hash(), left.hash);
    assert_eq!(slate::Hash::from_bytes(0, &[1]), left.hash);
    let parent = left.parent(&right);
    assert_eq!((2, 1), (parent.i, parent.j));
    assert_eq!(left.hash.combine(1, &right.hash), parent.hash);
}

/// The root of the tree over the values, split at the greatest power of two below their number.
fn fold(values: &[Value]) -> Node {
    if values.len() == 1 {
        return values[0].to_node();
    }
    let half = values.len().next_power_of_two() / 2;
    fold(&values[..half]).parent(&fold(&values[half..]))
}

#[test]
fn values_with_branches_lead_to_the_root() {
    for n in 1..=40u64 {
        let all = (1..=n).map(|i| Value::new(i, vec![i as u8; 3])).collect::<Vec<_>>();
        let root = fold(&all);
        assert_eq!(root, ValuesWithBranches::new(all.clone(), vec![]).root());

        // the leaves of one node, with the nodes that branch off on the way to it
        let mut branches = Vec::new();
        let (mut from, mut to) = (0usize, n as usize);
        loop {
            let run = all[from..to].to_vec();
            let node = ValuesWithBranches::new(run, branches.clone()).root();
            assert_eq!(root, node, "{n}: {from}..{to}");
            // a changed value, or a changed node beside the path, leads to another root
            for k in from..to {
                let mut run = all[from..to].to_vec();
                run[k - from].value.push(0);
                let node = ValuesWithBranches::new(run, branches.clone()).root();
                assert_eq!((root.i, root.j), (node.i, node.j));
                assert_ne!(root.hash, node.hash);
            }
            for k in 0..branches.len() {
                let mut changed = branches.clone();
                changed[k].hash.value[7] ^= 1;
                let node = ValuesWithBranches::new(all[from..to].to_vec(), changed).root();
                assert_ne!(root.hash, node.hash);
            }
            if to - from == 1 {
                break;
            }
            let half = from + (to - from).next_power_of_two() / 2;
            if n % 3 == 0 {
                branches.push(fold(&all[half..to]));
                to = half;
            } else {
                branches.push(fold(&all[from..half]));
                from = half;
            }
        }
    }
}

#[test]
fn a_changed_value_changes_the_root() {
    let all = (1..=13u64).map(|i| Value::new(i, vec![i as u8])).collect::<Vec<_>>();
    let root = ValuesWithBranches::new(all.clone(), vec![]).root();
    for k in 0..all.len() {
        let mut changed = all.clone();
        changed[k].value[0] ^= 0x80;
        assert_ne!(root.hash, ValuesWithBranches::new(changed, vec![]).root().hash);
    }
}
