//! Reports, dumps and messages.
use slate::error::Error;
use slate::inspect::{hex_dump, report};
use slate::{Slate, STORAGE_IDENTIFIER, STORAGE_VERSION};

#[test]
fn a_report_on_a_storage() {
    let mut db = Slate::new_on_memory();
    db.append(b"first").unwrap();
    db.append(&[0x5A; 40]).unwrap();
    let content = db.storage().device().content().clone();
    let (lines, result) = report(&content);
    assert!(result.is_ok());

    let h1 = slate::Hash::from_bytes(0, b"first");
    let h2 = slate::Hash::from_bytes(0, &[0x5A; 40]);
    let root = h1.combine(1, &h2);
    let low = h1.combine(0, &h2);
    let hex = |bytes: &[u8]| bytes.iter().map(|b| format!("{b:02X}")).collect::<String>();
    let second = 4 + 57 + 5;
    let sum1 = hex(&content[second - 8..second]);
    let sum2 = hex(&content[content.len() - 8..]);
    let expected = vec![
        format!("IDENTIFIER: {} ✔", hex(&STORAGE_IDENTIFIER)),
        format!("VERSION   : {}.{} ✔", STORAGE_VERSION >> 4, STORAGE_VERSION & 15),
        "--------".to_string(),
        "ENTRY: 1 @4".to_string(),
        "ENODE: (1, 0)".to_string(),
        "  PAYLOAD: 6669727374 (5 bytes) ✔".to_string(),
        format!("  HASH   : {} (32 bytes) ✔", h1.to_str()),
        "OFFSET   : 62 ✔".to_string(),
        format!("CHECKSUM : {sum1} ✔"),
        "--------".to_string(),
        format!("ENTRY: 2 @{second}"),
        "INODE: (2, 1)".to_string(),
        "  LEFT : (1, 0) @4 ✔".to_string(),
        format!("  RIGHT: (2, 0) @{second} ✔"),
        format!(
            "  HASH : {} (32 bytes) ❌; hash({} || {}) = {}",
            root.to_str(),
            h1.to_str(),
            h2.to_str(),
            low.to_str()
        ),
        "ENODE: (2, 0)".to_string(),
        format!("  PAYLOAD: {}...{} (40 bytes) ✔", "5A".repeat(16), "5A".repeat(16)),
        format!("  HASH   : {} (32 bytes) ✔", h2.to_str()),
        "OFFSET   : 147 ✔".to_string(),
        format!("CHECKSUM : {sum2} ✔"),
    ];
    assert_eq!(expected, lines);
}

#[test]
fn no_other_test_fails_in_a_report_on_a_tree() {
    let mut db = Slate::new_on_memory();
    for n in 1..=40u8 {
        db.append(&vec![n; n as usize]).unwrap();
        let (lines, result) = report(db.storage().device().content());
        assert!(result.is_ok());
        for line in &lines {
            assert!(!line.contains('❌') || line.starts_with("  HASH : "), "{line}");
        }
        assert_eq!(n as usize, lines.iter().filter(|line| line.starts_with("ENTRY")).count());
    }
}

#[test]
fn a_report_on_a_changed_node() {
    let mut db = Slate::new_on_memory();
    db.append(b"first").unwrap();
    db.append(b"second").unwrap();
    let mut bytes = db.storage().device().content().clone();
    let h1 = slate::Hash::from_bytes(0, b"first");
    let h2 = slate::Hash::from_bytes(0, b"second");
    let root = h1.combine(1, &h2);
    // the hash value of the only intermediate node
    let at = 4 + 57 + 5 + 9 + 18;
    assert_eq!(&root.value[..], &bytes[at..at + 32]);
    let low = h1.combine(0, &h2);
    bytes[at..at + 32].copy_from_slice(&low.value);
    let (lines, result) = report(&bytes);
    assert!(result.is_ok());
    assert_eq!(format!("  HASH : {} (32 bytes) ✔", low.to_str()), lines[14]);
    assert!(lines[19].starts_with("CHECKSUM") && lines[19].ends_with('❌'));
}

#[test]
fn a_report_on_a_damaged_storage() {
    let mut db = Slate::new_on_memory();
    for i in 0..3u8 {
        db.append(&[i]).unwrap();
    }
    let content = db.storage().device().content().clone();
    let (whole, _) = report(&content);

    // cut off within the last entry
    let (lines, result) = report(&content[..content.len() - 1]);
    assert!(matches!(result, Err(Error::Io { .. })));
    assert_eq!(&whole[..lines.len()], &lines[..]);
    assert_eq!(3, lines.iter().filter(|l| l.starts_with("--------")).count() + 1);

    // a changed payload
    let mut bytes = content.clone();
    bytes[4 + 13] = 0xFF;
    let (lines, result) = report(&bytes);
    assert!(result.is_ok());
    assert_eq!("  PAYLOAD: FF (1 bytes) ✔", lines[5]);
    assert!(lines[6].ends_with('❌') && lines[8].ends_with('❌'));
    assert!(lines[7].ends_with('✔'));

    // a height out of range
    let mut bytes = content.clone();
    bytes[4 + 58 + 9] = 255;
    let (lines, result) = report(&bytes);
    assert!(matches!(result, Err(Error::DamagedStorage(_))));
    assert_eq!(9, lines.len());

    // no identifier
    let (lines, result) = report(&content[..3]);
    assert!(matches!(result, Err(Error::Io { .. })));
    assert!(lines.is_empty());
    let (lines, result) = report(b"abc\xF7");
    assert!(result.is_ok());
    assert_eq!(vec!["IDENTIFIER: 616263 ❌", "VERSION   : 15.7 ❌"], lines);
}

#[test]
fn dumps_of_bytes() {
    assert_eq!(
        vec![format!("00000000: {}  {}: {}", " ".repeat(23), " ".repeat(23), " ".repeat(16))],
        hex_dump(&[])
    );
    let bytes = (0x1Eu8..0x30).collect::<Vec<_>>();
    assert_eq!(
        vec![
            "00000000: 1E 1F 20 21 22 23 24 25  26 27 28 29 2A 2B 2C 2D: ...!\"#$%&'()*+,-"
                .to_string(),
            format!("00000010: 2E 2F{}  {}: ./{}", " ".repeat(18), " ".repeat(23), " ".repeat(14)),
        ],
        hex_dump(&bytes)
    );
    let lines = hex_dump(&[0x7F; 32]);
    assert_eq!(3, lines.len());
    assert!(lines[1].starts_with("00000010: 7F 7F"));
    assert!(lines[1].ends_with(": ................"));
    assert!(lines[2].starts_with("00000020:    "));
}

#[test]
fn messages_of_errors() {
    let text = |s: &str| s.to_string();
    let expected = vec![
        (
            Error::FailedToOpenLocalFile { file: text("a.db"), message: text("denied") },
            "Failed to open local file a.db; denied",
        ),
        (
            Error::StorageisNotForSlate { message: "who knows" },
            "The contents of storage are not for Slate: who knows",
        ),
        (Error::IncompatibleVersion(12, 3), "Slate storage version is incompatible: 12.3"),
        (Error::TooLargePayload { size: 1234567890 }, "Payload size is too large: 1234567890"),
        (Error::DamagedStorage(text("gone")), "DAMAGED STORAGE: gone"),
        (
            Error::IncorrectEntryHeadOffset { expected: 10, actual: 0 },
            "DAMAGED STORAGE: incorrect entry-head offset field; recorded as 10, but actually 0",
        ),
        (
            Error::ChecksumVerificationFailed {
                at: 100,
                length: 20,
                expected: u64::MAX,
                actual: 5,
            },
            "DAMAGED STORAGE: checksum verification failed for 20 bytes starting at 100; expected \
             18446744073709551615 but got 5",
        ),
        (
            Error::InternalStateInconsistency { message: text("odd") },
            "INCONSISTENCY STATE: between the internally state and the data in storage; odd",
        ),
        (Error::SampleVerificationFailed(text("bad")), "bad"),
        (Error::InvalidArgument(text("wrong")), "wrong"),
        (
            Error::Callback(text("no")),
            "The user function returned an error during the callback: no",
        ),
        (Error::Io { message: text("eof") }, "I/O error: eof"),
        (Error::Otherwise { message: text("other") }, "other"),
        (Error::LockError(text("locked")), "locked"),
    ];
    for (error, message) in expected {
        assert_eq!(message, error.to_str());
    }
}
