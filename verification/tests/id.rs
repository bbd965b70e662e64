use delocal_engine::id::{BatchId, FolderId, HostName, HostNameError, ID_LEN, NodeId, ParseHexError};

fn sample() -> [u8; ID_LEN] {
    [
        0x00, 0x11, 0x22, 0x33, 0x44, 0x55, 0x66, 0x77, 0x88, 0x99, 0xaa, 0xbb, 0xcc, 0xdd,
        0xee, 0xff,
    ]
}

#[test]
fn displays_as_32_lowercase_hex() {
    let id = NodeId::from_bytes(sample());
    assert_eq!(id.to_string(), "00112233445566778899aabbccddeeff");
    assert_eq!(
        id.debug_text(),
        "NodeId(00112233445566778899aabbccddeeff)"
    );
}

#[test]
fn short_form_is_first_8_hex() {
    let id = FolderId::from_bytes(sample());
    assert_eq!(id.short().to_string(), "00112233");
}

#[test]
fn parses_upper_and_lower_hex() {
    let lower: BatchId = "00112233445566778899aabbccddeeff".parse().unwrap();
    let upper: BatchId = "00112233445566778899AABBCCDDEEFF".parse().unwrap();
    assert_eq!(lower, upper);
    assert_eq!(lower.as_bytes(), sample());
}

#[test]
fn rejects_bad_length_and_bad_digits() {
    assert_eq!(
        "0011".parse::<NodeId>(),
        Err(ParseHexError::Length {
            expected: 32,
            got: 4
        })
    );
    assert_eq!(
        "0011223344556677889 aabbccddeeff".parse::<NodeId>(),
        Err(ParseHexError::NotHex(19))
    );
    // Multi-byte characters must not panic; the length is in bytes.
    assert!("é".repeat(16).parse::<NodeId>().is_err());
}

#[test]
fn ordering_is_byte_order() {
    let mut lo = [0u8; ID_LEN];
    let mut hi = [0u8; ID_LEN];
    lo[0] = 1;
    lo[15] = 0xff;
    hi[0] = 2;
    assert!(NodeId::from_bytes(lo) < NodeId::from_bytes(hi));
    assert!(NodeId::from_bytes([0; ID_LEN]) < NodeId::from_bytes(lo));
    assert_eq!(NodeId::from_bytes(hi), NodeId::from_bytes(hi));
}

#[test]
fn ids_of_different_kinds_are_different_types() {
    // Compile-time check: a NodeId is not a FolderId even with equal bytes.
    fn takes_node(_: NodeId) {}
    takes_node(NodeId::from_bytes(sample()));
    let _folder = FolderId::from_bytes(sample());
}

#[test]
fn hostname_accepts_dns_labels_and_empty() {
    assert_eq!(HostName::new("laptop").unwrap().as_str(), "laptop");
    assert_eq!(HostName::new("pi-4b").unwrap().to_string(), "pi-4b");
    assert!(HostName::new("").unwrap().is_empty());
    assert_eq!(HostName::empty(), HostName::new("").unwrap());
    assert!(HostName::new(&"a".repeat(63)).is_ok());
}

#[test]
fn hostname_rejects_case_dots_spaces_and_length() {
    assert_eq!(HostName::new("Laptop"), Err(HostNameError::BadChar(0)));
    assert_eq!(HostName::new("nas.local"), Err(HostNameError::BadChar(3)));
    assert_eq!(HostName::new("my box"), Err(HostNameError::BadChar(2)));
    assert_eq!(HostName::new("é"), Err(HostNameError::BadChar(0)));
    assert_eq!(
        HostName::new(&"a".repeat(64)),
        Err(HostNameError::TooLong(64))
    );
}

#[test]
fn bytes_and_text_round_trip() {
    let id = NodeId::from_bytes(sample());
    assert_eq!(id.as_bytes(), sample());
    let back: NodeId = id.to_string().parse().unwrap();
    assert_eq!(back, id);
    assert_eq!(BatchId::from_bytes(sample()).debug_text(), "BatchId(00112233445566778899aabbccddeeff)");
    assert_eq!(FolderId::LEN, 16);
}

#[test]
fn successors_count_on_and_start_over() {
    let base = BatchId::from_bytes(sample());
    assert_eq!(base.successor(0), base);
    let mut next = sample();
    next[15] = 0x00;
    next[14] = 0xef;
    assert_eq!(base.successor(1), BatchId::from_bytes(next));
    let top = BatchId::from_bytes([0xff; ID_LEN]);
    assert_eq!(top.successor(1), BatchId::from_bytes([0; ID_LEN]));
    assert_eq!(base.successor(2), base.successor(1).successor(1));
}

#[test]
fn errors_read_well() {
    let e = "0011".parse::<NodeId>().unwrap_err();
    assert_eq!(e.to_string(), "expected 32 hex characters, got 4");
    assert_eq!(ParseHexError::NotHex(19).to_string(), "not a hex digit at offset 19");
    assert_eq!(
        HostNameError::TooLong(64).to_string(),
        "hostname is 64 bytes, at most 63 allowed"
    );
    assert_eq!(
        HostNameError::BadChar(3).to_string(),
        "hostname has a character outside [a-z0-9-] at offset 3"
    );
    assert_eq!(HostName::MAX_LEN, 63);
}
