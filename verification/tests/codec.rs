use paper_bench::access::{Access, Command, DecodeError, EncodeError, FieldName, RECORD_SIZE};

fn record(timestamp: u64, command: Command, key: &str, value_len: usize, ttl: Option<u32>) -> Access {
    Access {
        timestamp,
        command,
        key: key.to_string(),
        value: vec![7u8; value_len],
        ttl,
    }
}

#[test]
fn record_size_is_25() {
    assert_eq!(RECORD_SIZE, 25);
}

#[test]
fn round_trip_example() {
    let r = record(42, Command::Put, "7", 3, Some(5));
    let bytes = r.encode().unwrap();
    assert_eq!(bytes.len(), 25);
    let back = Access::decode(&bytes).unwrap();
    assert_eq!(back.timestamp, 42);
    assert!(matches!(back.command, Command::Put));
    assert_eq!(back.key, "7");
    assert_eq!(back.value.len(), 3);
    assert_eq!(back.ttl, Some(5));
    // the payload itself is not carried on the wire: it comes back zeroed
    assert!(back.value.iter().all(|b| *b == 0));
}

#[test]
fn round_trip_get_no_ttl() {
    let r = record(0, Command::Get, "18446744073709551615", 0, None);
    let bytes = r.encode().unwrap();
    let back = Access::decode(&bytes).unwrap();
    assert_eq!(back.timestamp, 0);
    assert!(matches!(back.command, Command::Get));
    assert_eq!(back.key, "18446744073709551615");
    assert_eq!(back.value.len(), 0);
    assert_eq!(back.ttl, None);
}

#[test]
fn round_trip_key_zero() {
    let r = record(9, Command::Get, "0", 1, None);
    let back = Access::decode(&r.encode().unwrap()).unwrap();
    assert_eq!(back.key, "0");
}

#[test]
fn encode_layout_is_little_endian() {
    let r = record(0x0102030405060708, Command::Put, "513", 0x01020304, Some(0xA0B0C0D0));
    let bytes = r.encode().unwrap();
    assert_eq!(&bytes[0..8], &[8, 7, 6, 5, 4, 3, 2, 1]);
    assert_eq!(bytes[8], 1);
    assert_eq!(&bytes[9..17], &[1, 2, 0, 0, 0, 0, 0, 0]);
    assert_eq!(&bytes[17..21], &[4, 3, 2, 1]);
    assert_eq!(&bytes[21..25], &[0xD0, 0xC0, 0xB0, 0xA0]);
}

#[test]
fn decode_reads_little_endian() {
    let mut bytes = vec![0u8; 25];
    bytes[0] = 42; // timestamp = 42
    bytes[8] = 0; // command = get
    bytes[9] = 200; // key = 200
    bytes[17] = 3; // value length = 3
    bytes[21] = 5; // ttl = 5
    let back = Access::decode(&bytes).unwrap();
    assert_eq!(back.timestamp, 42);
    assert!(matches!(back.command, Command::Get));
    assert_eq!(back.key, "200");
    assert_eq!(back.value, vec![0u8, 0, 0]);
    assert_eq!(back.ttl, Some(5));
}

#[test]
fn decode_rejects_unknown_command_byte() {
    let mut bytes = vec![0u8; 25];
    bytes[8] = 2;
    let err = Access::decode(&bytes).unwrap_err();
    assert_eq!(err, DecodeError::InvalidField(FieldName::Command));
}

#[test]
fn decode_rejects_short_buffers() {
    assert_eq!(
        Access::decode(&[]).unwrap_err(),
        DecodeError::InvalidField(FieldName::Timestamp)
    );
    assert_eq!(
        Access::decode(&[0u8; 7]).unwrap_err(),
        DecodeError::InvalidField(FieldName::Timestamp)
    );
    assert_eq!(
        Access::decode(&[0u8; 8]).unwrap_err(),
        DecodeError::InvalidField(FieldName::Command)
    );
    assert_eq!(
        Access::decode(&[0u8; 10]).unwrap_err(),
        DecodeError::InvalidField(FieldName::Key)
    );
    assert_eq!(
        Access::decode(&[0u8; 20]).unwrap_err(),
        DecodeError::InvalidField(FieldName::ValueSize)
    );
    assert_eq!(
        Access::decode(&[0u8; 24]).unwrap_err(),
        DecodeError::InvalidField(FieldName::Ttl)
    );
}

#[test]
fn ttl_zero_on_wire_means_absent() {
    let r = record(1, Command::Put, "4", 2, Some(0));
    let back = Access::decode(&r.encode().unwrap()).unwrap();
    assert_eq!(back.ttl, None);
}

#[test]
fn encode_rejects_non_numeric_keys() {
    for key in ["abc", "", "12x", "-5", " 7", "18446744073709551616"] {
        let r = record(1, Command::Get, key, 0, None);
        assert_eq!(r.encode().unwrap_err(), EncodeError::KeyNotNumeric);
    }
}

#[test]
fn encode_accepts_leading_zero_keys() {
    // "007" parses as 7, so it encodes; the decoded key is canonical.
    let r = record(1, Command::Get, "007", 0, None);
    let back = Access::decode(&r.encode().unwrap()).unwrap();
    assert_eq!(back.key, "7");
}

#[test]
fn decimal_helpers_agree() {
    assert_eq!(paper_bench::access::parse_u64_dec("0"), Some(0));
    assert_eq!(paper_bench::access::parse_u64_dec("007"), Some(7));
    assert_eq!(paper_bench::access::parse_u64_dec("12345"), Some(12345));
    assert_eq!(paper_bench::access::parse_u64_dec("18446744073709551615"), Some(u64::MAX));
    assert_eq!(paper_bench::access::parse_u64_dec("18446744073709551616"), None);
    assert_eq!(paper_bench::access::parse_u64_dec(""), None);
    assert_eq!(paper_bench::access::parse_u64_dec("1a"), None);
    assert_eq!(paper_bench::access::u64_to_dec_string(0), "0");
    assert_eq!(paper_bench::access::u64_to_dec_string(12345), "12345");
    assert_eq!(
        paper_bench::access::u64_to_dec_string(u64::MAX),
        "18446744073709551615"
    );
}

#[test]
fn command_bytes() {
    assert_eq!(Command::Get.as_byte(), 0);
    assert_eq!(Command::Put.as_byte(), 1);
    assert_eq!(Command::from_byte(0).unwrap(), Command::Get);
    assert_eq!(Command::from_byte(1).unwrap(), Command::Put);
    assert_eq!(
        Command::from_byte(7).unwrap_err(),
        DecodeError::InvalidField(FieldName::Command)
    );
}

#[test]
fn decode_ignores_trailing_bytes() {
    let r = record(11, Command::Get, "9", 4, None);
    let mut bytes = r.encode().unwrap();
    bytes.push(0xFF);
    let back = Access::decode(&bytes).unwrap();
    assert_eq!(back.timestamp, 11);
    assert_eq!(back.key, "9");
}
