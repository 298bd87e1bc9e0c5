use key_capture::codec::{
    encode_count_item, input_to_string, parse_count_item, parse_input_from_string, CodecError,
    CountItem, KeyId,
};

fn k(name: &str) -> KeyId {
    KeyId::new(name.to_string()).unwrap()
}

fn chord(names: &[&str]) -> Vec<KeyId> {
    names.iter().map(|n| k(n)).collect()
}

#[test]
fn key_id_accepts_plain_names() {
    assert!(KeyId::new("A".to_string()).is_some());
    assert!(KeyId::new("LShift".to_string()).is_some());
    assert!(KeyId::new("Key0".to_string()).is_some());
}

#[test]
fn key_id_rejects_delimiters_and_whitespace() {
    assert!(KeyId::new("".to_string()).is_none());
    assert!(KeyId::new("A+B".to_string()).is_none());
    assert!(KeyId::new("A,B".to_string()).is_none());
    assert!(KeyId::new("A:B".to_string()).is_none());
    assert!(KeyId::new("A B".to_string()).is_none());
    assert!(KeyId::new("A\n".to_string()).is_none());
}

#[test]
fn chord_encodes_names_joined_by_plus() {
    assert_eq!(input_to_string(&chord(&["A"])), "A");
    assert_eq!(input_to_string(&chord(&["LShift", "A"])), "LShift+A");
    assert_eq!(input_to_string(&Vec::new()), "");
}

#[test]
fn single_and_pair_tokens() {
    let single = CountItem::Single(chord(&["LControl", "C"]));
    assert_eq!(encode_count_item(&single), "LControl+C");
    let pair = CountItem::Pair(chord(&["A"]), chord(&["B"]));
    assert_eq!(encode_count_item(&pair), "A, B");
}

#[test]
fn decode_single() {
    let got = parse_count_item("LShift+A").unwrap();
    assert_eq!(got, CountItem::Single(chord(&["LShift", "A"])));
}

#[test]
fn decode_pair() {
    let got = parse_count_item("A, B+C").unwrap();
    assert_eq!(got, CountItem::Pair(chord(&["A"]), chord(&["B", "C"])));
}

#[test]
fn decode_trims_and_drops_empty_segments() {
    let got = parse_input_from_string(" A ++ B ").unwrap();
    assert_eq!(got, chord(&["A", "B"]));
    let empty = parse_input_from_string("").unwrap();
    assert_eq!(empty, Vec::new());
}

#[test]
fn decode_rejects_bad_segment() {
    match parse_count_item("A B+C") {
        Err(CodecError::UnknownKeyName(s)) => assert_eq!(s, "A B"),
        other => panic!("expected UnknownKeyName, got {:?}", other),
    }
    match parse_count_item("A:B") {
        Err(CodecError::UnknownKeyName(s)) => assert_eq!(s, "A:B"),
        other => panic!("expected UnknownKeyName, got {:?}", other),
    }
}

#[test]
fn decode_rejects_ambiguous_token() {
    match parse_count_item("A, B, C") {
        Err(CodecError::AmbiguousKey) => {},
        other => panic!("expected AmbiguousKey, got {:?}", other),
    }
}

#[test]
fn round_trip_on_samples() {
    let items = vec![
        CountItem::Single(chord(&["A"])),
        CountItem::Single(chord(&["LShift", "A", "B"])),
        CountItem::Pair(chord(&["A"]), chord(&["B"])),
        CountItem::Pair(chord(&["LControl", "X"]), chord(&["Escape"])),
    ];
    for item in items {
        let token = encode_count_item(&item);
        let back = parse_count_item(&token).unwrap();
        assert_eq!(back, item);
    }
}

#[test]
fn pair_order_is_significant() {
    let ab = encode_count_item(&CountItem::Pair(chord(&["A"]), chord(&["B"])));
    let ba = encode_count_item(&CountItem::Pair(chord(&["B"]), chord(&["A"])));
    assert_ne!(ab, ba);
}

#[test]
fn numbers_round_trip() {
    assert_eq!(key_capture::numbers::u32_to_string(0), "0");
    assert_eq!(key_capture::numbers::u32_to_string(42), "42");
    assert_eq!(key_capture::numbers::u32_to_string(u32::MAX), "4294967295");
    assert_eq!(key_capture::numbers::parse_u32("0"), Some(0));
    assert_eq!(key_capture::numbers::parse_u32("007"), Some(7));
    assert_eq!(key_capture::numbers::parse_u32("4294967295"), Some(u32::MAX));
    assert_eq!(key_capture::numbers::parse_u32("4294967296"), None);
    assert_eq!(key_capture::numbers::parse_u32(""), None);
    assert_eq!(key_capture::numbers::parse_u32("12a"), None);
    assert_eq!(key_capture::numbers::parse_u32("-1"), None);
}
