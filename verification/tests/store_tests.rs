use key_capture::codec::{CountItem, KeyId};
use key_capture::store::{
    check_config, is_affirmative, reconcile, upgrade_version, version_drifted, Config,
    ConfigMismatch, KeyCounts, StoreError,
};

fn k(name: &str) -> KeyId {
    KeyId::new(name.to_string()).unwrap()
}

fn chord(names: &[&str]) -> Vec<KeyId> {
    names.iter().map(|n| k(n)).collect()
}

#[test]
fn serialize_one_entry() {
    let mut kc = KeyCounts::new();
    kc.config = Some(Config::new(false, false, "0.2.0".to_string()));
    kc.record(CountItem::Single(chord(&["A"])));
    let text = kc.serialize();
    assert_eq!(text, "config:\n  pairs: false\n  no_chords: false\n  version: 0.2.0\nA: 1\n");
}

#[test]
fn record_counts_up() {
    let mut kc = KeyCounts::new();
    kc.config = Some(Config::new(false, false, "0.2.0".to_string()));
    let item = CountItem::Single(chord(&["A"]));
    assert_eq!(kc.record(item.clone()), 1);
    assert_eq!(kc.record(item.clone()), 2);
    assert_eq!(kc.record(item.clone()), 3);
    assert_eq!(kc.count_of(&item), Some(3));
    assert_eq!(kc.count_of(&CountItem::Single(chord(&["B"]))), None);
    assert_eq!(kc.len(), 1);
}

#[test]
fn save_load_round_trip() {
    let mut kc = KeyCounts::new();
    kc.config = Some(Config::new(true, false, "0.2.0".to_string()));
    let i1 = CountItem::Pair(chord(&["A"]), chord(&["B"]));
    let i2 = CountItem::Pair(chord(&["B"]), chord(&["LShift", "C"]));
    kc.record(i1.clone());
    kc.record(i2.clone());
    kc.record(i1.clone());
    let text = kc.serialize();
    let back = KeyCounts::deserialize(&text).unwrap();
    let cfg = back.config.as_ref().unwrap();
    assert_eq!(cfg.pairs, true);
    assert_eq!(cfg.no_chords, false);
    assert_eq!(cfg.version, "0.2.0");
    assert_eq!(back.count_of(&i1), Some(2));
    assert_eq!(back.count_of(&i2), Some(1));
    assert_eq!(back.len(), 2);
}

#[test]
fn load_parses_handwritten_file() {
    let text = "config:\n  pairs: true\n  no_chords: false\n  version: 0.1.0\nA: 3\nA, B: 2\n";
    let kc = KeyCounts::deserialize(text).unwrap();
    let cfg = kc.config.as_ref().unwrap();
    assert_eq!(cfg.pairs, true);
    assert_eq!(cfg.no_chords, false);
    assert_eq!(cfg.version, "0.1.0");
    assert_eq!(kc.count_of(&CountItem::Single(chord(&["A"]))), Some(3));
    assert_eq!(kc.count_of(&CountItem::Pair(chord(&["A"]), chord(&["B"]))), Some(2));
}

#[test]
fn load_without_header_yields_no_config() {
    let kc = KeyCounts::deserialize("A: 1\n").unwrap();
    assert!(kc.config.is_none());
    assert_eq!(kc.count_of(&CountItem::Single(chord(&["A"]))), Some(1));
}

#[test]
fn load_empty_text() {
    let kc = KeyCounts::deserialize("").unwrap();
    assert!(kc.config.is_none());
    assert_eq!(kc.len(), 0);
}

#[test]
fn load_rejects_bad_header() {
    match KeyCounts::deserialize("config:\n  pairs: maybe\n  no_chords: false\n  version: 1\n") {
        Err(StoreError::MalformedHeader) => {},
        Err(e) => panic!("wrong error: {:?}", e),
        Ok(_) => panic!("expected MalformedHeader"),
    }
    match KeyCounts::deserialize("config:\n  pairs: true\n") {
        Err(StoreError::MalformedHeader) => {},
        Err(e) => panic!("wrong error: {:?}", e),
        Ok(_) => panic!("expected MalformedHeader"),
    }
}

#[test]
fn load_rejects_bad_entries() {
    match KeyCounts::deserialize("A\n") {
        Err(StoreError::MalformedEntry(l)) => assert_eq!(l, "A"),
        Err(e) => panic!("wrong error: {:?}", e),
        Ok(_) => panic!("expected MalformedEntry"),
    }
    match KeyCounts::deserialize("A: x\n") {
        Err(StoreError::MalformedEntry(l)) => assert_eq!(l, "A: x"),
        Err(e) => panic!("wrong error: {:?}", e),
        Ok(_) => panic!("expected MalformedEntry"),
    }
    match KeyCounts::deserialize("A, B, C: 1\n") {
        Err(StoreError::AmbiguousKey) => {},
        Err(e) => panic!("wrong error: {:?}", e),
        Ok(_) => panic!("expected AmbiguousKey"),
    }
    match KeyCounts::deserialize("A B: 1\n") {
        Err(StoreError::UnknownKeyName(s)) => assert_eq!(s, "A B"),
        Err(e) => panic!("wrong error: {:?}", e),
        Ok(_) => panic!("expected UnknownKeyName"),
    }
}

#[test]
fn mode_isolation_rejects_pair_flag_mismatch() {
    // a file created with pair counting, loaded while requesting single
    // counting, must fail naming the flag and both values
    let text = "config:\n  pairs: true\n  no_chords: false\n  version: 0.1.0\n";
    let kc = KeyCounts::deserialize(text).unwrap();
    let cfg = kc.config.as_ref().unwrap();
    let got = check_config(cfg, false, false);
    assert_eq!(got, Err(ConfigMismatch::Pairs { requested: false, stored: true }));
    // the in-memory text is untouched by the check
    assert_eq!(kc.serialize(), text);
}

#[test]
fn chordless_flag_mismatch_detected() {
    let cfg = Config::new(false, true, "0.2.0".to_string());
    let got = check_config(&cfg, false, false);
    assert_eq!(got, Err(ConfigMismatch::NoChords { requested: false, stored: true }));
    assert_eq!(check_config(&cfg, false, true), Ok(()));
}

#[test]
fn reconcile_builds_fresh_config() {
    let cfg = reconcile(None, true, false, "0.2.0").unwrap();
    assert_eq!(cfg.pairs, true);
    assert_eq!(cfg.no_chords, false);
    assert_eq!(cfg.version, "0.2.0");
}

#[test]
fn reconcile_keeps_matching_config() {
    let loaded = Config::new(true, true, "0.1.0".to_string());
    let cfg = reconcile(Some(loaded), true, true, "0.2.0").unwrap();
    assert_eq!(cfg.version, "0.1.0");
    let loaded2 = Config::new(true, false, "0.1.0".to_string());
    match reconcile(Some(loaded2), false, false, "0.2.0") {
        Err(m) => assert_eq!(m, ConfigMismatch::Pairs { requested: false, stored: true }),
        Ok(_) => panic!("expected a pair-counting mismatch"),
    }
}

#[test]
fn version_drift_confirmation_and_upgrade() {
    // a matching-flag file with an older version: drift is flagged
    let text = "config:\n  pairs: true\n  no_chords: false\n  version: 0.1.0\nA, B: 1\n";
    let mut kc = KeyCounts::deserialize(text).unwrap();
    let cfg = kc.config.as_mut().unwrap();
    assert_eq!(check_config(cfg, true, false), Ok(()));
    assert!(version_drifted(cfg, "0.2.0"));

    // declined: the config is left alone, a rewrite reproduces the file
    assert!(!is_affirmative(b'n'));
    assert!(!is_affirmative(b'\n'));
    assert_eq!(kc.serialize(), text);

    // accepted: the version is upgraded and the next save writes it
    let cfg = kc.config.as_mut().unwrap();
    assert!(is_affirmative(b'y'));
    upgrade_version(cfg, "0.2.0");
    assert_eq!(cfg.version, "0.2.0");
    assert!(!version_drifted(cfg, "0.2.0"));
    assert_eq!(
        kc.serialize(),
        "config:\n  pairs: true\n  no_chords: false\n  version: 0.2.0\nA, B: 1\n"
    );
}

#[test]
fn affirmative_bytes() {
    assert!(is_affirmative(b'y'));
    assert!(is_affirmative(b'Y'));
    assert!(!is_affirmative(b'N'));
    assert!(!is_affirmative(b' '));
}
