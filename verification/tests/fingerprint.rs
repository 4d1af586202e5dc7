use sdivi::fingerprint::{fingerprint_node_kind, PatternFingerprint, FINGERPRINT_KEY};

#[test]
fn fingerprint_key_is_32_bytes() {
    assert_eq!(FINGERPRINT_KEY.len(), 32);
}

#[test]
fn from_hex_invalid_length_returns_none() {
    assert!(PatternFingerprint::from_hex("abc").is_none());
    assert!(PatternFingerprint::from_hex("").is_none());
}

#[test]
fn same_node_kind_same_fingerprint() {
    assert_eq!(
        fingerprint_node_kind("try_expression"),
        fingerprint_node_kind("try_expression")
    );
}

#[test]
fn different_node_kinds_different_fingerprints() {
    assert_ne!(
        fingerprint_node_kind("try_expression"),
        fingerprint_node_kind("match_expression")
    );
}

#[test]
fn hex_is_64_chars() {
    assert_eq!(fingerprint_node_kind("closure_expression").to_hex().len(), 64);
}

#[test]
fn from_hex_round_trips() {
    let fp = fingerprint_node_kind("try_expression");
    let parsed = PatternFingerprint::from_hex(&fp.to_hex()).unwrap();
    assert_eq!(fp, parsed);
}

#[test]
fn fingerprint_key_spells_the_domain_tag() {
    assert_eq!(&FINGERPRINT_KEY, b"sdi-rust::patterns::fingerprint!");
}

#[test]
fn fingerprint_is_a_keyed_digest_not_the_input() {
    let fp = fingerprint_node_kind("try_expression");
    let mut raw = [0u8; 32];
    raw[..14].copy_from_slice(b"try_expression");
    assert_ne!(fp, PatternFingerprint::from_bytes(raw));
    assert_ne!(fp, PatternFingerprint::from_bytes([0u8; 32]));
}

#[test]
fn to_hex_is_lowercase_pairs() {
    let mut bytes = [0u8; 32];
    bytes[0] = 0xab;
    bytes[1] = 0x0f;
    bytes[31] = 0xff;
    let hex = PatternFingerprint::from_bytes(bytes).to_hex();
    assert_eq!(&hex[..4], "ab0f");
    assert_eq!(&hex[62..], "ff");
    assert!(hex[4..62].chars().all(|c| c == '0'));
}

#[test]
fn from_hex_accepts_uppercase_and_rejects_signs() {
    let upper = "AB".repeat(32);
    let fp = PatternFingerprint::from_hex(&upper).unwrap();
    assert_eq!(fp.as_bytes(), &[0xabu8; 32]);
    let signed = format!("+f{}", "0".repeat(62));
    assert!(PatternFingerprint::from_hex(&signed).is_none());
    let non_hex = "g".repeat(64);
    assert!(PatternFingerprint::from_hex(&non_hex).is_none());
    let non_ascii = "é".repeat(32);
    assert!(PatternFingerprint::from_hex(&non_ascii).is_none());
}

#[test]
fn hex_round_trip_of_bytes() {
    let mut bytes = [0u8; 32];
    for (i, b) in bytes.iter_mut().enumerate() {
        *b = (i * 7) as u8;
    }
    let fp = PatternFingerprint::from_bytes(bytes);
    assert_eq!(PatternFingerprint::from_hex(&fp.to_hex()), Some(fp));
    assert_eq!(fp.as_bytes(), &bytes);
}
