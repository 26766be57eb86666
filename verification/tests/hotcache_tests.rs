use quickwit_splits::error::SplitsError;
use quickwit_splits::hotcache::{create_hotcache, ByteRange, FieldMetadata, HotcacheInfo};

fn sample_hotcache() -> HotcacheInfo {
    let mut h = HotcacheInfo::new(String::from("split-one"), 42, 4096);
    h.set_byte_range(10, 200);
    h.metadata.push((String::from("source"), String::from("unit-test")));
    h.metadata.push((String::from("tier"), String::from("hot")));
    h.schema_hash = String::from("abc123");
    h.field_metadata.push((
        String::from("title"),
        FieldMetadata {
            posting_range: Some(ByteRange::new(0, 128)),
            fast_field_range: None,
        },
    ));
    h.field_metadata.push((
        String::from("id"),
        FieldMetadata {
            posting_range: None,
            fast_field_range: Some(ByteRange::new(128, 256)),
        },
    ));
    h
}

#[test]
fn test_hotcache_round_trip() {
    let h = sample_hotcache();
    let bytes = h.to_bytes().unwrap();
    let back = HotcacheInfo::from_bytes(&bytes).unwrap();
    assert_eq!(back, h);
}

#[test]
fn test_hotcache_round_trip_empty() {
    let h = HotcacheInfo::empty(String::from("schema-hash-xyz"));
    let bytes = h.to_bytes().unwrap();
    let back = HotcacheInfo::from_bytes(&bytes).unwrap();
    assert_eq!(back, h);
    assert_eq!(back.num_docs, 0);
    assert_eq!(back.schema_hash, String::from("schema-hash-xyz"));
}

#[test]
fn test_hotcache_round_trip_duplicate_keys() {
    // Table entries keep insertion order, so duplicate keys survive a
    // round trip unchanged.
    let mut h = HotcacheInfo::new(String::from("s"), 1, 2);
    h.metadata.push((String::from("k"), String::from("first")));
    h.metadata.push((String::from("k"), String::from("second")));
    let bytes = h.to_bytes().unwrap();
    let back = HotcacheInfo::from_bytes(&bytes).unwrap();
    assert_eq!(back, h);
}

#[test]
fn test_hotcache_round_trip_unicode() {
    let mut h = HotcacheInfo::new(String::from("sp\u{2013}lit \u{00e9}\u{1F600}"), 1, 2);
    h.metadata.push((String::from("k\u{00fc}"), String::from("v\u{0416}")));
    let bytes = h.to_bytes().unwrap();
    let back = HotcacheInfo::from_bytes(&bytes).unwrap();
    assert_eq!(back, h);
}

#[test]
fn test_from_bytes_rejects_garbage() {
    let r = HotcacheInfo::from_bytes(&[9, 9, 9]);
    assert!(matches!(r, Err(SplitsError::Serialization(_))));
}

#[test]
fn test_from_bytes_rejects_empty() {
    let r = HotcacheInfo::from_bytes(&[]);
    assert!(matches!(r, Err(SplitsError::Serialization(_))));
}

#[test]
fn test_from_bytes_rejects_wrong_version() {
    let h = sample_hotcache();
    let mut bytes = h.to_bytes().unwrap();
    bytes[0] = 2;
    let r = HotcacheInfo::from_bytes(&bytes);
    assert!(matches!(r, Err(SplitsError::Serialization(_))));
}

#[test]
fn test_from_bytes_rejects_trailing_bytes() {
    let h = sample_hotcache();
    let mut bytes = h.to_bytes().unwrap();
    bytes.push(0);
    let r = HotcacheInfo::from_bytes(&bytes);
    assert!(matches!(r, Err(SplitsError::Serialization(_))));
}

#[test]
fn test_from_bytes_rejects_unordered_range() {
    let mut h = sample_hotcache();
    h.set_byte_range(5, 5);
    let mut bytes = h.to_bytes().unwrap();
    // The byte range start sits after the version byte, the split id
    // (8 + 4 * 9 bytes), the document count, and the size.
    let start_off = 1 + 8 + 4 * 9 + 4 + 8;
    bytes[start_off] = 6; // start = 6 > end = 5
    let r = HotcacheInfo::from_bytes(&bytes);
    assert!(matches!(r, Err(SplitsError::Serialization(_))));
}

#[test]
fn test_new_and_byte_range() {
    let mut h = create_hotcache(String::from("s"), 3, 77).unwrap();
    assert_eq!(h.split_id, String::from("s"));
    assert_eq!(h.num_docs, 3);
    assert_eq!(h.size_bytes, 77);
    assert_eq!(h.get_byte_range(), (0, 0));
    h.set_byte_range(100, 250);
    assert_eq!(h.get_byte_range(), (100, 250));
}

#[test]
fn test_byte_range_size() {
    let r = ByteRange::new(3, 10);
    assert_eq!(r.size(), 7);
    let empty = ByteRange::new(5, 5);
    assert_eq!(empty.size(), 0);
}

#[test]
fn test_get_field_metadata() {
    let h = sample_hotcache();
    let title = h.get_field_metadata("title").unwrap();
    assert_eq!(title.posting_range, Some(ByteRange::new(0, 128)));
    assert_eq!(title.fast_field_range, None);
    assert!(h.get_field_metadata("missing").is_none());
}

#[test]
fn test_error_messages() {
    let e = SplitsError::Io(String::from("boom"));
    assert_eq!(e.message(), String::from("IO error: boom"));
    assert_eq!(e.detail(), &String::from("boom"));
    let e = SplitsError::InvalidSplit(String::from("no store"));
    assert_eq!(e.message(), String::from("Invalid split: no store"));
    let e = SplitsError::FieldError(String::from("f"));
    assert_eq!(e.message(), String::from("Field error: f"));
    let e = SplitsError::InvalidOperation(String::from("op"));
    assert_eq!(e.message(), String::from("Invalid operation: op"));
    let e = SplitsError::Serialization(String::from("s"));
    assert_eq!(e.message(), String::from("Serialization error: s"));
    let e = SplitsError::IndexLibrary(String::from("t"));
    assert_eq!(e.message(), String::from("Index library error: t"));
}
