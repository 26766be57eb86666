use quickwit_splits::codec::{enc_str, enc_u32, enc_u64};
use quickwit_splits::error::SplitsError;
use quickwit_splits::footer::embed_footer;
use quickwit_splits::hotcache::{ByteRange, FieldMetadata, HotcacheInfo};
use quickwit_splits::split_reader::{PathStatus, QuickwitSplitReader, SplitDirEntry};

const UUID_A: &str = "12345678-1234-1234-1234-123456789abc";

/// A store file image holding only the given hotcache's footer.
fn store_bytes(hotcache: &HotcacheInfo) -> Vec<u8> {
    let payload = hotcache.to_bytes().unwrap();
    let mut store: Vec<u8> = Vec::new();
    embed_footer(&mut store, &payload);
    store
}

fn store_entry(hotcache: &HotcacheInfo) -> SplitDirEntry {
    SplitDirEntry { name: format!("{}.store", UUID_A), bytes: store_bytes(hotcache) }
}

#[test]
fn test_is_segment_file() {
    assert!(QuickwitSplitReader::is_segment_file(
        "12345678-1234-1234-1234-123456789abc.store"
    ));
    assert!(QuickwitSplitReader::is_segment_file(
        "87654321-4321-4321-4321-cba987654321.term"
    ));
    assert!(!QuickwitSplitReader::is_segment_file("not-a-uuid.store"));
    assert!(!QuickwitSplitReader::is_segment_file(
        "12345678-1234-1234-1234-123456789abc.unknown"
    ));
}

#[test]
fn test_calculate_doc_range_bytes() {
    let base_range = ByteRange { start: 1000, end: 2000 };

    let doc_range = 10..15; // 5 documents
    let byte_range = QuickwitSplitReader::calculate_doc_range_bytes(&base_range, doc_range)
        .unwrap();

    assert_eq!(byte_range.start, 1000 + (10 * 8)); // 1080
    assert_eq!(byte_range.end, 1000 + (10 * 8) + (5 * 8)); // 1120
}

#[test]
fn test_reader_open_failures() {
    let r = QuickwitSplitReader::open(String::from("/missing"), PathStatus::Missing);
    assert!(matches!(r, Err(SplitsError::InvalidSplit(_))));

    let r = QuickwitSplitReader::open(String::from("/a-file"), PathStatus::NotDirectory);
    assert!(matches!(r, Err(SplitsError::InvalidSplit(_))));

    let r = QuickwitSplitReader::open(
        String::from("/empty-dir"),
        PathStatus::Directory(Vec::new()),
    );
    assert!(matches!(r, Err(SplitsError::InvalidSplit(_))));
}

#[test]
fn test_reader_open_rejects_truncated_store() {
    let files = vec![SplitDirEntry { name: format!("{}.store", UUID_A), bytes: vec![1, 2] }];
    let r = QuickwitSplitReader::open(String::from("/split"), PathStatus::Directory(files));
    assert!(matches!(r, Err(SplitsError::InvalidSplit(_))));
}

#[test]
fn test_reader_open_rejects_bad_payload() {
    // A footer whose payload is not a hotcache.
    let mut store: Vec<u8> = Vec::new();
    let payload: Vec<u8> = vec![9, 9, 9];
    embed_footer(&mut store, &payload);
    let files = vec![SplitDirEntry { name: format!("{}.store", UUID_A), bytes: store }];
    let r = QuickwitSplitReader::open(String::from("/split"), PathStatus::Directory(files));
    assert!(matches!(r, Err(SplitsError::Serialization(_))));
}

#[test]
fn test_reader_open_loads_hotcache() {
    let hotcache = HotcacheInfo::new(String::from("the-split"), 9, 512);
    let files = vec![store_entry(&hotcache)];
    let reader = QuickwitSplitReader::open(String::from("/split"), PathStatus::Directory(files))
        .unwrap();
    let loaded = reader.get_hotcache_info().unwrap();
    assert_eq!(loaded, &hotcache);
    assert_eq!(reader.get_split_path(), &String::from("/split"));
}

#[test]
fn test_load_hotcache_again() {
    let hotcache = HotcacheInfo::new(String::from("s"), 1, 2);
    let files = vec![store_entry(&hotcache)];
    let mut reader = QuickwitSplitReader::open(String::from("/p"), PathStatus::Directory(files))
        .unwrap();
    reader.load_hotcache().unwrap();
    assert_eq!(reader.get_hotcache_info().unwrap(), &hotcache);
}

#[test]
fn test_list_segment_files() {
    let hotcache = HotcacheInfo::new(String::from("s"), 1, 2);
    let files = vec![
        SplitDirEntry {
            name: format!("{}.term", UUID_A),
            bytes: Vec::new(),
        },
        store_entry(&hotcache),
        SplitDirEntry {
            name: String::from("not-a-uuid.store"),
            bytes: Vec::new(),
        },
        SplitDirEntry {
            name: format!("{}.fast", UUID_A),
            bytes: Vec::new(),
        },
        SplitDirEntry {
            name: String::from("meta.json"),
            bytes: Vec::new(),
        },
    ];
    let reader = QuickwitSplitReader::open(String::from("/split"), PathStatus::Directory(files))
        .unwrap();
    let listed = reader.list_segment_files().unwrap();
    assert_eq!(
        listed,
        vec![
            format!("{}.fast", UUID_A),
            format!("{}.store", UUID_A),
            format!("{}.term", UUID_A),
        ]
    );
}

/// A posting table with two terms, as the term file's bytes.
fn posting_table_bytes() -> Vec<u8> {
    let mut table: Vec<u8> = Vec::new();
    enc_u64(&mut table, 2);
    enc_str(&mut table, "test");
    enc_u64(&mut table, 4);
    for id in [1u32, 5, 10, 15] {
        enc_u32(&mut table, id);
    }
    enc_str(&mut table, "quickwit");
    enc_u64(&mut table, 2);
    for id in [3u32, 8] {
        enc_u32(&mut table, id);
    }
    table
}

fn reader_with_posting_table() -> QuickwitSplitReader {
    let table = posting_table_bytes();
    let mut hotcache = HotcacheInfo::new(String::from("s"), 20, 4096);
    hotcache.field_metadata.push((
        String::from("body"),
        FieldMetadata {
            posting_range: Some(ByteRange::new(0, table.len() as u64)),
            fast_field_range: None,
        },
    ));
    let files = vec![
        store_entry(&hotcache),
        SplitDirEntry { name: format!("{}.term", UUID_A), bytes: table },
    ];
    QuickwitSplitReader::open(String::from("/split"), PathStatus::Directory(files)).unwrap()
}

#[test]
fn test_read_posting_list() {
    let reader = reader_with_posting_table();
    assert_eq!(reader.read_posting_list("body", "test").unwrap(), vec![1, 5, 10, 15]);
    assert_eq!(reader.read_posting_list("body", "quickwit").unwrap(), vec![3, 8]);
    assert_eq!(reader.read_posting_list("body", "absent").unwrap(), Vec::<u32>::new());
}

#[test]
fn test_read_posting_list_field_errors() {
    let reader = reader_with_posting_table();
    let r = reader.read_posting_list("missing", "test");
    assert!(matches!(r, Err(SplitsError::FieldError(_))));

    // A field that has only fast-field data lacks a posting range.
    let reader = reader_with_fast_field();
    let r = reader.read_posting_list("id", "test");
    assert!(matches!(r, Err(SplitsError::FieldError(_))));
}

#[test]
fn test_read_posting_list_without_term_file() {
    let mut hotcache = HotcacheInfo::new(String::from("s"), 20, 4096);
    hotcache.field_metadata.push((
        String::from("body"),
        FieldMetadata {
            posting_range: Some(ByteRange::new(0, 8)),
            fast_field_range: None,
        },
    ));
    let files = vec![store_entry(&hotcache)];
    let reader = QuickwitSplitReader::open(String::from("/split"), PathStatus::Directory(files))
        .unwrap();
    let r = reader.read_posting_list("body", "test");
    assert!(matches!(r, Err(SplitsError::InvalidSplit(_))));
}

#[test]
fn test_read_posting_list_rejects_unsorted_ids() {
    let mut table: Vec<u8> = Vec::new();
    enc_u64(&mut table, 1);
    enc_str(&mut table, "test");
    enc_u64(&mut table, 3);
    for id in [5u32, 2, 9] {
        enc_u32(&mut table, id);
    }
    let mut hotcache = HotcacheInfo::new(String::from("s"), 20, 4096);
    hotcache.field_metadata.push((
        String::from("body"),
        FieldMetadata {
            posting_range: Some(ByteRange::new(0, table.len() as u64)),
            fast_field_range: None,
        },
    ));
    let files = vec![
        store_entry(&hotcache),
        SplitDirEntry { name: format!("{}.term", UUID_A), bytes: table },
    ];
    let reader = QuickwitSplitReader::open(String::from("/split"), PathStatus::Directory(files))
        .unwrap();
    let r = reader.read_posting_list("body", "test");
    assert!(matches!(r, Err(SplitsError::InvalidSplit(_))));
}

fn reader_with_fast_field() -> QuickwitSplitReader {
    let fast: Vec<u8> = (0u16..96).map(|b| b as u8).collect();
    let mut hotcache = HotcacheInfo::new(String::from("s"), 10, 4096);
    hotcache.field_metadata.push((
        String::from("id"),
        FieldMetadata {
            posting_range: None,
            fast_field_range: Some(ByteRange::new(16, 96)),
        },
    ));
    let files = vec![
        store_entry(&hotcache),
        SplitDirEntry { name: format!("{}.fast", UUID_A), bytes: fast },
    ];
    QuickwitSplitReader::open(String::from("/split"), PathStatus::Directory(files)).unwrap()
}

#[test]
fn test_get_fast_field_data() {
    let reader = reader_with_fast_field();
    // Documents 1..3 at 8 bytes per document after the base offset 16:
    // absolute bytes 24..40.
    let data = reader.get_fast_field_data("id", 1..3).unwrap();
    let expected: Vec<u8> = (24u8..40).collect();
    assert_eq!(data, expected);
}

#[test]
fn test_get_fast_field_data_errors() {
    let reader = reader_with_fast_field();

    let r = reader.get_fast_field_data("missing", 0..1);
    assert!(matches!(r, Err(SplitsError::FieldError(_))));

    // The posting-only field from the other fixture has no fast range here;
    // a reversed document range is an invalid operation.
    #[allow(clippy::reversed_empty_ranges)]
    let r = reader.get_fast_field_data("id", 3..1);
    assert!(matches!(r, Err(SplitsError::InvalidOperation(_))));

    // Past the end of the fast file.
    let r = reader.get_fast_field_data("id", 0..1000);
    assert!(matches!(r, Err(SplitsError::Io(_))));
}

#[test]
fn test_read_byte_range() {
    let data: Vec<u8> = (0u8..32).collect();
    let got = QuickwitSplitReader::read_byte_range(&data, &ByteRange::new(4, 9)).unwrap();
    assert_eq!(got, vec![4, 5, 6, 7, 8]);
    let r = QuickwitSplitReader::read_byte_range(&data, &ByteRange::new(4, 99));
    assert!(matches!(r, Err(SplitsError::Io(_))));
}
