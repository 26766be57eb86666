use quickwit_splits::error::SplitsError;
use quickwit_splits::footer::extract_footer;
use quickwit_splits::hotcache::{ByteRange, FieldMetadata, HotcacheInfo};
use quickwit_splits::split_generator::{
    new_split_id, IndexModel, MergeOutcome, MergePlan, QuickwitSplitGenerator,
};
use quickwit_splits::split_reader::{QuickwitSplitReader, SplitDirEntry};

const SEG_ID: &str = "87654321-4321-4321-4321-cba987654321";

fn segment(id: &str, num_docs: u32, alive: u32, max_doc: u32) -> quickwit_splits::split_generator::SegmentStats {
    quickwit_splits::split_generator::SegmentStats {
        segment_id: String::from(id),
        num_docs,
        num_alive_docs: alive,
        max_doc,
        field_ranges: Vec::new(),
    }
}

fn model(segments: Vec<quickwit_splits::split_generator::SegmentStats>) -> IndexModel {
    IndexModel { segments, schema_hash: String::from("schema-hash-1") }
}

#[test]
fn test_generator_new() {
    let r = QuickwitSplitGenerator::new(model(Vec::new()), 0);
    assert!(matches!(r, Err(SplitsError::InvalidOperation(_))));

    let g = QuickwitSplitGenerator::new(model(Vec::new()), 5).unwrap();
    assert_eq!(g.target_docs_per_split(), 5);
}

#[test]
fn test_merge_plan() {
    let g = QuickwitSplitGenerator::new(model(Vec::new()), 10).unwrap();
    assert_eq!(g.merge_plan(), MergePlan::EmptySplit);

    let g = QuickwitSplitGenerator::new(model(vec![segment("a", 1, 1, 1)]), 10).unwrap();
    assert_eq!(g.merge_plan(), MergePlan::UseSegment(String::from("a")));

    let g = QuickwitSplitGenerator::new(
        model(vec![segment("a", 1, 1, 1), segment("b", 2, 2, 2), segment("c", 3, 3, 3)]),
        10,
    )
    .unwrap();
    assert_eq!(
        g.merge_plan(),
        MergePlan::MergeAll(vec![String::from("a"), String::from("b"), String::from("c")])
    );
}

#[test]
fn test_get_all_segments() {
    let g = QuickwitSplitGenerator::new(
        model(vec![segment("x", 1, 1, 1), segment("y", 2, 2, 2)]),
        10,
    )
    .unwrap();
    assert_eq!(g.get_all_segments(), vec![String::from("x"), String::from("y")]);
}

#[test]
fn test_estimate_segment_size() {
    let g = QuickwitSplitGenerator::new(
        model(vec![segment("a", 100, 90, 120), segment("b", 50, 50, 50)]),
        10,
    )
    .unwrap();
    // Known segment: the documented heuristic.
    assert_eq!(g.estimate_segment_size("a"), 1024 * 90 + 512 * 100 + 256 * 120);
    // Unknown segment: 2048 bytes per document over the whole index.
    assert_eq!(g.estimate_segment_size("zz"), 2048 * 150);
}

#[test]
fn test_calculate_actual_segment_size() {
    let g = QuickwitSplitGenerator::new(model(vec![segment("a", 10, 10, 10)]), 10).unwrap();
    let sizes: Vec<u64> = vec![100, 250, 50];
    assert_eq!(g.calculate_actual_segment_size("a", &sizes), 400);
    // No sizes on disk: fall back to the heuristic.
    let empty: Vec<u64> = Vec::new();
    assert_eq!(g.calculate_actual_segment_size("a", &empty), 1024 * 10 + 512 * 10 + 256 * 10);
}

#[test]
fn test_count_documents() {
    let g = QuickwitSplitGenerator::new(model(vec![segment("a", 31, 30, 31)]), 10).unwrap();
    assert_eq!(g.count_documents("a").unwrap(), 31);
    let r = g.count_documents("nope");
    assert!(matches!(r, Err(SplitsError::InvalidOperation(_))));
}

#[test]
fn test_generate_hotcache() {
    let mut st = segment(SEG_ID, 40, 39, 41);
    st.field_ranges.push((
        String::from("title"),
        FieldMetadata {
            posting_range: Some(ByteRange::new(0, 64)),
            fast_field_range: None,
        },
    ));
    let g = QuickwitSplitGenerator::new(model(vec![st]), 10).unwrap();
    let h = g.generate_hotcache(SEG_ID).unwrap();
    assert_eq!(h.split_id, String::from(SEG_ID));
    assert_eq!(h.num_docs, 40);
    assert_eq!(h.size_bytes, 1024 * 39 + 512 * 40 + 256 * 41);
    assert_eq!(h.schema_hash, String::from("schema-hash-1"));
    assert_eq!(h.field_metadata.len(), 1);
    assert_eq!(h.field_metadata[0].0, String::from("title"));
}

#[test]
fn test_list_segment_files_names() {
    let g = QuickwitSplitGenerator::new(model(Vec::new()), 10).unwrap();
    let names = g.list_segment_files("abc");
    assert_eq!(
        names,
        vec![
            String::from("abc.store"),
            String::from("abc.term"),
            String::from("abc.idx"),
            String::from("abc.fast"),
            String::from("abc.pos"),
            String::from("abc.fieldnorm"),
            String::from("abc.del"),
        ]
    );
}

#[test]
fn test_new_split_id() {
    let id = new_split_id();
    assert_eq!(id.chars().count(), 36);
    assert_eq!(id.chars().filter(|&c| c == '-').count(), 4);
    let other = new_split_id();
    assert_ne!(id, other);
}

#[test]
fn test_empty_index_split() {
    let g = QuickwitSplitGenerator::new(model(Vec::new()), 10).unwrap();
    let (files, meta) = g.generate_split(MergeOutcome::NoSegments).unwrap();

    assert_eq!(meta.num_docs, 0);
    assert_eq!(meta.hotcache_start, 0);
    assert_eq!(meta.hotcache_end, meta.size_bytes);
    assert_eq!(meta.split_id.chars().count(), 36);

    assert_eq!(files.len(), 1);
    assert_eq!(files[0].name, format!("{}.store", meta.split_id));
    assert!(QuickwitSplitReader::is_segment_file(&files[0].name));
    assert_eq!(files[0].bytes.len() as u64, meta.size_bytes);

    // The footer is parseable and holds the empty hotcache for the schema.
    let payload = extract_footer(&files[0].bytes).unwrap();
    let h = HotcacheInfo::from_bytes(&payload).unwrap();
    assert_eq!(h.num_docs, 0);
    assert_eq!(h.schema_hash, String::from("schema-hash-1"));
    assert_eq!(h.split_id, String::new());
}

#[test]
fn test_generate_split_merged() {
    let mut st = segment(SEG_ID, 25, 24, 26);
    st.field_ranges.push((
        String::from("id"),
        FieldMetadata {
            posting_range: None,
            fast_field_range: Some(ByteRange::new(0, 200)),
        },
    ));
    let g = QuickwitSplitGenerator::new(model(vec![st.clone()]), 10).unwrap();

    let store_before: Vec<u8> = b"STORE".to_vec();
    let term_before: Vec<u8> = b"TERMDATA".to_vec();
    let files = vec![
        SplitDirEntry { name: format!("{}.store", SEG_ID), bytes: store_before.clone() },
        SplitDirEntry { name: format!("{}.term", SEG_ID), bytes: term_before.clone() },
    ];
    let (out, meta) = g
        .generate_split(MergeOutcome::Merged { stats: st, files })
        .unwrap();

    assert_eq!(meta.split_id, String::from(SEG_ID));
    assert_eq!(meta.num_docs, 25);
    assert_eq!(meta.hotcache_start, store_before.len() as u64);

    // The non-store file is untouched; the store file gained the footer.
    assert_eq!(out.len(), 2);
    assert_eq!(out[1].name, format!("{}.term", SEG_ID));
    assert_eq!(out[1].bytes, term_before);
    assert_eq!(out[0].name, format!("{}.store", SEG_ID));
    assert!(out[0].bytes.starts_with(&store_before));

    let payload = extract_footer(&out[0].bytes).unwrap();
    assert_eq!(meta.hotcache_end, meta.hotcache_start + payload.len() as u64);
    let h = HotcacheInfo::from_bytes(&payload).unwrap();
    assert_eq!(h.split_id, String::from(SEG_ID));
    assert_eq!(h.num_docs, 25);
    // The size estimate uses the actual file sizes, which are present.
    assert_eq!(h.size_bytes, (store_before.len() + term_before.len()) as u64);
    assert_eq!(h.schema_hash, String::from("schema-hash-1"));
    assert_eq!(h.field_metadata.len(), 1);

    // The reported split size is the total size of the output files.
    let total: u64 = out.iter().map(|e| e.bytes.len() as u64).sum();
    assert_eq!(meta.size_bytes, total);
}

#[test]
fn test_generate_split_without_store_file() {
    let st = segment(SEG_ID, 1, 1, 1);
    let g = QuickwitSplitGenerator::new(model(vec![st.clone()]), 10).unwrap();
    let files = vec![SplitDirEntry { name: format!("{}.term", SEG_ID), bytes: vec![1] }];
    let r = g.generate_split(MergeOutcome::Merged { stats: st, files });
    assert!(matches!(r, Err(SplitsError::InvalidSplit(_))));
}

#[test]
fn test_generated_split_opens() {
    // A generated split can be opened by the reader.
    let st = segment(SEG_ID, 3, 3, 3);
    let g = QuickwitSplitGenerator::new(model(vec![st.clone()]), 10).unwrap();
    let files = vec![SplitDirEntry { name: format!("{}.store", SEG_ID), bytes: b"S".to_vec() }];
    let (out, meta) = g
        .generate_split(MergeOutcome::Merged { stats: st, files })
        .unwrap();
    let reader = QuickwitSplitReader::open(
        String::from("/split"),
        quickwit_splits::split_reader::PathStatus::Directory(out),
    )
    .unwrap();
    let h = reader.get_hotcache_info().unwrap();
    assert_eq!(h.split_id, meta.split_id);
    assert_eq!(h.num_docs, 3);
}
