use quickwit_splits::error::SplitsError;
use quickwit_splits::footer::{embed_footer, extract_footer};

#[test]
fn test_footer_round_trip() {
    let mut store: Vec<u8> = b"0123456789".to_vec();
    let payload: Vec<u8> = b"abcdef".to_vec();
    let (start, end) = embed_footer(&mut store, &payload);
    assert_eq!(start, 10);
    assert_eq!(end, 16);
    assert_eq!(store.len(), 10 + 6 + 8);
    let back = extract_footer(&store).unwrap();
    assert_eq!(back, payload);
}

#[test]
fn test_footer_round_trip_empty_store() {
    let mut store: Vec<u8> = Vec::new();
    let payload: Vec<u8> = vec![7, 7, 7];
    let (start, end) = embed_footer(&mut store, &payload);
    assert_eq!(start, 0);
    assert_eq!(end, 3);
    assert_eq!(store.len(), 11);
    let back = extract_footer(&store).unwrap();
    assert_eq!(back, payload);
}

#[test]
fn test_footer_round_trip_empty_payload() {
    let mut store: Vec<u8> = vec![1, 2, 3];
    let payload: Vec<u8> = Vec::new();
    let (start, end) = embed_footer(&mut store, &payload);
    assert_eq!(start, 3);
    assert_eq!(end, 3);
    let back = extract_footer(&store).unwrap();
    assert!(back.is_empty());
}

#[test]
fn test_extract_footer_too_small() {
    let r = extract_footer(&[1, 2, 3]);
    assert!(matches!(r, Err(SplitsError::InvalidSplit(_))));
}

#[test]
fn test_extract_footer_length_too_small() {
    // Trailer claims a footer of 2 bytes, which is below the minimum of 8.
    let mut file: Vec<u8> = vec![0; 8];
    file.extend_from_slice(&2u64.to_le_bytes());
    let r = extract_footer(&file);
    assert!(matches!(r, Err(SplitsError::InvalidSplit(_))));
}

#[test]
fn test_extract_footer_length_too_large() {
    // Trailer claims a footer larger than the whole file.
    let mut file: Vec<u8> = vec![0; 8];
    file.extend_from_slice(&1000u64.to_le_bytes());
    let r = extract_footer(&file);
    assert!(matches!(r, Err(SplitsError::InvalidSplit(_))));
}
