use s3_csv_agg::fetch::FetchProgress;

#[test]
fn byte_count_sums_arbitrary_chunks() {
    let chunks: Vec<Vec<u8>> = vec![
        b"abc".to_vec(),
        b"defg".to_vec(),
        Vec::new(),
        b"hijkl".to_vec(),
    ];
    let mut p = FetchProgress::new();
    for c in &chunks {
        assert!(p.record_chunk(c));
    }
    assert_eq!(p.byte_count(), 12);
}

#[test]
fn byte_count_is_independent_of_chunk_boundaries() {
    let payload: Vec<u8> = (0..200u8).collect();
    let as_one: Vec<Vec<u8>> = vec![payload.clone()];
    let by_sevens: Vec<Vec<u8>> = payload.chunks(7).map(|c| c.to_vec()).collect();
    let mut p1 = FetchProgress::new();
    for c in &as_one {
        assert!(p1.record_chunk(c));
    }
    let mut p2 = FetchProgress::new();
    for c in &by_sevens {
        assert!(p2.record_chunk(c));
    }
    assert_eq!(p1.byte_count(), 200);
    assert_eq!(p2.byte_count(), 200);
}

#[test]
fn empty_download_counts_zero() {
    let p = FetchProgress::new();
    assert_eq!(p.byte_count(), 0);
}
