use proglog_rs::filenames::{parse_base_offset, segment_file_stem};

#[test]
fn test_segment_file_stem_padding() {
    assert_eq!(segment_file_stem(42), b"00000000000000000042");
    assert_eq!(segment_file_stem(0), b"00000000000000000000");
    assert_eq!(
        segment_file_stem(u64::MAX),
        b"18446744073709551615"
    );
}

#[test]
fn test_parse_base_offset_valid() {
    assert_eq!(parse_base_offset(b"00000000000000000042"), Some(42));
    assert_eq!(parse_base_offset(b"0"), Some(0));
    assert_eq!(parse_base_offset(b"18446744073709551615"), Some(u64::MAX));
    // a leading plus sign parses, as an unsigned decimal does
    assert_eq!(parse_base_offset(b"+42"), Some(42));
}

#[test]
fn test_parse_base_offset_invalid() {
    assert_eq!(parse_base_offset(b""), None);
    assert_eq!(parse_base_offset(b"+"), None);
    assert_eq!(parse_base_offset(b"tempfile"), None);
    assert_eq!(parse_base_offset(b"12x4"), None);
    assert_eq!(parse_base_offset(b"-3"), None);
    // one past the largest 64-bit value
    assert_eq!(parse_base_offset(b"18446744073709551616"), None);
}

#[test]
fn test_stem_round_trip() {
    for base in [0u64, 1, 9, 10, 99, 12345, 1 << 40, u64::MAX] {
        let stem = segment_file_stem(base);
        assert_eq!(stem.len(), 20);
        assert_eq!(parse_base_offset(&stem), Some(base));
    }
}
