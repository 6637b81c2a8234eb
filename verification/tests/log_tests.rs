use proglog_rs::errors::{LogError, SegmentError};
use proglog_rs::log::{Log, LogConfig};
use proglog_rs::LogResult;

fn test_config() -> LogConfig {
    LogConfig {
        max_store_bytes: 200, // we keep this small to test rotation later
        max_index_entries: 10,
        log_dir: "data".to_owned(),
    }
}

#[test]
fn test_log_append_and_read() -> LogResult<()> {
    let mut log = Log::new(test_config(), Vec::new())?;

    let data = b"Hello, Log!";
    let offset = log.append(data)?;

    assert_eq!(offset, 0);
    assert_eq!(log.next_offset(), 1);
    assert!(!log.is_empty());

    let read_data = log.read(offset)?;
    assert_eq!(read_data, data);

    Ok(())
}

#[test]
fn test_multiple_records() -> LogResult<()> {
    let mut log = Log::new(test_config(), Vec::new())?;

    let records = ["First", "Second", "Third", "Fourth"];
    let mut offsets = Vec::new();

    for record in records {
        let offset = log.append(record.as_bytes())?;
        offsets.push(offset);
    }

    assert_eq!(offsets, vec![0, 1, 2, 3]);
    assert_eq!(log.next_offset(), 4);
    assert_eq!(log.latest_offset(), Some(3));

    for (i, &offset) in offsets.iter().enumerate() {
        let data = log.read(offset)?;
        assert_eq!(data, records[i].as_bytes());
    }

    Ok(())
}

#[test]
fn test_log_segment_rotation() -> LogResult<()> {
    let mut log = Log::new(test_config(), Vec::new())?;

    assert_eq!(log.segment_count(), 1);

    // Add enough data to trigger segment rotation
    // Each record is roughly 8 + data bytes, so ~15 bytes per record
    // With max_store_bytes = 200, we need about 13-14 records
    for i in 0..15 {
        let data = format!("Record number {i}");
        log.append(data.as_bytes())?;
    }

    // Should have rotated to multiple segments
    assert!(log.segment_count() > 1);

    // Should still be able to read all records
    for i in 0..15 {
        let data = log.read(i)?;
        let expected = format!("Record number {i}");
        assert_eq!(data, expected.as_bytes());
    }

    Ok(())
}

#[test]
fn test_log_offset_not_found() -> LogResult<()> {
    let mut log = Log::new(test_config(), Vec::new())?;

    // Add one record
    log.append(b"test")?;

    // Try to read non-existent offset
    assert!(matches!(
        log.read(999),
        Err(LogError::OffsetNotFound { offset: 999, .. })
    ));

    Ok(())
}

#[test]
fn test_log_empty_state() -> LogResult<()> {
    let log = Log::new(test_config(), Vec::new())?;

    assert!(log.is_empty());
    assert_eq!(log.next_offset(), 0);
    assert_eq!(log.base_offset(), 0);
    assert_eq!(log.latest_offset(), None);
    assert_eq!(log.segment_count(), 1);

    Ok(())
}

#[test]
fn test_basic_write_read() -> LogResult<()> {
    let mut log = Log::new(test_config(), Vec::new())?;

    let offset = log.append(b"Hello, World!")?;
    assert_eq!(offset, 0);

    let data = log.read(0)?;
    assert_eq!(data, b"Hello, World!");
    assert_eq!(data.len(), 13);
    assert_eq!(log.next_offset(), 1);

    // the store grew by the length prefix plus the payload
    assert_eq!(log.total_size(), 8 + 13);

    Ok(())
}

#[test]
fn test_log_persistence() -> LogResult<()> {
    let images;
    {
        let mut log = Log::new(test_config(), Vec::new())?;
        log.append(b"a")?;
        log.append(b"b")?;
        log.append(b"c")?;
        images = log.segment_images();
    }
    {
        let log = Log::new(test_config(), images)?;
        assert_eq!(log.next_offset(), 3);
        assert_eq!(log.read(0)?, b"a");
        assert_eq!(log.read(1)?, b"b");
        assert_eq!(log.read(2)?, b"c");
    }
    Ok(())
}

#[test]
fn test_log_persistence_across_rotation() -> LogResult<()> {
    let images;
    let count;
    {
        let mut log = Log::new(test_config(), Vec::new())?;
        for i in 0..15 {
            let data = format!("Record number {i}");
            log.append(data.as_bytes())?;
        }
        count = log.segment_count();
        images = log.segment_images();
    }
    {
        let log = Log::new(test_config(), images)?;
        assert_eq!(log.segment_count(), count);
        assert_eq!(log.next_offset(), 15);
        for i in 0..15 {
            let expected = format!("Record number {i}");
            assert_eq!(log.read(i)?, expected.as_bytes());
        }
    }
    Ok(())
}

#[test]
fn test_log_truncate_all() -> LogResult<()> {
    let mut log = Log::new(test_config(), Vec::new())?;
    for i in 0..15 {
        let data = format!("Record number {i}");
        log.append(data.as_bytes())?;
    }
    assert!(log.segment_count() > 1);

    // a cutoff at the base drops every segment
    let removed = log.segments_to_remove(0);
    assert_eq!(removed.len(), log.segment_count());
    log.truncate(0)?;

    assert_eq!(log.next_offset(), 0);
    assert_eq!(log.segment_count(), 1);
    assert!(log.is_empty());
    for i in 0..15 {
        assert!(matches!(
            log.read(i),
            Err(LogError::OffsetNotFound { .. })
        ));
    }

    // the log is still writable and the next append restarts at the cutoff
    let offset = log.append(b"after truncate")?;
    assert_eq!(offset, 0);
    Ok(())
}

#[test]
fn test_log_truncate_at_segment_boundary() -> LogResult<()> {
    let mut log = Log::new(test_config(), Vec::new())?;
    for i in 0..15 {
        let data = format!("Record number {i}");
        log.append(data.as_bytes())?;
    }
    let count_before = log.segment_count();
    assert!(count_before > 1);

    // cut at the base of the last segment: only that segment goes
    let removed = log.segments_to_remove(log.next_offset());
    assert!(removed.is_empty());

    // records per segment: 200 / 23 rounds up to 9, so the second
    // segment starts at offset 9
    let cutoff = 9;
    let removed = log.segments_to_remove(cutoff);
    assert_eq!(removed.len(), count_before - 1);
    log.truncate(cutoff)?;

    assert_eq!(log.next_offset(), cutoff);
    assert_eq!(log.segment_count(), 1);
    // earlier records are still there, later ones are gone
    for i in 0..cutoff {
        let expected = format!("Record number {i}");
        assert_eq!(log.read(i)?, expected.as_bytes());
    }
    for i in cutoff..15 {
        assert!(matches!(
            log.read(i),
            Err(LogError::OffsetNotFound { .. })
        ));
    }

    // the next append continues at the cutoff
    let offset = log.append(b"fresh")?;
    assert_eq!(offset, cutoff);
    Ok(())
}

#[test]
fn test_log_rotate_segment() -> LogResult<()> {
    let mut log = Log::new(test_config(), Vec::new())?;
    log.append(b"one")?;
    let count = log.segment_count();
    let next = log.next_offset();

    log.rotate_segment()?;

    assert_eq!(log.segment_count(), count + 1);
    assert_eq!(log.next_offset(), next);

    // appending lands in the new segment, offsets stay dense
    let offset = log.append(b"two")?;
    assert_eq!(offset, next);
    assert_eq!(log.read(0)?, b"one");
    assert_eq!(log.read(1)?, b"two");
    Ok(())
}

#[test]
fn test_log_append_fails_with_zero_caps() -> LogResult<()> {
    let config = LogConfig {
        max_store_bytes: 0,
        max_index_entries: 10,
        log_dir: "data".to_owned(),
    };
    let mut log = Log::new(config, Vec::new())?;
    assert!(matches!(
        log.append(b"never fits"),
        Err(LogError::Segment(SegmentError::SegmentFull { .. }))
    ));
    Ok(())
}

#[test]
fn test_log_total_size() -> LogResult<()> {
    let mut log = Log::new(test_config(), Vec::new())?;
    assert_eq!(log.total_size(), 0);
    for i in 0..15 {
        let data = format!("Record number {i}");
        log.append(data.as_bytes())?;
    }
    // ten 15-byte payloads and five 16-byte ones, each with its 8-byte prefix
    assert_eq!(log.total_size(), 10 * 23 + 5 * 24);
    Ok(())
}

#[test]
fn test_log_config_default() {
    let config = LogConfig::default();
    assert_eq!(config.max_store_bytes, 1024 * 1024);
    assert_eq!(config.max_index_entries, 1024);
    assert_eq!(config.log_dir, "data");
}
