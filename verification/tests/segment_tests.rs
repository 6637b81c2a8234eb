use proglog_rs::errors::{IndexError, SegmentError};
use proglog_rs::index::Index;
use proglog_rs::segment::Segment;
use proglog_rs::SegmentResult;

#[test]
fn test_segment_append_and_read() -> SegmentResult<()> {
    let mut segment = Segment::new(Vec::new(), Vec::new(), 0, 1024 * 1024, 1000)?;

    let data = b"Hello, Segment!";
    let offset = segment.append(data)?;

    assert_eq!(offset, 0);
    assert_eq!(segment.next_offset(), 1);
    assert!(!segment.is_empty());

    let read_data = segment.read(offset)?;
    assert_eq!(read_data, data);

    Ok(())
}

#[test]
fn test_segment_sequential_offsets() -> SegmentResult<()> {
    let mut segment = Segment::new(
        Vec::new(),
        Vec::new(),
        100, // base_offset = 100
        1024 * 1024,
        1000,
    )?;

    let records = ["First", "Second", "Third"];
    let mut offsets = Vec::new();

    // Append multiple records
    for record in &records {
        let offset = segment.append(record.as_bytes())?;
        offsets.push(offset);
    }

    // Verify sequential offsets starting from base_offset
    assert_eq!(offsets, vec![100, 101, 102]);
    assert_eq!(segment.next_offset(), 103);

    // Read all records back
    for (i, &offset) in offsets.iter().enumerate() {
        let data = segment.read(offset)?;
        assert_eq!(data, records[i].as_bytes());
    }

    Ok(())
}

#[test]
fn test_segment_offset_bounds_checking() -> SegmentResult<()> {
    let mut segment = Segment::new(Vec::new(), Vec::new(), 50, 1024 * 1024, 1000)?;

    // Add one record (gets offset 50)
    segment.append(b"test")?;

    // Test bounds checking
    assert!(segment.contains_offset(50)); // Valid
    assert!(!segment.contains_offset(49)); // Below base
    assert!(!segment.contains_offset(51)); // Beyond next

    // Reading out-of-range offsets should fail
    assert!(matches!(
        segment.read(49),
        Err(SegmentError::OffsetOutOfRange { offset: 49, .. })
    ));

    assert!(matches!(
        segment.read(51),
        Err(SegmentError::OffsetOutOfRange { offset: 51, .. })
    ));

    Ok(())
}

#[test]
fn test_segment_full_detection() -> SegmentResult<()> {
    let mut segment = Segment::new(Vec::new(), Vec::new(), 0, 75, 10)?;

    assert!(!segment.is_full());

    // Fill up the segment (each record is 8 bytes header + 7 bytes data = 15 bytes total)
    for i in 0..5 {
        let data = format!("record{i}");
        segment.append(data.as_bytes())?;
    }

    // After 5 records: 5 * 15 = 75 bytes, which should trigger is_full()
    assert!(segment.is_full());

    assert!(matches!(
        segment.append(b"overflow"),
        Err(SegmentError::SegmentFull { .. })
    ));

    Ok(())
}

#[test]
fn test_segment_persistence() -> SegmentResult<()> {
    let records = ["Persistent", "Data", "Test"];
    let store_bytes;
    let index_bytes;

    // Write data and close segment
    {
        let mut segment = Segment::new(
            Vec::new(),
            Vec::new(),
            200, // base_offset = 200
            1024 * 1024,
            1000,
        )?;

        for record in &records {
            segment.append(record.as_bytes())?;
        }

        store_bytes = segment.store_file_bytes().clone();
        index_bytes = segment.index_file_bytes();
    }
    // Reopen segment and verify data
    {
        let segment = Segment::new(
            store_bytes,
            index_bytes,
            200, // Same base_offset
            1024 * 1024,
            1000,
        )?;

        assert_eq!(segment.next_offset(), 203);

        // Should be able to read all records
        for (i, record) in records.iter().enumerate() {
            let offset = 200 + i as u64;
            let data = segment.read(offset)?;
            assert_eq!(data, record.as_bytes());
        }
    }

    Ok(())
}

#[test]
fn test_segment_entry_cap() -> SegmentResult<()> {
    let mut segment = Segment::new(Vec::new(), Vec::new(), 0, 1024 * 1024, 3)?;

    for _ in 0..3 {
        segment.append(b"r")?;
    }
    assert!(segment.is_full());
    assert_eq!(segment.index_entries(), 3);
    assert!(matches!(
        segment.append(b"one too many"),
        Err(SegmentError::SegmentFull { .. })
    ));
    Ok(())
}

#[test]
fn test_segment_rejects_unusable_index_entry() -> SegmentResult<()> {
    // an index entry whose offset field is u64::MAX has no next offset
    let mut index = Index::new(Vec::new());
    index.write(u64::MAX, 0).map_err(SegmentError::Index)?;
    let index_bytes = index.file_bytes();

    let result = Segment::new(Vec::new(), index_bytes, 0, 1024 * 1024, 1000);
    assert!(matches!(
        result,
        Err(SegmentError::Index(IndexError::CorruptedEntry { position: 0 }))
    ));
    Ok(())
}

#[test]
fn test_segment_next_offset_from_highest_entry() -> SegmentResult<()> {
    // entries arriving out of offset order still yield max + 1
    let mut index = Index::new(Vec::new());
    index.write(9, 0).map_err(SegmentError::Index)?;
    index.write(4, 100).map_err(SegmentError::Index)?;
    let index_bytes = index.file_bytes();

    let segment = Segment::new(Vec::new(), index_bytes, 0, 1024 * 1024, 1000)?;
    assert_eq!(segment.next_offset(), 10);
    Ok(())
}

#[test]
fn test_segment_store_size() -> SegmentResult<()> {
    let mut segment = Segment::new(Vec::new(), Vec::new(), 0, 1024 * 1024, 1000)?;
    assert_eq!(segment.store_size(), 0);
    segment.append(b"12345")?;
    assert_eq!(segment.store_size(), 13);
    segment.append(b"")?;
    assert_eq!(segment.store_size(), 21);
    Ok(())
}

#[test]
fn test_segment_read_with_dangling_position() -> SegmentResult<()> {
    // an index entry pointing past the end of the store surfaces the
    // store's error through the segment
    let mut index = Index::new(Vec::new());
    index.write(0, 999).map_err(SegmentError::Index)?;
    let index_bytes = index.file_bytes();

    let segment = Segment::new(Vec::new(), index_bytes, 0, 1024 * 1024, 1000)?;
    assert_eq!(segment.next_offset(), 1);
    assert!(matches!(
        segment.read(0),
        Err(SegmentError::Storage(
            proglog_rs::errors::StorageError::ReadBeyondEnd { position: 999, size: 0 }
        ))
    ));
    Ok(())
}
