use proglog_rs::errors::IndexError;
use proglog_rs::index::Index;
use proglog_rs::IndexResult;

#[test]
fn test_index_write_reaad() -> IndexResult<()> {
    let mut index = Index::new(Vec::new());

    // write a single entry
    index.write(0, 100)?;

    let position = index.read(0)?;
    assert_eq!(position, 100);
    assert_eq!(index.len(), 1);

    Ok(())
}

#[test]
fn test_index_multiple_entries() -> IndexResult<()> {
    let mut index = Index::new(Vec::new());

    // Write multiple entries in order
    let entries = [(0, 0), (1, 150), (2, 300), (3, 500)];

    for (offset, position) in entries {
        index.write(offset, position)?;
    }

    // Read them all back
    for (offset, expected_position) in entries {
        let position = index.read(offset)?;
        assert_eq!(position, expected_position);
    }

    assert_eq!(index.len(), 4);
    Ok(())
}

#[test]
fn test_index_out_of_order_writes() -> IndexResult<()> {
    let mut index = Index::new(Vec::new());

    // Write entries out of order (simulating distributed arrival)
    index.write(5, 500)?; // 6th record arrives first
    index.write(1, 100)?; // 2nd record arrives second
    index.write(3, 300)?; // 4th record arrives third

    // Should still be able to find them
    assert_eq!(index.read(5)?, 500);
    assert_eq!(index.read(1)?, 100);
    assert_eq!(index.read(3)?, 300);

    // Non-existent offset should fail
    assert!(matches!(
        index.read(2),
        Err(IndexError::OffsetNotFound { offset: 2 })
    ));
    assert!(matches!(
        index.read(4),
        Err(IndexError::OffsetNotFound { offset: 4 })
    ));

    assert_eq!(index.len(), 3);
    Ok(())
}

#[test]
fn test_index_persistence() -> IndexResult<()> {
    let file_bytes;

    // Write some entries and close the index
    {
        let mut index = Index::new(Vec::new());
        index.write(0, 100)?;
        index.write(1, 200)?;
        index.write(2, 300)?;
        file_bytes = index.file_bytes();
    }

    // Reopen and verify persistence
    {
        let index = Index::new(file_bytes);
        assert_eq!(index.len(), 3);
        assert_eq!(index.read(0)?, 100);
        assert_eq!(index.read(1)?, 200);
        assert_eq!(index.read(2)?, 300);
    }

    Ok(())
}

#[test]
fn test_index_empty_operations() -> IndexResult<()> {
    let index = Index::new(Vec::new());

    // Empty index should report correct state
    assert!(index.is_empty());
    assert_eq!(index.len(), 0);
    assert_eq!(index.size(), 0);

    // Reading from empty index should fail
    assert!(matches!(
        index.read(0),
        Err(IndexError::OffsetNotFound { offset: 0 })
    ));

    Ok(())
}

#[test]
fn test_index_entry_width() -> IndexResult<()> {
    let mut index = Index::new(Vec::new());
    for i in 0..10u64 {
        index.write(i, i * 21)?;
        // sixteen bytes per entry: eight of offset, eight of position
        assert_eq!(index.size(), 16 * (i + 1));
    }
    assert_eq!(index.file_bytes().len(), 160);
    Ok(())
}

#[test]
fn test_index_discards_partial_entry() -> IndexResult<()> {
    let mut file_bytes;
    {
        let mut index = Index::new(Vec::new());
        index.write(0, 11)?;
        index.write(1, 22)?;
        file_bytes = index.file_bytes();
    }
    // a torn index write: five stray bytes after the last full entry
    file_bytes.extend_from_slice(&[9, 9, 9, 9, 9]);

    let index = Index::new(file_bytes);
    assert_eq!(index.len(), 2);
    assert_eq!(index.read(0)?, 11);
    assert_eq!(index.read(1)?, 22);
    Ok(())
}

#[test]
fn test_index_first_match_wins() -> IndexResult<()> {
    let mut index = Index::new(Vec::new());
    index.write(7, 111)?;
    index.write(7, 222)?;
    // the linear scan returns the first entry with the offset
    assert_eq!(index.read(7)?, 111);
    Ok(())
}

#[test]
fn test_index_grow_policy() {
    // doubling wins over adding room for a thousand entries once large
    assert_eq!(Index::grow(16000), 32000);
    assert_eq!(Index::grow(4000), 20000);
    assert_eq!(Index::initial_capacity(0), 16000);
    assert_eq!(Index::initial_capacity(64000), 64000);
}
