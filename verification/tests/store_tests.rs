use proglog_rs::errors::StorageError;
use proglog_rs::store::Store;
use proglog_rs::StorageResult;

#[test]
fn test_store_append_and_read() -> StorageResult<()> {
    let mut store = Store::new(Vec::new());

    // Test appending and reading a single record
    let data = b"Hello, World";
    let (pos, written) = store.append(data)?;

    assert_eq!(pos, 0); // First record starts at position 0
    assert_eq!(written, 8 + data.len() as u64); // 8 bytes length info + data

    let (read_data, read_bytes) = store.read(pos)?;
    assert_eq!(read_data, data);
    assert_eq!(read_bytes, written);
    Ok(())
}

#[test]
fn test_store_multiple_records() -> StorageResult<()> {
    let mut store = Store::new(Vec::new());

    let records = [
        b"First record".as_slice(),
        b"Second record",
        b"Third record with more data",
    ];

    let mut positions = Vec::new();

    // Append all the records
    for record in records {
        let (pos, _) = store.append(record)?;
        positions.push(pos);
    }

    // Read all the positions back
    for (i, &pos) in positions.iter().enumerate() {
        let (data, _) = store.read(pos)?;
        assert_eq!(data, records[i]);
    }

    Ok(())
}

#[test]
fn test_store_persistance() -> StorageResult<()> {
    let data = b"Persistent data";
    let pos;
    let file_bytes;

    // Write data and close the store, keeping its file contents
    {
        let mut store = Store::new(Vec::new());
        let (p, _) = store.append(data)?;
        pos = p;
        file_bytes = store.file_bytes().clone();
    }

    // Reopen and check persistence
    {
        let store = Store::new(file_bytes);
        let (read_data, _) = store.read(pos)?;
        assert_eq!(read_data, data);
    }

    Ok(())
}

#[test]
fn test_read_beyond_end() {
    let store = Store::new(Vec::new());

    // try to read beyond the end

    let result = store.read(100);
    assert!(matches!(
        result,
        Err(StorageError::ReadBeyondEnd {
            position: 100,
            size: 0
        })
    ));
}

#[test]
fn test_error_recovery_info() {
    let store = Store::new(Vec::new());

    let result = store.read(100);
    if let Err(err) = result {
        assert!(!err.is_recoverable());
    }
}

#[test]
fn test_recovery_scan_torn_record() -> StorageResult<()> {
    // Write some valid records
    let mut file_bytes;
    {
        let mut store = Store::new(Vec::new());
        store.append(b"First store record")?;
        store.append(b"Second store record")?;
        file_bytes = store.file_bytes().clone();
    }

    // manually create a corrupted entry which will simulate a crash during entry
    {
        // write a fake length header
        let fake_len: u64 = 50;
        file_bytes.extend_from_slice(&fake_len.to_le_bytes());

        // write only 10 bytes to simulate crash. length and actual data will be inconsistent
        file_bytes.extend_from_slice(b"i crashed!");
    }

    // Reopen - recovery should detect and fix the corrupted record

    {
        let store = Store::new(file_bytes);
        let (data1, _) = store.read(0)?;
        assert_eq!(data1, b"First store record");

        // second record should be at 8 bytes len + 18 bytes data = 26
        let (data2, _) = store.read(26)?;
        assert_eq!(data2, b"Second store record");

        // Total valid size should be: first record (26 bytes) + second record (27 bytes)
        let result = store.read(53);
        assert!(matches!(result, Err(StorageError::ReadBeyondEnd { .. })))
    }

    Ok(())
}

#[test]
fn test_variable_sized_records() -> StorageResult<()> {
    let mut store = Store::new(Vec::new());

    let records = [
        b"".as_slice(),
        b"x",
        b"short",
        b"medium length record",
        &[b'a'; 100],
        &[b'b'; 1000],
        &[b'c'; 10000],
    ];

    let mut positions = Vec::new();

    for record in &records {
        let (pos, written) = store.append(record)?;
        positions.push(pos);
        assert_eq!(written, 8 + record.len() as u64);
    }

    for (i, &pos) in positions.iter().enumerate() {
        let (data, bytes_read) = store.read(pos)?;
        assert_eq!(data, records[i]);
        assert_eq!(bytes_read, 8 + records[i].len() as u64);
    }

    Ok(())
}

#[test]
fn test_store_growth_with_many_records() -> StorageResult<()> {
    let mut store = Store::new(Vec::new());

    let num_records = 1000;
    let record = b"Test record for growth";
    let mut positions = Vec::new();

    for _ in 0..num_records {
        let (pos, _) = store.append(record)?;
        positions.push(pos);
    }

    assert_eq!(positions.len(), num_records);

    let expected_size = num_records * (8 + record.len());
    assert_eq!(store.size() as usize, expected_size);

    for (i, &pos) in positions.iter().enumerate().step_by(100) {
        let (data, _) = store.read(pos)?;
        assert_eq!(data, record, "Failed at position {}", i);
    }

    Ok(())
}

#[test]
fn test_corrupted_read_inside_record() -> StorageResult<()> {
    let mut store = Store::new(Vec::new());

    // one record whose payload bytes decode to an absurd length prefix
    let payload = [0xffu8; 16];
    store.append(&payload)?;

    // reading at the start of the payload sees length 0xffff... and fails
    let result = store.read(8);
    assert!(matches!(
        result,
        Err(StorageError::CorruptedRecord { position: 8, .. })
    ));

    // reading within the last 8 bytes cannot even read a length prefix
    let result = store.read(20);
    assert!(matches!(
        result,
        Err(StorageError::CorruptedRecord { position: 20, .. })
    ));

    Ok(())
}

#[test]
fn test_torn_tail_shorter_than_prefix() -> StorageResult<()> {
    let mut file_bytes;
    {
        let mut store = Store::new(Vec::new());
        store.append(b"abc")?;
        file_bytes = store.file_bytes().clone();
    }
    // fewer than 8 bytes of garbage after the valid region
    file_bytes.extend_from_slice(&[1, 2, 3]);

    let store = Store::new(file_bytes);
    assert_eq!(store.size(), 11);
    let (data, _) = store.read(0)?;
    assert_eq!(data, b"abc");
    Ok(())
}

#[test]
fn test_recovery_discards_oversized_length() -> StorageResult<()> {
    let mut file_bytes;
    {
        let mut store = Store::new(Vec::new());
        store.append(b"kept")?;
        file_bytes = store.file_bytes().clone();
    }
    // a length prefix over the 100 MiB sanity bound, with ample payload
    let huge: u64 = 200 * 1024 * 1024;
    file_bytes.extend_from_slice(&huge.to_le_bytes());
    file_bytes.extend_from_slice(&[0u8; 64]);

    let store = Store::new(file_bytes);
    assert_eq!(store.size(), 12);
    let (data, _) = store.read(0)?;
    assert_eq!(data, b"kept");
    Ok(())
}

#[test]
fn test_store_grow_policy() {
    // doubling wins while it is the larger of the two
    assert_eq!(Store::grow(1024 * 1024, 100, 50), 2 * 1024 * 1024);
    // otherwise the target size plus one spare MiB wins
    assert_eq!(
        Store::grow(1024, 5000, 3000),
        5000 + 3000 + 1024 * 1024
    );
    assert_eq!(Store::initial_capacity(0), 1024 * 1024);
    assert_eq!(Store::initial_capacity(999), 1024 * 1024);
    assert_eq!(Store::initial_capacity(5 * 1024 * 1024), 5 * 1024 * 1024);
}

#[test]
fn test_store_size_accounting() -> StorageResult<()> {
    let mut store = Store::new(Vec::new());
    let lengths = [0usize, 1, 7, 64, 300];
    let mut expected: u64 = 0;
    for len in lengths {
        let payload = vec![7u8; len];
        store.append(&payload)?;
        expected += 8 + len as u64;
        assert_eq!(store.size(), expected);
    }
    Ok(())
}
