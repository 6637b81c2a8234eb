use proglog_rs::index::Index;
use proglog_rs::store::Store;

#[test]
fn test_store_index_coordination() {
    let records = [
        "Hello, World!",
        "This is record 2",
        "Short",
        "This is a much longer record with more text to see variable sizing",
        "Final record",
    ];

    let mut positions = Vec::new();
    let store_bytes;
    let index_bytes;

    {
        let mut store = Store::new(Vec::new());
        let mut index = Index::new(Vec::new());

        for (offset, record) in records.iter().enumerate() {
            let data = record.as_bytes();
            let (position, _bytes_written) = store.append(data).unwrap();
            index.write(offset as u64, position).unwrap();
            positions.push(position);
        }

        assert_eq!(index.len(), records.len().try_into().unwrap());
        store_bytes = store.file_bytes().clone();
        index_bytes = index.file_bytes();
    }

    {
        let store = Store::new(store_bytes);
        let index = Index::new(index_bytes);

        for (i, &expected_pos) in positions.iter().enumerate() {
            let position = index.read(i as u64).unwrap();
            assert_eq!(position, expected_pos);

            let (data, _) = store.read(position).unwrap();
            assert_eq!(data, records[i].as_bytes());
        }
    }

}

#[test]
fn test_random_access_via_index() {
    let records = ["First", "Second", "Third", "Fourth", "Fifth"];
    let store_bytes;
    let index_bytes;

    {
        let mut store = Store::new(Vec::new());
        let mut index = Index::new(Vec::new());

        for (offset, record) in records.iter().enumerate() {
            let (position, _) = store.append(record.as_bytes()).unwrap();
            index.write(offset as u64, position).unwrap();
        }

        store_bytes = store.file_bytes().clone();
        index_bytes = index.file_bytes();
    }

    {
        let store = Store::new(store_bytes);
        let index = Index::new(index_bytes);

        let access_pattern = [2, 0, 4, 1, 3];
        for &offset in &access_pattern {
            let position = index.read(offset).unwrap();
            let (data, _) = store.read(position).unwrap();
            assert_eq!(data, records[offset as usize].as_bytes());
        }
    }

}

#[test]
fn test_storage_overhead_analysis() {
    let mut store = Store::new(Vec::new());
    let mut index = Index::new(Vec::new());

    let num_records = 100;
    let record = "Test record data";

    for i in 0..num_records {
        let (position, _) = store.append(record.as_bytes()).unwrap();
        index.write(i, position).unwrap();
    }

    let index_size = index.size();
    let bytes_per_entry = index_size / num_records;

    assert_eq!(
        bytes_per_entry, 16,
        "Index entry should be 16 bytes (8 bytes offset + 8 bytes position)"
    );

    let store_size = store.size();
    let expected_store_size = num_records * (8 + record.len() as u64);
    assert_eq!(
        store_size, expected_store_size,
        "Store size should match expected"
    );

}
