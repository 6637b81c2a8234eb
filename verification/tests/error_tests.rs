use proglog_rs::errors::{
    ConsensusError, NetworkError, ProglogError, StorageError,
};

#[test]
fn test_storage_error_recoverability() {
    assert!(StorageError::WriteFailed { position: 4 }.is_recoverable());
    assert!(StorageError::ReadFailed { position: 4 }.is_recoverable());
    assert!(StorageError::GrowFailed { current_size: 1, target_size: 2 }.is_recoverable());
    assert!(!StorageError::ReadBeyondEnd { position: 9, size: 3 }.is_recoverable());
    assert!(!StorageError::CorruptedRecord {
        position: 0,
        reason: "bad framing".to_owned()
    }
    .is_recoverable());
    assert!(!StorageError::ReadOnly.is_recoverable());
    assert!(!StorageError::OpenFailed { path: "p".to_owned() }.is_recoverable());
}

#[test]
fn test_proglog_error_recoverability() {
    assert!(ProglogError::Storage(StorageError::WriteFailed { position: 0 }).is_recoverable());
    assert!(ProglogError::Network(NetworkError::Timeout { timeout_ms: 10 }).is_recoverable());
    assert!(ProglogError::Network(NetworkError::ServerUnavailable).is_recoverable());
    assert!(ProglogError::Consensus(ConsensusError::Timeout).is_recoverable());
    assert!(ProglogError::Consensus(ConsensusError::NotLeader { leader_id: None })
        .is_recoverable());
    assert!(!ProglogError::Network(NetworkError::AuthenticationFailed).is_recoverable());
    assert!(!ProglogError::Config { message: "bad".to_owned() }.is_recoverable());
    assert!(
        !ProglogError::Storage(StorageError::ReadBeyondEnd { position: 1, size: 0 })
            .is_recoverable()
    );
}

#[test]
fn test_proglog_error_temporariness() {
    assert!(ProglogError::Storage(StorageError::WriteFailed { position: 0 }).is_temporary());
    assert!(ProglogError::Storage(StorageError::ReadFailed { position: 0 }).is_temporary());
    assert!(ProglogError::Network(NetworkError::Timeout { timeout_ms: 1 }).is_temporary());
    assert!(ProglogError::Network(NetworkError::ServerUnavailable).is_temporary());
    assert!(ProglogError::Consensus(ConsensusError::NoLeader).is_temporary());
    assert!(
        !ProglogError::Storage(StorageError::GrowFailed { current_size: 0, target_size: 1 })
            .is_temporary()
    );
    assert!(!ProglogError::Internal { message: "x".to_owned() }.is_temporary());
}
