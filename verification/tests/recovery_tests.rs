use redirectfs::metadata::{InMemoryMetadataHook, MetadataRead};
use redirectfs::recovery::{
    abort_outcome, apply_committed, check_fetched_chunk, chunk_identity, commit_failure,
    recovery_action, validate_chunk_size, validate_entry_shape, verify_chunks, ChunkStore,
    RecoveryAction, RecoveryReport,
};
use redirectfs::wal::{OperationType, TxStatus, WalEntry, WalError};
use std::collections::HashMap;
use std::sync::Mutex;

struct MemChunks {
    chunks: Mutex<HashMap<String, Vec<u8>>>,
}

impl MemChunks {
    fn new() -> Self {
        MemChunks { chunks: Mutex::new(HashMap::new()) }
    }
}

impl ChunkStore for MemChunks {
    fn put_chunk(&self, chunk_id: &str, data: &[u8]) -> Result<(), String> {
        self.chunks.lock().unwrap().insert(chunk_id.to_string(), data.to_vec());
        Ok(())
    }

    fn get_chunk(&self, chunk_id: &str) -> Result<Option<Vec<u8>>, String> {
        Ok(self.chunks.lock().unwrap().get(chunk_id).cloned())
    }
}

fn record(tx: &str, path: &str, op: OperationType, status: TxStatus, ids: &[String]) -> WalEntry {
    WalEntry {
        sequence: 1,
        transaction_id: tx.to_string(),
        file_path: path.to_string(),
        chunk_ids: ids.to_vec(),
        chunk_hashes: ids.to_vec(),
        timestamp_millis: 0,
        operation: op,
        status,
        expected_version: 0,
    }
}

fn message(err: WalError) -> String {
    match err {
        WalError::InvalidEntry(m) => m,
        other => panic!("unexpected error: {}", other.message()),
    }
}

#[test]
fn chunk_identity_is_blake3_hex() {
    assert_eq!(chunk_identity(b"abc"), blake3::hash(b"abc").to_hex().to_string());
    assert_eq!(chunk_identity(b"").len(), 64);
}

#[test]
fn committed_write_is_reapplied_after_chunks_check_out() {
    let store = MemChunks::new();
    let id = chunk_identity(b"hello");
    store.put_chunk(&id, b"hello").unwrap();
    let mut meta = InMemoryMetadataHook::new();
    let e = record("tx-1", "/f", OperationType::Write, TxStatus::Committed, &[id.clone()]);
    assert_eq!(recovery_action(&e).unwrap(), RecoveryAction::Reapply);
    apply_committed(&store, &mut meta, &e).expect("replay should succeed");
    let view = MetadataRead::read_committed(&meta, "/f").unwrap().unwrap();
    assert_eq!(view.version, 1);
    assert_eq!(view.chunk_ids, vec![id]);
    // Replaying the same transaction again changes nothing.
    apply_committed(&store, &mut meta, &e).expect("replay is idempotent");
    assert_eq!(MetadataRead::read_committed(&meta, "/f").unwrap().unwrap().version, 1);
}

#[test]
fn missing_or_corrupt_chunks_stop_replay() {
    let store = MemChunks::new();
    let id = chunk_identity(b"hello");
    let e = record("tx-1", "/f", OperationType::Write, TxStatus::Committed, &[id.clone()]);
    assert_eq!(message(verify_chunks(&store, &e).unwrap_err()), format!("missing chunk {id}"));
    store.put_chunk(&id, b"tampered").unwrap();
    assert_eq!(
        message(verify_chunks(&store, &e).unwrap_err()),
        format!("chunk hash mismatch for chunk_id={id}")
    );
    let mut mismatched = e.clone();
    mismatched.chunk_hashes = vec!["other".to_string()];
    assert_eq!(
        message(verify_chunks(&store, &mismatched).unwrap_err()),
        format!("chunk id/hash mismatch for chunk_id={id}")
    );
    mismatched.chunk_hashes = Vec::new();
    assert_eq!(
        message(verify_chunks(&store, &mismatched).unwrap_err()),
        "chunk_ids and chunk_hashes length mismatch"
    );
}

#[test]
fn store_failures_are_reported_as_chunk_store_errors() {
    match check_fetched_chunk("a", "a", Err("disk".to_string())) {
        Err(WalError::ChunkStore(m)) => assert_eq!(m, "disk"),
        _ => panic!("expected a chunk store error"),
    }
    let id = chunk_identity(b"x");
    assert!(check_fetched_chunk(&id, &id, Ok(Some(b"x".to_vec()))).is_ok());
}

#[test]
fn recovery_rejects_delete_entry_with_chunk_vectors() {
    let store = MemChunks::new();
    let mut meta = InMemoryMetadataHook::new();
    let e = record("tx-d", "/f", OperationType::Delete, TxStatus::Committed, &["c".to_string()]);
    let err = apply_committed(&store, &mut meta, &e).unwrap_err();
    assert_eq!(message(err), "delete transaction must not include chunk vectors");
}

#[test]
fn recovery_rejects_entry_with_empty_file_path() {
    let e = record("tx-1", "", OperationType::Write, TxStatus::Committed, &[]);
    assert_eq!(message(recovery_action(&e).unwrap_err()), "file path must be non-empty");
}

#[test]
fn recovery_rejects_entry_with_relative_file_path() {
    let e = record("tx-1", "rel/x", OperationType::Write, TxStatus::Committed, &[]);
    assert_eq!(message(recovery_action(&e).unwrap_err()), "file path must be absolute");
}

#[test]
fn recovery_rejects_entry_with_nul_file_path() {
    let e = record("tx-1", "/a\0b", OperationType::Write, TxStatus::Committed, &[]);
    assert_eq!(message(recovery_action(&e).unwrap_err()), "file path must not contain NUL bytes");
}

#[test]
fn recovery_rejects_entry_with_empty_transaction_id() {
    let e = record("", "/x", OperationType::Write, TxStatus::Committed, &[]);
    assert_eq!(message(validate_entry_shape(&e).unwrap_err()), "transaction id must be non-empty");
}

#[test]
fn recovery_rejects_entry_with_nul_transaction_id() {
    let e = record("tx\0", "/x", OperationType::Write, TxStatus::Committed, &[]);
    assert_eq!(
        message(validate_entry_shape(&e).unwrap_err()),
        "transaction id must not contain NUL bytes"
    );
}

#[test]
fn recovery_actions_follow_the_status() {
    let pending = record("a", "/x", OperationType::Write, TxStatus::Pending, &[]);
    let aborted = record("b", "/x", OperationType::Write, TxStatus::Aborted, &[]);
    assert_eq!(recovery_action(&pending).unwrap(), RecoveryAction::AbortPending);
    assert_eq!(recovery_action(&aborted).unwrap(), RecoveryAction::Skip);
    let mut report = RecoveryReport::new();
    report.record(RecoveryAction::AbortPending);
    report.record(RecoveryAction::Skip);
    report.record(RecoveryAction::Reapply);
    report.record(RecoveryAction::Reapply);
    assert_eq!(report.pending_aborted, 1);
    assert_eq!(report.skipped_aborted, 1);
    assert_eq!(report.committed_reapplied, 2);
}

#[test]
fn committed_delete_tombstones_the_file() {
    let store = MemChunks::new();
    let mut meta = InMemoryMetadataHook::new();
    let w = record("tx-w", "/f", OperationType::Write, TxStatus::Committed, &[]);
    apply_committed(&store, &mut meta, &w).unwrap();
    let mut d = record("tx-d", "/f", OperationType::Delete, TxStatus::Committed, &[]);
    d.expected_version = 1;
    apply_committed(&store, &mut meta, &d).unwrap();
    assert!(MetadataRead::read_committed(&meta, "/f").unwrap().is_none());
    let mut stale = record("tx-e", "/f", OperationType::Delete, TxStatus::Committed, &[]);
    stale.expected_version = 0;
    match apply_committed(&store, &mut meta, &stale) {
        Err(WalError::Metadata(m)) => assert!(m.contains("cas conflict")),
        _ => panic!("a stale delete must be refused"),
    }
}

#[test]
fn pipeline_error_rules() {
    assert!(matches!(commit_failure("cas conflict on /x".to_string()), WalError::Conflict));
    match commit_failure("parent directory does not exist".to_string()) {
        WalError::Metadata(m) => assert_eq!(m, "parent directory does not exist"),
        _ => panic!("expected a metadata error"),
    }
    assert!(matches!(
        abort_outcome(WalError::Conflict, Err(WalError::TruncatedFrame)),
        WalError::TruncatedFrame
    ));
    assert!(matches!(abort_outcome(WalError::Conflict, Ok(())), WalError::Conflict));
    assert!(validate_chunk_size(4).is_ok());
    assert_eq!(message(validate_chunk_size(0).unwrap_err()), "chunk_size must be > 0");
}
