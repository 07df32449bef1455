use redirectfs::frame::{
    encode_frame, read_all_outcome, read_frame, repair_length, scan_log, tail_damaged, FrameFault,
    FrameRead, ScanStop, Unreadable, MAX_WAL_PAYLOAD_BYTES,
};
use redirectfs::recovery::scan_latest_transactions;
use redirectfs::wal::{OperationType, TxStatus, WalEntry, WalError, WalState, WalTransaction};

fn entry(tx: &str, status: TxStatus, sequence: u64) -> WalEntry {
    WalEntry {
        sequence,
        transaction_id: tx.to_string(),
        file_path: "/x".to_string(),
        chunk_ids: Vec::new(),
        chunk_hashes: Vec::new(),
        timestamp_millis: 1,
        operation: OperationType::Write,
        status,
        expected_version: 0,
    }
}

fn invalid_message(err: WalError) -> String {
    match err {
        WalError::InvalidEntry(m) => m,
        other => panic!("unexpected error: {}", other.message()),
    }
}

fn commit(state: &mut WalState, txn: &WalTransaction) -> Result<WalEntry, WalError> {
    let record = state.commit_record(txn)?;
    state.mark_transaction_finalized(txn.transaction_id());
    Ok(record)
}

fn abort(state: &mut WalState, txn: &WalTransaction) -> Result<WalEntry, WalError> {
    let record = state.abort_record(txn)?;
    state.mark_transaction_finalized(txn.transaction_id());
    Ok(record)
}

fn fresh() -> WalState {
    WalState::from_entries(&[], false)
}

#[test]
fn scanner_uses_last_append_not_highest_sequence() {
    let entries = vec![
        entry("tx-1", TxStatus::Pending, 100),
        entry("tx-2", TxStatus::Pending, 101),
        // Simulate a restart where sequence counter restarts lower.
        entry("tx-1", TxStatus::Committed, 1),
    ];

    let scanned = scan_latest_transactions(entries);
    assert_eq!(scanned.len(), 2);
    assert_eq!(scanned[0].transaction_id, "tx-2");
    assert_eq!(scanned[0].status, TxStatus::Pending);
    assert_eq!(scanned[1].transaction_id, "tx-1");
    assert_eq!(scanned[1].status, TxStatus::Committed);
}

#[test]
fn scanner_returns_latest_state_per_tx_in_append_order() {
    let entries = vec![
        entry("a", TxStatus::Pending, 1),
        entry("b", TxStatus::Pending, 2),
        entry("a", TxStatus::Aborted, 3),
        entry("c", TxStatus::Pending, 4),
        entry("b", TxStatus::Committed, 5),
    ];

    let scanned = scan_latest_transactions(entries);
    let txs: Vec<(&str, TxStatus)> = scanned
        .iter()
        .map(|e| (e.transaction_id.as_str(), e.status))
        .collect();
    assert_eq!(
        txs,
        vec![
            ("a", TxStatus::Aborted),
            ("c", TxStatus::Pending),
            ("b", TxStatus::Committed),
        ]
    );
}

#[test]
fn duplicate_begin_transaction_id_is_rejected_while_active() {
    let mut wal = fresh();
    let _txn = wal
        .begin_transaction_with_id("tx-dup".to_string(), "/x", OperationType::Write, 0)
        .expect("first begin should work");
    let err = match wal.begin_transaction_with_id("tx-dup".to_string(), "/x", OperationType::Write, 0) {
        Ok(_) => panic!("duplicate active tx begin should be rejected"),
        Err(err) => err,
    };
    assert!(matches!(err, WalError::InvalidEntry(_)));
}

#[test]
fn append_after_commit_is_rejected() {
    let mut wal = fresh();
    let mut txn = wal
        .begin_transaction_with_id("tx-finalized".to_string(), "/x", OperationType::Write, 0)
        .expect("begin should work");
    commit(&mut wal, &txn).expect("commit marker should work");
    let err = wal
        .append_chunk(&mut txn, "c1".to_string(), "c1".to_string())
        .expect_err("append after commit should be rejected");
    assert!(matches!(err, WalError::InvalidEntry(_)));
}

#[test]
fn double_commit_is_rejected() {
    let mut wal = fresh();
    let txn = wal
        .begin_transaction_with_id("tx-double-commit".to_string(), "/x", OperationType::Write, 0)
        .expect("begin should work");
    commit(&mut wal, &txn).expect("first commit should work");
    let err = commit(&mut wal, &txn).expect_err("second commit should be rejected");
    assert!(matches!(err, WalError::InvalidEntry(_)));
}

#[test]
fn finalized_transaction_id_cannot_be_reused_after_commit() {
    let mut wal = fresh();
    let txn = wal
        .begin_transaction_with_id("tx-once".to_string(), "/x", OperationType::Write, 0)
        .expect("begin should work");
    commit(&mut wal, &txn).expect("commit should work");
    let err = match wal.begin_transaction_with_id("tx-once".to_string(), "/x", OperationType::Write, 1) {
        Ok(_) => panic!("reusing finalized tx id should be rejected"),
        Err(err) => err,
    };
    assert!(matches!(err, WalError::InvalidEntry(_)));
}

#[test]
fn finalized_transaction_id_cannot_be_reused_after_abort() {
    let mut wal = fresh();
    let txn = wal
        .begin_transaction_with_id("tx-aborted-once".to_string(), "/x", OperationType::Write, 0)
        .expect("begin should work");
    abort(&mut wal, &txn).expect("abort should work");
    let err = match wal.begin_transaction_with_id(
        "tx-aborted-once".to_string(),
        "/x",
        OperationType::Write,
        0,
    ) {
        Ok(_) => panic!("reusing finalized tx id should be rejected"),
        Err(err) => err,
    };
    assert!(matches!(err, WalError::InvalidEntry(_)));
}

#[test]
fn finalized_transaction_id_is_rejected_after_wal_reopen() {
    let mut records = Vec::new();
    {
        let mut wal = fresh();
        let txn = wal
            .begin_transaction_with_id("tx-reopen-finalized".to_string(), "/x", OperationType::Write, 0)
            .expect("begin should work");
        records.push(txn.entry().clone());
        records.push(commit(&mut wal, &txn).expect("commit should work"));
    }

    let mut wal = WalState::from_entries(&records, false);
    let err = match wal.begin_transaction_with_id(
        "tx-reopen-finalized".to_string(),
        "/x",
        OperationType::Write,
        1,
    ) {
        Ok(_) => panic!("reusing finalized tx id after reopen should be rejected"),
        Err(err) => err,
    };
    assert_eq!(invalid_message(err), "transaction already finalized");
}

#[test]
fn pending_transaction_id_is_rejected_after_wal_reopen() {
    let mut records = Vec::new();
    {
        let mut wal = fresh();
        let txn = wal
            .begin_transaction_with_id("tx-reopen-pending".to_string(), "/x", OperationType::Write, 0)
            .expect("begin should work");
        records.push(txn.entry().clone());
    }

    let mut wal = WalState::from_entries(&records, false);
    let err = match wal.begin_transaction_with_id(
        "tx-reopen-pending".to_string(),
        "/x",
        OperationType::Write,
        0,
    ) {
        Ok(_) => panic!("reusing pending tx id after reopen should be rejected"),
        Err(err) => err,
    };
    assert_eq!(invalid_message(err), "transaction already active");
}

#[test]
fn corrupted_tail_requires_repair_before_mutation() {
    let mut wal = WalState::from_entries(&[], true);
    let err = wal
        .begin_transaction_with_id("tx-after-corruption".to_string(), "/x", OperationType::Write, 0)
        .err()
        .expect("mutation must be blocked");
    assert_eq!(invalid_message(err), "wal requires repair before mutation");
    wal.mark_repaired();
    wal.begin_transaction_with_id("tx-after-corruption".to_string(), "/x", OperationType::Write, 0)
        .expect("repaired log accepts writes");
}

#[test]
fn append_chunk_rejects_id_hash_mismatch() {
    let mut wal = fresh();
    let mut txn = wal
        .begin_transaction_with_id("tx-mismatch".to_string(), "/x", OperationType::Write, 0)
        .expect("begin should succeed");
    let err = wal
        .append_chunk(&mut txn, "id-a".to_string(), "id-b".to_string())
        .expect_err("append_chunk should reject mismatch");
    assert!(matches!(err, WalError::InvalidEntry(_)));
}

#[test]
fn append_chunk_rejects_empty_id_or_hash() {
    let mut wal = fresh();
    let mut txn = wal
        .begin_transaction_with_id("tx-empty".to_string(), "/x", OperationType::Write, 0)
        .expect("begin should succeed");
    let err = wal
        .append_chunk(&mut txn, "".to_string(), "".to_string())
        .expect_err("append_chunk should reject empty id/hash");
    assert!(matches!(err, WalError::InvalidEntry(_)));
}

#[test]
fn append_chunk_rejects_delete_transactions() {
    let mut wal = fresh();
    let mut txn = wal
        .begin_transaction_with_id("tx-del".to_string(), "/x", OperationType::Delete, 0)
        .expect("begin delete should succeed");
    let err = wal
        .append_chunk(&mut txn, "id-ok".to_string(), "id-ok".to_string())
        .expect_err("append_chunk should be invalid for delete transactions");
    assert_eq!(
        invalid_message(err),
        "append_chunk is only valid for write transactions"
    );
    let latest = commit(&mut wal, &txn).expect("delete transaction should still commit");
    assert_eq!(latest.status, TxStatus::Committed);
    assert!(latest.chunk_ids.is_empty());
    assert!(latest.chunk_hashes.is_empty());
}

#[test]
fn rejected_append_chunk_does_not_mutate_txn_or_wal_state() {
    let mut wal = fresh();
    let mut txn = wal
        .begin_transaction_with_id("tx-reject-preserve".to_string(), "/x", OperationType::Write, 0)
        .expect("begin should succeed");
    let err = wal
        .append_chunk(&mut txn, "id-a".to_string(), "id-b".to_string())
        .expect_err("append_chunk should reject mismatch");
    assert_eq!(invalid_message(err), "chunk id/hash mismatch");
    assert!(txn.chunk_ids().is_empty());

    let snapshot = wal
        .append_chunk(&mut txn, "id-ok".to_string(), "id-ok".to_string())
        .expect("valid append should still work");
    assert_eq!(snapshot.status, TxStatus::Pending);
    txn.adopt(snapshot);
    let latest = commit(&mut wal, &txn).expect("commit should still work");
    assert_eq!(latest.status, TxStatus::Committed);
    assert_eq!(latest.chunk_ids, vec!["id-ok".to_string()]);
    assert_eq!(latest.chunk_hashes, vec!["id-ok".to_string()]);
}

#[test]
fn begin_transaction_rejects_empty_transaction_id() {
    let mut wal = fresh();
    let err = match wal.begin_transaction_with_id("".to_string(), "/x", OperationType::Write, 0) {
        Ok(_) => panic!("empty tx id should be rejected"),
        Err(err) => err,
    };
    assert!(matches!(err, WalError::InvalidEntry(_)));
}

#[test]
fn begin_transaction_rejects_nul_in_transaction_id_and_does_not_reserve_it() {
    let mut wal = fresh();
    let err = match wal.begin_transaction_with_id("tx\0bad".to_string(), "/x", OperationType::Write, 0) {
        Ok(_) => panic!("NUL tx id should be rejected"),
        Err(err) => err,
    };
    assert!(matches!(err, WalError::InvalidEntry(_)));
    let _txn = wal
        .begin_transaction_with_id("tx-good".to_string(), "/x", OperationType::Write, 0)
        .expect("valid tx id should still begin after validation failure");
}

#[test]
fn begin_transaction_rejects_empty_file_path() {
    let mut wal = fresh();
    let err = match wal.begin_transaction_with_id("tx-empty-path".to_string(), "", OperationType::Write, 0) {
        Ok(_) => panic!("empty path should be rejected"),
        Err(err) => err,
    };
    assert!(matches!(err, WalError::InvalidEntry(_)));
}

#[test]
fn begin_transaction_empty_path_failure_does_not_reserve_txid() {
    let mut wal = fresh();
    let err = match wal.begin_transaction_with_id(
        "tx-empty-path-retry".to_string(),
        "",
        OperationType::Write,
        0,
    ) {
        Ok(_) => panic!("empty path should be rejected"),
        Err(err) => err,
    };
    assert!(matches!(err, WalError::InvalidEntry(_)));
    let _txn = wal
        .begin_transaction_with_id(
            "tx-empty-path-retry".to_string(),
            "/good.txt",
            OperationType::Write,
            0,
        )
        .expect("same tx id should still be usable after validation failure");
}

#[test]
fn begin_transaction_rejects_relative_file_path() {
    let mut wal = fresh();
    let err = match wal.begin_transaction_with_id(
        "tx-relative-path".to_string(),
        "relative/path.txt",
        OperationType::Write,
        0,
    ) {
        Ok(_) => panic!("relative path should be rejected"),
        Err(err) => err,
    };
    assert!(matches!(err, WalError::InvalidEntry(_)));
}

#[test]
fn begin_transaction_relative_path_failure_does_not_reserve_txid() {
    let mut wal = fresh();
    let err = match wal.begin_transaction_with_id(
        "tx-relative-retry".to_string(),
        "relative/path.txt",
        OperationType::Write,
        0,
    ) {
        Ok(_) => panic!("relative path should be rejected"),
        Err(err) => err,
    };
    assert!(matches!(err, WalError::InvalidEntry(_)));
    let _txn = wal
        .begin_transaction_with_id(
            "tx-relative-retry".to_string(),
            "/good.txt",
            OperationType::Write,
            0,
        )
        .expect("same tx id should still be usable after validation failure");
}

#[test]
fn begin_transaction_rejects_nul_in_file_path_and_does_not_reserve_txid() {
    let mut wal = fresh();
    let err = match wal.begin_transaction_with_id(
        "tx-nul-path".to_string(),
        "/bad\0path",
        OperationType::Write,
        0,
    ) {
        Ok(_) => panic!("NUL path should be rejected"),
        Err(err) => err,
    };
    assert!(matches!(err, WalError::InvalidEntry(_)));
    let _txn = wal
        .begin_transaction_with_id("tx-nul-path".to_string(), "/good.txt", OperationType::Write, 0)
        .expect("same tx id should still be usable after validation failure");
}

#[test]
fn oversized_wal_frame_is_rejected() {
    // Raw frame with oversized payload length and no payload bytes.
    let log = u32::MAX.to_le_bytes();
    let scan = scan_log(&log);
    let err = read_all_outcome(&scan, &None).expect_err("oversized wal frame should fail closed");
    assert!(matches!(err, WalError::InvalidEntry(_)));
    assert_eq!(invalid_message(err), "wal frame payload exceeds max size");
}

#[test]
fn transaction_ids_and_sequences_count_up() {
    let mut wal = fresh();
    assert_eq!(wal.new_transaction_id(1700), "tx-1700-1");
    assert_eq!(wal.new_transaction_id(1700), "tx-1700-2");
    let t1 = wal
        .begin_transaction_with_id("a".to_string(), "/a", OperationType::Write, 0)
        .unwrap();
    let t2 = wal
        .begin_transaction_with_id("b".to_string(), "/b", OperationType::Write, 0)
        .unwrap();
    assert_eq!(t1.entry().sequence, 1);
    assert_eq!(t2.entry().sequence, 2);
    assert_eq!(commit(&mut wal, &t1).unwrap().sequence, 3);
}

#[test]
fn released_id_may_begin_again() {
    let mut wal = fresh();
    let txn = wal
        .begin_transaction_with_id("tx-r".to_string(), "/x", OperationType::Write, 0)
        .unwrap();
    wal.release(txn.transaction_id());
    wal.begin_transaction_with_id("tx-r".to_string(), "/x", OperationType::Write, 0)
        .expect("a released id is free");
}

#[test]
fn frames_round_trip_and_scan_cleanly() {
    let a = encode_frame(b"first").unwrap();
    let b = encode_frame(b"").unwrap();
    assert_eq!(&a[..4], &5u32.to_le_bytes());
    assert_eq!(&a[4..9], b"first");
    assert_eq!(&a[9..], blake3::hash(b"first").as_bytes());
    let mut log = a.clone();
    log.extend_from_slice(&b);
    let scan = scan_log(&log);
    assert_eq!(scan.stop, ScanStop::Clean);
    assert_eq!(scan.frames.len(), 2);
    assert_eq!(&log[scan.frames[0].payload_start..scan.frames[0].payload_end], b"first");
    assert_eq!(scan.frames[1].start, a.len());
    assert_eq!(scan.frames[1].payload_start, scan.frames[1].payload_end);
    assert_eq!(read_all_outcome(&scan, &None).unwrap(), 2);
    assert_eq!(repair_length(&scan, &None, log.len()).unwrap(), log.len());
    assert!(!tail_damaged(&scan, &None));
    assert_eq!(read_frame(&log, log.len()), FrameRead::End);
}

#[test]
fn oversized_payload_is_not_framed() {
    let big = vec![0u8; MAX_WAL_PAYLOAD_BYTES + 1];
    let err = encode_frame(&big).unwrap_err();
    assert_eq!(invalid_message(err), "wal payload exceeds max size");
}

#[test]
fn truncated_tail_is_cut_at_last_good_frame() {
    let mut log = encode_frame(b"good").unwrap();
    let good_len = log.len();
    let tail = encode_frame(b"partial").unwrap();
    log.extend_from_slice(&tail[..6]);
    let scan = scan_log(&log);
    assert_eq!(scan.frames.len(), 1);
    assert_eq!(
        scan.stop,
        ScanStop::Damaged { fault: FrameFault::Truncated, start: good_len, position: log.len() }
    );
    assert!(matches!(read_all_outcome(&scan, &None), Err(WalError::TruncatedFrame)));
    assert!(tail_damaged(&scan, &None));
    assert_eq!(repair_length(&scan, &None, log.len()).unwrap(), good_len);
}

#[test]
fn checksum_damage_before_the_tail_cannot_be_repaired() {
    let mut log = encode_frame(b"one").unwrap();
    log[5] ^= 0xff;
    log.extend_from_slice(&encode_frame(b"two").unwrap());
    let scan = scan_log(&log);
    assert!(matches!(scan.stop, ScanStop::Damaged { fault: FrameFault::ChecksumMismatch, start: 0, .. }));
    assert!(matches!(repair_length(&scan, &None, log.len()), Err(WalError::ChecksumMismatch)));
}

#[test]
fn unreadable_record_at_the_tail_is_cut() {
    let mut log = encode_frame(b"{}").unwrap();
    let first_len = log.len();
    log.extend_from_slice(&encode_frame(b"not json").unwrap());
    let scan = scan_log(&log);
    let bad = Some(Unreadable { index: 1, reason: "expected value".to_string() });
    assert_eq!(repair_length(&scan, &bad, log.len()).unwrap(), first_len);
    let early = Some(Unreadable { index: 0, reason: "expected value".to_string() });
    match repair_length(&scan, &early, log.len()) {
        Err(WalError::Serde(m)) => assert_eq!(m, "expected value"),
        _ => panic!("non-tail damage must not be repaired"),
    }
    assert!(matches!(read_all_outcome(&scan, &bad), Err(WalError::Serde(_))));
}

#[test]
fn error_messages() {
    assert_eq!(WalError::ChecksumMismatch.message(), "wal frame checksum mismatch");
    assert_eq!(WalError::TruncatedFrame.message(), "wal frame truncated");
    assert_eq!(WalError::Conflict.message(), "transaction conflict");
    assert_eq!(WalError::Metadata("m".to_string()).message(), "metadata commit rejected: m");
    assert_eq!(WalError::ChunkStore("c".to_string()).message(), "chunk store error: c");
    assert_eq!(WalError::InvalidEntry("x".to_string()).message(), "invalid entry: x");
    assert_eq!(WalError::Io("e".to_string()).message(), "io error: e");
    assert_eq!(WalError::Serde("s".to_string()).message(), "serialization error: s");
}

#[test]
fn reopened_log_numbers_records_after_the_largest_it_holds() {
    let records = vec![
        entry("a", TxStatus::Pending, 7),
        entry("a", TxStatus::Committed, 12),
        entry("b", TxStatus::Pending, 9),
    ];
    let mut wal = WalState::from_entries(&records, false);
    let t = wal
        .begin_transaction_with_id("c".to_string(), "/c", OperationType::Write, 0)
        .unwrap();
    assert_eq!(t.entry().sequence, 13);
    assert_eq!(commit(&mut wal, &t).unwrap().sequence, 14);
}

#[test]
fn committed_transaction_takes_no_further_record() {
    let mut wal = fresh();
    let mut t = wal
        .begin_transaction_with_id("a".to_string(), "/a", OperationType::Write, 0)
        .unwrap();
    commit(&mut wal, &t).unwrap();
    assert_eq!(invalid_message(wal.commit_record(&t).unwrap_err()), "transaction is not active");
    assert_eq!(invalid_message(wal.abort_record(&t).unwrap_err()), "transaction is not active");
    assert_eq!(
        invalid_message(wal.append_chunk(&mut t, "c".to_string(), "c".to_string()).unwrap_err()),
        "transaction is not active"
    );
    match wal.begin_transaction_with_id("a".to_string(), "/a", OperationType::Write, 0) {
        Err(e) => assert_eq!(invalid_message(e), "transaction already finalized"),
        Ok(_) => panic!("a finalized id began again"),
    }
}

#[test]
fn transaction_ids_differ_by_reading_or_counter() {
    let mut wal = fresh();
    let a = wal.new_transaction_id(12);
    let b = wal.new_transaction_id(1);
    assert_eq!(a, "tx-12-1");
    assert_eq!(b, "tx-1-2");
    assert_ne!(a, b);
}
