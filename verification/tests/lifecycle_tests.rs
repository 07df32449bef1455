use redirectfs::lifecycle::{
    delete_start, delete_step, write_start, write_step, DeleteAction, DeleteEvent, DeleteState,
    WriteAction, WriteEvent, WriteState,
};
use redirectfs::service::CoreError;
use redirectfs::wal::WalError;

fn run_write(events: Vec<WriteEvent>) -> Vec<WriteAction> {
    let mut state = write_start();
    let mut actions = Vec::new();
    for e in events {
        let (s, a) = write_step(state, e);
        state = s;
        actions.push(a);
    }
    actions
}

#[test]
fn write_commits_metadata_after_every_chunk_is_stored_and_logged() {
    let actions = run_write(vec![
        WriteEvent::Read { bytes: 4 },
        WriteEvent::Stored,
        WriteEvent::Logged,
        WriteEvent::Read { bytes: 2 },
        WriteEvent::Stored,
        WriteEvent::Logged,
        WriteEvent::Read { bytes: 0 },
        WriteEvent::MetadataCommitted,
        WriteEvent::WalCommitted,
    ]);
    let names: Vec<&str> = actions
        .iter()
        .map(|a| match a {
            WriteAction::ReadNext => "read",
            WriteAction::StoreChunk => "store",
            WriteAction::LogChunk => "log",
            WriteAction::CommitMetadata => "meta",
            WriteAction::CommitWal => "wal",
            WriteAction::Abort => "abort",
            WriteAction::Succeed { .. } => "ok",
            WriteAction::Fail(_) => "fail",
        })
        .collect();
    assert_eq!(names, vec!["store", "log", "read", "store", "log", "read", "meta", "wal", "ok"]);
    assert!(matches!(actions.last(), Some(WriteAction::Succeed { chunks: 2 })));
}

#[test]
fn write_failures_before_the_metadata_commit_abort() {
    let actions = run_write(vec![
        WriteEvent::Read { bytes: 4 },
        WriteEvent::StoreFailed("disk full".to_string()),
        WriteEvent::Aborted,
    ]);
    assert!(matches!(actions[1], WriteAction::Abort));
    assert!(matches!(&actions[2], WriteAction::Fail(WalError::ChunkStore(m)) if m == "disk full"));

    let actions = run_write(vec![
        WriteEvent::Read { bytes: 0 },
        WriteEvent::MetadataRefused("cas conflict: expected 0, found 1".to_string()),
        WriteEvent::Aborted,
    ]);
    assert!(matches!(actions[1], WriteAction::Abort));
    assert!(matches!(actions[2], WriteAction::Fail(WalError::Conflict)));

    let actions = run_write(vec![
        WriteEvent::Read { bytes: 0 },
        WriteEvent::MetadataRefused("parent missing".to_string()),
        WriteEvent::AbortFailed(WalError::TruncatedFrame),
    ]);
    assert!(matches!(actions[2], WriteAction::Fail(WalError::TruncatedFrame)));
}

#[test]
fn out_of_order_write_event_fails() {
    let (state, action) = write_step(WriteState::Streaming { chunks: 0 }, WriteEvent::Logged);
    assert!(matches!(state, WriteState::Failed));
    assert!(matches!(action, WriteAction::Fail(WalError::InvalidEntry(_))));
}

#[test]
fn delete_announces_only_after_the_log_commit() {
    let (s, a) = delete_step(delete_start(1), DeleteEvent::Looked(Ok(1)));
    assert!(matches!(a, DeleteAction::Begin { expected: 1, wait_ms: 0 }));
    let (s, a) = delete_step(s, DeleteEvent::Begun);
    assert!(matches!(a, DeleteAction::CommitDelete { expected: 1 }));
    let (s, a) = delete_step(s, DeleteEvent::Deleted);
    assert!(matches!(a, DeleteAction::CommitWal));
    let (s, a) = delete_step(s, DeleteEvent::WalCommitted);
    assert!(matches!(a, DeleteAction::Finish));
    assert!(matches!(s, DeleteState::Done));
}

#[test]
fn delete_retries_conflicts_at_the_latest_version_then_reports_busy() {
    let (mut s, _) = delete_step(delete_start(1), DeleteEvent::Looked(Ok(1)));
    let mut waits = Vec::new();
    for attempt in 0..4u64 {
        let (s1, _) = delete_step(s, DeleteEvent::Begun);
        let (s2, a) = delete_step(s1, DeleteEvent::Refused("cas conflict".to_string()));
        assert!(matches!(a, DeleteAction::Abort));
        let (s3, a) = delete_step(s2, DeleteEvent::Aborted);
        assert!(matches!(a, DeleteAction::CleanSlot));
        let (s4, a) = delete_step(s3, DeleteEvent::SlotCleaned);
        if attempt == 3 {
            assert!(matches!(a, DeleteAction::Fail(CoreError::Busy)));
            return assert_eq!(waits, vec![1, 2, 4]);
        }
        assert!(matches!(a, DeleteAction::Look));
        let (s5, a) = delete_step(s4, DeleteEvent::Looked(Ok(attempt + 5)));
        match a {
            DeleteAction::Begin { expected, wait_ms } => {
                assert_eq!(expected, attempt + 5);
                waits.push(wait_ms);
            }
            _ => panic!("expected a new attempt"),
        }
        s = s5;
    }
}

#[test]
fn delete_of_missing_file_and_other_refusals_fail() {
    let (_, a) = delete_step(delete_start(1), DeleteEvent::Looked(Err(CoreError::NotFound)));
    assert!(matches!(a, DeleteAction::Fail(CoreError::NotFound)));
    let (s, _) = delete_step(delete_start(1), DeleteEvent::Looked(Ok(1)));
    let (s, _) = delete_step(s, DeleteEvent::Begun);
    let (s, _) = delete_step(s, DeleteEvent::Refused("path type conflict".to_string()));
    let (s, _) = delete_step(s, DeleteEvent::Aborted);
    let (_, a) = delete_step(s, DeleteEvent::SlotCleaned);
    assert!(matches!(a, DeleteAction::Fail(CoreError::Metadata(m)) if m == "path type conflict"));
}
