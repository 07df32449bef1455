use redirectfs::staging::{
    slot_meta_committed, slot_meta_path, slot_meta_text, validate_slot_id, InMemoryStaging,
    StagingError, StagingManager,
};
use std::time::SystemTime;

#[test]
fn staging_quota_commit_and_purge() {
    let mut s = InMemoryStaging::new(1);
    s.begin_slot("tx1", "/a").expect("slot begin should work");
    assert!(s.begin_slot("tx2", "/b").is_err());

    s.mark_committed("tx1").expect("commit marker should work");
    s.cleanup_slot("tx1").expect("cleanup should work");
    assert_eq!(s.active_slots().expect("active count should work"), 0);

    s.begin_slot("tx3", "/c").expect("slot begin should work");
    let purged = s.purge_stale_uncommitted().expect("purge should work");
    assert_eq!(purged, 1);
}

#[test]
fn slot_fields_are_populated() {
    let mut s = InMemoryStaging::new(2);
    s.begin_slot("tx1", "/a").expect("slot begin should work");

    let slot = s.slot("tx1").expect("slot should exist");
    assert_eq!(slot.path, "/a");
    assert!(slot.created_at <= SystemTime::now());
}

#[test]
fn in_memory_purge_all_slots_clears_committed_and_uncommitted() {
    let mut s = InMemoryStaging::new(8);
    s.begin_slot("tx1", "/a").expect("slot begin should work");
    s.begin_slot("tx2", "/b").expect("slot begin should work");
    s.mark_committed("tx2")
        .expect("commit marker should work");

    let purged = s.purge_all_slots().expect("purge all should work");
    assert_eq!(purged, 2);
    assert_eq!(s.active_slots().expect("active count should work"), 0);
}

#[test]
fn begin_is_idempotent_and_quota_is_reported() {
    let mut s = InMemoryStaging::new(1);
    s.begin_slot("tx1", "/a").unwrap();
    s.begin_slot("tx1", "/other").unwrap();
    assert_eq!(s.slot("tx1").unwrap().path, "/a");
    let err = s.begin_slot("tx2", "/b").unwrap_err();
    assert!(matches!(err, StagingError::QuotaExceeded));
    assert_eq!(err.message(), "staging quota exceeded");
}

#[test]
fn mark_committed_of_unknown_slot_fails() {
    let mut s = InMemoryStaging::new(4);
    let err = s.mark_committed("nope").unwrap_err();
    assert!(matches!(err, StagingError::SlotNotFound));
    assert_eq!(err.message(), "slot not found");
}

#[test]
fn purge_keeps_committed_slots() {
    let mut s = InMemoryStaging::new(4);
    s.begin_slot("a", "/a").unwrap();
    s.begin_slot("b", "/b").unwrap();
    s.mark_committed("b").unwrap();
    assert_eq!(s.purge_stale_uncommitted().unwrap(), 1);
    assert!(s.slot("a").is_none());
    assert!(s.slot("b").unwrap().committed);
}

#[test]
fn slot_ids_name_single_directory_entries() {
    assert!(validate_slot_id("tx-1").is_ok());
    for bad in ["", "a/b", "a\\b", "a\0b", "../bad", "x..y"] {
        assert!(matches!(validate_slot_id(bad), Err(StagingError::InvalidSlotId)), "{bad:?}");
    }
    assert!(validate_slot_id("a.b").is_ok());
    assert_eq!(StagingError::InvalidSlotId.message(), "invalid slot id");
}

#[test]
fn slot_metadata_round_trips() {
    let text = slot_meta_text("/a/b", true);
    assert_eq!(text, "path=/a/b\ncommitted=1\n");
    assert!(slot_meta_committed(&text));
    assert_eq!(slot_meta_path(&text), "/a/b");
    let pending = slot_meta_text("/c", false);
    assert!(!slot_meta_committed(&pending));
    assert!(slot_meta_committed("path=/x\r\ncommitted= 1 \r\n"));
    assert!(!slot_meta_committed("garbage"));
    assert_eq!(slot_meta_path("committed=1\n"), "");
}
