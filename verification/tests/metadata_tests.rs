use redirectfs::metadata::{
    FileMetadataState, InMemoryMetadataHook, MetadataCommit, MetadataDelete, MetadataError,
    MetadataRead, MetadataWalHook,
};

fn ids(s: &str) -> Vec<String> {
    vec![s.to_string()]
}

#[test]
fn cas_and_idempotent_commit() {
    let mut meta = InMemoryMetadataHook::new();

    meta.commit_write("tx-1", "/x", 0, &["c1".to_string()], &["c1".to_string()])
        .expect("first commit should pass");

    // Idempotent replay.
    meta.commit_write("tx-1", "/x", 0, &["c1".to_string()], &["c1".to_string()])
        .expect("same tx replay should pass");

    let err = meta
        .commit_write("tx-2", "/x", 0, &["c2".to_string()], &["c2".to_string()])
        .expect_err("stale version should fail");
    assert!(err.contains("cas conflict"));
}

#[test]
fn tombstone_hides_file_from_committed_reads() {
    let mut meta = InMemoryMetadataHook::new();
    meta.commit_write("tx-1", "/x", 0, &["c1".to_string()], &["c1".to_string()])
        .expect("write should succeed");
    meta.commit_delete("tx-2", "/x", 1)
        .expect("delete should succeed");

    let view = MetadataRead::read_committed(&meta, "/x").expect("read should not fail");
    assert!(view.is_none());
}

#[test]
fn in_memory_namespace_create_and_list_children() {
    let mut meta = InMemoryMetadataHook::new();
    meta.create_directory("/docs")
        .expect("directory create should work");
    meta.commit_write("tx-1", "/docs/a.txt", 0, &["c1".to_string()], &["c1".to_string()])
        .expect("file write should work");
    meta.commit_write("tx-2", "/docs/b.txt", 0, &["c2".to_string()], &["c2".to_string()])
        .expect("file write should work");
    meta.create_directory("/tmp")
        .expect("directory create should work");
    meta.commit_write("tx-3", "/tmp/x", 0, &["c3".to_string()], &["c3".to_string()])
        .expect("file write should work");

    let root = meta.list_children("/").expect("root listing should work");
    assert_eq!(root, vec!["docs".to_string(), "tmp".to_string()]);

    let docs = meta
        .list_children("/docs")
        .expect("docs listing should work");
    assert_eq!(docs, vec!["a.txt".to_string(), "b.txt".to_string()]);
}

#[test]
fn in_memory_namespace_rejects_missing_parent() {
    let mut meta = InMemoryMetadataHook::new();
    let err = meta
        .create_directory("/missing/child")
        .expect_err("mkdir should fail without parent");
    assert!(err.message().contains("parent directory does not exist"));

    let err = meta
        .commit_write(
            "tx-1",
            "/missing/file.txt",
            0,
            &["c1".to_string()],
            &["c1".to_string()],
        )
        .expect_err("write should fail without parent");
    assert!(err.contains("parent directory does not exist"));
}

#[test]
fn in_memory_rmdir_rules() {
    let mut meta = InMemoryMetadataHook::new();
    meta.create_directory("/docs")
        .expect("directory create should work");
    meta.commit_write(
        "tx-1",
        "/docs/readme.txt",
        0,
        &["c1".to_string()],
        &["c1".to_string()],
    )
    .expect("file write should work");

    let err = meta
        .remove_directory("/docs")
        .expect_err("non-empty directory remove should fail");
    assert!(err.message().contains("directory not empty"));

    meta.commit_delete("tx-2", "/docs/readme.txt", 1)
        .expect("file delete should work");
    meta.remove_directory("/docs")
        .expect("empty directory remove should work");
    let root = meta.list_children("/").expect("root listing should work");
    assert!(root.is_empty());
}

#[test]
fn in_memory_list_missing_directory_fails() {
    let meta = InMemoryMetadataHook::new();
    let err = meta
        .list_children("/missing")
        .expect_err("missing directory listing should fail");
    assert!(err.message().contains("directory not found"));
}

#[test]
fn in_memory_path_type_conflicts() {
    let mut meta = InMemoryMetadataHook::new();
    meta.commit_write("tx-1", "/docs", 0, &["c1".to_string()], &["c1".to_string()])
        .expect("file write should work");
    let err = meta
        .create_directory("/docs")
        .expect_err("mkdir over live file should fail");
    assert!(err.message().contains("path type conflict"));

    meta.create_directory("/dir")
        .expect("directory create should work");
    let err = meta
        .commit_write("tx-2", "/dir", 0, &["c2".to_string()], &["c2".to_string()])
        .expect_err("write over directory should fail");
    assert!(err.contains("path type conflict"));
}

#[test]
fn in_memory_rename_file_and_directory() {
    let mut meta = InMemoryMetadataHook::new();
    meta.create_directory("/docs").expect("mkdir should work");
    meta.commit_write(
        "tx-1",
        "/docs/a.txt",
        0,
        &["c1".to_string()],
        &["c1".to_string()],
    )
    .expect("write should work");
    meta.rename_path("/docs/a.txt", "/docs/b.txt")
        .expect("file rename should work");
    assert!(MetadataRead::read_committed(&meta, "/docs/a.txt")
        .expect("read should work")
        .is_none());
    assert!(MetadataRead::read_committed(&meta, "/docs/b.txt")
        .expect("read should work")
        .is_some());

    meta.create_directory("/docs/sub").expect("subdir should work");
    meta.commit_write(
        "tx-2",
        "/docs/sub/x.txt",
        0,
        &["c2".to_string()],
        &["c2".to_string()],
    )
    .expect("write should work");
    meta.rename_path("/docs/sub", "/docs/sub2")
        .expect("dir rename should work");
    let children = meta.list_children("/docs").expect("list should work");
    assert!(children.contains(&"sub2".to_string()));
    assert!(MetadataRead::read_committed(&meta, "/docs/sub2/x.txt")
        .expect("read should work")
        .is_some());
}

#[test]
fn in_memory_mkdir_reclaims_tombstoned_file_path() {
    let mut meta = InMemoryMetadataHook::new();
    meta.commit_write(
        "tx-1",
        "/docs",
        0,
        &["c1".to_string()],
        &["c1".to_string()],
    )
    .expect("file create should work");
    meta.commit_delete("tx-2", "/docs", 1)
        .expect("delete should work");

    meta.create_directory("/docs")
        .expect("mkdir should reclaim tombstoned file path");
    let children = meta.list_children("/").expect("root list should work");
    assert!(children.contains(&"docs".to_string()));

    let err = meta
        .commit_write(
            "tx-3",
            "/docs",
            0,
            &["c2".to_string()],
            &["c2".to_string()],
        )
        .expect_err("write to directory path should fail");
    assert!(err.to_string().contains("path type conflict"));
}

#[test]
fn committed_write_is_read_back() {
    let mut meta = InMemoryMetadataHook::new();
    meta.commit_write("tx-1", "/f", 0, &ids("a"), &ids("a")).unwrap();
    meta.commit_write("tx-2", "/f", 1, &ids("b"), &ids("b")).unwrap();
    let view = MetadataRead::read_committed(&meta, "/f").unwrap().unwrap();
    assert_eq!(view.version, 2);
    assert_eq!(view.chunk_ids, ids("b"));
    assert_eq!(view.chunk_hashes, ids("b"));
    assert_eq!(meta.current_version("/f").unwrap(), 2);
    assert_eq!(meta.current_version("/nope").unwrap(), 0);
}

#[test]
fn mismatched_chunk_vectors_are_rejected() {
    let mut meta = InMemoryMetadataHook::new();
    let err = meta
        .commit_from_wal("tx-1", "/f", 0, &ids("a"), &[])
        .expect_err("vectors of different length must fail");
    assert!(matches!(err, MetadataError::InvalidChunkVector));
    assert_eq!(err.message(), "invalid chunk vector: ids and hashes length mismatch");
}

#[test]
fn delete_of_missing_file_conflicts() {
    let mut meta = InMemoryMetadataHook::new();
    let err = meta.commit_delete("tx-1", "/none", 0).unwrap_err();
    assert!(err.contains("cas conflict"));
}

#[test]
fn live_chunk_ids_skip_tombstones() {
    let mut meta = InMemoryMetadataHook::new();
    meta.commit_write("tx-1", "/a", 0, &ids("c1"), &ids("c1")).unwrap();
    meta.commit_write("tx-2", "/b", 0, &ids("c2"), &ids("c2")).unwrap();
    meta.commit_delete("tx-3", "/b", 1).unwrap();
    let live = meta.all_live_chunk_ids().unwrap();
    assert!(live.contains(&"c1".to_string()));
    assert!(!live.contains(&"c2".to_string()));
}

#[test]
fn rename_rejects_missing_source_and_root() {
    let mut meta = InMemoryMetadataHook::new();
    assert!(matches!(
        meta.rename_path("/a", "/b").unwrap_err(),
        MetadataError::PathNotFound
    ));
    assert!(matches!(
        meta.rename_path("/", "/b").unwrap_err(),
        MetadataError::InvalidPath
    ));
}

#[test]
fn export_and_rebuild_keep_the_store() {
    let mut meta = InMemoryMetadataHook::new();
    meta.create_directory("/d").unwrap();
    meta.commit_write("tx-1", "/d/f", 0, &ids("c"), &ids("c")).unwrap();
    let (files, dirs, applied) = meta.export();
    let copy = InMemoryMetadataHook::from_parts(&files, &dirs, &applied);
    let view = MetadataRead::read_committed(&copy, "/d/f").unwrap().unwrap();
    assert_eq!(view.version, 1);
    assert_eq!(copy.list_children("/d").unwrap(), vec!["f".to_string()]);
    let record: FileMetadataState = copy.get("/d/f").unwrap().unwrap();
    assert_eq!(record.last_tx_id.as_deref(), Some("tx-1"));
}

#[test]
fn delete_replay_is_idempotent() {
    let mut meta = InMemoryMetadataHook::new();
    meta.commit_write("tx-1", "/f", 0, &ids("a"), &ids("a")).unwrap();
    meta.commit_delete("tx-2", "/f", 1).unwrap();
    meta.commit_delete("tx-2", "/f", 1).expect("replaying a delete succeeds");
    assert_eq!(meta.current_version("/f").unwrap(), 2);
}

#[test]
fn commits_touch_only_their_path() {
    let mut meta = InMemoryMetadataHook::new();
    meta.commit_write("tx-1", "/b", 0, &ids("b"), &ids("b")).unwrap();
    meta.commit_write("tx-2", "/a", 0, &ids("a"), &ids("a")).unwrap();
    meta.commit_delete("tx-3", "/a", 1).unwrap();
    let b = MetadataRead::read_committed(&meta, "/b").unwrap().unwrap();
    assert_eq!(b.version, 1);
    assert_eq!(b.chunk_ids, ids("b"));
}

#[test]
fn new_store_holds_only_the_root() {
    let meta = InMemoryMetadataHook::new();
    assert!(meta.list_children("/").unwrap().is_empty());
    assert!(MetadataRead::read_committed(&meta, "/").unwrap().is_none());
    assert!(meta.all_live_chunk_ids().unwrap().is_empty());
}

#[test]
fn in_memory_rename_conflict_and_missing_parent() {
    let mut meta = InMemoryMetadataHook::new();
    meta.create_directory("/docs").expect("mkdir should work");
    meta.commit_write("tx-1", "/docs/a.txt", 0, &ids("c1"), &ids("c1"))
        .expect("write should work");
    meta.commit_write("tx-2", "/docs/b.txt", 0, &ids("c2"), &ids("c2"))
        .expect("write should work");

    let conflict = meta
        .rename_path("/docs/a.txt", "/docs/b.txt")
        .expect_err("rename into existing path should fail");
    assert!(conflict.message().contains("path type conflict"));

    let missing_parent = meta
        .rename_path("/docs/a.txt", "/missing/c.txt")
        .expect_err("rename into missing parent should fail");
    assert!(missing_parent
        .message()
        .contains("parent directory does not exist"));
}

#[test]
fn in_memory_rename_file_reclaims_tombstoned_destination_path() {
    let mut meta = InMemoryMetadataHook::new();
    meta.create_directory("/docs").expect("mkdir should work");
    meta.commit_write("tx-1", "/docs/a.txt", 0, &ids("ca"), &ids("ca"))
        .expect("first write should work");
    meta.commit_write("tx-2", "/docs/b.txt", 0, &ids("cb"), &ids("cb"))
        .expect("second write should work");
    meta.commit_delete("tx-3", "/docs/b.txt", 1)
        .expect("delete should work");

    meta.rename_path("/docs/a.txt", "/docs/b.txt")
        .expect("rename over tombstoned destination should work");

    let moved = MetadataRead::read_committed(&meta, "/docs/b.txt")
        .expect("read should work")
        .expect("destination should be present");
    assert_eq!(moved.chunk_ids, vec!["ca".to_string()]);
    assert!(MetadataRead::read_committed(&meta, "/docs/a.txt")
        .expect("read should work")
        .is_none());
}

#[test]
fn in_memory_rename_directory_reclaims_tombstoned_destination_descendants() {
    let mut meta = InMemoryMetadataHook::new();
    meta.create_directory("/src").expect("src mkdir should work");
    meta.commit_write("tx-1", "/src/x.txt", 0, &ids("cx"), &ids("cx"))
        .expect("src write should work");

    meta.create_directory("/dst")
        .expect("temporary destination mkdir should work");
    meta.commit_write("tx-2", "/dst/x.txt", 0, &ids("old"), &ids("old"))
        .expect("destination seed write should work");
    meta.commit_delete("tx-3", "/dst/x.txt", 1)
        .expect("destination delete should work");
    meta.remove_directory("/dst")
        .expect("destination directory should now be empty and removable");

    meta.rename_path("/src", "/dst")
        .expect("directory rename should reclaim tombstoned descendant paths");

    assert!(meta
        .list_children("/")
        .expect("root list should work")
        .contains(&"dst".to_string()));
    assert!(MetadataRead::read_committed(&meta, "/src/x.txt")
        .expect("read should work")
        .is_none());
    let moved = MetadataRead::read_committed(&meta, "/dst/x.txt")
        .expect("read should work")
        .expect("destination file should exist");
    assert_eq!(moved.chunk_ids, vec!["cx".to_string()]);
}

#[test]
fn refused_write_to_new_path_leaves_no_record() {
    let mut meta = InMemoryMetadataHook::new();
    let err = meta
        .commit_write("tx-1", "/new", 4, &ids("c1"), &ids("c1"))
        .expect_err("a new path stands at version 0");
    assert!(err.contains("cas conflict"));
    assert!(meta.get("/new").expect("get works").is_none());
    assert!(meta.list_children("/").expect("list works").is_empty());
    meta.commit_write("tx-2", "/new", 0, &ids("c2"), &ids("c2"))
        .expect("the path is still fresh");
    let view = MetadataRead::read_committed(&meta, "/new").unwrap().unwrap();
    assert_eq!(view.version, 1);
}

#[test]
fn refused_directory_rename_moves_nothing() {
    let mut meta = InMemoryMetadataHook::new();
    meta.create_directory("/a").unwrap();
    meta.commit_write("tx-1", "/a/x", 0, &ids("c1"), &ids("c1")).unwrap();
    meta.create_directory("/c").unwrap();
    meta.commit_write("tx-2", "/c/x", 0, &ids("c2"), &ids("c2")).unwrap();
    let before = meta.list_children("/").unwrap();
    meta.rename_path("/a", "/c").expect_err("destination exists");
    assert_eq!(meta.list_children("/").unwrap(), before);
    assert!(MetadataRead::read_committed(&meta, "/a/x").unwrap().is_some());
}
