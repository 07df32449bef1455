use redirectfs::cache::{ChunkCache, TwoTierChunkCache};
use redirectfs::metadata::{InMemoryMetadataHook, MetadataCommit};
use redirectfs::recovery::{chunk_identity, ChunkStore};
use redirectfs::metadata::ReadView;
use redirectfs::service::{
    delete_retry, is_cas_conflict, read_file_range, read_from_view, select_range,
    visible_version, write_error, CoreError, DeleteRetry, MountGate,
};
use redirectfs::wal::WalError;
use std::collections::HashMap;
use std::sync::Mutex;

struct MemChunks {
    chunks: Mutex<HashMap<String, Vec<u8>>>,
}

impl ChunkStore for MemChunks {
    fn put_chunk(&self, chunk_id: &str, data: &[u8]) -> Result<(), String> {
        self.chunks.lock().unwrap().insert(chunk_id.to_string(), data.to_vec());
        Ok(())
    }

    fn get_chunk(&self, chunk_id: &str) -> Result<Option<Vec<u8>>, String> {
        Ok(self.chunks.lock().unwrap().get(chunk_id).cloned())
    }
}

fn setup() -> (MemChunks, InMemoryMetadataHook) {
    let store = MemChunks { chunks: Mutex::new(HashMap::new()) };
    let mut meta = InMemoryMetadataHook::new();
    let a = chunk_identity(b"hello ");
    let b = chunk_identity(b"world");
    store.put_chunk(&a, b"hello ").unwrap();
    store.put_chunk(&b, b"world").unwrap();
    meta.commit_write("tx-1", "/f", 0, &[a.clone(), b.clone()], &[a, b]).unwrap();
    (store, meta)
}

#[test]
fn read_range_assembles_verified_chunks() {
    let (store, meta) = setup();
    let mut cache = TwoTierChunkCache::new(4, 8);
    assert_eq!(read_file_range(&meta, &store, &mut cache, "/f", 0, 100).unwrap(), b"hello world");
    assert_eq!(read_file_range(&meta, &store, &mut cache, "/f", 3, 5).unwrap(), b"lo wo");
    assert_eq!(read_file_range(&meta, &store, &mut cache, "/f", 11, 5).unwrap(), b"");
    assert!(matches!(
        read_file_range(&meta, &store, &mut cache, "/f", 12, 1),
        Err(CoreError::InvalidRange)
    ));
    assert!(matches!(
        read_file_range(&meta, &store, &mut cache, "/none", 0, 1),
        Err(CoreError::NotFound)
    ));
}

#[test]
fn read_with_missing_chunk_reports_integrity_mismatch() {
    let (store, meta) = setup();
    store.chunks.lock().unwrap().clear();
    let mut cache = TwoTierChunkCache::new(4, 8);
    assert!(matches!(
        read_file_range(&meta, &store, &mut cache, "/f", 0, 1),
        Err(CoreError::IntegrityMismatch)
    ));
}

#[test]
fn reads_are_served_from_the_cache_once_filled() {
    let (store, meta) = setup();
    let mut cache = TwoTierChunkCache::new(4, 8);
    read_file_range(&meta, &store, &mut cache, "/f", 0, 100).unwrap();
    store.chunks.lock().unwrap().clear();
    assert_eq!(read_file_range(&meta, &store, &mut cache, "/f", 0, 5).unwrap(), b"hello");
    cache.invalidate_path("/f").unwrap();
    assert!(read_file_range(&meta, &store, &mut cache, "/f", 0, 5).is_err());
}

#[test]
fn corrupt_chunk_is_refused_and_not_cached() {
    let (store, meta) = setup();
    let a = chunk_identity(b"hello ");
    store.chunks.lock().unwrap().insert(a, b"HELLO ".to_vec());
    let mut cache = TwoTierChunkCache::new(4, 8);
    assert!(matches!(
        read_file_range(&meta, &store, &mut cache, "/f", 0, 1),
        Err(CoreError::IntegrityMismatch)
    ));
}

#[test]
fn range_selection() {
    assert_eq!(select_range(b"abcdef", 2, 2).unwrap(), b"cd");
    assert_eq!(select_range(b"abcdef", 2, usize::MAX).unwrap(), b"cdef");
    assert_eq!(select_range(b"abc", 3, 1).unwrap(), b"");
    assert!(matches!(select_range(b"abc", 4, 1), Err(CoreError::InvalidRange)));
}

#[test]
fn mount_opens_once_recovered() {
    let mut mount = MountGate::new();
    assert!(!mount.is_open());
    assert!(matches!(mount.ensure_open(), Err(CoreError::MountGateClosed)));
    mount.open();
    assert!(mount.ensure_open().is_ok());
}

#[test]
fn conflicts_become_busy_and_deletes_retry() {
    assert!(matches!(write_error(WalError::Conflict), CoreError::Busy));
    assert!(matches!(write_error(WalError::TruncatedFrame), CoreError::Wal(_)));
    assert!(is_cas_conflict("cas conflict"));
    assert!(!is_cas_conflict("parent missing"));
    assert_eq!(delete_retry("cas conflict", 0), DeleteRetry::RetryAfter(1));
    assert_eq!(delete_retry("cas conflict", 2), DeleteRetry::RetryAfter(4));
    assert_eq!(delete_retry("cas conflict", 3), DeleteRetry::Busy);
    assert_eq!(delete_retry("boom", 0), DeleteRetry::Fail);
    assert_eq!(
        CoreError::Busy.message(),
        "operation busy after conflict retry budget"
    );
    assert_eq!(
        CoreError::Wal(WalError::Conflict).message(),
        "wal error: transaction conflict"
    );
}

fn view_of(chunks: &[&[u8]]) -> ReadView {
    let ids: Vec<String> = chunks.iter().map(|c| chunk_identity(c)).collect();
    ReadView { version: 3, chunk_ids: ids.clone(), chunk_hashes: ids }
}

#[test]
fn read_from_view_concatenates_and_cuts() {
    let view = Some(view_of(&[b"abcd", b"efgh"]));
    let chunks = vec![b"abcd".to_vec(), b"efgh".to_vec()];
    assert_eq!(read_from_view(&view, &chunks, 2, 3).unwrap(), b"cde".to_vec());
    assert_eq!(read_from_view(&view, &chunks, 6, 10).unwrap(), b"gh".to_vec());
    assert_eq!(read_from_view(&view, &chunks, 8, 1).unwrap(), Vec::<u8>::new());
    assert!(matches!(read_from_view(&view, &chunks, 9, 1), Err(CoreError::InvalidRange)));
}

#[test]
fn read_from_view_refusals() {
    let chunks = vec![b"abcd".to_vec()];
    assert!(matches!(read_from_view(&None, &chunks, 0, 1), Err(CoreError::NotFound)));

    let mut uneven = view_of(&[b"abcd"]);
    uneven.chunk_hashes.push("extra".to_string());
    assert!(matches!(
        read_from_view(&Some(uneven), &chunks, 0, 1),
        Err(CoreError::IntegrityMismatch)
    ));

    let view = Some(view_of(&[b"abcd", b"efgh"]));
    assert!(matches!(
        read_from_view(&view, &chunks, 0, 1),
        Err(CoreError::IntegrityMismatch)
    ));
    let swapped = vec![b"efgh".to_vec(), b"abcd".to_vec()];
    assert!(matches!(
        read_from_view(&view, &swapped, 0, 1),
        Err(CoreError::IntegrityMismatch)
    ));
}

#[test]
fn delete_version_comes_from_the_committed_record() {
    assert_eq!(visible_version(Ok(Some(view_of(&[b"x"])))).unwrap(), 3);
    assert!(matches!(visible_version(Ok(None)), Err(CoreError::NotFound)));
    match visible_version(Err("disk gone".to_string())) {
        Err(CoreError::Metadata(m)) => assert_eq!(m, "disk gone"),
        other => panic!("unexpected {:?}", other.is_ok()),
    }
}
