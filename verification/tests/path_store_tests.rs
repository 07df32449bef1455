use redirectfs::chunk_store::{
    check_put_identity, chunk_bytes_match, chunk_location, is_temp_artifact, is_valid_chunk_id,
    listed_chunk_id, quarantine_file_name, retry_backoff, temp_file_name, ChunkStoreError,
};
use redirectfs::path_resolver::{normalize, DefaultPathResolver, PathResolver, PathResolverError};
use redirectfs::recovery::chunk_identity;

#[test]
fn resolve_canonicalizes_and_hashes() {
    let resolver = DefaultPathResolver::new();
    let r = resolver.resolve("//a///b").expect("resolve should work");
    assert_eq!(r.canonical_path, "/a/b");
    assert!(r.object_id.starts_with("oid:"));
}

#[test]
fn reject_invalid_paths() {
    let resolver = DefaultPathResolver::new();
    assert!(resolver.resolve("a").is_err());
    assert!(resolver.resolve("/a/../b").is_err());
}

#[test]
fn normalize_drops_dots_and_empty_segments() {
    assert_eq!(normalize("/").unwrap(), "/");
    assert_eq!(normalize("///").unwrap(), "/");
    assert_eq!(normalize("/./a/./b/").unwrap(), "/a/b");
    assert_eq!(normalize("/a/.b/c..").unwrap(), "/a/.b/c..");
    assert_eq!(normalize("").unwrap_err(), PathResolverError::InvalidPath);
    assert!(normalize("/a\0").is_err());
    assert!(normalize("/..").is_err());
    assert!(normalize("/a/..").is_err());
    let canonical = normalize("//x//y/.").unwrap();
    assert_eq!(normalize(&canonical).unwrap(), canonical);
}

#[test]
fn object_id_hashes_the_canonical_path() {
    let r = DefaultPathResolver::new().resolve("/a/./b").unwrap();
    assert_eq!(r.object_id, format!("oid:{}", blake3::hash(b"/a/b").to_hex()));
    assert_eq!(PathResolverError::InvalidPath.message(), "invalid path");
}

#[test]
fn chunk_ids_and_locations() {
    let id = chunk_identity(b"hello chunk");
    assert!(is_valid_chunk_id(&id));
    assert!(!is_valid_chunk_id("abc"));
    assert!(!is_valid_chunk_id("abcdeg"));
    assert!(is_valid_chunk_id("ABCDEF"));
    let loc = chunk_location("a1b2c3d4").unwrap();
    assert_eq!(loc.shard1, "a1");
    assert_eq!(loc.shard2, "b2");
    assert_eq!(loc.file_name, "a1b2c3d4.chunk");
    assert!(matches!(chunk_location("../x"), Err(ChunkStoreError::InvalidChunkId)));
    assert_eq!(temp_file_name("abc"), ".abc.tmp");
    assert_eq!(quarantine_file_name("abc"), "abc.chunk.quarantine");
}

#[test]
fn directory_entries_are_classified_like_paths() {
    assert_eq!(listed_chunk_id("abc123.chunk").as_deref(), Some("abc123"));
    assert_eq!(listed_chunk_id("ab.c.chunk"), None);
    assert_eq!(listed_chunk_id(".chunk"), None);
    assert_eq!(listed_chunk_id("abc.chunk.quarantine"), None);
    assert_eq!(listed_chunk_id("abc"), None);
    assert!(is_temp_artifact(".abc.tmp"));
    assert!(is_temp_artifact("x.tmp"));
    assert!(!is_temp_artifact(".tmp"));
    assert!(!is_temp_artifact("x.tmpx"));
}

#[test]
fn stored_bytes_must_match_their_id() {
    let id = chunk_identity(b"data");
    assert!(chunk_bytes_match(&id, b"data"));
    assert!(!chunk_bytes_match(&id, b"other"));
    assert!(check_put_identity(&id, b"data").is_ok());
    assert_eq!(
        check_put_identity(&id, b"other").unwrap_err(),
        "chunk id does not match BLAKE3(content)"
    );
}

#[test]
fn disk_failures_are_retried_with_doubling_waits() {
    assert_eq!(retry_backoff(0, true), Some(2));
    assert_eq!(retry_backoff(1, true), Some(4));
    assert_eq!(retry_backoff(2, true), Some(8));
    assert_eq!(retry_backoff(3, true), None);
    assert_eq!(retry_backoff(0, false), None);
    assert_eq!(ChunkStoreError::NotFound.message(), "chunk not found");
    assert_eq!(ChunkStoreError::IntegrityMismatch.message(), "chunk integrity mismatch");
    assert_eq!(ChunkStoreError::Io("e".to_string()).message(), "io error: e");
}
