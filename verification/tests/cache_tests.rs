use redirectfs::cache::{key_fingerprint, CacheError, CacheKey, ChunkCache, LruTier, TwoTierChunkCache};

fn key(path: &str, version: u64, chunk: &str) -> CacheKey {
    CacheKey {
        file_path: path.to_string(),
        version,
        chunk_id: chunk.to_string(),
    }
}

#[test]
fn two_tier_put_get_invalidate() {
    let mut cache = TwoTierChunkCache::new(1, 2);
    let key = CacheKey {
        file_path: "/x".to_string(),
        version: 1,
        chunk_id: "abc".to_string(),
    };

    cache
        .put(key.clone(), b"data".to_vec())
        .expect("put should work");
    let hit = cache.get(&key).expect("get should work");
    assert_eq!(hit.as_deref(), Some(&b"data"[..]));

    cache
        .invalidate_path("/x")
        .expect("invalidate should work");
    assert!(cache.get(&key).expect("get should work").is_none());

    cache
        .put(key.clone(), b"data".to_vec())
        .expect("put should work");
    cache
        .invalidate_all()
        .expect("invalidate all should work");
    assert!(cache.get(&key).expect("get should work").is_none());
}

#[test]
fn lru_tier_evicts_least_recently_used() {
    let mut tier = LruTier::new(2);
    assert!(tier.put(key("/a", 1, "a"), b"A".to_vec()).is_empty());
    assert!(tier.put(key("/b", 1, "b"), b"B".to_vec()).is_empty());
    // Reading /a makes /b the least recently used entry.
    assert_eq!(tier.get(&key("/a", 1, "a")), Some(b"A".to_vec()));
    let gone = tier.put(key("/c", 1, "c"), b"C".to_vec());
    assert_eq!(gone.len(), 1);
    assert_eq!(gone[0].file_path, "/b");
    assert_eq!(tier.len(), 2);
    assert!(tier.get(&key("/b", 1, "b")).is_none());
    assert_eq!(tier.get(&key("/c", 1, "c")), Some(b"C".to_vec()));
}

#[test]
fn lru_tier_replaces_value_of_existing_key() {
    let mut tier = LruTier::new(1);
    tier.put(key("/a", 1, "a"), b"old".to_vec());
    let gone = tier.put(key("/a", 1, "a"), b"new".to_vec());
    assert!(gone.is_empty());
    assert_eq!(tier.len(), 1);
    assert_eq!(tier.get(&key("/a", 1, "a")), Some(b"new".to_vec()));
}

#[test]
fn lru_tier_capacity_zero_holds_one_entry() {
    let mut tier = LruTier::new(0);
    tier.put(key("/a", 1, "a"), b"A".to_vec());
    let gone = tier.put(key("/b", 1, "b"), b"B".to_vec());
    assert_eq!(gone.len(), 1);
    assert_eq!(tier.len(), 1);
}

#[test]
fn lru_tier_insert_then_evict_over_capacity() {
    let mut tier = LruTier::new(1);
    tier.insert(key("/a", 1, "a"), b"A".to_vec());
    tier.insert(key("/b", 1, "b"), b"B".to_vec());
    tier.insert(key("/c", 1, "c"), b"C".to_vec());
    assert_eq!(tier.len(), 3);
    let gone = tier.evict_over_capacity();
    let paths: Vec<&str> = gone.iter().map(|k| k.file_path.as_str()).collect();
    assert_eq!(paths, vec!["/a", "/b"]);
    assert_eq!(tier.len(), 1);
}

#[test]
fn invalidate_path_keeps_other_files_and_versions_apart() {
    let mut tier = LruTier::new(8);
    tier.put(key("/a", 1, "x"), b"1".to_vec());
    tier.put(key("/a", 2, "y"), b"2".to_vec());
    tier.put(key("/b", 1, "z"), b"3".to_vec());
    let gone = tier.invalidate_path("/a");
    assert_eq!(gone.len(), 2);
    assert_eq!(tier.len(), 1);
    assert_eq!(tier.get(&key("/b", 1, "z")), Some(b"3".to_vec()));
    assert!(tier.get(&key("/a", 1, "x")).is_none());
}

#[test]
fn large_tier_hit_is_promoted_into_small_tier() {
    let mut cache = TwoTierChunkCache::new(1, 4);
    cache.put(key("/a", 1, "a"), b"A".to_vec()).unwrap();
    cache.put(key("/b", 1, "b"), b"B".to_vec()).unwrap();
    // /a fell out of the small tier but the large tier still has it.
    assert_eq!(cache.get(&key("/a", 1, "a")).unwrap(), Some(b"A".to_vec()));
    assert_eq!(cache.get(&key("/b", 1, "b")).unwrap(), Some(b"B".to_vec()));
    assert!(cache.get(&key("/c", 1, "c")).unwrap().is_none());
}

#[test]
fn key_fingerprint_is_lowercase_hex_of_digest() {
    let k = key("/x", 1, "abc");
    let f = key_fingerprint(&k);
    let mut text = Vec::new();
    text.extend_from_slice(b"/x");
    text.push(0);
    text.extend_from_slice(b"1");
    text.push(0);
    text.extend_from_slice(b"abc");
    assert_eq!(f, blake3::hash(&text).to_hex().to_string());
    assert_ne!(f, key_fingerprint(&key("/x", 2, "abc")));
}

#[test]
fn cache_error_messages() {
    assert_eq!(CacheError::Poisoned.message(), "cache internal lock poisoned");
    assert_eq!(CacheError::Io("disk".to_string()).message(), "cache io error: disk");
    assert_eq!(
        CacheError::Serde("bad".to_string()).message(),
        "cache serialization error: bad"
    );
}

#[test]
fn tracked_changes_report_what_the_large_tier_drops() {
    let mut cache = TwoTierChunkCache::new(1, 2);
    assert!(cache.put_tracked(key("/a", 1, "c1"), b"one".to_vec()).is_empty());
    assert!(cache.put_tracked(key("/b", 1, "c2"), b"two".to_vec()).is_empty());
    let gone = cache.put_tracked(key("/c", 1, "c3"), b"three".to_vec());
    assert_eq!(gone.len(), 1);
    assert_eq!(gone[0].file_path, "/a");
    let gone = cache.invalidate_path_tracked("/b");
    assert_eq!(gone.len(), 1);
    assert_eq!(gone[0].chunk_id, "c2");
    assert_eq!(cache.get(&key("/c", 1, "c3")).unwrap(), Some(b"three".to_vec()));

    let mut restored = TwoTierChunkCache::new(1, 1);
    restored.restore_large(key("/a", 1, "c1"), b"one".to_vec());
    restored.restore_large(key("/b", 1, "c2"), b"two".to_vec());
    let gone = restored.trim_large();
    assert_eq!(gone.len(), 1);
    assert_eq!(gone[0].file_path, "/a");
    assert_eq!(restored.get(&key("/b", 1, "c2")).unwrap(), Some(b"two".to_vec()));
}
