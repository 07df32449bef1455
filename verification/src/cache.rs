//! The chunk cache: least-recently-used tiers of bounded size, and a
//! two-tier cache that reads the small tier first and promotes hits from
//! the large one.

use crate::encoding::{digest, render_u64, to_hex, hex_lower, blake3_digest, decimal};
use crate::text::str_equal;
use vstd::prelude::*;
use vstd::string::StringExecFns;

verus! {

/// Why a cache operation failed.
#[derive(Debug)]
pub enum CacheError {
    Poisoned,
    Io(String),
    Serde(String),
}

/// The text of each error.
pub open spec fn cache_error_text(e: CacheError) -> Seq<char> {
    match e {
        CacheError::Poisoned => "cache internal lock poisoned"@,
        CacheError::Io(m) => "cache io error: "@ + m@,
        CacheError::Serde(m) => "cache serialization error: "@ + m@,
    }
}

impl CacheError {
    /// The human-readable text of the error.
    pub fn message(&self) -> (r: String)
        ensures
            r@ == cache_error_text(*self),
    {
        match self {
            CacheError::Poisoned => String::from_str("cache internal lock poisoned"),
            CacheError::Io(m) => String::from_str("cache io error: ").concat(m.as_str()),
            CacheError::Serde(m) => String::from_str("cache serialization error: ").concat(
                m.as_str(),
            ),
        }
    }
}

/// Names one cached chunk of one version of a file.
#[derive(Debug, Clone)]
pub struct CacheKey {
    pub file_path: String,
    pub version: u64,
    pub chunk_id: String,
}

/// A cache key over character sequences.
pub ghost struct KeyView {
    pub file_path: Seq<char>,
    pub version: u64,
    pub chunk_id: Seq<char>,
}

impl View for CacheKey {
    type V = KeyView;

    open spec fn view(&self) -> KeyView {
        KeyView { file_path: self.file_path@, version: self.version, chunk_id: self.chunk_id@ }
    }
}

impl CacheKey {
    /// A field-by-field copy.
    pub fn duplicate(&self) -> (r: Self)
        ensures
            r@ == self@,
    {
        CacheKey {
            file_path: self.file_path.clone(),
            version: self.version,
            chunk_id: self.chunk_id.clone(),
        }
    }

    /// Whether two keys name the same chunk.
    pub fn same_as(&self, other: &CacheKey) -> (r: bool)
        ensures
            r == (self@ == other@),
    {
        self.version == other.version && str_equal(self.file_path.as_str(), other.file_path.as_str())
            && str_equal(self.chunk_id.as_str(), other.chunk_id.as_str())
    }
}

/// The text that a key's fingerprint hashes: path, version and chunk id,
/// separated by NUL characters.
pub open spec fn fingerprint_text(k: KeyView) -> Seq<char> {
    k.file_path + seq!['\0'] + decimal(k.version as nat) + seq!['\0'] + k.chunk_id
}

/// The lowercase hexadecimal BLAKE3 digest of a key's fingerprint text; a
/// disk tier names its entry files by it.
pub fn key_fingerprint(key: &CacheKey) -> (r: String)
    ensures
        r@ == hex_lower(blake3_digest(vstd::utf8::encode_utf8(fingerprint_text(key@)))),
{
    let mut text = String::from_str(key.file_path.as_str());
    text.push('\0');
    let v = render_u64(key.version);
    let mut text = text.concat(v.as_str());
    text.push('\0');
    let text = text.concat(key.chunk_id.as_str());
    assert(text@ =~= fingerprint_text(key@));
    let bytes = text.as_str().as_bytes();
    let d = digest(bytes);
    to_hex(d.as_slice())
}

/// An entry of a tier, oldest first.
pub type Entries = Seq<(KeyView, Seq<u8>)>;

/// Entry `i` holds key `k`.
pub open spec fn holds_at(s: Entries, k: KeyView, i: int) -> bool {
    0 <= i < s.len() && s[i].0 == k
}

/// No key occurs twice.
pub open spec fn unique_keys(s: Entries) -> bool {
    forall|i: int, j: int| 0 <= i < j < s.len() ==> #[trigger] s[i].0 != #[trigger] s[j].0
}

/// Where `k` stands, when it is present.
pub open spec fn position(s: Entries, k: KeyView) -> int {
    choose|i: int| holds_at(s, k, i)
}

/// The bytes cached under `k`.
pub open spec fn lookup(s: Entries, k: KeyView) -> Option<Seq<u8>> {
    if exists|i: int| holds_at(s, k, i) {
        Some(s[position(s, k)].1)
    } else {
        None
    }
}

/// Marks entry `i` as the most recently used.
pub open spec fn touched(s: Entries, i: int) -> Entries {
    s.remove(i).push(s[i])
}

/// A read of `k`: a hit becomes the most recently used entry.
pub open spec fn after_get(s: Entries, k: KeyView) -> Entries {
    if exists|i: int| holds_at(s, k, i) {
        touched(s, position(s, k))
    } else {
        s
    }
}

/// A write of `v` under `k`, before eviction: an existing entry is
/// replaced and becomes the most recently used; a new one is appended.
pub open spec fn inserted(s: Entries, k: KeyView, v: Seq<u8>) -> Entries {
    if exists|i: int| holds_at(s, k, i) {
        s.remove(position(s, k)).push((k, v))
    } else {
        s.push((k, v))
    }
}

/// Drops the least recently used entries until at most `cap` remain.
pub open spec fn evicted(s: Entries, cap: nat) -> Entries {
    if s.len() > cap {
        s.skip(s.len() - cap)
    } else {
        s
    }
}

/// A write of `v` under `k` into a tier of capacity `cap`.
pub open spec fn after_put(s: Entries, k: KeyView, v: Seq<u8>, cap: nat) -> Entries {
    evicted(inserted(s, k, v), cap)
}

/// The entries whose key belongs to a file other than `p`, in order.
pub open spec fn without_path(s: Entries, p: Seq<char>) -> Entries
    decreases s.len(),
{
    if s.len() == 0 {
        s
    } else if s.last().0.file_path == p {
        without_path(s.drop_last(), p)
    } else {
        without_path(s.drop_last(), p).push(s.last())
    }
}

/// With unique keys, the position of a present key is where it stands.
pub proof fn lemma_position(s: Entries, k: KeyView, i: int)
    requires
        unique_keys(s),
        holds_at(s, k, i),
    ensures
        position(s, k) == i,
        lookup(s, k) == Some(s[i].1),
{
    let j = position(s, k);
    assert(holds_at(s, k, j));
    if j < i {
        assert(s[j].0 != s[i].0);
    } else if i < j {
        assert(s[i].0 != s[j].0);
    }
}

/// Removing one entry and appending another whose key no longer occurs
/// keeps keys unique.
proof fn lemma_remove_push_unique(s: Entries, i: int, e: (KeyView, Seq<u8>))
    requires
        unique_keys(s),
        0 <= i < s.len(),
        s[i].0 == e.0,
    ensures
        unique_keys(s.remove(i).push(e)),
{
    let t = s.remove(i).push(e);
    assert forall|a: int, b: int| 0 <= a < b < t.len() implies #[trigger] t[a].0 != #[trigger] t[b].0 by {
        let oa = if a < i { a } else { a + 1 };
        if b == t.len() - 1 {
            assert(t[a] == s[oa]);
            assert(oa != i);
            if oa < i {
                assert(s[oa].0 != s[i].0);
            } else {
                assert(s[i].0 != s[oa].0);
            }
        } else {
            let ob = if b < i { b } else { b + 1 };
            assert(t[a] == s[oa]);
            assert(t[b] == s[ob]);
            assert(s[oa].0 != s[ob].0);
        }
    }
}

/// The step of a put keeps keys unique, and the key written ends up last
/// with its new value.
pub proof fn lemma_inserted(s: Entries, k: KeyView, v: Seq<u8>)
    requires
        unique_keys(s),
    ensures
        unique_keys(inserted(s, k, v)),
        inserted(s, k, v).len() > 0,
        inserted(s, k, v).last() == (k, v),
        inserted(s, k, v).len() == if lookup(s, k) is Some { s.len() } else { s.len() + 1 },
{
    if exists|i: int| holds_at(s, k, i) {
        let i = position(s, k);
        lemma_remove_push_unique(s, i, (k, v));
    } else {
        let t = s.push((k, v));
        assert forall|a: int, b: int| 0 <= a < b < t.len() implies #[trigger] t[a].0
            != #[trigger] t[b].0 by {
            if b == s.len() {
                assert(!holds_at(s, k, a));
            }
        }
    }
}

/// Dropping the oldest entries keeps keys unique.
pub proof fn lemma_evicted(s: Entries, cap: nat)
    requires
        unique_keys(s),
    ensures
        unique_keys(evicted(s, cap)),
        evicted(s, cap).len() <= cap || evicted(s, cap) == s,
        s.len() <= cap ==> evicted(s, cap) == s,
        evicted(s, cap).len() <= cap,
        s.len() > 0 && cap > 0 ==> evicted(s, cap).len() > 0 && evicted(s, cap).last() == s.last(),
{
    if s.len() > cap {
        let t = s.skip(s.len() - cap);
        assert forall|a: int, b: int| 0 <= a < b < t.len() implies #[trigger] t[a].0
            != #[trigger] t[b].0 by {
            assert(t[a] == s[a + s.len() - cap]);
            assert(t[b] == s[b + s.len() - cap]);
        }
    }
}

/// Filtering out one file's entries keeps keys unique, keeps only entries
/// that were there, and leaves none of that file.
pub proof fn lemma_without_path(s: Entries, p: Seq<char>)
    requires
        unique_keys(s),
    ensures
        unique_keys(without_path(s, p)),
        forall|j: int| 0 <= j < without_path(s, p).len() ==> s.contains(
            #[trigger] without_path(s, p)[j],
        ),
        forall|j: int| 0 <= j < without_path(s, p).len() ==> (#[trigger] without_path(
            s,
            p,
        )[j]).0.file_path != p,
        forall|i: int| 0 <= i < s.len() && s[i].0.file_path != p ==> without_path(s, p).contains(
            #[trigger] s[i],
        ),
        without_path(s, p).len() <= s.len(),
    decreases s.len(),
{
    if s.len() > 0 {
        let r = s.drop_last();
        assert forall|a: int, b: int| 0 <= a < b < r.len() implies #[trigger] r[a].0
            != #[trigger] r[b].0 by {
            assert(s[a].0 != s[b].0);
        }
        lemma_without_path(r, p);
        let w = without_path(r, p);
        assert forall|i: int| 0 <= i < s.len() && s[i].0.file_path != p implies without_path(
            s,
            p,
        ).contains(#[trigger] s[i]) by {
            if i < s.len() - 1 {
                assert(r[i] == s[i]);
                let j = choose|j: int| 0 <= j < w.len() && w[j] == r[i];
                assert(without_path(s, p)[j] == s[i]);
            } else {
                assert(without_path(s, p)[w.len() as int] == s[i]);
            }
        }
        if s.last().0.file_path != p {
            let t = w.push(s.last());
            assert forall|j: int| 0 <= j < t.len() implies s.contains(#[trigger] t[j]) by {
                if j < w.len() {
                    assert(r.contains(w[j]));
                    let x = choose|x: int| 0 <= x < r.len() && r[x] == w[j];
                    assert(s[x] == t[j]);
                } else {
                    assert(s[s.len() - 1] == t[j]);
                }
            }
            assert forall|a: int, b: int| 0 <= a < b < t.len() implies #[trigger] t[a].0
                != #[trigger] t[b].0 by {
                if b == w.len() {
                    assert(r.contains(w[a]));
                    let x = choose|x: int| 0 <= x < r.len() && r[x] == w[a];
                    assert(s[x] == w[a]);
                    assert(s[x].0 != s[s.len() - 1].0);
                }
            }
        } else {
            assert forall|j: int| 0 <= j < w.len() implies s.contains(#[trigger] w[j]) by {
                assert(r.contains(w[j]));
                let x = choose|x: int| 0 <= x < r.len() && r[x] == w[j];
                assert(s[x] == w[j]);
            }
        }
    }
}

/// One least-recently-used tier of bounded size.
pub struct LruTier {
    capacity: usize,
    entries: Vec<(CacheKey, Vec<u8>)>,
}

/// The views of a sequence of keys.
pub open spec fn key_views(v: Seq<CacheKey>) -> Seq<KeyView> {
    v.map_values(|k: CacheKey| k@)
}

/// The keys of a sequence of entries, in order.
pub open spec fn keys_of(s: Entries) -> Seq<KeyView> {
    s.map_values(|e: (KeyView, Seq<u8>)| e.0)
}

/// The entries of a tier over views.
pub open spec fn entry_views(v: Seq<(CacheKey, Vec<u8>)>) -> Entries {
    v.map_values(|e: (CacheKey, Vec<u8>)| (e.0@, e.1@))
}

impl LruTier {
    #[verifier::type_invariant]
    spec fn inv(self) -> bool {
        &&& self.capacity >= 1
        &&& unique_keys(entry_views(self.entries@))
    }

    /// The entries, least recently used first.
    pub closed spec fn view(&self) -> Entries {
        entry_views(self.entries@)
    }

    /// Most entries the tier keeps after a write.
    pub closed spec fn capacity(&self) -> nat {
        self.capacity as nat
    }

    /// An empty tier holding up to `capacity` entries (at least one).
    pub fn new(capacity: usize) -> (t: Self)
        ensures
            t@ == Seq::<(KeyView, Seq<u8>)>::empty(),
            t.capacity() == if capacity >= 1 { capacity as nat } else { 1 },
    {
        let t = LruTier { capacity: if capacity >= 1 { capacity } else { 1 }, entries: Vec::new() };
        assert(t@ =~= Seq::<(KeyView, Seq<u8>)>::empty());
        t
    }

    /// Number of entries.
    pub fn len(&self) -> (n: usize)
        ensures
            n == self@.len(),
    {
        self.entries.len()
    }

    fn find(&self, key: &CacheKey) -> (r: Option<usize>)
        ensures
            match r {
                Some(i) => holds_at(self@, key@, i as int),
                None => lookup(self@, key@) is None,
            },
    {
        let mut i: usize = 0;
        while i < self.entries.len()
            invariant
                i <= self.entries@.len(),
                forall|j: int| 0 <= j < i ==> self@[j].0 != key@,
            decreases self.entries@.len() - i,
        {
            if self.entries[i].0.same_as(key) {
                return Some(i);
            }
            i = i + 1;
        }
        assert(!exists|j: int| holds_at(self@, key@, j));
        None
    }

    /// The bytes cached under `key`; a hit becomes the most recently used.
    pub fn get(&mut self, key: &CacheKey) -> (r: Option<Vec<u8>>)
        ensures
            match r {
                Some(v) => lookup(old(self)@, key@) == Some(v@),
                None => lookup(old(self)@, key@) is None,
            },
            final(self)@ == after_get(old(self)@, key@),
            final(self).capacity() == old(self).capacity(),
    {
        proof {
            use_type_invariant(&*self);
        }
        match self.find(key) {
            Some(i) => {
                proof {
                    lemma_position(self@, key@, i as int);
                }
                let ghost before = self@;
                let mut entries = Vec::new();
                std::mem::swap(&mut entries, &mut self.entries);
                let e = entries.remove(i);
                let value = crate::encoding::copy_bytes(e.1.as_slice());
                entries.push(e);
                proof {
                    assert(entry_views(entries@) =~= touched(before, i as int));
                    lemma_remove_push_unique(before, i as int, before[i as int]);
                }
                self.entries = entries;
                Some(value)
            },
            None => None,
        }
    }

    /// Inserts without evicting: a present key is replaced and becomes the
    /// most recently used, a new one is appended.
    pub fn insert(&mut self, key: CacheKey, value: Vec<u8>)
        ensures
            final(self)@ == inserted(old(self)@, key@, value@),
            final(self).capacity() == old(self).capacity(),
    {
        proof {
            use_type_invariant(&*self);
            lemma_inserted(self@, key@, value@);
        }
        let ghost before = self@;
        let ghost kv = key@;
        let ghost vv = value@;
        let found = self.find(&key);
        let mut entries = Vec::new();
        std::mem::swap(&mut entries, &mut self.entries);
        match found {
            Some(i) => {
                proof {
                    lemma_position(before, kv, i as int);
                }
                entries.remove(i);
                entries.push((key, value));
            },
            None => {
                entries.push((key, value));
            },
        }
        assert(entry_views(entries@) =~= inserted(before, kv, vv));
        self.entries = entries;
    }

    /// Drops least recently used entries while more than the capacity are
    /// held, handing back their keys, oldest first.
    pub fn evict_over_capacity(&mut self) -> (gone: Vec<CacheKey>)
        ensures
            final(self)@ == evicted(old(self)@, old(self).capacity()),
            final(self).capacity() == old(self).capacity(),
            key_views(gone@) == keys_of(old(self)@.take(
                old(self)@.len() - final(self)@.len(),
            )),
    {
        proof {
            use_type_invariant(&*self);
            lemma_evicted(self@, self.capacity());
        }
        let ghost before = self@;
        let n = self.entries.len();
        if n <= self.capacity {
            let gone: Vec<CacheKey> = Vec::new();
            assert(key_views(gone@) =~= keys_of(before.take(0)));
            return gone;
        }
        let drop = n - self.capacity;
        let mut entries = Vec::new();
        std::mem::swap(&mut entries, &mut self.entries);
        let mut kept: Vec<(CacheKey, Vec<u8>)> = Vec::new();
        let mut gone: Vec<CacheKey> = Vec::new();
        let mut i: usize = 0;
        while i < n
            invariant
                n == entries@.len(),
                entry_views(entries@) == before,
                drop <= n,
                i <= n,
                key_views(gone@) == keys_of(before.take(
                    if i < drop { i as int } else { drop as int },
                )),
                entry_views(kept@) == if i <= drop {
                    Seq::<(KeyView, Seq<u8>)>::empty()
                } else {
                    before.subrange(drop as int, i as int)
                },
            decreases n - i,
        {
            assert(before[i as int] == (entries@[i as int].0@, entries@[i as int].1@));
            if i < drop {
                let ghost g0 = gone@;
                assert(key_views(g0) == keys_of(before.take(i as int)));
                let k = entries[i].0.duplicate();
                gone.push(k);
                assert(gone@ == g0.push(k));
                assert(keys_of(before.take(i + 1)) =~= keys_of(before.take(i as int)).push(before[i as int].0));
                assert(key_views(g0.push(k)) =~= key_views(g0).push(k@));
                assert(key_views(gone@) =~= keys_of(before.take(i + 1)));
            } else {
                let ghost k0 = kept@;
                assert(entry_views(k0) == before.subrange(drop as int, i as int));
                let k = entries[i].0.duplicate();
                let v = crate::encoding::copy_bytes(entries[i].1.as_slice());
                kept.push((k, v));
                assert(entry_views(k0.push((k, v))) =~= entry_views(k0).push((k@, v@)));
                assert(before.subrange(drop as int, i + 1) =~= before.subrange(drop as int, i as int).push(before[i as int]));
                assert(entry_views(kept@) =~= before.subrange(drop as int, i + 1));
            }
            i = i + 1;
        }
        assert(entry_views(kept@) =~= before.skip(n - self.capacity));
        self.entries = kept;
        gone
    }

    /// A write of `value` under `key`, then eviction down to the capacity;
    /// the keys evicted come back, oldest first.
    pub fn put(&mut self, key: CacheKey, value: Vec<u8>) -> (gone: Vec<CacheKey>)
        ensures
            final(self)@ == after_put(old(self)@, key@, value@, old(self).capacity()),
            final(self).capacity() == old(self).capacity(),
            key_views(gone@) == keys_of(inserted(old(self)@, key@, value@).take(
                inserted(old(self)@, key@, value@).len() - final(self)@.len(),
            )),
    {
        self.insert(key, value);
        self.evict_over_capacity()
    }

    /// Whether the tier holds `bytes` under `key`.
    pub fn holds_entry(&self, key: &CacheKey, bytes: &Vec<u8>) -> (r: bool)
        ensures
            r == self@.contains((key@, bytes@)),
    {
        proof {
            use_type_invariant(self);
            lemma_held_iff_lookup(self@, key@, bytes@);
        }
        match self.find(key) {
            Some(i) => {
                proof {
                    lemma_position(self@, key@, i as int);
                }
                crate::frame::bytes_equal(self.entries[i].1.as_slice(), bytes.as_slice())
            },
            None => false,
        }
    }

    /// Drops every entry of the file `file_path`, handing back their keys.
    pub fn invalidate_path(&mut self, file_path: &str) -> (gone: Vec<CacheKey>)
        ensures
            final(self)@ == without_path(old(self)@, file_path@),
            final(self).capacity() == old(self).capacity(),
            forall|j: int| 0 <= j < gone@.len() ==> (#[trigger] gone@[j])@.file_path == file_path@
                && lookup(old(self)@, gone@[j]@) is Some,
    {
        proof {
            use_type_invariant(&*self);
        }
        let ghost before = self@;
        let mut entries = Vec::new();
        std::mem::swap(&mut entries, &mut self.entries);
        let n = entries.len();
        let mut kept: Vec<(CacheKey, Vec<u8>)> = Vec::new();
        let mut gone: Vec<CacheKey> = Vec::new();
        let mut i: usize = 0;
        while i < n
            invariant
                n == entries@.len(),
                entry_views(entries@) == before,
                i <= n,
                entry_views(kept@) == without_path(before.take(i as int), file_path@),
                forall|j: int| 0 <= j < gone@.len() ==> (#[trigger] gone@[j])@.file_path
                    == file_path@,
                forall|j: int| 0 <= j < gone@.len() ==> lookup(before, (#[trigger] gone@[j])@) is Some,
            decreases n - i,
        {
            proof {
                assert(before.take(i + 1).drop_last() =~= before.take(i as int));
            }
            assert(before[i as int] == (entries@[i as int].0@, entries@[i as int].1@));
            if str_equal(entries[i].0.file_path.as_str(), file_path) {
                let k = entries[i].0.duplicate();
                assert(holds_at(before, k@, i as int));
                let ghost g0 = gone@;
                gone.push(k);
                assert forall|j: int| 0 <= j < gone@.len() implies (#[trigger] gone@[j])@.file_path
                    == file_path@ && lookup(before, gone@[j]@) is Some by {
                    if j < g0.len() {
                        assert(gone@[j] == g0[j]);
                    } else {
                        assert(gone@[j] == k);
                        assert(holds_at(before, gone@[j]@, i as int));
                    }
                }
            } else {
                let k = entries[i].0.duplicate();
                let v = crate::encoding::copy_bytes(entries[i].1.as_slice());
                kept.push((k, v));
                assert(entry_views(kept@) =~= without_path(before.take(i + 1), file_path@));
            }
            i = i + 1;
        }
        proof {
            assert(before.take(n as int) =~= before);
            lemma_without_path(before, file_path@);
        }
        self.entries = kept;
        gone
    }

    /// Drops every entry.
    pub fn invalidate_all(&mut self)
        ensures
            final(self)@ == Seq::<(KeyView, Seq<u8>)>::empty(),
            final(self).capacity() == old(self).capacity(),
    {
        proof {
            use_type_invariant(&*self);
        }
        self.entries = Vec::new();
        assert(self@ =~= Seq::<(KeyView, Seq<u8>)>::empty());
    }
}

/// With unique keys, an entry is held exactly when a lookup of its key
/// finds its bytes.
pub proof fn lemma_held_iff_lookup(s: Entries, k: KeyView, b: Seq<u8>)
    requires
        unique_keys(s),
    ensures
        s.contains((k, b)) <==> lookup(s, k) == Some(b),
{
    if s.contains((k, b)) {
        let i = choose|i: int| 0 <= i < s.len() && s[i] == (k, b);
        assert(holds_at(s, k, i));
        lemma_position(s, k, i);
    }
    if lookup(s, k) == Some(b) {
        let i = position(s, k);
        assert(holds_at(s, k, i));
        assert(s[i] == (k, b));
    }
}

/// Dropping a file's entries holds no entry that was not held before.
pub proof fn lemma_without_path_adds_nothing(s: Entries, p: Seq<char>, e: (KeyView, Seq<u8>))
    ensures
        without_path(s, p).contains(e) ==> s.contains(e),
    decreases s.len(),
{
    if s.len() > 0 && without_path(s, p).contains(e) {
        let d = s.drop_last();
        lemma_without_path_adds_nothing(d, p, e);
        let w = without_path(d, p);
        if s.last().0.file_path != p {
            let j = choose|j: int| 0 <= j < w.push(s.last()).len() && w.push(s.last())[j] == e;
            if j < w.len() {
                assert(w[j] == e);
                assert(w.contains(e));
            } else {
                assert(s[s.len() - 1] == e);
            }
        }
        if d.contains(e) {
            let j = choose|j: int| 0 <= j < d.len() && d[j] == e;
            assert(s[j] == e);
        }
    }
}

/// A write leaves the value it wrote as the most recently used entry,
/// readable under its key, and the tier within its capacity.
pub proof fn law_write_is_read_back(s: Entries, k: KeyView, v: Seq<u8>, cap: nat)
    requires
        unique_keys(s),
        cap >= 1,
    ensures
        lookup(after_put(s, k, v, cap), k) == Some(v),
        after_put(s, k, v, cap).len() <= cap,
        unique_keys(after_put(s, k, v, cap)),
{
    lemma_inserted(s, k, v);
    let t = inserted(s, k, v);
    lemma_evicted(t, cap);
    let e = evicted(t, cap);
    lemma_position(e, k, e.len() - 1);
}

/// After a file's entries are invalidated, no key of that file is found.
pub proof fn law_invalidated_file_misses(s: Entries, p: Seq<char>, k: KeyView)
    requires
        unique_keys(s),
        k.file_path == p,
    ensures
        lookup(without_path(s, p), k) is None,
{
    lemma_without_path(s, p);
    let w = without_path(s, p);
    if exists|i: int| holds_at(w, k, i) {
        let i = choose|i: int| holds_at(w, k, i);
        assert(w[i].0.file_path != p);
    }
}

/// Invalidating one file's entries keeps every entry of other files.
pub proof fn law_invalidation_keeps_other_files(s: Entries, p: Seq<char>, k: KeyView)
    requires
        unique_keys(s),
        k.file_path != p,
    ensures
        lookup(without_path(s, p), k) == lookup(s, k),
{
    lemma_without_path(s, p);
    let w = without_path(s, p);
    if exists|i: int| holds_at(s, k, i) {
        let i = choose|i: int| holds_at(s, k, i);
        lemma_position(s, k, i);
        assert(w.contains(s[i]));
        let j = choose|j: int| 0 <= j < w.len() && w[j] == s[i];
        lemma_position(w, k, j);
    } else if exists|j: int| holds_at(w, k, j) {
        let j = choose|j: int| holds_at(w, k, j);
        assert(s.contains(w[j]));
        let i = choose|i: int| 0 <= i < s.len() && s[i] == w[j];
        assert(holds_at(s, k, i));
    }
}

/// A read of the two tiers: the small tier first, then the large one.
pub open spec fn tiered_lookup(small: Entries, large: Entries, k: KeyView) -> Option<Seq<u8>> {
    match lookup(small, k) {
        Some(v) => Some(v),
        None => lookup(large, k),
    }
}

/// The bytes of an optional buffer.
pub open spec fn opt_bytes(o: Option<Vec<u8>>) -> Option<Seq<u8>> {
    match o {
        Some(v) => Some(v@),
        None => None,
    }
}

/// A cache of chunk contents by key.
pub trait ChunkCache {
    /// The cache holds `bytes` under `key`.
    spec fn holds(&self, key: &CacheKey, bytes: &Vec<u8>) -> bool;

    /// Looks `key` up: a hit is bytes the cache held. A read adds no entry.
    fn get(&mut self, key: &CacheKey) -> (r: Result<Option<Vec<u8>>, CacheError>)
        ensures
            r matches Ok(Some(v)) ==> old(self).holds(key, &v),
            forall|k: CacheKey, b: Vec<u8>|
                #[trigger] final(self).holds(&k, &b) ==> old(self).holds(&k, &b),
    ;

    /// Stores `value` under `key`: the only entry a write adds.
    fn put(&mut self, key: CacheKey, value: Vec<u8>) -> (r: Result<(), CacheError>)
        ensures
            forall|k: CacheKey, b: Vec<u8>|
                #[trigger] final(self).holds(&k, &b) ==> old(self).holds(&k, &b) || (k@ == key@
                    && b@ == value@),
    ;

    /// Drops the entries of `file_path`; adds none.
    fn invalidate_path(&mut self, file_path: &str) -> (r: Result<(), CacheError>)
        ensures
            forall|k: CacheKey, b: Vec<u8>|
                #[trigger] final(self).holds(&k, &b) ==> old(self).holds(&k, &b),
    ;

    /// Drops every entry; adds none.
    fn invalidate_all(&mut self) -> (r: Result<(), CacheError>)
        ensures
            forall|k: CacheKey, b: Vec<u8>|
                #[trigger] final(self).holds(&k, &b) ==> old(self).holds(&k, &b),
    ;
}

/// Two tiers held in memory: a small one in front of a large one.
pub struct TwoTierChunkCache {
    l1: LruTier,
    l2: LruTier,
}

impl TwoTierChunkCache {
    /// Entries of the small tier, least recently used first.
    pub closed spec fn small(&self) -> Entries {
        self.l1@
    }

    /// Entries of the large tier, least recently used first.
    pub closed spec fn large(&self) -> Entries {
        self.l2@
    }

    /// Capacity of the small tier.
    pub closed spec fn small_capacity(&self) -> nat {
        self.l1.capacity()
    }

    /// Capacity of the large tier.
    pub closed spec fn large_capacity(&self) -> nat {
        self.l2.capacity()
    }

    /// Both tiers have unique keys and room for at least one entry.
    pub open spec fn valid(&self) -> bool {
        &&& unique_keys(self.small())
        &&& unique_keys(self.large())
        &&& self.small_capacity() >= 1
        &&& self.large_capacity() >= 1
    }

    /// An empty cache whose tiers hold up to the given numbers of entries
    /// (at least one each).
    pub fn new(l1_capacity: usize, l2_capacity: usize) -> (c: Self)
        ensures
            c.valid(),
            c.small() == Seq::<(KeyView, Seq<u8>)>::empty(),
            c.large() == Seq::<(KeyView, Seq<u8>)>::empty(),
            c.small_capacity() == if l1_capacity >= 1 { l1_capacity as nat } else { 1 },
            c.large_capacity() == if l2_capacity >= 1 { l2_capacity as nat } else { 1 },
    {
        let c = TwoTierChunkCache { l1: LruTier::new(l1_capacity), l2: LruTier::new(l2_capacity) };
        assert(unique_keys(c.l1@));
        assert(unique_keys(c.l2@));
        c
    }
}

impl TwoTierChunkCache {
    /// Whether either tier holds `bytes` under `key`.
    pub fn holds_entry(&self, key: &CacheKey, bytes: &Vec<u8>) -> (r: bool)
        ensures
            r == (self.small().contains((key@, bytes@)) || self.large().contains((key@, bytes@))),
    {
        self.l1.holds_entry(key, bytes) || self.l2.holds_entry(key, bytes)
    }

    /// Stores `value` under `key` in both tiers, as `put` does, and hands
    /// back the keys the large tier evicted to make room.
    pub fn put_tracked(&mut self, key: CacheKey, value: Vec<u8>) -> (gone: Vec<CacheKey>)
        ensures
            final(self).small() == after_put(
                old(self).small(),
                key@,
                value@,
                old(self).small_capacity(),
            ),
            final(self).large() == after_put(
                old(self).large(),
                key@,
                value@,
                old(self).large_capacity(),
            ),
            key_views(gone@) == keys_of(inserted(old(self).large(), key@, value@).take(
                inserted(old(self).large(), key@, value@).len() - final(self).large().len(),
            )),
            final(self).valid(),
            final(self).small_capacity() == old(self).small_capacity(),
            final(self).large_capacity() == old(self).large_capacity(),
    {
        let gone = self.l2.put(key.duplicate(), crate::encoding::copy_bytes(value.as_slice()));
        self.l1.put(key, value);
        proof {
            use_type_invariant(&self.l1);
            use_type_invariant(&self.l2);
        }
        gone
    }

    /// Drops every entry of `file_path` from both tiers, as `invalidate_path`
    /// does, and hands back the keys the large tier held for it.
    pub fn invalidate_path_tracked(&mut self, file_path: &str) -> (gone: Vec<CacheKey>)
        ensures
            final(self).small() == without_path(old(self).small(), file_path@),
            final(self).large() == without_path(old(self).large(), file_path@),
            forall|j: int| 0 <= j < gone@.len() ==> (#[trigger] gone@[j])@.file_path == file_path@
                && lookup(old(self).large(), gone@[j]@) is Some,
            final(self).valid(),
            final(self).small_capacity() == old(self).small_capacity(),
            final(self).large_capacity() == old(self).large_capacity(),
    {
        self.l1.invalidate_path(file_path);
        let gone = self.l2.invalidate_path(file_path);
        proof {
            use_type_invariant(&self.l1);
            use_type_invariant(&self.l2);
        }
        gone
    }

    /// Adds an entry kept from an earlier run to the large tier, without
    /// evicting; `trim_large` evicts afterwards.
    pub fn restore_large(&mut self, key: CacheKey, value: Vec<u8>)
        ensures
            final(self).small() == old(self).small(),
            final(self).large() == inserted(old(self).large(), key@, value@),
            final(self).valid(),
            final(self).small_capacity() == old(self).small_capacity(),
            final(self).large_capacity() == old(self).large_capacity(),
    {
        self.l2.insert(key, value);
        proof {
            use_type_invariant(&self.l1);
            use_type_invariant(&self.l2);
        }
    }

    /// Evicts the least recently used entries of the large tier down to its
    /// capacity and hands back their keys.
    pub fn trim_large(&mut self) -> (gone: Vec<CacheKey>)
        ensures
            final(self).small() == old(self).small(),
            final(self).large() == evicted(old(self).large(), old(self).large_capacity()),
            key_views(gone@) == keys_of(old(self).large().take(
                old(self).large().len() - final(self).large().len(),
            )),
            final(self).valid(),
            final(self).small_capacity() == old(self).small_capacity(),
            final(self).large_capacity() == old(self).large_capacity(),
    {
        let gone = self.l2.evict_over_capacity();
        proof {
            use_type_invariant(&self.l1);
            use_type_invariant(&self.l2);
        }
        gone
    }
}

impl ChunkCache for TwoTierChunkCache {
    open spec fn holds(&self, key: &CacheKey, bytes: &Vec<u8>) -> bool {
        self.small().contains((key@, bytes@)) || self.large().contains((key@, bytes@))
    }

    fn get(&mut self, key: &CacheKey) -> (r: Result<Option<Vec<u8>>, CacheError>)
        ensures
            r matches Ok(o) && opt_bytes(o) == tiered_lookup(old(self).small(), old(self).large(), key@),
            lookup(old(self).small(), key@) is Some ==> final(self).small() == after_get(
                old(self).small(),
                key@,
            ) && final(self).large() == old(self).large(),
            lookup(old(self).small(), key@) is None ==> final(self).large() == after_get(
                old(self).large(),
                key@,
            ) && final(self).small() == match lookup(old(self).large(), key@) {
                Some(v) => after_put(old(self).small(), key@, v, old(self).small_capacity()),
                None => old(self).small(),
            },
            final(self).valid(),
            final(self).small_capacity() == old(self).small_capacity(),
            final(self).large_capacity() == old(self).large_capacity(),
    {
        if let Some(bytes) = self.l1.get(key) {
            proof {
                use_type_invariant(&self.l1);
                use_type_invariant(&self.l2);
            }
            return Ok(Some(bytes));
        }
        let l2_bytes = self.l2.get(key);
        if let Some(ref bytes) = l2_bytes {
            self.l1.put(key.duplicate(), crate::encoding::copy_bytes(bytes.as_slice()));
        }
        proof {
            use_type_invariant(&self.l1);
            use_type_invariant(&self.l2);
        }
        Ok(l2_bytes)
    }

    fn put(&mut self, key: CacheKey, value: Vec<u8>) -> (r: Result<(), CacheError>)
        ensures
            r is Ok,
            final(self).small() == after_put(
                old(self).small(),
                key@,
                value@,
                old(self).small_capacity(),
            ),
            final(self).large() == after_put(
                old(self).large(),
                key@,
                value@,
                old(self).large_capacity(),
            ),
            final(self).valid(),
            final(self).small_capacity() == old(self).small_capacity(),
            final(self).large_capacity() == old(self).large_capacity(),
    {
        self.l2.put(key.duplicate(), crate::encoding::copy_bytes(value.as_slice()));
        self.l1.put(key, value);
        proof {
            use_type_invariant(&self.l1);
            use_type_invariant(&self.l2);
        }
        Ok(())
    }

    fn invalidate_path(&mut self, file_path: &str) -> (r: Result<(), CacheError>)
        ensures
            r is Ok,
            final(self).small() == without_path(old(self).small(), file_path@),
            final(self).large() == without_path(old(self).large(), file_path@),
            final(self).valid(),
            final(self).small_capacity() == old(self).small_capacity(),
            final(self).large_capacity() == old(self).large_capacity(),
    {
        self.l1.invalidate_path(file_path);
        self.l2.invalidate_path(file_path);
        proof {
            use_type_invariant(&self.l1);
            use_type_invariant(&self.l2);
            assert forall|k: CacheKey, b: Vec<u8>| #[trigger] self.holds(&k, &b) implies old(
                self,
            ).holds(&k, &b) by {
                lemma_without_path_adds_nothing(old(self).small(), file_path@, (k@, b@));
                lemma_without_path_adds_nothing(old(self).large(), file_path@, (k@, b@));
            }
        }
        Ok(())
    }

    fn invalidate_all(&mut self) -> (r: Result<(), CacheError>)
        ensures
            r is Ok,
            final(self).small() == Seq::<(KeyView, Seq<u8>)>::empty(),
            final(self).large() == Seq::<(KeyView, Seq<u8>)>::empty(),
            final(self).valid(),
            final(self).small_capacity() == old(self).small_capacity(),
            final(self).large_capacity() == old(self).large_capacity(),
    {
        self.l1.invalidate_all();
        self.l2.invalidate_all();
        proof {
            use_type_invariant(&self.l1);
            use_type_invariant(&self.l2);
        }
        Ok(())
    }
}

/// A read that follows a write of the same key finds the bytes written.
pub proof fn law_cache_read_after_write(
    small: Entries,
    large: Entries,
    small_cap: nat,
    large_cap: nat,
    k: KeyView,
    v: Seq<u8>,
)
    requires
        unique_keys(small),
        unique_keys(large),
        small_cap >= 1,
        large_cap >= 1,
    ensures
        tiered_lookup(
            after_put(small, k, v, small_cap),
            after_put(large, k, v, large_cap),
            k,
        ) == Some(v),
{
    law_write_is_read_back(small, k, v, small_cap);
}

/// After a file is invalidated, no read of a key of that file hits.
pub proof fn law_cache_invalidated_file_misses(
    small: Entries,
    large: Entries,
    p: Seq<char>,
    k: KeyView,
)
    requires
        unique_keys(small),
        unique_keys(large),
        k.file_path == p,
    ensures
        tiered_lookup(without_path(small, p), without_path(large, p), k) is None,
{
    law_invalidated_file_misses(small, p, k);
    law_invalidated_file_misses(large, p, k);
}

} // verus!
