//! The service core's rules: the mount that recovery opens, the read
//! path that assembles a byte range from verified chunks (through the
//! cache), and how write and delete failures are reported and retried.

use crate::cache::{CacheKey, ChunkCache};
use crate::encoding::copy_bytes;
use crate::metadata::{read_view_opt, MetadataRead, ReadView};
use crate::recovery::{chunk_id_of, chunk_identity, ChunkStore};
use crate::text::{contains_text, occurs_at, owned, str_equal, views};
use crate::wal::{wal_error_text, WalError};
use vstd::prelude::*;
use vstd::string::StringExecFns;

verus! {

/// Conflict retries a delete makes before it reports the path busy.
pub const MAX_DELETE_CAS_RETRIES: usize = 3;

/// Why a service operation failed.
#[derive(Debug)]
pub enum CoreError {
    MountGateClosed,
    InvalidRange,
    NotFound,
    IntegrityMismatch,
    Wal(WalError),
    Metadata(String),
    Busy,
    ChunkStore(String),
    Cache(String),
    Staging(String),
    Gc(String),
    Io(String),
}

/// The text of each error.
pub open spec fn core_error_text(e: CoreError) -> Seq<char> {
    match e {
        CoreError::MountGateClosed => "mount gate closed: recovery must complete before service use"@,
        CoreError::InvalidRange => "invalid range"@,
        CoreError::NotFound => "path not found"@,
        CoreError::IntegrityMismatch => "data integrity mismatch"@,
        CoreError::Wal(w) => "wal error: "@ + wal_error_text(w),
        CoreError::Metadata(m) => "metadata error: "@ + m@,
        CoreError::Busy => "operation busy after conflict retry budget"@,
        CoreError::ChunkStore(m) => "chunk store error: "@ + m@,
        CoreError::Cache(m) => "cache error: "@ + m@,
        CoreError::Staging(m) => "staging error: "@ + m@,
        CoreError::Gc(m) => "gc worker error: "@ + m@,
        CoreError::Io(m) => "io error: "@ + m@,
    }
}

impl CoreError {
    /// The human-readable text of the error.
    pub fn message(&self) -> (r: String)
        ensures
            r@ == core_error_text(*self),
    {
        match self {
            CoreError::MountGateClosed => String::from_str(
                "mount gate closed: recovery must complete before service use",
            ),
            CoreError::InvalidRange => String::from_str("invalid range"),
            CoreError::NotFound => String::from_str("path not found"),
            CoreError::IntegrityMismatch => String::from_str("data integrity mismatch"),
            CoreError::Wal(w) => String::from_str("wal error: ").concat(w.message().as_str()),
            CoreError::Metadata(m) => String::from_str("metadata error: ").concat(m.as_str()),
            CoreError::Busy => String::from_str("operation busy after conflict retry budget"),
            CoreError::ChunkStore(m) => String::from_str("chunk store error: ").concat(m.as_str()),
            CoreError::Cache(m) => String::from_str("cache error: ").concat(m.as_str()),
            CoreError::Staging(m) => String::from_str("staging error: ").concat(m.as_str()),
            CoreError::Gc(m) => String::from_str("gc worker error: ").concat(m.as_str()),
            CoreError::Io(m) => String::from_str("io error: ").concat(m.as_str()),
        }
    }
}

/// Whether the service is open: closed until startup recovery succeeds.
pub struct MountGate {
    open: bool,
}

impl MountGate {
    /// Whether the service is open.
    pub closed spec fn view(&self) -> bool {
        self.open
    }

    /// A closed mount.
    pub fn new() -> (g: Self)
        ensures
            !g@,
    {
        MountGate { open: false }
    }

    /// Opens the mount, after a successful recovery.
    pub fn open(&mut self)
        ensures
            final(self)@,
    {
        self.open = true;
    }

    /// Whether the service is open.
    pub fn is_open(&self) -> (r: bool)
        ensures
            r == self@,
    {
        self.open
    }

    /// Refuses service while the mount is closed.
    pub fn ensure_open(&self) -> (r: Result<(), CoreError>)
        ensures
            self@ ==> r is Ok,
            !self@ ==> (r matches Err(e) && e is MountGateClosed),
    {
        if self.open {
            Ok(())
        } else {
            Err(CoreError::MountGateClosed)
        }
    }
}

/// Whether a metadata refusal reports a compare-and-swap conflict.
pub fn is_cas_conflict(message: &str) -> (r: bool)
    ensures
        r == exists|i: int| occurs_at(message@, "cas conflict"@, i),
{
    contains_text(message, "cas conflict")
}

/// The error a write reports for a failed pipeline run: a conflict means
/// the path is busy.
pub fn write_error(e: WalError) -> (r: CoreError)
    ensures
        e is Conflict ==> r is Busy,
        !(e is Conflict) ==> r == CoreError::Wal(e),
{
    match e {
        WalError::Conflict => CoreError::Busy,
        other => CoreError::Wal(other),
    }
}

/// What a delete does after the metadata store refused it at attempt
/// `attempt` (counted from 0).
#[derive(Debug, Clone, Copy, PartialEq, Eq, Structural)]
pub enum DeleteRetry {
    /// Wait this many milliseconds, then try again at the latest version.
    RetryAfter(u64),
    /// Report the path busy.
    Busy,
    /// Report the refusal.
    Fail,
}

/// The step after a refused delete: conflicts are retried with a doubling
/// wait until the retry budget is spent, then reported busy; any other
/// refusal fails the delete.
pub fn delete_retry(message: &str, attempt: usize) -> (r: DeleteRetry)
    requires
        attempt <= MAX_DELETE_CAS_RETRIES,
    ensures
        (exists|i: int| occurs_at(message@, "cas conflict"@, i)) && attempt < MAX_DELETE_CAS_RETRIES
            ==> r == DeleteRetry::RetryAfter(vstd::arithmetic::power2::pow2(attempt as nat) as u64),
        (exists|i: int| occurs_at(message@, "cas conflict"@, i)) && attempt
            == MAX_DELETE_CAS_RETRIES ==> r == DeleteRetry::Busy,
        !(exists|i: int| occurs_at(message@, "cas conflict"@, i)) ==> r == DeleteRetry::Fail,
{
    if is_cas_conflict(message) {
        if attempt < MAX_DELETE_CAS_RETRIES {
            proof {
                vstd::arithmetic::power2::lemma2_to64();
            }
            let wait: u64 = if attempt == 0 {
                1
            } else if attempt == 1 {
                2
            } else {
                4
            };
            DeleteRetry::RetryAfter(wait)
        } else {
            DeleteRetry::Busy
        }
    } else {
        DeleteRetry::Fail
    }
}

/// The version a delete expects, from what the metadata store answered for
/// the file: its committed version, `NotFound` when no live record exists,
/// or the store's failure as a metadata error. A delete checks this before
/// its first attempt and takes the version again before each retry.
pub fn visible_version(read: Result<Option<ReadView>, String>) -> (r: Result<u64, CoreError>)
    ensures
        match read {
            Err(m) => r matches Err(CoreError::Metadata(m2)) && m2@ == m@,
            Ok(None) => r matches Err(e) && e is NotFound,
            Ok(Some(v)) => r == Ok::<u64, CoreError>(v.version),
        },
{
    match read {
        Err(m) => Err(CoreError::Metadata(m)),
        Ok(None) => Err(CoreError::NotFound),
        Ok(Some(v)) => Ok(v.version),
    }
}

/// The bytes from `offset` up to `offset + size`, cut at the end of
/// `total` bytes.
pub open spec fn range_of(bytes: Seq<u8>, offset: int, size: int) -> Seq<u8> {
    let end = if offset + size < bytes.len() {
        offset + size
    } else {
        bytes.len() as int
    };
    bytes.subrange(offset, end)
}

/// The requested range of `bytes`; an offset past the end is refused.
pub fn select_range(bytes: &[u8], offset: usize, size: usize) -> (r: Result<Vec<u8>, CoreError>)
    ensures
        offset <= bytes@.len() ==> (r matches Ok(v) && v@ == range_of(
            bytes@,
            offset as int,
            size as int,
        )),
        offset > bytes@.len() ==> (r matches Err(e) && e is InvalidRange),
{
    let total = bytes.len();
    if offset > total {
        return Err(CoreError::InvalidRange);
    }
    let end = if size > total - offset {
        total
    } else {
        offset + size
    };
    Ok(copy_bytes(vstd::slice::slice_subrange(bytes, offset, end)))
}

/// Whether chunk bytes are what the metadata names: their id must equal
/// both the recorded id and the recorded hash.
pub fn check_chunk_integrity(chunk: &[u8], chunk_id: &str, expected_hash: &str) -> (r: Result<
    (),
    CoreError,
>)
    ensures
        chunk_id_of(chunk@) == expected_hash@ && chunk_id_of(chunk@) == chunk_id@ ==> r is Ok,
        !(chunk_id_of(chunk@) == expected_hash@ && chunk_id_of(chunk@) == chunk_id@) ==> (r matches Err(
            e,
        ) && e is IntegrityMismatch),
{
    let observed = chunk_identity(chunk);
    if !str_equal(observed.as_str(), expected_hash) || !str_equal(observed.as_str(), chunk_id) {
        return Err(CoreError::IntegrityMismatch);
    }
    Ok(())
}

/// The bytes of one chunk of a file version: from the cache when it holds
/// them, else from the chunk store. Only bytes that match the chunk's id and
/// hash are returned, and only such bytes fill the cache.
pub fn fetch_chunk<C: ChunkStore, K: ChunkCache>(
    chunk_store: &C,
    cache: &mut K,
    key: CacheKey,
    expected_hash: &str,
) -> (r: Result<Vec<u8>, CoreError>)
    ensures
        r matches Ok(b) ==> chunk_id_of(b@) == expected_hash@ && chunk_id_of(b@) == key.chunk_id@,
        r matches Err(e) ==> e is Cache || e is ChunkStore || e is IntegrityMismatch,
        forall|k: CacheKey, b: Vec<u8>|
            #[trigger] final(cache).holds(&k, &b) ==> old(cache).holds(&k, &b) || (k@ == key@
                && chunk_id_of(b@) == key.chunk_id@ && chunk_id_of(b@) == expected_hash@),
{
    let (chunk, fetched) = match cache.get(&key) {
        Err(e) => {
            return Err(CoreError::Cache(e.message()));
        },
        Ok(Some(bytes)) => (bytes, false),
        Ok(None) => match chunk_store.get_chunk(key.chunk_id.as_str()) {
            Err(m) => {
                return Err(CoreError::ChunkStore(m));
            },
            Ok(None) => {
                return Err(CoreError::IntegrityMismatch);
            },
            Ok(Some(bytes)) => (bytes, true),
        },
    };
    check_chunk_integrity(chunk.as_slice(), key.chunk_id.as_str(), expected_hash)?;
    if fetched {
        if let Err(e) = cache.put(key, copy_bytes(chunk.as_slice())) {
            return Err(CoreError::Cache(e.message()));
        }
    }
    Ok(chunk)
}

/// The bytes of a list of chunks, one after another.
pub open spec fn flatten(chunks: Seq<Seq<u8>>) -> Seq<u8>
    decreases chunks.len(),
{
    if chunks.len() == 0 {
        Seq::empty()
    } else {
        flatten(chunks.drop_last()) + chunks.last()
    }
}

/// Every chunk carries the id at its position, and that id is also the
/// recorded hash.
pub open spec fn chunks_match(
    chunks: Seq<Seq<u8>>,
    ids: Seq<Seq<char>>,
    hashes: Seq<Seq<char>>,
) -> bool {
    &&& chunks.len() == ids.len()
    &&& ids.len() == hashes.len()
    &&& forall|k: int|
        0 <= k < chunks.len() ==> chunk_id_of(#[trigger] chunks[k]) == ids[k] && chunk_id_of(
            chunks[k],
        ) == hashes[k]
}

/// What a read gives from the committed record `view` of a file and the
/// stored bytes `chunks` of its chunks, in order: no record is `NotFound`;
/// id and hash lists of unequal length, a missing chunk, or a chunk whose id
/// differ from the recorded id or hash is `IntegrityMismatch`; an offset
/// past the end of the file is `InvalidRange`; otherwise the bytes of the
/// chunks, one after another, from `offset` up to `offset + size`.
pub open spec fn read_result(
    view: Option<(u64, Seq<Seq<char>>, Seq<Seq<char>>)>,
    chunks: Seq<Seq<u8>>,
    offset: int,
    size: int,
) -> Result<Seq<u8>, CoreError> {
    match view {
        None => Err(CoreError::NotFound),
        Some((_, ids, hashes)) => if ids.len() != hashes.len() || !chunks_match(chunks, ids, hashes) {
            Err(CoreError::IntegrityMismatch)
        } else if offset > flatten(chunks).len() {
            Err(CoreError::InvalidRange)
        } else {
            Ok(range_of(flatten(chunks), offset, size))
        },
    }
}

/// `r` is the read result `x`.
pub open spec fn gives(r: Result<Vec<u8>, CoreError>, x: Result<Seq<u8>, CoreError>) -> bool {
    match x {
        Ok(b) => r matches Ok(v) && v@ == b,
        Err(e) => r == Err::<Vec<u8>, CoreError>(e),
    }
}

/// The byte views of a list of chunks.
pub open spec fn chunk_views(chunks: Seq<Vec<u8>>) -> Seq<Seq<u8>> {
    chunks.map_values(|c: Vec<u8>| c@)
}

/// Reads `size` bytes from `offset` of a file, given its committed record
/// `view` and the stored bytes of its chunks, in order.
pub fn read_from_view(
    view: &Option<ReadView>,
    chunks: &Vec<Vec<u8>>,
    offset: usize,
    size: usize,
) -> (r: Result<Vec<u8>, CoreError>)
    ensures
        gives(r, read_result(read_view_opt(*view), chunk_views(chunks@), offset as int, size as int)),
{
    let v = match view {
        None => {
            return Err(CoreError::NotFound);
        },
        Some(v) => v,
    };
    let ghost ids = views(v.chunk_ids@);
    let ghost hashes = views(v.chunk_hashes@);
    let ghost cs = chunk_views(chunks@);
    let n = v.chunk_ids.len();
    if n != v.chunk_hashes.len() || chunks.len() != n {
        return Err(CoreError::IntegrityMismatch);
    }
    let mut bytes: Vec<u8> = Vec::new();
    let mut i: usize = 0;
    while i < n
        invariant
            n == v.chunk_ids@.len(),
            n == v.chunk_hashes@.len(),
            n == chunks@.len(),
            ids == views(v.chunk_ids@),
            hashes == views(v.chunk_hashes@),
            cs == chunk_views(chunks@),
            read_view_opt(*view) == Some((v.version, ids, hashes)),
            i <= n,
            chunks_match(cs.take(i as int), ids.take(i as int), hashes.take(i as int)),
            bytes@ == flatten(cs.take(i as int)),
        decreases n - i,
    {
        let chunk = &chunks[i];
        let checked = check_chunk_integrity(
            chunk.as_slice(),
            v.chunk_ids[i].as_str(),
            v.chunk_hashes[i].as_str(),
        );
        if checked.is_err() {
            proof {
                assert(cs[i as int] == chunk@);
                assert(!(chunk_id_of(cs[i as int]) == ids[i as int] && chunk_id_of(cs[i as int])
                    == hashes[i as int]));
                assert(!chunks_match(cs, ids, hashes));
            }
            return Err(CoreError::IntegrityMismatch);
        }
        let ghost start = bytes@;
        let mut j: usize = 0;
        while j < chunk.len()
            invariant
                j <= chunk@.len(),
                bytes@ == start + chunk@.subrange(0, j as int),
            decreases chunk@.len() - j,
        {
            bytes.push(chunk[j]);
            proof {
                assert(chunk@.subrange(0, j + 1) =~= chunk@.subrange(0, j as int).push(chunk@[j as int]));
            }
            j = j + 1;
        }
        proof {
            assert(cs[i as int] == chunk@);
            assert(chunk@.subrange(0, chunk@.len() as int) =~= chunk@);
            assert(cs.take(i + 1) =~= cs.take(i as int).push(cs[i as int]));
            assert(cs.take(i + 1).drop_last() =~= cs.take(i as int));
            assert(ids.take(i + 1) =~= ids.take(i as int).push(ids[i as int]));
            assert(hashes.take(i + 1) =~= hashes.take(i as int).push(hashes[i as int]));
            assert forall|k: int| 0 <= k < i + 1 implies chunk_id_of(#[trigger] cs.take(i + 1)[k])
                == ids.take(i + 1)[k] && chunk_id_of(cs.take(i + 1)[k]) == hashes.take(i + 1)[k] by {
                if k < i {
                    assert(cs.take(i + 1)[k] == cs.take(i as int)[k]);
                }
            }
        }
        i = i + 1;
    }
    proof {
        assert(ids.take(n as int) =~= ids);
        assert(hashes.take(n as int) =~= hashes);
        assert(cs.take(n as int) =~= cs);
    }
    select_range(bytes.as_slice(), offset, size)
}

/// Reads `size` bytes from `offset` of the committed version of
/// `file_path`: the record is read from `metadata`, each chunk it names is
/// taken from the cache or else the chunk store (and cached once checked),
/// and the result is `read_from_view` of that record and those chunks. A
/// failure of the metadata store, the cache or the chunk store is reported
/// as such; any other result is what `read_result` gives for the store's
/// committed record of `file_path` and the chunks that were fetched.
pub fn read_file_range<C: ChunkStore, M: MetadataRead, K: ChunkCache>(
    metadata: &M,
    chunk_store: &C,
    cache: &mut K,
    file_path: &str,
    offset: usize,
    size: usize,
) -> (r: Result<Vec<u8>, CoreError>)
    ensures
        forall|k: CacheKey, b: Vec<u8>|
            #[trigger] final(cache).holds(&k, &b) ==> old(cache).holds(&k, &b) || chunk_id_of(b@)
                == k.chunk_id@,
        match r {
            Err(CoreError::Metadata(_)) | Err(CoreError::Cache(_)) | Err(CoreError::ChunkStore(_)) => true,
            _ => exists|chunks: Seq<Seq<u8>>|
                #[trigger] gives(
                    r,
                    read_result(read_view_opt(metadata.committed(file_path)), chunks, offset as int, size as int),
                ),
        },
{
    let view = match metadata.read_committed(file_path) {
        Err(m) => {
            return Err(CoreError::Metadata(m));
        },
        Ok(v) => v,
    };
    let mut chunks: Vec<Vec<u8>> = Vec::new();
    if let Some(v) = &view {
        let n = v.chunk_ids.len();
        if n == v.chunk_hashes.len() {
            let mut i: usize = 0;
            while i < n
                invariant
                    view == Some(*v),
                    read_view_opt(view) == read_view_opt(metadata.committed(file_path)),
                    n == v.chunk_ids@.len(),
                    n == v.chunk_hashes@.len(),
                    i <= n,
                    chunks@.len() == i,
                    forall|k: CacheKey, b: Vec<u8>|
                        #[trigger] cache.holds(&k, &b) ==> old(cache).holds(&k, &b) || chunk_id_of(
                            b@,
                        ) == k.chunk_id@,
                decreases n - i,
            {
                let key = CacheKey {
                    file_path: owned(file_path),
                    version: v.version,
                    chunk_id: v.chunk_ids[i].clone(),
                };
                match fetch_chunk(chunk_store, cache, key, v.chunk_hashes[i].as_str()) {
                    Ok(chunk) => chunks.push(chunk),
                    Err(e) => {
                        proof {
                            if e is IntegrityMismatch {
                                assert(!chunks_match(
                                    chunk_views(chunks@),
                                    views(v.chunk_ids@),
                                    views(v.chunk_hashes@),
                                ));
                                assert(gives(
                                    Err(e),
                                    read_result(
                                        read_view_opt(view),
                                        chunk_views(chunks@),
                                        offset as int,
                                        size as int,
                                    ),
                                ));
                            }
                        }
                        return Err(e);
                    },
                }
                i = i + 1;
            }
        }
    }
    let r = read_from_view(&view, &chunks, offset, size);
    proof {
        assert(gives(
            r,
            read_result(read_view_opt(view), chunk_views(chunks@), offset as int, size as int),
        ));
    }
    r
}

} // verus!
