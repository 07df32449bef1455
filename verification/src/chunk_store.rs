//! Naming rules of a content-addressed chunk store: which ids are valid,
//! where a chunk lives, which directory entries are chunks or leftover
//! temporary files, how stored bytes are checked against their id, and
//! when a failed disk operation is retried.

use crate::recovery::{chunk_id_of, chunk_identity};
use crate::text::{concat2, concat3, is_last_index_of, last_index_of, str_equal, substring};
use vstd::prelude::*;
use vstd::string::StrSliceExecFns;
use vstd::string::StringExecFns;

verus! {

/// Why a chunk store operation failed.
#[derive(Debug)]
pub enum ChunkStoreError {
    Io(String),
    InvalidChunkId,
    IntegrityMismatch,
    NotFound,
}

/// The text of each error.
pub open spec fn chunk_store_error_text(e: ChunkStoreError) -> Seq<char> {
    match e {
        ChunkStoreError::Io(m) => "io error: "@ + m@,
        ChunkStoreError::InvalidChunkId => "invalid chunk id"@,
        ChunkStoreError::IntegrityMismatch => "chunk integrity mismatch"@,
        ChunkStoreError::NotFound => "chunk not found"@,
    }
}

impl ChunkStoreError {
    /// The human-readable text of the error.
    pub fn message(&self) -> (r: String)
        ensures
            r@ == chunk_store_error_text(*self),
    {
        match self {
            ChunkStoreError::Io(m) => String::from_str("io error: ").concat(m.as_str()),
            ChunkStoreError::InvalidChunkId => String::from_str("invalid chunk id"),
            ChunkStoreError::IntegrityMismatch => String::from_str("chunk integrity mismatch"),
            ChunkStoreError::NotFound => String::from_str("chunk not found"),
        }
    }
}

/// Times a failed disk operation is retried.
pub const IO_RETRY_ATTEMPTS: usize = 3;

/// Milliseconds waited before the first retry; each later wait doubles.
pub const IO_RETRY_BASE_BACKOFF_MS: u64 = 2;

/// Whether `c` is an ASCII hexadecimal digit, either case.
pub open spec fn is_hex_digit(c: char) -> bool {
    ('0' <= c && c <= '9') || ('a' <= c && c <= 'f') || ('A' <= c && c <= 'F')
}

/// Every character is an ASCII hexadecimal digit.
pub open spec fn all_hex(s: Seq<char>) -> bool {
    forall|i: int| 0 <= i < s.len() ==> is_hex_digit(#[trigger] s[i])
}

/// A chunk id is at least six ASCII hexadecimal digits.
pub open spec fn chunk_id_ok(id: Seq<char>) -> bool {
    id.len() >= 6 && all_hex(id)
}

/// Whether every character of `s` is an ASCII hexadecimal digit.
pub fn is_all_hex(s: &str) -> (r: bool)
    ensures
        r == all_hex(s@),
{
    let n = s.unicode_len();
    let mut i: usize = 0;
    while i < n
        invariant
            n == s@.len(),
            i <= n,
            forall|j: int| 0 <= j < i ==> is_hex_digit(#[trigger] s@[j]),
        decreases n - i,
    {
        let c = s.get_char(i);
        if !(('0' <= c && c <= '9') || ('a' <= c && c <= 'f') || ('A' <= c && c <= 'F')) {
            assert(!is_hex_digit(s@[i as int]));
            return false;
        }
        i = i + 1;
    }
    true
}

/// Whether `chunk_id` is a valid chunk id. Hexadecimal digits are one byte
/// each, so the byte length the store checks equals the character count.
pub fn is_valid_chunk_id(chunk_id: &str) -> (r: bool)
    ensures
        r == chunk_id_ok(chunk_id@),
{
    chunk_id.unicode_len() >= 6 && is_all_hex(chunk_id)
}

/// Where a chunk lives below the store's root: two directory levels named
/// by its first two pairs of digits, then the chunk file.
pub struct ChunkLocation {
    pub shard1: String,
    pub shard2: String,
    pub file_name: String,
}

/// The location of a chunk, or `InvalidChunkId`.
pub fn chunk_location(chunk_id: &str) -> (r: Result<ChunkLocation, ChunkStoreError>)
    ensures
        chunk_id_ok(chunk_id@) ==> (r matches Ok(l) && l.shard1@ == chunk_id@.subrange(0, 2)
            && l.shard2@ == chunk_id@.subrange(2, 4) && l.file_name@ == chunk_id@ + ".chunk"@),
        !chunk_id_ok(chunk_id@) ==> (r matches Err(e) && e is InvalidChunkId),
{
    if !is_valid_chunk_id(chunk_id) {
        return Err(ChunkStoreError::InvalidChunkId);
    }
    Ok(
        ChunkLocation {
            shard1: substring(chunk_id, 0, 2),
            shard2: substring(chunk_id, 2, 4),
            file_name: concat2(chunk_id, ".chunk"),
        },
    )
}

/// The name of the temporary file a chunk is written to before it is
/// renamed into place.
pub fn temp_file_name(chunk_id: &str) -> (r: String)
    ensures
        r@ == "."@ + chunk_id@ + ".tmp"@,
{
    concat3(".", chunk_id, ".tmp")
}

/// The name a corrupt chunk file is moved to.
pub fn quarantine_file_name(chunk_id: &str) -> (r: String)
    ensures
        r@ == chunk_id@ + ".chunk.quarantine"@,
{
    concat2(chunk_id, ".chunk.quarantine")
}

/// Where a file name's extension starts, as `Path::extension` finds it:
/// after the last dot, unless that dot opens the name.
pub open spec fn extension_dot(name: Seq<char>) -> Option<int> {
    if exists|i: int| is_last_index_of(name, '.', i) {
        let i = choose|i: int| is_last_index_of(name, '.', i);
        if i == 0 {
            None
        } else {
            Some(i)
        }
    } else {
        None
    }
}

/// The extension of a file name and its stem, split at the extension dot.
fn split_extension(name: &str) -> (r: Option<(String, String)>)
    ensures
        match extension_dot(name@) {
            Some(i) => r matches Some(p) && p.0@ == name@.subrange(0, i) && p.1@ == name@.subrange(
                i + 1,
                name@.len() as int,
            ),
            None => r is None,
        },
{
    match last_index_of(name, '.') {
        Some(i) => {
            proof {
                let k = choose|k: int| is_last_index_of(name@, '.', k);
                crate::namespace::lemma_last_index_unique(name@, '.', i as int, k);
            }
            if i == 0 {
                return None;
            }
            let n = name.unicode_len();
            Some((substring(name, 0, i), substring(name, i + 1, n)))
        },
        None => {
            assert(!exists|k: int| is_last_index_of(name@, '.', k));
            None
        },
    }
}

/// The chunk id a directory entry names, when it is a chunk file: its
/// extension is `chunk` and its stem is all hexadecimal digits.
pub fn listed_chunk_id(file_name: &str) -> (r: Option<String>)
    ensures
        match extension_dot(file_name@) {
            Some(i) => if file_name@.subrange(i + 1, file_name@.len() as int) == "chunk"@
                && all_hex(file_name@.subrange(0, i)) {
                r matches Some(id) && id@ == file_name@.subrange(0, i)
            } else {
                r is None
            },
            None => r is None,
        },
{
    match split_extension(file_name) {
        Some((stem, ext)) => {
            if str_equal(ext.as_str(), "chunk") && is_all_hex(stem.as_str()) {
                Some(stem)
            } else {
                None
            }
        },
        None => None,
    }
}

/// Whether a directory entry is a leftover temporary file: its extension is
/// `tmp`.
pub fn is_temp_artifact(file_name: &str) -> (r: bool)
    ensures
        r == (extension_dot(file_name@) matches Some(i) && file_name@.subrange(
            i + 1,
            file_name@.len() as int,
        ) == "tmp"@),
{
    match split_extension(file_name) {
        Some((_, ext)) => str_equal(ext.as_str(), "tmp"),
        None => false,
    }
}

/// Whether bytes read back for `chunk_id` are the chunk: their id must be
/// `chunk_id`.
pub fn chunk_bytes_match(chunk_id: &str, bytes: &[u8]) -> (r: bool)
    ensures
        r == (chunk_id_of(bytes@) == chunk_id@),
{
    let observed = chunk_identity(bytes);
    str_equal(observed.as_str(), chunk_id)
}

/// Refuses to store bytes under an id that is not theirs.
pub fn check_put_identity(chunk_id: &str, data: &[u8]) -> (r: Result<(), String>)
    ensures
        chunk_id_of(data@) == chunk_id@ ==> r is Ok,
        chunk_id_of(data@) != chunk_id@ ==> (r matches Err(m) && m@
            == "chunk id does not match BLAKE3(content)"@),
{
    if chunk_bytes_match(chunk_id, data) {
        Ok(())
    } else {
        Err(String::from_str("chunk id does not match BLAKE3(content)"))
    }
}

/// The milliseconds to wait before retry number `attempt + 1`, when a disk
/// failure at attempt `attempt` (counted from 0) may still be retried.
pub fn retry_backoff(attempt: usize, io_failure: bool) -> (r: Option<u64>)
    ensures
        io_failure && attempt < IO_RETRY_ATTEMPTS ==> r == Some(
            (IO_RETRY_BASE_BACKOFF_MS * vstd::arithmetic::power2::pow2(attempt as nat)) as u64,
        ),
        !(io_failure && attempt < IO_RETRY_ATTEMPTS) ==> r is None,
{
    if io_failure && attempt < IO_RETRY_ATTEMPTS {
        proof {
            vstd::arithmetic::power2::lemma2_to64();
        }
        let factor: u64 = if attempt == 0 {
            1
        } else if attempt == 1 {
            2
        } else {
            4
        };
        Some(IO_RETRY_BASE_BACKOFF_MS * factor)
    } else {
        None
    }
}

} // verus!
