//! Replaying a log after a restart: the latest record of each transaction,
//! in the order the log holds them; the checks every replayed record must
//! pass; re-applying committed transactions; and what to do with each.
//! Also the steps of the write pipeline that decide rather than move bytes.

use crate::encoding::{blake3_digest, digest, hex_lower, to_hex};
use crate::metadata::{reads_alike, reads_back, MetadataCommit, MetadataDelete};
use crate::text::{concat2, contains_char, contains_text, occurs_at, owned, str_equal};
use crate::wal::{
    entry_views, invalid, invalid_entry, text_seq, EntryView, OperationType, TxStatus, WalEntry,
    WalError,
};
use vstd::prelude::*;
use vstd::string::StrSliceExecFns;

verus! {

/// Where chunk contents are kept, by chunk id.
pub trait ChunkStore {
    fn put_chunk(&self, chunk_id: &str, data: &[u8]) -> Result<(), String>;

    fn get_chunk(&self, chunk_id: &str) -> Result<Option<Vec<u8>>, String>;
}

/// No later record belongs to the transaction of record `i`.
pub open spec fn is_latest(s: Seq<EntryView>, i: int) -> bool {
    forall|j: int| i < j < s.len() ==> #[trigger] s[j].transaction_id != s[i].transaction_id
}

/// The records among the first `k` that are the latest of their
/// transaction, in log order.
pub open spec fn latest_upto(s: Seq<EntryView>, k: int) -> Seq<EntryView>
    decreases k,
{
    if k <= 0 {
        Seq::empty()
    } else if is_latest(s, k - 1) {
        latest_upto(s, k - 1).push(s[k - 1])
    } else {
        latest_upto(s, k - 1)
    }
}

/// The latest record of each transaction, in the order the log holds them.
pub open spec fn latest_records(s: Seq<EntryView>) -> Seq<EntryView> {
    latest_upto(s, s.len() as int)
}

/// The latest record of every transaction, ordered by where each stands
/// in the log (not by sequence number, which restarts with the process).
pub fn scan_latest_transactions(entries: Vec<WalEntry>) -> (r: Vec<WalEntry>)
    ensures
        entry_views(r@) == latest_records(entry_views(entries@)),
{
    let ghost s = entry_views(entries@);
    let n = entries.len();
    let mut out: Vec<WalEntry> = Vec::new();
    let mut i: usize = 0;
    while i < n
        invariant
            n == entries@.len(),
            s == entry_views(entries@),
            i <= n,
            entry_views(out@) == latest_upto(s, i as int),
        decreases n - i,
    {
        let mut later = false;
        let mut j: usize = i + 1;
        while j < n
            invariant
                n == entries@.len(),
                s == entry_views(entries@),
                i < n,
                i + 1 <= j <= n,
                !later ==> forall|k: int| i < k < j ==> #[trigger] s[k].transaction_id
                    != s[i as int].transaction_id,
                later ==> !is_latest(s, i as int),
            decreases n - j,
        {
            if !later && str_equal(
                entries[j].transaction_id.as_str(),
                entries[i].transaction_id.as_str(),
            ) {
                assert(s[j as int].transaction_id == s[i as int].transaction_id);
                later = true;
            }
            j = j + 1;
        }
        if !later {
            let ghost before = out@;
            out.push(entries[i].duplicate());
            assert(entry_views(out@) =~= entry_views(before).push(s[i as int]));
        }
        i = i + 1;
    }
    out
}

/// Why a replayed record is malformed, if it is.
pub open spec fn shape_refusal(e: EntryView) -> Option<Seq<char>> {
    if e.transaction_id.len() == 0 {
        Some("transaction id must be non-empty"@)
    } else if e.transaction_id.contains('\0') {
        Some("transaction id must not contain NUL bytes"@)
    } else if e.file_path.len() == 0 {
        Some("file path must be non-empty"@)
    } else if e.file_path[0] != '/' {
        Some("file path must be absolute"@)
    } else if e.file_path.contains('\0') {
        Some("file path must not contain NUL bytes"@)
    } else {
        None
    }
}

/// Checks the id and the path of a replayed record.
pub fn validate_entry_shape(entry: &WalEntry) -> (r: Result<(), WalError>)
    ensures
        match shape_refusal(entry@) {
            Some(m) => r matches Err(e) && invalid(e, m),
            None => r is Ok,
        },
{
    let tx = entry.transaction_id.as_str();
    let path = entry.file_path.as_str();
    if tx.unicode_len() == 0 {
        return Err(invalid_entry("transaction id must be non-empty"));
    }
    if contains_char(tx, '\0') {
        return Err(invalid_entry("transaction id must not contain NUL bytes"));
    }
    if path.unicode_len() == 0 {
        return Err(invalid_entry("file path must be non-empty"));
    }
    if path.get_char(0) != '/' {
        return Err(invalid_entry("file path must be absolute"));
    }
    if contains_char(path, '\0') {
        return Err(invalid_entry("file path must not contain NUL bytes"));
    }
    Ok(())
}

/// The id of a chunk: the lowercase hexadecimal BLAKE3 digest of its bytes.
pub open spec fn chunk_id_of(data: Seq<u8>) -> Seq<char> {
    hex_lower(blake3_digest(data))
}

/// The id a chunk's bytes give it.
pub fn chunk_identity(data: &[u8]) -> (r: String)
    ensures
        r@ == chunk_id_of(data@),
{
    let d = digest(data);
    to_hex(d.as_slice())
}

/// Judges what the chunk store gave back for one chunk of a replayed
/// record: an error of the store, a missing chunk, or bytes whose id must
/// be the recorded hash.
pub fn check_fetched_chunk(
    chunk_id: &str,
    chunk_hash: &str,
    fetched: Result<Option<Vec<u8>>, String>,
) -> (r: Result<(), WalError>)
    ensures
        match fetched {
            Err(m) => r matches Err(e) && e == WalError::ChunkStore(m),
            Ok(None) => r matches Err(e) && invalid(e, "missing chunk "@ + chunk_id@),
            Ok(Some(data)) => if chunk_id_of(data@) == chunk_hash@ {
                r is Ok
            } else {
                r matches Err(e) && invalid(e, "chunk hash mismatch for chunk_id="@ + chunk_id@)
            },
        },
{
    match fetched {
        Err(m) => Err(WalError::ChunkStore(m)),
        Ok(None) => Err(WalError::InvalidEntry(concat2("missing chunk ", chunk_id))),
        Ok(Some(data)) => {
            let observed = chunk_identity(data.as_slice());
            if str_equal(observed.as_str(), chunk_hash) {
                Ok(())
            } else {
                Err(
                    WalError::InvalidEntry(concat2("chunk hash mismatch for chunk_id=", chunk_id)),
                )
            }
        },
    }
}

/// Checks every chunk of a replayed write against the chunk store: the id
/// and hash lists have one length, each id equals its hash, and the store
/// holds bytes whose id is that hash. Stops at the first failure.
pub fn verify_chunks<C: ChunkStore>(chunk_store: &C, entry: &WalEntry) -> (r: Result<(), WalError>)
    ensures
        entry@.chunk_ids.len() != entry@.chunk_hashes.len() ==> (r matches Err(e) && invalid(
            e,
            "chunk_ids and chunk_hashes length mismatch"@,
        )),
        r is Ok ==> entry@.chunk_ids == entry@.chunk_hashes,
        entry@.chunk_ids.len() == 0 && entry@.chunk_hashes.len() == 0 ==> r is Ok,
        entry@.chunk_ids.len() == entry@.chunk_hashes.len() && entry@.chunk_ids.len() > 0
            && entry@.chunk_ids[0] != entry@.chunk_hashes[0] ==> (r matches Err(e) && invalid(
            e,
            "chunk id/hash mismatch for chunk_id="@ + entry@.chunk_ids[0],
        )),
{
    let n = entry.chunk_ids.len();
    if n != entry.chunk_hashes.len() {
        return Err(invalid_entry("chunk_ids and chunk_hashes length mismatch"));
    }
    let mut i: usize = 0;
    while i < n
        invariant
            n == entry.chunk_ids@.len(),
            n == entry.chunk_hashes@.len(),
            i <= n,
            forall|k: int| 0 <= k < i ==> entry.chunk_ids@[k]@ == entry.chunk_hashes@[k]@,
        decreases n - i,
    {
        let id = entry.chunk_ids[i].as_str();
        let hash = entry.chunk_hashes[i].as_str();
        if !str_equal(id, hash) {
            return Err(
                WalError::InvalidEntry(concat2("chunk id/hash mismatch for chunk_id=", id)),
            );
        }
        let fetched = chunk_store.get_chunk(id);
        check_fetched_chunk(id, hash, fetched)?;
        i = i + 1;
    }
    assert(text_seq(entry.chunk_ids@) =~= text_seq(entry.chunk_hashes@));
    Ok(())
}

/// Re-applies a committed record to the metadata store: a write after its
/// chunks check out, a delete when it carries no chunks. A refusal of the
/// store comes back as a metadata error.
pub fn apply_committed<C: ChunkStore, M: MetadataCommit + MetadataDelete>(
    chunk_store: &C,
    metadata: &mut M,
    entry: &WalEntry,
) -> (r: Result<(), WalError>)
    ensures
        entry@.operation == OperationType::Delete && (entry@.chunk_ids.len() > 0
            || entry@.chunk_hashes.len() > 0) ==> (r matches Err(e) && invalid(
            e,
            "delete transaction must not include chunk vectors"@,
        )),
        entry@.operation == OperationType::Write && r is Ok ==> entry@.chunk_ids
            == entry@.chunk_hashes,
        r matches Err(e) && e is Metadata ==> entry@.operation == OperationType::Write
            || entry@.chunk_ids.len() + entry@.chunk_hashes.len() == 0,
        r matches Err(e) && !(e is Metadata) ==> *final(metadata) == *old(metadata),
        entry@.operation == OperationType::Write && r is Ok ==> reads_back(
            *final(metadata),
            entry@.file_path,
            entry.expected_version + 1,
            entry@.chunk_ids,
            entry@.chunk_hashes,
        ) || reads_alike(*old(metadata), *final(metadata)),
{
    match entry.operation {
        OperationType::Write => {
            verify_chunks(chunk_store, entry)?;
            match metadata.commit_write(
                entry.transaction_id.as_str(),
                entry.file_path.as_str(),
                entry.expected_version,
                entry.chunk_ids.as_slice(),
                entry.chunk_hashes.as_slice(),
            ) {
                Ok(()) => Ok(()),
                Err(m) => Err(WalError::Metadata(m)),
            }
        },
        OperationType::Delete => {
            if entry.chunk_ids.len() > 0 || entry.chunk_hashes.len() > 0 {
                return Err(invalid_entry("delete transaction must not include chunk vectors"));
            }
            match metadata.commit_delete(
                entry.transaction_id.as_str(),
                entry.file_path.as_str(),
                entry.expected_version,
            ) {
                Ok(()) => Ok(()),
                Err(m) => Err(WalError::Metadata(m)),
            }
        },
    }
}

/// What recovery does with the latest record of one transaction.
#[derive(Debug, Clone, Copy, PartialEq, Eq, Structural)]
pub enum RecoveryAction {
    /// Re-apply the committed transaction.
    Reapply,
    /// Append an abort record and close the transaction.
    AbortPending,
    /// Leave the aborted transaction alone.
    Skip,
}

/// The action for a record: malformed records stop recovery; committed
/// ones are re-applied, pending ones aborted, aborted ones skipped.
pub fn recovery_action(entry: &WalEntry) -> (r: Result<RecoveryAction, WalError>)
    ensures
        match shape_refusal(entry@) {
            Some(m) => r matches Err(e) && invalid(e, m),
            None => r == Ok::<RecoveryAction, WalError>(
                match entry@.status {
                    TxStatus::Committed => RecoveryAction::Reapply,
                    TxStatus::Pending => RecoveryAction::AbortPending,
                    TxStatus::Aborted => RecoveryAction::Skip,
                },
            ),
        },
{
    validate_entry_shape(entry)?;
    match entry.status {
        TxStatus::Committed => Ok(RecoveryAction::Reapply),
        TxStatus::Pending => Ok(RecoveryAction::AbortPending),
        TxStatus::Aborted => Ok(RecoveryAction::Skip),
    }
}

/// How many transactions recovery re-applied, aborted and skipped.
#[derive(Debug, Clone, Copy, PartialEq, Eq, Structural)]
pub struct RecoveryReport {
    pub committed_reapplied: usize,
    pub pending_aborted: usize,
    pub skipped_aborted: usize,
}

impl RecoveryReport {
    /// No transaction handled yet.
    pub fn new() -> (r: Self)
        ensures
            r.committed_reapplied == 0 && r.pending_aborted == 0 && r.skipped_aborted == 0,
    {
        RecoveryReport { committed_reapplied: 0, pending_aborted: 0, skipped_aborted: 0 }
    }

    /// Counts one handled transaction.
    pub fn record(&mut self, action: RecoveryAction)
        requires
            old(self).committed_reapplied < usize::MAX,
            old(self).pending_aborted < usize::MAX,
            old(self).skipped_aborted < usize::MAX,
        ensures
            final(self).committed_reapplied == old(self).committed_reapplied + if action
                == RecoveryAction::Reapply {
                1int
            } else {
                0
            },
            final(self).pending_aborted == old(self).pending_aborted + if action
                == RecoveryAction::AbortPending {
                1int
            } else {
                0
            },
            final(self).skipped_aborted == old(self).skipped_aborted + if action
                == RecoveryAction::Skip {
                1int
            } else {
                0
            },
    {
        match action {
            RecoveryAction::Reapply => self.committed_reapplied = self.committed_reapplied + 1,
            RecoveryAction::AbortPending => self.pending_aborted = self.pending_aborted + 1,
            RecoveryAction::Skip => self.skipped_aborted = self.skipped_aborted + 1,
        }
    }
}

/// What a write pipeline reports of a committed write.
#[derive(Debug, Clone)]
pub struct WriteResult {
    pub transaction_id: String,
    pub committed: bool,
    pub chunk_count: usize,
}

/// A pipeline cuts streams into chunks of a positive size.
pub fn validate_chunk_size(chunk_size: usize) -> (r: Result<(), WalError>)
    ensures
        chunk_size > 0 ==> r is Ok,
        chunk_size == 0 ==> (r matches Err(e) && invalid(e, "chunk_size must be > 0"@)),
{
    if chunk_size == 0 {
        return Err(invalid_entry("chunk_size must be > 0"));
    }
    Ok(())
}

/// The error a pipeline reports when the metadata store refuses a commit:
/// a conflict when the refusal mentions `cas conflict`, else the refusal.
pub fn commit_failure(message: String) -> (e: WalError)
    ensures
        (exists|i: int| occurs_at(message@, "cas conflict"@, i)) ==> e is Conflict,
        !(exists|i: int| occurs_at(message@, "cas conflict"@, i)) ==> e == WalError::Metadata(
            message,
        ),
{
    if contains_text(message.as_str(), "cas conflict") {
        WalError::Conflict
    } else {
        WalError::Metadata(message)
    }
}

/// The error a pipeline reports after trying to abort a failed write: the
/// abort's own error if it failed, else the failure that caused it.
pub fn abort_outcome(primary: WalError, abort: Result<(), WalError>) -> (e: WalError)
    ensures
        match abort {
            Ok(()) => e == primary,
            Err(a) => e == a,
        },
{
    match abort {
        Ok(()) => primary,
        Err(a) => a,
    }
}

/// `e` is the latest record of its transaction and stands among the first
/// `k` records.
pub open spec fn is_latest_among(s: Seq<EntryView>, k: int, e: EntryView) -> bool {
    exists|i: int| 0 <= i < k && is_latest(s, i) && s[i] == e
}

/// Recovery handles each transaction once, by its latest record: no two
/// records that recovery replays belong to one transaction.
pub proof fn law_replay_once_per_transaction(s: Seq<EntryView>, k: int)
    requires
        0 <= k <= s.len(),
    ensures
        forall|a: int, b: int|
            0 <= a < b < latest_upto(s, k).len() ==> #[trigger] latest_upto(s, k)[a].transaction_id
                != #[trigger] latest_upto(s, k)[b].transaction_id,
        forall|a: int|
            0 <= a < latest_upto(s, k).len() ==> is_latest_among(s, k, #[trigger] latest_upto(s, k)[a]),
    decreases k,
{
    if k > 0 {
        law_replay_once_per_transaction(s, k - 1);
        let prev = latest_upto(s, k - 1);
        if is_latest(s, k - 1) {
            let cur = latest_upto(s, k);
            assert(cur == prev.push(s[k - 1]));
            assert forall|a: int, b: int|
                0 <= a < b < cur.len() implies #[trigger] cur[a].transaction_id
                    != #[trigger] cur[b].transaction_id by {
                if b == cur.len() - 1 {
                    let i = choose|i: int| 0 <= i < k - 1 && is_latest(s, i) && s[i] == prev[a];
                    assert(s[k - 1].transaction_id != s[i].transaction_id);
                } else {
                    assert(cur[a] == prev[a]);
                    assert(cur[b] == prev[b]);
                }
            }
            assert forall|a: int| 0 <= a < cur.len() implies is_latest_among(s, k, #[trigger] cur[a]) by {
                if a < prev.len() {
                    assert(cur[a] == prev[a]);
                    let i = choose|i: int| 0 <= i < k - 1 && is_latest(s, i) && s[i] == prev[a];
                    assert(0 <= i < k && is_latest(s, i) && s[i] == cur[a]);
                } else {
                    assert(0 <= k - 1 < k && is_latest(s, k - 1) && s[k - 1] == cur[a]);
                }
            }
        } else {
            let cur = latest_upto(s, k);
            assert(cur == prev);
            assert forall|a: int| 0 <= a < cur.len() implies is_latest_among(s, k, #[trigger] cur[a]) by {
                let i = choose|i: int| 0 <= i < k - 1 && is_latest(s, i) && s[i] == prev[a];
                assert(0 <= i < k && is_latest(s, i) && s[i] == cur[a]);
            }
        }
    }
}

/// Record `i` is the one the in-flight scan keeps for its transaction: the
/// first record with the highest sequence number among that transaction's
/// records.
pub open spec fn kept_by_sequence(s: Seq<EntryView>, i: int) -> bool {
    &&& 0 <= i < s.len()
    &&& forall|j: int|
        0 <= j < i && #[trigger] s[j].transaction_id == s[i].transaction_id ==> s[j].sequence
            < s[i].sequence
    &&& forall|j: int|
        i < j < s.len() && #[trigger] s[j].transaction_id == s[i].transaction_id ==> s[j].sequence
            <= s[i].sequence
}

/// The chunk ids that pending transactions still reference: those of every
/// kept record that is pending.
pub open spec fn inflight_set(s: Seq<EntryView>) -> Set<Seq<char>> {
    Set::new(
        |c: Seq<char>|
            exists|i: int|
                kept_by_sequence(s, i) && s[i].status == TxStatus::Pending
                    && #[trigger] s[i].chunk_ids.contains(c),
    )
}

/// The garbage collector keeps the chunks of writes in progress: every
/// chunk named by the record of a transaction that is newer (by sequence)
/// than all its other records, when that record is pending, is in flight.
pub proof fn law_pending_chunks_are_in_flight(s: Seq<EntryView>, i: int, c: Seq<char>)
    requires
        0 <= i < s.len(),
        forall|j: int|
            0 <= j < s.len() && j != i && #[trigger] s[j].transaction_id == s[i].transaction_id
                ==> s[j].sequence < s[i].sequence,
        s[i].status == TxStatus::Pending,
        s[i].chunk_ids.contains(c),
    ensures
        inflight_set(s).contains(c),
{
    assert(kept_by_sequence(s, i));
}

/// Only writes in progress hold chunks in flight: a chunk in flight is
/// named by a pending record that no record of its transaction outranks by
/// sequence; so a transaction whose newest record is a commit or an abort
/// keeps no chunk in flight.
pub proof fn law_in_flight_chunks_are_pending(s: Seq<EntryView>, c: Seq<char>)
    requires
        inflight_set(s).contains(c),
    ensures
        exists|i: int|
            0 <= i < s.len() && s[i].status == TxStatus::Pending && #[trigger] s[i].chunk_ids.contains(c)
                && forall|j: int|
                0 <= j < s.len() && #[trigger] s[j].transaction_id == s[i].transaction_id
                    ==> s[j].sequence <= s[i].sequence,
{
    let i = choose|i: int|
        kept_by_sequence(s, i) && s[i].status == TxStatus::Pending
            && #[trigger] s[i].chunk_ids.contains(c);
    assert forall|j: int|
        0 <= j < s.len() && #[trigger] s[j].transaction_id == s[i].transaction_id implies s[j].sequence
        <= s[i].sequence by {
    }
}

/// The chunk ids referenced by transactions that are still pending, as
/// judged by the record with the highest sequence number of each.
pub fn inflight_chunk_ids(entries: &[WalEntry]) -> (r: Vec<String>)
    ensures
        crate::text::string_set(r@) == inflight_set(entry_views(entries@)),
{
    let ghost s = entry_views(entries@);
    let n = entries.len();
    let mut out: Vec<String> = Vec::new();
    let mut i: usize = 0;
    while i < n
        invariant
            n == entries@.len(),
            s == entry_views(entries@),
            i <= n,
            forall|c: Seq<char>| #[trigger]
                crate::text::string_set(out@).contains(c) <==> exists|k: int|
                    0 <= k < i && kept_by_sequence(s, k) && s[k].status == TxStatus::Pending
                        && #[trigger] s[k].chunk_ids.contains(c),
        decreases n - i,
    {
        let e = &entries[i];
        let mut kept = true;
        let mut j: usize = 0;
        while j < n
            invariant
                n == entries@.len(),
                s == entry_views(entries@),
                i < n,
                j <= n,
                e@ == s[i as int],
                kept ==> forall|k: int|
                    0 <= k < j && k < i && #[trigger] s[k].transaction_id == s[i as int].transaction_id
                        ==> s[k].sequence < s[i as int].sequence,
                kept ==> forall|k: int|
                    0 <= k < j && i < k && #[trigger] s[k].transaction_id == s[i as int].transaction_id
                        ==> s[k].sequence <= s[i as int].sequence,
                !kept ==> !kept_by_sequence(s, i as int),
            decreases n - j,
        {
            if j != i && str_equal(entries[j].transaction_id.as_str(), e.transaction_id.as_str()) {
                assert(s[j as int] == entries@[j as int]@);
                if (j < i && entries[j].sequence >= e.sequence) || (j > i && entries[j].sequence
                    > e.sequence) {
                    assert(s[j as int].transaction_id == s[i as int].transaction_id);
                    assert(!kept_by_sequence(s, i as int));
                    kept = false;
                }
            }
            j = j + 1;
        }
        if kept && e.status == TxStatus::Pending {
            let ghost before = out@;
            let m = e.chunk_ids.len();
            let mut k: usize = 0;
            while k < m
                invariant
                    m == e.chunk_ids@.len(),
                    k <= m,
                    forall|c: Seq<char>| #[trigger]
                        crate::text::string_set(out@).contains(c) <==> (crate::text::string_set(
                            before,
                        ).contains(c) || exists|t: int|
                            0 <= t < k && e.chunk_ids@[t]@ == c),
                decreases m - k,
            {
                proof {
                    crate::text::lemma_string_set_push(out@, e.chunk_ids@[k as int]);
                }
                out.push(e.chunk_ids[k].clone());
                k = k + 1;
            }
            proof {
                assert(kept_by_sequence(s, i as int));
                assert forall|c: Seq<char>| #[trigger]
                    crate::text::string_set(out@).contains(c) <==> exists|q: int|
                        0 <= q < i + 1 && kept_by_sequence(s, q) && s[q].status == TxStatus::Pending
                            && #[trigger] s[q].chunk_ids.contains(c) by {
                    if crate::text::string_set(out@).contains(c) && !crate::text::string_set(
                        before,
                    ).contains(c) {
                        let t = choose|t: int| 0 <= t < m && e.chunk_ids@[t]@ == c;
                        assert(s[i as int].chunk_ids[t] == c);
                        assert(s[i as int].chunk_ids.contains(c));
                    }
                    if exists|q: int|
                        0 <= q < i + 1 && kept_by_sequence(s, q) && s[q].status
                            == TxStatus::Pending && #[trigger] s[q].chunk_ids.contains(c) {
                        let q = choose|q: int|
                            0 <= q < i + 1 && kept_by_sequence(s, q) && s[q].status
                                == TxStatus::Pending && #[trigger] s[q].chunk_ids.contains(c);
                        if q == i {
                            let t = choose|t: int|
                                0 <= t < s[i as int].chunk_ids.len() && s[i as int].chunk_ids[t]
                                    == c;
                            assert(e.chunk_ids@[t]@ == c);
                        }
                    }
                }
            }
        } else {
            proof {
                assert forall|c: Seq<char>| #[trigger]
                    crate::text::string_set(out@).contains(c) <==> exists|q: int|
                        0 <= q < i + 1 && kept_by_sequence(s, q) && s[q].status == TxStatus::Pending
                            && #[trigger] s[q].chunk_ids.contains(c) by {
                    if exists|q: int|
                        0 <= q < i + 1 && kept_by_sequence(s, q) && s[q].status
                            == TxStatus::Pending && #[trigger] s[q].chunk_ids.contains(c) {
                        let q = choose|q: int|
                            0 <= q < i + 1 && kept_by_sequence(s, q) && s[q].status
                                == TxStatus::Pending && #[trigger] s[q].chunk_ids.contains(c);
                        if q == i {
                            assert(e@ == s[i as int]);
                        }
                        assert(q < i);
                    }
                }
            }
        }
        i = i + 1;
    }
    proof {
        assert(crate::text::string_set(out@) =~= inflight_set(s));
    }
    out
}

/// Recovery misses no transaction: the latest record of every transaction
/// in the log is among the records replayed.
pub proof fn law_replay_covers_every_transaction(s: Seq<EntryView>, k: int)
    requires
        0 <= k <= s.len(),
    ensures
        forall|i: int| 0 <= i < k && is_latest(s, i) ==> latest_upto(s, k).contains(#[trigger] s[i]),
    decreases k,
{
    if k > 0 {
        law_replay_covers_every_transaction(s, k - 1);
        let prev = latest_upto(s, k - 1);
        let cur = latest_upto(s, k);
        assert forall|i: int| 0 <= i < k && is_latest(s, i) implies cur.contains(#[trigger] s[i]) by {
            if i < k - 1 {
                assert(prev.contains(s[i]));
                let j = choose|j: int| 0 <= j < prev.len() && prev[j] == s[i];
                if is_latest(s, k - 1) {
                    assert(cur == prev.push(s[k - 1]));
                    assert(cur[j] == s[i]);
                } else {
                    assert(cur == prev);
                }
            } else {
                assert(cur == prev.push(s[k - 1]));
                assert(cur[prev.len() as int] == s[i]);
            }
        }
    }
}

} // verus!
