//! Write-ahead log records and the rules of transactions: which ids may
//! begin, which records an open transaction may append, and which ids a log
//! holds open or closed after it is read back.

use crate::clock::now_millis;
use crate::encoding::{decimal, render_u128, render_u64};
use crate::keyed::StrSet;
use crate::text::{clone_strings, contains_char, owned, str_equal};
use vstd::prelude::*;
use vstd::string::StrSliceExecFns;
use vstd::string::StringExecFns;

verus! {

/// What a transaction does to its file.
#[derive(Debug, Clone, Copy, PartialEq, Eq, Structural)]
pub enum OperationType {
    Write,
    Delete,
}

/// Where a transaction stands.
#[derive(Debug, Clone, Copy, PartialEq, Eq, Structural)]
pub enum TxStatus {
    Pending,
    Committed,
    Aborted,
}

/// Why a log operation failed.
#[derive(Debug)]
pub enum WalError {
    Io(String),
    Serde(String),
    ChecksumMismatch,
    TruncatedFrame,
    Conflict,
    Metadata(String),
    ChunkStore(String),
    InvalidEntry(String),
}

/// The text of each error.
pub open spec fn wal_error_text(e: WalError) -> Seq<char> {
    match e {
        WalError::Io(m) => "io error: "@ + m@,
        WalError::Serde(m) => "serialization error: "@ + m@,
        WalError::ChecksumMismatch => "wal frame checksum mismatch"@,
        WalError::TruncatedFrame => "wal frame truncated"@,
        WalError::Conflict => "transaction conflict"@,
        WalError::Metadata(m) => "metadata commit rejected: "@ + m@,
        WalError::ChunkStore(m) => "chunk store error: "@ + m@,
        WalError::InvalidEntry(m) => "invalid entry: "@ + m@,
    }
}

/// The entry was refused for the reason `m`.
pub open spec fn invalid(e: WalError, m: Seq<char>) -> bool {
    e matches WalError::InvalidEntry(t) && t@ == m
}

impl WalError {
    /// The human-readable text of the error.
    pub fn message(&self) -> (r: String)
        ensures
            r@ == wal_error_text(*self),
    {
        match self {
            WalError::Io(m) => String::from_str("io error: ").concat(m.as_str()),
            WalError::Serde(m) => String::from_str("serialization error: ").concat(m.as_str()),
            WalError::ChecksumMismatch => String::from_str("wal frame checksum mismatch"),
            WalError::TruncatedFrame => String::from_str("wal frame truncated"),
            WalError::Conflict => String::from_str("transaction conflict"),
            WalError::Metadata(m) => String::from_str("metadata commit rejected: ").concat(
                m.as_str(),
            ),
            WalError::ChunkStore(m) => String::from_str("chunk store error: ").concat(m.as_str()),
            WalError::InvalidEntry(m) => String::from_str("invalid entry: ").concat(m.as_str()),
        }
    }
}

/// A refusal of the entry, with its reason.
pub fn invalid_entry(m: &str) -> (e: WalError)
    ensures
        invalid(e, m@),
{
    WalError::InvalidEntry(owned(m))
}

/// One record of the log: the state of one transaction when it was written.
#[derive(Debug, Clone)]
pub struct WalEntry {
    pub sequence: u64,
    pub transaction_id: String,
    pub file_path: String,
    pub chunk_ids: Vec<String>,
    pub chunk_hashes: Vec<String>,
    pub timestamp_millis: u128,
    pub operation: OperationType,
    pub status: TxStatus,
    pub expected_version: u64,
}

/// A log record over character sequences.
pub ghost struct EntryView {
    pub sequence: u64,
    pub transaction_id: Seq<char>,
    pub file_path: Seq<char>,
    pub chunk_ids: Seq<Seq<char>>,
    pub chunk_hashes: Seq<Seq<char>>,
    pub timestamp_millis: u128,
    pub operation: OperationType,
    pub status: TxStatus,
    pub expected_version: u64,
}

/// The largest sequence number among the records, 0 for none.
pub open spec fn max_sequence(es: Seq<EntryView>) -> u64
    decreases es.len(),
{
    if es.len() == 0 {
        0
    } else if es.last().sequence > max_sequence(es.drop_last()) {
        es.last().sequence
    } else {
        max_sequence(es.drop_last())
    }
}

/// The first sequence number a log with these records hands out: one past
/// the largest it holds (kept at `u64::MAX` once reached).
pub open spec fn sequence_after(es: Seq<EntryView>) -> u64 {
    if max_sequence(es) == u64::MAX {
        u64::MAX
    } else {
        (max_sequence(es) + 1) as u64
    }
}

/// A log reopened with records `es` hands out sequence numbers above every
/// one it holds (until the counter reaches `u64::MAX`).
pub proof fn law_reopened_log_sequences_grow(es: Seq<EntryView>)
    ensures
        forall|j: int| 0 <= j < es.len() ==> (#[trigger] es[j]).sequence <= max_sequence(es),
        max_sequence(es) < u64::MAX ==> forall|j: int|
            0 <= j < es.len() ==> (#[trigger] es[j]).sequence < sequence_after(es),
    decreases es.len(),
{
    if es.len() > 0 {
        let p = es.drop_last();
        law_reopened_log_sequences_grow(p);
        assert forall|j: int| 0 <= j < es.len() implies (#[trigger] es[j]).sequence <= max_sequence(
            es,
        ) by {
            if j < p.len() {
                assert(es[j] == p[j]);
            }
        }
    }
}

/// The character views of a list of strings.
pub open spec fn text_seq(v: Seq<String>) -> Seq<Seq<char>> {
    v.map_values(|s: String| s@)
}

impl View for WalEntry {
    type V = EntryView;

    open spec fn view(&self) -> EntryView {
        EntryView {
            sequence: self.sequence,
            transaction_id: self.transaction_id@,
            file_path: self.file_path@,
            chunk_ids: text_seq(self.chunk_ids@),
            chunk_hashes: text_seq(self.chunk_hashes@),
            timestamp_millis: self.timestamp_millis,
            operation: self.operation,
            status: self.status,
            expected_version: self.expected_version,
        }
    }
}

impl WalEntry {
    /// A pending record of a transaction that has no chunks yet.
    pub fn new_pending(
        transaction_id: String,
        file_path: String,
        operation: OperationType,
        expected_version: u64,
        sequence: u64,
        timestamp_millis: u128,
    ) -> (e: Self)
        ensures
            e@ == (EntryView {
                sequence,
                transaction_id: transaction_id@,
                file_path: file_path@,
                chunk_ids: Seq::empty(),
                chunk_hashes: Seq::empty(),
                timestamp_millis,
                operation,
                status: TxStatus::Pending,
                expected_version,
            }),
    {
        let e = WalEntry {
            sequence,
            transaction_id,
            file_path,
            chunk_ids: Vec::new(),
            chunk_hashes: Vec::new(),
            timestamp_millis,
            operation,
            status: TxStatus::Pending,
            expected_version,
        };
        assert(text_seq(e.chunk_ids@) =~= Seq::<Seq<char>>::empty());
        assert(text_seq(e.chunk_hashes@) =~= Seq::<Seq<char>>::empty());
        e
    }

    /// A field-by-field copy.
    pub fn duplicate(&self) -> (e: Self)
        ensures
            e@ == self@,
    {
        WalEntry {
            sequence: self.sequence,
            transaction_id: self.transaction_id.clone(),
            file_path: self.file_path.clone(),
            chunk_ids: clone_strings(self.chunk_ids.as_slice()),
            chunk_hashes: clone_strings(self.chunk_hashes.as_slice()),
            timestamp_millis: self.timestamp_millis,
            operation: self.operation,
            status: self.status,
            expected_version: self.expected_version,
        }
    }

    /// This record with a new status, sequence number and time.
    pub fn with_status(&self, status: TxStatus, sequence: u64, timestamp_millis: u128) -> (e: Self)
        ensures
            e@ == (EntryView { status, sequence, timestamp_millis, ..self@ }),
    {
        let mut e = self.duplicate();
        e.status = status;
        e.sequence = sequence;
        e.timestamp_millis = timestamp_millis;
        e
    }
}

/// An open transaction: the latest record the log holds for it.
pub struct WalTransaction {
    entry: WalEntry,
}

impl WalTransaction {
    /// The latest record of the transaction.
    pub closed spec fn view(&self) -> EntryView {
        self.entry@
    }

    /// The transaction's id.
    pub fn transaction_id(&self) -> (r: &str)
        ensures
            r@ == self@.transaction_id,
    {
        self.entry.transaction_id.as_str()
    }

    /// The chunks appended so far, in order.
    pub fn chunk_ids(&self) -> (r: &[String])
        ensures
            text_seq(r@) == self@.chunk_ids,
    {
        self.entry.chunk_ids.as_slice()
    }

    /// The hashes of the chunks appended so far, in order.
    pub fn chunk_hashes(&self) -> (r: &[String])
        ensures
            text_seq(r@) == self@.chunk_hashes,
    {
        self.entry.chunk_hashes.as_slice()
    }

    /// The latest record of the transaction.
    pub fn entry(&self) -> (r: &WalEntry)
        ensures
            r@ == self@,
    {
        &self.entry
    }

    /// Takes `snapshot`, a record of this transaction that the log now
    /// holds, as its latest record.
    pub fn adopt(&mut self, snapshot: WalEntry)
        ensures
            final(self)@ == snapshot@,
    {
        self.entry = snapshot;
    }
}

/// What the log holds about transactions, over character sequences.
pub ghost struct WalStateView {
    pub active: Set<Seq<char>>,
    pub finalized: Set<Seq<char>>,
    pub requires_repair: bool,
}

/// Why a transaction may not begin, if it may not.
pub open spec fn begin_refusal(v: WalStateView, tx: Seq<char>, path: Seq<char>) -> Option<Seq<char>> {
    if v.requires_repair {
        Some("wal requires repair before mutation"@)
    } else if tx.len() == 0 {
        Some("transaction id must be non-empty"@)
    } else if tx.contains('\0') {
        Some("transaction id must not contain NUL bytes"@)
    } else if path.len() == 0 {
        Some("file path must be non-empty"@)
    } else if path[0] != '/' {
        Some("file path must be absolute"@)
    } else if path.contains('\0') {
        Some("file path must not contain NUL bytes"@)
    } else if v.finalized.contains(tx) {
        Some("transaction already finalized"@)
    } else if v.active.contains(tx) {
        Some("transaction already active"@)
    } else {
        None
    }
}

/// Why a chunk may not be appended to a transaction, if it may not.
pub open spec fn chunk_refusal(
    v: WalStateView,
    t: EntryView,
    chunk_id: Seq<char>,
    chunk_hash: Seq<char>,
) -> Option<Seq<char>> {
    if !v.active.contains(t.transaction_id) {
        Some("transaction is not active"@)
    } else if t.operation != OperationType::Write {
        Some("append_chunk is only valid for write transactions"@)
    } else if chunk_id.len() == 0 || chunk_hash.len() == 0 {
        Some("chunk id/hash must be non-empty"@)
    } else if chunk_id != chunk_hash {
        Some("chunk id/hash mismatch"@)
    } else {
        None
    }
}

/// The status that the last record of `tx` in `entries` carries.
pub open spec fn last_status(entries: Seq<EntryView>, tx: Seq<char>) -> Option<TxStatus>
    decreases entries.len(),
{
    if entries.len() == 0 {
        None
    } else if entries.last().transaction_id == tx {
        Some(entries.last().status)
    } else {
        last_status(entries.drop_last(), tx)
    }
}

/// The views of a list of records.
pub open spec fn entry_views(v: Seq<WalEntry>) -> Seq<EntryView> {
    v.map_values(|e: WalEntry| e@)
}

/// The text of a transaction id: `tx-`, the time in milliseconds, `-`, and
/// a counter.
pub open spec fn transaction_id_text(millis: u128, counter: u64) -> Seq<char> {
    "tx-"@ + decimal(millis as nat) + "-"@ + decimal(counter as nat)
}

/// Transaction ids name their clock reading and counter unambiguously:
/// two ids are equal only for the same reading and the same counter, so a
/// counter that never repeats gives ids that never repeat.
pub proof fn law_transaction_ids_are_distinct(m1: u128, c1: u64, m2: u128, c2: u64)
    ensures
        transaction_id_text(m1, c1) == transaction_id_text(m2, c2) ==> m1 == m2 && c1 == c2,
{
    reveal_strlit("tx-");
    reveal_strlit("-");
    crate::encoding::lemma_decimal_digits(m1 as nat);
    crate::encoding::lemma_decimal_digits(m2 as nat);
    crate::encoding::lemma_decimal_digits(c1 as nat);
    crate::encoding::lemma_decimal_digits(c2 as nat);
    let a = decimal(m1 as nat);
    let b = decimal(m2 as nat);
    let x = decimal(c1 as nat);
    let y = decimal(c2 as nat);
    let s1 = transaction_id_text(m1, c1);
    let s2 = transaction_id_text(m2, c2);
    if s1 == s2 {
        assert(s1 =~= "tx-"@ + a + "-"@ + x);
        assert(s2 =~= "tx-"@ + b + "-"@ + y);
        if a.len() < b.len() {
            assert(s1[3 + a.len() as int] == '-');
            assert(s2[3 + a.len() as int] == b[a.len() as int]);
            assert(crate::encoding::is_digit(b[a.len() as int]));
        } else if b.len() < a.len() {
            assert(s2[3 + b.len() as int] == '-');
            assert(s1[3 + b.len() as int] == a[b.len() as int]);
            assert(crate::encoding::is_digit(a[b.len() as int]));
        }
        assert(a =~= s1.subrange(3, 3 + a.len() as int));
        assert(b =~= s2.subrange(3, 3 + b.len() as int));
        assert(x =~= s1.skip(4 + a.len() as int));
        assert(y =~= s2.skip(4 + b.len() as int));
    }
}

/// The text of a transaction id.
pub fn format_transaction_id(millis: u128, counter: u64) -> (id: String)
    ensures
        id@ == transaction_id_text(millis, counter),
{
    String::from_str("tx-").concat(render_u128(millis).as_str()).concat("-").concat(
        render_u64(counter).as_str(),
    )
}

/// The transaction bookkeeping of a log: the ids open, the ids closed,
/// whether a damaged tail must be repaired before any write, and the
/// counters that number records and name transactions.
pub struct WalState {
    active: StrSet,
    finalized: StrSet,
    requires_repair: bool,
    next_sequence: u64,
    next_transaction: u64,
}

impl WalState {
    #[verifier::type_invariant]
    spec fn inv(self) -> bool {
        &&& self.active.wf()
        &&& self.finalized.wf()
        &&& self.active@.disjoint(self.finalized@)
    }

    /// The bookkeeping over character sequences.
    pub closed spec fn view(&self) -> WalStateView {
        WalStateView {
            active: self.active@,
            finalized: self.finalized@,
            requires_repair: self.requires_repair,
        }
    }

    /// The sequence number the next record gets.
    pub closed spec fn next_sequence(&self) -> u64 {
        self.next_sequence
    }

    /// The counter the next transaction id carries.
    pub closed spec fn next_transaction(&self) -> u64 {
        self.next_transaction
    }

    /// No id is both open and closed.
    pub fn check_disjoint(&self)
        ensures
            self@.active.disjoint(self@.finalized),
    {
        proof {
            use_type_invariant(self);
        }
    }

    /// The bookkeeping of a log whose records, read back in order, are
    /// `entries`: an id is open when its last record is pending and closed
    /// when it is committed or aborted. `damaged_tail` tells that reading
    /// stopped at a damaged record.
    pub fn from_entries(entries: &[WalEntry], damaged_tail: bool) -> (s: Self)
        ensures
            forall|tx: Seq<char>| #[trigger] s@.active.contains(tx) <==> last_status(
                entry_views(entries@),
                tx,
            ) == Some(TxStatus::Pending),
            forall|tx: Seq<char>| #[trigger] s@.finalized.contains(tx) <==> (last_status(
                entry_views(entries@),
                tx,
            ) matches Some(st) && st != TxStatus::Pending),
            s@.requires_repair == damaged_tail,
            s.next_sequence() == sequence_after(entry_views(entries@)),
            s.next_transaction() == 1,
    {
        let mut active = StrSet::new();
        let mut finalized = StrSet::new();
        let mut top: u64 = 0;
        let mut i: usize = 0;
        while i < entries.len()
            invariant
                i <= entries@.len(),
                active.wf(),
                finalized.wf(),
                forall|tx: Seq<char>| #[trigger] active@.contains(tx) <==> last_status(
                    entry_views(entries@.subrange(0, i as int)),
                    tx,
                ) == Some(TxStatus::Pending),
                forall|tx: Seq<char>| #[trigger] finalized@.contains(tx) <==> (last_status(
                    entry_views(entries@.subrange(0, i as int)),
                    tx,
                ) matches Some(st) && st != TxStatus::Pending),
                top == max_sequence(entry_views(entries@.subrange(0, i as int))),
            decreases entries@.len() - i,
        {
            let e = &entries[i];
            let ghost pre = entry_views(entries@.subrange(0, i as int));
            let ghost post = entry_views(entries@.subrange(0, i + 1));
            proof {
                assert(post.drop_last() =~= pre);
                assert(post.last() == e@);
            }
            if e.status == TxStatus::Pending {
                finalized.remove(e.transaction_id.as_str());
                active.insert(e.transaction_id.clone());
            } else {
                active.remove(e.transaction_id.as_str());
                finalized.insert(e.transaction_id.clone());
            }
            proof {
                assert(entry_views(entries@.subrange(0, i + 1)).drop_last() =~= entry_views(
                    entries@.subrange(0, i as int),
                ));
            }
            if entries[i].sequence > top {
                top = entries[i].sequence;
            }
            i = i + 1;
        }
        proof {
            assert(entries@.subrange(0, entries@.len() as int) =~= entries@);
            assert(active@.disjoint(finalized@));
        }
        let next = if top == u64::MAX {
            top
        } else {
            top + 1
        };
        WalState {
            active,
            finalized,
            requires_repair: damaged_tail,
            next_sequence: next,
            next_transaction: 1,
        }
    }

    /// Refuses any write while the log's tail awaits repair.
    pub fn ensure_mutations_allowed(&self) -> (r: Result<(), WalError>)
        ensures
            r is Ok <==> !self@.requires_repair,
            r matches Err(e) ==> invalid(e, "wal requires repair before mutation"@),
    {
        if self.requires_repair {
            return Err(invalid_entry("wal requires repair before mutation"));
        }
        Ok(())
    }

    /// Whether the tail must be repaired before any write.
    pub fn requires_repair(&self) -> (r: bool)
        ensures
            r == self@.requires_repair,
    {
        self.requires_repair
    }

    /// Records that the tail was repaired.
    pub fn mark_repaired(&mut self)
        ensures
            final(self)@ == (WalStateView { requires_repair: false, ..old(self)@ }),
            final(self).next_sequence() == old(self).next_sequence(),
            final(self).next_transaction() == old(self).next_transaction(),
    {
        proof {
            use_type_invariant(&*self);
        }
        self.requires_repair = false;
    }

    /// Takes the next record sequence number; the counter wraps.
    pub fn take_sequence(&mut self) -> (n: u64)
        ensures
            n == old(self).next_sequence(),
            final(self).next_sequence() == (if n == u64::MAX { 0 } else { n + 1 }),
            final(self).next_transaction() == old(self).next_transaction(),
            final(self)@ == old(self)@,
    {
        proof {
            use_type_invariant(&*self);
        }
        let n = self.next_sequence;
        self.next_sequence = self.next_sequence.wrapping_add(1);
        n
    }

    /// A fresh transaction id, `tx-<millis>-<counter>`; the counter wraps.
    pub fn new_transaction_id(&mut self, millis: u128) -> (id: String)
        ensures
            id@ == transaction_id_text(millis, old(self).next_transaction()),
            final(self).next_transaction() == (if old(self).next_transaction() == u64::MAX {
                0
            } else {
                old(self).next_transaction() + 1
            }),
            final(self).next_sequence() == old(self).next_sequence(),
            final(self)@ == old(self)@,
    {
        proof {
            use_type_invariant(&*self);
        }
        let counter = self.next_transaction;
        self.next_transaction = self.next_transaction.wrapping_add(1);
        format_transaction_id(millis, counter)
    }

    /// Whether `transaction_id` is open.
    pub fn ensure_active(&self, transaction_id: &str) -> (r: Result<(), WalError>)
        ensures
            r is Ok <==> self@.active.contains(transaction_id@),
            r matches Err(e) ==> invalid(e, "transaction is not active"@),
    {
        proof {
            use_type_invariant(self);
        }
        if self.active.contains(transaction_id) {
            return Ok(());
        }
        Err(invalid_entry("transaction is not active"))
    }

    /// Opens a transaction on `file_path` under `transaction_id`, unless
    /// the log or the id or the path forbids it; only an opened id is
    /// reserved. The pending record returned is the first the log must hold.
    pub fn begin_transaction_with_id(
        &mut self,
        transaction_id: String,
        file_path: &str,
        operation: OperationType,
        expected_version: u64,
    ) -> (r: Result<WalTransaction, WalError>)
        ensures
            match begin_refusal(old(self)@, transaction_id@, file_path@) {
                Some(m) => r matches Err(e) && invalid(e, m) && final(self)@ == old(self)@
                    && final(self).next_sequence() == old(self).next_sequence(),
                None => r matches Ok(t) && final(self)@ == (WalStateView {
                    active: old(self)@.active.insert(transaction_id@),
                    ..old(self)@
                }) && t@.transaction_id == transaction_id@ && t@.file_path == file_path@
                    && t@.operation == operation && t@.expected_version == expected_version
                    && t@.status == TxStatus::Pending && t@.chunk_ids.len() == 0
                    && t@.chunk_hashes.len() == 0 && t@.sequence == old(self).next_sequence()
                    && final(self).next_sequence() == (if t@.sequence == u64::MAX {
                    0
                } else {
                    t@.sequence + 1
                }),
            },
            final(self).next_transaction() == old(self).next_transaction(),
    {
        proof {
            use_type_invariant(&*self);
        }
        self.ensure_mutations_allowed()?;
        let tx = transaction_id.as_str();
        if tx.unicode_len() == 0 {
            return Err(invalid_entry("transaction id must be non-empty"));
        }
        if contains_char(tx, '\0') {
            return Err(invalid_entry("transaction id must not contain NUL bytes"));
        }
        if file_path.unicode_len() == 0 {
            return Err(invalid_entry("file path must be non-empty"));
        }
        if file_path.get_char(0) != '/' {
            return Err(invalid_entry("file path must be absolute"));
        }
        if contains_char(file_path, '\0') {
            return Err(invalid_entry("file path must not contain NUL bytes"));
        }
        if self.finalized.contains(tx) {
            return Err(invalid_entry("transaction already finalized"));
        }
        if self.active.contains(tx) {
            return Err(invalid_entry("transaction already active"));
        }
        let mut active = StrSet::new();
        std::mem::swap(&mut active, &mut self.active);
        active.insert(transaction_id.clone());
        self.active = active;
        let sequence = self.take_sequence();
        let entry = WalEntry::new_pending(
            transaction_id,
            owned(file_path),
            operation,
            expected_version,
            sequence,
            now_millis(),
        );
        Ok(WalTransaction { entry })
    }

    /// Gives back the id of a transaction whose first record the log could
    /// not hold.
    pub fn release(&mut self, transaction_id: &str)
        ensures
            final(self)@ == (WalStateView {
                active: old(self)@.active.remove(transaction_id@),
                ..old(self)@
            }),
            final(self).next_sequence() == old(self).next_sequence(),
            final(self).next_transaction() == old(self).next_transaction(),
    {
        proof {
            use_type_invariant(&*self);
        }
        let mut active = StrSet::new();
        std::mem::swap(&mut active, &mut self.active);
        active.remove(transaction_id);
        self.active = active;
    }

    /// Closes `transaction_id`: it is no longer open and may never begin
    /// again.
    pub fn mark_transaction_finalized(&mut self, transaction_id: &str)
        ensures
            final(self)@ == (WalStateView {
                active: old(self)@.active.remove(transaction_id@),
                finalized: old(self)@.finalized.insert(transaction_id@),
                ..old(self)@
            }),
            final(self).next_sequence() == old(self).next_sequence(),
            final(self).next_transaction() == old(self).next_transaction(),
    {
        proof {
            use_type_invariant(&*self);
        }
        let mut active = StrSet::new();
        std::mem::swap(&mut active, &mut self.active);
        active.remove(transaction_id);
        let mut finalized = StrSet::new();
        std::mem::swap(&mut finalized, &mut self.finalized);
        finalized.insert(owned(transaction_id));
        self.active = active;
        self.finalized = finalized;
    }

    /// Adds a chunk to an open write transaction. On success the chunk is
    /// added to `txn` and the pending record returned is the one the log
    /// must hold next; a refusal changes nothing.
    pub fn append_chunk(
        &mut self,
        txn: &mut WalTransaction,
        chunk_id: String,
        chunk_hash: String,
    ) -> (r: Result<WalEntry, WalError>)
        ensures
            final(self)@ == old(self)@,
            final(self).next_transaction() == old(self).next_transaction(),
            match chunk_refusal(old(self)@, old(txn)@, chunk_id@, chunk_hash@) {
                Some(m) => r matches Err(e) && invalid(e, m) && final(txn)@ == old(txn)@
                    && final(self).next_sequence() == old(self).next_sequence(),
                None => r matches Ok(snap) && final(txn)@ == (EntryView {
                    chunk_ids: old(txn)@.chunk_ids.push(chunk_id@),
                    chunk_hashes: old(txn)@.chunk_hashes.push(chunk_hash@),
                    ..old(txn)@
                }) && snap@ == (EntryView {
                    status: TxStatus::Pending,
                    sequence: old(self).next_sequence(),
                    timestamp_millis: snap@.timestamp_millis,
                    ..final(txn)@
                }),
            },
    {
        self.ensure_active(txn.transaction_id())?;
        if txn.entry.operation != OperationType::Write {
            return Err(invalid_entry("append_chunk is only valid for write transactions"));
        }
        if chunk_id.as_str().unicode_len() == 0 || chunk_hash.as_str().unicode_len() == 0 {
            return Err(invalid_entry("chunk id/hash must be non-empty"));
        }
        if !str_equal(chunk_id.as_str(), chunk_hash.as_str()) {
            return Err(invalid_entry("chunk id/hash mismatch"));
        }
        let ghost ids = txn.entry.chunk_ids@;
        let ghost hashes = txn.entry.chunk_hashes@;
        txn.entry.chunk_ids.push(chunk_id);
        txn.entry.chunk_hashes.push(chunk_hash);
        assert(text_seq(txn.entry.chunk_ids@) =~= text_seq(ids).push(chunk_id@));
        assert(text_seq(txn.entry.chunk_hashes@) =~= text_seq(hashes).push(chunk_hash@));
        let sequence = self.take_sequence();
        Ok(txn.entry.with_status(TxStatus::Pending, sequence, now_millis()))
    }

    /// The record that commits an open transaction; the log must hold it
    /// before the transaction is closed.
    pub fn commit_record(&mut self, txn: &WalTransaction) -> (r: Result<WalEntry, WalError>)
        ensures
            final(self)@ == old(self)@,
            final(self).next_transaction() == old(self).next_transaction(),
            old(self)@.active.contains(txn@.transaction_id) ==> (r matches Ok(e) && e@ == (
            EntryView {
                status: TxStatus::Committed,
                sequence: old(self).next_sequence(),
                timestamp_millis: e@.timestamp_millis,
                ..txn@
            })),
            !old(self)@.active.contains(txn@.transaction_id) ==> (r matches Err(e) && invalid(
                e,
                "transaction is not active"@,
            ) && final(self).next_sequence() == old(self).next_sequence()),
    {
        self.ensure_active(txn.transaction_id())?;
        let sequence = self.take_sequence();
        Ok(txn.entry.with_status(TxStatus::Committed, sequence, now_millis()))
    }

    /// The record that aborts an open transaction; the log must hold it
    /// before the transaction is closed.
    pub fn abort_record(&mut self, txn: &WalTransaction) -> (r: Result<WalEntry, WalError>)
        ensures
            final(self)@ == old(self)@,
            final(self).next_transaction() == old(self).next_transaction(),
            old(self)@.active.contains(txn@.transaction_id) ==> (r matches Ok(e) && e@ == (
            EntryView {
                status: TxStatus::Aborted,
                sequence: old(self).next_sequence(),
                timestamp_millis: e@.timestamp_millis,
                ..txn@
            })),
            !old(self)@.active.contains(txn@.transaction_id) ==> (r matches Err(e) && invalid(
                e,
                "transaction is not active"@,
            ) && final(self).next_sequence() == old(self).next_sequence()),
    {
        self.ensure_active(txn.transaction_id())?;
        let sequence = self.take_sequence();
        Ok(txn.entry.with_status(TxStatus::Aborted, sequence, now_millis()))
    }
}

/// A closed transaction id can never be opened again.
pub proof fn law_finalized_id_never_reopens(v: WalStateView, tx: Seq<char>, path: Seq<char>)
    requires
        v.finalized.contains(tx),
    ensures
        begin_refusal(v, tx, path) is Some,
{
}

/// Once a transaction is finalized (by its commit or abort record), no
/// further record joins it: a second commit or abort, another chunk, and a
/// new transaction under the same id are all refused.
pub proof fn law_finished_transaction_stays_closed(
    v: WalStateView,
    t: EntryView,
    path: Seq<char>,
    chunk_id: Seq<char>,
    chunk_hash: Seq<char>,
)
    ensures
        ({
            let w = WalStateView {
                active: v.active.remove(t.transaction_id),
                finalized: v.finalized.insert(t.transaction_id),
                ..v
            };
            &&& !w.active.contains(t.transaction_id)
            &&& chunk_refusal(w, t, chunk_id, chunk_hash) == Some("transaction is not active"@)
            &&& begin_refusal(w, t.transaction_id, path) is Some
        }),
{
}

/// An id that is open cannot be opened a second time.
pub proof fn law_active_id_is_not_reopened(v: WalStateView, tx: Seq<char>, path: Seq<char>)
    requires
        v.active.contains(tx),
    ensures
        begin_refusal(v, tx, path) is Some,
{
}

} // verus!
