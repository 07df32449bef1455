//! The order of the steps of a write and of a delete. A write streams its
//! chunks (each stored, then logged), commits the metadata, then commits
//! the log record; any failure before the metadata commit aborts the log
//! record. A delete checks the file is visible, logs its intent, tombstones
//! the record, then commits the log record; only then are the staging slot,
//! the cache and the garbage collector told. A refused tombstone aborts the
//! log record and is retried or reported as `delete_retry` decides.
//!
//! Each step function takes the state and what the last action came back
//! with, and gives the next state and the next action; the caller performs
//! the actions.
use crate::recovery::commit_failure;
use crate::service::{delete_retry, CoreError, DeleteRetry, MAX_DELETE_CAS_RETRIES};
use crate::text::occurs_at;
use crate::wal::{invalid_entry, WalError};
use vstd::prelude::*;

verus! {

/// Where a write stands.
#[derive(Debug)]
pub enum WriteState {
    /// Reading the stream; `chunks` chunks are stored and logged.
    Streaming { chunks: usize },
    /// A chunk was read; the chunk store is keeping it.
    Storing { chunks: usize },
    /// The chunk is stored; the log is recording it.
    Logging { chunks: usize },
    /// The stream has ended; the metadata store is committing the write.
    Committing { chunks: usize },
    /// The metadata is committed; the log is recording the commit.
    Finishing { chunks: usize },
    /// A step failed with `error`; the log is recording the abort.
    Aborting { error: WalError },
    /// The write is committed.
    Done { chunks: usize },
    /// The write has failed.
    Failed,
}

/// What the last action of a write came back with.
#[derive(Debug)]
pub enum WriteEvent {
    /// The stream gave `bytes` bytes (0 at its end).
    Read { bytes: usize },
    ReadFailed(WalError),
    Stored,
    StoreFailed(String),
    Logged,
    LogFailed(WalError),
    MetadataCommitted,
    MetadataRefused(String),
    WalCommitted,
    WalCommitFailed(WalError),
    Aborted,
    AbortFailed(WalError),
}

/// What a write does next.
#[derive(Debug)]
pub enum WriteAction {
    /// Read the next chunk of the stream.
    ReadNext,
    /// Store the chunk just read.
    StoreChunk,
    /// Log the chunk just stored.
    LogChunk,
    /// Commit the logged chunks to the metadata store.
    CommitMetadata,
    /// Append the log's commit record.
    CommitWal,
    /// Append the log's abort record.
    Abort,
    /// Report the committed write of `chunks` chunks.
    Succeed { chunks: usize },
    /// Report the failure.
    Fail(WalError),
}

/// The error a refused metadata commit is reported as.
pub open spec fn commit_failure_of(m: String) -> WalError {
    if exists|i: int| occurs_at(m@, "cas conflict"@, i) {
        WalError::Conflict
    } else {
        WalError::Metadata(m)
    }
}

/// The next state and action of a write; `None` for an event that does not
/// answer the state's action.
pub open spec fn write_next(state: WriteState, event: WriteEvent) -> Option<(WriteState, WriteAction)> {
    match (state, event) {
        (WriteState::Streaming { chunks }, WriteEvent::Read { bytes }) => if bytes == 0 {
            Some((WriteState::Committing { chunks }, WriteAction::CommitMetadata))
        } else {
            Some((WriteState::Storing { chunks }, WriteAction::StoreChunk))
        },
        (WriteState::Streaming { .. }, WriteEvent::ReadFailed(e)) => Some(
            (WriteState::Aborting { error: e }, WriteAction::Abort),
        ),
        (WriteState::Storing { chunks }, WriteEvent::Stored) => Some(
            (WriteState::Logging { chunks }, WriteAction::LogChunk),
        ),
        (WriteState::Storing { .. }, WriteEvent::StoreFailed(m)) => Some(
            (WriteState::Aborting { error: WalError::ChunkStore(m) }, WriteAction::Abort),
        ),
        (WriteState::Logging { chunks }, WriteEvent::Logged) => Some(
            (
                WriteState::Streaming {
                    chunks: if chunks == usize::MAX {
                        chunks
                    } else {
                        (chunks + 1) as usize
                    },
                },
                WriteAction::ReadNext,
            ),
        ),
        (WriteState::Logging { .. }, WriteEvent::LogFailed(e)) => Some(
            (WriteState::Aborting { error: e }, WriteAction::Abort),
        ),
        (WriteState::Committing { chunks }, WriteEvent::MetadataCommitted) => Some(
            (WriteState::Finishing { chunks }, WriteAction::CommitWal),
        ),
        (WriteState::Committing { .. }, WriteEvent::MetadataRefused(m)) => Some(
            (WriteState::Aborting { error: commit_failure_of(m) }, WriteAction::Abort),
        ),
        (WriteState::Finishing { chunks }, WriteEvent::WalCommitted) => Some(
            (WriteState::Done { chunks }, WriteAction::Succeed { chunks }),
        ),
        (WriteState::Finishing { .. }, WriteEvent::WalCommitFailed(e)) => Some(
            (WriteState::Failed, WriteAction::Fail(e)),
        ),
        (WriteState::Aborting { error }, WriteEvent::Aborted) => Some(
            (WriteState::Failed, WriteAction::Fail(error)),
        ),
        (WriteState::Aborting { .. }, WriteEvent::AbortFailed(e)) => Some(
            (WriteState::Failed, WriteAction::Fail(e)),
        ),
        _ => None,
    }
}

/// The event reports a failed step.
pub open spec fn is_write_failure(event: WriteEvent) -> bool {
    ||| event is ReadFailed
    ||| event is StoreFailed
    ||| event is LogFailed
    ||| event is MetadataRefused
    ||| event is WalCommitFailed
    ||| event is AbortFailed
}

/// The write is still before its metadata commit.
pub open spec fn before_metadata_commit(state: WriteState) -> bool {
    ||| state is Streaming
    ||| state is Storing
    ||| state is Logging
    ||| state is Committing
}

/// The state a write starts in, once its log record is begun.
pub fn write_start() -> (s: WriteState)
    ensures
        s == (WriteState::Streaming { chunks: 0 }),
{
    WriteState::Streaming { chunks: 0 }
}

/// One step of a write: from the state and what the last action came back
/// with, the next state and action. An event that does not answer the
/// state's action fails the write.
pub fn write_step(state: WriteState, event: WriteEvent) -> (r: (WriteState, WriteAction))
    ensures
        match write_next(state, event) {
            Some(next) => r == next,
            None => r.0 is Failed && (r.1 matches WriteAction::Fail(e) && e is InvalidEntry),
        },
        r.1 is StoreChunk ==> state is Streaming && event is Read,
        r.1 is LogChunk ==> state is Storing && event is Stored,
        r.1 is CommitMetadata ==> state is Streaming && event == (WriteEvent::Read { bytes: 0 }),
        r.1 is CommitWal ==> state is Committing && event is MetadataCommitted,
        r.1 is Succeed ==> state is Finishing && event is WalCommitted,
        write_next(state, event) is Some && before_metadata_commit(state) && is_write_failure(event)
            ==> r.1 is Abort,
{
    match (state, event) {
        (WriteState::Streaming { chunks }, WriteEvent::Read { bytes }) => if bytes == 0 {
            (WriteState::Committing { chunks }, WriteAction::CommitMetadata)
        } else {
            (WriteState::Storing { chunks }, WriteAction::StoreChunk)
        },
        (WriteState::Streaming { .. }, WriteEvent::ReadFailed(e)) => (
            WriteState::Aborting { error: e },
            WriteAction::Abort,
        ),
        (WriteState::Storing { chunks }, WriteEvent::Stored) => (
            WriteState::Logging { chunks },
            WriteAction::LogChunk,
        ),
        (WriteState::Storing { .. }, WriteEvent::StoreFailed(m)) => (
            WriteState::Aborting { error: WalError::ChunkStore(m) },
            WriteAction::Abort,
        ),
        (WriteState::Logging { chunks }, WriteEvent::Logged) => {
            let next = if chunks == usize::MAX {
                chunks
            } else {
                chunks + 1
            };
            (WriteState::Streaming { chunks: next }, WriteAction::ReadNext)
        },
        (WriteState::Logging { .. }, WriteEvent::LogFailed(e)) => (
            WriteState::Aborting { error: e },
            WriteAction::Abort,
        ),
        (WriteState::Committing { chunks }, WriteEvent::MetadataCommitted) => (
            WriteState::Finishing { chunks },
            WriteAction::CommitWal,
        ),
        (WriteState::Committing { .. }, WriteEvent::MetadataRefused(m)) => (
            WriteState::Aborting { error: commit_failure(m) },
            WriteAction::Abort,
        ),
        (WriteState::Finishing { chunks }, WriteEvent::WalCommitted) => (
            WriteState::Done { chunks },
            WriteAction::Succeed { chunks },
        ),
        (WriteState::Finishing { .. }, WriteEvent::WalCommitFailed(e)) => (
            WriteState::Failed,
            WriteAction::Fail(e),
        ),
        (WriteState::Aborting { error }, WriteEvent::Aborted) => (
            WriteState::Failed,
            WriteAction::Fail(error),
        ),
        (WriteState::Aborting { .. }, WriteEvent::AbortFailed(e)) => (
            WriteState::Failed,
            WriteAction::Fail(e),
        ),
        _ => (WriteState::Failed, WriteAction::Fail(invalid_entry("unexpected write event"))),
    }
}

/// The state and actions of a write after the events `events`, from its
/// start; `None` once an event did not answer the state's action.
pub open spec fn write_run(events: Seq<WriteEvent>) -> Option<(WriteState, Seq<WriteAction>)>
    decreases events.len(),
{
    if events.len() == 0 {
        Some((WriteState::Streaming { chunks: 0 }, Seq::empty()))
    } else {
        match write_run(events.drop_last()) {
            Some((s, acts)) => match write_next(s, events.last()) {
                Some((s2, a)) => Some((s2, acts.push(a))),
                None => None,
            },
            None => None,
        }
    }
}

/// How many of the actions satisfy `p`.
pub open spec fn count_actions(acts: Seq<WriteAction>, p: spec_fn(WriteAction) -> bool) -> nat
    decreases acts.len(),
{
    if acts.len() == 0 {
        0
    } else {
        count_actions(acts.drop_last(), p) + if p(acts.last()) {
            1nat
        } else {
            0nat
        }
    }
}

/// Chunks asked to be stored.
pub open spec fn stores(acts: Seq<WriteAction>) -> nat {
    count_actions(acts, |a: WriteAction| a is StoreChunk)
}

/// Chunks asked to be logged.
pub open spec fn logs(acts: Seq<WriteAction>) -> nat {
    count_actions(acts, |a: WriteAction| a is LogChunk)
}

/// Metadata commits asked for.
pub open spec fn metadata_commits(acts: Seq<WriteAction>) -> nat {
    count_actions(acts, |a: WriteAction| a is CommitMetadata)
}

/// Log commits asked for.
pub open spec fn wal_commits(acts: Seq<WriteAction>) -> nat {
    count_actions(acts, |a: WriteAction| a is CommitWal)
}

/// What the actions so far say of a write in state `s`.
pub open spec fn write_history(s: WriteState, acts: Seq<WriteAction>) -> bool {
    match s {
        WriteState::Streaming { chunks } => stores(acts) == chunks && logs(acts) == chunks
            && metadata_commits(acts) == 0 && wal_commits(acts) == 0,
        WriteState::Storing { chunks } => stores(acts) == chunks + 1 && logs(acts) == chunks
            && metadata_commits(acts) == 0 && wal_commits(acts) == 0,
        WriteState::Logging { chunks } => stores(acts) == chunks + 1 && logs(acts) == chunks + 1
            && metadata_commits(acts) == 0 && wal_commits(acts) == 0,
        WriteState::Committing { chunks } => stores(acts) == chunks && logs(acts) == chunks
            && metadata_commits(acts) == 1 && wal_commits(acts) == 0,
        WriteState::Finishing { chunks } => stores(acts) == chunks && logs(acts) == chunks
            && metadata_commits(acts) == 1 && wal_commits(acts) == 1,
        WriteState::Done { chunks } => stores(acts) == chunks && logs(acts) == chunks
            && metadata_commits(acts) == 1 && wal_commits(acts) == 1,
        WriteState::Aborting { .. } => wal_commits(acts) == 0,
        WriteState::Failed => true,
    }
}

/// The order of a write, over any run of events from its start: the
/// metadata commit is asked only once the stream has ended and every chunk
/// stored has been logged; the log commit only after the metadata commit
/// succeeded, once; a write that aborts never asked for the log commit; and
/// success is reported only after the log commit.
pub proof fn law_write_order(events: Seq<WriteEvent>)
    requires
        events.len() < usize::MAX,
    ensures
        write_run(events) matches Some((s, acts)) ==> write_history(s, acts) && (s is Committing
            ==> acts.last() is CommitMetadata) && (s is Done ==> acts.last() is Succeed
            && acts[acts.len() - 2] is CommitWal),
        write_run(events) matches Some((s, acts)) ==> (s matches WriteState::Streaming { chunks }
            && chunks <= events.len()) || (s matches WriteState::Storing { chunks } && chunks
            < events.len()) || (s matches WriteState::Logging { chunks } && chunks < events.len())
            || !(s is Streaming || s is Storing || s is Logging),
    decreases events.len(),
{
    if events.len() > 0 {
        let p = events.drop_last();
        law_write_order(p);
        if let Some((s, acts)) = write_run(p) {
            let e = events.last();
            if let Some((s2, a)) = write_next(s, e) {
                let acts2 = acts.push(a);
                assert(acts2.drop_last() =~= acts);
                assert(acts2.last() == a);
                if s is Finishing {
                    assert(acts2[acts2.len() - 2] == acts.last());
                }
            }
        }
    }
}

/// Where a delete stands.
#[derive(Debug)]
pub enum DeleteState {
    /// The file's visibility is being read; the caller expects `expected`.
    Checking { expected: u64 },
    /// Attempt `attempt` is beginning its staging slot and log record.
    Beginning { attempt: usize, expected: u64 },
    /// The metadata store is tombstoning the record at version `expected`.
    Deleting { attempt: usize, expected: u64 },
    /// The record is tombstoned; the log is recording the commit.
    Committing,
    /// The tombstone was refused with `refusal`; the log is recording the abort.
    Aborting { attempt: usize, refusal: String },
    /// The abort is logged; the staging slot is being cleaned.
    CleaningSlot { attempt: usize, refusal: String },
    /// A retry waits `wait_ms` after reading the latest version.
    Refreshing { attempt: usize, wait_ms: u64 },
    /// The delete is committed and announced.
    Done,
    /// The delete has failed.
    Failed,
}

/// What the last action of a delete came back with.
#[derive(Debug)]
pub enum DeleteEvent {
    /// The visible version of the file, or why there is none.
    Looked(Result<u64, CoreError>),
    Begun,
    BeginFailed(CoreError),
    Deleted,
    Refused(String),
    WalCommitted,
    WalCommitFailed(WalError),
    Aborted,
    AbortFailed(WalError),
    SlotCleaned,
}

/// What a delete does next.
#[derive(Debug)]
pub enum DeleteAction {
    /// Read the visible version of the file.
    Look,
    /// Wait `wait_ms`, then begin the staging slot and the log record of a
    /// delete expecting `expected`.
    Begin { expected: u64, wait_ms: u64 },
    /// Tombstone the record at version `expected`.
    CommitDelete { expected: u64 },
    /// Append the log's commit record.
    CommitWal,
    /// Append the log's abort record.
    Abort,
    /// Clean the staging slot of the aborted attempt.
    CleanSlot,
    /// Clean up after the committed delete (staging slot, cache entries of
    /// the file, a garbage-collection scan) and report success.
    Finish,
    /// Report the failure.
    Fail(CoreError),
}

/// A refusal reports a version conflict.
pub open spec fn is_conflict(m: Seq<char>) -> bool {
    exists|i: int| occurs_at(m, "cas conflict"@, i)
}

/// What follows a refusal at attempt `attempt`: conflicts are retried with
/// a wait of 2^attempt milliseconds until the retries are spent, then
/// reported busy; other refusals fail the delete.
pub open spec fn retry_of(m: Seq<char>, attempt: nat) -> DeleteRetry {
    if is_conflict(m) && attempt < MAX_DELETE_CAS_RETRIES {
        DeleteRetry::RetryAfter(vstd::arithmetic::power2::pow2(attempt) as u64)
    } else if is_conflict(m) {
        DeleteRetry::Busy
    } else {
        DeleteRetry::Fail
    }
}

/// The next state and action of a delete; `None` for an event that does
/// not answer the state's action.
pub open spec fn delete_next(state: DeleteState, event: DeleteEvent) -> Option<(DeleteState, DeleteAction)> {
    match (state, event) {
        (DeleteState::Checking { expected }, DeleteEvent::Looked(found)) => match found {
            Ok(_) => Some(
                (
                    DeleteState::Beginning { attempt: 0, expected },
                    DeleteAction::Begin { expected, wait_ms: 0 },
                ),
            ),
            Err(e) => Some((DeleteState::Failed, DeleteAction::Fail(e))),
        },
        (DeleteState::Beginning { attempt, expected }, DeleteEvent::Begun) => Some(
            (DeleteState::Deleting { attempt, expected }, DeleteAction::CommitDelete { expected }),
        ),
        (DeleteState::Beginning { .. }, DeleteEvent::BeginFailed(e)) => Some(
            (DeleteState::Failed, DeleteAction::Fail(e)),
        ),
        (DeleteState::Deleting { .. }, DeleteEvent::Deleted) => Some(
            (DeleteState::Committing, DeleteAction::CommitWal),
        ),
        (DeleteState::Deleting { attempt, .. }, DeleteEvent::Refused(m)) => Some(
            (DeleteState::Aborting { attempt, refusal: m }, DeleteAction::Abort),
        ),
        (DeleteState::Committing, DeleteEvent::WalCommitted) => Some(
            (DeleteState::Done, DeleteAction::Finish),
        ),
        (DeleteState::Committing, DeleteEvent::WalCommitFailed(e)) => Some(
            (DeleteState::Failed, DeleteAction::Fail(CoreError::Wal(e))),
        ),
        (DeleteState::Aborting { attempt, refusal }, DeleteEvent::Aborted) => Some(
            (DeleteState::CleaningSlot { attempt, refusal }, DeleteAction::CleanSlot),
        ),
        (DeleteState::Aborting { .. }, DeleteEvent::AbortFailed(e)) => Some(
            (DeleteState::Failed, DeleteAction::Fail(CoreError::Wal(e))),
        ),
        (DeleteState::CleaningSlot { attempt, refusal }, DeleteEvent::SlotCleaned) => match retry_of(
            refusal@,
            attempt as nat,
        ) {
            DeleteRetry::RetryAfter(wait_ms) => Some(
                (DeleteState::Refreshing { attempt, wait_ms }, DeleteAction::Look),
            ),
            DeleteRetry::Busy => Some((DeleteState::Failed, DeleteAction::Fail(CoreError::Busy))),
            DeleteRetry::Fail => Some(
                (DeleteState::Failed, DeleteAction::Fail(CoreError::Metadata(refusal))),
            ),
        },
        (DeleteState::Refreshing { attempt, wait_ms }, DeleteEvent::Looked(found)) => match found {
            Ok(v) => Some(
                (
                    DeleteState::Beginning {
                        attempt: if attempt == usize::MAX {
                            attempt
                        } else {
                            (attempt + 1) as usize
                        },
                        expected: v,
                    },
                    DeleteAction::Begin { expected: v, wait_ms },
                ),
            ),
            Err(e) => Some((DeleteState::Failed, DeleteAction::Fail(e))),
        },
        _ => None,
    }
}

/// The state a delete expecting version `expected` starts in; its first
/// action is `Look`.
pub fn delete_start(expected: u64) -> (s: DeleteState)
    ensures
        s == (DeleteState::Checking { expected }),
{
    DeleteState::Checking { expected }
}

/// One step of a delete: from the state and what the last action came back
/// with, the next state and action. An event that does not answer the
/// state's action fails the delete.
pub fn delete_step(state: DeleteState, event: DeleteEvent) -> (r: (DeleteState, DeleteAction))
    ensures
        match delete_next(state, event) {
            Some(next) => r == next,
            None => r.0 is Failed && (r.1 matches DeleteAction::Fail(CoreError::Wal(e))
                && e is InvalidEntry),
        },
        r.1 is CommitDelete ==> state is Beginning && event is Begun,
        r.1 is CommitWal ==> state is Deleting && event is Deleted,
        r.1 is Finish ==> state is Committing && event is WalCommitted,
        r.1 is Abort ==> state is Deleting && event is Refused,
        state is Deleting && event is Refused ==> r.1 is Abort,
        r.1 is Begin ==> (state is Checking || state is Refreshing) && event is Looked,
{
    match (state, event) {
        (DeleteState::Checking { expected }, DeleteEvent::Looked(found)) => match found {
            Ok(_) => (
                DeleteState::Beginning { attempt: 0, expected },
                DeleteAction::Begin { expected, wait_ms: 0 },
            ),
            Err(e) => (DeleteState::Failed, DeleteAction::Fail(e)),
        },
        (DeleteState::Beginning { attempt, expected }, DeleteEvent::Begun) => (
            DeleteState::Deleting { attempt, expected },
            DeleteAction::CommitDelete { expected },
        ),
        (DeleteState::Beginning { .. }, DeleteEvent::BeginFailed(e)) => (
            DeleteState::Failed,
            DeleteAction::Fail(e),
        ),
        (DeleteState::Deleting { .. }, DeleteEvent::Deleted) => (
            DeleteState::Committing,
            DeleteAction::CommitWal,
        ),
        (DeleteState::Deleting { attempt, .. }, DeleteEvent::Refused(m)) => (
            DeleteState::Aborting { attempt, refusal: m },
            DeleteAction::Abort,
        ),
        (DeleteState::Committing, DeleteEvent::WalCommitted) => (
            DeleteState::Done,
            DeleteAction::Finish,
        ),
        (DeleteState::Committing, DeleteEvent::WalCommitFailed(e)) => (
            DeleteState::Failed,
            DeleteAction::Fail(CoreError::Wal(e)),
        ),
        (DeleteState::Aborting { attempt, refusal }, DeleteEvent::Aborted) => (
            DeleteState::CleaningSlot { attempt, refusal },
            DeleteAction::CleanSlot,
        ),
        (DeleteState::Aborting { .. }, DeleteEvent::AbortFailed(e)) => (
            DeleteState::Failed,
            DeleteAction::Fail(CoreError::Wal(e)),
        ),
        (DeleteState::CleaningSlot { attempt, refusal }, DeleteEvent::SlotCleaned) => {
            let decision = if attempt <= MAX_DELETE_CAS_RETRIES {
                delete_retry(refusal.as_str(), attempt)
            } else if crate::text::contains_text(refusal.as_str(), "cas conflict") {
                DeleteRetry::Busy
            } else {
                DeleteRetry::Fail
            };
            match decision {
                DeleteRetry::RetryAfter(wait_ms) => (
                    DeleteState::Refreshing { attempt, wait_ms },
                    DeleteAction::Look,
                ),
                DeleteRetry::Busy => (DeleteState::Failed, DeleteAction::Fail(CoreError::Busy)),
                DeleteRetry::Fail => (
                    DeleteState::Failed,
                    DeleteAction::Fail(CoreError::Metadata(refusal)),
                ),
            }
        },
        (DeleteState::Refreshing { attempt, wait_ms }, DeleteEvent::Looked(found)) => match found {
            Ok(v) => {
                let next = if attempt == usize::MAX {
                    attempt
                } else {
                    attempt + 1
                };
                (
                    DeleteState::Beginning { attempt: next, expected: v },
                    DeleteAction::Begin { expected: v, wait_ms },
                )
            },
            Err(e) => (DeleteState::Failed, DeleteAction::Fail(e)),
        },
        _ => (
            DeleteState::Failed,
            DeleteAction::Fail(CoreError::Wal(invalid_entry("unexpected delete event"))),
        ),
    }
}

} // verus!
