//! The on-disk framing of log records: a little-endian `u32` payload
//! length, the payload, and the payload's 32-byte BLAKE3 digest. Reading
//! a log splits its bytes into frames and finds where, if anywhere, the
//! bytes stop making sense; repair keeps the longest clean prefix when the
//! damage is confined to the tail.

use crate::encoding::{blake3_digest, digest};
use crate::wal::{invalid, invalid_entry, WalError};
use vstd::prelude::*;

verus! {

/// Bytes of the length prefix.
pub const LEN_SIZE: usize = 4;

/// Bytes of the digest that closes a frame.
pub const CHECKSUM_SIZE: usize = 32;

/// Largest payload a frame may carry: 128 MiB.
pub const MAX_WAL_PAYLOAD_BYTES: usize = 134217728;

/// The four little-endian bytes of `n`.
pub open spec fn le_bytes(n: nat) -> Seq<u8> {
    seq![
        (n % 256) as u8,
        ((n / 256) % 256) as u8,
        ((n / 65536) % 256) as u8,
        ((n / 16777216) % 256) as u8,
    ]
}

/// The number that four little-endian bytes spell.
pub open spec fn le_value(b: Seq<u8>) -> nat {
    (b[0] + b[1] * 256 + b[2] * 65536 + b[3] * 16777216) as nat
}

/// The frame that carries `payload`.
pub open spec fn frame_of(payload: Seq<u8>) -> Seq<u8> {
    le_bytes(payload.len()) + payload + blake3_digest(payload)
}

/// Where one well-formed frame lies.
#[derive(Debug, Clone, Copy, PartialEq, Eq, Structural)]
pub struct FrameSpan {
    pub start: usize,
    pub payload_start: usize,
    pub payload_end: usize,
    pub next: usize,
}

/// What makes a frame unreadable.
#[derive(Debug, Clone, Copy, PartialEq, Eq, Structural)]
pub enum FrameFault {
    /// The bytes end inside the frame.
    Truncated,
    /// The length prefix exceeds the largest payload.
    TooLarge,
    /// The digest does not match the payload.
    ChecksumMismatch,
}

/// What reading at one position finds.
#[derive(Debug, Clone, Copy, PartialEq, Eq, Structural)]
pub enum FrameRead {
    /// The position is the end of the bytes.
    End,
    /// A well-formed frame.
    Frame(FrameSpan),
    /// An unreadable frame, and the position a reader stands at after it.
    Fault(FrameFault, usize),
}

/// What reading at `at` finds in `log`.
pub open spec fn frame_at(log: Seq<u8>, at: int) -> FrameRead {
    if at + 4 > log.len() {
        if at == log.len() {
            FrameRead::End
        } else {
            FrameRead::Fault(FrameFault::Truncated, log.len() as usize)
        }
    } else {
        let n = le_value(log.subrange(at, at + 4));
        if n > MAX_WAL_PAYLOAD_BYTES {
            FrameRead::Fault(FrameFault::TooLarge, (at + 4) as usize)
        } else if at + 4 + n + 32 > log.len() {
            FrameRead::Fault(FrameFault::Truncated, log.len() as usize)
        } else if blake3_digest(log.subrange(at + 4, at + 4 + n)) != log.subrange(
            at + 4 + n,
            at + 4 + n + 32,
        ) {
            FrameRead::Fault(FrameFault::ChecksumMismatch, (at + 4 + n + 32) as usize)
        } else {
            FrameRead::Frame(
                FrameSpan {
                    start: at as usize,
                    payload_start: (at + 4) as usize,
                    payload_end: (at + 4 + n) as usize,
                    next: (at + 4 + n + 32) as usize,
                },
            )
        }
    }
}

/// How a read of a whole log ends.
#[derive(Debug, Clone, Copy, PartialEq, Eq, Structural)]
pub enum ScanStop {
    /// Every byte belongs to a well-formed frame.
    Clean,
    /// The frame at `start` is unreadable; a reader stands at `position`.
    Damaged { fault: FrameFault, start: usize, position: usize },
}

/// The frames read from `at` on, and how the reading ends.
pub open spec fn frames_from(log: Seq<u8>, at: int) -> (Seq<FrameSpan>, ScanStop)
    decreases log.len() - at,
{
    if at < 0 || at > log.len() {
        (Seq::empty(), ScanStop::Clean)
    } else {
        match frame_at(log, at) {
            FrameRead::End => (Seq::empty(), ScanStop::Clean),
            FrameRead::Fault(f, p) => (
                Seq::empty(),
                ScanStop::Damaged { fault: f, start: at as usize, position: p },
            ),
            FrameRead::Frame(sp) => if at < sp.next <= log.len() {
                let rest = frames_from(log, sp.next as int);
                (seq![sp] + rest.0, rest.1)
            } else {
                (Seq::empty(), ScanStop::Clean)
            },
        }
    }
}

/// The frames of a log in order, and how reading it ends.
pub struct LogScan {
    pub frames: Vec<FrameSpan>,
    pub stop: ScanStop,
}

/// Whether two byte strings are equal.
pub fn bytes_equal(a: &[u8], b: &[u8]) -> (r: bool)
    ensures
        r == (a@ == b@),
{
    if a.len() != b.len() {
        return false;
    }
    let mut i: usize = 0;
    while i < a.len()
        invariant
            a@.len() == b@.len(),
            i <= a@.len(),
            forall|j: int| 0 <= j < i ==> a@[j] == b@[j],
        decreases a@.len() - i,
    {
        if a[i] != b[i] {
            return false;
        }
        i = i + 1;
    }
    assert(a@ =~= b@);
    true
}

/// Four little-endian bytes spell back the number they were made from.
pub proof fn lemma_le_round_trip(n: nat)
    requires
        n < 4294967296,
    ensures
        le_value(le_bytes(n)) == n,
{
    let b = le_bytes(n);
    assert(b[0] == n % 256);
    assert(b[1] == (n / 256) % 256);
    assert(b[2] == (n / 65536) % 256);
    assert(b[3] == (n / 16777216) % 256);
    assert(n % 256 + ((n / 256) % 256) * 256 + ((n / 65536) % 256) * 65536 + ((n / 16777216)
        % 256) * 16777216 == n) by (nonlinear_arith)
        requires
            n < 4294967296,
    ;
}

/// The frame that carries `payload`, unless the payload is too large.
pub fn encode_frame(payload: &[u8]) -> (r: Result<Vec<u8>, WalError>)
    ensures
        payload@.len() <= MAX_WAL_PAYLOAD_BYTES ==> (r matches Ok(f) && f@ == frame_of(payload@)),
        payload@.len() > MAX_WAL_PAYLOAD_BYTES ==> (r matches Err(e) && invalid(
            e,
            "wal payload exceeds max size"@,
        )),
{
    let n = payload.len();
    if n > MAX_WAL_PAYLOAD_BYTES {
        return Err(invalid_entry("wal payload exceeds max size"));
    }
    let mut frame: Vec<u8> = Vec::new();
    frame.push((n % 256) as u8);
    frame.push(((n / 256) % 256) as u8);
    frame.push(((n / 65536) % 256) as u8);
    frame.push(((n / 16777216) % 256) as u8);
    assert(frame@ =~= le_bytes(n as nat));
    let mut i: usize = 0;
    while i < n
        invariant
            n == payload@.len(),
            i <= n,
            frame@ =~= le_bytes(n as nat) + payload@.subrange(0, i as int),
        decreases n - i,
    {
        frame.push(payload[i]);
        i = i + 1;
    }
    let d = digest(payload);
    let mut j: usize = 0;
    while j < 32
        invariant
            d@.len() == 32,
            j <= 32,
            frame@ =~= le_bytes(n as nat) + payload@ + d@.subrange(0, j as int),
        decreases 32 - j,
    {
        frame.push(d[j]);
        j = j + 1;
    }
    assert(d@.subrange(0, 32) =~= d@);
    Ok(frame)
}

/// What reading at `at` finds.
pub fn read_frame(log: &[u8], at: usize) -> (r: FrameRead)
    requires
        at <= log@.len(),
    ensures
        r == frame_at(log@, at as int),
{
    let len = log.len();
    if len - at < 4 {
        if at == len {
            return FrameRead::End;
        }
        return FrameRead::Fault(FrameFault::Truncated, len);
    }
    let n: usize = log[at] as usize + (log[at + 1] as usize) * 256 + (log[at + 2] as usize)
        * 65536 + (log[at + 3] as usize) * 16777216;
    assert(n == le_value(log@.subrange(at as int, at + 4)));
    if n > MAX_WAL_PAYLOAD_BYTES {
        return FrameRead::Fault(FrameFault::TooLarge, at + 4);
    }
    if len - at - 4 < n || len - at - 4 - n < 32 {
        return FrameRead::Fault(FrameFault::Truncated, len);
    }
    let payload = vstd::slice::slice_subrange(log, at + 4, at + 4 + n);
    let stored = vstd::slice::slice_subrange(log, at + 4 + n, at + 4 + n + 32);
    let expected = digest(payload);
    if !bytes_equal(expected.as_slice(), stored) {
        return FrameRead::Fault(FrameFault::ChecksumMismatch, at + 4 + n + 32);
    }
    FrameRead::Frame(
        FrameSpan { start: at, payload_start: at + 4, payload_end: at + 4 + n, next: at + 4 + n + 32 },
    )
}

/// A frame read anywhere in a log is well placed inside it.
pub proof fn lemma_frame_at_in_bounds(log: Seq<u8>, at: int)
    requires
        0 <= at <= log.len(),
        log.len() <= usize::MAX,
    ensures
        frame_at(log, at) matches FrameRead::Frame(sp) ==> sp.start == at && at < sp.payload_start
            <= sp.payload_end < sp.next <= log.len() && sp.payload_start == at + 4
            && sp.next == sp.payload_end + 32,
        frame_at(log, at) matches FrameRead::Fault(_, p) ==> at <= p <= log.len(),
{
}

/// Splits a log into its frames, stopping at the end or at the first
/// unreadable frame.
pub fn scan_log(log: &[u8]) -> (r: LogScan)
    ensures
        (r.frames@, r.stop) == frames_from(log@, 0),
{
    let mut frames: Vec<FrameSpan> = Vec::new();
    let mut at: usize = 0;
    let total = log.len();
    loop
        invariant
            total == log@.len(),
            at <= log@.len(),
            frames_from(log@, 0) == (frames@ + frames_from(log@, at as int).0, frames_from(
                log@,
                at as int,
            ).1),
        decreases log@.len() - at,
    {
        let read = read_frame(log, at);
        proof {
            lemma_frame_at_in_bounds(log@, at as int);
        }
        match read {
            FrameRead::End => {
                assert(frames@ + Seq::<FrameSpan>::empty() =~= frames@);
                return LogScan { frames, stop: ScanStop::Clean };
            },
            FrameRead::Fault(f, p) => {
                assert(frames@ + Seq::<FrameSpan>::empty() =~= frames@);
                return LogScan {
                    frames,
                    stop: ScanStop::Damaged { fault: f, start: at, position: p },
                };
            },
            FrameRead::Frame(sp) => {
                let ghost before = frames@;
                frames.push(sp);
                proof {
                    let rest = frames_from(log@, sp.next as int);
                    assert(before + (seq![sp] + rest.0) =~= frames@ + rest.0);
                }
                at = sp.next;
            },
        }
    }
}

/// The error a reader reports for an unreadable frame.
pub open spec fn fault_error(f: FrameFault, e: WalError) -> bool {
    match f {
        FrameFault::Truncated => e is TruncatedFrame,
        FrameFault::TooLarge => invalid(e, "wal frame payload exceeds max size"@),
        FrameFault::ChecksumMismatch => e is ChecksumMismatch,
    }
}

/// The error a reader reports for an unreadable frame.
pub fn fault_to_error(f: FrameFault) -> (e: WalError)
    ensures
        fault_error(f, e),
{
    match f {
        FrameFault::Truncated => WalError::TruncatedFrame,
        FrameFault::TooLarge => invalid_entry("wal frame payload exceeds max size"),
        FrameFault::ChecksumMismatch => WalError::ChecksumMismatch,
    }
}

/// A frame that holds no valid record: its index among the frames, and
/// what the record decoder said of it.
pub struct Unreadable {
    pub index: usize,
    pub reason: String,
}

/// What reading every record of a log gives: the number of records when
/// all frames are well formed and hold records, else the first failure.
/// `unreadable` is the first frame, if any, whose payload holds no record.
pub fn read_all_outcome(scan: &LogScan, unreadable: &Option<Unreadable>) -> (r: Result<
    usize,
    WalError,
>)
    ensures
        match unreadable {
            Some(u) => r matches Err(e) && e == WalError::Serde(u.reason),
            None => match scan.stop {
                ScanStop::Clean => r == Ok::<usize, WalError>(scan.frames@.len() as usize),
                ScanStop::Damaged { fault, .. } => r matches Err(e) && fault_error(fault, e),
            },
        },
{
    match unreadable {
        Some(u) => Err(WalError::Serde(u.reason.clone())),
        None => match scan.stop {
            ScanStop::Clean => Ok(scan.frames.len()),
            ScanStop::Damaged { fault, .. } => Err(fault_to_error(fault)),
        },
    }
}

/// Whether reading the log stopped before its end.
pub fn tail_damaged(scan: &LogScan, unreadable: &Option<Unreadable>) -> (r: bool)
    ensures
        r == (unreadable.is_some() || scan.stop is Damaged),
{
    unreadable.is_some() || match scan.stop {
        ScanStop::Clean => false,
        ScanStop::Damaged { .. } => true,
    }
}

/// How long a log of `log_len` bytes stays after repair, or why it cannot
/// be repaired. Damage may be cut away only when it reaches the end of the
/// log: a frame without a record, or an unreadable frame, is cut together
/// with everything after it when a reader past it stands at the end.
pub fn repair_length(scan: &LogScan, unreadable: &Option<Unreadable>, log_len: usize) -> (r: Result<
    usize,
    WalError,
>)
    requires
        match unreadable {
            Some(u) => u.index < scan.frames@.len(),
            None => true,
        },
    ensures
        match unreadable {
            Some(u) => if scan.frames@[u.index as int].next == log_len {
                r == Ok::<usize, WalError>(scan.frames@[u.index as int].start)
            } else {
                r matches Err(e) && e == WalError::Serde(u.reason)
            },
            None => match scan.stop {
                ScanStop::Clean => r == Ok::<usize, WalError>(log_len),
                ScanStop::Damaged { fault, start, position } => if position == log_len {
                    r == Ok::<usize, WalError>(start)
                } else {
                    r matches Err(e) && fault_error(fault, e)
                },
            },
        },
{
    match unreadable {
        Some(u) => {
            let sp = scan.frames[u.index];
            if sp.next == log_len {
                Ok(sp.start)
            } else {
                Err(WalError::Serde(u.reason.clone()))
            }
        },
        None => match scan.stop {
            ScanStop::Clean => Ok(log_len),
            ScanStop::Damaged { fault, start, position } => {
                if position == log_len {
                    Ok(start)
                } else {
                    Err(fault_to_error(fault))
                }
            },
        },
    }
}

/// A frame written at any position reads back as one well-formed frame
/// that carries exactly the payload written.
pub proof fn law_frame_round_trip(before: Seq<u8>, payload: Seq<u8>, after: Seq<u8>)
    requires
        payload.len() <= MAX_WAL_PAYLOAD_BYTES,
        blake3_digest(payload).len() == 32,
        before.len() + frame_of(payload).len() + after.len() <= usize::MAX,
    ensures
        ({
            let log = before + frame_of(payload) + after;
            let at = before.len() as int;
            let n = payload.len() as int;
            &&& frame_at(log, at) == FrameRead::Frame(
                FrameSpan {
                    start: at as usize,
                    payload_start: (at + 4) as usize,
                    payload_end: (at + 4 + n) as usize,
                    next: (at + 4 + n + 32) as usize,
                },
            )
            &&& log.subrange(at + 4, at + 4 + n) == payload
        }),
{
    let log = before + frame_of(payload) + after;
    let at = before.len() as int;
    let n = payload.len() as int;
    lemma_le_round_trip(n as nat);
    assert(log.subrange(at, at + 4) =~= le_bytes(n as nat));
    assert(log.subrange(at + 4, at + 4 + n) =~= payload);
    assert(log.subrange(at + 4 + n, at + 4 + n + 32) =~= blake3_digest(payload));
}

/// A well-formed frame reads the same when more bytes follow the log.
proof fn lemma_frame_stable(log: Seq<u8>, extra: Seq<u8>, at: int)
    requires
        0 <= at <= log.len(),
        log.len() + extra.len() <= usize::MAX,
        frame_at(log, at) is Frame,
    ensures
        frame_at(log + extra, at) == frame_at(log, at),
{
    let big = log + extra;
    lemma_frame_at_in_bounds(log, at);
    assert(big.subrange(at, at + 4) =~= log.subrange(at, at + 4));
    let n = le_value(log.subrange(at, at + 4)) as int;
    assert(big.subrange(at + 4, at + 4 + n) =~= log.subrange(at + 4, at + 4 + n));
    assert(big.subrange(at + 4 + n, at + 4 + n + 32) =~= log.subrange(at + 4 + n, at + 4 + n + 32));
}

/// Reading from any position of a cleanly read log, after a frame has been
/// appended, finds the same frames and then the new one.
proof fn lemma_append_from(log: Seq<u8>, payload: Seq<u8>, at: int)
    requires
        0 <= at <= log.len(),
        frames_from(log, at).1 == ScanStop::Clean,
        payload.len() <= MAX_WAL_PAYLOAD_BYTES,
        blake3_digest(payload).len() == 32,
        log.len() + frame_of(payload).len() <= usize::MAX,
    ensures
        frames_from(log + frame_of(payload), at) == (
            frames_from(log, at).0.push(
                FrameSpan {
                    start: log.len() as usize,
                    payload_start: (log.len() + 4) as usize,
                    payload_end: (log.len() + 4 + payload.len()) as usize,
                    next: (log.len() + 4 + payload.len() + 32) as usize,
                },
            ),
            ScanStop::Clean,
        ),
    decreases log.len() - at,
{
    let f = frame_of(payload);
    let big = log + f;
    let new_span = FrameSpan {
        start: log.len() as usize,
        payload_start: (log.len() + 4) as usize,
        payload_end: (log.len() + 4 + payload.len()) as usize,
        next: (log.len() + 4 + payload.len() + 32) as usize,
    };
    lemma_frame_at_in_bounds(log, at);
    match frame_at(log, at) {
        FrameRead::End => {
            assert(at == log.len());
            law_frame_round_trip(log, payload, Seq::empty());
            assert(log + f + Seq::<u8>::empty() =~= big);
            assert(frame_at(big, at) == FrameRead::Frame(new_span));
            assert(f.len() == 4 + payload.len() + 32);
            assert(frame_at(big, big.len() as int) == FrameRead::End);
            assert(frames_from(big, new_span.next as int) == (
                Seq::<FrameSpan>::empty(),
                ScanStop::Clean,
            ));
            assert(seq![new_span] + Seq::<FrameSpan>::empty() =~= Seq::<FrameSpan>::empty().push(
                new_span,
            ));
        },
        FrameRead::Frame(sp) => {
            lemma_frame_stable(log, f, at);
            lemma_append_from(log, payload, sp.next as int);
            let rest = frames_from(log, sp.next as int);
            assert(seq![sp] + rest.0.push(new_span) =~= (seq![sp] + rest.0).push(new_span));
        },
        FrameRead::Fault(_, _) => {},
    }
}

/// Appending a frame to a log that reads cleanly keeps it readable: the
/// same frames come back, followed by the new one.
pub proof fn law_append_keeps_log_readable(log: Seq<u8>, payload: Seq<u8>)
    requires
        frames_from(log, 0).1 == ScanStop::Clean,
        payload.len() <= MAX_WAL_PAYLOAD_BYTES,
        blake3_digest(payload).len() == 32,
        log.len() + frame_of(payload).len() <= usize::MAX,
    ensures
        frames_from(log + frame_of(payload), 0) == (
            frames_from(log, 0).0.push(
                FrameSpan {
                    start: log.len() as usize,
                    payload_start: (log.len() + 4) as usize,
                    payload_end: (log.len() + 4 + payload.len()) as usize,
                    next: (log.len() + 4 + payload.len() + 32) as usize,
                },
            ),
            ScanStop::Clean,
        ),
{
    lemma_append_from(log, payload, 0);
}

} // verus!
