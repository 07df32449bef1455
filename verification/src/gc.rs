//! Garbage collection of unreferenced chunks: orphan detection with a
//! retention period, a delete budget per sweep, revalidation before each
//! delete, and a bounded queue of background scans.

use crate::clock::{duration_nanos, nanos_of, system_now, unix_nanos_now};
use crate::keyed::{StrMap, StrSet};
use crate::text::{owned, string_set, views};
use std::time::{Duration, SystemTime};
use vstd::prelude::*;

verus! {

/// The queue bound a collector starts with.
pub const DEFAULT_MAX_ENQUEUED_SCANS: usize = 64;

/// Why a garbage-collection step failed.
#[derive(Debug)]
pub enum GcError {
    LiveRef(String),
    Inflight(String),
    Inventory(String),
    Delete { chunk_id: String, reason: String },
    Poisoned,
}

/// The text of each error.
pub open spec fn gc_error_text(e: GcError) -> Seq<char> {
    match e {
        GcError::LiveRef(m) => "live reference source error: "@ + m@,
        GcError::Inflight(m) => "wal inflight source error: "@ + m@,
        GcError::Inventory(m) => "chunk inventory source error: "@ + m@,
        GcError::Delete { chunk_id, reason } => "chunk delete failure for "@ + chunk_id@ + ": "@
            + reason@,
        GcError::Poisoned => "gc internal lock poisoned"@,
    }
}

impl GcError {
    /// The human-readable text of the error.
    pub fn message(&self) -> (r: String)
        ensures
            r@ == gc_error_text(*self),
    {
        match self {
            GcError::LiveRef(m) => String::from_str("live reference source error: ").concat(
                m.as_str(),
            ),
            GcError::Inflight(m) => String::from_str("wal inflight source error: ").concat(
                m.as_str(),
            ),
            GcError::Inventory(m) => String::from_str("chunk inventory source error: ").concat(
                m.as_str(),
            ),
            GcError::Delete { chunk_id, reason } => String::from_str(
                "chunk delete failure for ",
            ).concat(chunk_id.as_str()).concat(": ").concat(reason.as_str()),
            GcError::Poisoned => String::from_str("gc internal lock poisoned"),
        }
    }
}

/// Source of the chunk ids that committed metadata references.
pub trait LiveRefSource {
    fn live_chunk_ids(&self) -> Result<Vec<String>, String>;
}

/// Source of the chunk ids that pending WAL transactions reference.
pub trait InflightRefSource {
    fn inflight_chunk_ids(&self) -> Result<Vec<String>, String>;
}

/// The chunk store as the collector sees it.
pub trait ChunkInventory {
    fn all_chunk_ids(&self) -> Result<Vec<String>, String>;

    fn delete_chunk(&self, chunk_id: &str) -> Result<(), String>;
}

/// Foreground hook that asks for a background scan.
pub trait GcTrigger {
    fn enqueue_candidate_scan(&mut self) -> Result<(), String>;
}

/// Background worker that runs the scans asked for.
pub trait GcWorker {
    fn run_enqueued_once(&mut self) -> Result<Vec<GcReport>, String>;
}

/// Totals kept by a periodic scheduler of trigger and worker.
#[derive(Debug, Clone, Copy, Default)]
pub struct GcSchedulerMetrics {
    pub ticks: usize,
    pub trigger_errors: usize,
    pub worker_errors: usize,
    pub worker_runs: usize,
    pub deleted: usize,
    pub deferred: usize,
}

/// The sum of the deleted counts of a list of reports, wrapping at `usize::MAX`.
pub open spec fn total_deleted(reports: Seq<GcReport>) -> usize
    decreases reports.len(),
{
    if reports.len() == 0 {
        0
    } else {
        total_deleted(reports.drop_last()).wrapping_add(reports.last().deleted)
    }
}

/// The sum of the deferred counts of a list of reports, wrapping at `usize::MAX`.
pub open spec fn total_deferred(reports: Seq<GcReport>) -> usize
    decreases reports.len(),
{
    if reports.len() == 0 {
        0
    } else {
        total_deferred(reports.drop_last()).wrapping_add(reports.last().deferred)
    }
}

impl GcSchedulerMetrics {
    /// Records one scheduler tick: the trigger's result and, when the trigger
    /// succeeded, the worker's. Counters wrap at `usize::MAX`.
    pub fn record_tick(&mut self, trigger_ok: bool, worker: &Option<Result<Vec<GcReport>, String>>)
        requires
            trigger_ok ==> worker is Some,
        ensures
            final(self).ticks == old(self).ticks.wrapping_add(1),
            !trigger_ok ==> final(self).trigger_errors == old(self).trigger_errors.wrapping_add(1)
                && final(self).worker_errors == old(self).worker_errors && final(self).worker_runs
                == old(self).worker_runs && final(self).deleted == old(self).deleted
                && final(self).deferred == old(self).deferred,
            trigger_ok ==> final(self).trigger_errors == old(self).trigger_errors,
            trigger_ok ==> match worker {
                Some(Ok(reports)) => {
                    &&& final(self).worker_errors == old(self).worker_errors
                    &&& final(self).worker_runs == old(self).worker_runs.wrapping_add(
                        reports.len(),
                    )
                    &&& final(self).deleted == old(self).deleted.wrapping_add(
                        total_deleted(reports@),
                    )
                    &&& final(self).deferred == old(self).deferred.wrapping_add(
                        total_deferred(reports@),
                    )
                },
                Some(Err(_)) => {
                    &&& final(self).worker_errors == old(self).worker_errors.wrapping_add(1)
                    &&& final(self).worker_runs == old(self).worker_runs
                    &&& final(self).deleted == old(self).deleted
                    &&& final(self).deferred == old(self).deferred
                },
                None => false,
            },
    {
        self.ticks = self.ticks.wrapping_add(1);
        if !trigger_ok {
            self.trigger_errors = self.trigger_errors.wrapping_add(1);
            return;
        }
        match worker {
            Some(Ok(reports)) => {
                let mut deleted: usize = 0;
                let mut deferred: usize = 0;
                let mut i: usize = 0;
                while i < reports.len()
                    invariant
                        i <= reports@.len(),
                        deleted == total_deleted(reports@.take(i as int)),
                        deferred == total_deferred(reports@.take(i as int)),
                    decreases reports@.len() - i,
                {
                    assert(reports@.take(i + 1).drop_last() =~= reports@.take(i as int));
                    deleted = deleted.wrapping_add(reports[i].deleted);
                    deferred = deferred.wrapping_add(reports[i].deferred);
                    i = i + 1;
                }
                assert(reports@.take(reports@.len() as int) =~= reports@);
                self.worker_runs = self.worker_runs.wrapping_add(reports.len());
                self.deleted = self.deleted.wrapping_add(deleted);
                self.deferred = self.deferred.wrapping_add(deferred);
            },
            Some(Err(_)) => {
                self.worker_errors = self.worker_errors.wrapping_add(1);
            },
            None => {},
        }
    }
}

/// One deletion done by the collector.
#[derive(Debug)]
pub struct GcAuditRecord {
    pub timestamp: SystemTime,
    pub chunk_id: String,
    pub action: &'static str,
}

impl GcAuditRecord {
    /// A field-by-field copy.
    pub fn duplicate(&self) -> (r: Self)
        ensures
            r.chunk_id@ == self.chunk_id@,
            r.action@ == self.action@,
    {
        GcAuditRecord { timestamp: self.timestamp, chunk_id: self.chunk_id.clone(), action: self.action }
    }
}

/// The outcome of one sweep.
#[derive(Debug, Clone, Copy)]
pub struct GcReport {
    pub candidates: usize,
    pub deleted: usize,
    pub deferred: usize,
}

/// A chunk is referenced by committed metadata or by a pending transaction.
pub open spec fn is_referenced(c: Seq<char>, live: Set<Seq<char>>, inflight: Set<Seq<char>>) -> bool {
    live.contains(c) || inflight.contains(c)
}

/// When an orphan was first seen: its earlier record, or `now` for a new orphan.
pub open spec fn first_seen_at(seen: Map<Seq<char>, u128>, c: Seq<char>, now: u128) -> u128 {
    if seen.contains_key(c) {
        seen[c]
    } else {
        now
    }
}

/// An orphan first seen at `seen_at` has waited out the retention period by `now`.
pub open spec fn retention_elapsed(seen_at: u128, now: u128, retention: u128) -> bool {
    seen_at <= now && now - seen_at >= retention
}

/// A chunk is a deletion candidate: unreferenced and past retention.
pub open spec fn is_candidate(
    c: Seq<char>,
    live: Set<Seq<char>>,
    inflight: Set<Seq<char>>,
    seen: Map<Seq<char>, u128>,
    now: u128,
    retention: u128,
) -> bool {
    !is_referenced(c, live, inflight) && retention_elapsed(first_seen_at(seen, c, now), now, retention)
}

/// The candidate test of one scan, as a predicate on chunk ids.
pub open spec fn candidate_pred(
    live: Set<Seq<char>>,
    inflight: Set<Seq<char>>,
    seen: Map<Seq<char>, u128>,
    now: u128,
    retention: u128,
) -> spec_fn(Seq<char>) -> bool {
    |c: Seq<char>| is_candidate(c, live, inflight, seen, now, retention)
}

/// The orphan records after a scan: one per unreferenced chunk of the inventory.
pub open spec fn next_first_seen(
    all: Seq<Seq<char>>,
    live: Set<Seq<char>>,
    inflight: Set<Seq<char>>,
    seen: Map<Seq<char>, u128>,
    now: u128,
) -> Map<Seq<char>, u128> {
    Map::new(
        |c: Seq<char>| all.contains(c) && !is_referenced(c, live, inflight),
        |c: Seq<char>| first_seen_at(seen, c, now),
    )
}

/// A scan keeps the time an orphan was first seen: a chunk already recorded
/// and still in the inventory, unreferenced, keeps its recorded time; a new
/// orphan is recorded at the scan's clock reading; a chunk that is
/// referenced again, or gone from the inventory, is forgotten.
pub proof fn law_scan_keeps_first_seen<L: LiveRefSource, I: InflightRefSource, S: ChunkInventory>(
    gc: GarbageCollector<L, I, S>,
    next: GarbageCollector<L, I, S>,
    c: Seq<String>,
    live: Seq<String>,
    inflight: Seq<String>,
    all: Seq<String>,
    now: u128,
    chunk: Seq<char>,
)
    requires
        gc.scan_step(&next, c, live, inflight, all, now),
    ensures
        views(all).contains(chunk) && !is_referenced(chunk, string_set(live), string_set(inflight))
            ==> next.first_seen().contains_key(chunk) && next.first_seen()[chunk] == (
        if gc.first_seen().contains_key(chunk) {
            gc.first_seen()[chunk]
        } else {
            now
        }),
        !views(all).contains(chunk) || is_referenced(chunk, string_set(live), string_set(inflight))
            ==> !next.first_seen().contains_key(chunk),
{
}

/// An unreferenced chunk of the inventory is a candidate of a scan exactly
/// when the retention period has passed since it was first seen (a chunk
/// seen for the first time waits the whole period).
pub proof fn law_candidate_after_retention<L: LiveRefSource, I: InflightRefSource, S: ChunkInventory>(
    gc: GarbageCollector<L, I, S>,
    next: GarbageCollector<L, I, S>,
    c: Seq<String>,
    live: Seq<String>,
    inflight: Seq<String>,
    all: Seq<String>,
    now: u128,
    chunk: Seq<char>,
)
    requires
        gc.scan_step(&next, c, live, inflight, all, now),
        views(all).contains(chunk),
        !is_referenced(chunk, string_set(live), string_set(inflight)),
    ensures
        views(c).contains(chunk) <==> ({
            let t = if gc.first_seen().contains_key(chunk) {
                gc.first_seen()[chunk]
            } else {
                now
            };
            t <= now && now - t >= gc.retention()
        }),
{
    let pred = candidate_pred(
        string_set(live),
        string_set(inflight),
        gc.first_seen(),
        now,
        gc.retention(),
    );
    let i = choose|i: int| 0 <= i < views(all).len() && views(all)[i] == chunk;
    if pred(chunk) {
        views(all).lemma_filter_contains(pred, i);
    }
    if views(c).contains(chunk) {
        let j = choose|j: int| 0 <= j < views(c).len() && views(c)[j] == chunk;
        #[allow(deprecated)]
        views(all).filter_lemma(pred);
    }
}

/// An orphan is collected once the retention period has passed since the
/// first scan that found it, however many scans came in between: over two
/// scans, the second at least the retention period after the first, a chunk
/// unreferenced and in the inventory at both is a candidate of the second.
pub proof fn law_orphan_becomes_candidate<L: LiveRefSource, I: InflightRefSource, S: ChunkInventory>(
    g0: GarbageCollector<L, I, S>,
    g1: GarbageCollector<L, I, S>,
    g2: GarbageCollector<L, I, S>,
    c1: Seq<String>,
    c2: Seq<String>,
    live1: Seq<String>,
    inflight1: Seq<String>,
    all1: Seq<String>,
    t1: u128,
    live2: Seq<String>,
    inflight2: Seq<String>,
    all2: Seq<String>,
    t2: u128,
    chunk: Seq<char>,
)
    requires
        g0.scan_step(&g1, c1, live1, inflight1, all1, t1),
        g1.scan_step(&g2, c2, live2, inflight2, all2, t2),
        views(all1).contains(chunk),
        !is_referenced(chunk, string_set(live1), string_set(inflight1)),
        views(all2).contains(chunk),
        !is_referenced(chunk, string_set(live2), string_set(inflight2)),
        !g0.first_seen().contains_key(chunk) || g0.first_seen()[chunk] <= t1,
        t1 <= t2,
        t2 - t1 >= g0.retention(),
    ensures
        views(c2).contains(chunk),
{
    law_scan_keeps_first_seen(g0, g1, c1, live1, inflight1, all1, t1, chunk);
    law_candidate_after_retention(g1, g2, c2, live2, inflight2, all2, t2, chunk);
}

/// What a sweep does with one candidate.
#[derive(Debug, Clone, Copy, PartialEq, Eq, Structural)]
pub enum SweepAction {
    /// The budget is spent: this and the remaining candidates are deferred.
    Stop,
    /// The candidate is referenced again: it is kept.
    Defer,
    /// The candidate is deleted.
    Delete,
}

/// The action for candidate `c` once `deleted` chunks were deleted in this
/// sweep, with the reference lists `live` and `inflight` read just before.
pub open spec fn sweep_action_of(
    c: Seq<char>,
    live: Set<Seq<char>>,
    inflight: Set<Seq<char>>,
    deleted: int,
    budget: Option<usize>,
) -> SweepAction {
    if budget matches Some(b) && deleted >= b {
        SweepAction::Stop
    } else if is_referenced(c, live, inflight) {
        SweepAction::Defer
    } else {
        SweepAction::Delete
    }
}

/// The action for candidate `chunk_id`, given the deletions so far in this
/// sweep, the budget, and the reference lists read just before.
pub fn sweep_step(
    chunk_id: &str,
    live: &Vec<String>,
    inflight: &Vec<String>,
    deleted: usize,
    budget: Option<usize>,
) -> (a: SweepAction)
    ensures
        a == sweep_action_of(
            chunk_id@,
            string_set(live@),
            string_set(inflight@),
            deleted as int,
            budget,
        ),
{
    if let Some(limit) = budget {
        if deleted >= limit {
            return SweepAction::Stop;
        }
    }
    if contains_str(live, chunk_id) || contains_str(inflight, chunk_id) {
        SweepAction::Defer
    } else {
        SweepAction::Delete
    }
}

/// One decision of a sweep: the candidate, the reference lists read just
/// before it, and what was done with it.
pub ghost struct SweepDecision {
    pub chunk: Seq<char>,
    pub live: Set<Seq<char>>,
    pub inflight: Set<Seq<char>>,
    pub action: SweepAction,
}

/// How many of the decisions are deletions.
pub open spec fn deletes_in(d: Seq<SweepDecision>) -> nat
    decreases d.len(),
{
    if d.len() == 0 {
        0
    } else {
        deletes_in(d.drop_last()) + if d.last().action == SweepAction::Delete {
            1nat
        } else {
            0nat
        }
    }
}

/// The chunks the decisions deleted, in order.
pub open spec fn deleted_chunks(d: Seq<SweepDecision>) -> Seq<Seq<char>>
    decreases d.len(),
{
    if d.len() == 0 {
        Seq::empty()
    } else {
        deleted_chunks(d.drop_last()) + if d.last().action == SweepAction::Delete {
            seq![d.last().chunk]
        } else {
            Seq::empty()
        }
    }
}

/// Every decision is what `sweep_action_of` gives for its candidate and the
/// lists read just before it, counting the deletions decided before it; none
/// is a stop, since a sweep stops before it reads the lists again.
pub open spec fn decided(d: Seq<SweepDecision>, budget: Option<usize>) -> bool {
    forall|j: int|
        0 <= j < d.len() ==> (#[trigger] d[j]).action != SweepAction::Stop && d[j].action
            == sweep_action_of(d[j].chunk, d[j].live, d[j].inflight, deletes_in(d.take(j)) as int, budget)
}

/// The decisions of one sweep over the candidates `cands`: one per
/// candidate, in order, until the budget stopped the sweep.
pub open spec fn swept(d: Seq<SweepDecision>, cands: Seq<Seq<char>>, budget: Option<usize>) -> bool {
    &&& d.len() <= cands.len()
    &&& forall|j: int| 0 <= j < d.len() ==> (#[trigger] d[j]).chunk == cands[j]
    &&& d.len() < cands.len() ==> (budget matches Some(b) && deletes_in(d) >= b)
}

/// Adding one decision made after the others.
pub proof fn lemma_decided_push(d: Seq<SweepDecision>, x: SweepDecision, budget: Option<usize>)
    requires
        decided(d, budget),
        x.action != SweepAction::Stop,
        x.action == sweep_action_of(x.chunk, x.live, x.inflight, deletes_in(d) as int, budget),
    ensures
        decided(d.push(x), budget),
        deletes_in(d.push(x)) == deletes_in(d) + if x.action == SweepAction::Delete {
            1nat
        } else {
            0nat
        },
        deleted_chunks(d.push(x)) == deleted_chunks(d) + if x.action == SweepAction::Delete {
            seq![x.chunk]
        } else {
            Seq::<Seq<char>>::empty()
        },
{
    let e = d.push(x);
    assert(e.drop_last() =~= d);
    assert(e.take(d.len() as int) =~= d);
    assert forall|j: int| 0 <= j < e.len() implies (#[trigger] e[j]).action != SweepAction::Stop
        && e[j].action == sweep_action_of(
        e[j].chunk,
        e[j].live,
        e[j].inflight,
        deletes_in(e.take(j)) as int,
        budget,
    ) by {
        if j < d.len() {
            assert(e.take(j) =~= d.take(j));
            assert(e[j] == d[j]);
        }
    }
}

/// A decided sweep within a budget deletes at most that many chunks.
pub proof fn lemma_deletes_within_budget(d: Seq<SweepDecision>, b: usize)
    requires
        decided(d, Some(b)),
    ensures
        deletes_in(d) <= b,
    decreases d.len(),
{
    if d.len() > 0 {
        let k = d.len() - 1;
        let p = d.drop_last();
        assert(d.take(k) =~= p);
        assert forall|j: int| 0 <= j < p.len() implies (#[trigger] p[j]).action != SweepAction::Stop
            && p[j].action == sweep_action_of(
            p[j].chunk,
            p[j].live,
            p[j].inflight,
            deletes_in(p.take(j)) as int,
            Some(b),
        ) by {
            assert(p.take(j) =~= d.take(j));
            assert(p[j] == d[j]);
        }
        lemma_deletes_within_budget(p, b);
        assert(d[k] == d.last());
    }
}

/// A sweep never deletes a chunk that the reference lists read just before
/// its deletion still name, nor more chunks than its budget allows.
pub proof fn law_deleted_chunks_were_unreferenced(d: Seq<SweepDecision>, budget: Option<usize>)
    requires
        decided(d, budget),
    ensures
        forall|j: int|
            0 <= j < d.len() && (#[trigger] d[j]).action == SweepAction::Delete ==> !is_referenced(
                d[j].chunk,
                d[j].live,
                d[j].inflight,
            ),
        budget matches Some(b) ==> deletes_in(d) <= b,
{
    if let Some(b) = budget {
        lemma_deletes_within_budget(d, b);
    }
}

/// The collector over a live-reference source, an inflight-reference source
/// and a chunk inventory.
pub struct GarbageCollector<L: LiveRefSource, I: InflightRefSource, S: ChunkInventory> {
    live_source: L,
    inflight_source: I,
    store: S,
    retention_nanos: u128,
    delete_budget: Option<usize>,
    max_enqueued_scans: usize,
    enqueued_scans: usize,
    dropped_enqueues: usize,
    orphan_first_seen: StrMap<u128>,
    audit_log: Vec<GcAuditRecord>,
    decision_log: Ghost<Seq<SweepDecision>>,
}

impl<L: LiveRefSource, I: InflightRefSource, S: ChunkInventory> GarbageCollector<L, I, S> {
    /// The orphan table holds no repeated key and the queue bound is positive.
    #[verifier::type_invariant]
    spec fn inv(self) -> bool {
        &&& self.orphan_first_seen.wf()
        &&& self.max_enqueued_scans >= 1
    }

    /// The chunk inventory.
    pub closed spec fn inventory(&self) -> S {
        self.store
    }

    /// Scans asked for and not yet run.
    pub closed spec fn depth(&self) -> usize {
        self.enqueued_scans
    }

    /// Bound on the scans asked for and not yet run.
    pub closed spec fn max_depth(&self) -> usize {
        self.max_enqueued_scans
    }

    /// Requests refused because the queue was full (wrapping at `usize::MAX`).
    pub closed spec fn drops(&self) -> usize {
        self.dropped_enqueues
    }

    /// Most deletions per sweep, if limited.
    pub closed spec fn budget(&self) -> Option<usize> {
        self.delete_budget
    }

    /// How long an orphan waits before deletion, in nanoseconds.
    pub closed spec fn retention(&self) -> u128 {
        self.retention_nanos
    }

    /// When each current orphan was first seen, in nanoseconds since the Unix epoch.
    pub closed spec fn first_seen(&self) -> Map<Seq<char>, u128> {
        self.orphan_first_seen@
    }

    /// The deleted chunk ids, oldest first.
    pub closed spec fn audit_ids(&self) -> Seq<Seq<char>> {
        self.audit_log@.map_values(|r: GcAuditRecord| r.chunk_id@)
    }

    /// Every decision of the sweeps so far, oldest first: the candidate, the
    /// reference lists read just before it, and what was done with it.
    pub closed spec fn decisions(&self) -> Seq<SweepDecision> {
        self.decision_log@
    }

    /// The actions of the audit records, oldest first.
    pub closed spec fn audit_actions(&self) -> Seq<Seq<char>> {
        self.audit_log@.map_values(|r: GcAuditRecord| r.action@)
    }

    /// A collector with no orphans seen, no budget and the default queue bound.
    /// The retention is read from `retention` in nanoseconds.
    pub fn new(live_source: L, inflight_source: I, store: S, retention: Duration) -> (gc: Self)
        ensures
            gc.depth() == 0,
            gc.drops() == 0,
            gc.max_depth() == DEFAULT_MAX_ENQUEUED_SCANS,
            gc.budget() is None,
            gc.retention() == nanos_of(retention),
            gc.first_seen() == Map::<Seq<char>, u128>::empty(),
            gc.audit_ids() == Seq::<Seq<char>>::empty(),
    {
        let gc = GarbageCollector {
            live_source,
            inflight_source,
            store,
            retention_nanos: duration_nanos(&retention),
            delete_budget: None,
            max_enqueued_scans: DEFAULT_MAX_ENQUEUED_SCANS,
            enqueued_scans: 0,
            dropped_enqueues: 0,
            orphan_first_seen: StrMap::new(),
            audit_log: Vec::new(),
            decision_log: Ghost(Seq::empty()),
        };
        assert(gc.audit_ids() =~= Seq::<Seq<char>>::empty());
        gc
    }

    /// Limits deletions per sweep to `max_deletes_per_sweep`, at least 1.
    pub fn with_delete_budget(self, max_deletes_per_sweep: usize) -> (gc: Self)
        ensures
            gc.budget() == Some(if max_deletes_per_sweep >= 1 { max_deletes_per_sweep } else { 1 }),
            gc.depth() == self.depth(),
            gc.drops() == self.drops(),
            gc.max_depth() == self.max_depth(),
            gc.retention() == self.retention(),
            gc.first_seen() == self.first_seen(),
            gc.audit_ids() == self.audit_ids(),
    {
        proof {
            use_type_invariant(&self);
        }
        let budget = if max_deletes_per_sweep >= 1 { max_deletes_per_sweep } else { 1 };
        GarbageCollector { delete_budget: Some(budget), ..self }
    }

    /// Bounds the scan queue at `max_enqueued_scans`, at least 1.
    pub fn with_max_enqueued_scans(self, max_enqueued_scans: usize) -> (gc: Self)
        ensures
            gc.max_depth() == (if max_enqueued_scans >= 1 { max_enqueued_scans } else { 1 }),
            gc.depth() == self.depth(),
            gc.drops() == self.drops(),
            gc.budget() == self.budget(),
            gc.retention() == self.retention(),
            gc.first_seen() == self.first_seen(),
            gc.audit_ids() == self.audit_ids(),
    {
        proof {
            use_type_invariant(&self);
        }
        let bound = if max_enqueued_scans >= 1 { max_enqueued_scans } else { 1 };
        GarbageCollector { max_enqueued_scans: bound, ..self }
    }

    /// Scans asked for and not yet run.
    pub fn enqueued_scan_depth(&self) -> (n: usize)
        ensures
            n == self.depth(),
    {
        self.enqueued_scans
    }

    /// Requests refused because the queue was full.
    pub fn dropped_enqueues(&self) -> (n: usize)
        ensures
            n == self.drops(),
    {
        self.dropped_enqueues
    }

    /// The chunk inventory the collector deletes from.
    pub fn store(&self) -> (s: &S)
        ensures
            *s == self.inventory(),
    {
        &self.store
    }

    /// Asks for one background scan; when the queue is full the request is
    /// dropped and counted instead.
    pub fn enqueue_scan(&mut self)
        ensures
            old(self).depth() < old(self).max_depth() ==> final(self).depth() == old(self).depth() + 1
                && final(self).drops() == old(self).drops(),
            old(self).depth() >= old(self).max_depth() ==> final(self).depth() == old(self).depth()
                && final(self).drops() == old(self).drops().wrapping_add(1),
            final(self).max_depth() == old(self).max_depth(),
            final(self).budget() == old(self).budget(),
            final(self).retention() == old(self).retention(),
            final(self).first_seen() == old(self).first_seen(),
            final(self).audit_ids() == old(self).audit_ids(),
            final(self).audit_actions() == old(self).audit_actions(),
            final(self).decisions() == old(self).decisions(),
            final(self).inventory() == old(self).inventory(),
    {
        proof {
            use_type_invariant(&*self);
        }
        if self.enqueued_scans >= self.max_enqueued_scans {
            self.dropped_enqueues = self.dropped_enqueues.wrapping_add(1);
        } else {
            self.enqueued_scans = self.enqueued_scans + 1;
        }
    }

    /// `next` is this collector after a scan over the reference lists `live`
    /// and `inflight`, the inventory `all` and the clock reading `now`, which
    /// found the candidates `c`.
    pub open spec fn scan_step(
        &self,
        next: &Self,
        c: Seq<String>,
        live: Seq<String>,
        inflight: Seq<String>,
        all: Seq<String>,
        now: u128,
    ) -> bool {
        &&& views(c) == views(all).filter(
            candidate_pred(
                string_set(live),
                string_set(inflight),
                self.first_seen(),
                now,
                self.retention(),
            ),
        )
        &&& next.first_seen() == next_first_seen(
            views(all),
            string_set(live),
            string_set(inflight),
            self.first_seen(),
            now,
        )
        &&& next.depth() == self.depth()
        &&& next.drops() == self.drops()
        &&& next.max_depth() == self.max_depth()
        &&& next.budget() == self.budget()
        &&& next.retention() == self.retention()
        &&& next.audit_ids() == self.audit_ids()
        &&& next.audit_actions() == self.audit_actions()
        &&& next.decisions() == self.decisions()
        &&& next.inventory() == self.inventory()
    }

    /// `next` is this collector after some scan that found the candidates `c`.
    pub open spec fn scanned(&self, next: &Self, c: Seq<String>) -> bool {
        exists|live: Seq<String>, inflight: Seq<String>, all: Seq<String>, now: u128|
            #[trigger] self.scan_step(next, c, live, inflight, all, now)
    }

    /// Every observable part of the two collectors agrees.
    pub open spec fn same_observables(&self, other: &Self) -> bool {
        &&& other.first_seen() == self.first_seen()
        &&& other.depth() == self.depth()
        &&& other.drops() == self.drops()
        &&& other.max_depth() == self.max_depth()
        &&& other.budget() == self.budget()
        &&& other.retention() == self.retention()
        &&& other.audit_ids() == self.audit_ids()
        &&& other.audit_actions() == self.audit_actions()
        &&& other.decisions() == self.decisions()
        &&& other.inventory() == self.inventory()
    }

    /// One scan: reads both reference sources, the inventory and the clock,
    /// and returns the chunks that are unreferenced and past retention.
    pub fn scan_candidates(&mut self) -> (r: Result<Vec<String>, GcError>)
        ensures
            match r {
                Ok(c) => old(self).scanned(final(self), c@),
                Err(_) => old(self).same_observables(final(self)),
            },
    {
        let live = match self.live_source.live_chunk_ids() {
            Ok(v) => v,
            Err(e) => {
                return Err(GcError::LiveRef(e));
            },
        };
        let inflight = match self.inflight_source.inflight_chunk_ids() {
            Ok(v) => v,
            Err(e) => {
                return Err(GcError::Inflight(e));
            },
        };
        let all = match self.store.all_chunk_ids() {
            Ok(v) => v,
            Err(e) => {
                return Err(GcError::Inventory(e));
            },
        };
        let now = unix_nanos_now();
        let c = self.scan_candidates_at(now, &live, &inflight, &all);
        assert(old(self).scan_step(self, c@, live@, inflight@, all@, now));
        Ok(c)
    }

    /// One sweep: scans, then deletes candidates one by one, within the
    /// budget, after checking again that each is still unreferenced.
    pub fn sweep_once(&mut self) -> (r: Result<GcReport, GcError>)
        ensures
            final(self).depth() == old(self).depth(),
            final(self).drops() == old(self).drops(),
            final(self).max_depth() == old(self).max_depth(),
            final(self).budget() == old(self).budget(),
            final(self).retention() == old(self).retention(),
            final(self).audit_ids().len() >= old(self).audit_ids().len(),
            final(self).audit_ids().subrange(0, old(self).audit_ids().len() as int) == old(self).audit_ids(),
            final(self).audit_actions().len() == final(self).audit_ids().len(),
            final(self).audit_actions().subrange(0, old(self).audit_ids().len() as int) == old(self).audit_actions(),
            forall|i: int|
                old(self).audit_ids().len() <= i < final(self).audit_actions().len() ==> #[trigger] final(self).audit_actions()[i] == "delete"@,
            final(self).decisions().subrange(0, old(self).decisions().len() as int)
                == old(self).decisions(),
            decided(final(self).decisions().skip(old(self).decisions().len() as int), old(self).budget()),
            final(self).audit_ids().skip(old(self).audit_ids().len() as int) == deleted_chunks(
                final(self).decisions().skip(old(self).decisions().len() as int),
            ),
            match r {
                Ok(report) => {
                    &&& report.deleted + report.deferred == report.candidates
                    &&& (old(self).budget() matches Some(b) ==> report.deleted <= b)
                    &&& final(self).audit_ids().len() == old(self).audit_ids().len()
                        + report.deleted
                    &&& exists|
                        cands: Seq<String>,
                        live: Seq<String>,
                        inflight: Seq<String>,
                        all: Seq<String>,
                        now: u128,
                        mid: Self,
                    |
                        #![trigger old(self).scan_step(&mid, cands, live, inflight, all, now)]
                        old(self).scan_step(&mid, cands, live, inflight, all, now)
                            && report.candidates == cands.len() && forall|i: int|
                            old(self).audit_ids().len() <= i < final(self).audit_ids().len()
                                ==> string_set(cands).contains(#[trigger] final(self).audit_ids()[i])
                            && swept(
                            final(self).decisions().skip(old(self).decisions().len() as int),
                            views(cands),
                            old(self).budget(),
                        )
                    &&& report.deleted == deletes_in(
                        final(self).decisions().skip(old(self).decisions().len() as int),
                    )
                },
                Err(_) => true,
            },
    {
        proof {
            use_type_invariant(&*self);
        }
        let ghost start = *self;
        let candidates = match self.scan_candidates() {
            Ok(c) => c,
            Err(e) => {
                assert(self.audit_ids().subrange(0, start.audit_ids().len() as int) =~= start.audit_ids());
                assert(self.audit_actions().subrange(0, start.audit_ids().len() as int) =~= start.audit_actions());
                return Err(e);
            },
        };
        let ghost mid = *self;
        let ghost base = start.audit_ids().len();
        let ghost dbase = start.decisions().len();
        let n = candidates.len();
        let mut deleted: usize = 0;
        let mut deferred: usize = 0;
        let mut idx: usize = 0;
        while idx < n
            invariant_except_break
                deleted + deferred == idx,
            invariant
                start == *old(self),
                n == candidates@.len(),
                idx <= n,
                deleted <= idx,
                deferred <= n,
                start.budget() matches Some(b) ==> deleted <= b,
                self.depth() == start.depth(),
                self.drops() == start.drops(),
                self.max_depth() == start.max_depth(),
                self.budget() == start.budget(),
                self.retention() == start.retention(),
                self.audit_ids().len() == base + deleted,
                self.audit_actions().len() == self.audit_ids().len(),
                self.audit_ids().subrange(0, base as int) == start.audit_ids(),
                self.audit_actions().subrange(0, base as int) == start.audit_actions(),
                forall|i: int|
                    base <= i < self.audit_actions().len() ==> #[trigger] self.audit_actions()[i]
                        == "delete"@,
                forall|i: int|
                    base <= i < self.audit_ids().len() ==> string_set(candidates@).contains(
                        #[trigger] self.audit_ids()[i],
                    ),
                self.decisions().len() >= dbase,
                self.decisions().subrange(0, dbase as int) == start.decisions(),
                self.decisions().skip(dbase as int).len() == idx,
                decided(self.decisions().skip(dbase as int), start.budget()),
                deleted == deletes_in(self.decisions().skip(dbase as int)),
                self.audit_ids().skip(base as int) == deleted_chunks(self.decisions().skip(dbase as int)),
                forall|j: int|
                    0 <= j < idx ==> (#[trigger] self.decisions().skip(dbase as int)[j]).chunk
                        == candidates@[j]@,
            ensures
                deleted + deferred == n,
                idx == n || (start.budget() matches Some(b) && deleted >= b),
            decreases n - idx,
        {
            proof {
                use_type_invariant(&*self);
            }
            if let Some(limit) = self.delete_budget {
                if deleted >= limit {
                    deferred = deferred + (n - idx);
                    break;
                }
            }
            let chunk_id = &candidates[idx];
            let live = match self.live_source.live_chunk_ids() {
                Ok(v) => v,
                Err(e) => {
                    return Err(GcError::LiveRef(e));
                },
            };
            let inflight = match self.inflight_source.inflight_chunk_ids() {
                Ok(v) => v,
                Err(e) => {
                    return Err(GcError::Inflight(e));
                },
            };
            let ghost old_nd = self.decisions().skip(dbase as int);
            let ghost before_dec = self.decisions();
            match sweep_step(chunk_id.as_str(), &live, &inflight, deleted, self.delete_budget) {
                SweepAction::Stop => {
                    deferred = deferred + (n - idx);
                    break;
                },
                SweepAction::Defer => {
                    self.note_decision(
                        Ghost(
                            SweepDecision {
                                chunk: chunk_id@,
                                live: string_set(live@),
                                inflight: string_set(inflight@),
                                action: SweepAction::Defer,
                            },
                        ),
                    );
                    proof {
                        assert(self.decisions().skip(dbase as int) =~= old_nd.push(
                            self.decisions().last(),
                        ));
                        lemma_decided_push(old_nd, self.decisions().last(), start.budget());
                        assert(self.decisions().subrange(0, dbase as int) =~= before_dec.subrange(
                            0,
                            dbase as int,
                        ));
                        assert forall|j: int| 0 <= j < idx + 1 implies (#[trigger] self.decisions().skip(
                            dbase as int,
                        )[j]).chunk == candidates@[j]@ by {
                            if j < idx {
                                assert(self.decisions().skip(dbase as int)[j] == old_nd[j]);
                            }
                        }
                    }
                    deferred = deferred + 1;
                    idx = idx + 1;
                    continue;
                },
                SweepAction::Delete => {},
            }
            let ghost before_ids = self.audit_ids();
            let ghost before_actions = self.audit_actions();
            match self.delete_decided(chunk_id, Ghost(string_set(live@)), Ghost(string_set(inflight@))) {
                Ok(()) => {},
                Err(reason) => {
                    return Err(GcError::Delete { chunk_id: chunk_id.clone(), reason });
                },
            }
            proof {
                assert(self.decisions().skip(dbase as int) =~= old_nd.push(self.decisions().last()));
                lemma_decided_push(old_nd, self.decisions().last(), start.budget());
                assert(self.decisions().subrange(0, dbase as int) =~= before_dec.subrange(
                    0,
                    dbase as int,
                ));
                assert(self.audit_ids().skip(base as int) =~= before_ids.skip(base as int).push(
                    chunk_id@,
                ));
                assert forall|j: int| 0 <= j < idx + 1 implies (#[trigger] self.decisions().skip(
                    dbase as int,
                )[j]).chunk == candidates@[j]@ by {
                    if j < idx {
                        assert(self.decisions().skip(dbase as int)[j] == old_nd[j]);
                    }
                }
                assert(string_set(candidates@).contains(candidates@[idx as int]@));
                assert(self.audit_ids() == before_ids.push(chunk_id@));
                assert(self.audit_ids().subrange(0, base as int) =~= before_ids.subrange(0, base as int));
                assert(self.audit_actions().subrange(0, base as int) =~= before_actions.subrange(0, base as int));
            }
            deleted = deleted + 1;
            idx = idx + 1;
        }
        let report = GcReport { candidates: n, deleted, deferred };
        proof {
            let (live, inflight, all, now) = choose|
                live: Seq<String>,
                inflight: Seq<String>,
                all: Seq<String>,
                now: u128,
            | #[trigger] start.scan_step(&mid, candidates@, live, inflight, all, now);
            assert(start.scanned(&mid, candidates@));
            assert(start.scan_step(&mid, candidates@, live, inflight, all, now));
        }
        Ok(report)
    }

    /// Deletes `chunk_id` from the inventory; once the store has deleted it,
    /// drops its orphan record and records the deletion, with the reference
    /// lists `live` and `inflight` it was decided on, under that same id in
    /// the decisions and the audit log. A refusal of the store changes nothing.
    fn delete_decided(
        &mut self,
        chunk_id: &String,
        live: Ghost<Set<Seq<char>>>,
        inflight: Ghost<Set<Seq<char>>>,
    ) -> (r: Result<(), String>)
        ensures
            final(self).depth() == old(self).depth(),
            final(self).drops() == old(self).drops(),
            final(self).max_depth() == old(self).max_depth(),
            final(self).budget() == old(self).budget(),
            final(self).retention() == old(self).retention(),
            r is Ok ==> final(self).decisions() == old(self).decisions().push(
                SweepDecision {
                    chunk: chunk_id@,
                    live: live@,
                    inflight: inflight@,
                    action: SweepAction::Delete,
                },
            ),
            r is Ok ==> final(self).audit_ids() == old(self).audit_ids().push(chunk_id@),
            r is Ok ==> final(self).audit_actions() == old(self).audit_actions().push("delete"@),
            r is Ok ==> final(self).first_seen() == old(self).first_seen().remove(chunk_id@),
            r is Err ==> old(self).same_observables(final(self)),
    {
        self.store.delete_chunk(chunk_id.as_str())?;
        self.forget_orphan(chunk_id.as_str());
        self.record_delete(chunk_id);
        self.note_decision(
            Ghost(
                SweepDecision {
                    chunk: chunk_id@,
                    live: live@,
                    inflight: inflight@,
                    action: SweepAction::Delete,
                },
            ),
        );
        Ok(())
    }

    /// Adds a decision to the record of sweep decisions.
    fn note_decision(&mut self, d: Ghost<SweepDecision>)
        ensures
            final(self).decisions() == old(self).decisions().push(d@),
            final(self).first_seen() == old(self).first_seen(),
            final(self).depth() == old(self).depth(),
            final(self).drops() == old(self).drops(),
            final(self).max_depth() == old(self).max_depth(),
            final(self).budget() == old(self).budget(),
            final(self).retention() == old(self).retention(),
            final(self).audit_ids() == old(self).audit_ids(),
            final(self).audit_actions() == old(self).audit_actions(),
    {
        proof {
            use_type_invariant(&*self);
        }
        self.decision_log = Ghost(self.decision_log@.push(d@));
    }

    /// Drops the orphan record of `chunk_id`.
    fn forget_orphan(&mut self, chunk_id: &str)
        ensures
            final(self).first_seen() == old(self).first_seen().remove(chunk_id@),
            final(self).depth() == old(self).depth(),
            final(self).drops() == old(self).drops(),
            final(self).max_depth() == old(self).max_depth(),
            final(self).budget() == old(self).budget(),
            final(self).retention() == old(self).retention(),
            final(self).audit_ids() == old(self).audit_ids(),
            final(self).audit_actions() == old(self).audit_actions(),
            final(self).decisions() == old(self).decisions(),
    {
        proof {
            use_type_invariant(&*self);
        }
        let mut seen = StrMap::new();
        std::mem::swap(&mut seen, &mut self.orphan_first_seen);
        seen.remove(chunk_id);
        self.orphan_first_seen = seen;
    }

    /// Appends an audit record of the deletion of `chunk_id`.
    fn record_delete(&mut self, chunk_id: &String)
        ensures
            final(self).audit_ids() == old(self).audit_ids().push(chunk_id@),
            final(self).audit_actions() == old(self).audit_actions().push("delete"@),
            final(self).first_seen() == old(self).first_seen(),
            final(self).depth() == old(self).depth(),
            final(self).drops() == old(self).drops(),
            final(self).max_depth() == old(self).max_depth(),
            final(self).budget() == old(self).budget(),
            final(self).retention() == old(self).retention(),
            final(self).decisions() == old(self).decisions(),
    {
        proof {
            use_type_invariant(&*self);
        }
        let mut log: Vec<GcAuditRecord> = Vec::new();
        std::mem::swap(&mut log, &mut self.audit_log);
        let ghost old_log = log@;
        log.push(GcAuditRecord { timestamp: system_now(), chunk_id: chunk_id.clone(), action: "delete" });
        assert(log@.map_values(|r: GcAuditRecord| r.chunk_id@) =~= old_log.map_values(
            |r: GcAuditRecord| r.chunk_id@,
        ).push(chunk_id@));
        assert(log@.map_values(|r: GcAuditRecord| r.action@) =~= old_log.map_values(
            |r: GcAuditRecord| r.action@,
        ).push("delete"@));
        self.audit_log = log;
    }

    /// Runs every scan asked for so far; the queue is emptied first.
    pub fn run_enqueued(&mut self) -> (r: Result<Vec<GcReport>, GcError>)
        ensures
            final(self).depth() == 0,
            final(self).drops() == old(self).drops(),
            final(self).max_depth() == old(self).max_depth(),
            final(self).budget() == old(self).budget(),
            final(self).retention() == old(self).retention(),
            match r {
                Ok(reports) => reports.len() == old(self).depth() && forall|i: int|
                    0 <= i < reports.len() ==> (#[trigger] reports@[i]).deleted + reports@[i].deferred
                        == reports@[i].candidates,
                Err(_) => true,
            },
            old(self).depth() == 0 ==> (r matches Ok(v) && v.len() == 0 && final(self).first_seen()
                == old(self).first_seen() && final(self).audit_ids() == old(self).audit_ids()),
    {
        proof {
            use_type_invariant(&*self);
        }
        let runs = self.enqueued_scans;
        self.enqueued_scans = 0;
        let mut reports: Vec<GcReport> = Vec::new();
        let mut k: usize = 0;
        while k < runs
            invariant
                k <= runs,
                reports@.len() == k,
                forall|i: int|
                    0 <= i < reports.len() ==> (#[trigger] reports@[i]).deleted + reports@[i].deferred
                        == reports@[i].candidates,
                self.depth() == 0,
                self.drops() == old(self).drops(),
                self.max_depth() == old(self).max_depth(),
                self.budget() == old(self).budget(),
                self.retention() == old(self).retention(),
                runs == old(self).depth(),
                k == 0 ==> self.first_seen() == old(self).first_seen() && self.audit_ids() == old(
                    self,
                ).audit_ids(),
            decreases runs - k,
        {
            match self.sweep_once() {
                Ok(report) => reports.push(report),
                Err(e) => {
                    return Err(e);
                },
            }
            k = k + 1;
        }
        Ok(reports)
    }

    /// Copies of the audit records, oldest first.
    pub fn audit_log(&self) -> (r: Result<Vec<GcAuditRecord>, GcError>)
        ensures
            r matches Ok(v) && v@.map_values(|a: GcAuditRecord| a.chunk_id@) == self.audit_ids()
                && v@.map_values(|a: GcAuditRecord| a.action@) == self.audit_actions(),
    {
        let mut out: Vec<GcAuditRecord> = Vec::new();
        let mut i: usize = 0;
        while i < self.audit_log.len()
            invariant
                i <= self.audit_log@.len(),
                out@.len() == i,
                forall|j: int|
                    0 <= j < i ==> (#[trigger] out@[j]).chunk_id@ == self.audit_log@[j].chunk_id@
                        && out@[j].action@ == self.audit_log@[j].action@,
            decreases self.audit_log@.len() - i,
        {
            out.push(self.audit_log[i].duplicate());
            i = i + 1;
        }
        assert(out@.map_values(|a: GcAuditRecord| a.chunk_id@) =~= self.audit_ids());
        assert(out@.map_values(|a: GcAuditRecord| a.action@) =~= self.audit_actions());
        Ok(out)
    }

    /// The candidates of one scan, given the reference lists, the inventory
    /// and the clock reading `now`; records when each orphan was first seen.
    pub fn scan_candidates_at(
        &mut self,
        now: u128,
        live: &Vec<String>,
        inflight: &Vec<String>,
        all: &Vec<String>,
    ) -> (candidates: Vec<String>)
        ensures
            views(candidates@) == views(all@).filter(
                candidate_pred(
                    string_set(live@),
                    string_set(inflight@),
                    old(self).first_seen(),
                    now,
                    old(self).retention(),
                ),
            ),
            final(self).first_seen() == next_first_seen(
                views(all@),
                string_set(live@),
                string_set(inflight@),
                old(self).first_seen(),
                now,
            ),
            final(self).depth() == old(self).depth(),
            final(self).drops() == old(self).drops(),
            final(self).max_depth() == old(self).max_depth(),
            final(self).budget() == old(self).budget(),
            final(self).retention() == old(self).retention(),
            final(self).audit_ids() == old(self).audit_ids(),
            final(self).audit_actions() == old(self).audit_actions(),
            final(self).inventory() == old(self).inventory(),
            final(self).decisions() == old(self).decisions(),
    {
        proof {
            use_type_invariant(&*self);
        }
        let ghost live_set = string_set(live@);
        let ghost inflight_set = string_set(inflight@);
        let ghost seen = self.orphan_first_seen@;
        let ghost pred = candidate_pred(live_set, inflight_set, seen, now, self.retention_nanos);
        let ghost av = views(all@);
        let mut live_ids = StrSet::new();
        let mut k: usize = 0;
        while k < live.len()
            invariant
                k <= live@.len(),
                live_ids.wf(),
                live_ids@ == string_set(live@.take(k as int)),
            decreases live@.len() - k,
        {
            live_ids.insert(live[k].clone());
            proof {
                assert(live@.take(k + 1) =~= live@.take(k as int).push(live@[k as int]));
                crate::text::lemma_string_set_push(live@.take(k as int), live@[k as int]);
            }
            k = k + 1;
        }
        assert(live@.take(live@.len() as int) =~= live@);
        let mut next: StrMap<u128> = StrMap::new();
        let mut out: Vec<String> = Vec::new();
        let mut i: usize = 0;
        while i < all.len()
            invariant
                i <= all@.len(),
                av == views(all@),
                live_ids@ == live_set,
                seen == self.orphan_first_seen@,
                self.orphan_first_seen.wf(),
                pred == candidate_pred(live_set, inflight_set, seen, now, self.retention_nanos),
                inflight_set == string_set(inflight@),
                next.wf(),
                views(out@) == av.take(i as int).filter(pred),
                next@ == next_first_seen(av.take(i as int), live_set, inflight_set, seen, now),
            decreases all@.len() - i,
        {
            let c = all[i].as_str();
            assert(av.take(i + 1) =~= av.take(i as int).push(c@));
            proof {
                av.take(i as int).lemma_filter_push(c@, pred);
            }
            let referenced = live_ids.contains(c) || contains_str(inflight, c);
            if referenced {
                assert(next_first_seen(av.take(i + 1), live_set, inflight_set, seen, now)
                    =~= next_first_seen(av.take(i as int), live_set, inflight_set, seen, now));
            } else {
                let seen_at: u128 = match self.orphan_first_seen.get(c) {
                    Some(t) => *t,
                    None => now,
                };
                let ghost before = next@;
                next.insert(owned(c), seen_at);
                assert(next@ =~= next_first_seen(av.take(i + 1), live_set, inflight_set, seen, now)) by {
                    lemma_take_next_contains(av, i as int);
                }
                let aged = seen_at <= now && now - seen_at >= self.retention_nanos;
                if aged {
                    out.push(all[i].clone());
                    assert(views(out@) =~= views(out@).drop_last().push(c@));
                }
            }
            if referenced {
                proof {
                    lemma_take_next_contains(av, i as int);
                }
                assert(next_first_seen(av.take(i + 1), live_set, inflight_set, seen, now)
                    =~= next_first_seen(av.take(i as int), live_set, inflight_set, seen, now));
            }
            i = i + 1;
        }
        assert(av.take(all@.len() as int) =~= av);
        self.orphan_first_seen = next;
        out
    }
}

/// The first `i + 1` items hold what the first `i` hold, and item `i`.
pub proof fn lemma_take_next_contains(s: Seq<Seq<char>>, i: int)
    requires
        0 <= i < s.len(),
    ensures
        forall|d: Seq<char>| #[trigger]
            s.take(i + 1).contains(d) <==> (s.take(i).contains(d) || d == s[i]),
{
    let a = s.take(i);
    let b = s.take(i + 1);
    assert(b =~= a.push(s[i]));
    assert forall|d: Seq<char>| #[trigger] b.contains(d) <==> (a.contains(d) || d == s[i]) by {
        if b.contains(d) {
            let j = choose|j: int| 0 <= j < b.len() && b[j] == d;
            if j < i {
                assert(a[j] == d);
            }
        }
        if a.contains(d) {
            let j = choose|j: int| 0 <= j < a.len() && a[j] == d;
            assert(b[j] == d);
        }
        if d == s[i] {
            assert(b[i] == d);
        }
    }
}

impl<L: LiveRefSource, I: InflightRefSource, S: ChunkInventory> GcTrigger for GarbageCollector<
    L,
    I,
    S,
> {
    fn enqueue_candidate_scan(&mut self) -> (r: Result<(), String>)
        ensures
            r is Ok,
            old(self).depth() < old(self).max_depth() ==> final(self).depth() == old(self).depth() + 1
                && final(self).drops() == old(self).drops(),
            old(self).depth() >= old(self).max_depth() ==> final(self).depth() == old(self).depth()
                && final(self).drops() == old(self).drops().wrapping_add(1),
            final(self).max_depth() == old(self).max_depth(),
            final(self).budget() == old(self).budget(),
            final(self).retention() == old(self).retention(),
            final(self).first_seen() == old(self).first_seen(),
            final(self).audit_ids() == old(self).audit_ids(),
            final(self).audit_actions() == old(self).audit_actions(),
            final(self).decisions() == old(self).decisions(),
            final(self).inventory() == old(self).inventory(),
    {
        self.enqueue_scan();
        Ok(())
    }
}

impl<L: LiveRefSource, I: InflightRefSource, S: ChunkInventory> GcWorker for GarbageCollector<
    L,
    I,
    S,
> {
    fn run_enqueued_once(&mut self) -> (r: Result<Vec<GcReport>, String>)
        ensures
            final(self).depth() == 0,
            r matches Ok(reports) ==> reports.len() == old(self).depth(),
            old(self).depth() == 0 ==> (r matches Ok(v) && v.len() == 0),
    {
        match self.run_enqueued() {
            Ok(reports) => Ok(reports),
            Err(e) => Err(e.message()),
        }
    }
}

/// Whether `c` is one of the strings in `v`.
pub fn contains_str(v: &Vec<String>, c: &str) -> (r: bool)
    ensures
        r == string_set(v@).contains(c@),
{
    let mut i: usize = 0;
    while i < v.len()
        invariant
            i <= v@.len(),
            forall|j: int| 0 <= j < i ==> v@[j]@ != c@,
        decreases v@.len() - i,
    {
        if crate::text::str_equal(v[i].as_str(), c) {
            return true;
        }
        i = i + 1;
    }
    false
}

impl LiveRefSource for crate::metadata::InMemoryMetadataHook {
    fn live_chunk_ids(&self) -> (r: Result<Vec<String>, String>)
        ensures
            r matches Ok(ids) && string_set(ids@) == crate::metadata::live_chunk_set(self@.files),
    {
        match self.all_live_chunk_ids() {
            Ok(ids) => Ok(ids),
            Err(e) => Err(e.message()),
        }
    }
}

} // verus!
