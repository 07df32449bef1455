use redirectfs::gc::{
    sweep_step, ChunkInventory, GarbageCollector, GcTrigger, GcWorker, InflightRefSource,
    LiveRefSource, SweepAction,
};
use std::collections::HashSet;
use std::sync::Mutex;
use std::time::Duration;

struct Live {
    refs: Mutex<HashSet<String>>,
}
impl LiveRefSource for Live {
    fn live_chunk_ids(&self) -> Result<Vec<String>, String> {
        self.refs
            .lock()
            .map(|s| s.iter().cloned().collect())
            .map_err(|_| "poisoned".to_string())
    }
}

struct Inflight {
    refs: Mutex<HashSet<String>>,
}
impl InflightRefSource for Inflight {
    fn inflight_chunk_ids(&self) -> Result<Vec<String>, String> {
        self.refs
            .lock()
            .map(|s| s.iter().cloned().collect())
            .map_err(|_| "poisoned".to_string())
    }
}

struct Store {
    chunks: Mutex<HashSet<String>>,
}
impl ChunkInventory for Store {
    fn all_chunk_ids(&self) -> Result<Vec<String>, String> {
        self.chunks
            .lock()
            .map(|s| s.iter().cloned().collect())
            .map_err(|_| "poisoned".to_string())
    }

    fn delete_chunk(&self, chunk_id: &str) -> Result<(), String> {
        let mut s = self.chunks.lock().map_err(|_| "poisoned".to_string())?;
        s.remove(chunk_id);
        Ok(())
    }
}

fn set(items: &[&str]) -> Mutex<HashSet<String>> {
    Mutex::new(items.iter().map(|s| s.to_string()).collect())
}

#[test]
fn gc_skips_live_and_inflight_and_deletes_orphans() {
    let live = Live { refs: set(&["c1"]) };
    let inflight = Inflight { refs: set(&["c2"]) };
    let store = Store { chunks: set(&["c1", "c2", "c3"]) };

    let mut gc = GarbageCollector::new(live, inflight, store, Duration::from_secs(0));
    let report = gc.sweep_once().expect("sweep should succeed");

    assert_eq!(report.deleted, 1);
    assert_eq!(report.candidates, 1);
}

#[test]
fn enqueue_is_non_blocking_until_worker_runs() {
    let live = Live { refs: set(&[]) };
    let inflight = Inflight { refs: set(&[]) };
    let store = Store { chunks: set(&["c1"]) };
    let mut gc = GarbageCollector::new(live, inflight, store, Duration::from_secs(0));

    gc.enqueue_candidate_scan().expect("enqueue should succeed");
    // No worker run yet; chunk remains present.
    assert_eq!(gc.store().all_chunk_ids().expect("inventory should work").len(), 1);

    let reports = gc.run_enqueued().expect("worker should run");
    assert_eq!(reports.len(), 1);
    assert_eq!(reports[0].deleted, 1);
}

#[test]
fn delete_budget_limits_deletes_per_sweep() {
    let live = Live { refs: set(&[]) };
    let inflight = Inflight { refs: set(&[]) };
    let store = Store { chunks: set(&["c1", "c2", "c3"]) };

    let mut gc = GarbageCollector::new(live, inflight, store, Duration::from_secs(0))
        .with_delete_budget(1);
    let report = gc.sweep_once().expect("sweep should succeed");
    assert_eq!(report.candidates, 3);
    assert_eq!(report.deleted, 1);
    assert_eq!(report.deferred, 2);

    let report2 = gc.sweep_once().expect("second sweep should succeed");
    assert_eq!(report2.deleted, 1);
    assert_eq!(report2.deferred, 1);

    let report3 = gc.sweep_once().expect("third sweep should succeed");
    assert_eq!(report3.deleted, 1);
    assert_eq!(report3.deferred, 0);
}

#[test]
fn enqueue_is_bounded_by_max_pending_and_counts_drops() {
    let live = Live { refs: set(&[]) };
    let inflight = Inflight { refs: set(&[]) };
    let store = Store { chunks: set(&["c1", "c2"]) };
    let mut gc = GarbageCollector::new(live, inflight, store, Duration::from_secs(0))
        .with_max_enqueued_scans(2);

    for _ in 0..5 {
        gc.enqueue_candidate_scan().expect("enqueue should not fail");
    }

    assert_eq!(gc.enqueued_scan_depth(), 2);
    assert_eq!(gc.dropped_enqueues(), 3);

    let reports = gc.run_enqueued().expect("worker should run queued scans");
    assert_eq!(reports.len(), 2);
    assert_eq!(gc.enqueued_scan_depth(), 0);
}

#[test]
fn retention_keeps_fresh_orphans() {
    let live = Live { refs: set(&[]) };
    let inflight = Inflight { refs: set(&[]) };
    let store = Store { chunks: set(&["c1"]) };
    let mut gc = GarbageCollector::new(live, inflight, store, Duration::from_secs(3600));
    let report = gc.sweep_once().expect("sweep should succeed");
    assert_eq!(report.candidates, 0);
    assert_eq!(report.deleted, 0);
    assert_eq!(gc.store().all_chunk_ids().unwrap().len(), 1);
}

#[test]
fn sweeps_leave_an_audit_trail() {
    let live = Live { refs: set(&[]) };
    let inflight = Inflight { refs: set(&[]) };
    let store = Store { chunks: set(&["c9"]) };
    let mut gc = GarbageCollector::new(live, inflight, store, Duration::from_secs(0));
    gc.sweep_once().unwrap();
    let audit = gc.audit_log().unwrap();
    assert_eq!(audit.len(), 1);
    assert_eq!(audit[0].chunk_id, "c9");
}

#[test]
fn worker_interface_runs_queued_scans() {
    let live = Live { refs: set(&["c1"]) };
    let inflight = Inflight { refs: set(&[]) };
    let store = Store { chunks: set(&["c1", "c2"]) };
    let mut gc = GarbageCollector::new(live, inflight, store, Duration::from_secs(0));
    assert!(gc.run_enqueued_once().unwrap().is_empty());
    gc.enqueue_candidate_scan().unwrap();
    let reports = gc.run_enqueued_once().unwrap();
    assert_eq!(reports.len(), 1);
    assert_eq!(reports[0].deleted, 1);
    assert_eq!(gc.store().all_chunk_ids().unwrap(), vec!["c1".to_string()]);
}

#[test]
fn sweep_step_decides_each_candidate() {
    let live = vec!["a".to_string()];
    let inflight = vec!["b".to_string()];
    assert_eq!(sweep_step("a", &live, &inflight, 0, None), SweepAction::Defer);
    assert_eq!(sweep_step("b", &live, &inflight, 0, None), SweepAction::Defer);
    assert_eq!(sweep_step("c", &live, &inflight, 5, None), SweepAction::Delete);
    assert_eq!(sweep_step("c", &live, &inflight, 1, Some(2)), SweepAction::Delete);
    assert_eq!(sweep_step("c", &live, &inflight, 2, Some(2)), SweepAction::Stop);
    assert_eq!(sweep_step("a", &live, &inflight, 2, Some(2)), SweepAction::Stop);
}

#[test]
fn run_enqueued_with_empty_queue_does_nothing() {
    let mut gc = GarbageCollector::new(
        Live { refs: set(&[]) },
        Inflight { refs: set(&[]) },
        Store { chunks: set(&["c1"]) },
        Duration::from_secs(0),
    );
    let reports = gc.run_enqueued().expect("empty queue runs");
    assert!(reports.is_empty());
    assert_eq!(gc.store().all_chunk_ids().unwrap(), vec!["c1".to_string()]);
}
