use sombra::store::{enqueue_label, retry_delay_ms, BASE_RETRY_MS, MAX_RETRY_MS, STORE_SCHEMA_VERSION};
use sombra::{AttemptOutcome, Bundle, BundleStore, EnqueueOutcome, Priority, StoreError};
use std::time::Duration;

fn bundle(priority: Priority) -> Bundle {
    Bundle::new(b"opaque-test-envelope", Duration::from_secs(60), 4, priority)
}

fn fixed(seed: u8, priority: Priority, created_at_ms: u64, lifetime_ms: u64, hop_limit: u8) -> Bundle {
    Bundle::from_parts(b"envelope", created_at_ms, lifetime_ms, hop_limit, priority, &[seed; 16])
}

#[test]
fn queue_orders_priority_and_removes_delivered_bundle() {
    let mut store = BundleStore::with_limit(8);
    let routine = bundle(Priority::Routine);
    let urgent = bundle(Priority::Urgent);
    let now = routine.created_at_ms.max(urgent.created_at_ms);

    assert_eq!(store.enqueue(routine, vec![1], now), EnqueueOutcome::Stored);
    assert_eq!(store.enqueue(urgent.clone(), vec![2], now), EnqueueOutcome::Stored);

    let ready = store.ready(now, 8);
    assert_eq!(ready[0].bundle.id, urgent.id);
    drop(ready);

    assert_eq!(store.record_attempt(&urgent.id, now, true), AttemptOutcome::Delivered);
    assert!(!store.contains(&urgent.id));
}

#[test]
fn failed_delivery_uses_bounded_backoff() {
    let mut store = BundleStore::with_limit(8);
    let item = bundle(Priority::Important);
    let now = item.created_at_ms;
    let id = item.id.clone();
    store.enqueue(item, vec![9], now);

    let first = store.record_attempt(&id, now, false);
    assert_eq!(first, AttemptOutcome::Deferred { next_attempt_at_ms: now + BASE_RETRY_MS });
    assert!(store.ready(now + 1, 1).is_empty());
    assert_eq!(store.ready(now + BASE_RETRY_MS, 1).len(), 1);
}

#[test]
fn persistence_round_trip_preserves_envelope_and_attempt_state() {
    let id;
    let entries;
    {
        let mut store = BundleStore::with_limit(8);
        let item = bundle(Priority::Important);
        let now = item.created_at_ms;
        id = item.id.clone();
        store.enqueue(item, vec![4, 5, 6], now);
        store.record_attempt(&id, now, false);
        entries = store.snapshot();
    }

    let store = BundleStore::restore(STORE_SCHEMA_VERSION, entries, 8).unwrap();
    let restored = store.get(&id).unwrap();
    assert_eq!(restored.envelope, vec![4, 5, 6]);
    assert_eq!(restored.attempts, 1);
}

#[test]
fn capacity_is_bounded() {
    let mut store = BundleStore::with_limit(1);
    let a = bundle(Priority::Routine);
    let now = a.created_at_ms;
    let b = bundle(Priority::Urgent);

    assert_eq!(store.enqueue(a, vec![1], now), EnqueueOutcome::Stored);
    assert_eq!(store.enqueue(b, vec![2], now), EnqueueOutcome::Full);
    assert_eq!(store.len(), 1);
}

#[test]
fn retry_delay_doubles_then_caps() {
    assert_eq!(retry_delay_ms(0), 2_000);
    assert_eq!(retry_delay_ms(1), 2_000);
    assert_eq!(retry_delay_ms(2), 4_000);
    assert_eq!(retry_delay_ms(3), 8_000);
    assert_eq!(retry_delay_ms(8), 256_000);
    assert_eq!(retry_delay_ms(9), MAX_RETRY_MS);
    assert_eq!(retry_delay_ms(u32::MAX), MAX_RETRY_MS);
}

#[test]
fn repeated_failures_back_off_and_count() {
    let mut store = BundleStore::with_limit(4);
    let b = fixed(1, Priority::Routine, 100, 1_000_000, 2);
    let id = b.id.clone();
    assert_eq!(store.enqueue(b, vec![1, 2], 100), EnqueueOutcome::Stored);
    assert_eq!(store.record_attempt(&id, 100, false), AttemptOutcome::Deferred { next_attempt_at_ms: 2_100 });
    assert_eq!(store.record_attempt(&id, 3_000, false), AttemptOutcome::Deferred { next_attempt_at_ms: 7_000 });
    let entry = store.get(&id).unwrap();
    assert_eq!(entry.attempts, 2);
    assert_eq!(entry.next_attempt_at_ms, 7_000);
    assert_eq!(entry.stored_at_ms, 100);
}

#[test]
fn expired_and_duplicate_bundles_are_refused() {
    let mut store = BundleStore::with_limit(4);
    let old = fixed(2, Priority::Routine, 0, 10, 2);
    assert_eq!(store.enqueue(old, vec![], 10), EnqueueOutcome::Expired);
    assert!(store.is_empty());
    let b = fixed(3, Priority::Routine, 0, 100, 2);
    let same = b.clone();
    assert_eq!(store.enqueue(b, vec![1], 5), EnqueueOutcome::Stored);
    assert_eq!(store.enqueue(same, vec![2], 6), EnqueueOutcome::Duplicate);
    assert_eq!(store.get(&store.ready(6, 4)[0].bundle.id).unwrap().envelope, vec![1]);
}

#[test]
fn enqueue_prunes_expired_bundles_first() {
    let mut store = BundleStore::with_limit(1);
    let short = fixed(4, Priority::Urgent, 0, 10, 2);
    let id = short.id.clone();
    assert_eq!(store.enqueue(short, vec![], 0), EnqueueOutcome::Stored);
    let next = fixed(5, Priority::Routine, 0, 100, 2);
    assert_eq!(store.enqueue(next, vec![], 10), EnqueueOutcome::Stored);
    assert!(!store.contains(&id));
    assert_eq!(store.len(), 1);
}

#[test]
fn prune_counts_removed_bundles() {
    let mut store = BundleStore::with_limit(8);
    store.enqueue(fixed(6, Priority::Routine, 0, 10, 1), vec![], 0);
    store.enqueue(fixed(7, Priority::Routine, 0, 20, 1), vec![], 0);
    store.enqueue(fixed(8, Priority::Routine, 0, 30, 1), vec![], 0);
    assert_eq!(store.prune_expired(20), 2);
    assert_eq!(store.len(), 1);
    assert_eq!(store.prune_expired(20), 0);
    assert_eq!(store.max_bundles(), 8);
}

#[test]
fn ready_skips_bundles_without_hops_and_respects_limit() {
    let mut store = BundleStore::with_limit(8);
    let stuck = fixed(9, Priority::Urgent, 0, 1_000, 0);
    let stuck_id = stuck.id.clone();
    let a = fixed(10, Priority::Routine, 5, 1_000, 1);
    let b = fixed(11, Priority::Important, 6, 1_000, 1);
    let c = fixed(12, Priority::Important, 4, 1_000, 1);
    let (a_id, b_id, c_id) = (a.id.clone(), b.id.clone(), c.id.clone());
    for x in [stuck, a, b, c] {
        assert_eq!(store.enqueue(x, vec![], 10), EnqueueOutcome::Stored);
    }
    let all: Vec<String> = store.ready(10, 8).iter().map(|e| e.bundle.id.clone()).collect();
    assert_eq!(all, vec![c_id.clone(), b_id.clone(), a_id]);
    assert!(!all.contains(&stuck_id));
    let two: Vec<String> = store.ready(10, 2).iter().map(|e| e.bundle.id.clone()).collect();
    assert_eq!(two, vec![c_id, b_id]);
    assert!(store.ready(10, 0).is_empty());
    assert!(store.ready(1_006, 8).is_empty());
    assert_eq!(store.ready(1_005, 8).len(), 1);
}

#[test]
fn missing_bundle_attempts_report_missing() {
    let mut store = BundleStore::with_limit(2);
    assert_eq!(store.record_attempt("nope", 0, true), AttemptOutcome::Missing);
    assert_eq!(store.record_attempt("nope", 0, false), AttemptOutcome::Missing);
    let b = fixed(13, Priority::Routine, 0, 100, 1);
    let id = b.id.clone();
    store.enqueue(b, vec![], 0);
    assert_eq!(store.record_attempt(&id, 1, true), AttemptOutcome::Delivered);
    assert_eq!(store.record_attempt(&id, 2, true), AttemptOutcome::Missing);
}

#[test]
fn restore_refuses_other_schema_versions() {
    let err = BundleStore::restore(2, Vec::new(), 8).unwrap_err();
    assert_eq!(err, StoreError::UnsupportedSchema { found: 2 });
    let store = BundleStore::restore(STORE_SCHEMA_VERSION, Vec::new(), 0).unwrap();
    assert_eq!(store.max_bundles(), 1);
    assert!(store.is_empty());
}

#[test]
fn restore_keeps_the_last_entry_of_an_identifier() {
    let mut first = BundleStore::with_limit(4);
    let b = fixed(14, Priority::Routine, 0, 100, 1);
    let id = b.id.clone();
    first.enqueue(b.clone(), vec![1], 0);
    let mut second = BundleStore::with_limit(4);
    second.enqueue(b, vec![2], 0);
    let mut entries = first.snapshot();
    entries.extend(second.snapshot());
    let store = BundleStore::restore(STORE_SCHEMA_VERSION, entries, 4).unwrap();
    assert_eq!(store.len(), 1);
    assert_eq!(store.get(&id).unwrap().envelope, vec![2]);
}

#[test]
fn enqueue_outcomes_have_labels() {
    assert_eq!(enqueue_label(&EnqueueOutcome::Stored), "stored");
    assert_eq!(enqueue_label(&EnqueueOutcome::Duplicate), "duplicate");
    assert_eq!(enqueue_label(&EnqueueOutcome::Expired), "expired");
    assert_eq!(enqueue_label(&EnqueueOutcome::Full), "full");
}
