use sombra::{BundleScheduler, Priority, ScheduleCandidate};

fn candidate(id: &str, priority: Priority, created_at_ms: u64, attempts: u32) -> ScheduleCandidate {
    ScheduleCandidate { id: id.into(), priority, created_at_ms, attempts }
}

#[test]
fn urgent_bundles_are_scheduled_first() {
    let mut items = vec![
        ScheduleCandidate {
            id: "routine".into(),
            priority: Priority::Routine,
            created_at_ms: 1,
            attempts: 0,
        },
        ScheduleCandidate {
            id: "urgent".into(),
            priority: Priority::Urgent,
            created_at_ms: 9,
            attempts: 0,
        },
        ScheduleCandidate {
            id: "important".into(),
            priority: Priority::Important,
            created_at_ms: 2,
            attempts: 0,
        },
    ];

    BundleScheduler.order(&mut items);
    assert_eq!(items[0].id, "urgent");
    assert_eq!(items[1].id, "important");
    assert_eq!(items[2].id, "routine");
}

#[test]
fn older_bundle_wins_within_same_priority_and_attempt_count() {
    let mut items = vec![
        ScheduleCandidate {
            id: "new".into(),
            priority: Priority::Important,
            created_at_ms: 20,
            attempts: 1,
        },
        ScheduleCandidate {
            id: "old".into(),
            priority: Priority::Important,
            created_at_ms: 10,
            attempts: 1,
        },
    ];

    BundleScheduler.order(&mut items);
    assert_eq!(items[0].id, "old");
}

#[test]
fn fewer_attempts_win_within_same_priority() {
    let mut items = vec![
        candidate("retried", Priority::Routine, 1, 3),
        candidate("fresh", Priority::Routine, 50, 0),
    ];
    BundleScheduler.order(&mut items);
    assert_eq!(items[0].id, "fresh");
    assert_eq!(items[1].id, "retried");
}

#[test]
fn identifier_breaks_remaining_ties_bytewise() {
    let mut items = vec![
        candidate("b", Priority::Urgent, 5, 0),
        candidate("ab", Priority::Urgent, 5, 0),
        candidate("a", Priority::Urgent, 5, 0),
        candidate("B", Priority::Urgent, 5, 0),
    ];
    BundleScheduler.order(&mut items);
    let ids: Vec<&str> = items.iter().map(|c| c.id.as_str()).collect();
    assert_eq!(ids, vec!["B", "a", "ab", "b"]);
}

#[test]
fn ordering_keeps_every_candidate() {
    let mut items = vec![
        candidate("x", Priority::Routine, 3, 1),
        candidate("y", Priority::Important, 2, 2),
        candidate("z", Priority::Urgent, 1, 9),
        candidate("x", Priority::Routine, 3, 1),
    ];
    BundleScheduler.order(&mut items);
    let ids: Vec<&str> = items.iter().map(|c| c.id.as_str()).collect();
    assert_eq!(ids, vec!["z", "y", "x", "x"]);
    let mut empty: Vec<ScheduleCandidate> = Vec::new();
    BundleScheduler.order(&mut empty);
    assert!(empty.is_empty());
}
