use sombra::simulation::priority_for_roll;
use sombra::{DeliveryTally, Priority, TransportKind};

#[test]
fn tally_counts_and_averages_latency() {
    let mut tally = DeliveryTally::new();
    assert_eq!(tally.mean_latency_ms(), 0);
    tally.record(TransportKind::LongRange, 100);
    tally.record(TransportKind::LongRange, 201);
    tally.record(TransportKind::Internet, 50);
    assert_eq!(tally.delivered(), 3);
    assert_eq!(tally.count(TransportKind::LongRange), 2);
    assert_eq!(tally.count(TransportKind::Internet), 1);
    assert_eq!(tally.count(TransportKind::ShortRange), 0);
    assert_eq!(tally.count(TransportKind::DelayTolerant), 0);
    assert_eq!(tally.mean_latency_ms(), 117);
}

#[test]
fn tally_mean_of_huge_latencies_fits() {
    let mut tally = DeliveryTally::new();
    tally.record(TransportKind::DelayTolerant, u64::MAX);
    tally.record(TransportKind::DelayTolerant, u64::MAX);
    assert_eq!(tally.mean_latency_ms(), u64::MAX);
}

#[test]
fn message_priority_rolls() {
    assert_eq!(priority_for_roll(0), Priority::Urgent);
    assert_eq!(priority_for_roll(4), Priority::Urgent);
    assert_eq!(priority_for_roll(5), Priority::Important);
    assert_eq!(priority_for_roll(24), Priority::Important);
    assert_eq!(priority_for_roll(25), Priority::Routine);
    assert_eq!(priority_for_roll(99), Priority::Routine);
}
