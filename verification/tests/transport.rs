use sombra::TransportKind;

#[test]
fn transport_labels() {
    assert_eq!(TransportKind::ShortRange.label(), "short-range");
    assert_eq!(TransportKind::LongRange.label(), "long-range");
    assert_eq!(TransportKind::DelayTolerant.label(), "delay-tolerant");
    assert_eq!(TransportKind::Internet.label(), "internet");
}
