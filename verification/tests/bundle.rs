use sombra::bundle::epoch_millis;
use sombra::ident::{build_id_preimage, compute_bundle_id, hex_prefix};
use sombra::{Bundle, Priority};
use std::time::Duration;

#[test]
fn identical_payloads_get_distinct_bundle_ids() {
    let a = Bundle::new(b"same", Duration::from_secs(60), 4, Priority::Routine);
    let b = Bundle::new(b"same", Duration::from_secs(60), 4, Priority::Routine);
    assert_ne!(a.id, b.id);
}

#[test]
fn forwarding_preserves_identity_and_decrements_hop_limit() {
    let bundle = Bundle::new(b"payload", Duration::from_secs(60), 2, Priority::Important);
    let forwarded = bundle.forwarded().unwrap();
    assert_eq!(forwarded.id, bundle.id);
    assert_eq!(forwarded.hop_limit, 1);
}

#[test]
fn new_bundle_lives_for_its_lifetime() {
    let bundle = Bundle::new(b"payload", Duration::from_secs(60), 3, Priority::Urgent);
    assert_eq!(bundle.expires_at_ms - bundle.created_at_ms, 60_000);
    assert_eq!(bundle.payload_bytes, 7);
    assert_eq!(bundle.hop_limit, 3);
    assert_eq!(bundle.priority, Priority::Urgent);
    assert_eq!(bundle.id.len(), 24);
    assert!(bundle.id.chars().all(|c| c.is_ascii_hexdigit() && !c.is_ascii_uppercase()));
}

#[test]
fn bundle_without_hops_is_not_forwarded() {
    let bundle = Bundle::from_parts(b"x", 10, 5, 0, Priority::Routine, &[0u8; 16]);
    assert!(!bundle.can_forward());
    assert!(bundle.forwarded().is_none());
}

#[test]
fn expiry_starts_at_the_expiry_instant() {
    let bundle = Bundle::from_parts(b"x", 1_000, 500, 1, Priority::Routine, &[7u8; 16]);
    assert_eq!(bundle.expires_at_ms, 1_500);
    assert!(!bundle.is_expired_at(1_499));
    assert!(bundle.is_expired_at(1_500));
    assert!(bundle.is_expired_at(9_999));
}

#[test]
fn expiry_saturates_at_the_end_of_time() {
    let bundle = Bundle::from_parts(b"x", u64::MAX - 10, 500, 1, Priority::Routine, &[7u8; 16]);
    assert_eq!(bundle.expires_at_ms, u64::MAX);
}

#[test]
fn identifier_is_truncated_blake3_of_routing_fields_entropy_and_payload() {
    let entropy = [3u8; 16];
    let payload = b"opaque-envelope";
    let bundle = Bundle::from_parts(payload, 42, 1_000, 8, Priority::Important, &entropy);

    let mut hasher = blake3::Hasher::new();
    hasher.update(&42u64.to_be_bytes());
    hasher.update(&1_042u64.to_be_bytes());
    hasher.update(&[8u8, 1u8]);
    hasher.update(&(payload.len() as u64).to_be_bytes());
    hasher.update(&entropy);
    hasher.update(payload);
    let expected = hasher.finalize().to_hex()[..24].to_string();
    assert_eq!(bundle.id, expected);
}

#[test]
fn identifier_depends_on_entropy() {
    let a = compute_bundle_id(1, 2, 3, Priority::Routine, b"p", &[0u8; 16]);
    let b = compute_bundle_id(1, 2, 3, Priority::Routine, b"p", &[1u8; 16]);
    assert_ne!(a, b);
    let again = compute_bundle_id(1, 2, 3, Priority::Routine, b"p", &[0u8; 16]);
    assert_eq!(a, again);
}

#[test]
fn preimage_layout_is_big_endian_fields_then_entropy_then_payload() {
    let pre = build_id_preimage(0x0102, 0x0304, 9, Priority::Urgent, b"ab", &[5u8; 16]);
    let mut expected = vec![0, 0, 0, 0, 0, 0, 1, 2, 0, 0, 0, 0, 0, 0, 3, 4, 9, 2, 0, 0, 0, 0, 0, 0, 0, 2];
    expected.extend_from_slice(&[5u8; 16]);
    expected.extend_from_slice(b"ab");
    assert_eq!(pre, expected);
}

#[test]
fn hex_prefix_is_lowercase_high_nibble_first() {
    assert_eq!(hex_prefix(&[0xbe, 0xef, 0x01, 0xa0], 3), "beef01");
    assert_eq!(hex_prefix(&[0xbe], 0), "");
}

#[test]
fn epoch_millis_truncates_and_defaults_to_zero() {
    assert_eq!(epoch_millis(None), 0);
    assert_eq!(epoch_millis(Some(Duration::from_millis(1_234))), 1_234);
    assert_eq!(epoch_millis(Some(Duration::from_secs(3))), 3_000);
    assert_eq!(epoch_millis(Some(Duration::from_micros(2_999))), 2);
    let big = Duration::from_millis(u64::MAX) + Duration::from_millis(5);
    assert_eq!(epoch_millis(Some(big)), 4);
}
