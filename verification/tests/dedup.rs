use sombra::DedupCache;

#[test]
fn duplicate_is_rejected() {
    let mut cache = DedupCache::new(4);
    assert!(cache.remember("a".into()));
    assert!(!cache.remember("a".into()));
    assert_eq!(cache.len(), 1);
}

#[test]
fn oldest_entry_is_evicted_when_full() {
    let mut cache = DedupCache::new(2);
    cache.remember("a".into());
    cache.remember("b".into());
    cache.remember("c".into());

    assert!(!cache.contains("a"));
    assert!(cache.contains("b"));
    assert!(cache.contains("c"));
}

#[test]
fn zero_capacity_is_raised_to_one() {
    let mut cache = DedupCache::new(0);
    assert_eq!(cache.capacity(), 1);
    assert!(cache.is_empty());
    assert!(cache.remember("a".into()));
    assert!(cache.remember("b".into()));
    assert_eq!(cache.len(), 1);
    assert!(!cache.contains("a"));
    assert!(cache.contains("b"));
}

#[test]
fn remembered_identifier_is_contained_and_refused_again() {
    let mut cache = DedupCache::new(3);
    assert!(!cache.contains("id-1"));
    assert!(cache.remember("id-1".into()));
    assert!(cache.contains("id-1"));
    assert!(!cache.contains("id-"));
    assert!(!cache.contains("id-10"));
    assert!(!cache.remember("id-1".into()));
    assert_eq!(cache.len(), 1);
}

#[test]
fn refused_duplicate_does_not_evict() {
    let mut cache = DedupCache::new(2);
    cache.remember("a".into());
    cache.remember("b".into());
    assert!(!cache.remember("a".into()));
    assert!(cache.contains("a"));
    assert!(cache.contains("b"));
    assert_eq!(cache.len(), 2);
}

#[test]
fn cache_keeps_the_latest_admitted_identifiers() {
    let mut cache = DedupCache::new(3);
    let calls = ["a", "b", "a", "c", "d", "b", "e"];
    let admitted: Vec<bool> = calls.iter().map(|x| cache.remember((*x).into())).collect();
    assert_eq!(admitted, vec![true, true, false, true, true, false, true]);
    assert!(!cache.contains("a"));
    assert!(!cache.contains("b"));
    assert!(cache.contains("c"));
    assert!(cache.contains("d"));
    assert!(cache.contains("e"));
    assert_eq!(cache.len(), 3);
}
