//! The bounded correlation cache: completion by key, TTL eviction, and the
//! capacity bound.

use fanjoin::cache::CorrelationCache;
use fanjoin::errors::EngineError;
use fanjoin::token::ContextToken;
use fanjoin::value::Value;

fn key(id: u64, index: usize, total: usize) -> ContextToken {
    ContextToken::new(id).push_frame(index, total).unwrap()
}

fn str_val(text: &str) -> Value {
    Value::Str(String::from(text))
}

/// All values for a key arriving within the window complete exactly one
/// aggregate, whatever the arrival order across ports.
#[test]
fn cache_completes_by_key() {
    let mut cache = CorrelationCache::new(2, 1000, 60).unwrap();
    let a = key(1, 0, 2);
    let b = key(1, 1, 2);

    assert!(cache.insert(a.duplicate(), 0, str_val("a1"), 0).unwrap().is_none());
    assert!(cache.insert(b.duplicate(), 0, str_val("b1"), 1).unwrap().is_none());
    let b_done = cache.insert(b.duplicate(), 1, str_val("b2"), 2).unwrap().unwrap();
    assert_eq!(b_done, vec![str_val("b1"), str_val("b2")]);
    let a_done = cache.insert(a.duplicate(), 1, str_val("a2"), 3).unwrap().unwrap();
    assert_eq!(a_done, vec![str_val("a1"), str_val("a2")]);
    assert_eq!(cache.pending(), 0);
}

/// Eviction: only one of two values arrives before the time-to-live
/// elapses; the entry is dropped, a late second value starts a fresh,
/// separately-incomplete entry, and the original partial data never appears
/// in any output.
#[test]
fn cache_evicts_after_ttl() {
    let mut cache = CorrelationCache::new(2, 1000, 60).unwrap();
    let k = key(2, 0, 2);

    assert!(cache.insert(k.duplicate(), 0, str_val("early"), 0).unwrap().is_none());
    assert_eq!(cache.pending(), 1);

    // the deadline (0 + 60) has been reached: the entry is purged, and the
    // late value starts over rather than completing
    assert!(cache.insert(k.duplicate(), 1, str_val("late"), 60).unwrap().is_none());
    assert_eq!(cache.pending(), 1);

    // a fresh partner within the new window completes with the late values
    // only: the evicted "early" value is gone for good
    let done = cache.insert(k.duplicate(), 0, str_val("fresh"), 61).unwrap().unwrap();
    assert_eq!(done, vec![str_val("fresh"), str_val("late")]);
}

/// A write refreshes its entry's time-to-live.
#[test]
fn cache_refreshes_ttl_on_write() {
    let mut cache = CorrelationCache::new(2, 1000, 60).unwrap();
    let k = key(3, 0, 2);

    assert!(cache.insert(k.duplicate(), 0, str_val("one"), 0).unwrap().is_none());
    // rewrite the same slot at 59: deadline moves to 119
    assert!(cache.insert(k.duplicate(), 0, str_val("one again"), 59).unwrap().is_none());
    // 118 is still inside the refreshed window
    let done = cache.insert(k.duplicate(), 1, str_val("two"), 118).unwrap().unwrap();
    assert_eq!(done, vec![str_val("one again"), str_val("two")]);
}

/// Capacity bound: more distinct pending keys than the capacity evicts the
/// oldest entries instead of growing without bound.
#[test]
fn cache_capacity_evicts_oldest() {
    let mut cache = CorrelationCache::new(2, 2, 1000).unwrap();
    let k1 = key(1, 0, 3);
    let k2 = key(2, 0, 3);
    let k3 = key(3, 0, 3);

    assert!(cache.insert(k1.duplicate(), 0, Value::Int(1), 0).unwrap().is_none());
    assert!(cache.insert(k2.duplicate(), 0, Value::Int(2), 1).unwrap().is_none());
    assert_eq!(cache.pending(), 2);

    // a third distinct key pushes the oldest (k1) out
    assert!(cache.insert(k3.duplicate(), 0, Value::Int(3), 2).unwrap().is_none());
    assert_eq!(cache.pending(), 2);

    // k1 was evicted: its partner does not complete, it starts a fresh entry
    // (evicting k2, the oldest of the remaining two)
    assert!(cache.insert(k1.duplicate(), 1, Value::Int(9), 3).unwrap().is_none());
    assert_eq!(cache.pending(), 2);

    // k3 is still pending: its partner completes
    let done = cache.insert(k3.duplicate(), 1, Value::Int(30), 4).unwrap().unwrap();
    assert_eq!(done, vec![Value::Int(3), Value::Int(30)]);
}

/// Configuration and arrival errors, and the explicit teardown.
#[test]
fn cache_errors_and_reset() {
    assert!(matches!(
        CorrelationCache::new(0, 10, 60),
        Err(EngineError::InvalidConfig(_))
    ));

    let mut cache = CorrelationCache::new(2, 10, 60).unwrap();
    let k = key(5, 0, 2);
    assert!(matches!(
        cache.insert(k.duplicate(), 2, Value::Int(1), 0),
        Err(EngineError::InvalidValue(_))
    ));

    assert!(cache.insert(k.duplicate(), 0, Value::Int(1), 0).unwrap().is_none());
    assert_eq!(cache.pending(), 1);
    cache.reset();
    assert_eq!(cache.pending(), 0);
    // the discarded half never completes: the partner starts a fresh entry
    assert!(cache.insert(k.duplicate(), 1, Value::Int(2), 1).unwrap().is_none());
}
