//! The N-way join nodes: positional alignment, context-key correlation
//! through the bounded cache, the keyed record variant, their configuration,
//! and the standalone queue-based scanner variant.

use fanjoin::correlated::CorrelatedJoin;
use fanjoin::errors::EngineError;
use fanjoin::scanner::find_first_common_key;
use fanjoin::token::ContextToken;
use fanjoin::value::Value;
use fanjoin::zip::{SyncJoin, ZipToObject};

fn s(text: &str) -> String {
    String::from(text)
}

fn str_val(text: &str) -> Value {
    Value::Str(String::from(text))
}

/// Positional determinism: whatever the interleaving, tuple `j` pairs the
/// `j`-th value delivered on each port.
#[test]
fn positional_pairs_by_arrival_order() {
    let mut join = SyncJoin::new(2, false, 1000, 60).unwrap();
    let t = ContextToken::new(0);

    assert!(join.process("in1", t.duplicate(), str_val("a1"), 0).unwrap().is_none());
    assert!(join.process("in1", t.duplicate(), str_val("a2"), 1).unwrap().is_none());
    let first = join.process("in2", t.duplicate(), str_val("b1"), 2).unwrap().unwrap();
    assert_eq!(first, vec![str_val("a1"), str_val("b1")]);
    let second = join.process("in2", t.duplicate(), str_val("b2"), 3).unwrap().unwrap();
    assert_eq!(second, vec![str_val("a2"), str_val("b2")]);
}

/// Context-correlated correctness at the node: port 1 receives keys [A, B],
/// then port 2 receives [B, A]; both joins complete within the window, each
/// key exactly once, correctly paired despite the reversed arrival order.
#[test]
fn correlated_pairs_by_key() {
    let mut join = SyncJoin::new(2, true, 1000, 60).unwrap();
    let a = ContextToken::new(1).push_frame(0, 2).unwrap();
    let b = ContextToken::new(1).push_frame(1, 2).unwrap();

    assert!(join.process("in1", a.duplicate(), str_val("a1"), 0).unwrap().is_none());
    assert!(join.process("in1", b.duplicate(), str_val("b1"), 1).unwrap().is_none());
    let first = join.process("in2", b.duplicate(), str_val("b2"), 2).unwrap().unwrap();
    assert_eq!(first, vec![str_val("b1"), str_val("b2")]);
    let second = join.process("in2", a.duplicate(), str_val("a2"), 3).unwrap().unwrap();
    assert_eq!(second, vec![str_val("a1"), str_val("a2")]);
}

/// TTL eviction at the node: one of two values waits past its time-to-live;
/// the pending entry is dropped, the late partner starts a fresh entry, and
/// the early value never appears in any emission.
#[test]
fn node_evicts_after_ttl() {
    let mut join = SyncJoin::new(2, true, 1000, 60).unwrap();
    let k = ContextToken::new(2).push_frame(0, 2).unwrap();

    assert!(join.process("in1", k.duplicate(), str_val("early"), 0).unwrap().is_none());
    // the deadline (0 + 60) has been reached: the entry is purged, and the
    // late value starts over rather than completing
    assert!(join.process("in2", k.duplicate(), str_val("late"), 60).unwrap().is_none());
    // a fresh partner within the new window completes with the late values
    let done = join.process("in1", k.duplicate(), str_val("fresh"), 61).unwrap().unwrap();
    assert_eq!(done, vec![str_val("fresh"), str_val("late")]);
}

/// Capacity bound at the node: a second distinct pending key pushes the
/// oldest out when the capacity is one; the evicted key's partner starts a
/// fresh entry instead of completing.
#[test]
fn node_capacity_evicts_oldest() {
    let mut join = SyncJoin::new(2, true, 1, 1000).unwrap();
    let k1 = ContextToken::new(1).push_frame(0, 3).unwrap();
    let k2 = ContextToken::new(2).push_frame(0, 3).unwrap();

    assert!(join.process("in1", k1.duplicate(), Value::Int(1), 0).unwrap().is_none());
    // k2 displaces k1 (capacity 1, oldest first)
    assert!(join.process("in1", k2.duplicate(), Value::Int(2), 1).unwrap().is_none());
    // k1's partner finds nothing pending: a fresh entry, displacing k2
    assert!(join.process("in2", k1.duplicate(), Value::Int(9), 2).unwrap().is_none());
    // k2's partner likewise starts over
    assert!(join.process("in2", k2.duplicate(), Value::Int(8), 3).unwrap().is_none());
    // the freshest pending entry (k2's second arrival) can still complete
    let done = join.process("in1", k2.duplicate(), Value::Int(7), 4).unwrap().unwrap();
    assert_eq!(done, vec![Value::Int(7), Value::Int(8)]);
}

/// An unrecognized pin name is a value error; a port count below one is a
/// configuration error; changing the configuration resets pending state.
#[test]
fn join_configuration_and_errors() {
    assert!(matches!(
        SyncJoin::new(0, false, 1000, 60),
        Err(EngineError::InvalidConfig(_))
    ));

    let mut join = SyncJoin::new(2, false, 1000, 60).unwrap();
    let t = ContextToken::new(0);
    let err = join.process("value", t.duplicate(), Value::Int(1), 0).unwrap_err();
    assert!(matches!(err, EngineError::InvalidValue(_)));
    assert!(!err.describe().is_empty());
    assert!(matches!(
        join.process("in3", t.duplicate(), Value::Int(1), 0),
        Err(EngineError::InvalidValue(_))
    ));

    // a pending value on port 1 is discarded by reconfiguration
    assert!(join.process("in1", t.duplicate(), Value::Int(5), 0).unwrap().is_none());
    join.configure(3, false, 1000, 60).unwrap();
    assert!(join.process("in2", t.duplicate(), Value::Int(6), 1).unwrap().is_none());
    assert!(join.process("in3", t.duplicate(), Value::Int(7), 2).unwrap().is_none());
    // port 1's old value is gone: the join is still waiting for in1
    let done = join.process("in1", t.duplicate(), Value::Int(8), 3).unwrap().unwrap();
    assert_eq!(done, vec![Value::Int(8), Value::Int(6), Value::Int(7)]);
}

/// The array-producing emission shape wraps a completed tuple as one list.
#[test]
fn process_to_array_wraps_tuple() {
    let mut join = SyncJoin::new(2, false, 1000, 60).unwrap();
    let t = ContextToken::new(0);

    assert!(join.process_to_array("in1", t.duplicate(), Value::Int(1), 0).unwrap().is_none());
    let arr = join.process_to_array("in2", t.duplicate(), Value::Int(2), 1).unwrap().unwrap();
    assert_eq!(arr, Value::List(vec![Value::Int(1), Value::Int(2)]));
}

/// The keyed variant zips the tuple against the configured field names.
#[test]
fn zip_to_object_builds_record() {
    let mut join = ZipToObject::new(2, false, 1000, 60, vec![s("left"), s("right")]).unwrap();
    let t = ContextToken::new(0);

    assert!(join.process("in1", t.duplicate(), Value::Int(1), 0).unwrap().is_none());
    let record = join.process("in2", t.duplicate(), Value::Int(2), 1).unwrap().unwrap();
    assert_eq!(
        record,
        Value::Record(vec![(s("left"), Value::Int(1)), (s("right"), Value::Int(2))])
    );
}

/// The keyed variant pairs by canonical key through the cache as well.
#[test]
fn zip_to_object_pairs_by_key() {
    let mut join = ZipToObject::new(2, true, 1000, 60, vec![s("x"), s("y")]).unwrap();
    let a = ContextToken::new(1).push_frame(0, 2).unwrap();
    let b = ContextToken::new(1).push_frame(1, 2).unwrap();

    assert!(join.process("in1", a.duplicate(), str_val("a1"), 0).unwrap().is_none());
    assert!(join.process("in1", b.duplicate(), str_val("b1"), 1).unwrap().is_none());
    let first = join.process("in2", b.duplicate(), str_val("b2"), 2).unwrap().unwrap();
    assert_eq!(
        first,
        Value::Record(vec![(s("x"), str_val("b1")), (s("y"), str_val("b2"))])
    );
    let second = join.process("in2", a.duplicate(), str_val("a2"), 3).unwrap().unwrap();
    assert_eq!(
        second,
        Value::Record(vec![(s("x"), str_val("a1")), (s("y"), str_val("a2"))])
    );
}

/// A missing per-port field name is rejected at configuration time.
#[test]
fn zip_to_object_requires_names() {
    assert!(matches!(
        ZipToObject::new(2, false, 1000, 60, vec![s("only")]),
        Err(EngineError::InvalidConfig(_))
    ));
    assert!(matches!(
        ZipToObject::new(2, false, 1000, 60, vec![s("x"), s("")]),
        Err(EngineError::InvalidConfig(_))
    ));
    assert!(matches!(
        ZipToObject::new(0, false, 1000, 60, Vec::new()),
        Err(EngineError::InvalidConfig(_))
    ));
}

/// Reconfiguring the keyed variant: an unchanged configuration keeps the
/// pending state; a changed one (field names included) resets it; an invalid
/// one is rejected with the state untouched.
#[test]
fn zip_to_object_configure() {
    let mut join = ZipToObject::new(2, false, 1000, 60, vec![s("x"), s("y")]).unwrap();
    let t = ContextToken::new(0);

    assert!(join.process("in1", t.duplicate(), Value::Int(1), 0).unwrap().is_none());

    // same configuration: the pending value on port 1 survives
    join.configure(2, false, 1000, 60, vec![s("x"), s("y")]).unwrap();
    let record = join.process("in2", t.duplicate(), Value::Int(2), 1).unwrap().unwrap();
    assert_eq!(
        record,
        Value::Record(vec![(s("x"), Value::Int(1)), (s("y"), Value::Int(2))])
    );

    // an invalid configuration is rejected, leaving the state untouched
    assert!(join.process("in1", t.duplicate(), Value::Int(3), 2).unwrap().is_none());
    assert!(matches!(
        join.configure(2, false, 1000, 60, vec![s("x"), s("")]),
        Err(EngineError::InvalidConfig(_))
    ));
    let record = join.process("in2", t.duplicate(), Value::Int(4), 3).unwrap().unwrap();
    assert_eq!(
        record,
        Value::Record(vec![(s("x"), Value::Int(3)), (s("y"), Value::Int(4))])
    );

    // changed field names reset the pending state
    assert!(join.process("in1", t.duplicate(), Value::Int(5), 4).unwrap().is_none());
    join.configure(2, false, 1000, 60, vec![s("a"), s("b")]).unwrap();
    assert!(join.process("in2", t.duplicate(), Value::Int(6), 5).unwrap().is_none());
    let record = join.process("in1", t.duplicate(), Value::Int(7), 6).unwrap().unwrap();
    assert_eq!(
        record,
        Value::Record(vec![(s("a"), Value::Int(7)), (s("b"), Value::Int(6))])
    );
}

/// The queue-based variant matches by key while entries are still queued;
/// entries queued before the matched position are permanently dropped.
#[test]
fn queue_variant_drops_unmatched_prefix() {
    let mut join = CorrelatedJoin::new(2).unwrap();
    let orphan = ContextToken::new(1).push_frame(0, 3).unwrap();
    let k = ContextToken::new(1).push_frame(1, 3).unwrap();

    // the orphan waits on port 0 and never gets a partner on port 1
    assert!(join.push(0, orphan.duplicate(), str_val("lost")).unwrap().is_none());
    assert!(join.push(0, k.duplicate(), str_val("k1")).unwrap().is_none());
    let tuple = join.push(1, k.duplicate(), str_val("k2")).unwrap().unwrap();
    assert_eq!(tuple, vec![str_val("k1"), str_val("k2")]);

    // the orphan was dropped with the match: a later partner starts over
    assert!(join.push(1, orphan.duplicate(), str_val("late")).unwrap().is_none());
}

/// The scanner reports the first common key's position in every queue, and
/// the queue-based join pops exactly those entries.
#[test]
fn scanner_positions_and_queue_join() {
    let a = ContextToken::new(1).push_frame(0, 2).unwrap();
    let b = ContextToken::new(1).push_frame(1, 2).unwrap();
    let queues = vec![
        vec![(a.duplicate(), Value::Int(1)), (b.duplicate(), Value::Int(2))],
        vec![(b.duplicate(), Value::Int(3))],
    ];
    assert_eq!(find_first_common_key(&queues), Some(vec![1, 0]));

    let mut join = CorrelatedJoin::new(2).unwrap();
    assert!(join.push(0, a.duplicate(), Value::Int(1)).unwrap().is_none());
    assert!(join.push(0, b.duplicate(), Value::Int(2)).unwrap().is_none());
    let got = join.push(1, b.duplicate(), Value::Int(3)).unwrap();
    assert_eq!(got, Some(vec![Value::Int(2), Value::Int(3)]));
}
