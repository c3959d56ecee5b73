//! The ordered fan-in state machine: positioning, overwrite, errors, and
//! abandonment of a partial aggregate when the run identifier changes.

use fanjoin::collect::Collector;
use fanjoin::token::ContextToken;
use fanjoin::value::Value;

fn str_val(text: &str) -> Value {
    Value::Str(String::from(text))
}

/// A value under one run identifier, then a value under another before the
/// first completes: the partial 3-slot aggregate is flushed with the unit
/// placeholder in the missing slots, before the new collection starts.
#[test]
fn abandonment_flushes_partial_aggregate() {
    let mut collector = Collector::new();

    let x = ContextToken::new(1).push_frame(0, 3).unwrap();
    let none = collector.process(x, str_val("first")).unwrap();
    assert_eq!(none.len(), 0);

    let y = ContextToken::new(2).push_frame(0, 1).unwrap();
    let emissions = collector.process(y, str_val("other")).unwrap();
    assert_eq!(emissions.len(), 2);

    // the abandoned partial aggregate for X comes first, placeholders filling
    // the two slots that never arrived
    let (x_token, x_aggregate) = &emissions[0];
    assert!(x_token.same_key(&ContextToken::new(1)));
    assert_eq!(
        *x_aggregate,
        Value::List(vec![str_val("first"), Value::Unit, Value::Unit])
    );

    // the new run completed immediately (its declared length is 1)
    let (y_token, y_aggregate) = &emissions[1];
    assert!(y_token.same_key(&ContextToken::new(2)));
    assert_eq!(*y_aggregate, Value::List(vec![str_val("other")]));
}

/// Duplicate delivery of one index overwrites without double-counting.
#[test]
fn duplicate_index_overwrites() {
    let mut collector = Collector::new();
    let id = 4u64;
    let t0 = ContextToken::new(id).push_frame(0, 2).unwrap();
    let t0_again = ContextToken::new(id).push_frame(0, 2).unwrap();
    let t1 = ContextToken::new(id).push_frame(1, 2).unwrap();

    assert_eq!(collector.process(t0, Value::Int(1)).unwrap().len(), 0);
    assert_eq!(collector.process(t0_again, Value::Int(7)).unwrap().len(), 0);
    let emissions = collector.process(t1, Value::Int(2)).unwrap();
    assert_eq!(emissions.len(), 1);
    assert_eq!(emissions[0].1, Value::List(vec![Value::Int(7), Value::Int(2)]));
}

/// A frameless arrival bypasses collection and passes straight through.
#[test]
fn frameless_passthrough() {
    let mut collector = Collector::new();
    let t = ContextToken::new(11);
    let emissions = collector.process(t, str_val("as is")).unwrap();
    assert_eq!(emissions.len(), 1);
    assert_eq!(emissions[0].1, str_val("as is"));
    assert!(!collector.is_collecting());
}

/// A frame total contradicting the in-progress collection is a hard error.
#[test]
fn total_mismatch_is_error() {
    let mut collector = Collector::new();
    let id = 6u64;
    let t0 = ContextToken::new(id).push_frame(0, 3).unwrap();
    collector.process(t0, Value::Int(1)).unwrap();
    let wrong = ContextToken::new(id).push_frame(1, 2).unwrap();
    let err = collector.process(wrong, Value::Int(2)).unwrap_err();
    assert!(matches!(err, fanjoin::errors::EngineError::InvalidValue(_)));
}
