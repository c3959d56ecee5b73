//! Fan-out/fan-in round trips and the frame-stack discipline of context
//! tokens.

use fanjoin::collect::Collector;
use fanjoin::fanout::fan_out;
use fanjoin::token::ContextToken;
use fanjoin::value::Value;

fn ints(values: &[i64]) -> Value {
    Value::List(values.iter().map(|v| Value::Int(*v)).collect())
}

/// A list fanned out and collected in order comes back unchanged, under the
/// original token.
#[test]
fn round_trip_list() {
    let token = ContextToken::new(7);
    let input = ints(&[10, 20, 30]);
    let tagged = fan_out(&token, input);
    assert_eq!(tagged.len(), 3);

    let mut collector = Collector::new();
    let mut emissions = Vec::new();
    for (t, v) in tagged {
        emissions.extend(collector.process(t, v).unwrap());
    }
    assert_eq!(emissions.len(), 1);
    let (out_token, aggregate) = emissions.remove(0);
    assert_eq!(aggregate, ints(&[10, 20, 30]));
    assert!(out_token.same_key(&token));
    assert!(!collector.is_collecting());
}

/// A value that is not a list round-trips as a singleton list.
#[test]
fn round_trip_scalar() {
    let token = ContextToken::new(3);
    let tagged = fan_out(&token, Value::Int(99));
    assert_eq!(tagged.len(), 1);

    let mut collector = Collector::new();
    let mut emissions = Vec::new();
    for (t, v) in tagged {
        emissions.extend(collector.process(t, v).unwrap());
    }
    assert_eq!(emissions.len(), 1);
    assert_eq!(emissions[0].1, ints(&[99]));
}

/// An empty list fans out into zero items, so the paired fan-in never runs.
#[test]
fn round_trip_empty_list() {
    let token = ContextToken::new(1);
    let tagged = fan_out(&token, Value::List(Vec::new()));
    assert_eq!(tagged.len(), 0);
}

/// A round trip works regardless of the order the items come back in.
#[test]
fn round_trip_reordered() {
    let token = ContextToken::new(9);
    let tagged = fan_out(&token, ints(&[1, 2, 3]));
    let mut collector = Collector::new();
    let mut emissions = Vec::new();
    let mut shuffled = tagged;
    shuffled.swap(0, 2);
    for (t, v) in shuffled {
        emissions.extend(collector.process(t, v).unwrap());
    }
    assert_eq!(emissions.len(), 1);
    assert_eq!(emissions[0].1, ints(&[1, 2, 3]));
}

/// Nested pushes pop in strict LIFO order, and sibling frames never collide.
#[test]
fn nested_frames_lifo() {
    let base = ContextToken::new(5);
    let outer = base.push_frame(1, 4).unwrap();
    let inner = outer.push_frame(0, 2).unwrap();

    let back_outer = inner.pop_frame().unwrap();
    assert!(back_outer.same_key(&outer));
    let back_base = back_outer.pop_frame().unwrap();
    assert!(back_base.same_key(&base));

    // sibling branches of one fan-out carry distinct keys
    let sib0 = base.push_frame(0, 2).unwrap();
    let sib1 = base.push_frame(1, 2).unwrap();
    assert!(!sib0.same_key(&sib1));
    assert!(sib0.same_key(&base.push_frame(0, 2).unwrap()));

    // a nested fan-out does not corrupt a sibling's key
    let nested = sib0.push_frame(0, 3).unwrap();
    assert!(!nested.same_key(&sib1));
    assert!(nested.pop_frame().unwrap().same_key(&sib0));
}

/// Frame-stack misuse is surfaced as errors, not ignored.
#[test]
fn frame_errors() {
    let t = ContextToken::new(0);
    assert!(t.pop_frame().is_err());
    assert!(t.push_frame(2, 2).is_err());
    assert!(t.push_frame(0, 0).is_err());
    assert!(t.peek_frame().is_none());
    let pushed = t.push_frame(0, 1).unwrap();
    let f = pushed.peek_frame().unwrap();
    assert_eq!(f.index, 0);
    assert_eq!(f.total, 1);
}
