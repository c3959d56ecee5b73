//! The smaller nodes and utilities: array shape operations, pin-name
//! recognition, duration strings, the slot synchronizer, broadcast, the
//! throttle queue, the counter, and the pixel blank test.

use fanjoin::duration::parse_duration_to_ms;
use fanjoin::errors::EngineError;
use fanjoin::flow::{broadcast_value, pixels_blank, Counter, DelayGate, ThrottleQueue};
use fanjoin::ports::find_in_port;
use fanjoin::slotsync::SlotSync;
use fanjoin::value::Value;

fn ints(values: &[i64]) -> Value {
    Value::List(values.iter().map(|v| Value::Int(*v)).collect())
}

#[test]
fn array_shape_operations() {
    assert!(ints(&[1]).is_array());
    assert!(!Value::Int(1).is_array());
    assert!(ints(&[]).is_empty_array());
    assert!(!Value::Unit.is_empty_array());

    assert_eq!(ints(&[1, 2, 3]).array_length(), 3);
    assert_eq!(Value::Int(5).array_length(), 1);

    assert_eq!(ints(&[1, 2]).array_first().unwrap(), Value::Int(1));
    assert_eq!(Value::Int(9).array_first().unwrap(), Value::Int(9));
    assert!(matches!(ints(&[]).array_first(), Err(EngineError::InvalidValue(_))));

    assert_eq!(ints(&[1, 2]).array_last().unwrap(), Value::Int(2));
    assert!(matches!(ints(&[]).array_last(), Err(EngineError::InvalidValue(_))));

    assert_eq!(ints(&[1, 2, 3]).array_rest(), ints(&[2, 3]));
    assert_eq!(ints(&[]).array_rest(), ints(&[]));
    assert_eq!(Value::Int(1).array_rest(), ints(&[]));

    assert_eq!(ints(&[4, 5, 6]).array_nth(1).unwrap(), Value::Int(5));
    assert_eq!(Value::Int(7).array_nth(0).unwrap(), Value::Int(7));
    assert!(matches!(ints(&[4]).array_nth(1), Err(EngineError::InvalidValue(_))));
    assert!(matches!(Value::Int(7).array_nth(1), Err(EngineError::InvalidValue(_))));
    assert!(matches!(ints(&[4]).array_nth(-1), Err(EngineError::InvalidConfig(_))));

    assert_eq!(ints(&[1, 2, 3]).array_take(2), ints(&[1, 2]));
    assert_eq!(ints(&[1, 2]).array_take(5), ints(&[1, 2]));
    assert_eq!(ints(&[1, 2]).array_take(0), ints(&[]));
    assert_eq!(Value::Int(8).array_take(3), ints(&[8]));
}

#[test]
fn pin_name_recognition() {
    assert_eq!(find_in_port("in1", 2), Some(0));
    assert_eq!(find_in_port("in2", 2), Some(1));
    assert_eq!(find_in_port("in02", 2), Some(1));
    assert_eq!(find_in_port("in3", 2), None);
    assert_eq!(find_in_port("in0", 2), None);
    assert_eq!(find_in_port("in", 2), None);
    assert_eq!(find_in_port("out1", 2), None);
    assert_eq!(find_in_port("in1x", 2), None);
}

#[test]
fn duration_strings() {
    assert_eq!(parse_duration_to_ms("2s").unwrap(), 2000);
    assert_eq!(parse_duration_to_ms("10m").unwrap(), 600000);
    assert_eq!(parse_duration_to_ms("200ms").unwrap(), 200);
    assert_eq!(parse_duration_to_ms("1h").unwrap(), 3600000);
    assert_eq!(parse_duration_to_ms("1d").unwrap(), 86400000);
    assert_eq!(parse_duration_to_ms("5").unwrap(), 5000);
    assert_eq!(parse_duration_to_ms(" 5s ").unwrap(), 5000);
    assert_eq!(parse_duration_to_ms("3MS").unwrap(), 10);
    assert_eq!(parse_duration_to_ms("0s").unwrap(), 10);
    assert_eq!(parse_duration_to_ms("+7").unwrap(), 7000);
    assert!(matches!(parse_duration_to_ms(""), Err(EngineError::InvalidConfig(_))));
    assert!(matches!(parse_duration_to_ms("x"), Err(EngineError::InvalidConfig(_))));
    assert!(matches!(parse_duration_to_ms("5w"), Err(EngineError::InvalidConfig(_))));
    assert!(matches!(parse_duration_to_ms("5.5s"), Err(EngineError::InvalidConfig(_))));
    assert!(matches!(
        parse_duration_to_ms("99999999999999999999d"),
        Err(EngineError::InvalidConfig(_))
    ));
}

#[test]
fn slot_synchronizer() {
    let mut sync = SlotSync::new_with_n(2);

    assert_eq!(sync.process_impl(1, "in1", Value::Int(1)).unwrap().len(), 0);
    let out = sync.process_impl(1, "in2", Value::Int(2)).unwrap();
    assert_eq!(out, vec![Value::Int(1), Value::Int(2)]);

    // a changed run identifier clears the half-filled slots
    assert_eq!(sync.process_impl(1, "in1", Value::Int(3)).unwrap().len(), 0);
    assert_eq!(sync.process_impl(2, "in2", Value::Int(4)).unwrap().len(), 0);
    let out = sync.process_impl(2, "in1", Value::Int(5)).unwrap();
    assert_eq!(out, vec![Value::Int(5), Value::Int(4)]);

    // an unrecognized pin is a hard error, and nothing changes: the slots
    // still complete with the values already held
    assert!(matches!(
        sync.process_impl(2, "bogus", Value::Int(6)),
        Err(EngineError::InvalidValue(_))
    ));
    assert_eq!(sync.process_impl(2, "in2", Value::Int(7)).unwrap().len(), 0);
    let out = sync.process_impl(2, "in1", Value::Int(8)).unwrap();
    assert_eq!(out, vec![Value::Int(8), Value::Int(7)]);
}

#[test]
fn broadcast_and_counter() {
    let copies = broadcast_value(&ints(&[1, 2]), 3);
    assert_eq!(copies.len(), 3);
    for c in &copies {
        assert_eq!(*c, ints(&[1, 2]));
    }

    let mut counter = Counter::new();
    assert_eq!(counter.bump(), 1);
    assert_eq!(counter.bump(), 2);
    assert_eq!(counter.reset(), 0);
    assert_eq!(counter.bump(), 1);
    counter.start();
    assert_eq!(counter.bump(), 1);
}

#[test]
fn throttle_queue_discipline() {
    // a zero bound keeps nothing
    let mut q = ThrottleQueue::new(0);
    q.offer(Value::Int(1));
    assert!(q.take_oldest().is_none());

    // a positive bound drops the oldest beyond the limit
    let mut q = ThrottleQueue::new(2);
    q.offer(Value::Int(1));
    q.offer(Value::Int(2));
    q.offer(Value::Int(3));
    assert_eq!(q.take_oldest().unwrap(), Value::Int(2));
    assert_eq!(q.take_oldest().unwrap(), Value::Int(3));
    assert!(q.take_oldest().is_none());

    // lowering the bound drops the oldest excess items
    let mut q = ThrottleQueue::new(-1);
    q.offer(Value::Int(1));
    q.offer(Value::Int(2));
    q.offer(Value::Int(3));
    q.set_bound(1);
    assert_eq!(q.take_oldest().unwrap(), Value::Int(3));
    assert!(q.take_oldest().is_none());
}

#[test]
fn delay_gate_admission() {
    let mut gate = DelayGate::new(2);
    assert!(gate.try_admit());
    assert!(gate.try_admit());
    assert!(!gate.try_admit());
    gate.release();
    assert!(gate.try_admit());
}

#[test]
fn pixel_blank_test() {
    // three samples reach the threshold: blank only against a higher bar
    let pixels: Vec<u8> = vec![0, 30, 10, 200, 25, 5];
    assert!(!pixels_blank(&pixels, 20, 3));
    assert!(pixels_blank(&pixels, 20, 4));
    assert!(pixels_blank(&Vec::new(), 20, 1));
    assert!(!pixels_blank(&pixels, 0, 1));
}
