//! The string-join computation and the value-getting and object-building
//! nodes' computations.

use fanjoin::nested::{get_values, make_object};
use fanjoin::strings::string_join_value;
use fanjoin::value::Value;

fn s(text: &str) -> String {
    String::from(text)
}

fn str_val(text: &str) -> Value {
    Value::Str(String::from(text))
}

#[test]
fn string_join_with_escapes() {
    // joining with the default separator, an escaped newline
    let input = Value::List(vec![str_val("Hello"), str_val("World")]);
    let out = string_join_value(input, &s("\\n"));
    assert_eq!(out, str_val("Hello\nWorld"));

    let input = Value::List(vec![str_val("a"), str_val("b"), str_val("c")]);
    assert_eq!(string_join_value(input, &s(", ")), str_val("a, b, c"));

    // a non-string element contributes the empty string
    let input = Value::List(vec![str_val("x"), Value::Int(1), str_val("y")]);
    assert_eq!(string_join_value(input, &s("-")), str_val("x--y"));

    // escapes inside the elements are substituted too, in order
    let input = Value::List(vec![str_val("tab\\there")]);
    assert_eq!(string_join_value(input, &s("")), str_val("tab\there"));
    let input = Value::List(vec![str_val("back\\\\slash")]);
    assert_eq!(string_join_value(input, &s("")), str_val("back\\slash"));

    // a non-list value passes through unchanged
    assert_eq!(string_join_value(str_val("solo"), &s("\\n")), str_val("solo"));
    assert_eq!(string_join_value(Value::List(Vec::new()), &s("-")), str_val(""));
}

#[test]
fn get_values_over_record_and_list() {
    let mut rec = Value::empty_record();
    let mut inner = Value::empty_record();
    inner.set_field(s("name"), str_val("Alice")).unwrap();
    rec.set_field(s("who"), inner).unwrap();

    let keys = vec![s("who"), s("name")];
    assert_eq!(get_values(&rec, &keys), Some(str_val("Alice")));

    // an absent path yields the unit placeholder
    let missing = vec![s("who"), s("age")];
    assert_eq!(get_values(&rec, &missing), Some(Value::Unit));

    // a list maps the look-up over its elements
    let mut r1 = Value::empty_record();
    r1.set_field(s("k"), Value::Int(1)).unwrap();
    let mut r2 = Value::empty_record();
    r2.set_field(s("other"), Value::Int(2)).unwrap();
    let list = Value::List(vec![r1, r2]);
    let keys = vec![s("k")];
    assert_eq!(
        get_values(&list, &keys),
        Some(Value::List(vec![Value::Int(1), Value::Unit]))
    );

    // neither a record nor a list yields nothing
    assert_eq!(get_values(&Value::Int(3), &keys), None);
}

#[test]
fn make_object_builds_nested_path() {
    let keys = vec![s("a"), s("b")];
    let built = make_object(&keys, Value::Int(7));
    let a = built.record_field(&s("a")).unwrap();
    let b = a.record_field(&s("b")).unwrap();
    assert_eq!(*b, Value::Int(7));

    // an empty path leaves the fresh record empty
    let none: Vec<String> = vec![];
    assert_eq!(make_object(&none, Value::Int(7)), Value::empty_record());
}
