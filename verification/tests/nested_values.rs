//! Nested record access: looking up and setting values down a chain of keys.

use fanjoin::nested::{get_nested_value, set_nested_value};
use fanjoin::value::Value;

fn s(text: &str) -> String {
    String::from(text)
}

fn str_val(text: &str) -> Value {
    Value::Str(String::from(text))
}

#[test]
fn test_get_nested_value() {
    // Setup data: { "users": { "admin": { "name": "Alice" } } }
    let mut root = Value::empty_record();
    let mut users = Value::empty_record();
    let mut admin = Value::empty_record();

    admin.set_field(s("name"), str_val("Alice")).unwrap();
    users.set_field(s("admin"), admin).unwrap();
    root.set_field(s("users"), users).unwrap();

    // Case 1: Successfully retrieve an existing value
    let keys = vec![s("users"), s("admin"), s("name")];
    let result = get_nested_value(&root, &keys);
    assert_eq!(result, Some(&str_val("Alice")));

    // Case 2: Intermediate key does not exist (users -> guest)
    let keys_missing = vec![s("users"), s("guest"), s("name")];
    let result_missing = get_nested_value(&root, &keys_missing);
    assert_eq!(result_missing, None);

    // Case 3: Intermediate path is not an object (users -> admin -> name -> something)
    // "name" is a string, so we cannot traverse deeper -> Should return None
    let keys_not_obj = vec![s("users"), s("admin"), s("name"), s("length")];
    let result_not_obj = get_nested_value(&root, &keys_not_obj);
    assert_eq!(result_not_obj, None);

    // Case 4: Empty keys (Should return the root object)
    let keys_empty: Vec<String> = vec![];
    let result_root = get_nested_value(&root, &keys_empty);
    assert_eq!(result_root, Some(&root));
}

/// Verify if a deeply nested structure (a.b.c) can be auto-generated from an
/// empty state.
#[test]
fn test_create_deeply_nested_structure() {
    let mut root = Value::empty_record();
    let keys = vec![s("users"), s("admin"), s("name")];
    let value = str_val("Alice");

    set_nested_value(&mut root, &keys, value);

    // Verify: root["users"]["admin"]["name"] == "Alice"
    if let Some(users) = root.record_field(&s("users")) {
        if let Some(admin) = users.record_field(&s("admin")) {
            if let Some(name) = admin.record_field(&s("name")) {
                assert_eq!(*name, str_val("Alice"));
                return;
            }
        }
    }
    panic!("Nested structure was not created correctly: {:?}", root);
}

/// Verify if a new key can be added without breaking existing structures.
#[test]
fn test_add_to_existing_structure() {
    let mut root = Value::empty_record();
    // Pre-create { "config": {} }
    root.set_field(s("config"), Value::empty_record()).unwrap();

    let keys = vec![s("config"), s("timeout")];
    let value = str_val("30s");

    set_nested_value(&mut root, &keys, value);

    // Verify
    let config = root.record_field(&s("config")).unwrap();
    let timeout = config.record_field(&s("timeout")).unwrap();
    assert_eq!(*timeout, str_val("30s"));
}

/// Verify if an existing value can be overwritten.
#[test]
fn test_overwrite_existing_value() {
    let mut root = Value::empty_record();
    // Pre-create { "app": { "version": "v1" } }
    let mut app = Value::empty_record();
    app.set_field(s("version"), str_val("v1")).unwrap();
    root.set_field(s("app"), app).unwrap();

    // Execute overwrite
    let keys = vec![s("app"), s("version")];
    let new_val = str_val("v2");
    set_nested_value(&mut root, &keys, new_val);

    // Verify
    let app = root.record_field(&s("app")).unwrap();
    let version = app.record_field(&s("version")).unwrap();
    assert_eq!(*version, str_val("v2"));
}

/// Verify if the operation stops safely when an intermediate path is not an
/// object. Example: Try setting ["tags", "new_key"] against
/// { "tags": "immutable_string" }
#[test]
fn test_stop_if_path_is_not_object() {
    let mut root = Value::empty_record();
    // "tags" is a string, not an object
    root.set_field(s("tags"), str_val("some_string")).unwrap();

    let keys = vec![s("tags"), s("new_key")];
    let value = str_val("value");

    // Ensure it returns without crashing
    set_nested_value(&mut root, &keys, value);

    // Verify that "tags" remains a string
    let tags = root.record_field(&s("tags")).unwrap();
    assert_eq!(*tags, str_val("some_string"));
}
