use change_set::model::{ChangeSetDraft, PatchOp};
use change_set::validate::{validate, ValidationError};

fn draft() -> ChangeSetDraft {
    let mut d = ChangeSetDraft::new();
    d.set_name("alice".to_string());
    d.set_block_key("block@1".to_string());
    d.set_op(PatchOp::Replace);
    d.set_path("/foo".to_string());
    d.set_value_input("{\"x\":1}".to_string());
    d
}

#[test]
fn defaults() {
    let d = ChangeSetDraft::new();
    assert_eq!(d.name, "");
    assert!(d.source_specialization.is_empty());
    assert_eq!(d.block_key, "");
    assert_eq!(d.op, PatchOp::Replace);
    assert_eq!(d.path, "");
    assert_eq!(d.value_input, "");
    assert!(d.published);
}

#[test]
fn empty_name_stops_first() {
    // every other field is also invalid, yet the name check decides
    let mut d = ChangeSetDraft::new();
    d.set_name("   ".to_string());
    d.set_path("foo".to_string());
    d.set_block_key("nokey".to_string());
    d.set_value_input("{bad".to_string());
    assert_eq!(validate(&d).unwrap_err(), ValidationError::EmptyName);
}

#[test]
fn bad_path_before_block_key() {
    let mut d = draft();
    d.set_path("foo".to_string());
    d.set_block_key("nokey".to_string());
    assert_eq!(validate(&d).unwrap_err(), ValidationError::InvalidPath);
}

#[test]
fn bad_path_regardless_of_rest() {
    let mut d = draft();
    d.set_path("foo".to_string());
    assert_eq!(validate(&d).unwrap_err(), ValidationError::InvalidPath);
}

#[test]
fn bad_block_key_after_path() {
    let mut d = draft();
    d.set_block_key("nokey".to_string());
    d.set_value_input("{bad".to_string());
    assert_eq!(validate(&d).unwrap_err(), ValidationError::InvalidBlockKey);
}

#[test]
fn malformed_value_is_last_check() {
    let mut d = draft();
    d.set_value_input("{bad".to_string());
    assert_eq!(validate(&d).unwrap_err(), ValidationError::MalformedValue);
}

#[test]
fn valid_draft_passes() {
    let doc = validate(&draft()).unwrap();
    assert_eq!(doc.name, "alice");
    assert_eq!(doc.block_key, "block@1");
    assert_eq!(doc.op, PatchOp::Replace);
    assert_eq!(doc.path, "/foo");
    assert_eq!(doc.value_text, "{\"x\":1}");
    assert!(doc.published);
}

#[test]
fn value_is_canonicalized() {
    // the stored value is the compact canonical text of what was typed,
    // not the raw input
    let mut d = draft();
    d.set_value_input("  { \"x\" :   1 }  ".to_string());
    let doc = validate(&d).unwrap();
    assert_eq!(doc.value_text, "{\"x\":1}");
}

#[test]
fn scalar_and_null_values_accepted() {
    let mut d = draft();
    d.set_value_input("null".to_string());
    assert_eq!(validate(&d).unwrap().value_text, "null");
    d.set_value_input("[1, 2, 3]".to_string());
    assert_eq!(validate(&d).unwrap().value_text, "[1,2,3]");
    d.set_value_input("\"hi\"".to_string());
    assert_eq!(validate(&d).unwrap().value_text, "\"hi\"");
}

#[test]
fn name_needs_nonspace() {
    let mut d = draft();
    d.set_name("\t\n  ".to_string());
    assert_eq!(validate(&d).unwrap_err(), ValidationError::EmptyName);
    d.set_name(" a ".to_string());
    assert!(validate(&d).is_ok());
}

#[test]
fn validation_messages() {
    assert_eq!(ValidationError::EmptyName.message(), "Error: Name is required.");
    assert_eq!(ValidationError::InvalidPath.message(), "Error: Path must start with '/'.");
    assert_eq!(ValidationError::InvalidBlockKey.message(), "Error: Block Key must contain '@'.");
    assert_eq!(ValidationError::MalformedValue.message(), "Error: Invalid JSON in value field.");
}

#[test]
fn setters_touch_one_field() {
    let mut d = ChangeSetDraft::new();
    d.set_source_specialization(vec!["east".to_string()]);
    d.set_published(false);
    assert_eq!(d.source_specialization, vec!["east".to_string()]);
    assert!(!d.published);
    assert_eq!(d.name, "");
    assert_eq!(d.op, PatchOp::Replace);
}
