use change_set::codec::{parse_change_set, render};
use change_set::model::{ChangeSetDraft, PatchOp, ValidatedChangeSet};
use change_set::validate::validate;

fn sample() -> ValidatedChangeSet {
    let mut d = ChangeSetDraft::new();
    d.set_name("alice".to_string());
    d.set_block_key("block@1".to_string());
    d.set_op(PatchOp::Replace);
    d.set_path("/foo".to_string());
    d.set_value_input("{\"x\":1}".to_string());
    validate(&d).unwrap()
}

#[test]
fn scenario_exact_rendering() {
    let text = render(&sample());
    let expected = "{\n  \"name\": \"alice\",\n  \"sourceSpecialization\": [],\n  \"operations\": [\n    {\n      \"blockKey\": \"block@1\",\n      \"op\": \"patch\",\n      \"data\": [\n        {\n          \"op\": \"replace\",\n          \"path\": \"/foo\",\n          \"value\": {\"x\":1}\n        }\n      ]\n    }\n  ],\n  \"published\": true\n}";
    assert_eq!(text, expected);
}

#[test]
fn rendered_document_is_json_with_the_value_embedded() {
    let text = render(&sample());
    let v: serde_json::Value = serde_json::from_str(&text).unwrap();
    assert_eq!(v["name"], serde_json::Value::String("alice".to_string()));
    assert_eq!(v["operations"][0]["blockKey"], "block@1");
    assert_eq!(v["operations"][0]["op"], "patch");
    assert_eq!(v["operations"][0]["data"][0]["op"], "replace");
    assert_eq!(v["operations"][0]["data"][0]["path"], "/foo");
    assert_eq!(v["operations"][0]["data"][0]["value"]["x"], 1);
    assert_eq!(v["published"], true);
}

fn roundtrip(doc: &ValidatedChangeSet) {
    let text = render(doc);
    let back = parse_change_set(&text).unwrap();
    assert_eq!(back.name, doc.name);
    assert_eq!(back.source_specialization, doc.source_specialization);
    assert_eq!(back.block_key, doc.block_key);
    assert_eq!(back.op, doc.op);
    assert_eq!(back.path, doc.path);
    assert_eq!(back.value_text, doc.value_text);
    assert_eq!(back.published, doc.published);
}

#[test]
fn round_trip_simple() {
    roundtrip(&sample());
}

#[test]
fn round_trip_with_specialization_and_escapes() {
    let mut doc = sample();
    doc.source_specialization = vec!["east".to_string(), "we\"st\\\n".to_string()];
    doc.name = "a \"quoted\" name\twith\ttabs".to_string();
    doc.path = "/a/b\\c".to_string();
    doc.block_key = "key@\u{0001}ctl".to_string();
    doc.published = false;
    doc.op = PatchOp::Add;
    roundtrip(&doc);
}

#[test]
fn round_trip_every_op() {
    for op in [PatchOp::Add, PatchOp::Patch, PatchOp::Remove, PatchOp::Replace] {
        let mut doc = sample();
        doc.op = op;
        roundtrip(&doc);
    }
}

#[test]
fn round_trip_tricky_value_text() {
    // a value whose text contains things that look like the document frame
    let mut d = ChangeSetDraft::new();
    d.set_name("n".to_string());
    d.set_block_key("a@b".to_string());
    d.set_path("/p".to_string());
    d.set_value_input(
        "{\"published\": false, \"s\": \"\\n  ],\\n  \\\"published\\\": true\\n}\"}".to_string(),
    );
    let doc = validate(&d).unwrap();
    roundtrip(&doc);
}

#[test]
fn parse_rejects_mangled_text() {
    let mut text = render(&sample());
    text.push('x');
    assert!(parse_change_set(&text).is_none());
    assert!(parse_change_set("{}").is_none());
    assert!(parse_change_set("").is_none());
}
