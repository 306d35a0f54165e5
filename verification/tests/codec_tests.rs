use task_store::model::Task;
use task_store::store::Db;

fn task(id: u64, name: &str, completed: bool) -> Task {
    Task { id, name: name.to_string(), completed }
}

fn sorted_tasks(db: &Db) -> Vec<Task> {
    let mut tasks = db.get_tasks();
    tasks.sort_by_key(|t| t.id);
    tasks
}

fn assert_same_contents(a: &Db, b: &Db) {
    let ta = sorted_tasks(a);
    let tb = sorted_tasks(b);
    assert_eq!(ta.len(), tb.len());
    for (x, y) in ta.iter().zip(tb.iter()) {
        assert_eq!(x.id, y.id);
        assert_eq!(x.name, y.name);
        assert_eq!(x.completed, y.completed);
    }
}

#[test]
fn serializes_exact_canonical_bytes() {
    let mut db = Db::new();
    db.insert_task(task(1, "buy milk", false));
    let bytes = db.to_bytes();
    assert_eq!(
        String::from_utf8(bytes).unwrap(),
        r#"{"1":{"id":1,"name":"buy milk","completed":false}}"#
    );
}

#[test]
fn empty_store_serializes_to_empty_object() {
    let db = Db::new();
    assert_eq!(String::from_utf8(db.to_bytes()).unwrap(), "{}");
}

#[test]
fn round_trip_preserves_contents() {
    let mut db = Db::new();
    db.insert_task(task(1, "plain", false));
    db.insert_task(task(2, "with \"quotes\" and \\backslash\\", true));
    db.insert_task(task(3, "control\tchars\nhere", false));
    db.insert_task(task(4, "caf\u{e9} na\u{ef}ve \u{1f600}", true));
    db.insert_task(task(u64::MAX, "largest id", false));
    db.update_task(2, task(2, "updated", false));
    db.delete_task(3);
    let loaded = Db::from_bytes(&db.to_bytes()).expect("round trip should parse");
    assert_same_contents(&db, &loaded);
}

#[test]
fn empty_bytes_load_as_empty_store() {
    // A zero-length document yields an empty store, never a parse error.
    let db = Db::from_bytes(&Vec::new()).expect("empty bytes must load");
    assert!(db.get_tasks().is_empty());
}

#[test]
fn garbage_bytes_are_a_parse_error() {
    assert!(Db::from_bytes(&b"not json".to_vec()).is_err());
    assert!(Db::from_bytes(&b"   ".to_vec()).is_err());
    assert!(Db::from_bytes(&b"{".to_vec()).is_err());
    assert!(Db::from_bytes(&b"[]".to_vec()).is_err());
}

#[test]
fn trailing_content_is_a_parse_error() {
    assert!(Db::from_bytes(&b"{}x".to_vec()).is_err());
}

#[test]
fn whitespace_between_tokens_is_accepted() {
    let text = " {\n  \"1\" : { \"id\" : 1 , \"name\" : \"a b\" , \"completed\" : true }\n} ";
    let db = Db::from_bytes(&text.as_bytes().to_vec()).expect("whitespace must be accepted");
    let got = db.get_task(&1).expect("task 1 present");
    assert_eq!(got.name, "a b");
    assert!(got.completed);
}

#[test]
fn string_escapes_are_decoded() {
    let text = r#"{"1":{"id":1,"name":"q\" b\\ s\/ \b\f\n\r\t uA eé g😀","completed":false}}"#;
    let db = Db::from_bytes(&text.as_bytes().to_vec()).expect("escapes must parse");
    let got = db.get_task(&1).expect("task 1 present");
    assert_eq!(got.name, "q\" b\\ s/ \u{8}\u{c}\n\r\t uA e\u{e9} g\u{1f600}");
}

#[test]
fn task_members_parse_in_any_order() {
    let text = r#"{"1":{"completed":true,"name":"swapped","id":1}}"#;
    let db = Db::from_bytes(&text.as_bytes().to_vec()).expect("reordered members must parse");
    let got = db.get_task(&1).expect("task 1 present");
    assert_eq!(got.name, "swapped");
    assert!(got.completed);
}

#[test]
fn unknown_members_are_ignored() {
    let head = r#"{"1":{"id":1,"notes":"extra","priority":-1.5e3,"tags":["a",{"x":null}],"#;
    let tail = r#""meta":{"nested":{"deep":[1,2,3]}},"name":"kept","done":false,"completed":true}}"#;
    let text = format!("{}{}", head, tail);
    let db = Db::from_bytes(&text.as_bytes().to_vec()).expect("unknown members must be skipped");
    let got = db.get_task(&1).expect("task 1 present");
    assert_eq!(got.name, "kept");
    assert!(got.completed);
}

#[test]
fn duplicate_member_is_a_parse_error() {
    let text = r#"{"1":{"id":1,"name":"a","name":"b","completed":true}}"#;
    assert!(Db::from_bytes(&text.as_bytes().to_vec()).is_err());
}

#[test]
fn missing_member_is_a_parse_error() {
    let text = r#"{"1":{"id":1,"completed":true}}"#;
    assert!(Db::from_bytes(&text.as_bytes().to_vec()).is_err());
    let empty_object = r#"{"1":{}}"#;
    assert!(Db::from_bytes(&empty_object.as_bytes().to_vec()).is_err());
}

#[test]
fn parses_serde_emitted_document() {
    // Cross-check the parser against an independently produced document:
    // serde_json's map serializes its members in alphabetical order
    // (completed, id, name), which the parser must accept.
    let mut obj = serde_json::Map::new();
    let mut entry = serde_json::Map::new();
    entry.insert("id".to_string(), serde_json::Value::from(4u64));
    entry.insert("name".to_string(), serde_json::Value::from("caf\u{e9} \u{1f600}"));
    entry.insert("completed".to_string(), serde_json::Value::from(true));
    entry.insert("extra".to_string(), serde_json::Value::from(vec![1, 2, 3]));
    obj.insert("4".to_string(), serde_json::Value::Object(entry));
    let text = serde_json::to_string(&serde_json::Value::Object(obj)).unwrap();
    let db = Db::from_bytes(&text.into_bytes()).expect("serde output must parse");
    let got = db.get_task(&4).expect("task 4 present");
    assert_eq!(got.name, "caf\u{e9} \u{1f600}");
    assert!(got.completed);
}

#[test]
fn lone_surrogate_is_a_parse_error() {
    let text = r#"{"1":{"id":1,"name":"\ud800","completed":false}}"#;
    assert!(Db::from_bytes(&text.as_bytes().to_vec()).is_err());
}

#[test]
fn unescaped_control_byte_is_a_parse_error() {
    let bytes = b"{\"1\":{\"id\":1,\"name\":\"a\x01b\",\"completed\":false}}".to_vec();
    assert!(Db::from_bytes(&bytes).is_err());
}

#[test]
fn invalid_utf8_in_name_is_a_parse_error() {
    let mut bytes = Vec::new();
    bytes.extend_from_slice(b"{\"1\":{\"id\":1,\"name\":\"a");
    bytes.push(0xff);
    bytes.extend_from_slice(b"\",\"completed\":false}}");
    assert!(Db::from_bytes(&bytes).is_err());
}

#[test]
fn id_overflow_is_a_parse_error() {
    let text = r#"{"18446744073709551616":{"id":18446744073709551616,"name":"x","completed":false}}"#;
    assert!(Db::from_bytes(&text.as_bytes().to_vec()).is_err());
}

#[test]
fn key_and_id_field_must_agree() {
    let text = r#"{"1":{"id":2,"name":"x","completed":false}}"#;
    assert!(Db::from_bytes(&text.as_bytes().to_vec()).is_err());
}

#[test]
fn later_duplicate_key_wins() {
    let text = r#"{"1":{"id":1,"name":"first","completed":false},"1":{"id":1,"name":"second","completed":true}}"#;
    let db = Db::from_bytes(&text.as_bytes().to_vec()).expect("duplicate keys parse");
    let got = db.get_task(&1).expect("task 1 present");
    assert_eq!(got.name, "second");
    assert_eq!(db.get_tasks().len(), 1);
}

#[test]
fn output_is_valid_json_for_serde() {
    // Cross-check the serializer against an independent JSON parser.
    let mut db = Db::new();
    db.insert_task(task(10, "tab\there \"q\" \u{1f680}", true));
    db.insert_task(task(2, "plain", false));
    let bytes = db.to_bytes();
    let value: serde_json::Value = serde_json::from_slice(&bytes).expect("serde must parse it");
    let obj = value.as_object().expect("top level is an object");
    assert_eq!(obj.len(), 2);
    let t10 = obj.get("10").expect("key 10 present");
    assert_eq!(t10.get("id").unwrap().as_u64(), Some(10));
    assert_eq!(
        t10.get("name").unwrap().as_str(),
        Some("tab\there \"q\" \u{1f680}")
    );
    assert_eq!(t10.get("completed").unwrap().as_bool(), Some(true));
    let t2 = obj.get("2").expect("key 2 present");
    assert_eq!(t2.get("name").unwrap().as_str(), Some("plain"));
    assert_eq!(t2.get("completed").unwrap().as_bool(), Some(false));
}

#[test]
fn parses_document_with_serde_escaped_name() {
    // Cross-check the parser's escape handling against serde's serializer:
    // the name is escaped by serde_json and spliced into a document.
    let name = "q\" b\\ control\u{1}\u{1f} caf\u{e9}";
    let escaped = serde_json::to_string(name).unwrap();
    let text = format!(r#"{{"4":{{"id":4,"name":{},"completed":true}}}}"#, escaped);
    let db = Db::from_bytes(&text.into_bytes()).expect("serde-escaped name must parse");
    let got = db.get_task(&4).expect("task 4 present");
    assert_eq!(got.name, name);
    assert!(got.completed);
}
