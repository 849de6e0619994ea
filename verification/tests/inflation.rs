use slackfmt::inflate::inflate_field;
use slackfmt::{Directory, Snapshot, Value};

fn entity(id: &str, name: &str) -> Value {
    Value::Record(vec![
        (String::from("id"), Value::Str(String::from(id))),
        (String::from("name"), Value::Str(String::from(name))),
    ])
}

fn make_directory() -> Directory {
    let snapshot = Snapshot {
        users: Some(vec![entity("U12345", "user12345")]),
        channels: None,
        groups: None,
        mpims: None,
        ims: None,
    };
    Directory::build(&snapshot)
}

#[test]
fn known_id_field_is_inflated() {
    let dir = make_directory();
    let mut record = Value::Record(vec![
        (String::from("user"), Value::Str(String::from("U12345"))),
    ]);
    inflate_field(&mut record, "user", &dir);
    let expected = Value::Record(vec![(String::from("user"), entity("U12345", "user12345"))]);
    assert!(record.equals(&expected));
}

#[test]
fn unknown_id_field_is_left_unchanged() {
    let dir = make_directory();
    let mut record = Value::Record(vec![
        (String::from("user"), Value::Str(String::from("U00000"))),
    ]);
    let before = record.duplicate();
    inflate_field(&mut record, "user", &dir);
    assert!(record.equals(&before));
}

#[test]
fn absent_field_is_left_unchanged() {
    let dir = make_directory();
    let mut record = Value::Record(vec![
        (String::from("text"), Value::Str(String::from("hello"))),
    ]);
    let before = record.duplicate();
    inflate_field(&mut record, "user", &dir);
    assert!(record.equals(&before));
}

#[test]
fn non_string_field_is_left_unchanged() {
    let dir = make_directory();
    let mut record = Value::Record(vec![(String::from("user"), Value::Int(42))]);
    let before = record.duplicate();
    inflate_field(&mut record, "user", &dir);
    assert!(record.equals(&before));
}

#[test]
fn non_record_root_is_left_unchanged() {
    let dir = make_directory();
    let mut root = Value::Str(String::from("U12345"));
    inflate_field(&mut root, "user", &dir);
    assert!(root.equals(&Value::Str(String::from("U12345"))));
}

#[test]
fn reapplying_inflation_is_a_no_op() {
    let dir = make_directory();
    let mut record = Value::Record(vec![
        (String::from("user"), Value::Str(String::from("U12345"))),
    ]);
    inflate_field(&mut record, "user", &dir);
    let once = record.duplicate();
    // the field is no longer a plain string id, so nothing changes
    inflate_field(&mut record, "user", &dir);
    assert!(record.equals(&once));
}
