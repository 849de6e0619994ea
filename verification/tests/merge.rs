use slackfmt::{Directory, Snapshot, Value};

fn entity(id: &str, name: &str) -> Value {
    Value::Record(vec![
        (String::from("id"), Value::Str(String::from(id))),
        (String::from("name"), Value::Str(String::from(name))),
    ])
}

fn name_of(v: &Value) -> Option<&str> {
    match v.get_field("name") {
        Some(Value::Str(s)) => Some(s.as_str()),
        _ => None,
    }
}

#[test]
fn duplicate_id_later_sequence_wins() {
    // the same id in users and channels: the channels entity wins,
    // channels being merged after users
    let snapshot = Snapshot {
        users: Some(vec![entity("X1", "from_users")]),
        channels: Some(vec![entity("X1", "from_channels")]),
        groups: None,
        mpims: None,
        ims: None,
    };
    let dir = Directory::build(&snapshot);
    let found = dir.lookup("X1").expect("X1 must be present");
    assert_eq!(name_of(found), Some("from_channels"));
}

#[test]
fn duplicate_id_within_one_sequence_later_wins() {
    let snapshot = Snapshot {
        users: Some(vec![entity("X1", "first"), entity("X1", "second")]),
        channels: None,
        groups: None,
        mpims: None,
        ims: None,
    };
    let dir = Directory::build(&snapshot);
    let found = dir.lookup("X1").expect("X1 must be present");
    assert_eq!(name_of(found), Some("second"));
}

#[test]
fn entity_without_id_is_skipped() {
    let no_id = Value::Record(vec![(String::from("name"), Value::Str(String::from("ghostly")))]);
    let snapshot = Snapshot {
        users: Some(vec![no_id]),
        channels: None,
        groups: None,
        mpims: None,
        ims: None,
    };
    let dir = Directory::build(&snapshot);
    assert!(dir.lookup("ghostly").is_none());
}

#[test]
fn unknown_id_is_absent() {
    let snapshot = Snapshot {
        users: Some(vec![entity("U1", "u1")]),
        channels: None,
        groups: None,
        mpims: None,
        ims: None,
    };
    let dir = Directory::build(&snapshot);
    assert!(dir.lookup("U2").is_none());
    assert!(dir.lookup("").is_none());
}

#[test]
fn lookup_returns_full_entity() {
    let extra = Value::Record(vec![
        (String::from("id"), Value::Str(String::from("U7"))),
        (String::from("name"), Value::Str(String::from("seven"))),
        (String::from("is_bot"), Value::Bool(false)),
        (String::from("rank"), Value::Int(7)),
    ]);
    let snapshot = Snapshot {
        users: Some(vec![extra.duplicate()]),
        channels: None,
        groups: None,
        mpims: None,
        ims: None,
    };
    let dir = Directory::build(&snapshot);
    let found = dir.lookup("U7").expect("U7 must be present");
    assert!(found.equals(&extra));
}
