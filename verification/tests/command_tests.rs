use qumulus::command::{reply_message, Call, Command};
use qumulus::node::Update;
use qumulus::path::Path;
use qumulus::value::{Json, Leaf};

#[test]
fn test_from_json() {
    let result = Command::from_json("[ 42, [], 42 ]");
    assert!(result.is_err());

    let result = Command::from_json(r#"[ 1, "write", [], 42 ]"#).unwrap();
    assert_eq!(result.call, Call::Write);

    let result = Command::from_json(r#"[ 1, "moo", [], 42 ]"#);
    assert!(result.is_err());

    let result = Command::from_json(r#"[ 1, "bind", [ 42 ], 42 ]"#);
    assert!(result.is_err());

    let result = Command::from_json(r#"[ 1, "bind", [ "moo" ], 42 ]"#).unwrap();
    assert_eq!(result.call, Call::Bind);
    assert_eq!(result.path, Path::new(vec!["moo".to_string()]));

    let result = Command::from_json(r#"[ 1, "bind", [ "moo", 42 ], 42 ]"#);
    assert!(result.is_err());
}

#[test]
fn from_json_errors() {
    assert_eq!(Command::from_json("not json").unwrap_err(), "Bad JSON");
    assert_eq!(Command::from_json("{}").unwrap_err(), "Not array");
    assert_eq!(Command::from_json("[ 1, 2, 3 ]").unwrap_err(), "Wrong number of elements");
    assert_eq!(Command::from_json(r#"[ -1, "read", [], 0 ]"#).unwrap_err(), "Bad ID");
    assert_eq!(Command::from_json(r#"[ 1, 2, [], 0 ]"#).unwrap_err(), "Bad call");
    assert_eq!(Command::from_json(r#"[ 1, "read", {}, 0 ]"#).unwrap_err(), "Bad path");
    assert_eq!(Command::from_json(r#"[ 1, "read", [ 1 ], 0 ]"#).unwrap_err(), "Bad path");
    assert_eq!(Command::from_json(r#"[ 1, "moo", [], 0 ]"#).unwrap_err(), "Bad call");
}

#[test]
fn from_json_reads_everything() {
    let c = Command::from_json(r#"[ 7, "write", [ "moo", "cow" ], { "a": [ true, null ] } ]"#).unwrap();
    assert_eq!(c.id, 7);
    assert_eq!(c.call, Call::Write);
    assert_eq!(c.path, Path::new(vec!["moo".to_string(), "cow".to_string()]));
    assert_eq!(
        c.params,
        Json::Object(vec![(
            "a".to_string(),
            Json::Array(vec![Json::Scalar(Leaf::Bool(true)), Json::Scalar(Leaf::Null)])
        )])
    );
    assert!(!c.recursive());
    let c = Command::from_json(r#"[ 8, "kill", [], null ]"#).unwrap();
    assert_eq!(c.call, Call::Kill);
    assert!(!c.recursive());
    let c = Command::from_json(r#"[ 9, "read", [ "*" ], null ]"#).unwrap();
    assert_eq!(c.call, Call::Read);
    assert!(c.recursive());
}

#[test]
fn from_parsed_stamps_timestamp() {
    let data = Json::Array(vec![
        Json::Scalar(Leaf::U64(3)),
        Json::Scalar(Leaf::String("bind".to_string())),
        Json::Array(vec![]),
        Json::Scalar(Leaf::Null),
    ]);
    let c = Command::from_parsed(Some(data), 1234).unwrap();
    assert_eq!(c.timestamp, 1234);
    assert_eq!(c.id, 3);
    assert!(c.recursive());
    assert_eq!(Command::from_parsed(None, 1).unwrap_err(), "Bad JSON");
}

#[test]
fn reply_lists_id_left_zone_and_update() {
    let zone = Path::new(vec!["moo".to_string()]);
    let update = Some(Update { visible: Some(true), old: None, new: Some(Leaf::U64(42)), keys: None });
    assert_eq!(
        reply_message(4, 0, &zone, &update),
        Json::Array(vec![
            Json::Scalar(Leaf::U64(4)),
            Json::Scalar(Leaf::U64(0)),
            Json::Array(vec![Json::Scalar(Leaf::String("moo".to_string()))]),
            Json::Array(vec![Json::Scalar(Leaf::U64(42)), Json::Scalar(Leaf::Null)]),
        ])
    );
    assert_eq!(
        reply_message(5, 2, &Path::new(vec![]), &None),
        Json::Array(vec![
            Json::Scalar(Leaf::U64(5)),
            Json::Scalar(Leaf::U64(2)),
            Json::Array(vec![]),
            Json::Scalar(Leaf::Null),
        ])
    );
}
