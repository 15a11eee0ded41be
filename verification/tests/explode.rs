use explodesh::error::{Error, ErrorKind};
use explodesh::explode::{leaf_from_text, visit_array, visit_serialize, visit_table, visit_value};
use explodesh::implode::deserialize_any;
use explodesh::node::{Entry, Node};
use explodesh::value::{Date, Datetime, Member, Offset, Time, Value};

fn file(content: &str) -> Node {
    Node::File(content.to_string())
}

fn entry(name: &str, node: Node) -> Entry {
    Entry { name: Some(name.to_string()), node }
}

fn string(s: &str) -> Value {
    Value::String(s.to_string())
}

fn member(key: &str, value: Value) -> Member {
    Member { key: key.to_string(), value }
}

fn document() -> Value {
    Value::Table(vec![
        member("name", string("a")),
        member("tags", Value::Array(vec![string("x"), string("y")])),
        member("nested", Value::Table(vec![member("ok", Value::Boolean(true))])),
    ])
}

#[test]
fn visit_serialize_writes_a_quoted_string() {
    assert_eq!(visit_serialize(&string("hello")), Ok(file("\"hello\"")));
}

#[test]
fn visit_serialize_writes_each_scalar_as_its_literal() {
    assert_eq!(visit_serialize(&Value::Boolean(true)), Ok(file("true")));
    assert_eq!(visit_serialize(&Value::Boolean(false)), Ok(file("false")));
    assert_eq!(visit_serialize(&Value::Integer(0)), Ok(file("0")));
    assert_eq!(visit_serialize(&Value::Integer(-42)), Ok(file("-42")));
    assert_eq!(visit_serialize(&Value::Integer(i64::MIN)), Ok(file("-9223372036854775808")));
    assert_eq!(visit_serialize(&Value::Integer(i64::MAX)), Ok(file("9223372036854775807")));
    assert_eq!(visit_serialize(&Value::Float("3.14".to_string())), Ok(file("3.14")));
    assert_eq!(visit_serialize(&string("a\"b\\c\n")), Ok(file("\"a\\\"b\\\\c\\n\"")));
    assert_eq!(visit_serialize(&string("")), Ok(file("\"\"")));
    let datetime = Datetime {
        date: Some(Date { year: 1979, month: 5, day: 27 }),
        time: Some(Time { hour: 7, minute: 32, second: 0, nanosecond: 999_999_000 }),
        offset: Some(Offset::Custom { hours: -8, minutes: 0 }),
    };
    assert_eq!(
        visit_serialize(&Value::Datetime(datetime)),
        Ok(file("1979-05-27T07:32:00.999999-08:00"))
    );
    let local = Datetime {
        date: Some(Date { year: 1979, month: 5, day: 27 }),
        time: None,
        offset: None,
    };
    assert_eq!(visit_serialize(&Value::Datetime(local)), Ok(file("1979-05-27")));
    let zulu = Datetime {
        date: Some(Date { year: 1979, month: 5, day: 27 }),
        time: Some(Time { hour: 0, minute: 0, second: 0, nanosecond: 0 }),
        offset: Some(Offset::Z),
    };
    assert_eq!(visit_serialize(&Value::Datetime(zulu)), Ok(file("1979-05-27T00:00:00Z")));
}

#[test]
fn visit_serialize_refuses_collections() {
    let format = Error { kind: ErrorKind::Format, path: vec![], content: String::new() };
    assert_eq!(visit_serialize(&Value::Array(vec![])), Err(format.clone()));
    assert_eq!(visit_serialize(&Value::Table(vec![])), Err(format.clone()));
    assert_eq!(visit_serialize(&Value::Float("1.2.3".to_string())), Err(format.clone()));
    assert_eq!(
        visit_value(&Value::Array(vec![
            Value::Integer(1),
            Value::Table(vec![member("x", Value::Float(String::new()))]),
        ])),
        Err(Error { kind: ErrorKind::Format, path: vec!["1".to_string(), "x".to_string()], content: String::new() })
    );
    assert_eq!(leaf_from_text(None), Err(format));
    assert_eq!(leaf_from_text(Some("1".to_string())), Ok(file("1")));
}

#[test]
fn visit_table_writes_one_entry_for_each_key() {
    let table = vec![member("foo", string("hello")), member("bar", string("world"))];
    assert_eq!(
        visit_table(&table),
        Ok(Node::Directory(vec![
            entry("foo", file("\"hello\"")),
            entry("bar", file("\"world\"")),
        ]))
    );
}

#[test]
fn visit_array_names_the_entries_after_the_positions() {
    let array: Vec<Value> = vec!["foo", "bar", "baz"].into_iter().map(string).collect();
    assert_eq!(
        visit_array(&array),
        Ok(Node::Directory(vec![
            entry("0", file("\"foo\"")),
            entry("1", file("\"bar\"")),
            entry("2", file("\"baz\"")),
        ]))
    );
}

#[test]
fn visit_array_counts_in_decimal() {
    let array: Vec<Value> = (0..12).map(Value::Integer).collect();
    let names: Vec<Option<String>> = match visit_array(&array).unwrap() {
        Node::Directory(entries) => entries.into_iter().map(|e| e.name).collect(),
        other => panic!("not a directory: {:?}", other),
    };
    let expected: Vec<Option<String>> =
        ["0", "1", "2", "3", "4", "5", "6", "7", "8", "9", "10", "11"]
            .iter()
            .map(|s| Some(s.to_string()))
            .collect();
    assert_eq!(names, expected);
}

#[test]
fn the_empty_array_is_an_empty_directory() {
    assert_eq!(visit_value(&Value::Array(vec![])), Ok(Node::Directory(vec![])));
    assert_eq!(visit_array(&vec![]), Ok(Node::Directory(vec![])));
    assert_eq!(visit_table(&vec![]), Ok(Node::Directory(vec![])));
}

#[test]
fn a_document_becomes_a_directory_tree() {
    let expected = Node::Directory(vec![
        entry("name", file("\"a\"")),
        entry("tags", Node::Directory(vec![entry("0", file("\"x\"")), entry("1", file("\"y\""))])),
        entry("nested", Node::Directory(vec![entry("ok", file("true"))])),
    ]);
    assert_eq!(visit_value(&document()), Ok(expected));
}

#[test]
fn a_document_comes_back_from_its_directory_tree() {
    let tree = visit_value(&document()).unwrap();
    assert_eq!(deserialize_any(&tree), Ok(document()));
}

#[test]
fn a_faithful_tree_of_every_kind_comes_back() {
    let value = Value::Table(vec![
        member("flag", Value::Boolean(false)),
        member("count", Value::Integer(-12)),
        member("ratio", Value::Float("0.5".to_string())),
        member("big", Value::Float("1e300".to_string())),
        member("text", string("plain text, with spaces")),
        member(
            "when",
            Value::Datetime(Datetime {
                date: Some(Date { year: 2001, month: 2, day: 3 }),
                time: Some(Time { hour: 4, minute: 5, second: 6, nanosecond: 7_000_000 }),
                offset: Some(Offset::Custom { hours: 1, minutes: 30 }),
            }),
        ),
        member(
            "rows",
            Value::Array(vec![
                Value::Array(vec![Value::Integer(1), Value::Integer(2)]),
                Value::Array(vec![]),
                Value::Table(vec![member("0", string("zero")), member("x", string("ex"))]),
            ]),
        ),
    ]);
    let tree = visit_value(&value).unwrap();
    assert_eq!(deserialize_any(&tree).as_ref(), Ok(&value));
}

#[test]
fn what_is_not_faithful_comes_back_changed() {
    let empty_table = Value::Table(vec![]);
    let tree = visit_value(&empty_table).unwrap();
    assert_eq!(deserialize_any(&tree), Ok(Value::Array(vec![])));

    let dense = Value::Table(vec![member("1", string("b")), member("0", string("a"))]);
    let tree = visit_value(&dense).unwrap();
    assert_eq!(deserialize_any(&tree), Ok(Value::Array(vec![string("a"), string("b")])));

    let escaped = string("say \"hi\"");
    let tree = visit_value(&escaped).unwrap();
    assert_eq!(deserialize_any(&tree), Ok(string("say \\\"hi\\\"")));

    let whole = Value::Float("42".to_string());
    let tree = visit_value(&whole).unwrap();
    assert_eq!(deserialize_any(&tree), Ok(Value::Integer(42)));
}

#[test]
fn the_empty_string_comes_back() {
    let tree = visit_value(&string("")).unwrap();
    assert_eq!(tree, file("\"\""));
    assert_eq!(deserialize_any(&tree), Ok(string("")));
    let nested = Value::Table(vec![
        member("empty", string("")),
        member("list", Value::Array(vec![string(""), string("x")])),
    ]);
    let tree = visit_value(&nested).unwrap();
    assert_eq!(deserialize_any(&tree).as_ref(), Ok(&nested));
}
