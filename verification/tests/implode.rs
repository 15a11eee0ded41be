use explodesh::error::{Error, ErrorKind};
use explodesh::implode::{deserialize_any, deserialize_array, deserialize_table};
use explodesh::listing::{array_order, table_names};
use explodesh::node::{Entry, Node};
use explodesh::value::{Member, Value};

fn file(content: &str) -> Node {
    Node::File(content.to_string())
}

fn entry(name: &str, node: Node) -> Entry {
    Entry { name: Some(name.to_string()), node }
}

fn string(s: &str) -> Value {
    Value::String(s.to_string())
}

fn member(key: &str, value: Value) -> Member {
    Member { key: key.to_string(), value }
}

fn error(kind: ErrorKind, path: &[&str], content: &str) -> Error {
    Error {
        kind,
        path: path.iter().map(|s| s.to_string()).collect(),
        content: content.to_string(),
    }
}

#[test]
fn deserialize_any_newline() {
    let dir = Node::Directory(vec![entry("foo", file("\"foo\"\n"))]);
    assert!(deserialize_any(&dir).is_ok());
}

#[test]
fn arrays_must_have_sequential_keys() {
    let files = vec![entry("0", file("true")), entry("2", file("false"))];
    assert!(deserialize_array(&files).is_err());
}

#[test]
fn arrays_indexes_based_on_filename() {
    let entries = [(2, "two"), (1, "one"), (3, "three"), (0, "zero")];
    let mut files = Vec::new();
    for (index, value) in entries.iter() {
        files.push(entry(&index.to_string(), file(&toml::to_string(value).unwrap())));
    }
    let array = match deserialize_array(&files).unwrap() {
        Value::Array(items) => items,
        other => panic!("not an array: {:?}", other),
    };
    for (index, value) in entries.iter() {
        assert_eq!(array[*index], Value::String(value.to_string()));
    }
}

#[test]
fn deserialize_any_simple() {
    let dir = Node::Directory(vec![entry("foo", file("\"bar\""))]);
    let value = deserialize_any(&dir).unwrap();
    match value {
        Value::Table(members) => {
            assert_eq!(members.len(), 1);
            assert_eq!(members[0].key, "foo");
            assert_eq!(members[0].value, Value::String(String::from("bar")));
        }
        other => panic!("not a table: {:?}", other),
    }
}

#[test]
fn deserialize_array_reads_items_of_every_kind() {
    let files = vec![
        entry("0", file("true")),
        entry("1", file("23")),
        entry("2", file("\"hello\"")),
    ];
    let value = deserialize_array(&files).unwrap();
    assert_eq!(
        value,
        Value::Array(vec![Value::Boolean(true), Value::Integer(23), string("hello")])
    );
}

#[test]
fn deserialize_table_keeps_every_name_as_a_key() {
    let files = vec![entry("foo", file("\"bar\"")), entry("0", file("42"))];
    let value = deserialize_table(&files).unwrap();
    assert_eq!(
        value,
        Value::Table(vec![member("foo", string("bar")), member("0", Value::Integer(42))])
    );
}

#[test]
fn names_zero_to_two_are_an_array_of_three() {
    let dir = Node::Directory(vec![
        entry("1", file("11")),
        entry("2", file("12")),
        entry("0", file("10")),
    ]);
    assert_eq!(
        deserialize_any(&dir),
        Ok(Value::Array(vec![Value::Integer(10), Value::Integer(11), Value::Integer(12)]))
    );
}

#[test]
fn names_with_a_gap_are_a_table() {
    let dir = Node::Directory(vec![entry("0", file("true")), entry("2", file("false"))]);
    assert_eq!(
        deserialize_any(&dir),
        Ok(Value::Table(vec![
            member("0", Value::Boolean(true)),
            member("2", Value::Boolean(false)),
        ]))
    );
}

#[test]
fn two_names_of_one_index_are_no_array() {
    let files = vec![entry("01", file("1")), entry("1", file("2"))];
    assert_eq!(array_order(&files), None);
    assert_eq!(deserialize_array(&files), Err(error(ErrorKind::Structure, &[], "")));
    assert_eq!(
        deserialize_any(&Node::Directory(files)),
        Ok(Value::Table(vec![member("01", Value::Integer(1)), member("1", Value::Integer(2))]))
    );
}

#[test]
fn leading_zeros_and_plus_signs_still_name_indices() {
    let files = vec![entry("+1", file("\"b\"")), entry("000", file("\"a\""))];
    assert_eq!(array_order(&files), Some(vec![1, 0]));
    assert_eq!(deserialize_array(&files), Ok(Value::Array(vec![string("a"), string("b")])));
}

#[test]
fn names_that_are_no_indices_are_no_array() {
    for name in ["-0", "", "+", "1a", " 1", "0x1", "99999999999999999999999999"] {
        let files = vec![entry(name, file("1"))];
        assert_eq!(array_order(&files), None, "{:?}", name);
    }
    let files = vec![entry("1", file("1"))];
    assert_eq!(array_order(&files), None);
}

#[test]
fn empty_directory_is_the_empty_array() {
    let dir = Node::Directory(vec![]);
    assert_eq!(deserialize_any(&dir), Ok(Value::Array(vec![])));
    assert_eq!(deserialize_any(&dir), Ok(Value::Array(vec![])));
    assert_eq!(deserialize_array(&vec![]), Ok(Value::Array(vec![])));
    assert_eq!(deserialize_table(&vec![]), Ok(Value::Table(vec![])));
}

#[test]
fn nested_directories_are_nested_collections() {
    let dir = Node::Directory(vec![
        entry("name", file("\"a\"")),
        entry("tags", Node::Directory(vec![entry("0", file("\"x\"")), entry("1", file("\"y\""))])),
        entry("nested", Node::Directory(vec![entry("ok", file("true"))])),
    ]);
    assert_eq!(
        deserialize_any(&dir),
        Ok(Value::Table(vec![
            member("name", string("a")),
            member("tags", Value::Array(vec![string("x"), string("y")])),
            member("nested", Value::Table(vec![member("ok", Value::Boolean(true))])),
        ]))
    );
}

#[test]
fn other_nodes_are_refused() {
    assert_eq!(deserialize_any(&Node::Other), Err(error(ErrorKind::NotFileOrDirectory, &[], "")));
    let dir = Node::Directory(vec![entry("a", Node::Directory(vec![entry("b", Node::Other)]))]);
    assert_eq!(
        deserialize_any(&dir),
        Err(error(ErrorKind::NotFileOrDirectory, &["a", "b"], ""))
    );
}

#[test]
fn a_name_that_is_no_text_is_a_structural_error() {
    let files = vec![entry("a", file("1")), Entry { name: None, node: file("2") }];
    assert!(!table_names(&files));
    assert_eq!(deserialize_table(&files), Err(error(ErrorKind::Structure, &[], "")));
    let dir = Node::Directory(vec![entry("sub", Node::Directory(files))]);
    assert_eq!(deserialize_any(&dir), Err(error(ErrorKind::Structure, &["sub"], "")));
}

#[test]
fn a_name_that_occurs_twice_is_a_structural_error() {
    let files = vec![entry("a", file("1")), entry("b", file("2")), entry("a", file("3"))];
    assert!(!table_names(&files));
    assert_eq!(deserialize_table(&files), Err(error(ErrorKind::Structure, &[], "")));
}

#[test]
fn a_file_that_is_no_scalar_fails_with_its_path_and_content() {
    let dir = Node::Directory(vec![
        entry("fine", file("1")),
        entry("sub", Node::Directory(vec![entry("0", file("not a scalar\n"))])),
        entry("later", file("also none")),
    ]);
    assert_eq!(
        deserialize_any(&dir),
        Err(error(ErrorKind::ScalarInference, &["sub", "0"], "not a scalar\n"))
    );
}

#[test]
fn the_first_failing_item_by_index_decides() {
    let files = vec![
        entry("2", file("zzz")),
        entry("0", file("1")),
        entry("1", file("yyy")),
    ];
    assert_eq!(
        deserialize_array(&files),
        Err(error(ErrorKind::ScalarInference, &["1"], "yyy"))
    );
}

#[test]
fn what_is_read_has_no_key_twice() {
    let dir = Node::Directory(vec![
        entry("b", file("1")),
        entry("a", file("2")),
        entry("c", Node::Directory(vec![entry("x", file("3")), entry("y", file("4"))])),
    ]);
    fn check(value: &Value) {
        match value {
            Value::Table(members) => {
                for (i, m) in members.iter().enumerate() {
                    for n in members.iter().skip(i + 1) {
                        assert_ne!(m.key, n.key);
                    }
                    check(&m.value);
                }
            }
            Value::Array(items) => {
                for item in items {
                    check(item);
                }
            }
            _ => {}
        }
    }
    check(&deserialize_any(&dir).unwrap());
}
