use jsonlike::parse_string;
use jsonlike::DictEntry;
use jsonlike::Value;

fn parse(text: &str) -> Result<Value, jsonlike::Error> {
    parse_string(&text.to_string())
}

#[test]
fn empty_array_parses() {
    assert_eq!(parse("[]").unwrap(), Value::Array { value: vec![] });
}

#[test]
fn empty_array_with_whitespace_parses() {
    assert_eq!(parse("[ \n ]").unwrap(), Value::Array { value: vec![] });
}

#[test]
fn empty_dict_parses() {
    assert_eq!(parse("{}").unwrap(), Value::Dict { value: vec![] });
}

#[test]
fn empty_dict_with_whitespace_parses() {
    assert_eq!(parse("{ \t }").unwrap(), Value::Dict { value: vec![] });
}

#[test]
fn array_keeps_element_order() {
    assert_eq!(
        parse("[1, 2, 3]").unwrap(),
        Value::Array {
            value: vec![
                Value::Integer { value: 1 },
                Value::Integer { value: 2 },
                Value::Integer { value: 3 },
            ]
        }
    );
}

#[test]
fn nested_arrays_keep_structure() {
    assert_eq!(
        parse("[[1, [2]], []]").unwrap(),
        Value::Array {
            value: vec![
                Value::Array {
                    value: vec![
                        Value::Integer { value: 1 },
                        Value::Array { value: vec![Value::Integer { value: 2 }] },
                    ]
                },
                Value::Array { value: vec![] },
            ]
        }
    );
}

#[test]
fn single_entry_dict_parses() {
    assert_eq!(
        parse("{\"a\": 1}").unwrap(),
        Value::Dict {
            value: vec![DictEntry { key: "a".to_string(), value: Value::Integer { value: 1 } }]
        }
    );
}

#[test]
fn duplicate_key_keeps_last_value() {
    assert_eq!(
        parse("{\"a\":1,\"a\":2}").unwrap(),
        Value::Dict {
            value: vec![DictEntry { key: "a".to_string(), value: Value::Integer { value: 2 } }]
        }
    );
}

#[test]
fn duplicate_key_overwrites_in_place() {
    assert_eq!(
        parse("{\"a\":1,\"b\":2,\"a\":3}").unwrap(),
        Value::Dict {
            value: vec![
                DictEntry { key: "a".to_string(), value: Value::Integer { value: 3 } },
                DictEntry { key: "b".to_string(), value: Value::Integer { value: 2 } },
            ]
        }
    );
}

#[test]
fn round_trip_document() {
    // {"x": [1, 2.5, "y", true, null, {"z": -3}]}
    let parsed = parse("{\"x\": [1, 2.5, \"y\", true, null, {\"z\": -3}]}").unwrap();
    let entries = match parsed {
        Value::Dict { value } => value,
        other => panic!("expected an object, got {:?}", other),
    };
    assert_eq!(entries.len(), 1);
    assert_eq!(entries[0].key, "x");
    let items = match &entries[0].value {
        Value::Array { value } => value,
        other => panic!("expected an array, got {:?}", other),
    };
    assert_eq!(items.len(), 6);
    assert_eq!(items[0], Value::Integer { value: 1 });
    match &items[1] {
        Value::Float { value } => assert_eq!(value.parse::<f64>().unwrap(), 2.5),
        other => panic!("expected a float, got {:?}", other),
    }
    assert_eq!(items[2], Value::String { value: "y".to_string() });
    assert_eq!(items[3], Value::Boolean { value: true });
    assert_eq!(items[4], Value::Null);
    assert_eq!(
        items[5],
        Value::Dict {
            value: vec![DictEntry { key: "z".to_string(), value: Value::Integer { value: -3 } }]
        }
    );
}
