use resp_server::value::Value;

#[test]
fn unwrap_str_of_each_string_variant() {
    assert_eq!(Value::Str("a".to_string()).unwrap_str(), "a");
    assert_eq!(Value::Bulk(b"b".to_vec()).unwrap_str(), "b");
    assert_eq!(Value::Error("c".to_string()).unwrap_str(), "c");
}

#[test]
fn unwrap_str_of_bulk_reads_utf8() {
    assert_eq!(Value::Bulk("héllo €".as_bytes().to_vec()).unwrap_str(), "héllo €");
    assert_eq!(Value::Bulk(vec![]).unwrap_str(), "");
}

#[test]
fn unwrap_str_of_bulk_repairs_invalid_utf8() {
    assert_eq!(Value::Bulk(b"a\xffb".to_vec()).unwrap_str(), "a\u{fffd}b");
    assert_eq!(Value::Bulk(b"\xe2\x82".to_vec()).unwrap_str(), "\u{fffd}");
}

#[test]
fn is_text_tells_the_string_variants() {
    assert!(Value::Str(String::new()).is_text());
    assert!(Value::Bulk(vec![]).is_text());
    assert!(Value::Error(String::new()).is_text());
    assert!(!Value::Num(0).is_text());
    assert!(!Value::Array(vec![]).is_text());
    assert!(!Value::Null.is_text());
}

#[test]
fn unwrap_num_gives_the_number() {
    assert_eq!(Value::Num(42).unwrap_num(), 42);
    assert_eq!(Value::Num(i32::MIN).unwrap_num(), i32::MIN);
}

#[test]
fn unwrap_arr_copies_the_items() {
    let items = vec![
        Value::Num(1),
        Value::Bulk(b"x".to_vec()),
        Value::Array(vec![Value::Null, Value::Str("s".to_string())]),
    ];
    let value = Value::Array(items.clone());
    assert_eq!(value.unwrap_arr(), items);
    assert_eq!(Value::Array(vec![]).unwrap_arr(), vec![]);
}

#[test]
fn clone_is_deep() {
    let value = Value::Array(vec![
        Value::Array(vec![Value::Error("e".to_string()), Value::Num(-1)]),
        Value::Null,
    ]);
    assert_eq!(value.clone(), value);
}
