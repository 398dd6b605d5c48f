use resp_server::parser::{parse, Value};
use resp_server::writer::marshal_value;

#[test]
fn marshal_bulk_value() {
    assert_eq!(
        marshal_value(&Value::Bulk("hello".to_string().into_bytes())),
        b"$5\r\nhello\r\n"
    );
}

#[test]
fn marshal_array_value() {
    assert_eq!(
        marshal_value(&Value::Array(vec![
            Value::Bulk("hello".to_string().into_bytes()),
            Value::Bulk("world".to_string().into_bytes()),
        ])),
        b"*2\r\n$5\r\nhello\r\n$5\r\nworld\r\n"
    );
}

#[test]
fn marshal_simple_string() {
    assert_eq!(marshal_value(&Value::Str("OK".to_string())), b"+OK\r\n");
}

#[test]
fn marshal_error() {
    assert_eq!(
        marshal_value(&Value::Error("Wrong number of arguments".to_string())),
        b"-Wrong number of arguments\r\n"
    );
}

#[test]
fn marshal_integers() {
    assert_eq!(marshal_value(&Value::Num(0)), b":0\r\n");
    assert_eq!(marshal_value(&Value::Num(7)), b":7\r\n");
    assert_eq!(marshal_value(&Value::Num(10)), b":10\r\n");
    assert_eq!(marshal_value(&Value::Num(1234567890)), b":1234567890\r\n");
    assert_eq!(marshal_value(&Value::Num(-1)), b":-1\r\n");
    assert_eq!(marshal_value(&Value::Num(i32::MAX)), b":2147483647\r\n");
    assert_eq!(marshal_value(&Value::Num(i32::MIN)), b":-2147483648\r\n");
}

#[test]
fn marshal_null() {
    assert_eq!(marshal_value(&Value::Null), b"$-1\r\n");
}

#[test]
fn marshal_empty_values() {
    assert_eq!(marshal_value(&Value::Bulk(vec![])), b"$0\r\n\r\n");
    assert_eq!(marshal_value(&Value::Array(vec![])), b"*0\r\n");
    assert_eq!(marshal_value(&Value::Str(String::new())), b"+\r\n");
}

#[test]
fn marshal_bulk_counts_bytes_not_characters() {
    assert_eq!(
        marshal_value(&Value::Bulk("héllo".as_bytes().to_vec())),
        b"$6\r\nh\xc3\xa9llo\r\n"
    );
}

#[test]
fn marshal_long_bulk_writes_every_digit_of_its_length() {
    let payload = vec![b'a'; 1000];
    let mut expected = b"$1000\r\n".to_vec();
    expected.extend_from_slice(&payload);
    expected.extend_from_slice(b"\r\n");
    assert_eq!(marshal_value(&Value::Bulk(payload)), expected);
}

#[test]
fn marshal_nested_array() {
    let value = Value::Array(vec![
        Value::Num(1),
        Value::Array(vec![Value::Str("a".to_string()), Value::Null]),
        Value::Error("e".to_string()),
    ]);
    assert_eq!(
        marshal_value(&value),
        b"*3\r\n:1\r\n*2\r\n+a\r\n$-1\r\n-e\r\n"
    );
}

fn round_trips(value: Value) {
    let bytes = marshal_value(&value);
    let used = bytes.len();
    assert_eq!(parse(&bytes), Ok((value, used)));
}

#[test]
fn round_trip_of_each_variant() {
    round_trips(Value::Str("hello world".to_string()));
    round_trips(Value::Str("héllo €".to_string()));
    round_trips(Value::Str(String::new()));
    round_trips(Value::Error("ERR something".to_string()));
    round_trips(Value::Num(0));
    round_trips(Value::Num(-123456));
    round_trips(Value::Num(i32::MAX));
    round_trips(Value::Num(i32::MIN));
    round_trips(Value::Bulk(b"hello".to_vec()));
    round_trips(Value::Bulk(vec![]));
    round_trips(Value::Null);
    round_trips(Value::Array(vec![]));
}

#[test]
fn round_trip_of_nested_arrays() {
    round_trips(Value::Array(vec![
        Value::Bulk(b"SET".to_vec()),
        Value::Array(vec![
            Value::Num(-5),
            Value::Array(vec![Value::Null, Value::Str("deep".to_string())]),
        ]),
        Value::Error("oops".to_string()),
        Value::Array(vec![]),
    ]));
}

#[test]
fn round_trip_of_an_array_of_many_items() {
    round_trips(Value::Array((0..250).map(Value::Num).collect()));
}

#[test]
fn round_trip_of_binary_bulk() {
    round_trips(Value::Bulk(b"line one\r\nline two\r\n".to_vec()));
    round_trips(Value::Bulk((0..=255).collect()));
    round_trips(Value::Bulk(b"\r\n".to_vec()));
}

#[test]
fn bulk_with_line_terminators_decodes_and_encodes_unchanged() {
    let wire = b"$12\r\nab\r\ncd\r\nef\r\n\r\n".to_vec();
    let (value, used) = parse(&wire).unwrap();
    assert_eq!(used, wire.len());
    assert_eq!(value, Value::Bulk(b"ab\r\ncd\r\nef\r\n".to_vec()));
    assert_eq!(marshal_value(&value), wire);
}

#[test]
fn simple_string_with_a_line_terminator_does_not_round_trip() {
    let bytes = marshal_value(&Value::Str("a\r\nb".to_string()));
    assert_eq!(parse(&bytes), Ok((Value::Str("a".to_string()), 4)));
}
