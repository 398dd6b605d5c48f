use resp_server::parser::{parse, DecodeError, Value};

fn bulk(text: &str) -> Value {
    Value::Bulk(text.as_bytes().to_vec())
}

#[test]
fn parse_resp() {
    let input = b"*2\r\n$5\r\nhello\r\n$5\r\nworld\r\n";

    let expected_value = Value::Array(vec![bulk("hello"), bulk("world")]);

    assert_eq!(parse(input).unwrap(), (expected_value, input.len()));
}

#[test]
fn parse_simple_string() {
    assert_eq!(parse(b"+OK\r\n"), Ok((Value::Str("OK".to_string()), 5)));
}

#[test]
fn parse_empty_simple_string() {
    assert_eq!(parse(b"+\r\n"), Ok((Value::Str(String::new()), 3)));
}

#[test]
fn parse_error_line() {
    assert_eq!(
        parse(b"-ERR unknown\r\n"),
        Ok((Value::Error("ERR unknown".to_string()), 14))
    );
}

#[test]
fn parse_line_keeps_lone_carriage_return() {
    assert_eq!(parse(b"+a\rb\r\n"), Ok((Value::Str("a\rb".to_string()), 6)));
}

#[test]
fn parse_line_repairs_invalid_utf8() {
    assert_eq!(
        parse(b"+a\xffb\r\n"),
        Ok((Value::Str("a\u{fffd}b".to_string()), 6))
    );
}

#[test]
fn parse_line_with_multibyte_text() {
    let input = "+héllo €\r\n".as_bytes();
    assert_eq!(
        parse(input),
        Ok((Value::Str("héllo €".to_string()), input.len()))
    );
}

#[test]
fn parse_integers() {
    assert_eq!(parse(b":0\r\n"), Ok((Value::Num(0), 4)));
    assert_eq!(parse(b":42\r\n"), Ok((Value::Num(42), 5)));
    assert_eq!(parse(b":-17\r\n"), Ok((Value::Num(-17), 6)));
    assert_eq!(parse(b":+17\r\n"), Ok((Value::Num(17), 6)));
    assert_eq!(parse(b":007\r\n"), Ok((Value::Num(7), 6)));
}

#[test]
fn parse_integer_limits() {
    assert_eq!(parse(b":2147483647\r\n"), Ok((Value::Num(i32::MAX), 13)));
    assert_eq!(parse(b":-2147483648\r\n"), Ok((Value::Num(i32::MIN), 14)));
    assert_eq!(parse(b":2147483648\r\n"), Err(DecodeError::MalformedInteger));
    assert_eq!(parse(b":-2147483649\r\n"), Err(DecodeError::MalformedInteger));
    assert_eq!(
        parse(b":99999999999999999999999999\r\n"),
        Err(DecodeError::MalformedInteger)
    );
}

#[test]
fn parse_malformed_integer() {
    assert_eq!(parse(b":\r\n"), Err(DecodeError::MalformedInteger));
    assert_eq!(parse(b":-\r\n"), Err(DecodeError::MalformedInteger));
    assert_eq!(parse(b":12a\r\n"), Err(DecodeError::MalformedInteger));
    assert_eq!(parse(b":abc\r\n"), Err(DecodeError::MalformedInteger));
    assert_eq!(parse(b": 1\r\n"), Err(DecodeError::MalformedInteger));
    assert_eq!(parse(b":1-\r\n"), Err(DecodeError::MalformedInteger));
}

#[test]
fn parse_bulk_string() {
    assert_eq!(parse(b"$5\r\nhello\r\n"), Ok((bulk("hello"), 11)));
    assert_eq!(parse(b"$0\r\n\r\n"), Ok((bulk(""), 6)));
}

#[test]
fn parse_bulk_of_two_digit_length() {
    assert_eq!(
        parse(b"$12\r\nhello world!\r\n"),
        Ok((bulk("hello world!"), 19))
    );
}

#[test]
fn parse_bulk_of_three_digit_length() {
    let payload = vec![b'x'; 123];
    let mut input = b"$123\r\n".to_vec();
    input.extend_from_slice(&payload);
    input.extend_from_slice(b"\r\n");
    assert_eq!(parse(&input), Ok((Value::Bulk(payload), input.len())));
}

#[test]
fn parse_bulk_with_leading_zeros_in_length() {
    assert_eq!(parse(b"$005\r\nhello\r\n"), Ok((bulk("hello"), 13)));
}

#[test]
fn parse_bulk_is_binary_safe() {
    let payload = b"a\r\nb\x00\xff\r\n".to_vec();
    let mut input = b"$8\r\n".to_vec();
    input.extend_from_slice(&payload);
    input.extend_from_slice(b"\r\n");
    assert_eq!(parse(&input), Ok((Value::Bulk(payload), input.len())));
}

#[test]
fn parse_null() {
    assert_eq!(parse(b"$-1\r\n"), Ok((Value::Null, 5)));
    assert_eq!(parse(b"*-1\r\n"), Ok((Value::Null, 5)));
}

#[test]
fn parse_empty_array() {
    assert_eq!(parse(b"*0\r\n"), Ok((Value::Array(vec![]), 4)));
}

#[test]
fn parse_array_of_twelve_items() {
    let mut input = b"*12\r\n".to_vec();
    let mut items = Vec::new();
    for i in 0..12 {
        input.extend_from_slice(format!(":{}\r\n", i).as_bytes());
        items.push(Value::Num(i));
    }
    assert_eq!(parse(&input), Ok((Value::Array(items), input.len())));
}

#[test]
fn parse_nested_array() {
    let input = b"*3\r\n*2\r\n:1\r\n+a\r\n$-1\r\n*0\r\n";
    let expected = Value::Array(vec![
        Value::Array(vec![Value::Num(1), Value::Str("a".to_string())]),
        Value::Null,
        Value::Array(vec![]),
    ]);
    assert_eq!(parse(input), Ok((expected, input.len())));
}

#[test]
fn parse_stops_after_one_unit() {
    assert_eq!(parse(b":1\r\n:2\r\n"), Ok((Value::Num(1), 4)));
    assert_eq!(parse(b"$2\r\nhi\r\nrest"), Ok((bulk("hi"), 8)));
    let input = b"*1\r\n$4\r\nPING\r\n*1\r\n$4\r\nPING\r\n";
    let (first, used) = parse(input).unwrap();
    assert_eq!(first, Value::Array(vec![bulk("PING")]));
    assert_eq!(used, 14);
    assert_eq!(parse(&input[used..]), Ok((first, 14)));
}

#[test]
fn parse_unknown_type() {
    assert_eq!(parse(b"?\r\n"), Err(DecodeError::UnknownType));
    assert_eq!(parse(b"hello\r\n"), Err(DecodeError::UnknownType));
    assert_eq!(parse(b"*1\r\n!\r\n"), Err(DecodeError::UnknownType));
}

#[test]
fn parse_stream_closed() {
    assert_eq!(parse(b""), Err(DecodeError::StreamClosed));
    assert_eq!(parse(b"+OK"), Err(DecodeError::StreamClosed));
    assert_eq!(parse(b"+OK\r"), Err(DecodeError::StreamClosed));
    assert_eq!(parse(b":12"), Err(DecodeError::StreamClosed));
    assert_eq!(parse(b"$"), Err(DecodeError::StreamClosed));
    assert_eq!(parse(b"$5"), Err(DecodeError::StreamClosed));
    assert_eq!(parse(b"$5\r"), Err(DecodeError::StreamClosed));
    assert_eq!(parse(b"$-"), Err(DecodeError::StreamClosed));
    assert_eq!(parse(b"$-1"), Err(DecodeError::StreamClosed));
    assert_eq!(parse(b"$-1\r"), Err(DecodeError::StreamClosed));
    assert_eq!(parse(b"*2\r\n:1\r\n"), Err(DecodeError::StreamClosed));
    assert_eq!(parse(b"*2\r\n:1\r\n:2"), Err(DecodeError::StreamClosed));
}

#[test]
fn parse_malformed_length() {
    assert_eq!(parse(b"$abc\r\n"), Err(DecodeError::MalformedLength));
    assert_eq!(parse(b"$\r\n"), Err(DecodeError::MalformedLength));
    assert_eq!(parse(b"$5x\r\nhello\r\n"), Err(DecodeError::MalformedLength));
    assert_eq!(parse(b"$5\rxhello\r\n"), Err(DecodeError::MalformedLength));
    assert_eq!(parse(b"$-2\r\n"), Err(DecodeError::MalformedLength));
    assert_eq!(parse(b"$-1x\r\n"), Err(DecodeError::MalformedLength));
    assert_eq!(parse(b"$-10\r\n"), Err(DecodeError::MalformedLength));
    assert_eq!(parse(b"$+5\r\nhello\r\n"), Err(DecodeError::MalformedLength));
    assert_eq!(parse(b"*x\r\n"), Err(DecodeError::MalformedLength));
    assert_eq!(parse(b"* 1\r\n:1\r\n"), Err(DecodeError::MalformedLength));
}

#[test]
fn parse_length_beyond_a_machine_word() {
    assert_eq!(
        parse(b"$99999999999999999999999999999999\r\n"),
        Err(DecodeError::MalformedLength)
    );
    assert_eq!(
        parse(b"*99999999999999999999999999999999"),
        Err(DecodeError::MalformedLength)
    );
}

#[test]
fn parse_bulk_whose_length_is_contradicted() {
    assert_eq!(parse(b"$3\r\nhello\r\n"), Err(DecodeError::MalformedLength));
    assert_eq!(parse(b"$5\r\nhelloXY"), Err(DecodeError::MalformedLength));
}

#[test]
fn parse_truncated_bulk() {
    assert_eq!(parse(b"$5\r\nhel"), Err(DecodeError::Truncated));
    assert_eq!(parse(b"$5\r\nhello"), Err(DecodeError::Truncated));
    assert_eq!(parse(b"$5\r\nhello\r"), Err(DecodeError::Truncated));
    assert_eq!(parse(b"$5\r\n"), Err(DecodeError::Truncated));
    assert_eq!(parse(b"*1\r\n$10\r\nhello\r\n"), Err(DecodeError::Truncated));
}

#[test]
fn parse_huge_array_length_needs_its_items() {
    assert_eq!(parse(b"*4000000000\r\n:1\r\n"), Err(DecodeError::StreamClosed));
}

#[test]
fn parse_deeply_nested_array() {
    let depth = 500;
    let mut input = Vec::new();
    for _ in 0..depth {
        input.extend_from_slice(b"*1\r\n");
    }
    input.extend_from_slice(b":7\r\n");
    let mut expected = Value::Num(7);
    for _ in 0..depth {
        expected = Value::Array(vec![expected]);
    }
    assert_eq!(parse(&input), Ok((expected, input.len())));
    assert_eq!(parse(&input[..input.len() - 1]), Err(DecodeError::StreamClosed));
}
