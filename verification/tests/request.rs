use resp_server::parser::DecodeError;
use resp_server::request::{next_request, Request};
use resp_server::value::Value;

fn bulk(text: &str) -> Value {
    Value::Bulk(text.as_bytes().to_vec())
}

fn refused(message: &str) -> Option<Value> {
    Some(Value::Error(message.to_string()))
}

fn command_of(request: Request) -> Option<(Vec<Value>, usize)> {
    match request {
        Request::Command { values, used } => Some((values, used)),
        _ => None,
    }
}

fn refusal_of(request: Request) -> Option<Value> {
    match request {
        Request::Refused { reply } => Some(reply),
        _ => None,
    }
}

#[test]
fn request_of_a_command() {
    let input = b"*2\r\n$3\r\nGET\r\n$1\r\nk\r\n";
    assert_eq!(
        command_of(next_request(input, 1024)),
        Some((vec![bulk("GET"), bulk("k")], input.len()))
    );
}

#[test]
fn request_leaves_the_bytes_after_it() {
    let input = b"*1\r\n$4\r\nPING\r\n*1\r\n$4\r\nPI";
    assert_eq!(
        command_of(next_request(input, 1024)),
        Some((vec![bulk("PING")], 14))
    );
}

#[test]
fn request_that_ends_too_early_is_incomplete() {
    assert!(matches!(next_request(b"", 1024), Request::Incomplete));
    assert!(matches!(next_request(b"*2\r\n$3\r\nGET\r\n", 1024), Request::Incomplete));
    assert!(matches!(next_request(b"*1\r\n$10\r\nabc", 1024), Request::Incomplete));
    assert!(matches!(next_request(b"*1", 1024), Request::Incomplete));
}

#[test]
fn request_that_is_no_array_is_refused() {
    assert_eq!(refusal_of(next_request(b"+PING\r\n", 1024)), refused("Invalid command"));
    assert_eq!(refusal_of(next_request(b"$4\r\nPING\r\n", 1024)), refused("Invalid command"));
    assert_eq!(refusal_of(next_request(b":1\r\n", 1024)), refused("Invalid command"));
    assert_eq!(refusal_of(next_request(b"*-1\r\n", 1024)), refused("Invalid command"));
}

#[test]
fn request_that_cannot_be_decoded_is_refused() {
    assert_eq!(
        refusal_of(next_request(b"PING\r\n", 1024)),
        refused("Protocol error: unknown type")
    );
    assert_eq!(
        refusal_of(next_request(b"*x\r\n", 1024)),
        refused("Protocol error: malformed length")
    );
    assert_eq!(
        refusal_of(next_request(b"*1\r\n:x\r\n", 1024)),
        refused("Protocol error: malformed integer")
    );
}

#[test]
fn request_beyond_the_limit_is_refused() {
    let large = refused("Protocol error: request too large");
    let input = b"*2\r\n$3\r\nGET\r\n$1\r\nk\r\n";
    assert_eq!(refusal_of(next_request(input, input.len() - 1)), large);
    assert!(command_of(next_request(input, input.len())).is_some());
    assert_eq!(refusal_of(next_request(b"*1\r\n$100\r\nabcdef", 16)), large);
    assert!(matches!(next_request(b"*1\r\n$100\r\nabcdef", 17), Request::Incomplete));
}

#[test]
fn text_of_each_decode_error() {
    assert_eq!(DecodeError::UnknownType.to_text(), "Protocol error: unknown type");
    assert_eq!(DecodeError::MalformedLength.to_text(), "Protocol error: malformed length");
    assert_eq!(DecodeError::StreamClosed.to_text(), "Protocol error: stream closed");
    assert_eq!(DecodeError::Truncated.to_text(), "Protocol error: truncated");
    assert_eq!(DecodeError::MalformedInteger.to_text(), "Protocol error: malformed integer");
}

#[test]
fn request_is_read_within_the_limit_only() {
    let mut input = b"*1\r\n$4\r\nPING\r\n".to_vec();
    input.extend_from_slice(b"?? what follows is of no account");
    assert_eq!(
        command_of(next_request(&input, 14)),
        Some((vec![bulk("PING")], 14))
    );
    assert_eq!(
        refusal_of(next_request(&input, 13)),
        refused("Protocol error: request too large")
    );
    assert_eq!(
        refusal_of(next_request(b"*1\r\n$4\r\nPING?", 13)),
        refused("Protocol error: request too large")
    );
    assert_eq!(
        refusal_of(next_request(b"*1\r\n$4\r\nPING??", 1024)),
        refused("Protocol error: malformed length")
    );
    assert_eq!(
        refusal_of(next_request(b"", 0)),
        refused("Protocol error: request too large")
    );
}
