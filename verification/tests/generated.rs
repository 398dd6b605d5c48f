use resp_server::parser::{parse, DecodeError, Value};
use resp_server::request::{next_request, Request};
use resp_server::writer::marshal_value;

/// A small deterministic generator, so that every run sees the same cases.
struct Source(u64);

impl Source {
    fn next(&mut self) -> u64 {
        self.0 ^= self.0 << 13;
        self.0 ^= self.0 >> 7;
        self.0 ^= self.0 << 17;
        self.0
    }

    fn below(&mut self, bound: u64) -> u64 {
        self.next() % bound
    }

    fn bytes(&mut self, most: u64) -> Vec<u8> {
        let len = self.below(most + 1);
        (0..len).map(|_| self.below(256) as u8).collect()
    }

    fn line(&mut self) -> String {
        let alphabet: Vec<char> = "abc XYZ09-+:$*\ré€\u{1F600}".chars().collect();
        let len = self.below(12);
        (0..len).map(|_| alphabet[self.below(alphabet.len() as u64) as usize]).collect()
    }

    fn value(&mut self, depth: u32) -> Value {
        let kinds = if depth == 0 { 5 } else { 6 };
        match self.below(kinds) {
            0 => Value::Str(self.line()),
            1 => Value::Num(self.next() as i32),
            2 => Value::Bulk(self.bytes(40)),
            3 => Value::Error(self.line()),
            4 => Value::Null,
            _ => {
                let len = self.below(15);
                Value::Array((0..len).map(|_| self.value(depth - 1)).collect())
            }
        }
    }
}

fn incomplete(result: &Result<(Value, usize), DecodeError>) -> bool {
    matches!(result, Err(DecodeError::StreamClosed) | Err(DecodeError::Truncated))
}

#[test]
fn generated_values_round_trip() {
    let mut source = Source(0x9e3779b97f4a7c15);
    for _ in 0..2000 {
        let value = source.value(3);
        let bytes = marshal_value(&value);
        let used = bytes.len();
        assert_eq!(parse(&bytes), Ok((value, used)));
    }
}

#[test]
fn generated_values_round_trip_before_other_bytes() {
    let mut source = Source(0x2545f4914f6cdd1d);
    for _ in 0..500 {
        let value = source.value(3);
        let mut bytes = marshal_value(&value);
        let used = bytes.len();
        bytes.extend_from_slice(&source.bytes(20));
        assert_eq!(parse(&bytes), Ok((value, used)));
    }
}

#[test]
fn every_proper_prefix_of_a_wire_form_is_incomplete() {
    let mut source = Source(0xdeadbeefcafef00d);
    for _ in 0..200 {
        let value = source.value(1);
        let bytes = marshal_value(&value);
        for cut in 0..bytes.len() {
            assert!(incomplete(&parse(&bytes[..cut])));
        }
    }
}

#[test]
fn generated_bytes_decode_from_their_own_unit_alone() {
    let mut source = Source(0x0123456789abcdef);
    let alphabet = b"+-:$*0123456789\r\n\r\nab";
    let mut decoded = 0;
    for _ in 0..20000 {
        let len = source.below(24) as usize;
        let input: Vec<u8> = (0..len)
            .map(|_| alphabet[source.below(alphabet.len() as u64) as usize])
            .collect();
        let result = parse(&input);
        if let Ok((value, used)) = &result {
            decoded += 1;
            assert!(0 < *used && *used <= input.len());
            assert_eq!(parse(&input[..*used]), Ok((value.clone(), *used)));
        }
        if !incomplete(&result) {
            let mut longer = input.clone();
            longer.extend_from_slice(&source.bytes(8));
            assert_eq!(parse(&longer), result);
        }
    }
    assert!(decoded > 100);
}

#[test]
fn generated_commands_are_framed_whole() {
    let mut source = Source(0x1234567812345678);
    for _ in 0..300 {
        let len = source.below(5);
        let values: Vec<Value> = (0..len).map(|_| source.value(1)).collect();
        let bytes = marshal_value(&Value::Array(values.clone()));
        for cut in 0..bytes.len() {
            assert_eq!(next_request(&bytes[..cut], 1 << 20), Request::Incomplete);
        }
        assert_eq!(
            next_request(&bytes, 1 << 20),
            Request::Command { values, used: bytes.len() }
        );
    }
}
