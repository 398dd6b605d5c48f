//! The decoder: from wire bytes to a [`Value`].

use vstd::prelude::*;
use vstd::slice::{slice_subrange, slice_to_vec};
use vstd::string::*;
use crate::decimal::{
    digits_end, digits_value, lemma_digits_end_found, read_digits, read_signed, signed_value,
    MINUS,
};
use crate::text::{lossy_text, text_of_bytes};
pub use crate::value::Value;
use crate::value::{views, ValueView};

verus! {

/// The tag of a simple string, `+`.
pub const STRING: u8 = 0x2b;

/// The tag of an error, `-`.
pub const ERROR: u8 = 0x2d;

/// The tag of an integer, `:`.
pub const INTEGER: u8 = 0x3a;

/// The tag of a bulk string, `$`.
pub const BULK: u8 = 0x24;

/// The tag of an array, `*`.
pub const ARRAY: u8 = 0x2a;

/// Carriage return, the first byte of a line terminator.
pub const CR: u8 = 0x0d;

/// Line feed, the second byte of a line terminator.
pub const LF: u8 = 0x0a;

/// The digit `1`, which follows the sign in the length of a null.
pub const ONE: u8 = 0x31;

/// Why a byte stream could not be decoded into a value.
#[derive(Clone, Copy, Debug, PartialEq, Eq, Structural)]
pub enum DecodeError {
    /// The first byte of a unit is none of the five type tags.
    UnknownType,
    /// A length field is not a decimal count or `-1` ended by a line
    /// terminator, or the bytes after a bulk string contradict its length.
    MalformedLength,
    /// The input ends where a tag, a length field or a line is incomplete.
    StreamClosed,
    /// A bulk string declares more bytes than the input holds.
    Truncated,
    /// The text of an integer is not a signed decimal of 32 bits.
    MalformedInteger,
}

impl DecodeError {
    /// Whether the error says no more than that the input ends too early,
    /// so that more bytes may still complete the unit.
    pub open spec fn is_incomplete(self) -> bool {
        self == DecodeError::StreamClosed || self == DecodeError::Truncated
    }

    /// The text that names the error to a client.
    pub open spec fn message(self) -> Seq<char> {
        match self {
            DecodeError::UnknownType => "Protocol error: unknown type"@,
            DecodeError::MalformedLength => "Protocol error: malformed length"@,
            DecodeError::StreamClosed => "Protocol error: stream closed"@,
            DecodeError::Truncated => "Protocol error: truncated"@,
            DecodeError::MalformedInteger => "Protocol error: malformed integer"@,
        }
    }

    /// The text that names the error to a client.
    pub fn to_text(&self) -> (text: String)
        ensures
            text@ == self.message(),
    {
        match self {
            DecodeError::UnknownType => String::from_str("Protocol error: unknown type"),
            DecodeError::MalformedLength => String::from_str("Protocol error: malformed length"),
            DecodeError::StreamClosed => String::from_str("Protocol error: stream closed"),
            DecodeError::Truncated => String::from_str("Protocol error: truncated"),
            DecodeError::MalformedInteger => String::from_str("Protocol error: malformed integer"),
        }
    }
}

/// What decoding one unit gives: its value and the position right after it.
pub type Decoded = Result<(ValueView, int), DecodeError>;

/// What decoding a run of units gives: their values and the position right
/// after the last.
pub type DecodedItems = Result<(Seq<ValueView>, int), DecodeError>;

/// What reading a length field gives: the count, or `None` for the length
/// `-1` of a null, and the position right after the field.
pub type DecodedLength = Result<(Option<nat>, int), DecodeError>;

/// Whether a line terminator starts at position `i` of `s`.
pub open spec fn crlf_at(s: Seq<u8>, i: int) -> bool {
    0 <= i && i + 1 < s.len() && s[i] == CR && s[i + 1] == LF
}

/// The first position at or after `from` where a line terminator starts;
/// the length of `s` where there is none.
pub open spec fn line_end(s: Seq<u8>, from: int) -> int
    decreases s.len() - from,
{
    if 0 <= from < s.len() && !crlf_at(s, from) {
        line_end(s, from + 1)
    } else {
        from
    }
}

/// The position after the line terminator that is due at `at`. Bytes that
/// cannot begin a terminator make the field malformed; an input that ends
/// before the terminator is complete is closed.
pub open spec fn expect_crlf(s: Seq<u8>, at: int) -> Result<int, DecodeError> {
    if at >= s.len() {
        Err(DecodeError::StreamClosed)
    } else if s[at] != CR {
        Err(DecodeError::MalformedLength)
    } else if at + 1 >= s.len() {
        Err(DecodeError::StreamClosed)
    } else if s[at + 1] != LF {
        Err(DecodeError::MalformedLength)
    } else {
        Ok(at + 2)
    }
}

/// The length field that starts at `from`: either `-1`, or a run of digits
/// whose value fits a machine word, followed by a line terminator.
pub open spec fn decode_length(s: Seq<u8>, from: int) -> DecodedLength {
    if from >= s.len() {
        Err(DecodeError::StreamClosed)
    } else if s[from] == MINUS {
        if from + 1 >= s.len() {
            Err(DecodeError::StreamClosed)
        } else if s[from + 1] != ONE {
            Err(DecodeError::MalformedLength)
        } else {
            match expect_crlf(s, from + 2) {
                Ok(next) => Ok((None, next)),
                Err(e) => Err(e),
            }
        }
    } else {
        let end = digits_end(s, from);
        let count = digits_value(s.subrange(from, end));
        if end <= from || count > usize::MAX {
            Err(DecodeError::MalformedLength)
        } else {
            match expect_crlf(s, end) {
                Ok(next) => Ok((Some(count), next)),
                Err(e) => Err(e),
            }
        }
    }
}

/// The line that starts at `from`, up to its terminator, and the position
/// after the terminator.
pub open spec fn decode_line(s: Seq<u8>, from: int) -> Result<(Seq<u8>, int), DecodeError> {
    let end = line_end(s, from);
    if crlf_at(s, end) {
        Ok((s.subrange(from, end), end + 2))
    } else {
        Err(DecodeError::StreamClosed)
    }
}

/// The bulk string of `count` bytes that starts at `from`, and the position
/// after its terminator.
pub open spec fn decode_bulk(s: Seq<u8>, from: int, count: nat) -> Decoded {
    if s.len() - from < count + 2 {
        Err(DecodeError::Truncated)
    } else if !crlf_at(s, from + count) {
        Err(DecodeError::MalformedLength)
    } else {
        Ok((ValueView::Bulk(s.subrange(from, from + count)), from + count + 2))
    }
}

/// The unit that starts at position `pos` of `s`.
pub open spec fn decode_at(s: Seq<u8>, pos: int) -> Decoded
    decreases s.len() - pos, 0nat,
{
    if pos < 0 || pos >= s.len() {
        Err(DecodeError::StreamClosed)
    } else if s[pos] == STRING || s[pos] == ERROR || s[pos] == INTEGER {
        match decode_line(s, pos + 1) {
            Ok((line, next)) => if s[pos] == STRING {
                Ok((ValueView::Str(lossy_text(line)), next))
            } else if s[pos] == ERROR {
                Ok((ValueView::Error(lossy_text(line)), next))
            } else {
                match signed_value(line) {
                    Some(n) => if i32::MIN <= n <= i32::MAX {
                        Ok((ValueView::Num(n as i32), next))
                    } else {
                        Err(DecodeError::MalformedInteger)
                    },
                    None => Err(DecodeError::MalformedInteger),
                }
            },
            Err(e) => Err(e),
        }
    } else if s[pos] == BULK {
        match decode_length(s, pos + 1) {
            Ok((Some(count), next)) => decode_bulk(s, next, count),
            Ok((None, next)) => Ok((ValueView::Null, next)),
            Err(e) => Err(e),
        }
    } else if s[pos] == ARRAY {
        match decode_length(s, pos + 1) {
            Ok((Some(count), next)) => match decode_items(s, next, count) {
                Ok((items, end)) => Ok((ValueView::Array(items), end)),
                Err(e) => Err(e),
            },
            Ok((None, next)) => Ok((ValueView::Null, next)),
            Err(e) => Err(e),
        }
    } else {
        Err(DecodeError::UnknownType)
    }
}

/// The `count` units that follow one another from position `pos` of `s`.
///
/// Every unit holds at least its tag, so each one starts after the one
/// before it; the test on `next` records that for the recursion.
pub open spec fn decode_items(s: Seq<u8>, pos: int, count: nat) -> DecodedItems
    decreases s.len() - pos, count + 1,
{
    if count == 0 {
        Ok((Seq::empty(), pos))
    } else {
        match decode_at(s, pos) {
            Ok((first, next)) => if pos < next <= s.len() {
                match decode_items(s, next, (count - 1) as nat) {
                    Ok((rest, end)) => Ok((seq![first] + rest, end)),
                    Err(e) => Err(e),
                }
            } else {
                Err(DecodeError::StreamClosed)
            },
            Err(e) => Err(e),
        }
    }
}

/// The unit at the start of `s`, and the number of bytes it takes.
pub open spec fn decode(s: Seq<u8>) -> Decoded {
    decode_at(s, 0)
}

/// A unit that decodes ends after the place where it starts, within `s`.
pub proof fn lemma_decode_advances(s: Seq<u8>, pos: int)
    ensures
        decode_at(s, pos) matches Ok((_, next)) ==> pos < next <= s.len(),
    decreases s.len() - pos, 0nat,
{
    if 0 <= pos < s.len() {
        if s[pos] == STRING || s[pos] == ERROR || s[pos] == INTEGER {
            lemma_line_end_found(s, pos + 1);
        } else if s[pos] == BULK || s[pos] == ARRAY {
            lemma_digits_end_found(s, pos + 1);
            if s[pos] == ARRAY {
                if let Ok((Some(count), next)) = decode_length(s, pos + 1) {
                    lemma_decode_items_advance(s, next, count);
                }
            }
        }
    }
}

/// A run of units that decodes ends at or after the place where it starts,
/// within `s`.
pub proof fn lemma_decode_items_advance(s: Seq<u8>, pos: int, count: nat)
    requires
        0 <= pos <= s.len(),
    ensures
        decode_items(s, pos, count) matches Ok((items, end)) ==> pos <= end <= s.len()
            && items.len() == count,
    decreases s.len() - pos, count + 1,
{
    if count > 0 {
        lemma_decode_advances(s, pos);
        if let Ok((_, next)) = decode_at(s, pos) {
            lemma_decode_items_advance(s, next, (count - 1) as nat);
        }
    }
}

/// What `line_end` finds: no terminator starts between `from` and the
/// result, and the result is a terminator or the end of `s`.
pub proof fn lemma_line_end_found(s: Seq<u8>, from: int)
    requires
        0 <= from <= s.len(),
    ensures
        from <= line_end(s, from) <= s.len(),
        forall|i: int| from <= i < line_end(s, from) ==> !crlf_at(s, i),
        line_end(s, from) < s.len() ==> crlf_at(s, line_end(s, from)),
    decreases s.len() - from,
{
    if from < s.len() && !crlf_at(s, from) {
        lemma_line_end_found(s, from + 1);
    }
}

/// The line from `from` ends at `end` when a terminator starts there and
/// none starts before.
pub proof fn lemma_line_end(s: Seq<u8>, from: int, end: int)
    requires
        0 <= from <= end,
        forall|i: int| from <= i < end ==> !crlf_at(s, i),
        crlf_at(s, end),
    ensures
        line_end(s, from) == end,
    decreases end - from,
{
    if from < end {
        lemma_line_end(s, from + 1, end);
    }
}

/// The exec form of a decoding result.
pub open spec fn decoded_view(r: Result<(Value, usize), DecodeError>) -> Decoded {
    match r {
        Ok((value, next)) => Ok((value@, next as int)),
        Err(e) => Err(e),
    }
}

/// Finds where the line that starts at `from` ends.
fn find_line_end(input: &[u8], from: usize) -> (end: usize)
    requires
        from <= input@.len(),
    ensures
        end == line_end(input@, from as int),
        from <= end <= input@.len(),
{
    let mut i: usize = from;
    while i < input.len() && !(input[i] == CR && i + 1 < input.len() && input[i + 1] == LF)
        invariant
            from <= i <= input@.len(),
            line_end(input@, i as int) == line_end(input@, from as int),
        decreases input@.len() - i,
    {
        i += 1;
    }
    i
}

/// Consumes the line terminator that is due at `at`.
fn consume_newline(input: &[u8], at: usize) -> (r: Result<usize, DecodeError>)
    requires
        at <= input@.len(),
    ensures
        match r {
            Ok(next) => expect_crlf(input@, at as int) == Ok::<int, DecodeError>(next as int),
            Err(e) => expect_crlf(input@, at as int) == Err::<int, DecodeError>(e),
        },
{
    if at >= input.len() {
        Err(DecodeError::StreamClosed)
    } else if input[at] != CR {
        Err(DecodeError::MalformedLength)
    } else if at + 1 >= input.len() {
        Err(DecodeError::StreamClosed)
    } else if input[at + 1] != LF {
        Err(DecodeError::MalformedLength)
    } else {
        Ok(at + 2)
    }
}

/// Reads the length field that starts at `from`.
fn read_int(input: &[u8], from: usize) -> (r: Result<(Option<usize>, usize), DecodeError>)
    requires
        from <= input@.len(),
    ensures
        match r {
            Ok((Some(count), next)) => decode_length(input@, from as int) == Ok::<
                (Option<nat>, int),
                DecodeError,
            >((Some(count as nat), next as int)),
            Ok((None, next)) => decode_length(input@, from as int) == Ok::<
                (Option<nat>, int),
                DecodeError,
            >((None, next as int)),
            Err(e) => decode_length(input@, from as int) == Err::<(Option<nat>, int), DecodeError>(
                e,
            ),
        },
{
    if from >= input.len() {
        return Err(DecodeError::StreamClosed);
    }
    if input[from] == MINUS {
        if from + 1 >= input.len() {
            return Err(DecodeError::StreamClosed);
        }
        if input[from + 1] != ONE {
            return Err(DecodeError::MalformedLength);
        }
        return match consume_newline(input, from + 2) {
            Ok(next) => Ok((None, next)),
            Err(e) => Err(e),
        };
    }
    let (end, value) = read_digits(input, from);
    let count: usize = match value {
        Some(v) => if end > from && v <= usize::MAX as u64 {
            v as usize
        } else {
            return Err(DecodeError::MalformedLength);
        },
        None => {
            return Err(DecodeError::MalformedLength);
        },
    };
    match consume_newline(input, end) {
        Ok(next) => Ok((Some(count), next)),
        Err(e) => Err(e),
    }
}

/// Reads the bulk string of `count` bytes that starts at `from`.
fn read_bulk(input: &[u8], from: usize, count: usize) -> (r: Result<(Value, usize), DecodeError>)
    requires
        from <= input@.len(),
    ensures
        decoded_view(r) == decode_bulk(input@, from as int, count as nat),
{
    let left = input.len() - from;
    if left < 2 || count > left - 2 {
        return Err(DecodeError::Truncated);
    }
    let end = from + count;
    if input[end] != CR || input[end + 1] != LF {
        return Err(DecodeError::MalformedLength);
    }
    let bytes = slice_to_vec(slice_subrange(input, from, end));
    Ok((Value::Bulk(bytes), end + 2))
}

/// Decodes the `count` units that follow one another from `pos`.
fn parse_items(input: &[u8], pos: usize, count: usize) -> (r: Result<
    (Vec<Value>, usize),
    DecodeError,
>)
    requires
        pos <= input@.len(),
    ensures
        match r {
            Ok((items, end)) => decode_items(input@, pos as int, count as nat) == Ok::<
                (Seq<ValueView>, int),
                DecodeError,
            >((views(items@), end as int)),
            Err(e) => decode_items(input@, pos as int, count as nat) == Err::<
                (Seq<ValueView>, int),
                DecodeError,
            >(e),
        },
    decreases input@.len() - pos, 1nat,
{
    let mut items: Vec<Value> = Vec::new();
    let mut at: usize = pos;
    while items.len() < count
        invariant
            pos <= at <= input@.len(),
            items@.len() <= count,
            decode_items(input@, pos as int, count as nat) == prepend(
                views(items@),
                decode_items(input@, at as int, (count - items@.len()) as nat),
            ),
        decreases count - items@.len(),
    {
        proof {
            lemma_decode_advances(input@, at as int);
        }
        let ghost before = views(items@);
        match parse_at(input, at) {
            Ok((item, next)) => {
                items.push(item);
                at = next;
                proof {
                    let rest = decode_items(input@, at as int, (count - items@.len()) as nat);
                    if let Ok((tail, end)) = rest {
                        assert(before + (seq![item@] + tail) =~= views(items@) + tail);
                    }
                }
            },
            Err(e) => {
                return Err(e);
            },
        }
    }
    proof {
        assert(views(items@) + Seq::<ValueView>::empty() =~= views(items@));
    }
    Ok((items, at))
}

/// Joins the values decoded so far to the result for the rest of a run.
pub open spec fn prepend(front: Seq<ValueView>, rest: DecodedItems) -> DecodedItems {
    match rest {
        Ok((tail, end)) => Ok((front + tail, end)),
        Err(e) => Err(e),
    }
}

/// Decodes the unit that starts at `pos`.
fn parse_at(input: &[u8], pos: usize) -> (r: Result<(Value, usize), DecodeError>)
    requires
        pos <= input@.len(),
    ensures
        decoded_view(r) == decode_at(input@, pos as int),
    decreases input@.len() - pos, 0nat,
{
    if pos >= input.len() {
        return Err(DecodeError::StreamClosed);
    }
    let tag = input[pos];
    if tag == STRING || tag == ERROR || tag == INTEGER {
        let end = find_line_end(input, pos + 1);
        proof {
            lemma_line_end_found(input@, pos + 1);
        }
        if end >= input.len() {
            return Err(DecodeError::StreamClosed);
        }
        if tag == STRING {
            Ok((Value::Str(text_of_bytes(input, pos + 1, end)), end + 2))
        } else if tag == ERROR {
            Ok((Value::Error(text_of_bytes(input, pos + 1, end)), end + 2))
        } else {
            match read_signed(slice_subrange(input, pos + 1, end)) {
                Some(n) => Ok((Value::Num(n), end + 2)),
                None => Err(DecodeError::MalformedInteger),
            }
        }
    } else if tag == BULK {
        match read_int(input, pos + 1) {
            Ok((Some(count), next)) => read_bulk(input, next, count),
            Ok((None, next)) => Ok((Value::Null, next)),
            Err(e) => Err(e),
        }
    } else if tag == ARRAY {
        match read_int(input, pos + 1) {
            Ok((Some(count), next)) => {
                proof {
                    lemma_digits_end_found(input@, pos + 1);
                }
                match parse_items(input, next, count) {
                    Ok((items, end)) => Ok((Value::Array(items), end)),
                    Err(e) => Err(e),
                }
            },
            Ok((None, next)) => Ok((Value::Null, next)),
            Err(e) => Err(e),
        }
    } else {
        Err(DecodeError::UnknownType)
    }
}

/// Decodes the one unit at the start of `input`: its value, and the number
/// of bytes it takes, so that the caller can go on right after it.
///
/// `StreamClosed` and `Truncated` mean that the input ends too early; every
/// other error is of the bytes themselves.
pub fn parse(input: &[u8]) -> (r: Result<(Value, usize), DecodeError>)
    ensures
        decoded_view(r) == decode(input@),
{
    parse_at(input, 0)
}

} // verus!
