//! The encoder: from a [`Value`] to its wire bytes.

use vstd::prelude::*;
use vstd::string::*;
use vstd::utf8::encode_utf8;
use crate::decimal::{decimal, signed_decimal, write_decimal, write_signed, MINUS};
use crate::parser::{ARRAY, BULK, CR, ERROR, INTEGER, LF, ONE, STRING};
use crate::value::{views, Value, ValueView};

verus! {

/// The line terminator.
pub open spec fn crlf() -> Seq<u8> {
    seq![CR, LF]
}

/// The wire form of the null value: a bulk string of length `-1`.
pub open spec fn null_bytes() -> Seq<u8> {
    seq![BULK, MINUS, ONE, CR, LF]
}

/// The wire form of a value.
///
/// A bulk string is headed by its length in bytes and an array by the number
/// of its items, both in decimal.
pub open spec fn encode(v: ValueView) -> Seq<u8>
    decreases v,
{
    match v {
        ValueView::Str(s) => seq![STRING] + encode_utf8(s) + crlf(),
        ValueView::Num(n) => seq![INTEGER] + signed_decimal(n as int) + crlf(),
        ValueView::Bulk(b) => seq![BULK] + decimal(b.len()) + crlf() + b + crlf(),
        ValueView::Array(items) => seq![ARRAY] + decimal(items.len()) + crlf() + encode_all(items),
        ValueView::Error(e) => seq![ERROR] + encode_utf8(e) + crlf(),
        ValueView::Null => null_bytes(),
    }
}

/// The wire forms of `items`, one after another.
pub open spec fn encode_all(items: Seq<ValueView>) -> Seq<u8>
    decreases items,
{
    if items.len() == 0 {
        Seq::empty()
    } else {
        encode(items[0]) + encode_all(items.skip(1))
    }
}

/// Appends a line terminator to `out`.
fn write_newline(out: &mut Vec<u8>)
    ensures
        final(out)@ == old(out)@ + crlf(),
{
    out.push(CR);
    out.push(LF);
    assert(out@ =~= old(out)@ + crlf());
}

/// Appends the wire forms of `items` to `out`, in order.
fn write_items(out: &mut Vec<u8>, items: &Vec<Value>)
    ensures
        final(out)@ == old(out)@ + encode_all(views(items@)),
    decreases items, 1nat,
{
    let mut i: usize = 0;
    assert(views(items@).skip(0) =~= views(items@));
    while i < items.len()
        invariant
            i <= items@.len(),
            out@ + encode_all(views(items@).skip(i as int)) == old(out)@ + encode_all(
                views(items@),
            ),
        decreases items@.len() - i,
    {
        let ghost rest = views(items@).skip(i as int);
        let ghost before = out@;
        write_value(out, &items[i]);
        proof {
            assert(rest[0] == items@[i as int]@);
            assert(rest.skip(1) =~= views(items@).skip(i + 1));
            assert(out@ + encode_all(rest.skip(1)) =~= before + encode_all(rest));
        }
        i += 1;
    }
    assert(out@ + encode_all(views(items@).skip(i as int)) =~= out@);
}

/// Appends the wire form of `value` to `out`.
fn write_value(out: &mut Vec<u8>, value: &Value)
    ensures
        final(out)@ == old(out)@ + encode(value@),
    decreases value, 0nat,
{
    match value {
        Value::Str(s) => {
            out.push(STRING);
            out.extend_from_slice(s.as_str().as_bytes());
            write_newline(out);
            assert(out@ =~= old(out)@ + encode(value@));
        },
        Value::Num(n) => {
            out.push(INTEGER);
            write_signed(out, *n);
            write_newline(out);
            assert(out@ =~= old(out)@ + encode(value@));
        },
        Value::Bulk(b) => {
            out.push(BULK);
            write_decimal(out, b.len() as u64);
            write_newline(out);
            out.extend_from_slice(b.as_slice());
            write_newline(out);
            assert(out@ =~= old(out)@ + encode(value@));
        },
        Value::Array(a) => {
            out.push(ARRAY);
            write_decimal(out, a.len() as u64);
            write_newline(out);
            write_items(out, a);
            assert(out@ =~= old(out)@ + encode(value@));
        },
        Value::Error(e) => {
            out.push(ERROR);
            out.extend_from_slice(e.as_str().as_bytes());
            write_newline(out);
            assert(out@ =~= old(out)@ + encode(value@));
        },
        Value::Null => {
            out.push(BULK);
            out.push(MINUS);
            out.push(ONE);
            write_newline(out);
            assert(out@ =~= old(out)@ + encode(value@));
        },
    }
}

/// The wire form of `value`.
pub fn marshal_value(value: &Value) -> (bytes: Vec<u8>)
    ensures
        bytes@ == encode(value@),
{
    let mut out: Vec<u8> = Vec::new();
    write_value(&mut out, value);
    assert(out@ =~= encode(value@));
    out
}

} // verus!
