//! The encoder and the decoder agree: what one writes, the other reads back.

use vstd::prelude::*;
use vstd::utf8::encode_utf8;
use crate::decimal::{
    decimal, is_digit, lemma_decimal, lemma_digits_end, lemma_signed_round_trip, signed_decimal,
};
use crate::parser::{
    crlf_at, decode, decode_at, decode_items, decode_length, decode_line, lemma_decode_advances,
    lemma_line_end, DecodeError, ARRAY, BULK, CR, ERROR, INTEGER, LF, STRING,
};
use crate::stream::{lemma_decode_settled, settled};
use crate::text::lemma_text_of_its_bytes;
use crate::value::{views, Value, ValueView};
use crate::writer::{crlf, encode, encode_all};

verus! {

/// Whether `bytes` hold no line terminator.
pub open spec fn one_line(bytes: Seq<u8>) -> bool {
    forall|i: int| !crlf_at(bytes, i)
}

/// Whether the bytes of `part` stand in `s` from position `pos` on.
pub open spec fn occurs_at(s: Seq<u8>, pos: int, part: Seq<u8>) -> bool {
    &&& 0 <= pos
    &&& pos + part.len() <= s.len()
    &&& forall|j: int| 0 <= j < part.len() ==> s[pos + j] == #[trigger] part[j]
}

impl ValueView {
    /// Whether every length in the value fits a machine word, as the
    /// lengths of a value in memory do.
    pub open spec fn fits(self) -> bool
        decreases self,
    {
        match self {
            ValueView::Bulk(b) => b.len() <= usize::MAX,
            ValueView::Array(items) => items.len() <= usize::MAX && forall|i: int|
                0 <= i < items.len() ==> (#[trigger] items[i]).fits(),
            _ => true,
        }
    }

    /// Whether the text of every simple string and error in the value is a
    /// single line.
    pub open spec fn single_lines(self) -> bool
        decreases self,
    {
        match self {
            ValueView::Str(s) => one_line(encode_utf8(s)),
            ValueView::Error(e) => one_line(encode_utf8(e)),
            ValueView::Array(items) => forall|i: int|
                0 <= i < items.len() ==> (#[trigger] items[i]).single_lines(),
            _ => true,
        }
    }

    /// Whether the wire form of the value can be read back.
    pub open spec fn wire_safe(self) -> bool {
        self.fits() && self.single_lines()
    }
}

/// The lengths of a value in memory fit a machine word.
pub proof fn lemma_value_fits(v: Value)
    ensures
        v@.fits(),
    decreases v,
{
    match v {
        Value::Bulk(b) => {
            assert(b@.len() == b.len());
            assert(v@ == ValueView::Bulk(b@));
        },
        Value::Array(a) => {
            assert(a@.len() == a.len());
            assert forall|i: int| 0 <= i < views(a@).len() implies (#[trigger] views(a@)[i]).fits() by {
                lemma_value_fits(a@[i]);
            }
            assert(v@ == ValueView::Array(views(a@)));
        },
        _ => {},
    }
}

/// Every wire form holds at least a tag and a line terminator.
pub proof fn lemma_encode_len(v: ValueView)
    ensures
        encode(v).len() >= 3,
{
}

/// A length field that holds the decimal notation of `count` reads as
/// `count`.
proof fn lemma_decode_length_of_decimal(s: Seq<u8>, from: int, count: nat)
    requires
        count <= usize::MAX,
        occurs_at(s, from, decimal(count) + crlf()),
    ensures
        decode_length(s, from) == Ok::<(Option<nat>, int), DecodeError>(
            (Some(count), from + decimal(count).len() + 2),
        ),
{
    let field = decimal(count) + crlf();
    let end = from + decimal(count).len();
    lemma_decimal(count);
    assert forall|i: int| from <= i < end implies is_digit(#[trigger] s[i]) by {
        assert(s[from + (i - from)] == field[i - from]);
        assert(field[i - from] == decimal(count)[i - from]);
    }
    assert(s[end] == CR) by {
        assert(s[from + decimal(count).len()] == field[decimal(count).len() as int]);
    }
    assert(s[end + 1] == LF) by {
        assert(s[from + (decimal(count).len() + 1)] == field[(decimal(count).len() + 1) as int]);
    }
    lemma_digits_end(s, from, end);
    assert(s.subrange(from, end) =~= decimal(count)) by {
        assert forall|i: int| 0 <= i < decimal(count).len() implies s.subrange(from, end)[i]
            == decimal(count)[i] by {
            assert(s[from + i] == field[i]);
        }
    }
    assert(is_digit(s[from]));
}

/// A line that holds `body`, which is one line, reads as `body`.
proof fn lemma_decode_line_of(s: Seq<u8>, from: int, body: Seq<u8>)
    requires
        one_line(body),
        occurs_at(s, from, body + crlf()),
    ensures
        decode_line(s, from) == Ok::<(Seq<u8>, int), DecodeError>((body, from + body.len() + 2)),
{
    let line = body + crlf();
    let end = from + body.len();
    assert(s[end] == CR) by {
        assert(s[from + body.len()] == line[body.len() as int]);
    }
    assert(s[end + 1] == LF) by {
        assert(s[from + (body.len() + 1)] == line[(body.len() + 1) as int]);
    }
    assert forall|i: int| from <= i < end implies !crlf_at(s, i) by {
        assert(s[from + (i - from)] == line[i - from]);
        if i + 1 < end {
            assert(s[from + (i + 1 - from)] == line[i + 1 - from]);
            assert(!crlf_at(body, i - from));
        }
    }
    lemma_line_end(s, from, end);
    assert(s.subrange(from, end) =~= body) by {
        assert forall|i: int| 0 <= i < body.len() implies s.subrange(from, end)[i] == body[i] by {
            assert(s[from + i] == line[i]);
        }
    }
}

/// The notation of a number is one line.
proof fn lemma_signed_decimal_one_line(n: int)
    ensures
        one_line(signed_decimal(n)),
{
    let text = signed_decimal(n);
    if n < 0 {
        lemma_decimal((-n) as nat);
        assert forall|i: int| !crlf_at(text, i) by {
            if 0 < i < text.len() {
                assert(is_digit(decimal((-n) as nat)[i - 1]));
            }
        }
    } else {
        lemma_decimal(n as nat);
        assert forall|i: int| !crlf_at(text, i) by {
            if 0 <= i < text.len() {
                assert(is_digit(decimal(n as nat)[i]));
            }
        }
    }
}

/// A part of `s` that starts where `whole = front + back` stands, shifted by
/// the length of `front`, holds `back`.
proof fn lemma_occurs_split(s: Seq<u8>, pos: int, front: Seq<u8>, back: Seq<u8>)
    requires
        occurs_at(s, pos, front + back),
    ensures
        occurs_at(s, pos, front),
        occurs_at(s, pos + front.len(), back),
{
    let whole = front + back;
    assert forall|j: int| 0 <= j < front.len() implies s[pos + j] == #[trigger] front[j] by {
        assert(s[pos + j] == whole[j]);
    }
    assert forall|j: int| 0 <= j < back.len() implies s[pos + front.len() + j]
        == #[trigger] back[j] by {
        assert(s[pos + (front.len() + j)] == whole[front.len() + j]);
    }
}

/// Decoding at a place where the wire form of a value stands gives that
/// value and stops right after the form, whatever surrounds it.
pub proof fn lemma_decode_encoded_at(s: Seq<u8>, pos: int, v: ValueView)
    requires
        v.wire_safe(),
        occurs_at(s, pos, encode(v)),
    ensures
        decode_at(s, pos) == Ok::<(ValueView, int), DecodeError>((v, pos + encode(v).len())),
    decreases v, 0nat,
{
    let form = encode(v);
    assert(s[pos + 0] == form[0]);
    match v {
        ValueView::Str(text) => {
            let body = encode_utf8(text);
            assert(form =~= seq![STRING] + (body + crlf()));
            lemma_occurs_split(s, pos, seq![STRING], body + crlf());
            lemma_decode_line_of(s, pos + 1, body);
            lemma_text_of_its_bytes(text);
        },
        ValueView::Error(text) => {
            let body = encode_utf8(text);
            assert(form =~= seq![ERROR] + (body + crlf()));
            lemma_occurs_split(s, pos, seq![ERROR], body + crlf());
            lemma_decode_line_of(s, pos + 1, body);
            lemma_text_of_its_bytes(text);
        },
        ValueView::Num(n) => {
            let body = signed_decimal(n as int);
            assert(form =~= seq![INTEGER] + (body + crlf()));
            lemma_occurs_split(s, pos, seq![INTEGER], body + crlf());
            lemma_signed_decimal_one_line(n as int);
            lemma_decode_line_of(s, pos + 1, body);
            lemma_signed_round_trip(n as int);
        },
        ValueView::Bulk(b) => {
            let head = decimal(b.len()) + crlf();
            assert(form =~= seq![BULK] + (head + (b + crlf())));
            lemma_occurs_split(s, pos, seq![BULK], head + (b + crlf()));
            lemma_occurs_split(s, pos + 1, head, b + crlf());
            lemma_decode_length_of_decimal(s, pos + 1, b.len());
            let next = pos + 1 + head.len();
            lemma_occurs_split(s, next, b, crlf());
            assert(crlf_at(s, next + b.len())) by {
                assert(s[next + b.len() + 0] == crlf()[0]);
                assert(s[next + b.len() + 1] == crlf()[1]);
            }
            assert(s.subrange(next, next + b.len()) =~= b);
        },
        ValueView::Array(items) => {
            let head = decimal(items.len()) + crlf();
            assert(form =~= seq![ARRAY] + (head + encode_all(items)));
            lemma_occurs_split(s, pos, seq![ARRAY], head + encode_all(items));
            lemma_occurs_split(s, pos + 1, head, encode_all(items));
            lemma_decode_length_of_decimal(s, pos + 1, items.len());
            assert forall|i: int| 0 <= i < items.len() implies (#[trigger] items[i]).wire_safe() by {
                assert(items[i].fits());
                assert(items[i].single_lines());
            }
            lemma_decode_encoded_items(s, pos + 1 + head.len(), items);
        },
        ValueView::Null => {
            assert(s[pos + 1] == form[1]);
            assert(s[pos + 2] == form[2]);
            assert(s[pos + 3] == form[3]);
            assert(s[pos + 4] == form[4]);
        },
    }
}

/// Decoding at a place where the wire forms of `items` stand one after
/// another gives the items and stops right after the last form.
pub proof fn lemma_decode_encoded_items(s: Seq<u8>, pos: int, items: Seq<ValueView>)
    requires
        forall|i: int| 0 <= i < items.len() ==> (#[trigger] items[i]).wire_safe(),
        occurs_at(s, pos, encode_all(items)),
    ensures
        decode_items(s, pos, items.len()) == Ok::<(Seq<ValueView>, int), DecodeError>(
            (items, pos + encode_all(items).len()),
        ),
    decreases items, 1nat,
{
    if items.len() == 0 {
        assert(items =~= Seq::<ValueView>::empty());
    } else {
        let first = items[0];
        let rest = items.skip(1);
        lemma_occurs_split(s, pos, encode(first), encode_all(rest));
        lemma_encode_len(first);
        lemma_decode_encoded_at(s, pos, first);
        assert forall|i: int| 0 <= i < rest.len() implies (#[trigger] rest[i]).wire_safe() by {
            assert(rest[i] == items[i + 1]);
        }
        lemma_decode_encoded_items(s, pos + encode(first).len(), rest);
        assert(seq![first] + rest =~= items);
    }
}

/// Round trip: decoding the wire form of a value gives the value back and
/// takes every byte of the form.
pub proof fn lemma_round_trip(v: ValueView)
    requires
        v.wire_safe(),
    ensures
        decode(encode(v)) == Ok::<(ValueView, int), DecodeError>((v, encode(v).len() as int)),
{
    lemma_decode_encoded_at(encode(v), 0, v);
}

/// Round trip of a value in memory: what `marshal_value` writes for it,
/// `parse` reads back as the same value, provided that each of its simple
/// strings and errors is a single line.
pub proof fn lemma_value_round_trip(v: Value)
    requires
        v@.single_lines(),
    ensures
        decode(encode(v@)) == Ok::<(ValueView, int), DecodeError>((v@, encode(v@).len() as int)),
{
    lemma_value_fits(v);
    lemma_round_trip(v@);
}

/// Binary safety: a bulk string reads back byte for byte, whatever bytes it
/// holds, line terminators included.
pub proof fn lemma_bulk_round_trip(bytes: Seq<u8>)
    requires
        bytes.len() <= usize::MAX,
    ensures
        decode(encode(ValueView::Bulk(bytes))) == Ok::<(ValueView, int), DecodeError>(
            (ValueView::Bulk(bytes), encode(ValueView::Bulk(bytes)).len() as int),
        ),
{
    lemma_round_trip(ValueView::Bulk(bytes));
}

/// A wire form that is cut short is incomplete: every proper prefix of
/// the wire form of a value decodes to an error that asks for more bytes,
/// never to a value and never to an error of the bytes themselves.
pub proof fn lemma_prefix_incomplete(v: ValueView, cut: int)
    requires
        v.wire_safe(),
        0 <= cut < encode(v).len(),
    ensures
        !settled(decode(encode(v).take(cut))),
{
    let form = encode(v);
    let prefix = form.take(cut);
    if settled(decode(prefix)) {
        lemma_decode_settled(prefix, form.skip(cut), 0);
        assert(prefix + form.skip(cut) =~= form);
        lemma_round_trip(v);
        lemma_decode_advances(prefix, 0);
    }
}

} // verus!
