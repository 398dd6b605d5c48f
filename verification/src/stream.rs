//! Decoding a stream: what a result says of the bytes that follow.

use vstd::prelude::*;
use crate::decimal::{
    digits_end, digits_value, is_digit, lemma_digits_end, lemma_digits_end_found,
    lemma_digits_value_grows, MINUS,
};
use crate::parser::{
    crlf_at, decode, decode_at, decode_items, decode_length, lemma_decode_advances,
    lemma_decode_items_advance, lemma_line_end, lemma_line_end_found, line_end, DecodeError,
    ARRAY, BULK, CR, ERROR, INTEGER, ONE, STRING,
};
use crate::value::ValueView;

verus! {

/// Whether a decoding result stands whatever bytes come after the input:
/// a value, or an error that is of the bytes themselves.
pub open spec fn settled<T>(r: Result<T, DecodeError>) -> bool {
    match r {
        Ok(_) => true,
        Err(e) => !e.is_incomplete(),
    }
}

/// A line that ends within `s` ends at the same place when bytes follow.
proof fn lemma_line_end_settled(s: Seq<u8>, more: Seq<u8>, from: int)
    requires
        0 <= from <= s.len(),
        line_end(s, from) < s.len(),
    ensures
        line_end(s + more, from) == line_end(s, from),
{
    let t = s + more;
    let end = line_end(s, from);
    lemma_line_end_found(s, from);
    assert forall|i: int| from <= i < end implies !crlf_at(t, i) by {
        assert(!crlf_at(s, i));
        assert(t[i] == s[i] && t[i + 1] == s[i + 1]);
    }
    assert(t[end] == s[end] && t[end + 1] == s[end + 1]);
    lemma_line_end(t, from, end);
}

/// A run of digits in `s` goes on at least as far when bytes follow, and
/// ends at the same place where it ends within `s`.
proof fn lemma_digits_end_settled(s: Seq<u8>, more: Seq<u8>, from: int)
    requires
        0 <= from <= s.len(),
    ensures
        digits_end(s, from) <= digits_end(s + more, from) <= (s + more).len(),
        digits_end(s, from) < s.len() ==> digits_end(s + more, from) == digits_end(s, from),
        digits_value(s.subrange(from, digits_end(s, from))) <= digits_value(
            (s + more).subrange(from, digits_end(s + more, from)),
        ),
{
    let t = s + more;
    let end = digits_end(s, from);
    let far = digits_end(t, from);
    lemma_digits_end_found(s, from);
    lemma_digits_end_found(t, from);
    if far < end {
        assert(t[far] == s[far]);
        assert(is_digit(s[far]));
    }
    if end < s.len() {
        assert(t[end] == s[end]);
        assert forall|i: int| from <= i < end implies is_digit(#[trigger] t[i]) by {
            assert(t[i] == s[i]);
        }
        lemma_digits_end(t, from, end);
    }
    let run = t.subrange(from, far);
    assert forall|i: int| 0 <= i < run.len() implies is_digit(#[trigger] run[i]) by {
        assert(run[i] == t[from + i]);
    }
    lemma_digits_value_grows(run, end - from);
    assert(run.take(end - from) =~= s.subrange(from, end));
}

/// A length field that is settled reads the same when bytes follow.
proof fn lemma_length_settled(s: Seq<u8>, more: Seq<u8>, from: int)
    requires
        0 <= from <= s.len(),
        settled(decode_length(s, from)),
    ensures
        decode_length(s + more, from) == decode_length(s, from),
{
    let t = s + more;
    assert(t[from] == s[from]);
    if s[from] == MINUS {
        assert(t[from + 1] == s[from + 1]);
        if s[from + 1] == ONE {
            assert(t[from + 2] == s[from + 2]);
            if s[from + 2] == CR {
                assert(t[from + 3] == s[from + 3]);
            }
        }
    } else {
        let end = digits_end(s, from);
        lemma_digits_end_found(s, from);
        lemma_digits_end_settled(s, more, from);
        if end > from && digits_value(s.subrange(from, end)) <= usize::MAX {
            assert(t[end] == s[end]);
            assert(t.subrange(from, end) =~= s.subrange(from, end));
            if s[end] == CR {
                assert(t[end + 1] == s[end + 1]);
            }
        }
    }
}

/// Decoding is settled by its input: a value that was decoded, or an error
/// that is of the bytes themselves, stays the same whatever bytes follow.
/// Input that only ends too early says nothing of what follows.
pub proof fn lemma_decode_settled(s: Seq<u8>, more: Seq<u8>, pos: int)
    requires
        settled(decode_at(s, pos)),
    ensures
        decode_at(s + more, pos) == decode_at(s, pos),
    decreases s.len() - pos, 0nat,
{
    let t = s + more;
    assert(t[pos] == s[pos]);
    if s[pos] == STRING || s[pos] == ERROR || s[pos] == INTEGER {
        lemma_line_end_found(s, pos + 1);
        lemma_line_end_settled(s, more, pos + 1);
        let end = line_end(s, pos + 1);
        assert(t.subrange(pos + 1, end) =~= s.subrange(pos + 1, end));
    } else if s[pos] == BULK {
        lemma_length_settled(s, more, pos + 1);
        if let Ok((Some(count), next)) = decode_length(s, pos + 1) {
            lemma_digits_end_found(s, pos + 1);
            assert(t[next + count] == s[next + count]);
            assert(t[next + count + 1] == s[next + count + 1]);
            assert(t.subrange(next, next + count) =~= s.subrange(next, next + count));
        }
    } else if s[pos] == ARRAY {
        lemma_length_settled(s, more, pos + 1);
        if let Ok((Some(count), next)) = decode_length(s, pos + 1) {
            lemma_digits_end_found(s, pos + 1);
            lemma_decode_items_settled(s, more, next, count);
        }
    }
}

/// A run of units that is settled decodes the same whatever bytes follow.
pub proof fn lemma_decode_items_settled(s: Seq<u8>, more: Seq<u8>, pos: int, count: nat)
    requires
        0 <= pos <= s.len(),
        settled(decode_items(s, pos, count)),
    ensures
        decode_items(s + more, pos, count) == decode_items(s, pos, count),
    decreases s.len() - pos, count + 1,
{
    if count > 0 {
        lemma_decode_advances(s, pos);
        lemma_decode_settled(s, more, pos);
        if let Ok((_, next)) = decode_at(s, pos) {
            lemma_decode_items_settled(s, more, next, (count - 1) as nat);
        }
    }
}

/// A length field reads the same in any cut of `s` that holds it whole.
proof fn lemma_length_local(s: Seq<u8>, from: int, cut: int)
    requires
        0 <= from,
        decode_length(s, from) matches Ok((_, next)) && next <= cut <= s.len(),
    ensures
        decode_length(s.take(cut), from) == decode_length(s, from),
{
    let t = s.take(cut);
    if s[from] != MINUS {
        let end = digits_end(s, from);
        lemma_digits_end_found(s, from);
        assert forall|i: int| from <= i < end implies is_digit(#[trigger] t[i]) by {
            assert(t[i] == s[i]);
        }
        assert(t[end] == s[end]);
        lemma_digits_end(t, from, end);
        assert(t.subrange(from, end) =~= s.subrange(from, end));
    }
}

/// Decoding reads no byte beyond the unit that it decodes: the bytes up to
/// the end of the unit, alone, decode to the same value.
pub proof fn lemma_decode_local(s: Seq<u8>, pos: int)
    ensures
        decode_at(s, pos) matches Ok((_, next)) ==> decode_at(s.take(next), pos) == decode_at(
            s,
            pos,
        ),
    decreases s.len() - pos, 0nat,
{
    if let Ok((_, next)) = decode_at(s, pos) {
        lemma_decode_advances(s, pos);
        let t = s.take(next);
        if s[pos] == STRING || s[pos] == ERROR || s[pos] == INTEGER {
            let end = line_end(s, pos + 1);
            lemma_line_end_found(s, pos + 1);
            assert forall|i: int| pos + 1 <= i < end implies !crlf_at(t, i) by {
                assert(!crlf_at(s, i));
            }
            lemma_line_end(t, pos + 1, end);
            assert(t.subrange(pos + 1, end) =~= s.subrange(pos + 1, end));
        } else if s[pos] == BULK {
            lemma_length_local(s, pos + 1, next);
            if let Ok((Some(count), start)) = decode_length(s, pos + 1) {
                assert(t.subrange(start, start + count) =~= s.subrange(start, start + count));
            }
        } else if s[pos] == ARRAY {
            if let Ok((Some(count), start)) = decode_length(s, pos + 1) {
                lemma_digits_end_found(s, pos + 1);
                lemma_decode_items_advance(s, start, count);
                lemma_length_local(s, pos + 1, next);
                lemma_decode_items_local(s, start, count);
            } else {
                lemma_length_local(s, pos + 1, next);
            }
        }
    }
}

/// Decoding a run of units reads no byte beyond the last of them.
pub proof fn lemma_decode_items_local(s: Seq<u8>, pos: int, count: nat)
    requires
        0 <= pos <= s.len(),
    ensures
        decode_items(s, pos, count) matches Ok((_, end)) ==> decode_items(
            s.take(end),
            pos,
            count,
        ) == decode_items(s, pos, count),
    decreases s.len() - pos, count + 1,
{
    if let Ok((_, end)) = decode_items(s, pos, count) {
        if count > 0 {
            lemma_decode_advances(s, pos);
            if let Ok((_, next)) = decode_at(s, pos) {
                lemma_decode_items_advance(s, next, (count - 1) as nat);
                lemma_decode_local(s, pos);
                assert(s.take(end) =~= s.take(next) + s.subrange(next, end));
                lemma_decode_settled(s.take(next), s.subrange(next, end), pos);
                lemma_decode_items_local(s, next, (count - 1) as nat);
            }
        }
    }
}

/// A unit is decoded from its own bytes and no others: two inputs that
/// agree up to the end of the unit at the start of one of them decode to the
/// same value and the same length.
pub proof fn lemma_decode_same_unit(s: Seq<u8>, t: Seq<u8>)
    requires
        decode(s) matches Ok((_, used)) && used <= t.len() && t.take(used) == s.take(used),
    ensures
        decode(t) == decode(s),
{
    let used = decode(s)->Ok_0.1;
    lemma_decode_advances(s, 0);
    lemma_decode_local(s, 0);
    assert(t =~= s.take(used) + t.skip(used));
    lemma_decode_settled(s.take(used), t.skip(used), 0);
}

impl ValueView {
    /// How deep arrays nest in the value: nothing for a value that is no
    /// array, and for an array one level more than its deepest item.
    pub open spec fn depth(self) -> nat
        decreases self,
    {
        match self {
            ValueView::Array(items) => 1 + deepest(items),
            _ => 0,
        }
    }
}

/// The depth of the deepest of `items`.
pub open spec fn deepest(items: Seq<ValueView>) -> nat
    decreases items,
{
    if items.len() == 0 {
        0
    } else if items[0].depth() >= deepest(items.skip(1)) {
        items[0].depth()
    } else {
        deepest(items.skip(1))
    }
}

/// Nesting is paid for in bytes: every level of arrays in a decoded value
/// took four bytes of input or more, so a bound on the bytes of a request
/// bounds the depth of its value.
pub proof fn lemma_depth_bounded(s: Seq<u8>, pos: int)
    ensures
        decode_at(s, pos) matches Ok((v, next)) ==> 4 * v.depth() <= next - pos,
    decreases s.len() - pos, 0nat,
{
    if let Ok((v, next)) = decode_at(s, pos) {
        lemma_decode_advances(s, pos);
        if s[pos] == ARRAY {
            if let Ok((Some(count), start)) = decode_length(s, pos + 1) {
                lemma_digits_end_found(s, pos + 1);
                lemma_deepest_bounded(s, start, count);
            }
        }
    }
}

/// The deepest of a run of decoded units took four bytes or more for each
/// of its levels.
pub proof fn lemma_deepest_bounded(s: Seq<u8>, pos: int, count: nat)
    requires
        0 <= pos <= s.len(),
    ensures
        decode_items(s, pos, count) matches Ok((items, end)) ==> 4 * deepest(items) <= end - pos,
    decreases s.len() - pos, count + 1,
{
    if let Ok((items, end)) = decode_items(s, pos, count) {
        if count > 0 {
            lemma_decode_advances(s, pos);
            lemma_depth_bounded(s, pos);
            if let Ok((first, next)) = decode_at(s, pos) {
                lemma_decode_items_advance(s, next, (count - 1) as nat);
                lemma_deepest_bounded(s, next, (count - 1) as nat);
                let rest = decode_items(s, next, (count - 1) as nat)->Ok_0.0;
                assert(items.skip(1) =~= rest);
            }
        }
    }
}

} // verus!
