//! Decimal notation: the digits of lengths and integers on the wire.

use vstd::prelude::*;

verus! {

/// The byte `0`.
pub const ZERO: u8 = 0x30;

/// The byte `+`.
pub const PLUS: u8 = 0x2b;

/// The byte `-`.
pub const MINUS: u8 = 0x2d;

/// Whether `b` is one of the bytes `0` to `9`.
pub open spec fn is_digit(b: u8) -> bool {
    0x30 <= b <= 0x39
}

/// The byte that writes the digit `d`.
pub open spec fn digit(d: int) -> u8
    recommends
        0 <= d <= 9,
{
    (0x30 + d) as u8
}

/// The decimal notation of `n`, without leading zeros.
pub open spec fn decimal(n: nat) -> Seq<u8>
    decreases n,
{
    if n < 10 {
        seq![digit(n as int)]
    } else {
        decimal(n / 10).push(digit((n % 10) as int))
    }
}

/// The decimal notation of `n`, with `-` in front of a negative number.
pub open spec fn signed_decimal(n: int) -> Seq<u8> {
    if n < 0 {
        seq![MINUS] + decimal((-n) as nat)
    } else {
        decimal(n as nat)
    }
}

/// Whether every byte of `s` is a digit.
pub open spec fn all_digits(s: Seq<u8>) -> bool {
    forall|i: int| 0 <= i < s.len() ==> is_digit(#[trigger] s[i])
}

/// The number that the digits `s` write; leading zeros count for nothing.
pub open spec fn digits_value(s: Seq<u8>) -> nat
    decreases s.len(),
{
    if s.len() == 0 {
        0
    } else {
        (digits_value(s.drop_last()) * 10 + (s.last() - 0x30)) as nat
    }
}

/// Where the run of digits that starts at `from` ends: the first position at
/// or after `from` that holds no digit.
pub open spec fn digits_end(s: Seq<u8>, from: int) -> int
    decreases s.len() - from,
{
    if 0 <= from < s.len() && is_digit(s[from]) {
        digits_end(s, from + 1)
    } else {
        from
    }
}

/// The number that `text` writes: an optional sign, then one digit or more.
pub open spec fn signed_value(text: Seq<u8>) -> Option<int> {
    let signed = text.len() > 0 && (text[0] == MINUS || text[0] == PLUS);
    let digits = if signed {
        text.skip(1)
    } else {
        text
    };
    if digits.len() > 0 && all_digits(digits) {
        if text[0] == MINUS {
            Some(-(digits_value(digits) as int))
        } else {
            Some(digits_value(digits) as int)
        }
    } else {
        None
    }
}

/// One more digit multiplies the value by ten and adds the digit.
pub proof fn lemma_digits_value_push(s: Seq<u8>, b: u8)
    requires
        is_digit(b),
    ensures
        digits_value(s.push(b)) == digits_value(s) * 10 + (b - 0x30),
{
    assert(s.push(b).drop_last() =~= s);
}

/// Digits appended to a run never lower its value.
pub proof fn lemma_digits_value_grows(s: Seq<u8>, k: int)
    requires
        0 <= k <= s.len(),
        all_digits(s),
    ensures
        digits_value(s.take(k)) <= digits_value(s),
    decreases s.len() - k,
{
    if k < s.len() {
        lemma_digits_value_grows(s, k + 1);
        assert(s.take(k + 1) =~= s.take(k).push(s[k]));
        lemma_digits_value_push(s.take(k), s[k]);
    } else {
        assert(s.take(k) =~= s);
    }
}

/// The run of digits from `from` ends at `end` when digits fill the span
/// between them and no digit stands at `end`.
pub proof fn lemma_digits_end(s: Seq<u8>, from: int, end: int)
    requires
        0 <= from <= end <= s.len(),
        forall|i: int| from <= i < end ==> is_digit(#[trigger] s[i]),
        end < s.len() ==> !is_digit(s[end]),
    ensures
        digits_end(s, from) == end,
    decreases end - from,
{
    if from < end {
        lemma_digits_end(s, from + 1, end);
    }
}

/// What `digits_end` finds: a span of digits that no digit follows.
pub proof fn lemma_digits_end_found(s: Seq<u8>, from: int)
    requires
        0 <= from <= s.len(),
    ensures
        from <= digits_end(s, from) <= s.len(),
        forall|i: int| from <= i < digits_end(s, from) ==> is_digit(#[trigger] s[i]),
        digits_end(s, from) < s.len() ==> !is_digit(s[digits_end(s, from)]),
    decreases s.len() - from,
{
    if from < s.len() && is_digit(s[from]) {
        lemma_digits_end_found(s, from + 1);
    }
}

/// The notation of a number is made of digits and writes that number.
pub proof fn lemma_decimal(n: nat)
    ensures
        decimal(n).len() >= 1,
        all_digits(decimal(n)),
        digits_value(decimal(n)) == n,
    decreases n,
{
    if n < 10 {
        assert(decimal(n).drop_last() =~= Seq::<u8>::empty());
        assert(digits_value(decimal(n).drop_last()) == 0);
    } else {
        lemma_decimal(n / 10);
        lemma_digits_value_push(decimal(n / 10), digit((n % 10) as int));
    }
}

/// Reading the notation of a number gives the number back.
pub proof fn lemma_signed_round_trip(n: int)
    ensures
        signed_value(signed_decimal(n)) == Some(n),
{
    if n < 0 {
        let digits = decimal((-n) as nat);
        lemma_decimal((-n) as nat);
        assert(signed_decimal(n).skip(1) =~= digits);
    } else {
        lemma_decimal(n as nat);
        assert(is_digit(decimal(n as nat)[0]));
    }
}

/// Appends the decimal notation of `n` to `out`.
pub fn write_decimal(out: &mut Vec<u8>, n: u64)
    ensures
        final(out)@ == old(out)@ + decimal(n as nat),
    decreases n,
{
    if n >= 10 {
        write_decimal(out, n / 10);
    }
    let d: u8 = (n % 10) as u8;
    out.push(ZERO + d);
    assert(out@ =~= old(out)@ + decimal(n as nat));
}

/// Appends the decimal notation of `n` to `out`, with its sign where it is
/// negative.
pub fn write_signed(out: &mut Vec<u8>, n: i32)
    ensures
        final(out)@ == old(out)@ + signed_decimal(n as int),
{
    if n < 0 {
        out.push(MINUS);
        let magnitude: u64 = (-(n as i64)) as u64;
        write_decimal(out, magnitude);
        assert(out@ =~= old(out)@ + signed_decimal(n as int));
    } else {
        write_decimal(out, n as u64);
    }
}

/// Reads the run of digits that starts at `from`: where it ends, and the
/// number it writes unless that number is beyond 64 bits.
pub fn read_digits(input: &[u8], from: usize) -> (run: (usize, Option<u64>))
    requires
        from <= input@.len(),
    ensures
        run.0 == digits_end(input@, from as int),
        from <= run.0 <= input@.len(),
        run.1 == (if digits_value(input@.subrange(from as int, run.0 as int)) <= u64::MAX {
            Some(digits_value(input@.subrange(from as int, run.0 as int)) as u64)
        } else {
            None
        }),
{
    let mut i: usize = from;
    let mut value: Option<u64> = Some(0);
    while i < input.len() && ZERO <= input[i] && input[i] <= 0x39
        invariant
            from <= i <= input@.len(),
            digits_end(input@, i as int) == digits_end(input@, from as int),
            forall|j: int| from <= j < i ==> is_digit(#[trigger] input@[j]),
            value == (if digits_value(input@.subrange(from as int, i as int)) <= u64::MAX {
                Some(digits_value(input@.subrange(from as int, i as int)) as u64)
            } else {
                None
            }),
        decreases input@.len() - i,
    {
        let d: u64 = (input[i] - ZERO) as u64;
        proof {
            let before = input@.subrange(from as int, i as int);
            let after = input@.subrange(from as int, i + 1);
            assert(after =~= before.push(input@[i as int]));
            lemma_digits_value_push(before, input@[i as int]);
        }
        value = match value {
            Some(v) => if v <= (u64::MAX - d) / 10 {
                Some(v * 10 + d)
            } else {
                None
            },
            None => None,
        };
        i += 1;
    }
    (i, value)
}

/// Reads `text` as a signed decimal of 32 bits.
pub fn read_signed(text: &[u8]) -> (number: Option<i32>)
    ensures
        number == (match signed_value(text@) {
            Some(n) => if i32::MIN <= n <= i32::MAX {
                Some(n as i32)
            } else {
                None
            },
            None => None,
        }),
{
    let len = text.len();
    let signed = len > 0 && (text[0] == MINUS || text[0] == PLUS);
    let negative = len > 0 && text[0] == MINUS;
    let start: usize = if signed {
        1
    } else {
        0
    };
    let (end, value) = read_digits(text, start);
    proof {
        lemma_digits_end_found(text@, start as int);
        assert(text@.skip(start as int) =~= text@.subrange(start as int, len as int));
        if end < len {
            assert(!is_digit(text@.skip(start as int)[end - start]));
        }
    }
    if start == len || end < len {
        return None;
    }
    proof {
        let digits = text@.skip(start as int);
        assert(digits =~= text@.subrange(start as int, end as int));
        assert forall|i: int| 0 <= i < digits.len() implies is_digit(#[trigger] digits[i]) by {
            assert(is_digit(text@[start + i]));
        }
        if !signed {
            assert(digits =~= text@);
        }
    }
    match value {
        Some(v) => if negative {
            if v <= 2147483648 {
                Some((-(v as i64)) as i32)
            } else {
                None
            }
        } else {
            if v <= 2147483647 {
                Some(v as i32)
            } else {
                None
            }
        },
        None => None,
    }
}

} // verus!
