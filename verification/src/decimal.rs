//! Decimal text of lengths, as it stands in a shard file's header line.
//!
//! A length is written as its plain decimal digits. On reading, a field is a
//! non-empty run of ASCII digits, optionally preceded by one `+`, whose value
//! fits in `usize`.

use vstd::prelude::*;

verus! {

/// ASCII `0`.
pub const ZERO: u8 = 48;

/// ASCII `9`.
pub const NINE: u8 = 57;

/// ASCII `+`.
pub const PLUS: u8 = 43;

/// Whether `b` is an ASCII decimal digit.
pub open spec fn is_digit(b: u8) -> bool {
    ZERO <= b <= NINE
}

/// The ASCII digit for `d`, where `d < 10`.
pub open spec fn digit_byte(d: nat) -> u8
    recommends
        d < 10,
{
    (ZERO + d) as u8
}

/// What the byte `b` counts for as a digit; a byte that is no digit counts for 0.
pub open spec fn digit_value(b: u8) -> nat {
    if is_digit(b) {
        (b - ZERO) as nat
    } else {
        0
    }
}

/// The decimal text of `n`: most significant digit first, no leading zero
/// (the text of 0 is `0`).
pub open spec fn decimal_text(n: nat) -> Seq<u8>
    decreases n,
{
    if n < 10 {
        seq![digit_byte(n)]
    } else {
        decimal_text(n / 10).push(digit_byte(n % 10))
    }
}

/// Whether every byte of `s` is an ASCII digit.
pub open spec fn all_digits(s: Seq<u8>) -> bool {
    forall|i: int| 0 <= i < s.len() ==> is_digit(#[trigger] s[i])
}

/// The number that a run of digits denotes, most significant digit first.
pub open spec fn digits_value(s: Seq<u8>) -> nat
    decreases s.len(),
{
    if s.len() == 0 {
        0
    } else {
        digits_value(s.drop_last()) * 10 + digit_value(s.last())
    }
}

/// `s` without its leading `+`, if it has one.
pub open spec fn unsigned_part(s: Seq<u8>) -> Seq<u8> {
    if s.len() > 0 && s[0] == PLUS {
        s.skip(1)
    } else {
        s
    }
}

/// The length that the field `s` stands for, if it is well-formed.
pub open spec fn field_value(s: Seq<u8>) -> Option<nat> {
    let digits = unsigned_part(s);
    if digits.len() > 0 && all_digits(digits) && digits_value(digits) <= usize::MAX {
        Some(digits_value(digits))
    } else {
        None
    }
}

/// A decimal text is a non-empty run of digits.
pub proof fn lemma_decimal_text_digits(n: nat)
    ensures
        decimal_text(n).len() > 0,
        all_digits(decimal_text(n)),
    decreases n,
{
    if n >= 10 {
        lemma_decimal_text_digits(n / 10);
    }
}

/// Reading a decimal text gives the number back.
pub proof fn lemma_decimal_text_value(n: nat)
    ensures
        digits_value(decimal_text(n)) == n,
    decreases n,
{
    if n < 10 {
        let s = decimal_text(n);
        assert(s.drop_last() =~= Seq::<u8>::empty());
        assert(digits_value(s.drop_last()) == 0);
    } else {
        lemma_decimal_text_value(n / 10);
        let s = decimal_text(n);
        assert(s.drop_last() =~= decimal_text(n / 10));
    }
}

/// The text written for a length is a well-formed field that stands for that length.
pub proof fn lemma_field_round_trip(n: nat)
    requires
        n <= usize::MAX,
    ensures
        field_value(decimal_text(n)) == Some(n),
{
    lemma_decimal_text_digits(n);
    lemma_decimal_text_value(n);
    let s = decimal_text(n);
    assert(is_digit(s[0]));
}

/// A run of digits denotes at least what any of its prefixes denotes.
pub proof fn lemma_digits_value_prefix(s: Seq<u8>, i: int)
    requires
        0 <= i <= s.len(),
    ensures
        digits_value(s.take(i)) <= digits_value(s),
    decreases s.len() - i,
{
    if i == s.len() {
        assert(s.take(i) =~= s);
    } else {
        lemma_digits_value_prefix(s, i + 1);
        assert(s.take(i + 1).drop_last() =~= s.take(i));
    }
}

/// Appends the decimal text of `n` to `out`.
pub fn push_decimal(out: &mut Vec<u8>, n: usize)
    ensures
        final(out)@ == old(out)@ + decimal_text(n as nat),
    decreases n,
{
    if n >= 10 {
        push_decimal(out, n / 10);
    }
    out.push(ZERO + (n % 10) as u8);
}

/// Reads the field `bytes[start..end]`.
pub fn parse_field(bytes: &[u8], start: usize, end: usize) -> (value: Option<usize>)
    requires
        start <= end <= bytes.len(),
    ensures
        match value {
            Some(n) => field_value(bytes@.subrange(start as int, end as int)) == Some(n as nat),
            None => field_value(bytes@.subrange(start as int, end as int)) is None,
        },
{
    let ghost field = bytes@.subrange(start as int, end as int);
    let mut i: usize = start;
    if i < end && bytes[i] == PLUS {
        i += 1;
    }
    let first: usize = i;
    let ghost digits = bytes@.subrange(first as int, end as int);
    assert(digits =~= unsigned_part(field));
    if i == end {
        return None;
    }
    let mut acc: usize = 0;
    while i < end
        invariant
            start <= first <= i <= end <= bytes.len(),
            first < end,
            field == bytes@.subrange(start as int, end as int),
            digits == bytes@.subrange(first as int, end as int),
            digits == unsigned_part(field),
            all_digits(digits.take(i - first)),
            acc == digits_value(digits.take(i - first)),
        decreases end - i,
    {
        let b: u8 = bytes[i];
        assert(digits[i - first] == b);
        if b < ZERO || b > NINE {
            assert(!is_digit(digits[i - first]));
            return None;
        }
        let d: usize = (b - ZERO) as usize;
        proof {
            assert(digits.take(i + 1 - first).drop_last() =~= digits.take(i - first));
            assert(digits.take(i + 1 - first).last() == b);
            lemma_digits_value_prefix(digits, i + 1 - first);
        }
        if acc > (usize::MAX - d) / 10 {
            assert(digits_value(digits) > usize::MAX);
            return None;
        }
        acc = acc * 10 + d;
        i += 1;
    }
    assert(digits.take(i - first) =~= digits);
    Some(acc)
}

} // verus!
