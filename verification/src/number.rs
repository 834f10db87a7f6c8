//! The number fields of a request: unsigned decimal integers, and the
//! literals of real numbers.

use vstd::prelude::*;

verus! {

/// The byte `+`.
pub const PLUS: u8 = 0x2b;

/// The byte `-`.
pub const MINUS: u8 = 0x2d;

/// The byte `.`.
pub const DOT: u8 = 0x2e;

/// Whether `b` is one of the ASCII digits `0` to `9`.
pub open spec fn is_digit(b: u8) -> bool {
    0x30 <= b <= 0x39
}

/// Every byte of `text` is a digit.
pub open spec fn all_digits(text: Seq<u8>) -> bool {
    forall|i: int| 0 <= i < text.len() ==> is_digit(#[trigger] text[i])
}

/// The number that a run of digits writes in base ten.
pub open spec fn digits_value(digits: Seq<u8>) -> nat
    decreases digits.len(),
{
    if digits.len() == 0 {
        0
    } else {
        digits_value(digits.drop_last()) * 10 + (digits.last() - 0x30) as nat
    }
}

/// `field` without the plus sign that may precede its digits.
pub open spec fn unsigned_digits(field: Seq<u8>) -> Seq<u8> {
    if field.len() > 0 && field[0] == PLUS {
        field.skip(1)
    } else {
        field
    }
}

/// The value of `field` read as an unsigned integer of 32 bits: an optional
/// `+`, then one or more digits whose value fits. Anything else has no
/// value.
pub open spec fn decimal_u32(field: Seq<u8>) -> Option<u32> {
    let digits = unsigned_digits(field);
    if digits.len() > 0 && all_digits(digits) && digits_value(digits) <= u32::MAX {
        Some(digits_value(digits) as u32)
    } else {
        None
    }
}

/// The length of the longest run of digits that starts at `from`.
pub open spec fn digit_run(text: Seq<u8>, from: int) -> nat
    decreases text.len() - from,
{
    if 0 <= from < text.len() && is_digit(text[from]) {
        1 + digit_run(text, from + 1)
    } else {
        0
    }
}

/// One when a sign stands at `at`, zero otherwise.
pub open spec fn sign_len(text: Seq<u8>, at: int) -> int {
    if 0 <= at < text.len() && (text[at] == PLUS || text[at] == MINUS) {
        1
    } else {
        0
    }
}

/// The lower-case form of an ASCII letter; any other byte unchanged.
pub open spec fn lower(b: u8) -> u8 {
    if 0x41 <= b <= 0x5a {
        (b + 0x20) as u8
    } else {
        b
    }
}

/// From `from` to its end, `text` spells `word`, letter case aside.
pub open spec fn spells(text: Seq<u8>, from: int, word: Seq<u8>) -> bool {
    &&& text.len() - from == word.len()
    &&& forall|i: int| 0 <= i < word.len() ==> lower(#[trigger] text[from + i]) == word[i]
}

/// The letters `inf`.
pub open spec fn word_inf() -> Seq<u8> {
    seq![0x69u8, 0x6e, 0x66]
}

/// The letters `nan`.
pub open spec fn word_nan() -> Seq<u8> {
    seq![0x6eu8, 0x61, 0x6e]
}

/// The letters `infinity`.
pub open spec fn word_infinity() -> Seq<u8> {
    seq![0x69u8, 0x6e, 0x66, 0x69, 0x6e, 0x69, 0x74, 0x79]
}

/// From `from` on, `text` names infinity or not-a-number.
pub open spec fn special_name_at(text: Seq<u8>, from: int) -> bool {
    spells(text, from, word_inf()) || spells(text, from, word_nan()) || spells(
        text,
        from,
        word_infinity(),
    )
}

/// Where the mantissa that starts at `from` ends: digits, then optionally a
/// dot and more digits, with at least one digit in all. `None` when no
/// mantissa starts there.
pub open spec fn mantissa_end(text: Seq<u8>, from: int) -> Option<int> {
    let whole = digit_run(text, from);
    let dot = from + whole;
    if dot < text.len() && text[dot] == DOT {
        let fraction = digit_run(text, dot + 1);
        if whole + fraction == 0 {
            None
        } else {
            Some(dot + 1 + fraction)
        }
    } else if whole == 0 {
        None
    } else {
        Some(dot)
    }
}

/// From `at` to its end, `text` is an exponent: `e` or `E`, an optional
/// sign, and one or more digits.
pub open spec fn exponent_at(text: Seq<u8>, at: int) -> bool {
    &&& 0 <= at < text.len()
    &&& (text[at] == 0x65 || text[at] == 0x45)
    &&& {
        let digits = at + 1 + sign_len(text, at + 1);
        digit_run(text, digits) > 0 && digits + digit_run(text, digits) == text.len()
    }
}

/// From `from` to its end, `text` is a decimal number: a mantissa and
/// optionally an exponent.
pub open spec fn decimal_number_at(text: Seq<u8>, from: int) -> bool {
    match mantissa_end(text, from) {
        Some(end) => end == text.len() || exponent_at(text, end),
        None => false,
    }
}

/// Whether `field` is the literal of a real number: an optional sign, then
/// either a decimal number or one of the names `inf`, `infinity` and `nan`
/// in any letter case.
pub open spec fn float_literal(field: Seq<u8>) -> bool {
    let from = sign_len(field, 0);
    special_name_at(field, from) || decimal_number_at(field, from)
}

/// The value of a run of bytes is at least the value of each of its
/// prefixes.
proof fn lemma_digits_value_grows(digits: Seq<u8>, k: int)
    requires
        0 <= k <= digits.len(),
    ensures
        digits_value(digits.take(k)) <= digits_value(digits),
    decreases digits.len(),
{
    if k == digits.len() {
        assert(digits.take(k) == digits);
    } else {
        lemma_digits_value_grows(digits.drop_last(), k);
        assert(digits.drop_last().take(k) == digits.take(k));
    }
}

/// Reads `field` as an unsigned decimal integer of 32 bits.
pub fn parse_u32(field: &[u8]) -> (value: Option<u32>)
    ensures
        value == decimal_u32(field@),
{
    let len = field.len();
    let start: usize = if len > 0 && field[0] == PLUS {
        1
    } else {
        0
    };
    if start == len {
        return None;
    }
    let ghost digits = field@.skip(start as int);
    assert(digits == unsigned_digits(field@));
    let mut acc: u64 = 0;
    let mut i: usize = start;
    while i < len
        invariant
            start <= i <= len == field@.len(),
            digits == field@.skip(start as int),
            digits == unsigned_digits(field@),
            digits.len() > 0,
            all_digits(digits.take(i - start)),
            acc == digits_value(digits.take(i - start)),
            acc <= u32::MAX,
        decreases len - i,
    {
        let b = field[i];
        if !(0x30 <= b && b <= 0x39) {
            assert(!is_digit(digits[i - start]));
            return None;
        }
        let next: u64 = acc * 10 + (b - 0x30) as u64;
        proof {
            let seen = digits.take(i + 1 - start);
            assert(seen.drop_last() == digits.take(i - start));
            assert(seen.last() == b);
            assert(next == digits_value(seen));
            assert forall|k: int| 0 <= k < seen.len() implies is_digit(#[trigger] seen[k]) by {
                if k < seen.len() - 1 {
                    assert(seen[k] == digits.take(i - start)[k]);
                }
            }
        }
        if next > u32::MAX as u64 {
            proof {
                lemma_digits_value_grows(digits, i + 1 - start);
            }
            return None;
        }
        acc = next;
        i = i + 1;
    }
    assert(digits.take(len - start) == digits);
    Some(acc as u32)
}

/// Finds the end of the run of digits that starts at `from`.
fn skip_digits(text: &[u8], from: usize) -> (end: usize)
    requires
        from <= text@.len(),
    ensures
        end == from + digit_run(text@, from as int),
        end <= text@.len(),
{
    let mut i: usize = from;
    while i < text.len() && 0x30 <= text[i] && text[i] <= 0x39
        invariant
            from <= i <= text@.len(),
            digit_run(text@, from as int) == (i - from) + digit_run(text@, i as int),
        decreases text@.len() - i,
    {
        i = i + 1;
    }
    i
}

/// Turns an ASCII capital into its small letter.
fn lower_byte(b: u8) -> (l: u8)
    ensures
        l == lower(b),
{
    if 0x41 <= b && b <= 0x5a {
        b + 0x20
    } else {
        b
    }
}

/// Tells whether `text[from..]` names infinity or not-a-number.
fn is_special_name(text: &[u8], from: usize) -> (found: bool)
    requires
        from <= text@.len(),
    ensures
        found == special_name_at(text@, from as int),
{
    let rest = text.len() - from;
    if rest == 3 {
        let a = lower_byte(text[from]);
        let b = lower_byte(text[from + 1]);
        let c = lower_byte(text[from + 2]);
        let inf = a == 0x69 && b == 0x6e && c == 0x66;
        let nan = a == 0x6e && b == 0x61 && c == 0x6e;
        proof {
            assert(inf == spells(text@, from as int, word_inf())) by {
                if inf {
                    assert forall|i: int| 0 <= i < 3 implies lower(#[trigger] text@[from + i])
                        == word_inf()[i] by {}
                } else if spells(text@, from as int, word_inf()) {
                    assert(lower(text@[from + 0]) == word_inf()[0]);
                    assert(lower(text@[from + 1]) == word_inf()[1]);
                    assert(lower(text@[from + 2]) == word_inf()[2]);
                }
            }
            assert(nan == spells(text@, from as int, word_nan())) by {
                if nan {
                    assert forall|i: int| 0 <= i < 3 implies lower(#[trigger] text@[from + i])
                        == word_nan()[i] by {}
                } else if spells(text@, from as int, word_nan()) {
                    assert(lower(text@[from + 0]) == word_nan()[0]);
                    assert(lower(text@[from + 1]) == word_nan()[1]);
                    assert(lower(text@[from + 2]) == word_nan()[2]);
                }
            }
        }
        inf || nan
    } else if rest == 8 {
        let a = lower_byte(text[from]);
        let b = lower_byte(text[from + 1]);
        let c = lower_byte(text[from + 2]);
        let d = lower_byte(text[from + 3]);
        let e = lower_byte(text[from + 4]);
        let f = lower_byte(text[from + 5]);
        let g = lower_byte(text[from + 6]);
        let h = lower_byte(text[from + 7]);
        let infinity = a == 0x69 && b == 0x6e && c == 0x66 && d == 0x69 && e == 0x6e && f == 0x69
            && g == 0x74 && h == 0x79;
        proof {
            if infinity {
                assert forall|i: int| 0 <= i < 8 implies lower(#[trigger] text@[from + i])
                    == word_infinity()[i] by {}
            } else if spells(text@, from as int, word_infinity()) {
                assert(lower(text@[from + 0]) == word_infinity()[0]);
                assert(lower(text@[from + 1]) == word_infinity()[1]);
                assert(lower(text@[from + 2]) == word_infinity()[2]);
                assert(lower(text@[from + 3]) == word_infinity()[3]);
                assert(lower(text@[from + 4]) == word_infinity()[4]);
                assert(lower(text@[from + 5]) == word_infinity()[5]);
                assert(lower(text@[from + 6]) == word_infinity()[6]);
                assert(lower(text@[from + 7]) == word_infinity()[7]);
            }
        }
        infinity
    } else {
        false
    }
}

/// Tells whether `field` is the literal of a real number.
pub fn is_float_literal(field: &[u8]) -> (ok: bool)
    ensures
        ok == float_literal(field@),
{
    let len = field.len();
    let from: usize = if len > 0 && (field[0] == PLUS || field[0] == MINUS) {
        1
    } else {
        0
    };
    if is_special_name(field, from) {
        return true;
    }
    let dot = skip_digits(field, from);
    let end: usize;
    if dot < len && field[dot] == DOT {
        let stop = skip_digits(field, dot + 1);
        if stop == from + 1 {
            return false;
        }
        end = stop;
    } else {
        if dot == from {
            return false;
        }
        end = dot;
    }
    assert(mantissa_end(field@, from as int) == Some(end as int));
    if end == len {
        return true;
    }
    if !(field[end] == 0x65 || field[end] == 0x45) {
        return false;
    }
    let sign_at = end + 1;
    let digits: usize = if sign_at < len && (field[sign_at] == PLUS || field[sign_at] == MINUS) {
        sign_at + 1
    } else {
        sign_at
    };
    let stop = skip_digits(field, digits);
    stop > digits && stop == len
}

} // verus!
