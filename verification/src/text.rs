//! Comparison and reading of text.

use vstd::prelude::*;

verus! {

/// Whether two texts are the same.
pub fn same_text(a: &str, b: &str) -> (result: bool)
    ensures
        result == (a@ == b@),
{
    a.to_owned() == b.to_owned()
}

/// Whether two characters are the same but for the case of ASCII letters.
pub open spec fn same_letter(a: char, b: char) -> bool {
    ||| a == b
    ||| 65 <= a as u32 <= 90 && b as u32 == a as u32 + 32
    ||| 65 <= b as u32 <= 90 && a as u32 == b as u32 + 32
}

/// Whether two texts are the same but for the case of ASCII letters.
pub open spec fn same_letters(a: Seq<char>, b: Seq<char>) -> bool {
    a.len() == b.len() && forall|i: int| 0 <= i < a.len() ==> same_letter(#[trigger] a[i], b[i])
}

/// Whether two texts are the same but for the case of ASCII letters.
pub fn same_but_case(a: &str, b: &str) -> (result: bool)
    ensures
        result == same_letters(a@, b@),
{
    let n: usize = a.unicode_len();
    if n != b.unicode_len() {
        return false;
    }
    let mut i: usize = 0;
    while i < n
        invariant
            i <= n == a@.len() == b@.len(),
            forall|j: int| 0 <= j < i ==> same_letter(#[trigger] a@[j], b@[j]),
        decreases n - i,
    {
        let x: char = a.get_char(i);
        let y: char = b.get_char(i);
        let u: u32 = x as u32;
        let v: u32 = y as u32;
        if !(x == y || 65 <= u && u <= 90 && v == u + 32 || 65 <= v && v <= 90 && u == v + 32) {
            return false;
        }
        i += 1;
    }
    true
}

/// Whether a character is a decimal digit.
pub open spec fn is_digit(c: char) -> bool {
    48 <= c as u32 <= 57
}

/// The number that a row of decimal digits stands for.
pub open spec fn digits_value(digits: Seq<char>) -> int
    decreases digits.len(),
{
    if digits.len() == 0 {
        0
    } else {
        digits_value(digits.drop_last()) * 10 + (digits.last() as u32 - 48)
    }
}

/// Whether a text starts with a sign.
pub open spec fn has_sign(text: Seq<char>) -> bool {
    text.len() > 0 && (text[0] == '-' || text[0] == '+')
}

/// A text without its sign, if it starts with one.
pub open spec fn without_sign(text: Seq<char>) -> Seq<char> {
    if has_sign(text) {
        text.skip(1)
    } else {
        text
    }
}

/// Whether a text consists of decimal digits.
pub open spec fn all_digits(text: Seq<char>) -> bool {
    forall|i: int| 0 <= i < text.len() ==> is_digit(#[trigger] text[i])
}

/// The integer that a text stands for: decimal digits, at least one, with a sign before them
/// or not.
pub open spec fn integer_of(text: Seq<char>) -> Option<int> {
    let digits = without_sign(text);
    if digits.len() == 0 || !all_digits(digits) {
        None
    } else if text[0] == '-' {
        Some(-digits_value(digits))
    } else {
        Some(digits_value(digits))
    }
}

/// The integer that a text stands for, if it lies in a range.
pub open spec fn integer_within(text: Seq<char>, low: int, high: int) -> Option<int> {
    match integer_of(text) {
        Some(value) if low <= value <= high => Some(value),
        _ => None,
    }
}

/// The 32-bit integer that a text stands for.
pub open spec fn i32_of(text: Seq<char>) -> Option<i32> {
    match integer_within(text, i32::MIN as int, i32::MAX as int) {
        Some(value) => Some(value as i32),
        None => None,
    }
}

/// The 64-bit integer that a text stands for.
pub open spec fn i64_of(text: Seq<char>) -> Option<i64> {
    match integer_within(text, i64::MIN as int, i64::MAX as int) {
        Some(value) => Some(value as i64),
        None => None,
    }
}

proof fn lemma_digits_grow(digits: Seq<char>)
    requires
        forall|i: int| 0 <= i < digits.len() ==> is_digit(#[trigger] digits[i]),
    ensures
        digits_value(digits) >= 0,
        digits.len() > 0 ==> digits_value(digits) >= digits_value(digits.drop_last()),
    decreases digits.len(),
{
    if digits.len() > 0 {
        let rest = digits.drop_last();
        assert forall|i: int| 0 <= i < rest.len() implies is_digit(#[trigger] rest[i]) by {
            assert(rest[i] == digits[i]);
        }
        assert(is_digit(digits[digits.len() - 1]));
        lemma_digits_grow(rest);
    }
}

/// Reads the integer that a text stands for, if it lies in a range.
fn parse_within(text: &str, low: i128, high: i128) -> (result: Option<i128>)
    requires
        -0x8000_0000_0000_0000 <= low <= 0,
        0 <= high <= 0x8000_0000_0000_0000,
    ensures
        match result {
            Some(value) => integer_within(text@, low as int, high as int) == Some(value as int),
            None => integer_within(text@, low as int, high as int) is None,
        },
{
    let n: usize = text.unicode_len();
    let mut start: usize = 0;
    let mut negative: bool = false;
    if n > 0 {
        let first: char = text.get_char(0);
        if first == '-' {
            start = 1;
            negative = true;
        } else if first == '+' {
            start = 1;
        }
    }
    let ghost digits = without_sign(text@);
    assert(text@.skip(0) =~= text@);
    assert(digits == text@.skip(start as int));
    if start == n {
        return None;
    }
    let mut value: i128 = 0;
    let mut large: bool = false;
    let mut i: usize = start;
    assert(digits.take(0) =~= Seq::<char>::empty());
    while i < n
        invariant
            start <= i <= n == text@.len(),
            start <= 1,
            negative <==> text@[0] == '-',
            digits == text@.skip(start as int),
            digits == without_sign(text@),
            digits.len() > 0,
            forall|j: int| 0 <= j < i - start ==> is_digit(#[trigger] digits[j]),
            large ==> digits_value(digits.take(i - start)) > 0x8000_0000_0000_0000,
            !large ==> value == digits_value(digits.take(i - start)) && 0 <= value
                <= 0x8000_0000_0000_0000,
        decreases n - i,
    {
        let c: u32 = text.get_char(i) as u32;
        assert(digits[i - start] == text@[i as int]);
        if c < 48 || c > 57 {
            assert(!is_digit(digits[i - start]));
            assert(!all_digits(digits));
            return None;
        }
        proof {
            let now = digits.take(i + 1 - start);
            assert(now.drop_last() =~= digits.take(i - start));
            assert(now.last() == digits[i - start]);
            assert forall|j: int| 0 <= j < now.len() implies is_digit(#[trigger] now[j]) by {
                assert(now[j] == digits[j]);
            }
            lemma_digits_grow(now);
        }
        if !large {
            value = value * 10 + (c - 48) as i128;
            if value > 0x8000_0000_0000_0000 {
                large = true;
            }
        }
        i += 1;
    }
    assert(digits.take(i - start) =~= digits);
    if large {
        return None;
    }
    let signed: i128 = if negative {
        -value
    } else {
        value
    };
    if low <= signed && signed <= high {
        Some(signed)
    } else {
        None
    }
}

/// Reads the 32-bit integer that a text stands for.
pub fn parse_i32(text: &str) -> (result: Option<i32>)
    ensures
        result == i32_of(text@),
{
    match parse_within(text, i32::MIN as i128, i32::MAX as i128) {
        Some(value) => Some(value as i32),
        None => None,
    }
}

/// Reads the 64-bit integer that a text stands for.
pub fn parse_i64(text: &str) -> (result: Option<i64>)
    ensures
        result == i64_of(text@),
{
    match parse_within(text, i64::MIN as i128, i64::MAX as i128) {
        Some(value) => Some(value as i64),
        None => None,
    }
}

/// A digit more makes an integer ten times as large and adds the digit; a minus before the digits makes
/// it negative, and a plus does not change it. A text of no digits, or of other letters, is no
/// integer.
pub proof fn integers_are_read_digit_by_digit(text: Seq<char>, digit: char)
    requires
        48 <= digit as u32 <= 57,
        forall|i: int| 0 <= i < text.len() ==> 48 <= #[trigger] text[i] as u32 <= 57,
    ensures
        integer_of(Seq::<char>::empty()) is None,
        integer_of(seq![digit]) == Some((digit as u32 - 48) as int),
        text.len() > 0 ==> {
            &&& integer_of(text) matches Some(value) && value >= 0 && {
                &&& integer_of(text.push(digit)) == Some(value * 10 + (digit as u32 - 48))
                &&& integer_of(seq!['-'] + text) == Some(-value)
                &&& integer_of(seq!['+'] + text) == Some(value)
                &&& integer_of(text.push('.')) is None
            }
        },
{
    let one = seq![digit];
    assert(one.drop_last() =~= Seq::empty());
    assert(digits_value(one.drop_last()) == 0);
    if text.len() > 0 {
        assert(text[0] as u32 >= 48);
        assert(text.push(digit).drop_last() =~= text);
        assert((seq!['-'] + text).skip(1) =~= text);
        assert((seq!['+'] + text).skip(1) =~= text);
        let dotted = text.push('.');
        assert(!is_digit(dotted[text.len() as int]));
        lemma_digits_positive(text);
    }
}

proof fn lemma_digits_positive(text: Seq<char>)
    requires
        all_digits(text),
    ensures
        digits_value(text) >= 0,
    decreases text.len(),
{
    if text.len() > 0 {
        assert(is_digit(text[text.len() - 1]));
        assert forall|i: int| 0 <= i < text.drop_last().len() implies is_digit(
            #[trigger] text.drop_last()[i],
        ) by {
            assert(is_digit(text[i]));
        }
        lemma_digits_positive(text.drop_last());
    }
}

} // verus!
