//! The number that a `Content-Length` header declares.

use vstd::prelude::*;
use vstd::string::*;

verus! {

broadcast use vstd::string::group_string_axioms;

/// Whether `c` is one of the digits `0` to `9`.
pub open spec fn is_digit_char(c: char) -> bool {
    '0' <= c <= '9'
}

/// The number that the decimal digits `digits` write; 0 for no digits.
pub open spec fn decimal(digits: Seq<char>) -> nat
    decreases digits.len(),
{
    if digits.len() == 0 {
        0
    } else {
        10 * decimal(digits.drop_last()) + (digits.last() as nat - 48) as nat
    }
}

/// The digits of a header value: the value without the `+` that may stand before them.
pub open spec fn digits_of(value: Seq<char>) -> Seq<char> {
    if value.len() > 0 && value[0] == '+' {
        value.skip(1)
    } else {
        value
    }
}

/// The length that `value` declares: an optional `+` and one or more decimal digits, nothing
/// before, between or after them, that write a number which fits `usize`. `None` for any other
/// value.
pub open spec fn spec_content_length(value: Seq<char>) -> Option<nat> {
    let digits = digits_of(value);
    if digits.len() > 0 && (forall|i: int| 0 <= i < digits.len() ==> is_digit_char(
        #[trigger] digits[i],
    )) && decimal(digits) <= usize::MAX {
        Some(decimal(digits))
    } else {
        None
    }
}

/// More digits never write a smaller number.
pub proof fn lemma_decimal_grows(digits: Seq<char>, n: int)
    requires
        0 <= n <= digits.len(),
        forall|i: int| 0 <= i < digits.len() ==> is_digit_char(#[trigger] digits[i]),
    ensures
        decimal(digits.take(n)) <= decimal(digits),
    decreases digits.len() - n,
{
    if n == digits.len() {
        assert(digits.take(n) =~= digits);
    } else {
        lemma_decimal_grows(digits, n + 1);
        let longer = digits.take(n + 1);
        assert(longer.drop_last() =~= digits.take(n));
        assert(is_digit_char(digits[n]));
    }
}

/// Reads the length that a header value declares.
pub fn content_length(value: &str) -> (r: Option<usize>)
    ensures
        match r {
            Some(n) => spec_content_length(value@) == Some(n as nat),
            None => spec_content_length(value@) is None,
        },
{
    let ghost digits = digits_of(value@);
    if !value.is_ascii() {
        proof {
            let i = choose|i: int|
                0 <= i < value@.len() && !('\0' <= #[trigger] value@[i] && value@[i] <= '\u{7f}');
            if value@.len() > 0 && value@[0] == '+' {
                assert(digits[i - 1] == value@[i]);
            } else {
                assert(digits[i] == value@[i]);
            }
        }
        return None;
    }
    let bytes = value.as_bytes();
    assert(bytes@.len() == value@.len());
    assert(forall|i: int| 0 <= i < bytes@.len() ==> bytes@[i] == value@[i] as u8);
    let start: usize = if bytes.len() > 0 && bytes[0] == 0x2b {
        1
    } else {
        0
    };
    assert(digits =~= value@.skip(start as int));
    if start == bytes.len() {
        return None;
    }
    let mut n: usize = 0;
    let mut i: usize = start;
    while i < bytes.len()
        invariant
            start <= i <= bytes@.len(),
            bytes@.len() == value@.len(),
            forall|k: int| 0 <= k < bytes@.len() ==> bytes@[k] == value@[k] as u8,
            forall|k: int| 0 <= k < value@.len() ==> '\0' <= #[trigger] value@[k] <= '\u{7f}',
            digits == digits_of(value@),
            digits == value@.skip(start as int),
            forall|k: int| 0 <= k < i - start ==> is_digit_char(#[trigger] digits[k]),
            n == decimal(digits.take(i - start)),
        decreases bytes@.len() - i,
    {
        let b = bytes[i];
        assert(digits[i - start] == value@[i as int]);
        if b < 0x30 || b > 0x39 {
            return None;
        }
        let ghost longer = digits.take(i - start + 1);
        assert(longer.drop_last() =~= digits.take(i - start));
        assert(longer.last() == digits[i - start]);
        assert(is_digit_char(digits[i - start]));
        let ghost next = 10 * n + (b - 0x30);
        assert(next == decimal(longer));
        let grown = match n.checked_mul(10) {
            Some(tens) => tens.checked_add((b - 0x30) as usize),
            None => None,
        };
        match grown {
            Some(m) => {
                n = m;
            },
            None => {
                proof {
                    assert(next > usize::MAX);
                    if forall|k: int| 0 <= k < digits.len() ==> is_digit_char(#[trigger] digits[k]) {
                        lemma_decimal_grows(digits, i - start + 1);
                    }
                }
                return None;
            },
        }
        i += 1;
    }
    assert(digits.take(i - start) =~= digits);
    Some(n)
}

} // verus!
