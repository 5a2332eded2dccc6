//! Byte classes of the WARC grammar and the scanners that recognise them.
//!
//! A scanner returns the longest prefix of its input whose bytes all belong to one class. When
//! that prefix is the whole input, the scanner cannot know whether the token ends there, and
//! asks for more data instead of returning a short match.

use vstd::prelude::*;
use vstd::slice::slice_subrange;

verus! {

/// The character classes that the grammar distinguishes.
#[derive(Clone, Copy, Debug, PartialEq, Eq)]
pub enum ByteClass {
    /// Horizontal whitespace: space and tab.
    Blank,
    /// Version numbers: ASCII digits and `.`.
    Version,
    /// Header names: letters, digits and the symbols ``! # $ % & ' * + - ^ _ ` | ~``.
    Token,
    /// Header values: printable ASCII, 0x20 to 0x7E inclusive.
    Value,
}

/// Whether `b` is an ASCII digit.
pub open spec fn is_digit(b: u8) -> bool {
    0x30 <= b <= 0x39
}

/// Whether `b` is an ASCII letter.
pub open spec fn is_letter(b: u8) -> bool {
    (0x41 <= b <= 0x5a) || (0x61 <= b <= 0x7a)
}

/// The symbols allowed in a header name besides letters and digits.
pub open spec fn is_token_symbol(b: u8) -> bool {
    b == 0x21 || (0x23 <= b <= 0x27) || b == 0x2a || b == 0x2b || b == 0x2d || (0x5e <= b <= 0x60)
        || b == 0x7c || b == 0x7e
}

impl ByteClass {
    /// Whether `b` belongs to the class.
    pub open spec fn contains(self, b: u8) -> bool {
        match self {
            ByteClass::Blank => b == 0x20 || b == 0x09,
            ByteClass::Version => is_digit(b) || b == 0x2e,
            ByteClass::Token => is_letter(b) || is_digit(b) || is_token_symbol(b),
            ByteClass::Value => 0x20 <= b <= 0x7e,
        }
    }

    /// Tests whether `b` belongs to the class.
    pub fn holds(self, b: u8) -> (r: bool)
        ensures
            r == self.contains(b),
    {
        match self {
            ByteClass::Blank => b == 0x20 || b == 0x09,
            ByteClass::Version => (0x30 <= b && b <= 0x39) || b == 0x2e,
            ByteClass::Token => {
                (0x41 <= b && b <= 0x5a) || (0x61 <= b && b <= 0x7a) || (0x30 <= b && b <= 0x39)
                    || b == 0x21 || (0x23 <= b && b <= 0x27) || b == 0x2a || b == 0x2b || b == 0x2d
                    || (0x5e <= b && b <= 0x60) || b == 0x7c || b == 0x7e
            },
            ByteClass::Value => 0x20 <= b && b <= 0x7e,
        }
    }
}

/// The number of leading bytes of `s` that belong to `class`.
pub open spec fn leading_run(s: Seq<u8>, class: ByteClass) -> nat
    decreases s.len(),
{
    if s.len() > 0 && class.contains(s[0]) {
        1 + leading_run(s.skip(1), class)
    } else {
        0
    }
}

/// What a scanner for `class` answers on `s`: the length of the leading run, or `None` when
/// the run reaches the end of `s` and might go on in bytes not yet seen.
pub open spec fn spec_classify(s: Seq<u8>, class: ByteClass) -> Option<nat> {
    let n = leading_run(s, class);
    if n < s.len() {
        Some(n)
    } else {
        None
    }
}

/// The leading run is a prefix of members of the class, and it is followed by the end of the
/// input or by a byte outside the class.
pub proof fn lemma_leading_run(s: Seq<u8>, class: ByteClass)
    ensures
        leading_run(s, class) <= s.len(),
        forall|i: int| 0 <= i < leading_run(s, class) ==> class.contains(#[trigger] s[i]),
        leading_run(s, class) < s.len() ==> !class.contains(s[leading_run(s, class) as int]),
    decreases s.len(),
{
    if s.len() > 0 && class.contains(s[0]) {
        let rest = s.skip(1);
        lemma_leading_run(rest, class);
        assert forall|i: int| 0 <= i < leading_run(s, class) implies class.contains(
            #[trigger] s[i],
        ) by {
            if i > 0 {
                assert(s[i] == rest[i - 1]);
            }
        }
        if leading_run(s, class) < s.len() {
            assert(s[leading_run(s, class) as int] == rest[leading_run(rest, class) as int]);
        }
    }
}

/// A prefix of members of the class that ends at the end of the input or before a byte outside
/// the class is the leading run.
pub proof fn lemma_leading_run_is(s: Seq<u8>, class: ByteClass, n: nat)
    requires
        n <= s.len(),
        forall|i: int| 0 <= i < n ==> class.contains(#[trigger] s[i]),
        n < s.len() ==> !class.contains(s[n as int]),
    ensures
        leading_run(s, class) == n,
    decreases n,
{
    if n > 0 {
        let rest = s.skip(1);
        assert(class.contains(s[0]));
        assert forall|i: int| 0 <= i < n - 1 implies class.contains(#[trigger] rest[i]) by {
            assert(rest[i] == s[i + 1]);
        }
        lemma_leading_run_is(rest, class, (n - 1) as nat);
    }
}

/// Counts the leading bytes of `input` that belong to `class`.
pub fn run_length(input: &[u8], class: ByteClass) -> (n: usize)
    ensures
        n == leading_run(input@, class),
{
    let mut i: usize = 0;
    while i < input.len() && class.holds(input[i])
        invariant
            i <= input@.len(),
            forall|k: int| 0 <= k < i ==> class.contains(#[trigger] input@[k]),
        decreases input@.len() - i,
    {
        i += 1;
    }
    proof {
        lemma_leading_run_is(input@, class, i as nat);
    }
    i
}

/// Splits `input` after its longest prefix of bytes of `class`. `None` means that more data is
/// needed: every byte of `input` belongs to the class (an empty input included), so the end
/// of the token has not been seen.
pub fn classify<'a>(input: &'a [u8], class: ByteClass) -> (r: Option<(&'a [u8], &'a [u8])>)
    ensures
        match r {
            Some((matched, rest)) => {
                &&& spec_classify(input@, class) == Some(matched@.len())
                &&& matched@ == input@.take(matched@.len() as int)
                &&& rest@ == input@.skip(matched@.len() as int)
            },
            None => spec_classify(input@, class) is None,
        },
{
    let n = run_length(input, class);
    proof {
        lemma_leading_run(input@, class);
    }
    if n < input.len() {
        Some((slice_subrange(input, 0, n), slice_subrange(input, n, input.len())))
    } else {
        None
    }
}

/// Scans a version number: digits and dots.
pub fn version_number<'a>(input: &'a [u8]) -> (r: Option<(&'a [u8], &'a [u8])>)
    ensures
        match r {
            Some((matched, rest)) => {
                &&& spec_classify(input@, ByteClass::Version) == Some(matched@.len())
                &&& matched@ == input@.take(matched@.len() as int)
                &&& rest@ == input@.skip(matched@.len() as int)
            },
            None => spec_classify(input@, ByteClass::Version) is None,
        },
{
    classify(input, ByteClass::Version)
}

/// Scans a header name.
pub fn token<'a>(input: &'a [u8]) -> (r: Option<(&'a [u8], &'a [u8])>)
    ensures
        match r {
            Some((matched, rest)) => {
                &&& spec_classify(input@, ByteClass::Token) == Some(matched@.len())
                &&& matched@ == input@.take(matched@.len() as int)
                &&& rest@ == input@.skip(matched@.len() as int)
            },
            None => spec_classify(input@, ByteClass::Token) is None,
        },
{
    classify(input, ByteClass::Token)
}

/// Scans a header value: printable ASCII only, so a byte of 0x80 or above ends the value.
pub fn just_about_everything<'a>(input: &'a [u8]) -> (r: Option<(&'a [u8], &'a [u8])>)
    ensures
        match r {
            Some((matched, rest)) => {
                &&& spec_classify(input@, ByteClass::Value) == Some(matched@.len())
                &&& matched@ == input@.take(matched@.len() as int)
                &&& rest@ == input@.skip(matched@.len() as int)
            },
            None => spec_classify(input@, ByteClass::Value) is None,
        },
{
    classify(input, ByteClass::Value)
}

/// Calls `nom::space` on `input`. That function answers `Done` with the longest leading run of
/// spaces and tabs when the run is not empty (also when it reaches the end of the input), and
/// `Error` when the input is empty or starts with another byte. The result is the run in the
/// first case and `None` otherwise.
#[verifier::external_body]
fn nom_space<'a>(input: &'a [u8]) -> (matched: Option<&'a [u8]>)
    ensures
        match matched {
            Some(run) => run@.len() > 0 && run@ == input@.take(
                leading_run(input@, ByteClass::Blank) as int,
            ),
            None => leading_run(input@, ByteClass::Blank) == 0,
        },
{
    match nom::space(input) {
        nom::IResult::Done(_, run) => Some(run),
        nom::IResult::Error(_) => None,
        nom::IResult::Incomplete(_) => None,
    }
}

/// Counts the spaces and tabs that `input` starts with. Unlike the scanners above this never
/// asks for more data: blanks are optional wherever the grammar allows them.
pub fn space(input: &[u8]) -> (n: usize)
    ensures
        n == leading_run(input@, ByteClass::Blank),
{
    proof {
        lemma_leading_run(input@, ByteClass::Blank);
    }
    match nom_space(input) {
        Some(run) => run.len(),
        None => 0,
    }
}

} // verus!
