//! The elements that a line of the grammar is made of, each as one step of a cursor.
//!
//! A line is a fixed sequence of elements: optional bytes, required bytes, optional blanks and
//! tokens. A [`Cursor`] walks through them. Once it has left the input (`Incomplete`) or met a
//! byte that fits nothing (`Malformed`), the elements that follow leave it as it is.

use vstd::prelude::*;
use vstd::slice::slice_subrange;
use crate::classes::{lemma_leading_run, leading_run, run_length, space, ByteClass};
use crate::status::{ParseStatus, Status, SyntaxElement};

verus! {

/// Carriage return.
pub const CR: u8 = 0x0d;

/// Line feed.
pub const LF: u8 = 0x0a;

/// Where a parse stands in its input.
#[derive(Clone, Copy, Debug, PartialEq, Eq)]
pub enum Cursor {
    /// All elements so far matched; the next one starts at this offset.
    At(usize),
    /// The input ended before an element was complete.
    Incomplete,
    /// The byte at this offset cannot continue the element that was due.
    Malformed(usize),
}

/// The mathematical value of a [`Cursor`].
pub ghost enum Step {
    At(nat),
    Incomplete,
    Malformed(nat),
}

impl View for Cursor {
    type V = Step;

    open spec fn view(&self) -> Step {
        match *self {
            Cursor::At(i) => Step::At(i as nat),
            Cursor::Incomplete => Step::Incomplete,
            Cursor::Malformed(i) => Step::Malformed(i as nat),
        }
    }
}

impl Step {
    /// The offset of a cursor that is still in the input, 0 otherwise.
    pub open spec fn offset(self) -> nat {
        match self {
            Step::At(i) => i,
            _ => 0,
        }
    }
}

/// An optional byte `b`: consumed when it is there, skipped when another byte is there. At the
/// end of the input nothing tells which, so more data is needed.
pub open spec fn spec_optional(s: Seq<u8>, st: Step, b: u8) -> Step {
    match st {
        Step::At(i) => if i >= s.len() {
            Step::Incomplete
        } else if s[i as int] == b {
            Step::At(i + 1)
        } else {
            Step::At(i)
        },
        other => other,
    }
}

/// A required byte `b`.
pub open spec fn spec_required(s: Seq<u8>, st: Step, b: u8) -> Step {
    match st {
        Step::At(i) => if i >= s.len() {
            Step::Incomplete
        } else if s[i as int] == b {
            Step::At(i + 1)
        } else {
            Step::Malformed(i)
        },
        other => other,
    }
}

/// Optional blanks: any number of spaces and tabs, none included. Blanks that reach the end of
/// the input are consumed; the element after them then finds the input exhausted.
pub open spec fn spec_blanks(s: Seq<u8>, st: Step) -> Step {
    match st {
        Step::At(i) => if i < s.len() {
            Step::At(i + leading_run(s.skip(i as int), ByteClass::Blank))
        } else {
            Step::At(i)
        },
        other => other,
    }
}

/// A token of `class`: the longest run of its bytes, which may be empty. A run that reaches the
/// end of the input might go on, so more data is needed.
pub open spec fn spec_token(s: Seq<u8>, st: Step, class: ByteClass) -> Step {
    match st {
        Step::At(i) => if i + leading_run(s.skip(i as int), class) < s.len() {
            Step::At(i + leading_run(s.skip(i as int), class))
        } else {
            Step::Incomplete
        },
        other => other,
    }
}

/// Steps over an optional byte `b`.
pub fn optional(input: &[u8], at: Cursor, b: u8) -> (r: Cursor)
    ensures
        r@ == spec_optional(input@, at@, b),
{
    match at {
        Cursor::At(i) => if i >= input.len() {
            Cursor::Incomplete
        } else if input[i] == b {
            Cursor::At(i + 1)
        } else {
            Cursor::At(i)
        },
        other => other,
    }
}

/// Steps over a required byte `b`.
pub fn required(input: &[u8], at: Cursor, b: u8) -> (r: Cursor)
    ensures
        r@ == spec_required(input@, at@, b),
{
    match at {
        Cursor::At(i) => if i >= input.len() {
            Cursor::Incomplete
        } else if input[i] == b {
            Cursor::At(i + 1)
        } else {
            Cursor::Malformed(i)
        },
        other => other,
    }
}

/// Steps over optional blanks.
pub fn blanks(input: &[u8], at: Cursor) -> (r: Cursor)
    ensures
        r@ == spec_blanks(input@, at@),
{
    match at {
        Cursor::At(i) => if i < input.len() {
            let n = space(slice_subrange(input, i, input.len()));
            proof {
                lemma_leading_run(input@.skip(i as int), ByteClass::Blank);
            }
            Cursor::At(i + n)
        } else {
            Cursor::At(i)
        },
        other => other,
    }
}

/// Steps over a token of `class`.
pub fn token_of(input: &[u8], at: Cursor, class: ByteClass) -> (r: Cursor)
    ensures
        r@ == spec_token(input@, at@, class),
{
    match at {
        Cursor::At(i) => if i < input.len() {
            let n = run_length(slice_subrange(input, i, input.len()), class);
            proof {
                lemma_leading_run(input@.skip(i as int), class);
            }
            if n < input.len() - i {
                Cursor::At(i + n)
            } else {
                Cursor::Incomplete
            }
        } else {
            Cursor::Incomplete
        },
        other => other,
    }
}

/// The status of a cursor that did not reach the end of `element`.
pub open spec fn spec_fault(st: Step, element: SyntaxElement) -> Status {
    match st {
        Step::Malformed(i) => Status::MalformedSyntax { element, location: i },
        _ => Status::Incomplete { needed: 1 },
    }
}

impl Cursor {
    /// The offset of a cursor that is still in the input, 0 otherwise.
    pub fn offset(&self) -> (r: usize)
        ensures
            r == self@.offset(),
    {
        match *self {
            Cursor::At(i) => i,
            _ => 0,
        }
    }

    /// The status of a cursor that did not reach the end of `element`.
    pub fn fault(&self, element: SyntaxElement) -> (r: ParseStatus)
        ensures
            r@ == spec_fault(self@, element),
    {
        match *self {
            Cursor::Malformed(location) => ParseStatus::MalformedSyntax { element, location },
            _ => ParseStatus::Incomplete { needed: 1 },
        }
    }
}

} // verus!
