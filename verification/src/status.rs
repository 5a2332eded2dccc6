//! How a parse can end without a value.

use vstd::prelude::*;

verus! {

/// The part of the grammar in which a syntax error was found.
#[derive(Clone, Copy, Debug, PartialEq, Eq)]
pub enum SyntaxElement {
    /// The `WARC/<version>` line that opens a record.
    VersionLine,
    /// A `name: value` line, or the blank line that closes the header block.
    HeaderLine,
    /// The blank line that separates a record's content from the next record.
    RecordTerminator,
}

/// Why no value was parsed.
///
/// `Incomplete` is the only status that more input can change: the caller appends bytes to the
/// buffer and parses it again from the start of the unconsumed region. Every other status is
/// a hard error; the parser skips nothing and attempts no recovery.
#[derive(Debug, PartialEq, Eq)]
pub enum ParseStatus {
    /// The buffer ends before the record does. At least `needed` more bytes have to be
    /// appended before parsing it again can give another answer.
    Incomplete { needed: usize },
    /// The byte at offset `location` of the parsed buffer cannot continue `element`.
    MalformedSyntax { element: SyntaxElement, location: usize },
    /// The header block holds no header of this name.
    MissingRequiredHeader { name: String },
    /// The header `name` holds `raw_value`, which is not a number that fits the machine.
    InvalidHeaderValue { name: String, raw_value: String },
}

/// The mathematical value of a [`ParseStatus`].
pub ghost enum Status {
    Incomplete { needed: nat },
    MalformedSyntax { element: SyntaxElement, location: nat },
    MissingRequiredHeader { name: Seq<char> },
    InvalidHeaderValue { name: Seq<char>, raw_value: Seq<char> },
}

impl View for ParseStatus {
    type V = Status;

    open spec fn view(&self) -> Status {
        match *self {
            ParseStatus::Incomplete { needed } => Status::Incomplete { needed: needed as nat },
            ParseStatus::MalformedSyntax { element, location } => Status::MalformedSyntax {
                element,
                location: location as nat,
            },
            ParseStatus::MissingRequiredHeader { name } => Status::MissingRequiredHeader {
                name: name@,
            },
            ParseStatus::InvalidHeaderValue { name, raw_value } => Status::InvalidHeaderValue {
                name: name@,
                raw_value: raw_value@,
            },
        }
    }
}

/// Whether `p` is a request for more input.
pub open spec fn wants_more<T>(p: Result<T, Status>) -> bool {
    p matches Err(Status::Incomplete { .. })
}

impl Status {
    /// The same status seen from a buffer that starts `by` bytes earlier.
    pub open spec fn shifted(self, by: nat) -> Status {
        match self {
            Status::MalformedSyntax { element, location } => Status::MalformedSyntax {
                element,
                location: location + by,
            },
            other => other,
        }
    }
}

impl ParseStatus {
    /// Moves the location of a syntax error `by` bytes forward, for a caller whose buffer
    /// starts that many bytes before the one that was parsed.
    pub(crate) fn shifted(self, by: usize) -> (r: ParseStatus)
        requires
            self matches ParseStatus::MalformedSyntax { location, .. } ==> location + by
                <= usize::MAX,
        ensures
            r@ == self@.shifted(by as nat),
    {
        match self {
            ParseStatus::MalformedSyntax { element, location } => ParseStatus::MalformedSyntax {
                element,
                location: location + by,
            },
            other => other,
        }
    }
}

} // verus!
