//! The line grammars: the version line, the header line and the header block.
//!
//! Every function takes the bytes that are left and answers with a value and the number of
//! bytes it consumed, or with the reason why there is no value. The values borrow from the
//! input; nothing is copied.

use vstd::prelude::*;
use vstd::slice::slice_subrange;
use crate::classes::ByteClass;
use crate::elements::{
    blanks, optional, required, spec_blanks, spec_fault, spec_optional, spec_required,
    spec_token, token_of, Cursor, Step, CR, LF,
};
use crate::status::{ParseStatus, Status, SyntaxElement};

verus! {

/// A header as it stands in the input: its name and its value.
pub type Field = (Seq<u8>, Seq<u8>);

/// What a grammar answers: a value and the number of bytes consumed, or a status.
pub type Parsed<T> = Result<(T, nat), Status>;

/// Where the cursor stands after the literal `WARC/`.
pub open spec fn spec_magic(s: Seq<u8>, st: Step) -> Step {
    let w = spec_required(s, st, 0x57);
    let a = spec_required(s, w, 0x41);
    let r = spec_required(s, a, 0x52);
    let c = spec_required(s, r, 0x43);
    spec_required(s, c, 0x2f)
}

/// The cursor before the version number of a version line: after an optional CR and an
/// optional LF (the rest of a blank line that the record before may have left), the literal
/// `WARC/` and optional blanks.
pub open spec fn spec_version_start(s: Seq<u8>) -> Step {
    let cr = spec_optional(s, Step::At(0), CR);
    let lf = spec_optional(s, cr, LF);
    spec_blanks(s, spec_magic(s, lf))
}

/// The cursor after a line's end: an optional CR and a required LF.
pub open spec fn spec_line_end(s: Seq<u8>, st: Step) -> Step {
    spec_required(s, spec_optional(s, st, CR), LF)
}

/// The version line: `WARC/`, the version number, the end of the line. Its value is the
/// version number, which may be empty.
#[verifier::opaque]
pub open spec fn spec_init_line(s: Seq<u8>) -> Parsed<Seq<u8>> {
    let start = spec_version_start(s);
    let stop = spec_token(s, start, ByteClass::Version);
    match spec_line_end(s, stop) {
        Step::At(end) => Ok((s.subrange(start.offset() as int, stop.offset() as int), end)),
        other => Err(spec_fault(other, SyntaxElement::VersionLine)),
    }
}

/// The cursor after a header's name, the blanks and the colon that follow it, and the blanks
/// before its value.
pub open spec fn spec_value_start(s: Seq<u8>) -> Step {
    let name = spec_token(s, Step::At(0), ByteClass::Token);
    spec_blanks(s, spec_required(s, spec_blanks(s, name), 0x3a))
}

/// A header line: name, colon, value, end of line, with optional blanks on both sides of the
/// colon. Name and value may be empty; the value keeps the blanks at its end.
#[verifier::opaque]
pub open spec fn spec_header_match(s: Seq<u8>) -> Parsed<Field> {
    let name = spec_token(s, Step::At(0), ByteClass::Token);
    let start = spec_value_start(s);
    let stop = spec_token(s, start, ByteClass::Value);
    match spec_line_end(s, stop) {
        Step::At(end) => Ok(
            (
                (
                    s.subrange(0, name.offset() as int),
                    s.subrange(start.offset() as int, stop.offset() as int),
                ),
                end,
            ),
        ),
        other => Err(spec_fault(other, SyntaxElement::HeaderLine)),
    }
}

/// `front`, read from `used` bytes, followed by what `tail` holds.
pub open spec fn spec_prepend(front: Seq<Field>, used: nat, tail: Parsed<Seq<Field>>) -> Parsed<
    Seq<Field>,
> {
    match tail {
        Ok((rest, more)) => Ok((front + rest, used + more)),
        Err(e) => Err(e.shifted(used)),
    }
}

/// Zero or more header lines: as many as there are before the first line that is no header.
/// A line that is cut off by the end of the input makes the whole block incomplete.
pub open spec fn spec_more_headers(s: Seq<u8>) -> Parsed<Seq<Field>>
    decreases s.len(),
{
    match spec_header_match(s) {
        Ok((field, n)) => if 0 < n <= s.len() {
            spec_prepend(seq![field], n, spec_more_headers(s.skip(n as int)))
        } else {
            Ok((Seq::empty(), 0))
        },
        Err(Status::Incomplete { needed }) => Err(Status::Incomplete { needed }),
        Err(_) => Ok((Seq::empty(), 0)),
    }
}

/// One or more header lines, in the order of the input.
pub open spec fn spec_header_aggregator(s: Seq<u8>) -> Parsed<Seq<Field>> {
    match spec_header_match(s) {
        Ok((field, n)) => spec_prepend(seq![field], n, spec_more_headers(s.skip(n as int))),
        Err(e) => Err(e),
    }
}

/// The head of a record: the version line, the header lines and the blank line that ends
/// them. Its value is the version number and the headers.
#[verifier::opaque]
pub open spec fn spec_warc_header(s: Seq<u8>) -> Parsed<(Seq<u8>, Seq<Field>)> {
    match spec_init_line(s) {
        Err(e) => Err(e),
        Ok((version, a)) => match spec_header_aggregator(s.skip(a as int)) {
            Err(e) => Err(e.shifted(a)),
            Ok((fields, b)) => match spec_line_end(s, Step::At(a + b)) {
                Step::At(end) => Ok(((version, fields), end)),
                other => Err(spec_fault(other, SyntaxElement::HeaderLine)),
            },
        },
    }
}

/// A cursor never leaves the input, and never goes back; an element reports an error at a byte
/// of the input, or hands on the error that it was given.
pub proof fn lemma_element_bounds(s: Seq<u8>, st: Step, b: u8, class: ByteClass)
    requires
        st matches Step::At(i) ==> i <= s.len(),
    ensures
        spec_optional(s, st, b) matches Step::At(j) ==> st.offset() <= j <= s.len(),
        spec_optional(s, st, b) matches Step::Malformed(j) ==> st == Step::Malformed(j),
        spec_required(s, st, b) matches Step::At(j) ==> st.offset() < j <= s.len(),
        spec_required(s, st, b) matches Step::Malformed(j) ==> j < s.len() || st
            == Step::Malformed(j),
        spec_blanks(s, st) matches Step::At(j) ==> st.offset() <= j <= s.len(),
        spec_blanks(s, st) matches Step::Malformed(j) ==> st == Step::Malformed(j),
        spec_token(s, st, class) matches Step::At(j) ==> st.offset() <= j < s.len(),
        spec_token(s, st, class) matches Step::Malformed(j) ==> st == Step::Malformed(j),
{
    if let Step::At(i) = st {
        if i < s.len() {
            crate::classes::lemma_leading_run(s.skip(i as int), ByteClass::Blank);
        }
    }
}

/// The cursors of a version line stand in the input, in the order of the grammar.
pub proof fn lemma_init_line_steps(s: Seq<u8>)
    ensures
        spec_version_start(s) matches Step::At(i) ==> 5 <= i <= s.len(),
        spec_version_start(s) matches Step::Malformed(i) ==> i < s.len(),
        spec_token(s, spec_version_start(s), ByteClass::Version) matches Step::At(i)
            ==> spec_version_start(s).offset() <= i < s.len(),
        spec_init_line(s) matches Ok((_, n)) ==> 6 <= n <= s.len(),
        spec_init_line(s) matches Err(Status::MalformedSyntax { location, .. }) ==> location
            < s.len(),
        spec_init_line(s) matches Err(Status::Incomplete { needed }) ==> needed == 1,
{
    reveal(spec_init_line);
    let class = ByteClass::Version;
    let cr = spec_optional(s, Step::At(0), CR);
    lemma_element_bounds(s, Step::At(0), CR, class);
    let lf = spec_optional(s, cr, LF);
    lemma_element_bounds(s, cr, LF, class);
    let w = spec_required(s, lf, 0x57);
    lemma_element_bounds(s, lf, 0x57, class);
    let a = spec_required(s, w, 0x41);
    lemma_element_bounds(s, w, 0x41, class);
    let r = spec_required(s, a, 0x52);
    lemma_element_bounds(s, a, 0x52, class);
    let c = spec_required(s, r, 0x43);
    lemma_element_bounds(s, r, 0x43, class);
    let slash = spec_required(s, c, 0x2f);
    lemma_element_bounds(s, c, 0x2f, class);
    let start = spec_blanks(s, slash);
    lemma_element_bounds(s, slash, 0, class);
    let stop = spec_token(s, start, class);
    lemma_element_bounds(s, start, 0, class);
    let end_cr = spec_optional(s, stop, CR);
    lemma_element_bounds(s, stop, CR, class);
    lemma_element_bounds(s, end_cr, LF, class);
}

/// The cursors of a header line stand in the input, in the order of the grammar.
pub proof fn lemma_header_match_steps(s: Seq<u8>)
    ensures
        spec_token(s, Step::At(0), ByteClass::Token) matches Step::At(i) ==> i < s.len(),
        spec_value_start(s) matches Step::At(i) ==> spec_token(
            s,
            Step::At(0),
            ByteClass::Token,
        ).offset() < i <= s.len(),
        spec_value_start(s) matches Step::Malformed(i) ==> i < s.len(),
        spec_token(s, spec_value_start(s), ByteClass::Value) matches Step::At(i)
            ==> spec_value_start(s).offset() <= i < s.len(),
        spec_header_match(s) matches Ok((_, n)) ==> 2 <= n <= s.len(),
        spec_header_match(s) matches Err(Status::MalformedSyntax { location, .. }) ==> location
            < s.len(),
        spec_header_match(s) matches Err(Status::Incomplete { needed }) ==> needed == 1,
{
    reveal(spec_header_match);
    let class = ByteClass::Value;
    let name = spec_token(s, Step::At(0), ByteClass::Token);
    lemma_element_bounds(s, Step::At(0), 0, ByteClass::Token);
    let pre = spec_blanks(s, name);
    lemma_element_bounds(s, name, 0, class);
    let colon = spec_required(s, pre, 0x3a);
    lemma_element_bounds(s, pre, 0x3a, class);
    let start = spec_blanks(s, colon);
    lemma_element_bounds(s, colon, 0, class);
    let stop = spec_token(s, start, class);
    lemma_element_bounds(s, start, 0, class);
    let end_cr = spec_optional(s, stop, CR);
    lemma_element_bounds(s, stop, CR, class);
    lemma_element_bounds(s, end_cr, LF, class);
}

/// `p` is the value `value`, read from `used` bytes.
pub open spec fn is_ok<T>(p: Parsed<T>, value: T, used: usize) -> bool {
    p == Ok::<(T, nat), Status>((value, used as nat))
}

/// `p` is the status `e`.
pub open spec fn is_err<T>(p: Parsed<T>, e: ParseStatus) -> bool {
    p == Err::<(T, nat), Status>(e@)
}

/// The headers that `v` borrows from the input.
pub open spec fn fields_of(v: Seq<(&[u8], &[u8])>) -> Seq<Field> {
    Seq::new(v.len(), |i: int| (v[i].0@, v[i].1@))
}

/// Steps over the end of a line.
pub fn line_end(input: &[u8], at: Cursor) -> (r: Cursor)
    ensures
        r@ == spec_line_end(input@, at@),
{
    required(input, optional(input, at, CR), LF)
}

/// Parses the version line that opens a record and returns the version number.
pub fn init_line<'a>(input: &'a [u8]) -> (r: Result<(&'a [u8], usize), ParseStatus>)
    ensures
        match r {
            Ok((version, used)) => is_ok(spec_init_line(input@), version@, used),
            Err(e) => is_err(spec_init_line(input@), e),
        },
{
    proof {
        reveal(spec_init_line);
    }
    let cr = optional(input, Cursor::At(0), CR);
    let lf = optional(input, cr, LF);
    let w = required(input, lf, 0x57);
    let a = required(input, w, 0x41);
    let r = required(input, a, 0x52);
    let c = required(input, r, 0x43);
    let slash = required(input, c, 0x2f);
    let start = blanks(input, slash);
    let stop = token_of(input, start, ByteClass::Version);
    let end = line_end(input, stop);
    proof {
        lemma_init_line_steps(input@);
    }
    match end {
        Cursor::At(used) => Ok((slice_subrange(input, start.offset(), stop.offset()), used)),
        other => Err(other.fault(SyntaxElement::VersionLine)),
    }
}

/// Parses one header line and returns its name and its value.
pub fn header_match<'a>(input: &'a [u8]) -> (r: Result<
    ((&'a [u8], &'a [u8]), usize),
    ParseStatus,
>)
    ensures
        match r {
            Ok((field, used)) => is_ok(spec_header_match(input@), (field.0@, field.1@), used),
            Err(e) => is_err(spec_header_match(input@), e),
        },
{
    proof {
        reveal(spec_header_match);
    }
    let name = token_of(input, Cursor::At(0), ByteClass::Token);
    let colon = required(input, blanks(input, name), 0x3a);
    let start = blanks(input, colon);
    let stop = token_of(input, start, ByteClass::Value);
    let end = line_end(input, stop);
    proof {
        lemma_header_match_steps(input@);
    }
    match end {
        Cursor::At(used) => Ok(
            (
                (
                    slice_subrange(input, 0, name.offset()),
                    slice_subrange(input, start.offset(), stop.offset()),
                ),
                used,
            ),
        ),
        other => Err(other.fault(SyntaxElement::HeaderLine)),
    }
}

/// Prepending in two steps is prepending the whole at once.
pub proof fn lemma_prepend_twice(
    front: Seq<Field>,
    used: nat,
    field: Field,
    n: nat,
    tail: Parsed<Seq<Field>>,
)
    ensures
        spec_prepend(front, used, spec_prepend(seq![field], n, tail)) == spec_prepend(
            front.push(field),
            used + n,
            tail,
        ),
{
    if let Ok((rest, more)) = tail {
        assert(front + (seq![field] + rest) =~= front.push(field) + rest);
    }
}

/// Parses the header lines of a record: at least one, and then as many as follow.
pub fn header_aggregator<'a>(input: &'a [u8]) -> (r: Result<
    (Vec<(&'a [u8], &'a [u8])>, usize),
    ParseStatus,
>)
    ensures
        match r {
            Ok((fields, used)) => is_ok(spec_header_aggregator(input@), fields_of(fields@), used),
            Err(e) => is_err(spec_header_aggregator(input@), e),
        },
{
    let mut fields: Vec<(&'a [u8], &'a [u8])> = Vec::new();
    let mut pos: usize = 0;
    match header_match(input) {
        Ok((field, used)) => {
            proof {
                lemma_header_match_steps(input@);
            }
            fields.push(field);
            pos = used;
            assert(fields_of(fields@) =~= seq![(field.0@, field.1@)]);
        },
        Err(e) => {
            return Err(e);
        },
    }
    loop
        invariant
            0 < pos <= input@.len(),
            spec_header_aggregator(input@) == spec_prepend(
                fields_of(fields@),
                pos as nat,
                spec_more_headers(input@.skip(pos as int)),
            ),
        decreases input@.len() - pos,
    {
        let rest = slice_subrange(input, pos, input.len());
        match header_match(rest) {
            Ok((field, used)) => {
                proof {
                    lemma_header_match_steps(rest@);
                    lemma_prepend_twice(
                        fields_of(fields@),
                        pos as nat,
                        (field.0@, field.1@),
                        used as nat,
                        spec_more_headers(rest@.skip(used as int)),
                    );
                    assert(rest@.skip(used as int) =~= input@.skip(pos + used));
                    assert(fields_of(fields@.push(field)) =~= fields_of(fields@).push(
                        (field.0@, field.1@),
                    ));
                }
                fields.push(field);
                pos = pos + used;
            },
            Err(ParseStatus::Incomplete { needed }) => {
                return Err(ParseStatus::Incomplete { needed });
            },
            Err(_) => {
                assert(fields_of(fields@) + Seq::<Field>::empty() =~= fields_of(fields@));
                return Ok((fields, pos));
            },
        }
    }
}

/// Parses the head of a record: the version line, the header lines and the blank line after
/// them. Returns the version number and the headers in the order of the input.
pub fn warc_header<'a>(input: &'a [u8]) -> (r: Result<
    ((&'a [u8], Vec<(&'a [u8], &'a [u8])>), usize),
    ParseStatus,
>)
    ensures
        match r {
            Ok((head, used)) => is_ok(
                spec_warc_header(input@),
                (head.0@, fields_of(head.1@)),
                used,
            ),
            Err(e) => is_err(spec_warc_header(input@), e),
        },
{
    proof {
        reveal(spec_warc_header);
    }
    let (version, a) = match init_line(input) {
        Ok(line) => line,
        Err(e) => {
            return Err(e);
        },
    };
    proof {
        lemma_init_line_steps(input@);
    }
    let rest = slice_subrange(input, a, input.len());
    let (fields, b) = match header_aggregator(rest) {
        Ok(block) => block,
        Err(e) => {
            proof {
                lemma_header_aggregator_bounds(rest@);
            }
            return Err(e.shifted(a));
        },
    };
    proof {
        lemma_header_aggregator_bounds(rest@);
    }
    match line_end(input, Cursor::At(a + b)) {
        Cursor::At(used) => Ok(((version, fields), used)),
        other => Err(other.fault(SyntaxElement::HeaderLine)),
    }
}

/// How header lines are read when the first of them is known.
pub proof fn lemma_more_headers_unfold(s: Seq<u8>)
    ensures
        spec_more_headers(s) == match spec_header_match(s) {
            Ok((field, n)) => spec_prepend(seq![field], n, spec_more_headers(s.skip(n as int))),
            Err(Status::Incomplete { needed }) => Err::<(Seq<Field>, nat), Status>(
                Status::Incomplete { needed },
            ),
            Err(_) => Ok((Seq::empty(), 0)),
        },
{
    lemma_header_match_steps(s);
}

/// Header lines consume what they parse, and an error lies in the input.
pub proof fn lemma_more_headers_bounds(s: Seq<u8>)
    ensures
        spec_more_headers(s) matches Ok((fields, n)) ==> n <= s.len(),
        spec_more_headers(s) matches Err(e) ==> e == (Status::Incomplete { needed: 1 }),
    decreases s.len(),
{
    lemma_header_match_steps(s);
    if let Ok((field, n)) = spec_header_match(s) {
        lemma_more_headers_bounds(s.skip(n as int));
    }
}

/// A header block consumes what it parses, and an error lies in the input.
pub proof fn lemma_header_aggregator_bounds(s: Seq<u8>)
    ensures
        spec_header_aggregator(s) matches Ok((fields, n)) ==> 2 <= n <= s.len() && fields.len()
            >= 1,
        spec_header_aggregator(s) matches Err(Status::MalformedSyntax { location, .. })
            ==> location < s.len(),
        spec_header_aggregator(s) matches Err(Status::Incomplete { needed }) ==> needed == 1,
{
    lemma_header_match_steps(s);
    if let Ok((field, n)) = spec_header_match(s) {
        lemma_more_headers_bounds(s.skip(n as int));
    }
}

/// The head of a record consumes what it parses, and an error lies in the input.
pub proof fn lemma_warc_header_bounds(s: Seq<u8>)
    ensures
        spec_warc_header(s) matches Ok((head, n)) ==> 9 <= n <= s.len(),
        spec_warc_header(s) matches Err(Status::MalformedSyntax { location, .. }) ==> location
            < s.len(),
        spec_warc_header(s) matches Err(Status::Incomplete { needed }) ==> needed == 1,
{
    reveal(spec_warc_header);
    lemma_init_line_steps(s);
    if let Ok((version, a)) = spec_init_line(s) {
        let rest = s.skip(a as int);
        lemma_header_aggregator_bounds(rest);
        if let Ok((fields, b)) = spec_header_aggregator(rest) {
            lemma_element_bounds(s, Step::At(a + b), CR, ByteClass::Blank);
            lemma_element_bounds(s, spec_optional(s, Step::At(a + b), CR), LF, ByteClass::Blank);
        }
    }
}

/// Whether every byte of `bytes` belongs to `class`.
pub open spec fn all_in(bytes: Seq<u8>, class: ByteClass) -> bool {
    forall|i: int| 0 <= i < bytes.len() ==> class.contains(#[trigger] bytes[i])
}

/// Whether every name is made of token bytes and every value of value bytes.
pub open spec fn fields_in_class(fields: Seq<Field>) -> bool {
    forall|i: int|
        0 <= i < fields.len() ==> all_in((#[trigger] fields[i]).0, ByteClass::Token) && all_in(
            fields[i].1,
            ByteClass::Value,
        )
}

/// A token holds bytes of its class only, and the byte after it is of another class.
pub proof fn lemma_token_members(s: Seq<u8>, st: Step, class: ByteClass)
    requires
        st matches Step::At(i) ==> i <= s.len(),
    ensures
        spec_token(s, st, class) matches Step::At(j) ==> all_in(
            s.subrange(st.offset() as int, j as int),
            class,
        ) && !class.contains(s[j as int]),
{
    if let Step::At(j) = spec_token(s, st, class) {
        let i = st.offset();
        let rest = s.skip(i as int);
        crate::classes::lemma_leading_run(rest, class);
        let token = s.subrange(i as int, j as int);
        assert forall|k: int| 0 <= k < token.len() implies class.contains(#[trigger] token[k]) by {
            assert(token[k] == rest[k]);
        }
        assert(s[j as int] == rest[j - i]);
    }
}

/// The version number of a version line holds digits and dots only.
pub proof fn lemma_init_line_members(s: Seq<u8>)
    ensures
        spec_init_line(s) matches Ok((version, _)) ==> all_in(version, ByteClass::Version),
{
    reveal(spec_init_line);
    lemma_init_line_steps(s);
    lemma_token_members(s, spec_version_start(s), ByteClass::Version);
}

/// The name of a header holds token bytes only, and its value printable ASCII only.
pub proof fn lemma_header_match_members(s: Seq<u8>)
    ensures
        spec_header_match(s) matches Ok((field, _)) ==> all_in(field.0, ByteClass::Token)
            && all_in(field.1, ByteClass::Value),
{
    reveal(spec_header_match);
    lemma_header_match_steps(s);
    lemma_token_members(s, Step::At(0), ByteClass::Token);
    lemma_token_members(s, spec_value_start(s), ByteClass::Value);
}

/// The same of every header of a run of header lines.
pub proof fn lemma_more_headers_members(s: Seq<u8>)
    ensures
        spec_more_headers(s) matches Ok((fields, _)) ==> fields_in_class(fields),
    decreases s.len(),
{
    lemma_header_match_members(s);
    if let Ok((field, n)) = spec_header_match(s) {
        if 0 < n <= s.len() {
            lemma_more_headers_members(s.skip(n as int));
        }
    }
}

/// The same of the version number and of every header of the head of a record.
pub proof fn lemma_warc_header_members(s: Seq<u8>)
    ensures
        spec_warc_header(s) matches Ok((head, _)) ==> all_in(head.0, ByteClass::Version)
            && fields_in_class(head.1),
{
    reveal(spec_warc_header);
    lemma_init_line_members(s);
    if let Ok((version, a)) = spec_init_line(s) {
        let rest = s.skip(a as int);
        lemma_header_match_members(rest);
        if let Ok((field, n)) = spec_header_match(rest) {
            lemma_more_headers_members(rest.skip(n as int));
        }
    }
}

/// The bytes of the literal `WARC/`.
pub open spec fn magic() -> Seq<u8> {
    seq![0x57u8, 0x41u8, 0x52u8, 0x43u8, 0x2fu8]
}

/// Whether `s`, after the CR and the LF that may stand before a version line, goes on with
/// bytes that are not the literal `WARC/`: `k` bytes of the literal are there, and then a byte
/// that is not its next one.
pub open spec fn bad_magic_at(s: Seq<u8>, k: int) -> bool {
    &&& spec_optional(s, spec_optional(s, Step::At(0), CR), LF) matches Step::At(lead)
    &&& 0 <= k < 5
    &&& lead + k < s.len()
    &&& s[lead + k] != magic()[k]
    &&& forall|j: int| 0 <= j < k ==> s[lead + j] == magic()[j]
}

/// A version line that does not start with the literal `WARC/` is malformed, at the first
/// byte that differs from the literal.
pub proof fn lemma_bad_magic(s: Seq<u8>, k: int)
    requires
        bad_magic_at(s, k),
    ensures
        spec_init_line(s) == Err::<(Seq<u8>, nat), Status>(
            Status::MalformedSyntax {
                element: SyntaxElement::VersionLine,
                location: (spec_optional(s, spec_optional(s, Step::At(0), CR), LF).offset()
                    + k) as nat,
            },
        ),
        spec_warc_header(s) == Err::<((Seq<u8>, Seq<Field>), nat), Status>(
            Status::MalformedSyntax {
                element: SyntaxElement::VersionLine,
                location: (spec_optional(s, spec_optional(s, Step::At(0), CR), LF).offset()
                    + k) as nat,
            },
        ),
{
    reveal(spec_init_line);
    reveal(spec_warc_header);
    let lead = spec_optional(s, spec_optional(s, Step::At(0), CR), LF).offset() as int;
    assert(forall|j: int| 0 <= j < k ==> s[lead + j] == magic()[j]);
    if k > 0 {
        assert(s[lead + 0] == magic()[0]);
    }
    if k > 1 {
        assert(s[lead + 1] == magic()[1]);
    }
    if k > 2 {
        assert(s[lead + 2] == magic()[2]);
    }
    if k > 3 {
        assert(s[lead + 3] == magic()[3]);
    }
}

} // verus!
