//! Records: the head of a record merged into a header map, the content taken by the declared
//! length, and a whole buffer parsed into the list of its records.

use vstd::prelude::*;
use vstd::slice::{slice_subrange, slice_to_vec};
use vstd::string::*;
use crate::classes::ByteClass;
use crate::elements::{spec_fault, spec_optional, spec_required, Cursor, Step, CR, LF};
use crate::headers::Headers;
use crate::length::{content_length, spec_content_length};
use crate::lines::{
    all_in, bad_magic_at, fields_in_class, fields_of, is_err, is_ok, lemma_bad_magic,
    lemma_element_bounds, lemma_warc_header_bounds, lemma_warc_header_members, line_end,
    spec_line_end, spec_warc_header, warc_header, Field, Parsed,
};
use crate::status::{ParseStatus, Status, SyntaxElement};
use crate::text::{ascii_string, lemma_text_injective, text};

verus! {

/// One record of an archive.
#[derive(Debug)]
pub struct Record {
    /// The headers of the record, and under `WARCVERSION` the version of its version line.
    pub headers: Headers,
    /// The content of the record: a copy, which does not borrow from the parsed buffer.
    pub content: Vec<u8>,
}

/// The mathematical value of a [`Record`].
pub ghost struct RecordView {
    pub headers: Map<Seq<char>, Seq<char>>,
    pub content: Seq<u8>,
}

impl View for Record {
    type V = RecordView;

    open spec fn view(&self) -> RecordView {
        RecordView { headers: self.headers@, content: self.content@ }
    }
}

/// The values of a list of records.
pub open spec fn views(records: Seq<Record>) -> Seq<RecordView> {
    Seq::new(records.len(), |i: int| records[i]@)
}

/// The name under which a record holds the version of its version line.
pub open spec fn version_key() -> Seq<char> {
    "WARCVERSION"@
}

/// The name of the header that declares the length of the content.
pub open spec fn length_key() -> Seq<char> {
    "Content-Length"@
}

/// The name of the header that marks a record whose content was cut short.
pub open spec fn truncated_key() -> Seq<char> {
    "WARC-Truncated"@
}

/// `base` with the headers `fields` written into it one after the other: a later header
/// replaces an earlier one of the same name.
pub open spec fn spec_merge(base: Map<Seq<char>, Seq<char>>, fields: Seq<Field>) -> Map<
    Seq<char>,
    Seq<char>,
>
    decreases fields.len(),
{
    if fields.len() == 0 {
        base
    } else {
        spec_merge(base, fields.drop_last()).insert(
            text(fields.last().0),
            text(fields.last().1),
        )
    }
}

/// The header map of a record: the version under [`version_key`], then the headers.
pub open spec fn header_map(version: Seq<u8>, fields: Seq<Field>) -> Map<Seq<char>, Seq<char>> {
    spec_merge(map![version_key() => text(version)], fields)
}

/// The number of content bytes to take when `declared` are declared and `available` are
/// there: a record marked as truncated gives what is there when that is less.
pub open spec fn spec_taken(truncated: bool, declared: nat, available: nat) -> nat {
    if truncated && declared > available {
        available
    } else {
        declared
    }
}

/// The record with the headers `headers` whose content starts `body`.
///
/// A header map without `Content-Length` is an error and not a request for more input: the
/// header block is complete when this is decided, so no further byte could supply the header.
pub open spec fn spec_assemble(headers: Map<Seq<char>, Seq<char>>, body: Seq<u8>) -> Parsed<
    RecordView,
> {
    if !headers.contains_key(length_key()) {
        Err(Status::MissingRequiredHeader { name: length_key() })
    } else {
        match spec_content_length(headers[length_key()]) {
            None => Err(
                Status::InvalidHeaderValue { name: length_key(), raw_value: headers[length_key()] },
            ),
            Some(declared) => {
                let taken = spec_taken(headers.contains_key(truncated_key()), declared, body.len());
                if taken <= body.len() {
                    Ok((RecordView { headers, content: body.take(taken as int) }, taken))
                } else {
                    Err(Status::Incomplete { needed: (taken - body.len()) as nat })
                }
            },
        }
    }
}

/// One record at the start of `s`: its head, then its content.
pub open spec fn spec_record(s: Seq<u8>) -> Parsed<RecordView> {
    match spec_warc_header(s) {
        Err(e) => Err(e),
        Ok((head, n)) => match spec_assemble(header_map(head.0, head.1), s.skip(n as int)) {
            Ok((record, taken)) => Ok((record, n + taken)),
            Err(e) => Err(e),
        },
    }
}

/// One record at the start of `s` and the blank line that separates it from the next: two
/// line ends.
#[verifier::opaque]
pub open spec fn spec_record_complete(s: Seq<u8>) -> Parsed<RecordView> {
    match spec_record(s) {
        Err(e) => Err(e),
        Ok((record, n)) => match spec_line_end(s, spec_line_end(s, Step::At(n))) {
            Step::At(end) => Ok((record, end)),
            other => Err(spec_fault(other, SyntaxElement::RecordTerminator)),
        },
    }
}

/// `front`, read from `used` bytes, followed by the records of `tail`.
pub open spec fn spec_followed(
    front: Seq<RecordView>,
    used: nat,
    tail: Result<Seq<RecordView>, Status>,
) -> Result<Seq<RecordView>, Status> {
    match tail {
        Ok(rest) => Ok(front + rest),
        Err(e) => Err(e.shifted(used)),
    }
}

/// The records that `s` is made of: one or more, each with its separator, up to the end of
/// `s`. The status of the first record that has no value is the status of the whole, its
/// location counted from the start of `s`.
#[verifier::opaque]
pub open spec fn spec_records(s: Seq<u8>) -> Result<Seq<RecordView>, Status>
    decreases s.len(),
{
    match spec_record_complete(s) {
        Err(e) => Err(e),
        Ok((record, n)) => if 0 < n < s.len() {
            spec_followed(seq![record], n, spec_records(s.skip(n as int)))
        } else {
            Ok(seq![record])
        },
    }
}

/// Where a name occurs more than once among the headers, the value of its last occurrence is
/// the value in the map.
pub proof fn lemma_last_occurrence_wins(
    base: Map<Seq<char>, Seq<char>>,
    fields: Seq<Field>,
    i: int,
)
    requires
        0 <= i < fields.len(),
        forall|j: int| i < j < fields.len() ==> (#[trigger] fields[j]).0 != fields[i].0,
    ensures
        spec_merge(base, fields).contains_key(text(fields[i].0)),
        spec_merge(base, fields)[text(fields[i].0)] == text(fields[i].1),
    decreases fields.len(),
{
    if i < fields.len() - 1 {
        let before = fields.drop_last();
        assert(before[i] == fields[i]);
        assert forall|j: int| i < j < before.len() implies (#[trigger] before[j]).0
            != before[i].0 by {
            assert(before[j] == fields[j]);
        }
        lemma_last_occurrence_wins(base, before, i);
        assert(fields.last().0 != fields[i].0);
        if text(fields.last().0) == text(fields[i].0) {
            lemma_text_injective(fields.last().0, fields[i].0);
        }
    }
}

/// A name that no header has keeps what the base map says of it.
pub proof fn lemma_merge_keeps_others(
    base: Map<Seq<char>, Seq<char>>,
    fields: Seq<Field>,
    name: Seq<char>,
)
    requires
        forall|j: int| 0 <= j < fields.len() ==> text((#[trigger] fields[j]).0) != name,
    ensures
        spec_merge(base, fields).contains_key(name) == base.contains_key(name),
        base.contains_key(name) ==> spec_merge(base, fields)[name] == base[name],
    decreases fields.len(),
{
    if fields.len() > 0 {
        let before = fields.drop_last();
        assert forall|j: int| 0 <= j < before.len() implies text((#[trigger] before[j]).0)
            != name by {
            assert(before[j] == fields[j]);
        }
        lemma_merge_keeps_others(base, before, name);
        assert(text(fields.last().0) != name);
    }
}

/// Merging takes no name away.
pub proof fn lemma_merge_keeps_names(
    base: Map<Seq<char>, Seq<char>>,
    fields: Seq<Field>,
    name: Seq<char>,
)
    requires
        base.contains_key(name),
    ensures
        spec_merge(base, fields).contains_key(name),
    decreases fields.len(),
{
    if fields.len() > 0 {
        lemma_merge_keeps_names(base, fields.drop_last(), name);
    }
}

/// A record always holds a version: that of its version line, unless a header of the name
/// `WARCVERSION` replaced it.
pub proof fn lemma_version_entry(version: Seq<u8>, fields: Seq<Field>)
    ensures
        header_map(version, fields).contains_key(version_key()),
        (forall|j: int| 0 <= j < fields.len() ==> text((#[trigger] fields[j]).0) != version_key())
            ==> header_map(version, fields)[version_key()] == text(version),
{
    let base = map![version_key() => text(version)];
    lemma_merge_keeps_names(base, fields, version_key());
    if forall|j: int| 0 <= j < fields.len() ==> text((#[trigger] fields[j]).0) != version_key() {
        lemma_merge_keeps_others(base, fields, version_key());
    }
}

/// What a parsed record holds: a `Content-Length` header that declares a number, and as many
/// content bytes as it declares, or, if the record is marked as truncated and the buffer ends
/// before that, the bytes up to the end of the buffer.
pub proof fn lemma_record_content(s: Seq<u8>)
    requires
        spec_record(s) is Ok,
    ensures
        ({
            let (record, n) = spec_record(s)->Ok_0;
            &&& record.headers.contains_key(version_key())
            &&& record.headers.contains_key(length_key())
            &&& spec_content_length(record.headers[length_key()]) matches Some(declared) && {
                ||| record.content.len() == declared
                ||| record.headers.contains_key(truncated_key()) && record.content.len()
                    < declared && n == s.len()
            }
            &&& n <= s.len()
            &&& record.content == s.subrange(n - record.content.len(), n as int)
        }),
{
    lemma_warc_header_bounds(s);
    let (head, a) = spec_warc_header(s)->Ok_0;
    lemma_version_entry(head.0, head.1);
    let (record, n) = spec_record(s)->Ok_0;
    assert(record.content =~= s.subrange(n - record.content.len(), n as int));
}

/// A buffer whose first version line does not start with the literal `WARC/` is malformed:
/// no record and no list of records is parsed from it.
pub proof fn lemma_bad_magic_record(s: Seq<u8>, k: int)
    requires
        bad_magic_at(s, k),
    ensures
        spec_record(s) matches Err(
            Status::MalformedSyntax { element: SyntaxElement::VersionLine, location },
        ) && location < s.len(),
        spec_record_complete(s) == spec_record(s),
        spec_records(s) == Err::<Seq<RecordView>, Status>(spec_record(s)->Err_0),
{
    reveal(spec_record_complete);
    reveal(spec_records);
    lemma_bad_magic(s, k);
}

/// Writes the version and the headers of a record's head into a map.
fn collect_headers(version: &[u8], fields: &Vec<(&[u8], &[u8])>) -> (headers: Headers)
    requires
        all_in(version@, ByteClass::Version),
        fields_in_class(fields_of(fields@)),
    ensures
        headers@ == header_map(version@, fields_of(fields@)),
{
    let mut headers = Headers::new();
    headers.insert("WARCVERSION".to_owned(), ascii_string(version));
    assert(headers@ =~= map![version_key() => text(version@)]);
    let ghost base = headers@;
    let ghost all = fields_of(fields@);
    let mut i: usize = 0;
    while i < fields.len()
        invariant
            i <= fields@.len(),
            all == fields_of(fields@),
            fields_in_class(all),
            headers@ == spec_merge(base, all.take(i as int)),
        decreases fields@.len() - i,
    {
        let (name, value) = fields[i];
        proof {
            assert(all[i as int] == (name@, value@));
            assert(all_in(name@, ByteClass::Token) && all_in(value@, ByteClass::Value));
            assert(all.take(i + 1).drop_last() =~= all.take(i as int));
        }
        headers.insert(ascii_string(name), ascii_string(value));
        i += 1;
    }
    assert(all.take(i as int) =~= all);
    headers
}

/// Completes a record from its headers and the bytes that follow its head.
///
/// The length of the content is the number that the `Content-Length` header declares. When
/// that many bytes are not there, a record with a `WARC-Truncated` header (of any value)
/// takes what is there, and a record without one is incomplete. Returns the record and the
/// number of bytes of `body` that are its content.
pub fn assemble(headers: Headers, body: &[u8]) -> (r: Result<(Record, usize), ParseStatus>)
    ensures
        match r {
            Ok((record, used)) => is_ok(spec_assemble(headers@, body@), record@, used),
            Err(e) => is_err(spec_assemble(headers@, body@), e),
        },
{
    let declared = match headers.get("Content-Length") {
        None => {
            return Err(ParseStatus::MissingRequiredHeader { name: "Content-Length".to_owned() });
        },
        Some(value) => match content_length(value.as_str()) {
            None => {
                return Err(
                    ParseStatus::InvalidHeaderValue {
                        name: "Content-Length".to_owned(),
                        raw_value: value.clone(),
                    },
                );
            },
            Some(n) => n,
        },
    };
    let truncated = headers.get("WARC-Truncated").is_some();
    let taken = if truncated && declared > body.len() {
        body.len()
    } else {
        declared
    };
    if taken > body.len() {
        return Err(ParseStatus::Incomplete { needed: taken - body.len() });
    }
    let content = slice_to_vec(slice_subrange(body, 0, taken));
    Ok((Record { headers, content }, taken))
}

/// Parses the record at the start of `input` and returns it with the number of bytes that it
/// takes, the separator after it not included.
pub fn record_span(input: &[u8]) -> (r: Result<(Record, usize), ParseStatus>)
    ensures
        match r {
            Ok((record, used)) => is_ok(spec_record(input@), record@, used),
            Err(e) => is_err(spec_record(input@), e),
        },
{
    let (head, n) = match warc_header(input) {
        Ok(parsed) => parsed,
        Err(e) => {
            return Err(e);
        },
    };
    proof {
        lemma_warc_header_bounds(input@);
        lemma_warc_header_members(input@);
    }
    let headers = collect_headers(head.0, &head.1);
    match assemble(headers, slice_subrange(input, n, input.len())) {
        Ok((record, taken)) => Ok((record, n + taken)),
        Err(e) => Err(e),
    }
}

/// Parses the record at the start of `input` and returns it with the bytes that follow its
/// content. Those bytes start with the blank line that separates the record from the next.
pub fn record<'a>(input: &'a [u8]) -> (r: Result<(Record, &'a [u8]), ParseStatus>)
    ensures
        match r {
            Ok((record, rest)) => {
                &&& spec_record(input@) matches Ok((parsed, used))
                &&& parsed == record@
                &&& used <= input@.len()
                &&& rest@ == input@.skip(used as int)
            },
            Err(e) => is_err(spec_record(input@), e),
        },
{
    proof {
        lemma_record_complete_bounds(input@);
    }
    match record_span(input) {
        Ok((record, used)) => Ok((record, slice_subrange(input, used, input.len()))),
        Err(e) => Err(e),
    }
}

/// Parses the record at the start of `input` and the separator after it, and returns the
/// record with the number of bytes that both take.
pub fn record_complete(input: &[u8]) -> (r: Result<(Record, usize), ParseStatus>)
    ensures
        match r {
            Ok((record, used)) => is_ok(spec_record_complete(input@), record@, used),
            Err(e) => is_err(spec_record_complete(input@), e),
        },
{
    proof {
        reveal(spec_record_complete);
    }
    let (record, n) = match record_span(input) {
        Ok(parsed) => parsed,
        Err(e) => {
            return Err(e);
        },
    };
    match line_end(input, line_end(input, Cursor::At(n))) {
        Cursor::At(end) => Ok((record, end)),
        other => Err(other.fault(SyntaxElement::RecordTerminator)),
    }
}

/// A record and its separator take bytes of the input, and an error lies in the input.
pub proof fn lemma_record_complete_bounds(s: Seq<u8>)
    ensures
        spec_record(s) matches Ok((_, n)) ==> 9 <= n <= s.len(),
        spec_record(s) matches Err(Status::MalformedSyntax { location, .. }) ==> location
            < s.len(),
        spec_record_complete(s) matches Ok((_, n)) ==> 11 <= n <= s.len(),
        spec_record_complete(s) matches Err(Status::MalformedSyntax { location, .. })
            ==> location < s.len(),
{
    reveal(spec_record_complete);
    lemma_warc_header_bounds(s);
    if let Ok((_, n)) = spec_record(s) {
        let class = ByteClass::Blank;
        let a = spec_optional(s, Step::At(n), CR);
        lemma_element_bounds(s, Step::At(n), CR, class);
        let b = spec_required(s, a, LF);
        lemma_element_bounds(s, a, LF, class);
        let c = spec_optional(s, b, CR);
        lemma_element_bounds(s, b, CR, class);
        lemma_element_bounds(s, c, LF, class);
    }
}

/// Following in two steps is following the whole at once.
pub proof fn lemma_followed_followed(
    front: Seq<RecordView>,
    used: nat,
    middle: Seq<RecordView>,
    n: nat,
    tail: Result<Seq<RecordView>, Status>,
)
    ensures
        spec_followed(front, used, spec_followed(middle, n, tail)) == spec_followed(
            front + middle,
            used + n,
            tail,
        ),
{
    if let Ok(rest) = tail {
        assert(front + (middle + rest) =~= (front + middle) + rest);
    }
}

/// How the records of `s` follow from its first record.
pub proof fn lemma_records_unfold(s: Seq<u8>)
    ensures
        spec_records(s) == match spec_record_complete(s) {
            Err(e) => Err::<Seq<RecordView>, Status>(e),
            Ok((record, n)) => if n < s.len() {
                spec_followed(seq![record], n, spec_records(s.skip(n as int)))
            } else {
                Ok(seq![record])
            },
        },
{
    reveal(spec_records);
    lemma_record_complete_bounds(s);
}

/// A parsed buffer holds at least one record.
pub proof fn lemma_records_count(s: Seq<u8>)
    ensures
        spec_records(s) matches Ok(list) ==> list.len() >= 1,
{
    lemma_records_unfold(s);
}

/// Following nothing changes nothing.
pub proof fn lemma_followed_nothing(tail: Result<Seq<RecordView>, Status>)
    ensures
        spec_followed(Seq::empty(), 0, tail) == tail,
{
    if let Ok(rest) = tail {
        assert(Seq::<RecordView>::empty() + rest =~= rest);
    }
}

/// Parses a buffer that holds one or more records, each followed by its separator, and
/// nothing else. Returns the records in the order of the input, and the bytes that are left,
/// of which there are none: parsing stops cleanly only where the buffer ends after a record.
///
/// A record that the end of the buffer cuts off makes the whole buffer `Incomplete`; a record
/// that is malformed makes it an error whose location counts from the start of `input`.
pub fn records<'a>(input: &'a [u8]) -> (r: Result<(Vec<Record>, &'a [u8]), ParseStatus>)
    ensures
        match r {
            Ok((list, rest)) => {
                &&& spec_records(input@) == Ok::<Seq<RecordView>, Status>(views(list@))
                &&& list@.len() >= 1
                &&& rest@.len() == 0
            },
            Err(e) => spec_records(input@) == Err::<Seq<RecordView>, Status>(e@),
        },
{
    let mut list: Vec<Record> = Vec::new();
    let mut pos: usize = 0;
    proof {
        assert(input@.skip(0) =~= input@);
        assert(views(list@) =~= Seq::<RecordView>::empty());
        lemma_followed_nothing(spec_records(input@));
    }
    loop
        invariant
            pos <= input@.len(),
            spec_records(input@) == spec_followed(
                views(list@),
                pos as nat,
                spec_records(input@.skip(pos as int)),
            ),
        decreases input@.len() - pos,
    {
        let rest = slice_subrange(input, pos, input.len());
        proof {
            lemma_records_unfold(rest@);
            lemma_record_complete_bounds(rest@);
        }
        match record_complete(rest) {
            Err(e) => {
                return Err(e.shifted(pos));
            },
            Ok((record, used)) => {
                proof {
                    lemma_followed_followed(
                        views(list@),
                        pos as nat,
                        seq![record@],
                        used as nat,
                        spec_records(rest@.skip(used as int)),
                    );
                    assert(rest@.skip(used as int) =~= input@.skip(pos + used));
                    assert(views(list@.push(record)) =~= views(list@).push(record@));
                    assert(views(list@) + seq![record@] =~= views(list@).push(record@));
                }
                list.push(record);
                pos = pos + used;
                if pos == input.len() {
                    return Ok((list, slice_subrange(input, pos, input.len())));
                }
            },
        }
    }
}

} // verus!
