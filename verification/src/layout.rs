//! What a record looks like in an archive, said without the parser: the bytes of a record
//! written in the plain way, and the proof that the parser reads from them what was written.
//!
//! The parser accepts more than the plain way of writing: line ends without CR, blanks before
//! the colon, several blanks after it. What it makes of those is said by the grammars
//! themselves.

use vstd::prelude::*;
use crate::classes::{lemma_leading_run_is, leading_run, ByteClass};
use crate::elements::{
    spec_blanks, spec_optional, spec_required, spec_token, Step, CR, LF,
};
use crate::length::spec_content_length;
use crate::lines::{
    all_in, lemma_element_bounds, lemma_header_match_steps, lemma_init_line_steps, magic,
    spec_header_aggregator, spec_header_match, spec_init_line, spec_line_end, spec_magic,
    spec_more_headers, spec_warc_header, Field,
};
use crate::record::{
    header_map, length_key, spec_record, spec_record_complete, spec_records, RecordView,
};
use crate::status::Status;
use crate::streaming::{is_whole_record, lemma_concatenated_records, record_of};

verus! {

/// A record before it is written: the version of its version line, its headers in their
/// order, and its content.
pub ghost struct Draft {
    pub version: Seq<u8>,
    pub fields: Seq<Field>,
    pub content: Seq<u8>,
}

/// A line end: CR and LF.
pub open spec fn crlf() -> Seq<u8> {
    seq![CR, LF]
}

/// Whether `eol` is one of the two line ends that the grammar accepts: LF, or CR and LF.
pub open spec fn is_line_end(eol: Seq<u8>) -> bool {
    eol =~= seq![LF] || eol =~= crlf()
}

/// Whether `lead` is what may stand before a version line: nothing, or what is left of a
/// line end.
pub open spec fn is_lead(lead: Seq<u8>) -> bool {
    lead =~= Seq::empty() || lead =~= seq![CR] || is_line_end(lead)
}

/// A version line in its general form: what may stand before it, the literal `WARC/`, blanks,
/// the version, a line end.
pub open spec fn version_line_of(
    lead: Seq<u8>,
    pad: Seq<u8>,
    version: Seq<u8>,
    eol: Seq<u8>,
) -> Seq<u8> {
    lead + magic() + pad + version + eol
}

/// A header line in its general form: the name, blanks, a colon, blanks, the value, a line
/// end.
pub open spec fn header_line_of(
    name: Seq<u8>,
    before: Seq<u8>,
    after: Seq<u8>,
    value: Seq<u8>,
    eol: Seq<u8>,
) -> Seq<u8> {
    name + before + seq![0x3au8] + after + value + eol
}

/// Whether `line` is a version line of the version `version`.
pub open spec fn is_version_line(line: Seq<u8>, version: Seq<u8>) -> bool {
    &&& all_in(version, ByteClass::Version)
    &&& exists|lead: Seq<u8>, pad: Seq<u8>, eol: Seq<u8>|
        {
            &&& line == #[trigger] version_line_of(lead, pad, version, eol)
            &&& is_lead(lead)
            &&& all_in(pad, ByteClass::Blank)
            &&& is_line_end(eol)
        }
}

/// Whether `line` is a header line of the header `field`.
pub open spec fn is_header_line(line: Seq<u8>, field: Field) -> bool {
    &&& field_fits(field)
    &&& exists|before: Seq<u8>, after: Seq<u8>, eol: Seq<u8>|
        {
            &&& line == #[trigger] header_line_of(field.0, before, after, field.1, eol)
            &&& all_in(before, ByteClass::Blank)
            &&& all_in(after, ByteClass::Blank)
            &&& is_line_end(eol)
        }
}

/// Whether a header can stand on a line and be read from it: its name holds token bytes only,
/// its value printable ASCII only, and the value does not start with a space, which would
/// count as one of the blanks after the colon.
pub open spec fn field_fits(field: Field) -> bool {
    &&& all_in(field.0, ByteClass::Token)
    &&& all_in(field.1, ByteClass::Value)
    &&& field.1.len() > 0 ==> field.1[0] != 0x20
}

/// The version line of the version `version`, written in the plain way.
pub open spec fn version_line(version: Seq<u8>) -> Seq<u8> {
    version_line_of(Seq::empty(), Seq::empty(), version, crlf())
}

/// The line of one header, written in the plain way: its name, a colon, a space, its value.
pub open spec fn header_line(field: Field) -> Seq<u8> {
    header_line_of(field.0, Seq::empty(), seq![0x20u8], field.1, crlf())
}

/// The lines of the headers `fields`, in their order.
pub open spec fn header_lines(fields: Seq<Field>) -> Seq<u8>
    decreases fields.len(),
{
    if fields.len() == 0 {
        Seq::empty()
    } else {
        header_line(fields.first()) + header_lines(fields.drop_first())
    }
}

/// The head of a record: version line, header lines, blank line.
pub open spec fn head(version: Seq<u8>, fields: Seq<Field>) -> Seq<u8> {
    version_line(version) + header_lines(fields) + crlf()
}

impl Draft {
    /// The bytes of the record in an archive: its head, its content, and the blank line that
    /// separates it from the next record.
    pub open spec fn written(self) -> Seq<u8> {
        head(self.version, self.fields) + self.content + crlf() + crlf()
    }

    /// What a reader of the record holds.
    pub open spec fn as_read(self) -> RecordView {
        RecordView { headers: header_map(self.version, self.fields), content: self.content }
    }

    /// Whether the record can be written so that it can be read again: the version holds
    /// digits and dots only, there is at least one header, every header fits on a line, and
    /// the `Content-Length` header declares the length of the content.
    pub open spec fn well_formed(self) -> bool {
        &&& all_in(self.version, ByteClass::Version)
        &&& self.fields.len() > 0
        &&& forall|i: int| 0 <= i < self.fields.len() ==> field_fits(#[trigger] self.fields[i])
        &&& header_map(self.version, self.fields).contains_key(length_key())
        &&& spec_content_length(header_map(self.version, self.fields)[length_key()]) == Some(
            self.content.len(),
        )
    }
}

/// A token that stands at `i` in `s`, followed by a byte of another class, is what the
/// token element takes there, and what the blanks element takes if the class is that of
/// blanks.
pub proof fn lemma_token_at(s: Seq<u8>, i: int, part: Seq<u8>, class: ByteClass)
    requires
        0 <= i,
        i + part.len() < s.len(),
        s.subrange(i, i + part.len()) =~= part,
        all_in(part, class),
        !class.contains(s[i + part.len()]),
    ensures
        leading_run(s.skip(i), class) == part.len(),
        spec_token(s, Step::At(i as nat), class) == Step::At((i + part.len()) as nat),
        class == ByteClass::Blank ==> spec_blanks(s, Step::At(i as nat)) == Step::At(
            (i + part.len()) as nat,
        ),
{
    let rest = s.skip(i);
    assert forall|k: int| 0 <= k < part.len() implies class.contains(#[trigger] rest[k]) by {
        assert(rest[k] == s.subrange(i, i + part.len())[k]);
    }
    lemma_leading_run_is(rest, class, part.len());
}

/// A line end that stands at `i` in `s` is what the line end takes there.
pub proof fn lemma_line_end_at(s: Seq<u8>, i: int, eol: Seq<u8>)
    requires
        0 <= i,
        i + eol.len() <= s.len(),
        s.subrange(i, i + eol.len()) =~= eol,
        is_line_end(eol),
    ensures
        spec_line_end(s, Step::At(i as nat)) == Step::At((i + eol.len()) as nat),
{
    assert(s[i] == eol[0]);
    if eol.len() == 2 {
        assert(s[i + 1] == eol[1]);
    }
}

/// Every version line is read as its version, whatever follows it.
pub proof fn lemma_version_line_accepted(
    lead: Seq<u8>,
    pad: Seq<u8>,
    version: Seq<u8>,
    eol: Seq<u8>,
    rest: Seq<u8>,
)
    requires
        is_lead(lead),
        all_in(pad, ByteClass::Blank),
        all_in(version, ByteClass::Version),
        is_line_end(eol),
    ensures
        spec_init_line(version_line_of(lead, pad, version, eol) + rest) == Ok::<
            (Seq<u8>, nat),
            Status,
        >((version, version_line_of(lead, pad, version, eol).len())),
{
    reveal(spec_init_line);
    let s = version_line_of(lead, pad, version, eol) + rest;
    let l = lead.len() as int;
    let p = pad.len() as int;
    let n = version.len() as int;
    assert(s[l] == 0x57 && s[l + 1] == 0x41 && s[l + 2] == 0x52 && s[l + 3] == 0x43 && s[l + 4]
        == 0x2f) by {
        assert(magic().len() == 5);
        assert(s[l] == magic()[0]);
        assert(s[l + 1] == magic()[1]);
        assert(s[l + 2] == magic()[2]);
        assert(s[l + 3] == magic()[3]);
        assert(s[l + 4] == magic()[4]);
    }
    if l > 0 {
        assert(s[0] == lead[0]);
    }
    if l > 1 {
        assert(s[1] == lead[1]);
    }
    let cr = spec_optional(s, Step::At(0), CR);
    let lf = spec_optional(s, cr, LF);
    assert(lf == Step::At(l as nat));
    assert(spec_magic(s, lf) == Step::At((l + 5) as nat));
    assert(s.subrange(l + 5, l + 5 + p) =~= pad);
    assert(s.subrange(l + 5 + p, l + 5 + p + n) =~= version);
    assert(s.subrange(l + 5 + p + n, l + 5 + p + n + eol.len()) =~= eol);
    assert(s[l + 5 + p + n] == eol[0]);
    if n > 0 {
        assert(s[l + 5 + p] == version[0]);
    }
    lemma_token_at(s, l + 5, pad, ByteClass::Blank);
    lemma_token_at(s, l + 5 + p, version, ByteClass::Version);
    lemma_line_end_at(s, l + 5 + p + n, eol);
}

/// What is read as a version line is a version line.
pub proof fn lemma_version_line_shape(s: Seq<u8>)
    requires
        spec_init_line(s) is Ok,
    ensures
        is_version_line(s.take(spec_init_line(s)->Ok_0.1 as int), spec_init_line(s)->Ok_0.0),
{
    reveal(spec_init_line);
    lemma_init_line_steps(s);
    crate::lines::lemma_init_line_members(s);
    let class = ByteClass::Version;
    let cr = spec_optional(s, Step::At(0), CR);
    let lf = spec_optional(s, cr, LF);
    let w = spec_required(s, lf, 0x57);
    let a = spec_required(s, w, 0x41);
    let r = spec_required(s, a, 0x52);
    let c = spec_required(s, r, 0x43);
    let slash = spec_required(s, c, 0x2f);
    let start = spec_blanks(s, slash);
    let stop = spec_token(s, start, class);
    let end_cr = spec_optional(s, stop, CR);
    let end = spec_required(s, end_cr, LF);
    lemma_element_bounds(s, Step::At(0), CR, class);
    lemma_element_bounds(s, cr, LF, class);
    lemma_element_bounds(s, lf, 0x57, class);
    lemma_element_bounds(s, w, 0x41, class);
    lemma_element_bounds(s, a, 0x52, class);
    lemma_element_bounds(s, r, 0x43, class);
    lemma_element_bounds(s, c, 0x2f, class);
    lemma_element_bounds(s, slash, 0, class);
    lemma_element_bounds(s, start, 0, class);
    lemma_element_bounds(s, stop, CR, class);
    lemma_element_bounds(s, end_cr, LF, class);
    let (version, n) = spec_init_line(s)->Ok_0;
    let l = lf.offset() as int;
    let lead = s.subrange(0, l);
    let pad = s.subrange(l + 5, start.offset() as int);
    let eol = s.subrange(stop.offset() as int, n as int);
    assert(all_in(pad, ByteClass::Blank)) by {
        crate::classes::lemma_leading_run(s.skip(l + 5), ByteClass::Blank);
        assert forall|k: int| 0 <= k < pad.len() implies ByteClass::Blank.contains(
            #[trigger] pad[k],
        ) by {
            assert(pad[k] == s.skip(l + 5)[k]);
        }
    }
    assert(s.subrange(l, l + 5) =~= magic());
    assert(s.take(n as int) =~= version_line_of(lead, pad, version, eol));
}

/// Every header line is read as its header, whatever follows it.
pub proof fn lemma_header_line_accepted(
    field: Field,
    before: Seq<u8>,
    after: Seq<u8>,
    eol: Seq<u8>,
    rest: Seq<u8>,
)
    requires
        field_fits(field),
        all_in(before, ByteClass::Blank),
        all_in(after, ByteClass::Blank),
        is_line_end(eol),
    ensures
        spec_header_match(header_line_of(field.0, before, after, field.1, eol) + rest) == Ok::<
            (Field, nat),
            Status,
        >((field, header_line_of(field.0, before, after, field.1, eol).len())),
{
    reveal(spec_header_match);
    let (name, value) = field;
    let s = header_line_of(name, before, after, value, eol) + rest;
    let a = name.len() as int;
    let p = before.len() as int;
    let q = after.len() as int;
    let b = value.len() as int;
    assert(s[a + p] == 0x3a);
    assert(s.subrange(0, a) =~= name);
    assert(s.subrange(a, a + p) =~= before);
    assert(s.subrange(a + p + 1, a + p + 1 + q) =~= after);
    assert(s.subrange(a + p + 1 + q, a + p + 1 + q + b) =~= value);
    assert(s.subrange(a + p + 1 + q + b, a + p + 1 + q + b + eol.len()) =~= eol);
    assert(s[a + p + 1 + q + b] == eol[0]);
    if b > 0 {
        assert(s[a + p + 1 + q] == value[0]);
    }
    if p > 0 {
        assert(s[a] == before[0]);
    }
    lemma_token_at(s, 0, name, ByteClass::Token);
    lemma_token_at(s, a, before, ByteClass::Blank);
    lemma_token_at(s, a + p + 1, after, ByteClass::Blank);
    lemma_token_at(s, a + p + 1 + q, value, ByteClass::Value);
    lemma_line_end_at(s, a + p + 1 + q + b, eol);
    assert(s.skip(0) =~= s);
}

/// What is read as a header line is a header line.
pub proof fn lemma_header_line_shape(s: Seq<u8>)
    requires
        spec_header_match(s) is Ok,
    ensures
        is_header_line(s.take(spec_header_match(s)->Ok_0.1 as int), spec_header_match(s)->Ok_0.0),
{
    reveal(spec_header_match);
    lemma_header_match_steps(s);
    crate::lines::lemma_header_match_members(s);
    let class = ByteClass::Value;
    let name_end = spec_token(s, Step::At(0), ByteClass::Token);
    let pre = spec_blanks(s, name_end);
    let colon = spec_required(s, pre, 0x3a);
    let start = spec_blanks(s, colon);
    let stop = spec_token(s, start, class);
    let end_cr = spec_optional(s, stop, CR);
    lemma_element_bounds(s, Step::At(0), 0, ByteClass::Token);
    lemma_element_bounds(s, name_end, 0, class);
    lemma_element_bounds(s, pre, 0x3a, class);
    lemma_element_bounds(s, colon, 0, class);
    lemma_element_bounds(s, start, 0, class);
    lemma_element_bounds(s, stop, CR, class);
    lemma_element_bounds(s, end_cr, LF, class);
    let (field, n) = spec_header_match(s)->Ok_0;
    let a = name_end.offset() as int;
    let c = colon.offset() as int;
    let from = start.offset() as int;
    let before = s.subrange(a, c - 1);
    let after = s.subrange(c, from);
    let eol = s.subrange(stop.offset() as int, n as int);
    crate::classes::lemma_leading_run(s.skip(a), ByteClass::Blank);
    crate::classes::lemma_leading_run(s.skip(c), ByteClass::Blank);
    assert(all_in(before, ByteClass::Blank)) by {
        assert forall|k: int| 0 <= k < before.len() implies ByteClass::Blank.contains(
            #[trigger] before[k],
        ) by {
            assert(before[k] == s.skip(a)[k]);
        }
    }
    assert(all_in(after, ByteClass::Blank)) by {
        assert forall|k: int| 0 <= k < after.len() implies ByteClass::Blank.contains(
            #[trigger] after[k],
        ) by {
            assert(after[k] == s.skip(c)[k]);
        }
    }
    if field.1.len() > 0 {
        assert(field.1[0] == s[from]);
        if from < s.len() {
            assert(s[from] == s.skip(c)[from - c]);
        }
    }
    assert(s.take(n as int) =~= header_line_of(field.0, before, after, field.1, eol));
}

/// A version line written in the plain way is read as its version.
pub proof fn lemma_version_line_parses(version: Seq<u8>, rest: Seq<u8>)
    requires
        all_in(version, ByteClass::Version),
    ensures
        spec_init_line(version_line(version) + rest) == Ok::<(Seq<u8>, nat), Status>(
            (version, version_line(version).len()),
        ),
{
    lemma_version_line_accepted(Seq::empty(), Seq::empty(), version, crlf(), rest);
}

/// A header line written in the plain way is read as its header.
pub proof fn lemma_header_line_parses(field: Field, rest: Seq<u8>)
    requires
        field_fits(field),
    ensures
        spec_header_match(header_line(field) + rest) == Ok::<(Field, nat), Status>(
            (field, header_line(field).len()),
        ),
{
    lemma_header_line_accepted(field, Seq::empty(), seq![0x20u8], crlf(), rest);
}

/// A line end is no header line.
pub proof fn lemma_line_end_is_no_header(s: Seq<u8>)
    requires
        s.len() > 0,
        s[0] == CR,
    ensures
        spec_header_match(s) matches Err(Status::MalformedSyntax { .. }),
{
    reveal(spec_header_match);
    lemma_token_at(s, 0, Seq::empty(), ByteClass::Token);
    lemma_token_at(s, 0, Seq::empty(), ByteClass::Blank);
    assert(s.skip(0) =~= s);
}

/// Header lines that are followed by a line end are read as their headers.
pub proof fn lemma_header_lines_parse(fields: Seq<Field>, rest: Seq<u8>)
    requires
        forall|i: int| 0 <= i < fields.len() ==> field_fits(#[trigger] fields[i]),
        rest.len() > 0,
        rest[0] == CR,
    ensures
        spec_more_headers(header_lines(fields) + rest) == Ok::<(Seq<Field>, nat), Status>(
            (fields, header_lines(fields).len()),
        ),
    decreases fields.len(),
{
    let s = header_lines(fields) + rest;
    crate::lines::lemma_more_headers_unfold(s);
    if fields.len() == 0 {
        assert(s =~= rest);
        lemma_line_end_is_no_header(s);
        assert(fields =~= Seq::<Field>::empty());
    } else {
        let first = fields.first();
        let others = fields.drop_first();
        let tail = header_lines(others) + rest;
        assert(field_fits(first));
        assert forall|i: int| 0 <= i < others.len() implies field_fits(#[trigger] others[i]) by {
            assert(others[i] == fields[i + 1]);
        }
        assert(s =~= header_line(first) + tail);
        lemma_header_line_parses(first, tail);
        lemma_header_lines_parse(others, rest);
        let n = header_line(first).len();
        assert(s.skip(n as int) =~= tail);
        assert(seq![first] + others =~= fields);
    }
}

/// The head of a record is read as its version and its headers.
pub proof fn lemma_head_parses(version: Seq<u8>, fields: Seq<Field>, rest: Seq<u8>)
    requires
        all_in(version, ByteClass::Version),
        fields.len() > 0,
        forall|i: int| 0 <= i < fields.len() ==> field_fits(#[trigger] fields[i]),
    ensures
        spec_warc_header(head(version, fields) + rest) == Ok::<
            ((Seq<u8>, Seq<Field>), nat),
            Status,
        >(((version, fields), head(version, fields).len())),
{
    reveal(spec_warc_header);
    let s = head(version, fields) + rest;
    let after_version = header_lines(fields) + crlf() + rest;
    assert(s =~= version_line(version) + after_version);
    lemma_version_line_parses(version, after_version);
    let a = version_line(version).len() as int;
    assert(s.skip(a) =~= after_version);
    let first = fields.first();
    let others = fields.drop_first();
    let after_first = header_lines(others) + (crlf() + rest);
    assert(after_version =~= header_line(first) + after_first);
    assert(field_fits(first));
    lemma_header_line_parses(first, after_first);
    assert forall|i: int| 0 <= i < others.len() implies field_fits(#[trigger] others[i]) by {
        assert(others[i] == fields[i + 1]);
    }
    lemma_header_lines_parse(others, crlf() + rest);
    let n = header_line(first).len();
    assert(after_version.skip(n as int) =~= after_first);
    assert(seq![first] + others =~= fields);
    let b = header_lines(fields).len() as int;
    assert(spec_header_aggregator(after_version) == Ok::<(Seq<Field>, nat), Status>(
        (fields, b as nat),
    ));
    assert(s[a + b] == CR && s[a + b + 1] == LF);
}

/// A written record is read as what was written, whatever follows it in the buffer.
pub proof fn lemma_written_record_parses(draft: Draft, rest: Seq<u8>)
    requires
        draft.well_formed(),
    ensures
        spec_record_complete(draft.written() + rest) == Ok::<(RecordView, nat), Status>(
            (draft.as_read(), draft.written().len()),
        ),
{
    reveal(spec_record_complete);
    let s = draft.written() + rest;
    let h = head(draft.version, draft.fields);
    let body = draft.content + crlf() + crlf() + rest;
    assert(s =~= h + body);
    lemma_head_parses(draft.version, draft.fields, body);
    let n = h.len() as int;
    let m = draft.content.len() as int;
    assert(s.skip(n) =~= body);
    assert(body.take(m) =~= draft.content);
    assert(s[n + m] == CR && s[n + m + 1] == LF && s[n + m + 2] == CR && s[n + m + 3] == LF);
}

/// A written record is exactly one record and its separator.
pub proof fn lemma_written_record_is_whole(draft: Draft)
    requires
        draft.well_formed(),
    ensures
        is_whole_record(draft.written()),
        record_of(draft.written()) == draft.as_read(),
{
    lemma_written_record_parses(draft, Seq::empty());
    assert(draft.written() + Seq::<u8>::empty() =~= draft.written());
}

/// The records that drafts are read as.
pub open spec fn all_as_read(drafts: Seq<Draft>) -> Seq<RecordView> {
    Seq::new(drafts.len(), |i: int| drafts[i].as_read())
}

/// The bytes of an archive that holds the records `drafts`, in their order.
pub open spec fn archive(drafts: Seq<Draft>) -> Seq<u8> {
    Seq::new(drafts.len(), |i: int| drafts[i].written()).flatten()
}

/// An archive of one or more well-formed records is read as exactly those records, in
/// their order, each with the content that its `Content-Length` header declares.
pub proof fn lemma_archive_parses(drafts: Seq<Draft>)
    requires
        drafts.len() > 0,
        forall|i: int| 0 <= i < drafts.len() ==> (#[trigger] drafts[i]).well_formed(),
    ensures
        spec_records(archive(drafts)) == Ok::<Seq<RecordView>, Status>(all_as_read(drafts)),
{
    let chunks = Seq::new(drafts.len(), |i: int| drafts[i].written());
    assert forall|i: int| 0 <= i < chunks.len() implies is_whole_record(#[trigger] chunks[i]) by {
        lemma_written_record_is_whole(drafts[i]);
    }
    lemma_concatenated_records(chunks);
    assert(Seq::new(chunks.len(), |i: int| record_of(chunks[i])) =~= all_as_read(drafts)) by {
        assert forall|i: int| 0 <= i < chunks.len() implies record_of(chunks[i])
            == drafts[i].as_read() by {
            lemma_written_record_is_whole(drafts[i]);
        }
    }
}

} // verus!
