//! Parsing a buffer that grows.
//!
//! A caller that gets `Incomplete` appends bytes and parses again. That is sound because every
//! other answer is final: once a grammar has a value or found an error in a buffer, it gives
//! the same answer on every extension of that buffer. The proofs of this are here, first for
//! the elements of a line, then for each grammar.

use vstd::prelude::*;
use crate::classes::{lemma_leading_run, lemma_leading_run_is, leading_run, ByteClass};
use crate::elements::{spec_blanks, spec_optional, spec_required, spec_token, Step, CR, LF};
use crate::length::spec_content_length;
use crate::lines::{
    lemma_element_bounds, lemma_header_aggregator_bounds, lemma_header_match_steps,
    lemma_init_line_steps, lemma_warc_header_bounds, spec_header_aggregator, spec_header_match,
    spec_init_line, spec_line_end, spec_magic, spec_more_headers, spec_value_start,
    spec_version_start, spec_warc_header,
};
use crate::record::{
    header_map, lemma_followed_followed, lemma_record_complete_bounds, lemma_record_content,
    lemma_records_unfold, length_key, spec_assemble, spec_followed, spec_record,
    spec_record_complete, spec_records, truncated_key, RecordView,
};
use crate::status::{wants_more, Status};

verus! {

/// A token that ends inside a buffer is the same token in every extension of the buffer.
pub proof fn lemma_run_extension(t: Seq<u8>, s: Seq<u8>, i: nat, class: ByteClass)
    requires
        t.is_prefix_of(s),
        i <= t.len(),
        i + leading_run(t.skip(i as int), class) < t.len(),
    ensures
        leading_run(s.skip(i as int), class) == leading_run(t.skip(i as int), class),
{
    let short = t.skip(i as int);
    let long = s.skip(i as int);
    let n = leading_run(short, class);
    lemma_leading_run(short, class);
    assert forall|k: int| 0 <= k < n implies class.contains(#[trigger] long[k]) by {
        assert(long[k] == s[i + k]);
        assert(short[k] == t[i + k]);
        assert(t[i + k] == s.subrange(0, t.len() as int)[i + k]);
    }
    assert(long[n as int] == short[n as int]) by {
        assert(t[(i + n) as int] == s.subrange(0, t.len() as int)[(i + n) as int]);
    }
    lemma_leading_run_is(long, class, n);
}

/// What an element answers on a buffer, unless it asks for more data, it answers on every
/// extension of the buffer. Blanks never ask for more data: they give the same answer, or
/// stand at the end of the buffer, where the element after them asks.
pub proof fn lemma_element_extension(t: Seq<u8>, s: Seq<u8>, st: Step, b: u8, class: ByteClass)
    requires
        t.is_prefix_of(s),
        st matches Step::At(i) ==> i <= t.len(),
    ensures
        spec_optional(t, st, b) != Step::Incomplete ==> spec_optional(s, st, b) == spec_optional(
            t,
            st,
            b,
        ),
        spec_required(t, st, b) != Step::Incomplete ==> spec_required(s, st, b) == spec_required(
            t,
            st,
            b,
        ),
        spec_token(t, st, class) != Step::Incomplete ==> spec_token(s, st, class) == spec_token(
            t,
            st,
            class,
        ),
        spec_blanks(t, st) == spec_blanks(s, st) || spec_blanks(t, st) == Step::At(t.len()),
{
    if let Step::At(i) = st {
        if i < t.len() {
            assert(t[i as int] == s.subrange(0, t.len() as int)[i as int]);
            lemma_leading_run(t.skip(i as int), ByteClass::Blank);
            lemma_leading_run(t.skip(i as int), class);
            if i + leading_run(t.skip(i as int), class) < t.len() {
                lemma_run_extension(t, s, i, class);
            }
            if i + leading_run(t.skip(i as int), ByteClass::Blank) < t.len() {
                lemma_run_extension(t, s, i, ByteClass::Blank);
            }
        } else {
            lemma_leading_run(t.skip(i as int), class);
        }
    }
}

/// The end of a line that a buffer holds is the same in every extension of the buffer.
pub proof fn lemma_line_end_extension(t: Seq<u8>, s: Seq<u8>, st: Step)
    requires
        t.is_prefix_of(s),
        st matches Step::At(i) ==> i <= t.len(),
    ensures
        spec_line_end(t, st) != Step::Incomplete ==> spec_line_end(s, st) == spec_line_end(t, st),
{
    lemma_element_extension(t, s, st, CR, ByteClass::Blank);
    lemma_element_bounds(t, st, CR, ByteClass::Blank);
    lemma_element_extension(t, s, spec_optional(t, st, CR), LF, ByteClass::Blank);
}

/// A version line that a buffer holds, or an error in it, is the same in every extension of
/// the buffer.
pub proof fn lemma_init_line_extension(t: Seq<u8>, s: Seq<u8>)
    requires
        t.is_prefix_of(s),
    ensures
        !wants_more(spec_init_line(t)) ==> spec_init_line(s) == spec_init_line(t),
{
    reveal(spec_init_line);
    let class = ByteClass::Version;
    let start = Step::At(0);
    lemma_element_extension(t, s, start, CR, class);
    lemma_element_bounds(t, start, CR, class);
    let cr = spec_optional(t, start, CR);
    lemma_element_extension(t, s, cr, LF, class);
    lemma_element_bounds(t, cr, LF, class);
    let lf = spec_optional(t, cr, LF);
    lemma_element_extension(t, s, lf, 0x57, class);
    lemma_element_bounds(t, lf, 0x57, class);
    let w = spec_required(t, lf, 0x57);
    lemma_element_extension(t, s, w, 0x41, class);
    lemma_element_bounds(t, w, 0x41, class);
    let a = spec_required(t, w, 0x41);
    lemma_element_extension(t, s, a, 0x52, class);
    lemma_element_bounds(t, a, 0x52, class);
    let r = spec_required(t, a, 0x52);
    lemma_element_extension(t, s, r, 0x43, class);
    lemma_element_bounds(t, r, 0x43, class);
    let c = spec_required(t, r, 0x43);
    lemma_element_extension(t, s, c, 0x2f, class);
    lemma_element_bounds(t, c, 0x2f, class);
    let slash = spec_required(t, c, 0x2f);
    assert(slash == spec_magic(t, lf));
    lemma_element_extension(t, s, slash, 0, class);
    lemma_element_bounds(t, slash, 0, class);
    let from = spec_blanks(t, slash);
    lemma_element_extension(t, s, from, 0, class);
    lemma_element_bounds(t, from, 0, class);
    let to = spec_token(t, from, class);
    lemma_line_end_extension(t, s, to);
    if !wants_more(spec_init_line(t)) {
        assert(spec_magic(s, spec_optional(s, spec_optional(s, start, CR), LF)) == slash);
        assert(spec_version_start(s) == from);
        assert(spec_token(s, from, class) == to);
        if spec_line_end(t, to) is At {
            assert(s.subrange(from.offset() as int, to.offset() as int) =~= t.subrange(
                from.offset() as int,
                to.offset() as int,
            ));
        }
    }
}

/// A header line that a buffer holds, or an error in it, is the same in every extension of
/// the buffer.
pub proof fn lemma_header_match_extension(t: Seq<u8>, s: Seq<u8>)
    requires
        t.is_prefix_of(s),
    ensures
        !wants_more(spec_header_match(t)) ==> spec_header_match(s) == spec_header_match(t),
{
    reveal(spec_header_match);
    let class = ByteClass::Value;
    let start = Step::At(0);
    lemma_element_extension(t, s, start, 0, ByteClass::Token);
    lemma_element_bounds(t, start, 0, ByteClass::Token);
    let name = spec_token(t, start, ByteClass::Token);
    lemma_element_extension(t, s, name, 0, class);
    lemma_element_bounds(t, name, 0, class);
    let pre = spec_blanks(t, name);
    lemma_element_extension(t, s, pre, 0x3a, class);
    lemma_element_bounds(t, pre, 0x3a, class);
    let colon = spec_required(t, pre, 0x3a);
    lemma_element_extension(t, s, colon, 0, class);
    lemma_element_bounds(t, colon, 0, class);
    let from = spec_blanks(t, colon);
    lemma_element_extension(t, s, from, 0, class);
    lemma_element_bounds(t, from, 0, class);
    let to = spec_token(t, from, class);
    lemma_line_end_extension(t, s, to);
    if !wants_more(spec_header_match(t)) {
        assert(spec_token(s, start, ByteClass::Token) == name);
        assert(spec_value_start(s) == from);
        assert(spec_token(s, from, class) == to);
        if spec_line_end(t, to) is At {
            assert(s.subrange(0, name.offset() as int) =~= t.subrange(0, name.offset() as int));
            assert(s.subrange(from.offset() as int, to.offset() as int) =~= t.subrange(
                from.offset() as int,
                to.offset() as int,
            ));
        }
    }
}

/// What is left of a prefix after `n` bytes is a prefix of what is left of the whole.
pub proof fn lemma_prefix_skip(t: Seq<u8>, s: Seq<u8>, n: nat)
    requires
        t.is_prefix_of(s),
        n <= t.len(),
    ensures
        t.skip(n as int).is_prefix_of(s.skip(n as int)),
{
    let short = t.skip(n as int);
    let long = s.skip(n as int);
    assert forall|k: int| 0 <= k < short.len() implies short[k] == long.subrange(
        0,
        short.len() as int,
    )[k] by {
        assert(t[n + k] == s.subrange(0, t.len() as int)[n + k]);
    }
    assert(short =~= long.subrange(0, short.len() as int));
}

/// The header lines that a buffer holds are the same in every extension of the buffer.
pub proof fn lemma_more_headers_extension(t: Seq<u8>, s: Seq<u8>)
    requires
        t.is_prefix_of(s),
    ensures
        !wants_more(spec_more_headers(t)) ==> spec_more_headers(s) == spec_more_headers(t),
    decreases t.len(),
{
    lemma_header_match_extension(t, s);
    lemma_header_match_steps(t);
    if let Ok((field, n)) = spec_header_match(t) {
        lemma_prefix_skip(t, s, n);
        lemma_more_headers_extension(t.skip(n as int), s.skip(n as int));
    }
}

/// The header block that a buffer holds, or an error in it, is the same in every extension of
/// the buffer.
pub proof fn lemma_header_aggregator_extension(t: Seq<u8>, s: Seq<u8>)
    requires
        t.is_prefix_of(s),
    ensures
        !wants_more(spec_header_aggregator(t)) ==> spec_header_aggregator(s)
            == spec_header_aggregator(t),
{
    lemma_header_match_extension(t, s);
    lemma_header_match_steps(t);
    if let Ok((field, n)) = spec_header_match(t) {
        lemma_prefix_skip(t, s, n);
        lemma_more_headers_extension(t.skip(n as int), s.skip(n as int));
    }
}

/// The head of a record that a buffer holds, or an error in it, is the same in every
/// extension of the buffer.
pub proof fn lemma_warc_header_extension(t: Seq<u8>, s: Seq<u8>)
    requires
        t.is_prefix_of(s),
    ensures
        !wants_more(spec_warc_header(t)) ==> spec_warc_header(s) == spec_warc_header(t),
{
    reveal(spec_warc_header);
    lemma_init_line_extension(t, s);
    lemma_init_line_steps(t);
    if let Ok((version, a)) = spec_init_line(t) {
        lemma_prefix_skip(t, s, a);
        lemma_header_aggregator_extension(t.skip(a as int), s.skip(a as int));
        lemma_header_aggregator_bounds(t.skip(a as int));
        if let Ok((fields, b)) = spec_header_aggregator(t.skip(a as int)) {
            lemma_line_end_extension(t, s, Step::At(a + b));
        }
    }
}

/// How the record assembled from a body relates to the record assembled from more of the
/// same body, the headers being the same. An error is the same error. A record whose content
/// ends inside the shorter body is the same record. Otherwise the shorter body gives a record
/// only if the headers mark it as truncated, and then a record with less content.
pub proof fn lemma_assemble_extension(
    headers: Map<Seq<char>, Seq<char>>,
    short: Seq<u8>,
    long: Seq<u8>,
)
    requires
        short.is_prefix_of(long),
    ensures
        spec_assemble(headers, short) matches Err(e) && !(e is Incomplete) ==> spec_assemble(
            headers,
            long,
        ) == spec_assemble(headers, short),
        spec_assemble(headers, short) matches Ok((_, taken)) && taken < short.len()
            ==> spec_assemble(headers, long) == spec_assemble(headers, short),
        spec_assemble(headers, short) matches Ok((cut, taken)) ==> {
            &&& spec_assemble(headers, long) matches Ok((whole, more))
            &&& taken <= more
            &&& cut.headers == whole.headers
            &&& cut.content.is_prefix_of(whole.content)
            &&& taken < more ==> headers.contains_key(truncated_key()) && taken == short.len()
        },
{
    if let Ok((cut, taken)) = spec_assemble(headers, short) {
        let (whole, more) = spec_assemble(headers, long)->Ok_0;
        assert forall|k: int| 0 <= k < taken implies short[k] == long[k] by {
            assert(short[k] == long.subrange(0, short.len() as int)[k]);
        }
        assert(cut.content =~= whole.content.subrange(0, taken as int));
        if taken == more {
            assert(cut.content =~= whole.content);
        }
    }
}

/// A record that ends inside a buffer, or an error in a record, is the same in every
/// extension of the buffer. A record that ends with the buffer is left out: a record that is
/// marked as truncated takes what is there, and more when there is more.
pub proof fn lemma_record_extension(t: Seq<u8>, s: Seq<u8>)
    requires
        t.is_prefix_of(s),
    ensures
        spec_record(t) matches Err(e) && !(e is Incomplete) ==> spec_record(s) == spec_record(
            t,
        ),
        spec_record(t) matches Ok((_, n)) && n < t.len() ==> spec_record(s) == spec_record(t),
{
    lemma_warc_header_extension(t, s);
    lemma_warc_header_bounds(t);
    if let Ok((head, n)) = spec_warc_header(t) {
        lemma_prefix_skip(t, s, n);
        lemma_assemble_extension(header_map(head.0, head.1), t.skip(n as int), s.skip(n as int));
    }
}

/// A record with its separator, or an error in them, is the same in every extension of the
/// buffer that holds it.
pub proof fn lemma_record_complete_extension(t: Seq<u8>, s: Seq<u8>)
    requires
        t.is_prefix_of(s),
    ensures
        !wants_more(spec_record_complete(t)) ==> spec_record_complete(s)
            == spec_record_complete(t),
{
    reveal(spec_record_complete);
    lemma_record_extension(t, s);
    lemma_record_complete_bounds(t);
    if let Ok((record, n)) = spec_record(t) {
        if n < t.len() {
            lemma_line_end_extension(t, s, Step::At(n));
            let first = spec_line_end(t, Step::At(n));
            lemma_element_bounds(t, Step::At(n), CR, ByteClass::Blank);
            lemma_element_bounds(t, spec_optional(t, Step::At(n), CR), LF, ByteClass::Blank);
            lemma_line_end_extension(t, s, first);
        }
    }
}

/// Bytes appended to a buffer of whole records are parsed as records of their own: the
/// records of the buffer stay, and those of the appended bytes follow them.
pub proof fn lemma_records_append(t: Seq<u8>, more: Seq<u8>)
    requires
        spec_records(t) is Ok,
        more.len() > 0,
    ensures
        spec_records(t + more) == spec_followed(spec_records(t)->Ok_0, t.len(), spec_records(more)),
    decreases t.len(),
{
    let s = t + more;
    assert(t.is_prefix_of(s)) by {
        assert(s.subrange(0, t.len() as int) =~= t);
    }
    lemma_records_unfold(t);
    lemma_records_unfold(s);
    lemma_record_complete_bounds(t);
    lemma_record_complete_extension(t, s);
    let (record, n) = spec_record_complete(t)->Ok_0;
    if n < t.len() {
        let rest = spec_records(t.skip(n as int))->Ok_0;
        assert(s.skip(n as int) =~= t.skip(n as int) + more);
        lemma_records_append(t.skip(n as int), more);
        lemma_followed_followed(seq![record], n, rest, (t.len() - n) as nat, spec_records(more));
    } else {
        assert(s.skip(n as int) =~= more);
    }
}

/// A buffer that is exactly one record and its separator.
pub open spec fn is_whole_record(chunk: Seq<u8>) -> bool {
    spec_record_complete(chunk) matches Ok((_, n)) && n == chunk.len()
}

/// The record of a buffer that is exactly one record and its separator.
pub open spec fn record_of(chunk: Seq<u8>) -> RecordView {
    spec_record_complete(chunk)->Ok_0.0
}

/// A buffer made of whole records, each followed by its separator, parses into exactly those
/// records, in their order.
pub proof fn lemma_concatenated_records(chunks: Seq<Seq<u8>>)
    requires
        chunks.len() > 0,
        forall|i: int| 0 <= i < chunks.len() ==> is_whole_record(#[trigger] chunks[i]),
    ensures
        spec_records(chunks.flatten()) == Ok::<Seq<RecordView>, Status>(
            Seq::new(chunks.len(), |i: int| record_of(chunks[i])),
        ),
    decreases chunks.len(),
{
    let first = chunks.first();
    let others = chunks.drop_first();
    assert(is_whole_record(first));
    lemma_records_unfold(first);
    assert(spec_records(first) == Ok::<Seq<RecordView>, Status>(seq![record_of(first)]));
    assert(chunks.flatten() == first + others.flatten());
    if others.len() == 0 {
        assert(others.flatten() =~= Seq::<u8>::empty());
        assert(chunks.flatten() =~= first);
        assert(Seq::new(chunks.len(), |i: int| record_of(chunks[i])) =~= seq![record_of(first)]);
    } else {
        assert forall|i: int| 0 <= i < others.len() implies is_whole_record(
            #[trigger] others[i],
        ) by {
            assert(others[i] == chunks[i + 1]);
        }
        lemma_concatenated_records(others);
        assert(is_whole_record(others.first()));
        lemma_record_complete_bounds(others.first());
        assert(others.flatten().len() >= others.first().len());
        lemma_records_append(first, others.flatten());
        assert(seq![record_of(first)] + Seq::new(others.len(), |i: int| record_of(others[i]))
            =~= Seq::new(chunks.len(), |i: int| record_of(chunks[i])));
    }
}

/// An error in a buffer of records is the same error in every extension of the buffer.
pub proof fn lemma_records_error_extension(t: Seq<u8>, s: Seq<u8>)
    requires
        t.is_prefix_of(s),
        spec_records(t) matches Err(e) && !(e is Incomplete),
    ensures
        spec_records(s) == spec_records(t),
    decreases t.len(),
{
    lemma_records_unfold(t);
    lemma_records_unfold(s);
    lemma_record_complete_bounds(t);
    lemma_record_complete_extension(t, s);
    if let Ok((record, n)) = spec_record_complete(t) {
        lemma_prefix_skip(t, s, n);
        lemma_records_error_extension(t.skip(n as int), s.skip(n as int));
    }
}

/// A record that is followed by its separator holds exactly as many content bytes as its
/// `Content-Length` header declares, whether or not it is marked as truncated.
pub proof fn lemma_whole_record_content(chunk: Seq<u8>)
    requires
        is_whole_record(chunk),
    ensures
        record_of(chunk).headers.contains_key(length_key()),
        spec_content_length(record_of(chunk).headers[length_key()]) == Some(
            record_of(chunk).content.len(),
        ),
{
    reveal(spec_record_complete);
    lemma_record_complete_bounds(chunk);
    lemma_record_content(chunk);
    let n = spec_record(chunk)->Ok_0.1;
    lemma_element_bounds(chunk, Step::At(n), CR, ByteClass::Blank);
    lemma_element_bounds(chunk, spec_optional(chunk, Step::At(n), CR), LF, ByteClass::Blank);
}

/// The number of bytes that an incomplete record asks for is honest: while fewer bytes are
/// appended, the record stays incomplete, and asks for that many bytes less.
pub proof fn lemma_record_needs(t: Seq<u8>, s: Seq<u8>)
    requires
        t.is_prefix_of(s),
        spec_record(t) matches Err(Status::Incomplete { needed }) && s.len() - t.len() < needed,
    ensures
        spec_record(s) == Err::<(RecordView, nat), Status>(
            Status::Incomplete {
                needed: (spec_record(t)->Err_0->needed - (s.len() - t.len())) as nat,
            },
        ),
{
    if s.len() == t.len() {
        assert(s =~= t);
    } else {
        lemma_warc_header_bounds(t);
        lemma_warc_header_extension(t, s);
        let n = spec_warc_header(t)->Ok_0.1;
        lemma_prefix_skip(t, s, n);
    }
}

/// The same of a record with its separator.
pub proof fn lemma_record_complete_needs(t: Seq<u8>, s: Seq<u8>)
    requires
        t.is_prefix_of(s),
        spec_record_complete(t) matches Err(Status::Incomplete { needed }) && s.len() - t.len()
            < needed,
    ensures
        spec_record_complete(s) == Err::<(RecordView, nat), Status>(
            Status::Incomplete {
                needed: (spec_record_complete(t)->Err_0->needed - (s.len() - t.len())) as nat,
            },
        ),
{
    reveal(spec_record_complete);
    if s.len() == t.len() {
        assert(s =~= t);
    } else {
        lemma_record_needs(t, s);
    }
}

/// The same of a buffer of records.
pub proof fn lemma_records_need(t: Seq<u8>, s: Seq<u8>)
    requires
        t.is_prefix_of(s),
        spec_records(t) matches Err(Status::Incomplete { needed }) && s.len() - t.len() < needed,
    ensures
        spec_records(s) == Err::<Seq<RecordView>, Status>(
            Status::Incomplete {
                needed: (spec_records(t)->Err_0->needed - (s.len() - t.len())) as nat,
            },
        ),
    decreases t.len(),
{
    lemma_records_unfold(t);
    lemma_records_unfold(s);
    lemma_record_complete_bounds(t);
    if let Ok((record, n)) = spec_record_complete(t) {
        lemma_record_complete_extension(t, s);
        lemma_prefix_skip(t, s, n);
        lemma_records_need(t.skip(n as int), s.skip(n as int));
    } else {
        lemma_record_complete_needs(t, s);
    }
}

/// A whole record cut short is incomplete: neither an error nor a shorter record.
pub proof fn lemma_cut_record_is_incomplete(chunk: Seq<u8>, m: int)
    requires
        is_whole_record(chunk),
        0 <= m < chunk.len(),
    ensures
        wants_more(spec_record_complete(chunk.take(m))),
        wants_more(spec_records(chunk.take(m))),
{
    let t = chunk.take(m);
    assert(t.is_prefix_of(chunk)) by {
        assert(chunk.subrange(0, t.len() as int) =~= t);
    }
    lemma_record_complete_extension(t, chunk);
    lemma_record_complete_bounds(t);
    lemma_records_unfold(t);
}

/// A buffer of whole records that ends inside a record is incomplete, wherever in that record
/// it ends: in its head, in its content or in its separator. No list of the records before is
/// returned in its place.
pub proof fn lemma_cut_stream_is_incomplete(chunks: Seq<Seq<u8>>, j: int, m: int)
    requires
        forall|i: int| 0 <= i < chunks.len() ==> is_whole_record(#[trigger] chunks[i]),
        0 <= j < chunks.len(),
        0 <= m < chunks[j].len(),
        j == 0 || m > 0,
    ensures
        wants_more(spec_records(chunks.take(j).flatten() + chunks[j].take(m))),
    decreases j,
{
    let cut = chunks[j].take(m);
    if j == 0 {
        assert(chunks.take(0).flatten() + cut =~= cut);
        lemma_cut_record_is_incomplete(chunks[0], m);
    } else {
        let first = chunks.first();
        let others = chunks.drop_first();
        assert(is_whole_record(first));
        assert forall|i: int| 0 <= i < others.len() implies is_whole_record(
            #[trigger] others[i],
        ) by {
            assert(others[i] == chunks[i + 1]);
        }
        assert(others[j - 1] == chunks[j]);
        lemma_cut_stream_is_incomplete(others, j - 1, m);
        let tail = others.take(j - 1).flatten() + cut;
        assert(chunks.take(j).drop_first() =~= others.take(j - 1));
        assert(chunks.take(j).first() == first);
        assert(chunks.take(j).flatten() + cut =~= first + tail);
        lemma_records_unfold(first);
        lemma_records_append(first, tail);
    }
}

/// A record cut short is incomplete, with one exception: where the cut falls in the content of
/// a record that is marked as truncated, the record is returned with what is left of its
/// content, and ends with the buffer.
pub proof fn lemma_cut_record_span(s: Seq<u8>, m: int)
    requires
        spec_record(s) is Ok,
        0 <= m < spec_record(s)->Ok_0.1,
    ensures
        match spec_record(s.take(m)) {
            Ok((cut, n)) => {
                &&& n == m
                &&& cut.headers == spec_record(s)->Ok_0.0.headers
                &&& cut.headers.contains_key(truncated_key())
                &&& cut.content.is_prefix_of(spec_record(s)->Ok_0.0.content)
            },
            Err(e) => e is Incomplete,
        },
{
    let t = s.take(m);
    lemma_warc_header_bounds(s);
    assert(t.is_prefix_of(s)) by {
        assert(s.subrange(0, t.len() as int) =~= t);
    }
    lemma_record_extension(t, s);
    lemma_warc_header_extension(t, s);
    lemma_warc_header_bounds(t);
    if let Ok((head, a)) = spec_warc_header(t) {
        lemma_prefix_skip(t, s, a);
        lemma_assemble_extension(header_map(head.0, head.1), t.skip(a as int), s.skip(a as int));
    }
}

} // verus!
