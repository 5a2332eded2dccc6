//! Bytes of the input as text.

use vstd::prelude::*;

verus! {

/// The characters that ASCII bytes stand for: each byte is the character of the same code.
pub open spec fn text(bytes: Seq<u8>) -> Seq<char> {
    Seq::new(bytes.len(), |i: int| bytes[i] as char)
}

/// Whether every byte is an ASCII code.
pub open spec fn is_ascii_bytes(bytes: Seq<u8>) -> bool {
    forall|i: int| 0 <= i < bytes.len() ==> #[trigger] bytes[i] < 0x80
}

/// Calls `String::from_utf8_lossy`, which keeps valid UTF-8 as it is. Bytes below 0x80 are
/// valid UTF-8, each the encoding of the character of the same code, so for such input the
/// result holds exactly those characters. Nothing is claimed for other input.
#[verifier::external_body]
pub(crate) fn ascii_string(bytes: &[u8]) -> (s: String)
    ensures
        is_ascii_bytes(bytes@) ==> s@ == text(bytes@),
{
    String::from_utf8_lossy(bytes).into_owned()
}

/// Distinct byte strings are distinct texts.
pub proof fn lemma_text_injective(a: Seq<u8>, b: Seq<u8>)
    requires
        text(a) == text(b),
    ensures
        a == b,
{
    assert(a.len() == text(a).len());
    assert(b.len() == text(b).len());
    assert forall|i: int| 0 <= i < a.len() implies a[i] == b[i] by {
        assert(text(a)[i] == a[i] as char);
        assert(text(b)[i] == b[i] as char);
        assert((a[i] as char) as u8 == a[i]);
        assert((b[i] as char) as u8 == b[i]);
    }
    assert(a =~= b);
}

} // verus!
