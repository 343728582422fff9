//! From the bytes of a slot to text.
use std::borrow::Cow;

use vstd::prelude::*;
use vstd::utf8::*;

verus! {

/// The characters that `String::from_utf8_lossy` makes of some bytes.
pub uninterp spec fn utf8_lossy(bytes: Seq<u8>) -> Seq<char>;

/// `String::from_utf8_lossy`: what it makes of the bytes depends on them alone. Bytes that are
/// valid UTF-8 are decoded as such. Which bytes of others are replaced is left unsaid.
pub assume_specification<'a>[ String::from_utf8_lossy ](v: &'a [u8]) -> (text: Cow<'a, str>)
    ensures
        text@ == utf8_lossy(v@),
        valid_utf8(v@) ==> text@ == decode_utf8(v@),
;

/// The characters up to the last one that is not NUL.
pub open spec fn without_trailing_nuls(text: Seq<char>) -> Seq<char>
    decreases text.len(),
{
    if text.len() > 0 && text.last() == '\0' {
        without_trailing_nuls(text.drop_last())
    } else {
        text
    }
}

/// `str::trim_end_matches` for the pattern of one NUL: as long as the text ends with a NUL, that
/// NUL is taken off.
#[verifier::external_body]
fn trim_end_nuls(text: &str) -> (trimmed: &str)
    ensures
        trimmed@ == without_trailing_nuls(text@),
{
    text.trim_end_matches("\0")
}

/// The text without the NULs at its end.
pub fn trimmed_text(decoded: &str) -> (text: String)
    ensures
        text@ == without_trailing_nuls(decoded@),
        text@.len() <= decoded@.len(),
        text@ == decoded@.take(text@.len() as int),
        text@.len() > 0 ==> text@.last() != '\0',
        forall|i: int| text@.len() <= i < decoded@.len() ==> #[trigger] decoded@[i] == '\0',
{
    proof {
        law_only_trailing_nuls_go(decoded@);
    }
    trim_end_nuls(decoded).to_owned()
}

/// Decodes the bytes, with replacements where they are not valid UTF-8, and takes the NULs off the
/// end.
pub fn text_of(bytes: &[u8]) -> (text: String)
    ensures
        text@ == without_trailing_nuls(utf8_lossy(bytes@)),
        valid_utf8(bytes@) ==> text@ == without_trailing_nuls(decode_utf8(bytes@)),
        ({
            let decoded = utf8_lossy(bytes@);
            &&& valid_utf8(bytes@) ==> decoded == decode_utf8(bytes@)
            &&& text@.len() <= decoded.len()
            &&& text@ == decoded.take(text@.len() as int)
            &&& text@.len() > 0 ==> text@.last() != '\0'
            &&& forall|i: int| text@.len() <= i < decoded.len() ==> #[trigger] decoded[i] == '\0'
        }),
{
    match String::from_utf8_lossy(bytes) {
        Cow::Borrowed(decoded) => trimmed_text(decoded),
        Cow::Owned(decoded) => trimmed_text(decoded.as_str()),
    }
}

/// What is left is the beginning of the text and does not end with a NUL, and what is taken off is
/// nothing but NULs.
pub proof fn law_only_trailing_nuls_go(text: Seq<char>)
    ensures
        ({
            let left = without_trailing_nuls(text);
            &&& left.len() <= text.len()
            &&& left == text.take(left.len() as int)
            &&& left.len() > 0 ==> left.last() != '\0'
            &&& forall|i: int| left.len() <= i < text.len() ==> #[trigger] text[i] == '\0'
        }),
    decreases text.len(),
{
    let left = without_trailing_nuls(text);
    if text.len() > 0 && text.last() == '\0' {
        let rest = text.drop_last();
        law_only_trailing_nuls_go(rest);
        assert forall|i: int| left.len() <= i < text.len() implies #[trigger] text[i] == '\0' by {
            assert(i < rest.len() ==> rest[i] == '\0');
        }
        assert(left =~= text.take(left.len() as int));
    } else {
        assert(left =~= text.take(left.len() as int));
    }
}

/// Some NULs.
spec fn nuls(count: nat) -> Seq<char> {
    Seq::new(count, |i: int| '\0')
}

proof fn lemma_encode_concat(a: Seq<char>, b: Seq<char>)
    ensures
        encode_utf8(a + b) == encode_utf8(a) + encode_utf8(b),
    decreases a.len(),
{
    if a.len() == 0 {
        assert(a + b =~= b);
        assert(encode_utf8(a) + encode_utf8(b) =~= encode_utf8(b));
    } else {
        assert((a + b).drop_first() =~= a.drop_first() + b);
        lemma_encode_concat(a.drop_first(), b);
        assert(encode_utf8(a + b) =~= encode_utf8(a) + encode_utf8(b));
    }
}

proof fn lemma_encode_nuls(count: nat)
    ensures
        encode_utf8(nuls(count)) == Seq::new(count, |i: int| 0u8),
    decreases count,
{
    let zeros = Seq::new(count, |i: int| 0u8);
    if count == 0 {
        assert(encode_utf8(nuls(count)) =~= zeros);
    } else {
        let rest = (count - 1) as nat;
        assert(nuls(count).drop_first() =~= nuls(rest));
        lemma_encode_nuls(rest);
        assert(0u32 & 0x7f == 0) by (bit_vector);
        assert(encode_utf8(nuls(count)) =~= zeros);
    }
}

proof fn lemma_trim_nuls(text: Seq<char>, count: nat)
    requires
        text.len() == 0 || text.last() != '\0',
    ensures
        without_trailing_nuls(text + nuls(count)) == text,
    decreases count,
{
    let padded = text + nuls(count);
    if count == 0 {
        assert(padded =~= text);
    } else {
        let rest = (count - 1) as nat;
        assert(padded.drop_last() =~= text + nuls(rest));
        lemma_trim_nuls(text, rest);
    }
}

/// Text that does not end with a NUL comes back from its encoding, however many zero bytes are
/// added at the end.
pub proof fn law_padded_text_comes_back(text: Seq<char>, padding: nat)
    requires
        text.len() == 0 || text.last() != '\0',
    ensures
        ({
            let bytes = encode_utf8(text) + Seq::new(padding, |i: int| 0u8);
            valid_utf8(bytes) && without_trailing_nuls(decode_utf8(bytes)) == text
        }),
{
    let padded = text + nuls(padding);
    lemma_encode_concat(text, nuls(padding));
    lemma_encode_nuls(padding);
    encode_utf8_valid_utf8(padded);
    encode_utf8_decode_utf8(padded);
    lemma_trim_nuls(text, padding);
}

} // verus!
