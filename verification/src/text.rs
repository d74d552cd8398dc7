use crate::error::TextError;
use vstd::prelude::*;
use vstd::string::*;
use vstd::utf8::*;

verus! {

/// The number of bytes in the UTF-8 encoding of `text`.
pub open spec fn utf8_len(text: Seq<char>) -> nat {
    encode_utf8(text).len()
}

/// The bytes of `text` from offset `start` up to, but not including, offset
/// `end`, read as characters.
pub open spec fn slice_text(text: Seq<char>, start: int, end: int) -> Seq<char> {
    decode_utf8(encode_utf8(text).subrange(start, end))
}

/// Encoding a concatenation gives the concatenation of the encodings.
pub proof fn lemma_encode_concat(a: Seq<char>, b: Seq<char>)
    ensures
        encode_utf8(a + b) == encode_utf8(a) + encode_utf8(b),
        utf8_len(a + b) == utf8_len(a) + utf8_len(b),
    decreases a.len(),
{
    if a.len() == 0 {
        assert(a + b =~= b);
        assert(encode_utf8(a) + encode_utf8(b) =~= encode_utf8(b));
    } else {
        assert((a + b).drop_first() =~= a.drop_first() + b);
        lemma_encode_concat(a.drop_first(), b);
        assert(encode_utf8(a + b) =~= encode_utf8(a) + encode_utf8(b));
    }
}

/// Every character takes at least one byte.
pub proof fn lemma_utf8_len_lower_bound(text: Seq<char>)
    ensures
        text.len() <= utf8_len(text),
    decreases text.len(),
{
    if text.len() > 0 {
        lemma_utf8_len_lower_bound(text.drop_first());
    }
}

/// Two texts with the same encoding are the same text.
pub proof fn lemma_encode_injective(a: Seq<char>, b: Seq<char>)
    requires
        encode_utf8(a) == encode_utf8(b),
    ensures
        a == b,
{
    encode_utf8_decode_utf8(a);
    encode_utf8_decode_utf8(b);
}

/// The end of an encoded prefix is a character boundary of the whole
/// encoding.
pub proof fn lemma_prefix_end_is_char_boundary(a: Seq<char>, b: Seq<char>)
    ensures
        is_char_boundary(encode_utf8(a + b), utf8_len(a) as int),
    decreases a.len(),
{
    let whole = a + b;
    let bytes = encode_utf8(whole);
    encode_utf8_valid_utf8(whole);
    if a.len() > 0 {
        lemma_encode_concat(a, b);
        lemma_utf8_len_lower_bound(a);
        encode_utf8_first_scalar(whole);
        assert(whole.drop_first() =~= a.drop_first() + b);
        assert(pop_first_scalar(bytes) =~= encode_utf8(a.drop_first() + b));
        lemma_prefix_end_is_char_boundary(a.drop_first(), b);
        assert(utf8_len(a) - length_of_first_scalar(bytes) == utf8_len(a.drop_first()));
    }
}

/// Cutting an encoding at the two ends of its middle part and decoding
/// what lies between gives the middle part back.
pub proof fn lemma_slice_of_concat(a: Seq<char>, b: Seq<char>, c: Seq<char>)
    ensures
        slice_text(a + b + c, utf8_len(a) as int, (utf8_len(a) + utf8_len(b)) as int) == b,
{
    lemma_encode_concat(a + b, c);
    lemma_encode_concat(a, b);
    let bytes = encode_utf8(a + b + c);
    assert(bytes.subrange(utf8_len(a) as int, (utf8_len(a) + utf8_len(b)) as int) =~= encode_utf8(
        b,
    ));
    encode_utf8_decode_utf8(b);
}

/// Trusted: `core::str::from_utf8`. Claims that the bytes are accepted
/// exactly when they are well-formed UTF-8, and that the string returned
/// then consists of those bytes.
#[verifier::external_body]
fn checked_text<'a>(bytes: &'a [u8]) -> (r: Option<&'a str>)
    ensures
        r is Some <==> valid_utf8(bytes@),
        r matches Some(text) ==> text.spec_bytes() == bytes@,
{
    core::str::from_utf8(bytes).ok()
}

/// Reads `bytes` as text. Fails with [`TextError::InvalidEncoding`]
/// exactly when the bytes are not well-formed UTF-8; no byte is skipped or
/// replaced.
pub fn text_from_utf8<'a>(bytes: &'a [u8]) -> (r: Result<&'a str, TextError>)
    ensures
        r is Ok <==> valid_utf8(bytes@),
        r matches Ok(text) ==> text@ == decode_utf8(bytes@) && encode_utf8(text@) == bytes@,
        r matches Err(e) ==> e == TextError::InvalidEncoding,
{
    match checked_text(bytes) {
        Some(text) => {
            proof {
                encode_utf8_decode_utf8(text@);
            }
            Ok(text)
        },
        None => Err(TextError::InvalidEncoding),
    }
}

/// The length of a string in bytes.
pub fn byte_len(text: &str) -> (n: usize)
    ensures
        n == utf8_len(text@),
{
    text.as_bytes().len()
}

/// What is left of `text` once its prefix `head` is taken away.
pub fn strip_head<'a>(text: &'a str, head: &str) -> (tail: &'a str)
    requires
        head@.len() <= text@.len(),
        head@ == text@.take(head@.len() as int),
    ensures
        tail@ == text@.skip(head@.len() as int),
{
    let n = byte_len(head);
    let ghost rest = text@.skip(head@.len() as int);
    proof {
        assert(text@ =~= head@ + rest);
        lemma_encode_concat(head@, rest);
        lemma_prefix_end_is_char_boundary(head@, rest);
    }
    let (_, tail) = text.split_at(n);
    proof {
        assert(text.spec_bytes().subrange(n as int, text.spec_bytes().len() as int) =~= encode_utf8(
            rest,
        ));
        lemma_encode_injective(tail@, rest);
    }
    tail
}

} // verus!
