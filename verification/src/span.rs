use crate::text::{byte_len, slice_text, utf8_len};
use vstd::prelude::*;
use vstd::string::*;
use vstd::utf8::*;

verus! {

/// A half-open range `[start, end)` of byte offsets into a string.
#[derive(Clone, Copy, Debug, PartialEq, Eq, Structural)]
pub struct Span {
    pub start: usize,
    pub end: usize,
}

impl Span {
    /// The span lies within `text` and neither end falls inside the
    /// encoding of a character.
    pub open spec fn fits(&self, text: Seq<char>) -> bool {
        &&& self.start <= self.end <= utf8_len(text)
        &&& is_char_boundary(encode_utf8(text), self.start as int)
        &&& is_char_boundary(encode_utf8(text), self.end as int)
    }

    /// The part of `text` that the span covers, or `None` when the span
    /// does not fit the text.
    pub fn slice<'a>(&self, text: &'a str) -> (r: Option<&'a str>)
        ensures
            r is Some <==> self.fits(text@),
            r matches Some(piece) ==> piece@ == slice_text(text@, self.start as int, self.end as int),
    {
        let total = byte_len(text);
        if self.start > self.end || self.end > total {
            return None;
        }
        if !text.is_char_boundary(self.start) || !text.is_char_boundary(self.end) {
            return None;
        }
        let ghost bytes = encode_utf8(text@);
        proof {
            encode_utf8_valid_utf8(text@);
            valid_utf8_split(bytes, self.end as int);
        }
        let (front, _) = text.split_at(self.end);
        proof {
            let head = bytes.subrange(0, self.end as int);
            if self.start < self.end {
                is_char_boundary_iff_not_is_continuation_byte(bytes, self.start as int);
                is_char_boundary_iff_not_is_continuation_byte(head, self.start as int);
            } else {
                is_char_boundary_start_end_of_seq(head);
            }
        }
        let (_, piece) = front.split_at(self.start);
        proof {
            assert(piece.spec_bytes() =~= bytes.subrange(self.start as int, self.end as int));
            encode_utf8_decode_utf8(piece@);
        }
        Some(piece)
    }
}

} // verus!
