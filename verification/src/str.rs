//! Cutting a `String` down to a part of itself, in place.

use std::ops::Range;
use vstd::prelude::*;
use vstd::utf8::*;
use crate::slice::{answers, subslice_offset, takes};

verus! {

/// `String::truncate`: cuts the string off after its first `new_len` bytes,
/// and leaves a string that is no longer than that as it is. A cut has to
/// fall between two characters.
pub assume_specification[ String::truncate ](s: &mut String, new_len: usize)
    requires
        new_len < encode_utf8(old(s)@).len() ==> is_char_boundary(
            encode_utf8(old(s)@),
            new_len as int,
        ),
    ensures
        new_len <= encode_utf8(old(s)@).len() ==> encode_utf8(final(s)@) == encode_utf8(
            old(s)@,
        ).subrange(0, new_len as int),
        new_len > encode_utf8(old(s)@).len() ==> final(s)@ == old(s)@,
;

/// `String::drain` over the range up to `end`, and the drop of what it
/// returns: takes the first `end` bytes out of the string. The rest moves to
/// the front. `end` has to fall between two characters, or at an end of the
/// string.
#[verifier::external_body]
fn drain_front(s: &mut String, end: usize)
    requires
        is_char_boundary(encode_utf8(old(s)@), end as int),
    ensures
        encode_utf8(final(s)@) == encode_utf8(old(s)@).subrange(
            end as int,
            encode_utf8(old(s)@).len() as int,
        ),
{
    s.drain(..end);
}

/// Whether the range `r` of the bytes of `text` starts and ends between two
/// characters, or at an end of the text.
pub open spec fn on_boundaries(text: Seq<char>, r: Range<usize>) -> bool {
    &&& r.start <= r.end
    &&& is_char_boundary(encode_utf8(text), r.start as int)
    &&& is_char_boundary(encode_utf8(text), r.end as int)
}

/// A place between two characters of a text is one in each part of the text
/// that reaches to it or beyond.
proof fn lemma_boundary_in_prefix(bytes: Seq<u8>, start: int, end: int)
    requires
        valid_utf8(bytes),
        0 <= start <= end,
        is_char_boundary(bytes, start),
        is_char_boundary(bytes, end),
    ensures
        end <= bytes.len(),
        valid_utf8(bytes.subrange(0, end)),
        is_char_boundary(bytes.subrange(0, end), start),
{
    let prefix = bytes.subrange(0, end);
    valid_utf8_split(bytes, end);
    if start < end {
        is_char_boundary_iff_not_is_continuation_byte(bytes, start);
        is_char_boundary_iff_not_is_continuation_byte(prefix, start);
    } else {
        is_char_boundary_start_end_of_seq(prefix);
    }
}

pub trait StringTools: View<V = Seq<char>> {
    /// Cuts the string down to the part that `f` selects: the bytes of the
    /// part move to the front, and the string ends after them. The part is a
    /// range of the string's bytes. It has to start and end between two
    /// characters or at an end of the string, so that what stays is text.
    fn in_place<F>(&mut self, f: F) where F: FnOnce(&str) -> Range<usize>
        requires
            takes(f, old(self)@),
            forall|r: Range<usize>| #[trigger]
                answers(f, old(self)@, r) ==> on_boundaries(old(self)@, r),
        ensures
            exists|r: Range<usize>|
                {
                    &&& #[trigger] answers(f, old(self)@, r)
                    &&& encode_utf8(final(self)@) == encode_utf8(old(self)@).subrange(
                        r.start as int,
                        r.end as int,
                    )
                    &&& final(self)@ == decode_utf8(
                        encode_utf8(old(self)@).subrange(r.start as int, r.end as int),
                    )
                },
    ;
}

impl StringTools for String {
    fn in_place<F>(&mut self, f: F) where F: FnOnce(&str) -> Range<usize> {
        let ghost bytes = encode_utf8(self@);
        let s2 = f(self.as_str());
        proof {
            assert(answers(f, old(self)@, s2));
            encode_utf8_valid_utf8(self@);
            lemma_boundary_in_prefix(bytes, s2.start as int, s2.end as int);
        }
        // The part lies within the string: where does it start?
        let len = self.as_str().as_bytes().len();
        assert(len == bytes.len());
        let offset = subslice_offset(&(0..len), &s2, 1);
        self.truncate(s2.end);
        drain_front(self, offset);
        proof {
            assert(encode_utf8(self@) =~= bytes.subrange(s2.start as int, s2.end as int));
            encode_utf8_decode_utf8(self@);
        }
    }
}

} // verus!
