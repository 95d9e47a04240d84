//! The units that the decoder reads in a byte sequence.
//!
//! A unit starts at a leading byte. The leading byte gives the width that the
//! unit should have; the bytes after it must fit the leading byte. One pull of
//! the decoder takes the bytes of one unit: all of them where the unit is well
//! formed, and otherwise the leading byte with the bytes that still fitted. The
//! byte that did not fit stays in the source and leads the next unit.

use vstd::prelude::*;
use vstd::utf8::*;

verus! {

/// The number of bytes of a unit that `first` leads.
/// It is 0 where `first` leads no unit: a continuation byte, or a byte with
/// more than four leading one bits.
pub open spec fn unit_width(first: u8) -> int {
    if first < 0x80 {
        1
    } else if 0xC0 <= first <= 0xDF {
        2
    } else if 0xE0 <= first <= 0xEF {
        3
    } else if 0xF0 <= first <= 0xF7 {
        4
    } else {
        0
    }
}

/// Whether `second` may follow the leading byte `first`.
/// For a unit of three or four bytes the range of the second byte depends on
/// the leading byte, which keeps out overlong forms, surrogates and scalars
/// above U+10FFFF. For a unit of two bytes every continuation byte fits.
pub open spec fn second_fits(first: u8, second: u8) -> bool {
    if 0xC0 <= first <= 0xDF {
        0x80 <= second <= 0xBF
    } else if first == 0xE0 {
        0xA0 <= second <= 0xBF
    } else if 0xE1 <= first <= 0xEC {
        0x80 <= second <= 0xBF
    } else if first == 0xED {
        0x80 <= second <= 0x9F
    } else if 0xEE <= first <= 0xEF {
        0x80 <= second <= 0xBF
    } else if first == 0xF0 {
        0x90 <= second <= 0xBF
    } else if 0xF1 <= first <= 0xF3 {
        0x80 <= second <= 0xBF
    } else if first == 0xF4 {
        0x80 <= second <= 0x8F
    } else {
        false
    }
}

/// The number of bytes that one pull takes from the non-empty sequence `s`:
/// the leading byte, and each following byte of the unit up to the first one
/// that is missing or does not fit.
pub open spec fn unit_taken(s: Seq<u8>) -> int
    recommends
        s.len() > 0,
{
    let w = unit_width(s[0]);
    if w <= 1 {
        1
    } else if s.len() < 2 || !second_fits(s[0], s[1]) {
        1
    } else if w == 2 {
        2
    } else if s.len() < 3 || !is_continuation_byte(s[2]) {
        2
    } else if w == 3 {
        3
    } else if s.len() < 4 || !is_continuation_byte(s[3]) {
        3
    } else {
        4
    }
}

/// Whether `s` starts with a well-formed unit: its leading byte leads a unit,
/// and all the bytes of that unit are there and fit.
pub open spec fn unit_well_formed(s: Seq<u8>) -> bool {
    s.len() > 0 && unit_width(s[0]) >= 1 && unit_taken(s) == unit_width(s[0])
}

/// The scalar value that the well-formed unit at the start of `s` holds. Its
/// digits to the base 64 are the bytes of the unit, the leading byte first,
/// each without the bits that mark it: a continuation byte gives six bits, the
/// leading byte those that its width leaves.
pub open spec fn unit_scalar(s: Seq<u8>) -> int
    recommends
        unit_well_formed(s),
{
    let w = unit_width(s[0]);
    if w == 2 {
        (s[0] - 0xC0) * 0x40 + (s[1] - 0x80)
    } else if w == 3 {
        (s[0] - 0xE0) * 0x1000 + (s[1] - 0x80) * 0x40 + (s[2] - 0x80)
    } else if w == 4 {
        (s[0] - 0xF0) * 0x4_0000 + (s[1] - 0x80) * 0x1000 + (s[2] - 0x80) * 0x40 + (s[3] - 0x80)
    } else {
        s[0] as int
    }
}

/// What one pull yields from the non-empty sequence `s`: the scalar of a
/// well-formed unit, or `None` for a malformed one.
pub open spec fn unit_decoded(s: Seq<u8>) -> Option<char>
    recommends
        s.len() > 0,
{
    if unit_well_formed(s) {
        Some(unit_scalar(s) as char)
    } else {
        None
    }
}

/// Everything that the decoder yields from `s`, pull by pull.
pub open spec fn decoded(s: Seq<u8>) -> Seq<Option<char>>
    decreases s.len(),
{
    if s.len() == 0 {
        seq![]
    } else {
        seq![unit_decoded(s)] + decoded(s.skip(unit_taken(s)))
    }
}

/// The scalar bits of a unit of two bytes: their range, and their value.
proof fn lemma_range_2(b1: u8, b2: u8)
    by (bit_vector)
    requires
        0xC0 <= b1 <= 0xDF,
    ensures
        (((b1 & 0x1F) as u32) << 6u32 | ((b2 & 0x3F) as u32)) <= 0x7FF,
        0xC2 <= b1 ==> 0x80 <= (((b1 & 0x1F) as u32) << 6u32 | ((b2 & 0x3F) as u32)),
        b1 < 0xC2 ==> (((b1 & 0x1F) as u32) << 6u32 | ((b2 & 0x3F) as u32)) < 0x80,
        0x80 <= b2 <= 0xBF ==> (((b1 & 0x1F) as u32) << 6u32 | ((b2 & 0x3F) as u32)) == (b1
            - 0xC0) * 0x40 + (b2 - 0x80),
{
}

/// The scalar bits of a unit of three bytes whose second byte fits: their
/// range, and their value.
proof fn lemma_range_3(b1: u8, b2: u8, b3: u8)
    by (bit_vector)
    requires
        0xE0 <= b1 <= 0xEF,
        0x80 <= b2 <= 0xBF,
        b1 == 0xE0 ==> 0xA0 <= b2,
        b1 == 0xED ==> b2 <= 0x9F,
    ensures
        0x800 <= (((b1 & 0x0F) as u32) << 12u32 | ((b2 & 0x3F) as u32) << 6u32 | ((b3
            & 0x3F) as u32)) <= 0xFFFF,
        !(0xD800 <= (((b1 & 0x0F) as u32) << 12u32 | ((b2 & 0x3F) as u32) << 6u32 | ((b3
            & 0x3F) as u32)) <= 0xDFFF),
        0x80 <= b3 <= 0xBF ==> (((b1 & 0x0F) as u32) << 12u32 | ((b2 & 0x3F) as u32) << 6u32 | ((b3
            & 0x3F) as u32)) == (b1 - 0xE0) * 0x1000 + (b2 - 0x80) * 0x40 + (b3 - 0x80),
{
}

/// The scalar bits of a unit of four bytes whose second byte fits: their
/// range, and their value.
proof fn lemma_range_4(b1: u8, b2: u8, b3: u8, b4: u8)
    by (bit_vector)
    requires
        0xF0 <= b1 <= 0xF4,
        0x80 <= b2 <= 0xBF,
        b1 == 0xF0 ==> 0x90 <= b2,
        b1 == 0xF4 ==> b2 <= 0x8F,
    ensures
        0x10000 <= (((b1 & 0x07) as u32) << 18u32 | ((b2 & 0x3F) as u32) << 12u32 | ((b3
            & 0x3F) as u32) << 6u32 | ((b4 & 0x3F) as u32)) <= 0x10FFFF,
        0x80 <= b3 <= 0xBF && 0x80 <= b4 <= 0xBF ==> (((b1 & 0x07) as u32) << 18u32 | ((b2
            & 0x3F) as u32) << 12u32 | ((b3 & 0x3F) as u32) << 6u32 | ((b4 & 0x3F) as u32)) == (b1
            - 0xF0) * 0x4_0000 + (b2 - 0x80) * 0x1000 + (b3 - 0x80) * 0x40 + (b4 - 0x80),
{
}

/// The scalar bits of a unit of one byte are the byte.
proof fn lemma_range_1(b1: u8)
    by (bit_vector)
    requires
        b1 < 0x80,
    ensures
        ((b1 & 0x7F) as u32) == b1 as u32,
{
}

/// The scalar of a well-formed unit is a value that a `char` can hold:
/// never a surrogate, never above U+10FFFF. A unit of three or four bytes
/// holds a scalar that needs that many bytes. The scalar is the one that the
/// encoding of UTF-8 gives to the bytes of the unit: the low bits of the
/// leading byte, followed by the low six bits of each continuation byte.
pub proof fn lemma_unit_scalar(s: Seq<u8>)
    requires
        unit_well_formed(s),
    ensures
        unit_scalar(s) == decode_first_codepoint(s),
        is_scalar(decode_first_codepoint(s)),
        unit_width(s[0]) == 2 ==> unit_scalar(s) <= 0x7FF,
        unit_width(s[0]) == 3 ==> has_width_3_encoding(decode_first_codepoint(s)),
        unit_width(s[0]) == 4 ==> has_width_4_encoding(decode_first_codepoint(s)),
{
    let w = unit_width(s[0]);
    if w == 1 {
        lemma_range_1(s[0]);
    } else if w == 2 {
        lemma_range_2(s[0], s[1]);
    } else if w == 3 {
        lemma_range_3(s[0], s[1], s[2]);
    } else {
        lemma_range_4(s[0], s[1], s[2], s[3]);
    }
}

/// One pull takes at least one byte and no more than there are.
pub proof fn lemma_unit_taken_bounds(s: Seq<u8>)
    requires
        s.len() > 0,
    ensures
        1 <= unit_taken(s) <= s.len(),
        unit_taken(s) <= 4,
{
}

/// The scalars among `units`, in order, without the malformed units.
pub open spec fn scalars(units: Seq<Option<char>>) -> Seq<char>
    decreases units.len(),
{
    if units.len() == 0 {
        seq![]
    } else {
        let rest = scalars(units.drop_first());
        match units[0] {
            Some(c) => seq![c] + rest,
            None => rest,
        }
    }
}

/// The bytes of `s` that lie in well-formed units, in order.
pub open spec fn well_formed_bytes(s: Seq<u8>) -> Seq<u8>
    decreases s.len(),
{
    if s.len() == 0 {
        seq![]
    } else {
        let rest = well_formed_bytes(s.skip(unit_taken(s)));
        if unit_well_formed(s) {
            s.take(unit_taken(s)) + rest
        } else {
            rest
        }
    }
}

/// Whether the decoder, reading `s`, meets a well-formed unit of two bytes
/// whose leading byte is 0xC0 or 0xC1. Such a unit holds a scalar below U+0080,
/// which one byte encodes.
pub open spec fn reads_overlong(s: Seq<u8>) -> bool
    decreases s.len(),
{
    s.len() > 0 && ((unit_well_formed(s) && (s[0] == 0xC0 || s[0] == 0xC1)) || reads_overlong(
        s.skip(unit_taken(s)),
    ))
}

/// Encoding the scalar of a well-formed unit gives back the bytes of the
/// unit, unless the unit is an overlong form of two bytes.
pub proof fn lemma_unit_round_trip(s: Seq<u8>)
    requires
        unit_well_formed(s),
        s[0] != 0xC0,
        s[0] != 0xC1,
    ensures
        encode_scalar((unit_scalar(s) as char) as u32) == s.take(unit_taken(s)),
{
    let w = unit_taken(s);
    let unit = s.take(w);
    lemma_unit_scalar(s);
    if unit_width(s[0]) == 2 {
        lemma_range_2(s[0], s[1]);
    }
    assert(decode_first_codepoint(unit) == decode_first_codepoint(s));
    assert(unit_scalar(s) as char == decode_first_codepoint(s) as char);
    assert(valid_first_scalar(unit));
    assert(pop_first_scalar(unit) =~= Seq::<u8>::empty());
    assert(valid_utf8(unit)) by {
        reveal_with_fuel(valid_utf8, 2);
    }
    decode_utf8_first_scalar(unit);
    assert(take_first_scalar(unit) =~= unit);
}

/// Decoding, then encoding every scalar that was decoded, gives back the
/// bytes of the well-formed units and nothing else. This holds of every byte
/// sequence in which the decoder meets no overlong unit of two bytes.
pub proof fn lemma_round_trip(s: Seq<u8>)
    requires
        !reads_overlong(s),
    ensures
        encode_utf8(scalars(decoded(s))) == well_formed_bytes(s),
    decreases s.len(),
{
    if s.len() > 0 {
        let rest = s.skip(unit_taken(s));
        lemma_round_trip(rest);
        let units = decoded(s);
        assert(units.drop_first() =~= decoded(rest));
        if unit_well_formed(s) {
            let c = unit_scalar(s) as char;
            let chars = scalars(units);
            assert(chars == seq![c] + scalars(decoded(rest)));
            assert(chars.drop_first() =~= scalars(decoded(rest)));
            lemma_unit_round_trip(s);
        }
    }
}

/// The scalar of an overlong unit of two bytes is encoded in one byte.
proof fn lemma_overlong_unit(s: Seq<u8>)
    requires
        unit_well_formed(s),
        s[0] == 0xC0 || s[0] == 0xC1,
    ensures
        encode_scalar((unit_scalar(s) as char) as u32).len() == 1,
        unit_taken(s) == 2,
{
    lemma_unit_scalar(s);
    lemma_range_2(s[0], s[1]);
}

/// A sequence of scalars that starts with `c` is encoded as `c`, followed
/// by the others.
proof fn lemma_encode_first(c: char, others: Seq<char>)
    ensures
        encode_utf8(seq![c] + others) == encode_scalar(c as u32) + encode_utf8(others),
{
    assert((seq![c] + others).drop_first() =~= others);
}

/// What is encoded from the decoded scalars is never longer than the
/// well-formed part of the bytes.
proof fn lemma_encoded_len(s: Seq<u8>)
    ensures
        encode_utf8(scalars(decoded(s))).len() <= well_formed_bytes(s).len(),
    decreases s.len(),
{
    if s.len() > 0 {
        let rest = s.skip(unit_taken(s));
        lemma_encoded_len(rest);
        assert(decoded(s).drop_first() =~= decoded(rest));
        if unit_well_formed(s) {
            lemma_encode_first(unit_scalar(s) as char, scalars(decoded(rest)));
            if s[0] == 0xC0 || s[0] == 0xC1 {
                lemma_overlong_unit(s);
            } else {
                lemma_unit_round_trip(s);
            }
        }
    }
}

/// Where the decoder meets an overlong unit of two bytes, decoding and then
/// encoding does not give back the well-formed part of the bytes: it gives
/// fewer bytes.
pub proof fn lemma_round_trip_overlong(s: Seq<u8>)
    requires
        reads_overlong(s),
    ensures
        encode_utf8(scalars(decoded(s))).len() < well_formed_bytes(s).len(),
    decreases s.len(),
{
    let rest = s.skip(unit_taken(s));
    assert(decoded(s).drop_first() =~= decoded(rest));
    if unit_well_formed(s) {
        lemma_encode_first(unit_scalar(s) as char, scalars(decoded(rest)));
        if s[0] == 0xC0 || s[0] == 0xC1 {
            lemma_overlong_unit(s);
            lemma_encoded_len(rest);
        } else {
            lemma_unit_round_trip(s);
            lemma_round_trip_overlong(rest);
        }
    } else {
        lemma_round_trip_overlong(rest);
    }
}

/// In the encoding of a scalar in three bytes the second byte fits the first.
proof fn lemma_fits_3(b1: u8, b2: u8, b3: u8)
    by (bit_vector)
    requires
        0xE0 <= b1 <= 0xEF,
        0x80 <= b2 <= 0xBF,
        0x800 <= (((b1 & 0x0F) as u32) << 12u32 | ((b2 & 0x3F) as u32) << 6u32 | ((b3
            & 0x3F) as u32)),
        !(0xD800 <= (((b1 & 0x0F) as u32) << 12u32 | ((b2 & 0x3F) as u32) << 6u32 | ((b3
            & 0x3F) as u32)) <= 0xDFFF),
    ensures
        b1 == 0xE0 ==> 0xA0 <= b2,
        b1 == 0xED ==> b2 <= 0x9F,
{
}

/// In the encoding of a scalar in four bytes the second byte fits the first.
proof fn lemma_fits_4(b1: u8, b2: u8, b3: u8, b4: u8)
    by (bit_vector)
    requires
        0xF0 <= b1 <= 0xF7,
        0x80 <= b2 <= 0xBF,
        0x10000 <= (((b1 & 0x07) as u32) << 18u32 | ((b2 & 0x3F) as u32) << 12u32 | ((b3
            & 0x3F) as u32) << 6u32 | ((b4 & 0x3F) as u32)) <= 0x10FFFF,
    ensures
        b1 <= 0xF4,
        b1 == 0xF0 ==> 0x90 <= b2,
        b1 == 0xF4 ==> b2 <= 0x8F,
{
}

/// Where `s` starts with the encoding of a scalar, it starts with a
/// well-formed unit of as many bytes, which holds that scalar.
pub proof fn lemma_unit_of_scalar(s: Seq<u8>)
    requires
        valid_first_scalar(s),
    ensures
        unit_well_formed(s),
        unit_taken(s) == length_of_first_scalar(s),
        unit_scalar(s) == decode_first_scalar(s),
{
    let w = unit_width(s[0]);
    if w == 3 {
        lemma_fits_3(s[0], s[1], s[2]);
    } else if w == 4 {
        lemma_fits_4(s[0], s[1], s[2], s[3]);
    }
    lemma_unit_scalar(s);
}

/// From text in UTF-8 the decoder yields the characters of the text, and no
/// malformed unit.
pub proof fn lemma_decodes_text(s: Seq<u8>)
    requires
        valid_utf8(s),
    ensures
        decoded(s) == decode_utf8(s).map_values(|c: char| Some(c)),
    decreases s.len(),
{
    let chars = decode_utf8(s);
    if s.len() > 0 {
        lemma_unit_of_scalar(s);
        lemma_decodes_text(pop_first_scalar(s));
        assert(decoded(s) =~= chars.map_values(|c: char| Some(c)));
    } else {
        assert(decoded(s) =~= chars.map_values(|c: char| Some(c)));
    }
}

} // verus!
