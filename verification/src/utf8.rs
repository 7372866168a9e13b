//! UTF-8 codepoint decoding over in-memory byte buffers.
//!
//! Given the first byte of a UTF-8 sequence and the buffer holding the bytes
//! that follow it, [`next_codepoint_head`] produces one Unicode scalar value.
//! The decoder is deliberately lenient, reading the six low bits of each
//! continuation byte without checking its marker bits, so the exact decoded
//! value is pinned by [`spec_decode`] rather than by strict UTF-8 validity.
//! A byte whose high bits match no leading pattern, a sequence truncated by
//! the end of the buffer, and a combined value outside the Unicode scalar
//! range all fail the decode.

use vstd::prelude::*;

verus! {

use vstd::utf8::{
    is_leading_byte_width_1, is_leading_byte_width_2, is_leading_byte_width_3,
    is_leading_byte_width_4, leading_bits_width_1, leading_bits_width_2, leading_bits_width_3,
    leading_bits_width_4, continuation_bits, codepoint_width_2, codepoint_width_3,
    codepoint_width_4, is_scalar,
};

broadcast use vstd::utf8::char_is_scalar, vstd::utf8::char_u32_cast;

/// Classification of the first byte of a UTF-8 encoded codepoint by its
/// high-bit pattern.
#[derive(Clone, Copy, Debug, PartialEq, Eq, Structural)]
pub enum UTF8HeadType {
    /// `0xxxxxxx`: a one-byte (ASCII) encoding.
    Single,
    /// `110xxxxx`: leads a two-byte encoding.
    Double,
    /// `1110xxxx`: leads a three-byte encoding.
    Triple,
    /// `11110xxx`: leads a four-byte encoding.
    Quad,
    /// Matches none of the leading patterns (continuation or illegal byte).
    Unknown,
}

/// The classification of `head` by its high-bit pattern.
pub open spec fn spec_head_type(head: u8) -> UTF8HeadType {
    if is_leading_byte_width_1(head) {
        UTF8HeadType::Single
    } else if is_leading_byte_width_2(head) {
        UTF8HeadType::Double
    } else if is_leading_byte_width_3(head) {
        UTF8HeadType::Triple
    } else if is_leading_byte_width_4(head) {
        UTF8HeadType::Quad
    } else {
        UTF8HeadType::Unknown
    }
}

/// Number of bytes in the encoding introduced by `head`; 0 when `head` is
/// not a valid leading byte.
pub open spec fn head_width(head: u8) -> int {
    if is_leading_byte_width_1(head) {
        1
    } else if is_leading_byte_width_2(head) {
        2
    } else if is_leading_byte_width_3(head) {
        3
    } else if is_leading_byte_width_4(head) {
        4
    } else {
        0
    }
}

/// The payload bits of `head`, stripped of its leading-byte marker; `None`
/// when `head` matches no leading pattern.
pub open spec fn spec_head_data(head: u8) -> Option<u8> {
    match spec_head_type(head) {
        UTF8HeadType::Single => Some(head & 0x7f),
        UTF8HeadType::Double => Some(head & 0x1f),
        UTF8HeadType::Triple => Some(head & 0x0f),
        UTF8HeadType::Quad => Some(head & 0x07),
        UTF8HeadType::Unknown => None,
    }
}

/// The codepoint encoded by leading byte `head` and continuation bytes
/// `tails`, combining the head payload with the six low bits of each tail.
pub open spec fn decoded_codepoint(head: u8, tails: Seq<u8>) -> u32
    recommends
        1 <= head_width(head),
        tails.len() == head_width(head) - 1,
{
    if head_width(head) == 1 {
        leading_bits_width_1(head)
    } else if head_width(head) == 2 {
        codepoint_width_2(head, tails[0])
    } else if head_width(head) == 3 {
        codepoint_width_3(head, tails[0], tails[1])
    } else {
        codepoint_width_4(head, tails[0], tails[1], tails[2])
    }
}

/// Result of decoding one codepoint whose leading byte `head` was read just
/// before `bytes[pos]`: the decoded character and the position after its
/// continuation bytes, or `None` when `head` is no leading byte, the
/// sequence is truncated, or the value is no Unicode scalar.
pub open spec fn spec_decode(bytes: Seq<u8>, pos: int, head: u8) -> Option<(char, int)>
    recommends
        0 <= pos <= bytes.len(),
{
    let w = head_width(head);
    if w == 0 {
        None
    } else if pos + (w - 1) > bytes.len() {
        None
    } else {
        let cp = decoded_codepoint(head, bytes.subrange(pos, pos + (w - 1)));
        if is_scalar(cp) {
            Some((cp as char, pos + (w - 1)))
        } else {
            None
        }
    }
}

/// Result of decoding one codepoint that starts at `bytes[pos]`.
pub open spec fn spec_next_codepoint(bytes: Seq<u8>, pos: int) -> Option<(char, int)>
    recommends
        0 <= pos < bytes.len(),
{
    spec_decode(bytes, pos + 1, bytes[pos])
}

/// Relies on `char::from_u32`: it returns `Some` exactly for Unicode scalar
/// values (at most 0x10FFFF and outside the surrogate range), and the
/// resulting `char` has the given value.
pub assume_specification[ char::from_u32 ](v: u32) -> (r: Option<char>)
    ensures
        r is Some <==> is_scalar(v),
        r matches Some(c) ==> c as u32 == v,
;

/// Classify `head` by its high-bit pattern.
pub fn get_head_type(head: u8) -> (t: UTF8HeadType)
    ensures
        t == spec_head_type(head),
{
    proof {
        assert((head >> 7 == 0) <==> head <= 0x7f) by (bit_vector);
        assert((head >> 5 == 0b110) <==> (0xc0 <= head <= 0xdf)) by (bit_vector);
        assert((head >> 4 == 0b1110) <==> (0xe0 <= head <= 0xef)) by (bit_vector);
        assert((head >> 3 == 0b11110) <==> (0xf0 <= head <= 0xf7)) by (bit_vector);
    }
    if head >> 7 == 0 {
        UTF8HeadType::Single
    } else if head >> 5 == 0b110 {
        UTF8HeadType::Double
    } else if head >> 4 == 0b1110 {
        UTF8HeadType::Triple
    } else if head >> 3 == 0b11110 {
        UTF8HeadType::Quad
    } else {
        UTF8HeadType::Unknown
    }
}

/// Strip the leading-byte marker from `head`, keeping its payload bits.
pub fn get_head_data(head: u8) -> (d: Option<u8>)
    ensures
        d == spec_head_data(head),
{
    match get_head_type(head) {
        UTF8HeadType::Single => Some(head & 0x7f),
        UTF8HeadType::Double => Some(head & 0x1f),
        UTF8HeadType::Triple => Some(head & 0x0f),
        UTF8HeadType::Quad => Some(head & 0x07),
        UTF8HeadType::Unknown => None,
    }
}

/// The six data bits of a continuation byte held in the low byte of `tail`.
pub fn tail_data(tail: u32) -> (r: u32)
    ensures
        r == tail & 0x3f,
{
    proof {
        assert(((tail as u8) & 0x3f) as u32 == tail & 0x3f) by (bit_vector);
    }
    ((tail as u8) & 0x3f) as u32
}

/// The data bits of the continuation byte `tail` shifted into place for a
/// continuation byte standing `pos` positions from the end of the sequence.
pub fn tail_masked(tail: u32, pos: u8) -> (r: u32)
    requires
        1 <= pos <= 3,
    ensures
        r == (tail & 0x3f) << (6 * (pos - 1)),
{
    tail_data(tail) << (6 * (pos - 1))
}

/// Decode the codepoint led by `head`, pulling its continuation bytes from
/// `bytes` starting at `*pos`.  On success `*pos` moves past the
/// continuation bytes; on failure it is unchanged.
pub fn next_codepoint_head(bytes: &Vec<u8>, pos: &mut usize, head: u8) -> (r: Option<char>)
    requires
        *old(pos) <= bytes@.len(),
    ensures
        match spec_decode(bytes@, *old(pos) as int, head) {
            Some((c, p2)) => r == Some(c) && *final(pos) == p2 && p2 <= bytes@.len(),
            None => r is None && *final(pos) == *old(pos),
        },
{
    match get_head_type(head) {
        UTF8HeadType::Single => {
            let ch = head as char;
            proof {
                assert(head <= 0x7f ==> (head & 0x7f) == head) by (bit_vector);
                assert(is_scalar(leading_bits_width_1(head)));
                vstd::utf8::char_u32_cast(ch, leading_bits_width_1(head));
            }
            Some(ch)
        }
        UTF8HeadType::Double => {
            if bytes.len() - *pos < 1 {
                return None;
            }
            let t1 = bytes[*pos] as u32;
            let d = get_head_data(head).unwrap();
            let v = ((d as u32) << 6) | tail_masked(t1, 1);
            proof {
                let tails = bytes@.subrange(*pos as int, *pos + 1);
                let b1: u8 = bytes@[*pos as int];
                assert(tails[0] == b1);
                assert(((d as u32) << 6) | ((t1 & 0x3f) << 0) == ((((head & 0x1f)
                    as u32) << 6) | ((b1 & 0x3f) as u32))) by (bit_vector)
                    requires
                        d == head & 0x1f,
                        t1 == b1 as u32,
                ;
                assert(v == codepoint_width_2(head, b1));
            }
            match char::from_u32(v) {
                Some(c) => {
                    proof {
                        vstd::utf8::char_u32_cast(c, v);
                    }
                    *pos = *pos + 1;
                    Some(c)
                }
                None => None,
            }
        }
        UTF8HeadType::Triple => {
            if bytes.len() - *pos < 2 {
                return None;
            }
            let t1 = bytes[*pos] as u32;
            let t2 = bytes[*pos + 1] as u32;
            let d = get_head_data(head).unwrap();
            let v = ((d as u32) << 12) | tail_masked(t1, 2) | tail_masked(t2, 1);
            proof {
                let tails = bytes@.subrange(*pos as int, *pos + 2);
                let b1: u8 = bytes@[*pos as int];
                let b2: u8 = bytes@[*pos + 1];
                assert(tails[0] == b1 && tails[1] == b2);
                assert(((d as u32) << 12) | ((t1 & 0x3f) << 6) | ((t2 & 0x3f) << 0) == ((((head
                    & 0x0f) as u32) << 12) | (((b1 & 0x3f) as u32) << 6) | ((b2 & 0x3f)
                    as u32))) by (bit_vector)
                    requires
                        d == head & 0x0f,
                        t1 == b1 as u32,
                        t2 == b2 as u32,
                ;
                assert(v == codepoint_width_3(head, b1, b2));
            }
            match char::from_u32(v) {
                Some(c) => {
                    proof {
                        vstd::utf8::char_u32_cast(c, v);
                    }
                    *pos = *pos + 2;
                    Some(c)
                }
                None => None,
            }
        }
        UTF8HeadType::Quad => {
            if bytes.len() - *pos < 3 {
                return None;
            }
            let t1 = bytes[*pos] as u32;
            let t2 = bytes[*pos + 1] as u32;
            let t3 = bytes[*pos + 2] as u32;
            let d = get_head_data(head).unwrap();
            let v = ((d as u32) << 18) | tail_masked(t1, 3) | tail_masked(t2, 2) | tail_masked(
                t3,
                1,
            );
            proof {
                let tails = bytes@.subrange(*pos as int, *pos + 3);
                let b1: u8 = bytes@[*pos as int];
                let b2: u8 = bytes@[*pos + 1];
                let b3: u8 = bytes@[*pos + 2];
                assert(tails[0] == b1 && tails[1] == b2 && tails[2] == b3);
                assert(((d as u32) << 18) | ((t1 & 0x3f) << 12) | ((t2 & 0x3f) << 6) | ((t3
                    & 0x3f) << 0) == ((((head & 0x07) as u32) << 18) | (((b1 & 0x3f)
                    as u32) << 12) | (((b2 & 0x3f) as u32) << 6) | ((b3 & 0x3f) as u32)))
                    by (bit_vector)
                    requires
                        d == head & 0x07,
                        t1 == b1 as u32,
                        t2 == b2 as u32,
                        t3 == b3 as u32,
                ;
                assert(v == codepoint_width_4(head, b1, b2, b3));
            }
            match char::from_u32(v) {
                Some(c) => {
                    proof {
                        vstd::utf8::char_u32_cast(c, v);
                    }
                    *pos = *pos + 3;
                    Some(c)
                }
                None => None,
            }
        }
        UTF8HeadType::Unknown => None,
    }
}

/// Decode the codepoint that starts at `bytes[*pos]`.  On success `*pos`
/// moves past the whole sequence; on failure it stands after the leading
/// byte.
pub fn next_codepoint(bytes: &Vec<u8>, pos: &mut usize) -> (r: Option<char>)
    requires
        *old(pos) < bytes@.len(),
    ensures
        match spec_next_codepoint(bytes@, *old(pos) as int) {
            Some((c, p2)) => r == Some(c) && *final(pos) == p2 && p2 <= bytes@.len(),
            None => r is None && *final(pos) == *old(pos) + 1,
        },
{
    let head = bytes[*pos];
    proof {
        broadcast use vstd::std_specs::vec::axiom_spec_len;

        assert(bytes.len() == bytes@.len());
    }
    *pos = *pos + 1;
    next_codepoint_head(bytes, pos, head)
}

} // verus!
