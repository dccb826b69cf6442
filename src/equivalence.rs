//! The lane-wise verdict agrees with byte-by-byte UTF-8 decoding.
use crate::classify::{is_cont, lane_bad, opens_past_end};
use crate::engine::{at, bad_at, lanes_valid};
use vstd::prelude::*;
use vstd::utf8::{
    codepoint_width_2, codepoint_width_3, codepoint_width_4, valid_first_scalar, valid_utf8,
};

verus! {

/// The well-formed first sequences of UTF-8, by byte ranges: `b0` to `b3`
/// are the first four bytes, zero where the buffer ends.
pub open spec fn first_ok(b0: u8, b1: u8, b2: u8, b3: u8) -> bool {
    ||| b0 < 0x80
    ||| (0xC2 <= b0 <= 0xDF && is_cont(b1))
    ||| (b0 == 0xE0 && 0xA0 <= b1 <= 0xBF && is_cont(b2))
    ||| ((0xE1 <= b0 <= 0xEC || 0xEE <= b0 <= 0xEF) && is_cont(b1) && is_cont(b2))
    ||| (b0 == 0xED && 0x80 <= b1 <= 0x9F && is_cont(b2))
    ||| (b0 == 0xF0 && 0x90 <= b1 <= 0xBF && is_cont(b2) && is_cont(b3))
    ||| (0xF1 <= b0 <= 0xF3 && is_cont(b1) && is_cont(b2) && is_cont(b3))
    ||| (b0 == 0xF4 && 0x80 <= b1 <= 0x8F && is_cont(b2) && is_cont(b3))
}

/// The length that a lead byte declares.
pub open spec fn width(b0: u8) -> int {
    if b0 < 0x80 {
        1
    } else if b0 < 0xE0 {
        2
    } else if b0 < 0xF0 {
        3
    } else {
        4
    }
}

proof fn lemma_codepoints(b0: u8, b1: u8, b2: u8, b3: u8)
    ensures
        vstd::utf8::codepoint_width_1(b0) <= 0x7F,
        codepoint_width_2(b0, b1) <= 0x7FF,
        (0xC0 <= b0 <= 0xDF && is_cont(b1)) ==> (codepoint_width_2(b0, b1) >= 0x80 <==> b0 >= 0xC2),
        (0xE0 <= b0 <= 0xEF && is_cont(b1) && is_cont(b2)) ==> {
            &&& (codepoint_width_3(b0, b1, b2) >= 0x800 <==> (b0 > 0xE0 || b1 >= 0xA0))
            &&& ((0xD800 <= codepoint_width_3(b0, b1, b2) <= 0xDFFF) <==> (b0 == 0xED && b1 >= 0xA0))
        },
        (0xF0 <= b0 <= 0xF7 && is_cont(b1) && is_cont(b2) && is_cont(b3)) ==> {
            0x10000 <= codepoint_width_4(b0, b1, b2, b3) <= 0x10FFFF <==> ((b0 > 0xF0 || b1
                >= 0x90) && (b0 < 0xF4 || (b0 == 0xF4 && b1 < 0x90)))
        },
{
    assert(((b0 & 0x7F) as u32) <= 0x7F) by (bit_vector);
    assert(((((b0 & 0x1F) as u32) << 6u32) | ((b1 & 0x3F) as u32)) <= 0x7FF) by (bit_vector);
    assert((0xC0 <= b0 && b0 <= 0xDF && 0x80 <= b1 && b1 < 0xC0) ==> ((((((b0 & 0x1F) as u32)
        << 6u32) | ((b1 & 0x3F) as u32)) >= 0x80) == (b0 >= 0xC2))) by (bit_vector);
    assert((0xE0 <= b0 && b0 <= 0xEF && 0x80 <= b1 && b1 < 0xC0 && 0x80 <= b2 && b2 < 0xC0) ==> ({
        let cp = (((b0 & 0x0F) as u32) << 12u32) | (((b1 & 0x3F) as u32) << 6u32) | ((b2
            & 0x3F) as u32);
        (cp >= 0x800) == (b0 > 0xE0 || b1 >= 0xA0) && (0xD800 <= cp && cp <= 0xDFFF) == (b0
            == 0xED && b1 >= 0xA0)
    })) by (bit_vector);
    assert((0xF0 <= b0 && b0 <= 0xF7 && 0x80 <= b1 && b1 < 0xC0 && 0x80 <= b2 && b2 < 0xC0
        && 0x80 <= b3 && b3 < 0xC0) ==> ({
        let cp = (((b0 & 0x07) as u32) << 18u32) | (((b1 & 0x3F) as u32) << 12u32) | (((b2
            & 0x3F) as u32) << 6u32) | ((b3 & 0x3F) as u32);
        (0x10000 <= cp && cp <= 0x10FFFF) == ((b0 > 0xF0 || b1 >= 0x90) && (b0 < 0xF4 || (b0
            == 0xF4 && b1 < 0x90)))
    })) by (bit_vector);
}

/// vstd's first-scalar test is the byte-range table.
proof fn lemma_first_scalar(s: Seq<u8>)
    requires
        s.len() > 0,
    ensures
        valid_first_scalar(s) == first_ok(at(s, 0), at(s, 1), at(s, 2), at(s, 3)),
        valid_first_scalar(s) ==> vstd::utf8::length_of_first_scalar(s) == width(s[0]),
{
    lemma_codepoints(at(s, 0), at(s, 1), at(s, 2), at(s, 3));
    assert(at(s, 0) == s[0]);
    if s.len() >= 2 {
        assert(at(s, 1) == s[1]);
    }
    if s.len() >= 3 {
        assert(at(s, 2) == s[2]);
    }
    if s.len() >= 4 {
        assert(at(s, 3) == s[3]);
    }
    let b0 = s[0];
    if b0 < 0x80 {
    } else if b0 < 0xC0 {
    } else if b0 < 0xE0 {
    } else if b0 < 0xF0 {
    } else if b0 <= 0xF7 {
    } else {
    }
}

/// The lanes of the first sequence, with bytes past the end read as zero:
/// a well-formed first sequence has no bad lane and fits in the buffer; an
/// ill-formed one has a bad lane no later than the buffer's end.
proof fn lemma_first_lanes(b0: u8, b1: u8, b2: u8, b3: u8, n: int)
    requires
        n >= 1,
        n < 2 ==> b1 == 0,
        n < 3 ==> b2 == 0,
        n < 4 ==> b3 == 0,
    ensures
        first_ok(b0, b1, b2, b3) ==> {
            &&& width(b0) <= n
            &&& !lane_bad(0, 0, 0, b0)
            &&& (width(b0) >= 2 ==> !lane_bad(0, 0, b0, b1))
            &&& (width(b0) >= 3 ==> !lane_bad(0, b0, b1, b2))
            &&& (width(b0) >= 4 ==> !lane_bad(b0, b1, b2, b3))
            &&& (width(b0) == 1 ==> !opens_past_end(0, 0, b0))
            &&& (width(b0) == 2 ==> !opens_past_end(0, b0, b1))
            &&& (width(b0) == 3 ==> !opens_past_end(b0, b1, b2))
            &&& (width(b0) == 4 ==> !opens_past_end(b1, b2, b3))
        },
        !first_ok(b0, b1, b2, b3) ==> {
            ||| lane_bad(0, 0, 0, b0)
            ||| lane_bad(0, 0, b0, b1)
            ||| (n >= 2 && lane_bad(0, b0, b1, b2))
            ||| (n >= 3 && lane_bad(b0, b1, b2, b3))
        },
{
}

/// A closed context (no sequence open before it) judges the next lanes as
/// the start of a buffer does.
proof fn lemma_context(x3: u8, x2: u8, x1: u8, c0: u8, c1: u8, c: u8)
    requires
        !opens_past_end(x3, x2, x1),
    ensures
        lane_bad(x3, x2, x1, c) == lane_bad(0, 0, 0, c),
        lane_bad(x2, x1, c0, c) == lane_bad(0, 0, c0, c),
        lane_bad(x1, c0, c1, c) == lane_bad(0, c0, c1, c),
{
}

/// The lane-wise verdict is UTF-8 validity: every position and the end of
/// the buffer pass the lane check exactly when the buffer decodes, byte by
/// byte, into Unicode scalars (no overlong form, no surrogate, nothing above
/// U+10FFFF, no stray or missing continuation byte).
pub proof fn lemma_lanes_valid_iff_utf8(s: Seq<u8>)
    ensures
        lanes_valid(s) == valid_utf8(s),
    decreases s.len(),
{
    if s.len() == 0 {
        assert(!bad_at(s, 0));
    } else {
        let n = s.len() as int;
        let b0 = at(s, 0);
        let b1 = at(s, 1);
        let b2 = at(s, 2);
        let b3 = at(s, 3);
        lemma_first_scalar(s);
        lemma_first_lanes(b0, b1, b2, b3, n);
        if first_ok(b0, b1, b2, b3) {
            let w = width(b0);
            let rest = s.subrange(w, n);
            assert(vstd::utf8::pop_first_scalar(s) == rest);
            lemma_lanes_valid_iff_utf8(rest);
            let x1 = at(s, w - 1);
            let x2 = at(s, w - 2);
            let x3 = at(s, w - 3);
            assert(!opens_past_end(x3, x2, x1));
            assert forall|j: int| 0 <= j < w implies !#[trigger] bad_at(s, j) by {
                if j == 0 {
                } else if j == 1 {
                } else if j == 2 {
                } else {
                }
            }
            assert forall|j: int| w <= j <= n implies bad_at(s, j) == #[trigger] bad_at(
                rest,
                j - w,
            ) by {
                let i = j - w;
                assert(at(rest, i) == at(s, j));
                assert(i >= 1 ==> at(rest, i - 1) == at(s, j - 1));
                assert(i >= 2 ==> at(rest, i - 2) == at(s, j - 2));
                assert(i >= 3 ==> at(rest, i - 3) == at(s, j - 3));
                if i == 0 {
                    lemma_context(x3, x2, x1, 0, 0, at(s, j));
                } else if i == 1 {
                    lemma_context(x3, x2, x1, at(s, w), 0, at(s, j));
                } else if i == 2 {
                    lemma_context(x3, x2, x1, at(s, w), at(s, w + 1), at(s, j));
                }
            }
            if lanes_valid(rest) {
                assert forall|j: int| 0 <= j <= n implies !#[trigger] bad_at(s, j) by {
                    if j >= w {
                        assert(!bad_at(rest, j - w));
                    }
                }
            }
            if lanes_valid(s) {
                assert forall|i: int| 0 <= i <= rest.len() implies !#[trigger] bad_at(rest, i) by {
                    assert(!bad_at(s, i + w));
                }
            }
        } else {
            if lane_bad(0, 0, 0, b0) {
                assert(bad_at(s, 0));
            } else if lane_bad(0, 0, b0, b1) {
                assert(bad_at(s, 1));
            } else if n >= 2 && lane_bad(0, b0, b1, b2) {
                assert(bad_at(s, 2));
            } else {
                assert(bad_at(s, 3));
            }
        }
    }
}

/// A buffer of ASCII bytes alone, of any length, is valid UTF-8.
pub proof fn lemma_ascii_is_valid(s: Seq<u8>)
    requires
        forall|i: int| 0 <= i < s.len() ==> s[i] < 0x80,
    ensures
        valid_utf8(s),
{
    assert forall|j: int| 0 <= j <= s.len() implies !#[trigger] bad_at(s, j) by {
        assert(at(s, j) < 0x80 && at(s, j - 1) < 0x80 && at(s, j - 2) < 0x80 && at(s, j - 3)
            < 0x80);
    }
    lemma_lanes_valid_iff_utf8(s);
}

/// A buffer whose last bytes start a sequence longer than what is left of
/// it (a lead byte among the last three that declares more bytes than
/// follow) is not valid UTF-8.
pub proof fn lemma_truncated_end_is_invalid(s: Seq<u8>)
    requires
        opens_past_end(at(s, s.len() - 3), at(s, s.len() - 2), at(s, s.len() - 1)),
    ensures
        !valid_utf8(s),
{
    assert(bad_at(s, s.len() as int));
    lemma_lanes_valid_iff_utf8(s);
}

} // verus!
