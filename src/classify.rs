//! Stateless, chunk-local byte classification.
//!
//! Each lane of a 16-byte register is judged from its own byte and the three
//! bytes before it. Two checks run on every lane: a special-case check, the
//! bitwise AND of three nibble-indexed lookup tables over the pair
//! (previous byte, current byte), and a multibyte-length check that says
//! whether a third or fourth byte of a sequence is owed at the lane.
use vstd::prelude::*;

verus! {

/// Number of lanes in one vector register.
pub const LANES: usize = 16;

/// One vector register: sixteen byte lanes.
pub type Register = [u8; 16];

/// A lead byte followed by something other than a continuation byte.
pub const TOO_SHORT: u8 = 0x01;
/// A continuation byte after an ASCII byte.
pub const TOO_LONG: u8 = 0x02;
/// `1110_0000 100_____`: a three-byte form of a two-byte code point.
pub const OVERLONG_3: u8 = 0x04;
/// `1111_0100 1001____` and above: beyond U+10FFFF.
pub const TOO_LARGE: u8 = 0x08;
/// `1110_1101 101_____`: an encoded surrogate.
pub const SURROGATE: u8 = 0x10;
/// `1100_000_ 10______`: a two-byte form of an ASCII code point.
pub const OVERLONG_2: u8 = 0x20;
/// `1111_0101 1000____` and above: beyond U+10FFFF (shares its bit).
pub const TOO_LARGE_1000: u8 = 0x40;
/// `1111_0000 1000____`: a four-byte form of a three-byte code point.
pub const OVERLONG_4: u8 = 0x40;
/// Two continuation bytes in a row.
pub const TWO_CONTS: u8 = 0x80;
/// Flags that every low nibble of the first byte lets through.
pub const CARRY: u8 = 0x83;

/// Flags selected by the high nibble of the previous byte.
pub const BYTE_1_HIGH: [u8; 16] = [
    0x02, 0x02, 0x02, 0x02, 0x02, 0x02, 0x02, 0x02,
    0x80, 0x80, 0x80, 0x80,
    0x21, 0x01, 0x15, 0x49,
];

/// Flags selected by the low nibble of the previous byte.
pub const BYTE_1_LOW: [u8; 16] = [
    0xE7, 0xA3, 0x83, 0x83, 0x8B, 0xCB, 0xCB, 0xCB,
    0xCB, 0xCB, 0xCB, 0xCB, 0xCB, 0xDB, 0xCB, 0xCB,
];

/// Flags selected by the high nibble of the current byte.
pub const BYTE_2_HIGH: [u8; 16] = [
    0x01, 0x01, 0x01, 0x01, 0x01, 0x01, 0x01, 0x01,
    0xE6, 0xAE, 0xBA, 0xBA,
    0x01, 0x01, 0x01, 0x01,
];

/// A continuation byte: `10xx_xxxx`.
pub open spec fn is_cont(b: u8) -> bool {
    0x80 <= b && b < 0xC0
}

/// A third or fourth byte of a sequence is owed here: the byte two back
/// opens a sequence of three or more bytes, or the byte three back opens one
/// of four.
pub open spec fn owes_later_cont(p3: u8, p2: u8) -> bool {
    p2 >= 0xE0 || p3 >= 0xF0
}

/// Whether the lane holding `c`, preceded by `p3 p2 p1`, is malformed.
pub open spec fn lane_bad(p3: u8, p2: u8, p1: u8, c: u8) -> bool {
    let cont = is_cont(c);
    ||| (p1 < 0x80 && cont)
    ||| (p1 >= 0xC0 && !cont)
    ||| ((p1 == 0xC0 || p1 == 0xC1) && cont)
    ||| (p1 == 0xE0 && 0x80 <= c && c < 0xA0)
    ||| (p1 == 0xED && 0xA0 <= c && c < 0xC0)
    ||| (p1 == 0xF0 && 0x80 <= c && c < 0x90)
    ||| (p1 >= 0xF4 && 0x90 <= c && c < 0xC0)
    ||| (p1 >= 0xF5 && 0x80 <= c && c < 0x90)
    ||| ((is_cont(p1) && cont) != owes_later_cont(p3, p2))
}

/// A lane that ends a register in the middle of a sequence: the lead byte
/// `3 - k` lanes back declares more bytes than the register has left.
pub open spec fn opens_past_end(p3: u8, p2: u8, p1: u8) -> bool {
    p1 >= 0xC0 || p2 >= 0xE0 || p3 >= 0xF0
}

/// The special-case flags of the pair (`p1`, `c`).
pub fn special_case(p1: u8, c: u8) -> (r: u8)
    ensures
        r & 0x7F != 0 <==> (
            (p1 < 0x80 && is_cont(c))
            || (p1 >= 0xC0 && !is_cont(c))
            || ((p1 == 0xC0 || p1 == 0xC1) && is_cont(c))
            || (p1 == 0xE0 && 0x80 <= c && c < 0xA0)
            || (p1 == 0xED && 0xA0 <= c && c < 0xC0)
            || (p1 == 0xF0 && 0x80 <= c && c < 0x90)
            || (p1 >= 0xF4 && 0x90 <= c && c < 0xC0)
            || (p1 >= 0xF5 && 0x80 <= c && c < 0x90)),
        r & 0x80 != 0 <==> (is_cont(p1) && is_cont(c)),
{
    assert(p1 >> 4u8 < 16 && p1 & 0x0F < 16 && c >> 4u8 < 16) by (bit_vector);
    let a = BYTE_1_HIGH[(p1 >> 4) as usize];
    let b = BYTE_1_LOW[(p1 & 0x0F) as usize];
    let d = BYTE_2_HIGH[(c >> 4) as usize];
    proof {
        lemma_tables(p1, c, a, b, d);
    }
    a & b & d
}

proof fn lemma_tables(p1: u8, c: u8, a: u8, b: u8, d: u8)
    requires
        a == BYTE_1_HIGH[(p1 >> 4u8) as int],
        b == BYTE_1_LOW[(p1 & 0x0F) as int],
        d == BYTE_2_HIGH[(c >> 4u8) as int],
    ensures
        (a & b & d) & 0x7F != 0 <==> (
            (p1 < 0x80 && is_cont(c))
            || (p1 >= 0xC0 && !is_cont(c))
            || ((p1 == 0xC0 || p1 == 0xC1) && is_cont(c))
            || (p1 == 0xE0 && 0x80 <= c && c < 0xA0)
            || (p1 == 0xED && 0xA0 <= c && c < 0xC0)
            || (p1 == 0xF0 && 0x80 <= c && c < 0x90)
            || (p1 >= 0xF4 && 0x90 <= c && c < 0xC0)
            || (p1 >= 0xF5 && 0x80 <= c && c < 0x90)),
        (a & b & d) & 0x80 != 0 <==> (is_cont(p1) && is_cont(c)),
{
    let h = p1 >> 4u8;
    let l = p1 & 0x0F;
    let e = c >> 4u8;
    assert(p1 >> 4u8 < 16 && p1 & 0x0F < 16 && c >> 4u8 < 16) by (bit_vector);
    assert(a == (if h < 8 { 0x02u8 } else if h < 12 { 0x80u8 } else if h == 12 { 0x21u8 }
        else if h == 13 { 0x01u8 } else if h == 14 { 0x15u8 } else { 0x49u8 }));
    assert(b == (if l == 0 { 0xE7u8 } else if l == 1 { 0xA3u8 } else if l < 4 { 0x83u8 }
        else if l == 4 { 0x8Bu8 } else if l == 13 { 0xDBu8 } else { 0xCBu8 }));
    assert(d == (if e < 8 { 0x01u8 } else if e == 8 { 0xE6u8 } else if e == 9 { 0xAEu8 }
        else if e < 12 { 0xBAu8 } else { 0x01u8 }));
    assert(
        (h == p1 >> 4u8 && l == p1 & 0x0F && e == c >> 4u8
        && a == (if h < 8 { 0x02u8 } else if h < 12 { 0x80u8 } else if h == 12 { 0x21u8 }
            else if h == 13 { 0x01u8 } else if h == 14 { 0x15u8 } else { 0x49u8 })
        && b == (if l == 0 { 0xE7u8 } else if l == 1 { 0xA3u8 } else if l < 4 { 0x83u8 }
            else if l == 4 { 0x8Bu8 } else if l == 13 { 0xDBu8 } else { 0xCBu8 })
        && d == (if e < 8 { 0x01u8 } else if e == 8 { 0xE6u8 } else if e == 9 { 0xAEu8 }
            else if e < 12 { 0xBAu8 } else { 0x01u8 }))
        ==> (((a & b & d) & 0x7F != 0) == (
            (p1 < 0x80 && 0x80 <= c && c < 0xC0)
            || (p1 >= 0xC0 && !(0x80 <= c && c < 0xC0))
            || ((p1 == 0xC0 || p1 == 0xC1) && 0x80 <= c && c < 0xC0)
            || (p1 == 0xE0 && 0x80 <= c && c < 0xA0)
            || (p1 == 0xED && 0xA0 <= c && c < 0xC0)
            || (p1 == 0xF0 && 0x80 <= c && c < 0x90)
            || (p1 >= 0xF4 && 0x90 <= c && c < 0xC0)
            || (p1 >= 0xF5 && 0x80 <= c && c < 0x90))
        && (((a & b & d) & 0x80 != 0) == (0x80 <= p1 && p1 < 0xC0 && 0x80 <= c && c < 0xC0)))
    ) by (bit_vector);
}

/// The low seven special-case flags: malformed pairs (`p1`, `c`).
pub open spec fn pair_bad(p1: u8, c: u8) -> bool {
    ||| (p1 < 0x80 && is_cont(c))
    ||| (p1 >= 0xC0 && !is_cont(c))
    ||| ((p1 == 0xC0 || p1 == 0xC1) && is_cont(c))
    ||| (p1 == 0xE0 && 0x80 <= c && c < 0xA0)
    ||| (p1 == 0xED && 0xA0 <= c && c < 0xC0)
    ||| (p1 == 0xF0 && 0x80 <= c && c < 0x90)
    ||| (p1 >= 0xF4 && 0x90 <= c && c < 0xC0)
    ||| (p1 >= 0xF5 && 0x80 <= c && c < 0x90)
}

/// The byte `i` lanes into `current`, reaching back into `previous` for
/// negative `i`: the byte stream as it runs across a register boundary.
pub open spec fn window(previous: Seq<u8>, current: Seq<u8>, i: int) -> u8 {
    if i >= 0 {
        current[i]
    } else {
        previous[16 + i]
    }
}

/// Whether lane `i` of `current` is malformed, given the register before it.
pub open spec fn lane_bad_at(previous: Seq<u8>, current: Seq<u8>, i: int) -> bool {
    lane_bad(
        window(previous, current, i - 3),
        window(previous, current, i - 2),
        window(previous, current, i - 1),
        current[i],
    )
}

/// Some lane of the register is non-zero.
pub open spec fn nonzero(r: Seq<u8>) -> bool {
    exists|i: int| 0 <= i < 16 && #[trigger] r[i] != 0
}

/// The register's last lanes leave a sequence open past its end.
pub open spec fn register_open_at_end(r: Seq<u8>) -> bool {
    opens_past_end(r[13], r[14], r[15])
}

/// The error of one lane: the special-case flags with the length check
/// folded into the top bit.
pub fn lane_error(must23: u8, sc: u8) -> (r: u8)
    ensures
        r != 0 <==> (sc & 0x7F != 0 || ((sc & 0x80 != 0) != (must23 & 0x80 != 0))),
{
    assert(((must23 & 0x80) ^ sc) != 0 <==> (sc & 0x7F != 0 || ((sc & 0x80 != 0) != (must23
        & 0x80 != 0)))) by (bit_vector);
    (must23 & 0x80) ^ sc
}

/// One lane of the length check: all ones where a third or fourth byte of a
/// sequence is owed, else zero.
pub fn owed_mask(p2: u8, p3: u8) -> (r: u8)
    ensures
        r & 0x80 != 0 <==> owes_later_cont(p3, p2),
{
    let is_third_byte = p2.saturating_sub(0xDF);
    let is_fourth_byte = p3.saturating_sub(0xEF);
    let t = is_third_byte | is_fourth_byte;
    assert((is_third_byte | is_fourth_byte) != 0 <==> (is_third_byte != 0 || is_fourth_byte != 0))
        by (bit_vector);
    assert(0xFFu8 & 0x80 != 0 && 0u8 & 0x80 == 0) by (bit_vector);
    if t > 0 {
        0xFF
    } else {
        0
    }
}

/// The register shifted up by `n` lanes, the last `n` lanes of `previous`
/// sliding in at the bottom.
pub fn prev_n(current: &Register, previous: &Register, n: usize) -> (r: Register)
    requires
        1 <= n <= 3,
    ensures
        forall|i: int| 0 <= i < 16 ==> r[i] == window(previous@, current@, i - n),
{
    let mut r: Register = [0u8; 16];
    let mut i: usize = 0;
    while i < LANES
        invariant
            1 <= n <= 3,
            i <= 16,
            forall|k: int| 0 <= k < i ==> r[k] == window(previous@, current@, k - n),
        decreases 16 - i,
    {
        if i >= n {
            r[i] = current[i - n];
        } else {
            r[i] = previous[16 + i - n];
        }
        i += 1;
    }
    r
}

/// The special-case check, lane by lane, on each byte and the byte before it.
pub fn check_special_cases(current: &Register, prev1: &Register) -> (r: Register)
    ensures
        forall|i: int|
            0 <= i < 16 ==> {
                &&& (r[i] & 0x7F != 0) == pair_bad(prev1[i], current[i])
                &&& (r[i] & 0x80 != 0) == (is_cont(prev1[i]) && is_cont(current[i]))
            },
{
    let mut r: Register = [0u8; 16];
    let mut i: usize = 0;
    while i < LANES
        invariant
            i <= 16,
            forall|k: int|
                0 <= k < i ==> {
                    &&& (r[k] & 0x7F != 0) == pair_bad(prev1[k], current[k])
                    &&& (r[k] & 0x80 != 0) == (is_cont(prev1[k]) && is_cont(current[k]))
                },
        decreases 16 - i,
    {
        r[i] = special_case(prev1[i], current[i]);
        i += 1;
    }
    r
}

/// Whether each lane is owed a third or fourth byte of a sequence.
pub fn must_be_2_3_continuation(prev2: &Register, prev3: &Register) -> (r: Register)
    ensures
        forall|i: int| 0 <= i < 16 ==> (r[i] & 0x80 != 0) == owes_later_cont(prev3[i], prev2[i]),
{
    let mut r: Register = [0u8; 16];
    let mut i: usize = 0;
    while i < LANES
        invariant
            i <= 16,
            forall|k: int|
                0 <= k < i ==> (r[k] & 0x80 != 0) == owes_later_cont(prev3[k], prev2[k]),
        decreases 16 - i,
    {
        r[i] = owed_mask(prev2[i], prev3[i]);
        i += 1;
    }
    r
}

/// The multibyte-length check folded into the special-case flags `sc`: a
/// lane of the result is non-zero exactly where the lane is malformed.
pub fn check_multibyte_lengths(current: &Register, previous: &Register, sc: &Register) -> (r:
    Register)
    requires
        forall|i: int|
            0 <= i < 16 ==> {
                &&& (sc[i] & 0x7F != 0) == pair_bad(window(previous@, current@, i - 1), current[i])
                &&& (sc[i] & 0x80 != 0) == (is_cont(window(previous@, current@, i - 1)) && is_cont(
                    current[i],
                ))
            },
    ensures
        forall|i: int| 0 <= i < 16 ==> (r[i] != 0) == lane_bad_at(previous@, current@, i),
{
    let prev2 = prev_n(current, previous, 2);
    let prev3 = prev_n(current, previous, 3);
    let must23 = must_be_2_3_continuation(&prev2, &prev3);
    let mut r: Register = [0u8; 16];
    let mut i: usize = 0;
    while i < LANES
        invariant
            i <= 16,
            forall|k: int| 0 <= k < 16 ==> prev2[k] == window(previous@, current@, k - 2),
            forall|k: int| 0 <= k < 16 ==> prev3[k] == window(previous@, current@, k - 3),
            forall|k: int|
                0 <= k < 16 ==> (must23[k] & 0x80 != 0) == owes_later_cont(prev3[k], prev2[k]),
            forall|k: int|
                0 <= k < 16 ==> {
                    &&& (sc[k] & 0x7F != 0) == pair_bad(
                        window(previous@, current@, k - 1),
                        current[k],
                    )
                    &&& (sc[k] & 0x80 != 0) == (is_cont(window(previous@, current@, k - 1))
                        && is_cont(current[k]))
                },
            forall|k: int| 0 <= k < i ==> (r[k] != 0) == lane_bad_at(previous@, current@, k),
        decreases 16 - i,
    {
        r[i] = lane_error(must23[i], sc[i]);
        i += 1;
    }
    r
}

/// Non-zero exactly where the register ends inside a sequence that needs
/// bytes beyond it.
pub fn is_incomplete(current: &Register) -> (r: Register)
    ensures
        nonzero(r@) == register_open_at_end(current@),
{
    let max_value: Register = [
        255, 255, 255, 255, 255, 255, 255, 255,
        255, 255, 255, 255, 255, 0xEF, 0xDF, 0xBF,
    ];
    let mut r: Register = [0u8; 16];
    let mut i: usize = 0;
    while i < LANES
        invariant
            i <= 16,
            forall|k: int| 0 <= k < i ==> r[k] == (if current[k] > max_value[k] { (current[k] - max_value[k]) as u8 } else { 0u8 }),
        decreases 16 - i,
    {
        r[i] = current[i].saturating_sub(max_value[i]);
        i += 1;
    }
    assert(forall|k: int| 0 <= k < 13 ==> r[k] == 0);
    proof {
        if register_open_at_end(current@) {
            if current[15] >= 0xC0 {
                assert(r[15] != 0);
            } else if current[14] >= 0xE0 {
                assert(r[14] != 0);
            } else {
                assert(r[13] != 0);
            }
        }
    }
    r
}

/// Whether every lane holds an ASCII byte.
pub fn is_ascii(current: &Register) -> (r: bool)
    ensures
        r == (forall|i: int| 0 <= i < 16 ==> current[i] < 0x80),
{
    let mut i: usize = 0;
    while i < LANES
        invariant
            i <= 16,
            forall|k: int| 0 <= k < i ==> current[k] < 0x80,
        decreases 16 - i,
    {
        if current[i] >= 0x80 {
            return false;
        }
        i += 1;
    }
    true
}

/// Lane-wise OR.
pub fn or(a: &Register, b: &Register) -> (r: Register)
    ensures
        nonzero(r@) == (nonzero(a@) || nonzero(b@)),
{
    let mut r: Register = [0u8; 16];
    let mut i: usize = 0;
    while i < LANES
        invariant
            i <= 16,
            forall|k: int| 0 <= k < i ==> (r[k] != 0) == (a[k] != 0 || b[k] != 0),
        decreases 16 - i,
    {
        let x = a[i];
        let y = b[i];
        assert((x | y) != 0 <==> (x != 0 || y != 0)) by (bit_vector);
        r[i] = x | y;
        i += 1;
    }
    r
}

/// Whether any lane is non-zero.
pub fn has_error(error: &Register) -> (r: bool)
    ensures
        r == nonzero(error@),
{
    let mut i: usize = 0;
    while i < LANES
        invariant
            i <= 16,
            forall|k: int| 0 <= k < i ==> error[k] == 0,
        decreases 16 - i,
    {
        if error[i] != 0 {
            return true;
        }
        i += 1;
    }
    false
}

} // verus!
