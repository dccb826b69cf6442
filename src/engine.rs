//! The validation driver: the state carried from register to register, the
//! 64-byte chunk of four registers, and the walk over a whole buffer.
use crate::classify::{
    check_multibyte_lengths, check_special_cases, has_error, is_ascii, is_incomplete, lane_bad,
    lane_bad_at, nonzero, opens_past_end, or, prev_n, register_open_at_end,
    window, Register, LANES,
};
use crate::equivalence::lemma_lanes_valid_iff_utf8;
use vstd::prelude::*;
use vstd::utf8::{decode_utf8, valid_utf8};

verus! {

/// Bytes in one chunk: four registers.
pub const CHUNK_WIDTH: usize = 64;

/// The filler that pads the last partial chunk: ASCII, so it neither errs
/// nor extends an open sequence.
pub const PADDING: u8 = 0x20;

/// Byte `j` of the stream, or zero outside it.
pub open spec fn at(s: Seq<u8>, j: int) -> u8 {
    if 0 <= j < s.len() {
        s[j]
    } else {
        0
    }
}

/// Position `j` of the stream is malformed, judged from its byte and the
/// three before it. At `j == s.len()` this says that the stream ends inside
/// a sequence.
pub open spec fn bad_at(s: Seq<u8>, j: int) -> bool {
    lane_bad(at(s, j - 3), at(s, j - 2), at(s, j - 1), at(s, j))
}

/// Some position before `n` is malformed.
pub open spec fn some_bad_before(s: Seq<u8>, n: int) -> bool {
    exists|j: int| 0 <= j < n && #[trigger] bad_at(s, j)
}

/// The verdict of the vectorised check: no position is malformed, and the
/// buffer does not end inside a sequence.
pub open spec fn lanes_valid(s: Seq<u8>) -> bool {
    forall|j: int| 0 <= j <= s.len() ==> !#[trigger] bad_at(s, j)
}

/// What the driver keeps between registers.
pub struct Utf8CheckingState {
    /// Accumulated error lanes; non-zero anywhere means invalid.
    pub error: Register,
    /// Non-zero where the last non-ASCII register left a sequence open.
    pub incomplete: Register,
    /// The last register processed, for the bytes before the next one.
    pub prev: Register,
}

impl Utf8CheckingState {
    /// The state after processing the stream `s` register by register.
    pub open spec fn tracks(&self, s: Seq<u8>) -> bool {
        &&& forall|k: int| 0 <= k < 16 ==> self.prev[k] == at(s, s.len() - 16 + k)
        &&& nonzero(self.error@) == some_bad_before(s, s.len() as int)
        &&& (bad_at(s, s.len() as int) ==> nonzero(self.incomplete@))
        &&& (nonzero(self.incomplete@) ==> nonzero(self.error@) || bad_at(s, s.len() as int))
    }

    /// Folds whatever is still open into the error: the end-of-buffer check.
    pub fn check_eof(error: &Register, incomplete: &Register) -> (r: Register)
        ensures
            nonzero(r@) == (nonzero(error@) || nonzero(incomplete@)),
    {
        or(error, incomplete)
    }

    /// Processes one register.
    pub fn check_bytes(current: &Register, previous: &mut Utf8CheckingState)
        ensures
            forall|s: Seq<u8>| #[trigger] old(previous).tracks(s) ==> final(previous).tracks(s + current@),
    {
        let ghost old_state = *previous;
        let ghost mut lengths_seen: Seq<u8> = Seq::empty();
        let ascii = is_ascii(current);
        if ascii {
            previous.error = Self::check_eof(&previous.error, &previous.incomplete);
        } else {
            let prev1 = prev_n(current, &previous.prev, 1);
            let sc = check_special_cases(current, &prev1);
            let lengths = check_multibyte_lengths(current, &previous.prev, &sc);
            previous.error = or(&previous.error, &lengths);
            previous.incomplete = is_incomplete(current);
            proof {
                lengths_seen = lengths@;
                assert(forall|i: int|
                    0 <= i < 16 ==> (lengths_seen[i] != 0) == lane_bad_at(old_state.prev@, current@, i));
            }
        }
        previous.prev = *current;
        proof {
            assert forall|s: Seq<u8>| #[trigger] old_state.tracks(s) implies previous.tracks(
                s + current@,
            ) by {
                let t = s + current@;
                lemma_extend(s, old_state.prev@, current@);
                lemma_ascii_lane(at(t, t.len() - 3), at(t, t.len() - 2), at(t, t.len() - 1), 0);
                lemma_some_bad_extend(s, old_state.prev@, current@);
                if ascii {
                    lemma_ascii_register(old_state.prev@, current@);
                    assert(bad_at(s, s.len() as int) == register_open_at_end(old_state.prev@));
                } else if nonzero(lengths_seen) {
                    let i = choose|i: int| 0 <= i < 16 && #[trigger] lengths_seen[i] != 0;
                    assert(lane_bad_at(old_state.prev@, current@, i));
                } else if exists|i: int| 0 <= i < 16 && #[trigger] lane_bad_at(
                    old_state.prev@,
                    current@,
                    i,
                ) {
                    let i = choose|i: int| 0 <= i < 16 && #[trigger] lane_bad_at(
                        old_state.prev@,
                        current@,
                        i,
                    );
                    assert(lengths_seen[i] != 0);
                }
                assert forall|k: int| 0 <= k < 16 implies previous.prev[k] == at(
                    t,
                    t.len() - 16 + k,
                ) by {}
            }
        }
    }
}

/// The opaque failure of a validation: it carries no position and no kind.
#[derive(Debug, Clone, Copy, PartialEq, Eq)]
pub struct Utf8Error {}

/// One chunk of input: four registers of sixteen bytes.
pub struct SimdInput {
    pub v0: Register,
    pub v1: Register,
    pub v2: Register,
    pub v3: Register,
}

/// Sixteen bytes of `input` from `offset` on.
fn load_register(input: &[u8], offset: usize) -> (r: Register)
    requires
        offset + 16 <= input@.len(),
    ensures
        r@ == input@.subrange(offset as int, offset + 16),
{
    let n = input.len();
    let mut r: Register = [0u8; 16];
    let mut i: usize = 0;
    while i < LANES
        invariant
            i <= 16,
            n == input@.len(),
            offset + 16 <= input@.len(),
            forall|k: int| 0 <= k < i ==> r[k] == input@[offset + k],
        decreases 16 - i,
    {
        r[i] = input[offset + i];
        i += 1;
    }
    assert(r@ =~= input@.subrange(offset as int, offset + 16));
    r
}

impl SimdInput {
    /// The chunk's bytes, lowest register first.
    pub open spec fn bytes(&self) -> Seq<u8> {
        self.v0@ + self.v1@ + self.v2@ + self.v3@
    }

    /// Loads the first chunk of `ptr`.
    pub fn new(ptr: &[u8]) -> (r: Self)
        requires
            ptr@.len() >= CHUNK_WIDTH,
        ensures
            r.bytes() == ptr@.subrange(0, CHUNK_WIDTH as int),
    {
        Self::new_at(ptr, 0)
    }

    /// Loads the chunk of `input` that starts at `offset`.
    pub fn new_at(input: &[u8], offset: usize) -> (r: Self)
        requires
            offset + CHUNK_WIDTH <= input@.len(),
        ensures
            r.bytes() == input@.subrange(offset as int, offset + CHUNK_WIDTH),
    {
        let len = input.len();
        proof {
            assert(offset + CHUNK_WIDTH <= len);
        }
        let r = SimdInput {
            v0: load_register(input, offset),
            v1: load_register(input, offset + 16),
            v2: load_register(input, offset + 32),
            v3: load_register(input, offset + 48),
        };
        assert(r.bytes() =~= input@.subrange(offset as int, offset + CHUNK_WIDTH));
        r
    }

    /// A fresh state: nothing processed, nothing wrong, nothing open.
    pub fn new_utf8_checking_state() -> (r: Utf8CheckingState)
        ensures
            r.tracks(Seq::empty()),
            !nonzero(r.error@),
            !nonzero(r.incomplete@),
    {
        let r = Utf8CheckingState { error: [0u8; 16], incomplete: [0u8; 16], prev: [0u8; 16] };
        assert(!bad_at(Seq::<u8>::empty(), 0));
        r
    }

    /// Processes the chunk's four registers in order.
    pub fn check_utf8(&self, state: &mut Utf8CheckingState)
        ensures
            forall|s: Seq<u8>| #[trigger] old(state).tracks(s) ==> final(state).tracks(s + self.bytes()),
    {
        Utf8CheckingState::check_bytes(&self.v0, state);
        Utf8CheckingState::check_bytes(&self.v1, state);
        Utf8CheckingState::check_bytes(&self.v2, state);
        Utf8CheckingState::check_bytes(&self.v3, state);
        proof {
            assert forall|s: Seq<u8>| #[trigger] old(state).tracks(s) implies state.tracks(
                s + self.bytes(),
            ) by {
                assert(s + self.v0@ + self.v1@ + self.v2@ + self.v3@ =~= s + self.bytes());
            }
        }
    }

    /// The end-of-buffer check: a sequence still open is an error.
    pub fn check_eof(state: &mut Utf8CheckingState)
        ensures
            forall|s: Seq<u8>| #[trigger] old(state).tracks(s) ==> (nonzero(final(state).error@) == !lanes_valid(s)),
    {
        state.error = Utf8CheckingState::check_eof(&state.error, &state.incomplete);
        proof {
            assert forall|s: Seq<u8>| #[trigger] old(state).tracks(s) implies (nonzero(state.error@) == !lanes_valid(s)) by {
                if !lanes_valid(s) {
                    let j = choose|j: int| 0 <= j <= s.len() && #[trigger] bad_at(s, j);
                    if j < s.len() {
                        assert(some_bad_before(s, s.len() as int));
                    }
                }
            }
        }
    }

    /// Whether any error was recorded.
    pub fn check_utf8_errors(state: &Utf8CheckingState) -> (r: bool)
        ensures
            r == nonzero(state.error@),
    {
        has_error(&state.error)
    }
}

/// Spaces appended to a buffer change no verdict.
pub proof fn lemma_padding(s: Seq<u8>, pad: Seq<u8>)
    requires
        forall|k: int| 0 <= k < pad.len() ==> pad[k] == PADDING,
    ensures
        lanes_valid(s + pad) == lanes_valid(s),
{
    let t = s + pad;
    let n = s.len() as int;
    assert(at(t, n) < 0x80);
    assert(at(t, n - 1) == at(s, n - 1) && at(t, n - 2) == at(s, n - 2) && at(t, n - 3) == at(s, n - 3));
    lemma_ascii_lane(at(t, n - 3), at(t, n - 2), at(t, n - 1), at(t, n));
    lemma_ascii_lane(at(s, n - 3), at(s, n - 2), at(s, n - 1), at(s, n));
    if !lanes_valid(s) {
        let j = choose|j: int| 0 <= j <= s.len() && #[trigger] bad_at(s, j);
        if j < n {
            assert(at(t, j) == at(s, j));
            assert(at(t, j - 1) == at(s, j - 1));
            assert(at(t, j - 2) == at(s, j - 2));
            assert(at(t, j - 3) == at(s, j - 3));
            assert(bad_at(t, j));
        } else {
            assert(bad_at(t, n));
        }
    }
    if !lanes_valid(t) {
        let j = choose|j: int| 0 <= j <= t.len() && #[trigger] bad_at(t, j);
        if j < n {
            assert(at(t, j) == at(s, j));
            assert(at(t, j - 1) == at(s, j - 1));
            assert(at(t, j - 2) == at(s, j - 2));
            assert(at(t, j - 3) == at(s, j - 3));
            assert(bad_at(s, j));
        } else {
            lemma_ascii_lane(at(t, j - 3), at(t, j - 2), at(t, j - 1), at(t, j));
            assert(opens_past_end(at(t, j - 3), at(t, j - 2), at(t, j - 1)));
            assert(bad_at(s, n));
        }
    }
}

/// Relies on `std::str::from_utf8`: it accepts exactly the well-formed
/// UTF-8 buffers and hands back the same bytes typed as text.
#[verifier::external_body]
fn as_text(bytes: &[u8]) -> (r: Option<&str>)
    ensures
        r is Some <==> valid_utf8(bytes@),
        r matches Some(t) ==> t@ == decode_utf8(bytes@),
{
    std::str::from_utf8(bytes).ok()
}

/// Validates `input`, chunk by chunk, and on success hands it back as text:
/// `Ok` exactly when the buffer is well-formed UTF-8.
pub fn validate_utf8_simd(input: &[u8]) -> (r: Result<&str, Utf8Error>)
    ensures
        r is Ok <==> valid_utf8(input@),
        r matches Ok(t) ==> t@ == decode_utf8(input@),
{
    let len = input.len();
    let mut state = SimdInput::new_utf8_checking_state();
    let lenminus64: usize = if len < CHUNK_WIDTH { 0 } else { len - CHUNK_WIDTH };
    let mut idx: usize = 0;
    while idx < lenminus64
        invariant
            len == input@.len(),
            lenminus64 == (if len < CHUNK_WIDTH { 0 } else { len - CHUNK_WIDTH }),
            idx <= len,
            state.tracks(input@.subrange(0, idx as int)),
        decreases len - idx,
    {
        let chunk = SimdInput::new_at(input, idx);
        chunk.check_utf8(&mut state);
        proof {
            assert(input@.subrange(0, idx as int) + chunk.bytes() =~= input@.subrange(
                0,
                idx + CHUNK_WIDTH,
            ));
        }
        idx += CHUNK_WIDTH;
    }
    let ghost stream = input@.subrange(0, idx as int);
    if idx < len {
        let mut tmpbuf: [u8; 64] = [PADDING; 64];
        let mut k: usize = 0;
        while k < len - idx
            invariant
                len == input@.len(),
                idx < len,
                len - idx <= CHUNK_WIDTH,
                k <= len - idx,
                forall|m: int| 0 <= m < k ==> tmpbuf[m] == input@[idx + m],
                forall|m: int| k <= m < 64 ==> tmpbuf[m] == PADDING,
            decreases len - idx - k,
        {
            tmpbuf[k] = input[idx + k];
            k += 1;
        }
        let chunk = SimdInput::new(tmpbuf.as_slice());
        chunk.check_utf8(&mut state);
        proof {
            let pad = tmpbuf@.subrange((len - idx) as int, 64);
            assert(input@.subrange(0, idx as int) + chunk.bytes() =~= input@ + pad);
            stream = input@ + pad;
            lemma_padding(input@, pad);
        }
    } else {
        proof {
            assert(input@.subrange(0, idx as int) =~= input@);
        }
    }
    SimdInput::check_eof(&mut state);
    proof {
        lemma_lanes_valid_iff_utf8(input@);
    }
    if SimdInput::check_utf8_errors(&state) {
        Err(Utf8Error {})
    } else {
        match as_text(input) {
            Some(text) => Ok(text),
            None => Err(Utf8Error {}),
        }
    }
}

/// A lane with an ASCII byte is malformed exactly when a sequence is still
/// open before it.
pub proof fn lemma_ascii_lane(p3: u8, p2: u8, p1: u8, c: u8)
    requires
        c < 0x80,
    ensures
        lane_bad(p3, p2, p1, c) == opens_past_end(p3, p2, p1),
{
}

/// Appending a register: the old positions keep their judgement, and the new
/// ones are judged as the register's lanes are.
proof fn lemma_extend(s: Seq<u8>, prev: Seq<u8>, cur: Seq<u8>)
    requires
        prev.len() == 16,
        cur.len() == 16,
        forall|k: int| 0 <= k < 16 ==> prev[k] == at(s, s.len() - 16 + k),
    ensures
        forall|j: int| j <= s.len() - 1 ==> bad_at(s + cur, j) == #[trigger] bad_at(s, j),
        forall|i: int|
            0 <= i < 16 ==> bad_at(s + cur, s.len() + i) == #[trigger] lane_bad_at(prev, cur, i),
{
    let t = s + cur;
    assert forall|j: int| j <= s.len() - 1 implies bad_at(t, j) == #[trigger] bad_at(s, j) by {
        assert(at(t, j) == at(s, j));
        assert(at(t, j - 1) == at(s, j - 1));
        assert(at(t, j - 2) == at(s, j - 2));
        assert(at(t, j - 3) == at(s, j - 3));
    }
    assert forall|i: int| 0 <= i < 16 implies bad_at(t, s.len() + i) == #[trigger] lane_bad_at(
        prev,
        cur,
        i,
    ) by {
        assert forall|d: int| 0 <= d <= 3 implies at(t, s.len() + i - d) == #[trigger] window(prev, cur, i - d)
        by {
            if i - d < 0 {
                assert(prev[16 + i - d] == at(s, s.len() - 16 + (16 + i - d)));
            }
        }
        assert(at(t, s.len() + i - 3) == window(prev, cur, i - 3));
        assert(at(t, s.len() + i - 2) == window(prev, cur, i - 2));
        assert(at(t, s.len() + i - 1) == window(prev, cur, i - 1));
        assert(at(t, s.len() + i) == window(prev, cur, i));
    }
}

/// Whether some position of `s + cur` is malformed, split at the join.
proof fn lemma_some_bad_extend(s: Seq<u8>, prev: Seq<u8>, cur: Seq<u8>)
    requires
        prev.len() == 16,
        cur.len() == 16,
        forall|j: int| j <= s.len() - 1 ==> bad_at(s + cur, j) == #[trigger] bad_at(s, j),
        forall|i: int|
            0 <= i < 16 ==> bad_at(s + cur, s.len() + i) == #[trigger] lane_bad_at(prev, cur, i),
    ensures
        some_bad_before(s + cur, s.len() + 16int) == (some_bad_before(s, s.len() as int) || exists|
            i: int,
        | 0 <= i < 16 && #[trigger] lane_bad_at(prev, cur, i)),
{
    let t = s + cur;
    if some_bad_before(t, s.len() + 16int) {
        let j = choose|j: int| 0 <= j < s.len() + 16 && #[trigger] bad_at(t, j);
        if j < s.len() {
            assert(bad_at(s, j));
        } else {
            assert(lane_bad_at(prev, cur, j - s.len()));
        }
    }
    if some_bad_before(s, s.len() as int) {
        let j = choose|j: int| 0 <= j < s.len() && #[trigger] bad_at(s, j);
        assert(bad_at(t, j));
    }
    if exists|i: int| 0 <= i < 16 && #[trigger] lane_bad_at(prev, cur, i) {
        let i = choose|i: int| 0 <= i < 16 && #[trigger] lane_bad_at(prev, cur, i);
        assert(bad_at(t, s.len() + i));
    }
}

/// An all-ASCII register has a malformed lane exactly when the register
/// before it left a sequence open.
proof fn lemma_ascii_register(prev: Seq<u8>, cur: Seq<u8>)
    requires
        prev.len() == 16,
        cur.len() == 16,
        forall|i: int| 0 <= i < 16 ==> cur[i] < 0x80,
    ensures
        (exists|i: int| 0 <= i < 16 && #[trigger] lane_bad_at(prev, cur, i)) == register_open_at_end(
            prev,
        ),
{
    assert forall|i: int| 0 <= i < 16 implies #[trigger] lane_bad_at(prev, cur, i) == opens_past_end(
        window(prev, cur, i - 3),
        window(prev, cur, i - 2),
        window(prev, cur, i - 1),
    ) by {
        lemma_ascii_lane(
            window(prev, cur, i - 3),
            window(prev, cur, i - 2),
            window(prev, cur, i - 1),
            cur[i],
        );
    }
    if register_open_at_end(prev) {
        assert(lane_bad_at(prev, cur, 0));
    }
}

} // verus!
