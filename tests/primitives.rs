use simd_utf8::classify::{
    check_multibyte_lengths, check_special_cases, has_error, is_ascii, is_incomplete, lane_error,
    must_be_2_3_continuation, or, owed_mask, prev_n, special_case, OVERLONG_2, OVERLONG_3,
    SURROGATE, TOO_LARGE, TOO_LONG, TOO_SHORT, TWO_CONTS,
};
use simd_utf8::engine::{SimdInput, Utf8CheckingState};

#[test]
fn special_case_flags() {
    assert_eq!(special_case(b'a', 0x80) & TOO_LONG, TOO_LONG);
    assert_eq!(special_case(0xC3, b'a') & TOO_SHORT, TOO_SHORT);
    assert_eq!(special_case(0xC0, 0xAF) & OVERLONG_2, OVERLONG_2);
    assert_eq!(special_case(0xE0, 0x80) & OVERLONG_3, OVERLONG_3);
    assert_eq!(special_case(0xED, 0xA0) & SURROGATE, SURROGATE);
    assert_eq!(special_case(0xF4, 0x90) & TOO_LARGE, TOO_LARGE);
    assert_eq!(special_case(0x80, 0x80), TWO_CONTS);
    assert_eq!(special_case(0xC3, 0xA9), 0);
    assert_eq!(special_case(b'a', b'b'), 0);
}

#[test]
fn owed_and_lane_error() {
    assert_eq!(owed_mask(0xE2, 0), 0xFF);
    assert_eq!(owed_mask(0, 0xF0), 0xFF);
    assert_eq!(owed_mask(0xDF, 0xEF), 0);
    assert_eq!(lane_error(0xFF, TWO_CONTS), 0);
    assert_eq!(lane_error(0, TWO_CONTS), TWO_CONTS);
    assert_eq!(lane_error(0xFF, 0), 0x80);
    assert_eq!(lane_error(0, TOO_SHORT), TOO_SHORT);
}

#[test]
fn shifting_reaches_into_previous_register() {
    let prev: [u8; 16] = core::array::from_fn(|i| 100 + i as u8);
    let cur: [u8; 16] = core::array::from_fn(|i| i as u8);
    let p1 = prev_n(&cur, &prev, 1);
    assert_eq!(p1[0], 115);
    assert_eq!(p1[1], 0);
    assert_eq!(p1[15], 14);
    let p3 = prev_n(&cur, &prev, 3);
    assert_eq!(&p3[..4], &[113, 114, 115, 0]);
}

#[test]
fn register_checks() {
    let mut cur = [b'a'; 16];
    assert!(is_ascii(&cur));
    assert!(!has_error(&is_incomplete(&cur)));
    cur[15] = 0xC3;
    assert!(!is_ascii(&cur));
    assert!(has_error(&is_incomplete(&cur)));
    cur[15] = b'a';
    cur[14] = 0xE2;
    assert!(has_error(&is_incomplete(&cur)));
    cur[14] = b'a';
    cur[13] = 0xF0;
    assert!(has_error(&is_incomplete(&cur)));
    cur[13] = 0xE2;
    assert!(!has_error(&is_incomplete(&cur)));
    let zero = [0u8; 16];
    let mut one = [0u8; 16];
    one[7] = 4;
    assert!(!has_error(&or(&zero, &zero)));
    assert!(has_error(&or(&zero, &one)));
    assert_eq!(or(&zero, &one)[7], 4);
}

#[test]
fn length_check_over_a_register() {
    let prev = [b' '; 16];
    let mut cur = [b' '; 16];
    cur[0] = 0xE2;
    cur[1] = 0x82;
    cur[2] = 0xAC;
    let p1 = prev_n(&cur, &prev, 1);
    let sc = check_special_cases(&cur, &p1);
    assert!(!has_error(&check_multibyte_lengths(&cur, &prev, &sc)));
    cur[2] = b'x';
    let p1 = prev_n(&cur, &prev, 1);
    let sc = check_special_cases(&cur, &p1);
    let err = check_multibyte_lengths(&cur, &prev, &sc);
    assert!(has_error(&err));
    assert_ne!(err[2], 0);
    let p2 = prev_n(&cur, &prev, 2);
    let p3 = prev_n(&cur, &prev, 3);
    assert_eq!(must_be_2_3_continuation(&p2, &p3)[2], 0xFF);
}

#[test]
fn driving_the_state_by_hand() {
    let mut bytes = vec![b'a'; 64];
    bytes[63] = 0xC3;
    let mut state = SimdInput::new_utf8_checking_state();
    SimdInput::new(&bytes).check_utf8(&mut state);
    assert!(!SimdInput::check_utf8_errors(&state));
    let mut next = vec![b'b'; 64];
    next[0] = 0xA9;
    SimdInput::new(&next).check_utf8(&mut state);
    SimdInput::check_eof(&mut state);
    assert!(!SimdInput::check_utf8_errors(&state));

    let mut state = SimdInput::new_utf8_checking_state();
    SimdInput::new(&bytes).check_utf8(&mut state);
    SimdInput::check_eof(&mut state);
    assert!(SimdInput::check_utf8_errors(&state));

    let mut state = SimdInput::new_utf8_checking_state();
    let reg = [0x80u8; 16];
    Utf8CheckingState::check_bytes(&reg, &mut state);
    assert!(has_error(&state.error));
    let loaded = SimdInput::new_at(&next, 0);
    assert_eq!(loaded.v0[0], 0xA9);
}
