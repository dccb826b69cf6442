use simd_utf8::engine::{validate_utf8_simd, Utf8Error, CHUNK_WIDTH};

fn verdict(b: &[u8]) -> bool {
    validate_utf8_simd(b).is_ok()
}

fn oracle(b: &[u8]) -> bool {
    std::str::from_utf8(b).is_ok()
}

/// A small deterministic generator for byte soup.
struct Lcg(u64);

impl Lcg {
    fn next(&mut self) -> u64 {
        self.0 = self.0.wrapping_mul(6364136223846793005).wrapping_add(1442695040888963407);
        self.0 >> 33
    }
}

fn text_pieces() -> Vec<&'static str> {
    vec!["a", "Z", " ", "é", "ß", "€", "中", "😀", "\u{10FFFF}", "\u{FFFF}", "\u{800}", "\u{80}"]
}

#[test]
fn empty_input_is_valid() {
    assert_eq!(validate_utf8_simd(&[]), Ok(""));
}

#[test]
fn ascii_of_any_length_is_valid() {
    for n in [0usize, 1, 63, 64, 65, 1000] {
        let b: Vec<u8> = (0..n).map(|i| (i % 128) as u8).collect();
        let r = validate_utf8_simd(&b);
        assert!(r.is_ok(), "length {}", n);
        assert_eq!(r.unwrap().as_bytes(), &b[..]);
    }
}

#[test]
fn four_byte_sequence_across_chunk_boundary() {
    let emoji = "😀".as_bytes();
    for start in [CHUNK_WIDTH - 3, CHUNK_WIDTH - 2, CHUNK_WIDTH - 1, 14, 15, 30, 31] {
        let mut b = vec![b'x'; start];
        b.extend_from_slice(emoji);
        b.extend_from_slice(b"tail");
        assert!(verdict(&b), "valid at {}", start);
        for k in 1..4 {
            let mut bad = b.clone();
            bad[start + k] = b'y';
            assert!(!verdict(&bad), "corrupt byte {} at {}", k, start);
            let mut bad2 = b.clone();
            bad2[start + k] = 0xC3;
            assert!(!verdict(&bad2), "lead in place of byte {} at {}", k, start);
        }
    }
}

#[test]
fn truncated_sequence_at_end_is_invalid() {
    assert!(!verdict(&[b'a', 0xE2, 0x82]));
    assert!(!verdict(&[0xE2, 0x82]));
    assert!(!verdict(&[0xC3]));
    assert!(!verdict(&[0xF0, 0x9F, 0x98]));
    let mut b = vec![b'a'; CHUNK_WIDTH - 1];
    b.push(0xF0);
    assert!(!verdict(&b));
    let mut c = vec![b'a'; CHUNK_WIDTH - 2];
    c.extend_from_slice(&[0xE2, 0x82]);
    assert!(!verdict(&c));
}

#[test]
fn overlong_slash_is_invalid() {
    assert!(!verdict(&[0xC0, 0xAF]));
    assert!(!verdict(&[0xE0, 0x80, 0xAF]));
    assert!(!verdict(&[0xF0, 0x80, 0x80, 0xAF]));
    assert!(verdict(&[0x2F]));
}

#[test]
fn surrogate_is_invalid() {
    assert!(!verdict(&[0xED, 0xA0, 0x80]));
    assert!(!verdict(&[0xED, 0xBF, 0xBF]));
    assert!(verdict(&[0xED, 0x9F, 0xBF]));
}

#[test]
fn above_max_code_point_is_invalid() {
    assert!(!verdict(&[0xF4, 0x90, 0x80, 0x80]));
    assert!(!verdict(&[0xF5, 0x80, 0x80, 0x80]));
    assert!(!verdict(&[0xF7, 0xBF, 0xBF, 0xBF]));
    assert!(verdict(&[0xF4, 0x8F, 0xBF, 0xBF]));
}

#[test]
fn orphan_continuation_is_invalid() {
    assert!(!verdict(&[0x80]));
    assert!(!verdict(&[b'a', 0xBF, b'b']));
    assert!(!verdict(&[0xC3, 0xA9, 0xA9]));
}

#[test]
fn premature_end_of_sequence_is_invalid() {
    assert!(!verdict(&[0xE2, 0x82, b'a']));
    assert!(!verdict(&[0xC3, 0xC3, 0xA9]));
    assert!(!verdict(&[0xF0, 0x9F, 0x98, b'!']));
}

#[test]
fn invalid_bytes_are_rejected() {
    for b in [0xC0u8, 0xC1, 0xF5, 0xF8, 0xFE, 0xFF] {
        assert!(!verdict(&[b]));
        assert!(!verdict(&[b, 0x80]));
        assert!(!verdict(&[b'a', b, 0x80, 0x80, 0x80]));
    }
}

#[test]
fn tail_padding_edges_agree_with_oracle() {
    for n in [CHUNK_WIDTH - 1, CHUNK_WIDTH, CHUNK_WIDTH + 1, 2 * CHUNK_WIDTH - 1, 2 * CHUNK_WIDTH, 2 * CHUNK_WIDTH + 1] {
        let plain = vec![b'q'; n];
        assert_eq!(verdict(&plain), true);
        for tail in [&[0xC3u8][..], &[0xC3, 0xA9][..], &[0xE2, 0x82][..], &[0xE2, 0x82, 0xAC][..], &[0xF0, 0x9F, 0x98, 0x80][..], &[0x80][..]] {
            if tail.len() > n {
                continue;
            }
            let mut b = vec![b'q'; n - tail.len()];
            b.extend_from_slice(tail);
            assert_eq!(verdict(&b), oracle(&b), "length {} tail {:?}", n, tail);
        }
    }
}

#[test]
fn agrees_with_oracle_on_generated_input() {
    let mut g = Lcg(0x5eed);
    let pieces = text_pieces();
    for round in 0..3000 {
        let len = (g.next() % 200) as usize;
        let mut b: Vec<u8> = Vec::new();
        while b.len() < len {
            let p = pieces[(g.next() as usize) % pieces.len()];
            b.extend_from_slice(p.as_bytes());
        }
        if round % 3 != 0 && !b.is_empty() {
            let at = (g.next() as usize) % b.len();
            b[at] = (g.next() & 0xFF) as u8;
        }
        if round % 7 == 0 {
            let cut = (g.next() as usize) % (b.len() + 1);
            b.truncate(cut);
        }
        assert_eq!(verdict(&b), oracle(&b), "input {:?}", b);
    }
    for _ in 0..3000 {
        let len = (g.next() % 140) as usize;
        let b: Vec<u8> = (0..len).map(|_| (0x80 | (g.next() & 0x7F)) as u8).collect();
        assert_eq!(verdict(&b), oracle(&b), "input {:?}", b);
    }
}

#[test]
fn verdict_is_the_same_twice() {
    let inputs: Vec<Vec<u8>> = vec![
        "héllo wörld €😀".as_bytes().to_vec(),
        vec![0xED, 0xA0, 0x80],
        vec![b'a'; 130],
    ];
    for b in inputs {
        assert_eq!(validate_utf8_simd(&b), validate_utf8_simd(&b));
    }
}

#[test]
fn valid_text_comes_back_unchanged() {
    let s = "grüße, 世界, 😀 — over one chunk of text to cross a boundary or two";
    assert_eq!(validate_utf8_simd(s.as_bytes()), Ok(s));
    assert_eq!(validate_utf8_simd(&[0xFF]), Err(Utf8Error {}));
}
