//! Comparison, search and white-space scanning on bytes.

use zmod::text::{
    append_bytes, bytes_equal, contains_name, join_texts, matches_at, skip_spaces_from,
    skip_whitespace_back_from, skip_whitespace_from, whitespace_width_at,
    whitespace_width_ending_at,
};

const WHITE_SPACE: [char; 25] = [
    '\u{9}', '\u{a}', '\u{b}', '\u{c}', '\u{d}', ' ', '\u{85}', '\u{a0}', '\u{1680}', '\u{2000}',
    '\u{2001}', '\u{2002}', '\u{2003}', '\u{2004}', '\u{2005}', '\u{2006}', '\u{2007}',
    '\u{2008}', '\u{2009}', '\u{200a}', '\u{2028}', '\u{2029}', '\u{202f}', '\u{205f}',
    '\u{3000}',
];

#[test]
fn every_white_space_character_has_its_width() {
    for c in WHITE_SPACE {
        assert!(c.is_whitespace());
        let s = format!("{}x", c);
        assert_eq!(whitespace_width_at(s.as_bytes(), 0), c.len_utf8());
        assert_eq!(whitespace_width_ending_at(s.as_bytes(), c.len_utf8()), c.len_utf8());
    }
}

#[test]
fn white_space_is_what_the_standard_library_trims() {
    let mut code = 0u32;
    while code <= 0x3100 {
        if let Some(c) = char::from_u32(code) {
            let s = format!("{}", c);
            let width = whitespace_width_at(s.as_bytes(), 0);
            let behind = whitespace_width_ending_at(s.as_bytes(), s.len());
            if c.is_whitespace() {
                assert_eq!(width, s.len());
                assert_eq!(behind, s.len());
            } else {
                assert_eq!(width, 0);
                assert_eq!(behind, 0);
            }
        }
        code += 1;
    }
}

#[test]
fn other_characters_have_no_width() {
    assert_eq!(whitespace_width_at(b"x ", 0), 0);
    assert_eq!(whitespace_width_at(b" ", 1), 0);
    assert_eq!(whitespace_width_at(b" ", 7), 0);
    assert_eq!(whitespace_width_at("\u{200b}".as_bytes(), 0), 0);
    assert_eq!(whitespace_width_at("\u{e9}".as_bytes(), 0), 0);
    assert_eq!(whitespace_width_at(&[0xC2], 0), 0);
    assert_eq!(whitespace_width_at(&[0xE2, 0x80], 0), 0);
    assert_eq!(whitespace_width_ending_at(b" x", 2), 0);
    assert_eq!(whitespace_width_ending_at(b" x", 0), 0);
    assert_eq!(whitespace_width_ending_at(b" ", 2), 0);
    assert_eq!(whitespace_width_ending_at(&[0x80], 1), 0);
    assert_eq!(whitespace_width_ending_at(&[0x80, 0x80], 2), 0);
}

#[test]
fn skipping_forward_agrees_with_trim_start() {
    for s in ["  \t\n x ", "x", "", " \u{a0}\u{2003}\u{3000}, y", "\u{200b} x", " \r\n"] {
        let expected = s.len() - s.trim_start().len();
        assert_eq!(skip_whitespace_from(s.as_bytes(), 0), expected);
    }
    assert_eq!(skip_whitespace_from(b"ab  cd", 2), 4);
    assert_eq!(skip_whitespace_from(b"ab  cd", 6), 6);
}

#[test]
fn skipping_backward_agrees_with_trim_end() {
    for s in ["x \t\n  ", "x", "", "y ,\u{a0}\u{2003}\u{3000} ", "x \u{200b}", "\r\n "] {
        let expected = s.trim_end().len();
        assert_eq!(skip_whitespace_back_from(s.as_bytes(), s.len()), expected);
    }
    assert_eq!(skip_whitespace_back_from(b"ab  cd", 4), 2);
    assert_eq!(skip_whitespace_back_from(b"ab  cd", 0), 0);
}

#[test]
fn skipping_spaces_stops_at_other_white_space() {
    assert_eq!(skip_spaces_from(b"   \tx", 0), 3);
    assert_eq!(skip_spaces_from(b"   ", 1), 3);
    assert_eq!(skip_spaces_from(b"\n  ", 0), 0);
    assert_eq!(skip_spaces_from(" \u{a0} ".as_bytes(), 0), 1);
    assert_eq!(skip_spaces_from(b"", 0), 0);
}

#[test]
fn matches_at_compares_in_place() {
    assert!(matches_at(b"hello world", b"world", 6));
    assert!(matches_at(b"hello world", b"hello", 0));
    assert!(!matches_at(b"hello world", b"world", 5));
    assert!(!matches_at(b"hello world", b"world!", 6));
    assert!(!matches_at(b"hello", b"lo", 4));
    assert!(!matches_at(b"hello", b"lo", 40));
    assert!(matches_at(b"hello", b"", 5));
    assert!(!matches_at(b"hello", b"", 6));
}

#[test]
fn bytes_equal_is_equality() {
    assert!(bytes_equal(b"", b""));
    assert!(bytes_equal(b"abc", b"abc"));
    assert!(!bytes_equal(b"abc", b"abd"));
    assert!(!bytes_equal(b"abc", b"ab"));
    assert!(!bytes_equal(b"ab", b"abc"));
}

#[test]
fn contains_name_looks_at_whole_names() {
    let names = vec![b"alpha".to_vec(), b"beta".to_vec()];
    assert!(contains_name(&names, b"beta"));
    assert!(contains_name(&names, b"alpha"));
    assert!(!contains_name(&names, b"alph"));
    assert!(!contains_name(&names, b""));
    assert!(!contains_name(&Vec::new(), b"alpha"));
}

#[test]
fn join_puts_the_separator_between_parts() {
    let parts = vec![b"a".to_vec(), b"".to_vec(), b"b".to_vec()];
    assert_eq!(join_texts(&parts, b", "), b"a, , b".to_vec());
    assert_eq!(join_texts(&vec![b"one".to_vec()], b", "), b"one".to_vec());
    assert_eq!(join_texts(&Vec::new(), b", "), Vec::<u8>::new());
    assert_eq!(join_texts(&parts, b""), b"ab".to_vec());
}

#[test]
fn append_adds_at_the_end() {
    let mut out = b"ab".to_vec();
    append_bytes(&mut out, b"cd");
    append_bytes(&mut out, b"");
    assert_eq!(out, b"abcd".to_vec());
}
