use salfa::text::{
    append, contains, copy_pairs, decimal, find, is_whitespace, is_whitespace2, is_whitespace3,
    join, lines, matches_at, same, space_len, space_len_back, split, split_once, starts_with,
    trim, without_byte, words,
};

#[test]
fn find_gives_first_occurrence() {
    assert_eq!(find(b"abcabc", b"bc"), Some(1));
    assert_eq!(find(b"abcabc", b"abcabc"), Some(0));
    assert_eq!(find(b"aaab", b"aab"), Some(1));
    assert_eq!(find(b"abc", b"abcd"), None);
    assert_eq!(find(b"abc", b"x"), None);
    assert_eq!(find(b"abc", b"c"), Some(2));
}

#[test]
fn find_of_empty_needle_is_zero() {
    assert_eq!(find(b"abc", b""), Some(0));
    assert_eq!(find(b"", b""), Some(0));
    assert_eq!(find(b"", b"a"), None);
}

#[test]
fn matches_at_checks_bounds() {
    assert!(matches_at(b"abc", b"bc", 1));
    assert!(!matches_at(b"abc", b"bc", 2));
    assert!(!matches_at(b"abc", b"bc", 9));
    assert!(matches_at(b"abc", b"", 3));
    assert!(!matches_at(b"abc", b"", 4));
}

#[test]
fn contains_and_starts_with() {
    assert!(contains(b"hello world", b"o w"));
    assert!(!contains(b"hello", b"world"));
    assert!(starts_with(b"http://x", b"http://"));
    assert!(!starts_with(b"xhttp://", b"http://"));
    assert!(!starts_with(b"ht", b"http://"));
    assert!(starts_with(b"", b""));
}

#[test]
fn same_compares_content() {
    assert!(same(b"abc", b"abc"));
    assert!(!same(b"abc", b"abd"));
    assert!(!same(b"abc", b"ab"));
    assert!(same(b"", b""));
}

#[test]
fn split_once_cuts_at_first() {
    assert_eq!(split_once(b"a=b=c", b"="), Some((&b"a"[..], &b"b=c"[..])));
    assert_eq!(split_once(b"=", b"="), Some((&b""[..], &b""[..])));
    assert_eq!(split_once(b"abc", b"="), None);
    assert_eq!(split_once(b"h\r\n\r\nb", b"\r\n\r\n"), Some((&b"h"[..], &b"b"[..])));
}

#[test]
fn split_cuts_at_every_occurrence() {
    assert_eq!(split(b"a,b,,c", b","), vec![&b"a"[..], b"b", b"", b"c"]);
    assert_eq!(split(b"", b","), vec![&b""[..]]);
    assert_eq!(split(b",", b","), vec![&b""[..], b""]);
    assert_eq!(split(b"a},{b},{c", b"},{"), vec![&b"a"[..], b"b", b"c"]);
    assert_eq!(split(b"aaa", b"aa"), vec![&b""[..], b"a"]);
}

#[test]
fn trim_removes_white_space_at_both_ends() {
    assert_eq!(trim(b"  a b \t\r\n"), b"a b");
    assert_eq!(trim(b"\x0b\x0ca"), b"a");
    assert_eq!(trim(b"   "), b"");
    assert_eq!(trim(b""), b"");
    assert_eq!(trim(b"a\0 "), b"a\0");
    assert_eq!(trim(b"\0 a"), b"\0 a");
}

#[test]
fn white_space_is_blank_and_tab_to_return() {
    for b in 0..=255u8 {
        assert_eq!(is_whitespace(b), b == 32 || (9..=13).contains(&b));
    }
}

#[test]
fn without_byte_removes_all() {
    assert_eq!(without_byte(b" a b  c ", b' '), b"abc".to_vec());
    assert_eq!(without_byte(b"abc", b' '), b"abc".to_vec());
    assert_eq!(without_byte(b"", b' '), Vec::<u8>::new());
}

#[test]
fn append_and_join() {
    let mut v = b"ab".to_vec();
    append(&mut v, b"cd");
    append(&mut v, b"");
    assert_eq!(v, b"abcd".to_vec());
    assert_eq!(join(&[], b","), Vec::<u8>::new());
    assert_eq!(join(&[b"a".to_vec()], b","), b"a".to_vec());
    assert_eq!(join(&[b"a".to_vec(), b"bc".to_vec(), b"".to_vec()], b", "), b"a, bc, ".to_vec());
}

#[test]
fn lines_end_with_feed_and_drop_one_return() {
    assert_eq!(lines(b"a\r\nb\nc"), vec![&b"a"[..], b"b", b"c"]);
    assert_eq!(lines(b"a\r\n"), vec![&b"a"[..]]);
    assert_eq!(lines(b"a\r"), vec![&b"a\r"[..]]);
    assert_eq!(lines(b"a\r\r\n\n"), vec![&b"a\r"[..], b""]);
    assert_eq!(lines(b""), Vec::<&[u8]>::new());
    assert_eq!(lines(b"\n"), vec![&b""[..]]);
}

#[test]
fn words_are_runs_without_white_space() {
    assert_eq!(words(b"GET /index HTTP/1.1"), vec![&b"GET"[..], b"/index", b"HTTP/1.1"]);
    assert_eq!(words(b"  a \t b\n"), vec![&b"a"[..], b"b"]);
    assert_eq!(words(b"   "), Vec::<&[u8]>::new());
    assert_eq!(words(b""), Vec::<&[u8]>::new());
    assert_eq!(words(b"one"), vec![&b"one"[..]]);
}

#[test]
fn decimal_digits() {
    assert_eq!(decimal(0), b"0".to_vec());
    assert_eq!(decimal(9), b"9".to_vec());
    assert_eq!(decimal(10), b"10".to_vec());
    assert_eq!(decimal(1234567890), b"1234567890".to_vec());
    assert_eq!(decimal(usize::MAX), format!("{}", usize::MAX).into_bytes());
}

#[test]
fn split_at_empty_needle_is_the_single_piece() {
    assert_eq!(split(b"abc", b""), vec![&b"abc"[..]]);
    assert_eq!(split(b"", b""), vec![&b""[..]]);
}

#[test]
fn white_space_agrees_with_unicode() {
    for code in 0..0x11_0000u32 {
        let Some(c) = char::from_u32(code) else { continue };
        let mut buffer = [0u8; 4];
        let bytes = c.encode_utf8(&mut buffer).as_bytes();
        let len = space_len(bytes, 0, bytes.len());
        let back = space_len_back(bytes, 0, bytes.len());
        if c.is_whitespace() {
            assert_eq!(len, bytes.len(), "U+{code:04X}");
            assert_eq!(back, bytes.len(), "U+{code:04X}");
        } else {
            assert_eq!(len, 0, "U+{code:04X}");
            assert_eq!(back, 0, "U+{code:04X}");
        }
    }
}

#[test]
fn white_space_of_two_and_three_bytes() {
    assert!(is_whitespace2(0xC2, 0x85));
    assert!(is_whitespace2(0xC2, 0xA0));
    assert!(!is_whitespace2(0xC2, 0xA1));
    assert!(!is_whitespace2(0xC3, 0xA0));
    assert!(is_whitespace3(0xE3, 0x80, 0x80));
    assert!(is_whitespace3(0xE2, 0x80, 0x8A));
    assert!(!is_whitespace3(0xE2, 0x80, 0x8B));
    assert!(is_whitespace3(0xE2, 0x81, 0x9F));
    assert!(is_whitespace3(0xE1, 0x9A, 0x80));
    assert!(!is_whitespace3(0xE3, 0x80, 0x81));
}

#[test]
fn space_len_stays_inside_its_range() {
    let s = "a\u{3000}b".as_bytes();
    assert_eq!(space_len(s, 1, 5), 3);
    assert_eq!(space_len(s, 1, 3), 0);
    assert_eq!(space_len(s, 0, 5), 0);
    assert_eq!(space_len(s, 5, 5), 0);
    assert_eq!(space_len_back(s, 0, 4), 3);
    assert_eq!(space_len_back(s, 2, 4), 0);
    assert_eq!(space_len_back(s, 0, 0), 0);
    assert_eq!(space_len(b" ", 0, 2), 0);
    assert_eq!(space_len(b" ", 1, 0), 0);
    assert_eq!(space_len_back(b" ", 0, 2), 0);
    assert_eq!(space_len_back(b" ", 1, 0), 0);
}

#[test]
fn trim_removes_unicode_white_space() {
    for text in [
        "\u{a0}a b\u{3000}",
        "\u{2003}\u{85} a b \u{1680}\u{205f}\n",
        "\u{2028}\u{2029}\u{202f}a b\u{2000}\u{200a}",
        "a\u{a0}b",
        "\u{3000}",
        "\u{200b}a\u{feff}",
        "  \u{e000} ",
    ] {
        assert_eq!(trim(text.as_bytes()), text.trim().as_bytes(), "{text:?}");
    }
}

#[test]
fn trim_leaves_broken_sequences() {
    assert_eq!(trim(&[0xC2, b'a', 0xA0]), &[0xC2, b'a', 0xA0]);
    assert_eq!(trim(&[0x80, 0x80, b'a', 0xE3, 0x80]), &[0x80, 0x80, b'a', 0xE3, 0x80]);
    assert_eq!(trim(&[0xE3, 0x80, 0x80, 0xE3]), &[0xE3]);
}

#[test]
fn words_are_cut_at_unicode_white_space() {
    for text in ["a\u{3000}b\u{a0}\u{2003}c", "\u{85}one\u{2028}", "x\u{200b}y z", ""] {
        let want: Vec<&[u8]> = text.split_whitespace().map(|w| w.as_bytes()).collect();
        assert_eq!(words(text.as_bytes()), want, "{text:?}");
    }
}

#[test]
fn copy_pairs_appends_copies() {
    let mut to = vec![(b"a".to_vec(), b"1".to_vec())];
    copy_pairs(&mut to, &[(b"b".to_vec(), b"2".to_vec()), (b"".to_vec(), b"".to_vec())]);
    copy_pairs(&mut to, &[]);
    assert_eq!(to.len(), 3);
    assert_eq!(to[1], (b"b".to_vec(), b"2".to_vec()));
    assert_eq!(to[2], (b"".to_vec(), b"".to_vec()));
}
