use libsgl_xml::text::{
    contains_pair, find_char, find_space, is_space_char, rfind_char, to_chars, to_text, trim_chars,
    unfold_lines,
};

fn chars(s: &str) -> Vec<char> {
    s.chars().collect()
}

#[test]
fn white_space_is_what_unicode_says() {
    for c in [' ', '\t', '\n', '\r', '\u{b}', '\u{c}', '\u{85}', '\u{a0}', '\u{1680}'] {
        assert!(is_space_char(c));
    }
    for c in ['\u{2000}', '\u{200a}', '\u{2028}', '\u{2029}', '\u{202f}', '\u{205f}', '\u{3000}'] {
        assert!(is_space_char(c));
    }
    for c in ['a', '<', '>', '/', '=', '"', '\u{8}', '\u{e}', '\u{200b}', '\u{feff}', '\u{1f}'] {
        assert!(!is_space_char(c));
    }
    for n in 0..0x3100u32 {
        if let Some(c) = char::from_u32(n) {
            assert_eq!(is_space_char(c), c.is_whitespace());
        }
    }
}

#[test]
fn find_char_gives_the_first_place() {
    let s = chars("a=b=c");
    assert_eq!(find_char(&s, '=', 0), 1);
    assert_eq!(find_char(&s, '=', 1), 1);
    assert_eq!(find_char(&s, '=', 2), 3);
    assert_eq!(find_char(&s, '=', 4), 5);
    assert_eq!(find_char(&s, '=', 5), 5);
    assert_eq!(find_char(&s, '=', 9), 5);
    assert_eq!(find_char(&s, 'x', 0), 5);
    assert_eq!(find_char(&[], 'x', 0), 0);
}

#[test]
fn rfind_char_gives_the_last_place() {
    let s = chars("a>b>c");
    assert_eq!(rfind_char(&s, '>'), Some(3));
    assert_eq!(rfind_char(&s, 'a'), Some(0));
    assert_eq!(rfind_char(&s, 'x'), None);
    assert_eq!(rfind_char(&[], 'x'), None);
}

#[test]
fn find_space_gives_the_first_white_space() {
    let s = chars("ab\tc d");
    assert_eq!(find_space(&s, 0), 2);
    assert_eq!(find_space(&s, 3), 4);
    assert_eq!(find_space(&s, 5), 6);
    assert_eq!(find_space(&s, 10), 6);
    assert_eq!(find_space(&chars("abc"), 0), 3);
}

#[test]
fn contains_pair_wants_neighbours() {
    assert!(contains_pair(&chars("a</b"), '<', '/'));
    assert!(contains_pair(&chars("</"), '<', '/'));
    assert!(contains_pair(&chars("<<//>"), '/', '>'));
    assert!(!contains_pair(&chars("< /"), '<', '/'));
    assert!(!contains_pair(&chars("/<"), '<', '/'));
    assert!(!contains_pair(&chars("<"), '<', '/'));
    assert!(!contains_pair(&[], '<', '/'));
}

#[test]
fn trim_chars_cuts_both_ends() {
    assert_eq!(trim_chars(&chars("  a b \t\n")), &chars("a b")[..]);
    assert_eq!(trim_chars(&chars("a")), &chars("a")[..]);
    assert_eq!(trim_chars(&chars(" \u{a0}\u{3000} ")), &chars("")[..]);
    assert_eq!(trim_chars(&chars("")), &chars("")[..]);
    assert_eq!(trim_chars(&chars("x ")), &chars("x")[..]);
    assert_eq!(trim_chars(&chars(" x")), &chars("x")[..]);
}

#[test]
fn unfold_lines_turns_line_feeds_into_blanks() {
    assert_eq!(unfold_lines(&chars("\na\n\nb\r\n")), chars(" a  b\r "));
    assert_eq!(unfold_lines(&chars("abc")), chars("abc"));
    assert_eq!(unfold_lines(&[]), chars(""));
}

#[test]
fn text_and_characters_go_both_ways() {
    assert_eq!(to_chars("a\u{e9}\u{1f600}b"), vec!['a', '\u{e9}', '\u{1f600}', 'b']);
    assert_eq!(to_chars(""), Vec::<char>::new());
    assert_eq!(to_text(&['a', '\u{e9}', '\u{1f600}', 'b']), "a\u{e9}\u{1f600}b");
    assert_eq!(to_text(&[]), "");
    assert_eq!(to_text(&to_chars("round \"trip\"")), "round \"trip\"");
}
