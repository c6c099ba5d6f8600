use vyges_resize::text::{chars_of, find_char, is_whitespace, split_non_empty, strip_range, CharClass};

#[test]
fn whitespace_is_the_unicode_property() {
    for c in ['\t', '\n', '\u{b}', '\u{c}', '\r', ' ', '\u{85}', '\u{a0}', '\u{1680}', '\u{2000}', '\u{200a}', '\u{2028}', '\u{2029}', '\u{202f}', '\u{205f}', '\u{3000}'] {
        assert!(is_whitespace(c), "{:?}", c);
        assert_eq!(is_whitespace(c), c.is_whitespace());
    }
    for c in ['a', '\u{200b}', '\u{180e}', '_', '\u{feff}'] {
        assert!(!is_whitespace(c));
        assert_eq!(is_whitespace(c), c.is_whitespace());
    }
}

#[test]
fn splitting_like_str_split() {
    assert_eq!(split_non_empty("  a \t b\u{3000}c ", CharClass::Whitespace, false), vec!["a", "b", "c"]);
    assert_eq!(split_non_empty("", CharClass::Whitespace, false), Vec::<String>::new());
    assert_eq!(split_non_empty(" x ,\ty, ,z", CharClass::CommaOrSpace, true), vec!["x", "\ty".trim(), "z"]);
    assert_eq!(split_non_empty("a\n\nb", CharClass::Newline, false), vec!["a", "b"]);
}

#[test]
fn trimming_and_finding() {
    let v = chars_of("**ab*c**");
    assert_eq!(strip_range(&v, 0, v.len(), CharClass::Star), (2, 6));
    let w = chars_of("  \u{3000}x y\u{a0}");
    assert_eq!(strip_range(&w, 0, w.len(), CharClass::Whitespace), (3, 6));
    let s = chars_of("a:b:c");
    assert_eq!(find_char(&s, 0, s.len(), ':'), 1);
    assert_eq!(find_char(&s, 2, s.len(), ':'), 3);
    assert_eq!(find_char(&s, 0, s.len(), '#'), 5);
}

#[test]
fn job_values_trim_unicode_spaces() {
    let cfg = vyges_resize::job::parse_cfg("group:\u{3000}A B\u{3000}\n").unwrap();
    assert_eq!(cfg.groups, vec![vec!["A".to_string(), "B".to_string()]]);
}
