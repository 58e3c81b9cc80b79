use zeta::text::{chars_of, indent, is_whitespace, lines_of, push_chars, string_of, to_pascal_case, trim, truncate};

#[test]
fn truncate_keeps_short_text() {
    assert_eq!(truncate("hi", 5), "hi");
    assert_eq!(truncate("abc", 3), "abc");
    assert_eq!(truncate("", 0), "");
}

#[test]
fn truncate_cuts_long_text_and_marks_it() {
    assert_eq!(truncate("hello", 3), "hel\n      ... [truncated]");
    assert_eq!(truncate("héllo wörld", 2), "hé\n      ... [truncated]");
    assert_eq!(truncate("x", 0), "\n      ... [truncated]");
}

#[test]
fn truncate_length_bound_law() {
    let marker_len = "\n      ... [truncated]".chars().count();
    for (s, max) in [("abcdefgh", 4usize), ("short", 10), ("ünïcödé", 3)] {
        let out = truncate(s, max);
        assert!(out.chars().count() <= max + marker_len);
        let kept: String = s.chars().take(max).collect();
        assert!(out.starts_with(&kept));
    }
}

#[test]
fn indent_prefixes_each_line() {
    assert_eq!(indent("a\nb", 2), "  a\n  b");
    assert_eq!(indent("x\n\ny", 2), "  x\n  \n  y");
    assert_eq!(indent("one", 0), "one");
}

#[test]
fn indent_drops_line_endings_like_lines() {
    assert_eq!(indent("a\r\nb\n", 1), " a\n b");
    assert_eq!(indent("a\r", 1), " a\r");
    assert_eq!(indent("", 3), "");
    assert_eq!(indent("\n", 2), "  ");
}

#[test]
fn lines_of_matches_str_lines() {
    for s in ["a\r\nb\n", "a\n\nb", "x\r", "", "\n\n", "tail\r\n\r\n", "a\rb\nc"] {
        let expected: Vec<String> = s.lines().map(|l| l.to_string()).collect();
        assert_eq!(lines_of(s), expected, "input {:?}", s);
    }
}

#[test]
fn to_pascal_case_joins_capitalized_words() {
    assert_eq!(to_pascal_case("read_file"), "ReadFile");
    assert_eq!(to_pascal_case("web-search now"), "WebSearchNow");
    assert_eq!(to_pascal_case("HELLO_wORLD"), "HelloWorld");
    assert_eq!(to_pascal_case("__a__"), "A");
    assert_eq!(to_pascal_case(""), "");
    assert_eq!(to_pascal_case("---"), "");
}

#[test]
fn to_pascal_case_unicode_words() {
    assert_eq!(to_pascal_case("émile zola"), "ÉmileZola");
    assert_eq!(to_pascal_case("ß_x"), "SSX");
    assert_eq!(to_pascal_case("v2_api"), "V2Api");
}

#[test]
fn pascal_case_splits_at_separators_law() {
    for (a, sep, b) in [("read", '_', "file"), ("web search", '-', "tool now"), ("", ' ', "x"), ("ab", '.', "")] {
        let joined = format!("{}{}{}", a, sep, b);
        assert_eq!(to_pascal_case(&joined), format!("{}{}", to_pascal_case(a), to_pascal_case(b)));
    }
}

#[test]
fn trim_removes_surrounding_whitespace() {
    assert_eq!(trim("  hi \n"), "hi");
    assert_eq!(trim("\t\r\n"), "");
    assert_eq!(trim("a b"), "a b");
    assert_eq!(trim("\u{3000}wide\u{3000}"), "wide");
}

#[test]
fn trim_idempotent_law() {
    for s in ["  x  ", "\n\ty z\r\n", "", "   ", "keep"] {
        let once = trim(s);
        assert_eq!(trim(&once), once);
        assert_eq!(once, s.trim());
    }
}

#[test]
fn chars_and_strings_round_trip() {
    let v = chars_of("añb");
    assert_eq!(v, vec!['a', 'ñ', 'b']);
    assert_eq!(string_of(&v), "añb");
    let mut s = String::from("x");
    push_chars(&mut s, &v);
    assert_eq!(s, "xañb");
}

#[test]
fn indent_twice_law() {
    for (s, a, b) in [("a\nb", 2usize, 3usize), ("x\n\ny\n", 1, 0), ("", 4, 4), ("one", 1, 1)] {
        assert_eq!(indent(&indent(s, a), b), indent(s, a + b), "{:?}", s);
    }
}

#[test]
fn is_whitespace_matches_std_on_every_char() {
    for code in 0u32..=0x10FFFF {
        if let Some(c) = char::from_u32(code) {
            assert_eq!(is_whitespace(c), c.is_whitespace(), "U+{:04X}", code);
        }
    }
}

#[test]
fn indent_zero_is_identity_law() {
    for s in ["", "a", "a\nb", "x\n\ny", "\nlead"] {
        assert_eq!(indent(s, 0), s, "{:?}", s);
    }
}

#[test]
fn pascal_case_underscore_join_law() {
    for (a, b) in [("read", "file"), ("Web Search", "NOW"), ("", ""), ("x_", "_y"), ("émile", "zola"), ("é", "é"), ("ß—x", "Ωmega")] {
        assert_eq!(to_pascal_case(&format!("{}_{}", a, b)), format!("{}{}", to_pascal_case(a), to_pascal_case(b)));
    }
}

#[test]
fn pascal_case_ignores_case_and_separators_law() {
    for s in ["read_file", "Web-Search now", "HELLO  wORLD", "a1.b2/c3", "--x--", "émile—ZOLA", "ÀB·cd"] {
        assert_eq!(to_pascal_case(s), to_pascal_case(&s.to_ascii_lowercase()));
        assert_eq!(to_pascal_case(s), to_pascal_case(&s.replace(|c: char| !c.is_alphanumeric(), "_")));
    }
}
