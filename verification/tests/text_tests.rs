use jpdict::text::{chars_of, contains_char, join, parse_i64, replace_all, starts_with_lit, trim};

fn parse(s: &str) -> Option<i64> {
    parse_i64(&chars_of(s))
}

#[test]
fn trim_removes_ascii_whitespace() {
    assert_eq!(trim("   <entry>\t"), "<entry>");
    assert_eq!(trim("\r\n<keb>x</keb>\n"), "<keb>x</keb>");
    assert_eq!(trim(""), "");
    assert_eq!(trim(" \t "), "");
}

#[test]
fn trim_removes_unicode_whitespace() {
    assert_eq!(trim("\u{3000}ちょっと\u{00A0}"), "ちょっと");
    assert_eq!(trim("\u{2003}a b\u{205F}"), "a b");
}

#[test]
fn trim_matches_std() {
    for s in ["  a  ", "\u{85}x\u{2028}", "abc", "\u{200B}z", " a b c "] {
        assert_eq!(trim(s), s.trim());
    }
}

#[test]
fn parse_i64_accepts_what_std_accepts() {
    assert_eq!(parse("1001980"), Some(1001980));
    assert_eq!(parse("+42"), Some(42));
    assert_eq!(parse("-7"), Some(-7));
    assert_eq!(parse("0"), Some(0));
    assert_eq!(parse("9223372036854775807"), Some(i64::MAX));
    assert_eq!(parse("-9223372036854775808"), Some(i64::MIN));
}

#[test]
fn parse_i64_rejects_what_std_rejects() {
    assert_eq!(parse(""), None);
    assert_eq!(parse("-"), None);
    assert_eq!(parse("+"), None);
    assert_eq!(parse("12a"), None);
    assert_eq!(parse(" 1"), None);
    assert_eq!(parse("9223372036854775808"), None);
    assert_eq!(parse("-9223372036854775809"), None);
    assert_eq!(parse("99999999999999999999999"), None);
}

#[test]
fn parse_i64_matches_std() {
    for s in ["123", "-0", "+-1", "00012", "٣", "18446744073709551616", "-1x"] {
        assert_eq!(parse(s), s.parse::<i64>().ok());
    }
}

#[test]
fn replace_all_replaces_every_occurrence() {
    assert_eq!(replace_all("&n; and &n;", "&n;", "noun"), "noun and noun");
    assert_eq!(replace_all("aaaa", "aa", "b"), "bb");
    assert_eq!(replace_all("aaa", "aa", "b"), "ba");
    assert_eq!(replace_all("none here", "&x;", "y"), "none here");
    assert_eq!(replace_all("", "&x;", "y"), "");
}

#[test]
fn replace_all_matches_std() {
    for (s, p, r) in [("abcabc", "bc", "X"), ("日本語&v5k;", "&v5k;", "五段"), ("xx", "x", "xx")] {
        assert_eq!(replace_all(s, p, r), s.replace(p, r));
    }
}

#[test]
fn join_puts_separator_between_fields() {
    let parts = vec!["1001980".to_string(), "一寸".to_string(), "ちょっと".to_string()];
    assert_eq!(join(&parts, "|"), "1001980|一寸|ちょっと");
    assert_eq!(join(&vec!["one".to_string()], "|"), "one");
    assert_eq!(join(&Vec::new(), "|"), "");
}

#[test]
fn literal_comparisons() {
    let v = chars_of("<keb>一寸</keb>");
    assert!(starts_with_lit(&v, "<keb>"));
    assert!(!starts_with_lit(&v, "<reb>"));
    assert!(!contains_char(&v, '&'));
    assert!(contains_char(&chars_of("&n;"), '&'));
}

#[test]
fn trim_twice_is_trim_once() {
    for s in ["  a  ", "\u{3000}\u{3000}", "", "x", " \u{85}y z\t"] {
        assert_eq!(trim(trim(s)), trim(s));
    }
}

#[test]
fn trim_ignores_surrounding_whitespace() {
    assert_eq!(trim(" \t<reb>a b</reb>\u{3000}"), trim("<reb>a b</reb>"));
}

#[test]
fn parse_reads_back_written_numbers() {
    for x in [0i64, 7, -7, 1001980, i64::MAX, i64::MIN, -1000000] {
        assert_eq!(parse(&x.to_string()), Some(x));
    }
}
