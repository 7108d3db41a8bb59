use pulp_reader::fields::{
    percent_decode, push_field, split_chars, split_fields_of, split_line_fields, split_lines,
};
use pulp_reader::text::{
    chars_of, decimal_string, is_whitespace, parse_unsigned_chars, push_char, str_eq,
    string_from_chars, to_ascii_lower, to_ascii_upper, trim_by_flags, trim_chars,
};

fn v(s: &str) -> Vec<char> {
    s.chars().collect()
}

fn texts(parts: Vec<Vec<char>>) -> Vec<String> {
    parts.into_iter().map(|p| p.into_iter().collect()).collect()
}

#[test]
fn decimal_strings() {
    assert_eq!(decimal_string(0), "0");
    assert_eq!(decimal_string(7), "7");
    assert_eq!(decimal_string(10), "10");
    assert_eq!(decimal_string(u64::MAX), "18446744073709551615");
}

#[test]
fn unsigned_parsing_follows_std() {
    assert_eq!(parse_unsigned_chars(&v("0"), 65535), Some(0));
    assert_eq!(parse_unsigned_chars(&v("65535"), 65535), Some(65535));
    assert_eq!(parse_unsigned_chars(&v("65536"), 65535), None);
    assert_eq!(parse_unsigned_chars(&v("+12"), 65535), Some(12));
    assert_eq!(parse_unsigned_chars(&v("0007"), 65535), Some(7));
    assert_eq!(parse_unsigned_chars(&v(""), 65535), None);
    assert_eq!(parse_unsigned_chars(&v("+"), 65535), None);
    assert_eq!(parse_unsigned_chars(&v("-1"), 65535), None);
    assert_eq!(parse_unsigned_chars(&v(" 1"), 65535), None);
    assert_eq!(parse_unsigned_chars(&v("99999999999999999999x"), 65535), None);
    assert_eq!(parse_unsigned_chars(&v("4294967295"), 4294967295), Some(4294967295));
    for s in ["0", "1", "+42", "65535", "65536", "-3", "", "12a", "007"] {
        assert_eq!(parse_unsigned_chars(&v(s), 65535), s.parse::<u16>().ok().map(u64::from));
    }
}

#[test]
fn ascii_case_mapping() {
    assert_eq!(to_ascii_lower('Q'), 'q');
    assert_eq!(to_ascii_lower('q'), 'q');
    assert_eq!(to_ascii_lower('É'), 'É');
    assert_eq!(to_ascii_upper('f'), 'F');
    assert_eq!(to_ascii_upper('7'), '7');
}

#[test]
fn string_building() {
    let mut s = String::from("ab");
    push_char(&mut s, 'ç');
    assert_eq!(s, "abç");
    assert_eq!(chars_of("héllo"), vec!['h', 'é', 'l', 'l', 'o']);
    assert_eq!(string_from_chars(&v("xyz")), "xyz");
    assert!(str_eq("abc", "abc"));
    assert!(!str_eq("abc", "abd"));
    assert!(!str_eq("abc", "ab"));
}

#[test]
fn fields_are_escaped_and_separated() {
    let mut line = String::new();
    push_field(&mut line, "a|b");
    push_field(&mut line, "c\nd\re");
    push_field(&mut line, "");
    push_field(&mut line, "100%");
    assert_eq!(line, "a%7Cb|c%0Ad%0De||100%");
    let mut empty_first = String::new();
    push_field(&mut empty_first, "");
    push_field(&mut empty_first, "x");
    assert_eq!(empty_first, "x");
}

#[test]
fn percent_decoding() {
    assert_eq!(string_from_chars(&percent_decode(&v("a%7Cb%0Ac%0Dd"))), "a|b\nc\rd");
    assert_eq!(string_from_chars(&percent_decode(&v("%7C0A"))), "|0A");
    assert_eq!(string_from_chars(&percent_decode(&v("%0%7CA"))), "%0|A");
    assert_eq!(string_from_chars(&percent_decode(&v("%%7C%"))), "%|%");
    assert_eq!(string_from_chars(&percent_decode(&v("%7c%0a"))), "%7c%0a");
    for s in ["%7C0A", "%0%7CA", "%%0D%0A7C", "x%0Ay%", "%7%7C%0"] {
        let expected = s.replace("%7C", "|").replace("%0A", "\n").replace("%0D", "\r");
        assert_eq!(string_from_chars(&percent_decode(&v(s))), expected);
    }
}

#[test]
fn splitting_follows_str_split() {
    for s in ["", "|", "a", "a|b", "|a||b|", "x%7Cy|z"] {
        let expected: Vec<String> = s.split('|').map(|p| p.to_string()).collect();
        assert_eq!(texts(split_chars(&v(s), '|')), expected);
    }
    assert_eq!(texts(split_line_fields("a%7Cb|c")), vec!["a|b".to_string(), "c".to_string()]);
    assert_eq!(texts(split_fields_of(&v("q"))), vec!["q".to_string()]);
}

#[test]
fn lines_follow_str_lines() {
    for s in ["", "a", "a\n", "a\r\nb", "a\n\nb\n", "\n", "a\r", "x\r\r\ny", "\r\n"] {
        let expected: Vec<String> = s.lines().map(|p| p.to_string()).collect();
        assert_eq!(texts(split_lines(s)), expected, "input {:?}", s);
    }
}

#[test]
fn trimming_follows_str_trim() {
    for s in ["", "  ", " a ", "a", "\t a b \n", "\u{a0}x\u{3000}", "x  y"] {
        assert_eq!(string_from_chars(&trim_chars(&v(s))), s.trim(), "input {:?}", s);
    }
    assert!(is_whitespace(' '));
    assert!(!is_whitespace('a'));
    assert!(!is_whitespace('|'));
    let flagged = trim_by_flags(&v("abcde"), &vec![true, false, true, false, true]);
    assert_eq!(string_from_chars(&flagged), "bcd");
    assert!(trim_by_flags(&v("ab"), &vec![true, true]).is_empty());
}

#[test]
fn whitespace_matches_std_for_every_char() {
    for code in 0u32..=0x10FFFF {
        if let Some(c) = char::from_u32(code) {
            assert_eq!(is_whitespace(c), c.is_whitespace(), "U+{:04X}", code);
        }
    }
}
