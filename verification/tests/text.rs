use metrics_log::text::{
    chars_of, lines_of, parse_unsigned_chars, push_decimal, push_zero_padded, split_chars,
    string_of, trim_chars, trim_end_chars,
};

fn chars(s: &str) -> Vec<char> {
    s.chars().collect()
}

fn strings(pieces: Vec<Vec<char>>) -> Vec<String> {
    pieces.into_iter().map(|p| p.into_iter().collect()).collect()
}

#[test]
fn decimal_forms() {
    let mut s = String::new();
    push_decimal(&mut s, 0);
    assert_eq!(s, "0");
    let mut s = String::from("x=");
    push_decimal(&mut s, 18446744073709551615);
    assert_eq!(s, "x=18446744073709551615");
    let mut s = String::new();
    push_zero_padded(&mut s, 42, 6);
    assert_eq!(s, "000042");
    let mut s = String::new();
    push_zero_padded(&mut s, 1234567, 6);
    assert_eq!(s, "1234567");
    let mut s = String::new();
    push_zero_padded(&mut s, 0, 20);
    assert_eq!(s, "00000000000000000000");
}

#[test]
fn unsigned_parsing_follows_str_parse() {
    assert_eq!(parse_unsigned_chars(&chars("42"), u32::MAX as u64), Some(42));
    assert_eq!(parse_unsigned_chars(&chars("+42"), u32::MAX as u64), Some(42));
    assert_eq!(parse_unsigned_chars(&chars("007"), u32::MAX as u64), Some(7));
    assert_eq!(parse_unsigned_chars(&chars("4294967295"), u32::MAX as u64), Some(4294967295));
    assert_eq!(parse_unsigned_chars(&chars("4294967296"), u32::MAX as u64), None);
    assert_eq!(parse_unsigned_chars(&chars(""), u32::MAX as u64), None);
    assert_eq!(parse_unsigned_chars(&chars("+"), u32::MAX as u64), None);
    assert_eq!(parse_unsigned_chars(&chars("-1"), u32::MAX as u64), None);
    assert_eq!(parse_unsigned_chars(&chars("1 "), u32::MAX as u64), None);
    assert_eq!(parse_unsigned_chars(&chars("++1"), u32::MAX as u64), None);
    assert_eq!(
        parse_unsigned_chars(&chars("18446744073709551615"), u64::MAX),
        Some(u64::MAX)
    );
    assert_eq!(parse_unsigned_chars(&chars("18446744073709551616"), u64::MAX), None);
    for text in ["0", "+9", "12x", "", "99999999999", "-3"] {
        assert_eq!(
            parse_unsigned_chars(&chars(text), u32::MAX as u64),
            text.parse::<u32>().ok().map(u64::from)
        );
    }
}

#[test]
fn splitting_follows_str_split() {
    for text in ["a|b", "|", "", "a||b|", "no separator"] {
        let expected: Vec<String> = text.split('|').map(String::from).collect();
        assert_eq!(strings(split_chars(&chars(text), '|')), expected);
    }
}

#[test]
fn lines_follow_str_lines() {
    for text in ["", "a", "a\n", "a\r\nb", "a\n\nb\n", "\n", "a\r", "x\r\n\r\n"] {
        let expected: Vec<String> = text.lines().map(String::from).collect();
        assert_eq!(strings(lines_of(&chars(text))), expected);
    }
}

#[test]
fn trimming_follows_str_trim() {
    for text in ["  a b \n", "\t\u{3000}x\u{85}", "", "   ", "plain"] {
        let end: String = trim_end_chars(&chars(text)).into_iter().collect();
        assert_eq!(end, text.trim_end());
        let both: String = trim_chars(&chars(text)).into_iter().collect();
        assert_eq!(both, text.trim());
    }
}

#[test]
fn characters_round_trip_through_strings() {
    let text = "héllo|wörld";
    let cs = chars_of(text);
    assert_eq!(cs.len(), 11);
    assert_eq!(string_of(&cs), text);
}
