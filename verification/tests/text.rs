use wasd::text::{
    chars_of, find_char, find_sign, has_prefix, has_substring, parse_i16_exec, push_decimal,
    replace_chars, split_lines, split_words, string_of,
};

fn chars(s: &str) -> Vec<char> {
    s.chars().collect()
}

fn strings(v: Vec<Vec<char>>) -> Vec<String> {
    v.into_iter().map(|l| l.into_iter().collect()).collect()
}

#[test]
fn lines_like_std() {
    for s in ["", "a", "a\n", "a\n\n", "\n", "a\r\nb", "a\r", "a\rb\nc", "x\r\n\r\ny"] {
        let expected: Vec<String> = s.lines().map(|l| l.to_string()).collect();
        assert_eq!(strings(split_lines(&chars(s))), expected, "input {:?}", s);
    }
}

#[test]
fn words_like_std() {
    for s in ["", "   ", "a b", "  a\t b \n", "a\u{3000}b\u{a0}c", "x\u{0B}y\u{0C}z"] {
        let expected: Vec<String> = s.split_whitespace().map(|l| l.to_string()).collect();
        assert_eq!(strings(split_words(&chars(s))), expected, "input {:?}", s);
    }
}

#[test]
fn parse_like_std() {
    for s in [
        "0", "+0", "-0", "32767", "-32768", "32768", "-32769", "+", "-", "", "12a", " 1", "+-1",
        "0000000000000000012", "99999999999999999999", "-00032768",
    ] {
        assert_eq!(parse_i16_exec(&chars(s)), s.parse::<i16>().ok(), "input {:?}", s);
    }
}

#[test]
fn decimal_like_std() {
    for n in [0i64, 7, 10, 1366, -1, -768, i64::MAX, i64::MIN] {
        let mut s = String::from("=");
        push_decimal(&mut s, n);
        assert_eq!(s, format!("={}", n));
    }
}

#[test]
fn searches() {
    assert!(has_prefix(&chars("Virtual-1"), &chars("Virtual-")));
    assert!(!has_prefix(&chars("Virt"), &chars("Virtual-")));
    assert!(has_substring(&chars("a connected b"), &chars(" connected")));
    assert!(!has_substring(&chars("disconnected"), &chars(" connected")));
    assert!(has_substring(&chars("abc"), &chars("")));
    assert_eq!(find_char(&chars("1024x768"), 'x'), Some(4));
    assert_eq!(find_char(&chars("1024"), 'x'), None);
    assert_eq!(find_sign(&chars("768-1+2")), Some(3));
    assert_eq!(find_sign(&chars("768")), None);
}

#[test]
fn replace_like_std() {
    for (s, p, r) in [
        ("a__ROTATION__b__ROTATION__", "__ROTATION__", "90"),
        ("aaa", "aa", "b"),
        ("none", "__ROTATION__", "0"),
        ("", "x", "y"),
    ] {
        assert_eq!(replace_chars(&chars(s), &chars(p), r), s.replace(p, r));
    }
}

#[test]
fn string_round_trip() {
    let s = "héllo\u{3000}wörld";
    assert_eq!(string_of(&chars_of(s)), s);
}
