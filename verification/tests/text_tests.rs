use fdm::text::{
    chars_of, decimal_text, is_real_text, parse_i32, parse_usize, split_chars, split_lines, string_from_chars,
    whitespace_tokens,
};

fn cv(s: &str) -> Vec<char> {
    s.chars().collect()
}

fn strs(v: &Vec<Vec<char>>) -> Vec<String> {
    v.iter().map(|x| x.iter().collect()).collect()
}

#[test]
fn split_chars_keeps_empty_pieces() {
    assert_eq!(strs(&split_chars(&cv("1,,2,"), ',')), vec!["1", "", "2", ""]);
    assert_eq!(strs(&split_chars(&cv(""), ',')), vec![""]);
    assert_eq!(strs(&split_chars(&cv("abc"), ',')), vec!["abc"]);
}

#[test]
fn whitespace_tokens_skip_all_unicode_whitespace() {
    let toks = whitespace_tokens(&cv("  1.5\t-2\u{3000}3e4\u{a0}x \n"));
    assert_eq!(strs(&toks), vec!["1.5", "-2", "3e4", "x"]);
    assert!(whitespace_tokens(&cv(" \r\n\t")).is_empty());
}

#[test]
fn split_lines_as_bufread_lines() {
    assert_eq!(strs(&split_lines(&cv("a\r\nb\n\nc"))), vec!["a", "b", "", "c"]);
    assert_eq!(strs(&split_lines(&cv("a\n"))), vec!["a"]);
    assert_eq!(strs(&split_lines(&cv("a\r"))), vec!["a\r"]);
    assert_eq!(strs(&split_lines(&cv("\n"))), vec![""]);
    assert!(split_lines(&cv("")).is_empty());
}

#[test]
fn parse_usize_as_std() {
    assert_eq!(parse_usize(&cv("42")), Some(42));
    assert_eq!(parse_usize(&cv("+7")), Some(7));
    assert_eq!(parse_usize(&cv("007")), Some(7));
    assert_eq!(parse_usize(&cv("")), None);
    assert_eq!(parse_usize(&cv("+")), None);
    assert_eq!(parse_usize(&cv("-1")), None);
    assert_eq!(parse_usize(&cv(" 1")), None);
    assert_eq!(parse_usize(&cv("1.0")), None);
    assert_eq!(parse_usize(&cv(&usize::MAX.to_string())), Some(usize::MAX));
    assert_eq!(parse_usize(&cv("99999999999999999999999")), None);
    for s in ["0", "12", "+3", "-3", "x", "", "18446744073709551616"] {
        assert_eq!(parse_usize(&cv(s)), s.parse::<usize>().ok());
    }
}

#[test]
fn parse_i32_as_std() {
    assert_eq!(parse_i32(&cv("-2147483648")), Some(i32::MIN));
    assert_eq!(parse_i32(&cv("2147483647")), Some(i32::MAX));
    assert_eq!(parse_i32(&cv("2147483648")), None);
    assert_eq!(parse_i32(&cv("-2147483649")), None);
    assert_eq!(parse_i32(&cv("-0")), Some(0));
    assert_eq!(parse_i32(&cv("-")), None);
    for s in ["159", "-5", "+5", "5 ", "1e3", "--1"] {
        assert_eq!(parse_i32(&cv(s)), s.parse::<i32>().ok());
    }
}

#[test]
fn decimal_text_as_display() {
    for n in [0usize, 7, 10, 5001, 1234567890, usize::MAX] {
        assert_eq!(decimal_text(n), n.to_string());
    }
}

#[test]
fn decimal_text_reads_back() {
    for n in [0usize, 9, 100, 65535] {
        assert_eq!(parse_usize(&cv(&decimal_text(n))), Some(n));
    }
}

#[test]
fn chars_round_trip() {
    let s = "震源 x";
    assert_eq!(chars_of(s), cv(s));
    assert_eq!(string_from_chars(&cv(s)), s.to_string());
}

#[test]
fn tokens_of_joined_texts() {
    let a = "1 2  3";
    let b = " 4\t5";
    let joined = format!("{} {}", a, b);
    let mut expected = strs(&whitespace_tokens(&cv(a)));
    expected.extend(strs(&whitespace_tokens(&cv(b))));
    assert_eq!(strs(&whitespace_tokens(&cv(&joined))), expected);
    let glued = format!("{}\u{2028}{}", "x", "y");
    assert_eq!(strs(&whitespace_tokens(&cv(&glued))), vec!["x", "y"]);
}

#[test]
fn split_of_joined_pieces() {
    let parts = vec!["0.0002", "5001", "", "x y"];
    assert_eq!(strs(&split_chars(&cv(&parts.join(",")), ',')), parts);
}

#[test]
fn crlf_lines_read_back() {
    let text = "a\r\r\nb\r\n";
    assert_eq!(strs(&split_lines(&cv(text))), vec!["a\r", "b"]);
}

#[test]
fn real_texts_as_std_reads_them() {
    let cases = [
        "0", "1.5", "-2", "+3.", ".5", "1e5", "1E-5", "1.e+3", "inf", "-Infinity", "NaN", "nan",
        "INF", ".", "", "+", "e5", "1e", "1e+", "1.2.3", " 1", "1 ", "abc", "1,5", "0x10", "1_0",
        "infin", "-.e1", "5e3.2", "+-1", "١",
    ];
    for s in cases {
        assert_eq!(is_real_text(&cv(s)), s.parse::<f64>().is_ok(), "{:?}", s);
    }
}
