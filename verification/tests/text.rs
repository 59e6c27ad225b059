use pwdchk::text::{
    find_char, join_strs, str_eq, lines_of, parse_unsigned, push_decimal, split_char, split_once,
    to_hex_upper,
};

#[test]
fn split_char_keeps_empty_pieces() {
    assert_eq!(split_char("a,b,,c", ','), vec!["a", "b", "", "c"]);
    assert_eq!(split_char("", ','), vec![""]);
    assert_eq!(split_char(",", ','), vec!["", ""]);
    assert_eq!(split_char("héllo", ','), vec!["héllo"]);
}

#[test]
fn split_then_join_gives_back_text() {
    for s in ["a,b,,c", "", ",", "x", ",,é,"] {
        let pieces = split_char(s, ',');
        let refs: Vec<&str> = pieces.iter().map(|p| p.as_str()).collect();
        assert_eq!(join_strs(&refs, ","), s);
    }
}

#[test]
fn find_and_split_once() {
    assert_eq!(find_char("ab:cd:ef", ':'), Some(2));
    assert_eq!(find_char("abc", ':'), None);
    assert_eq!(find_char("é:", ':'), Some(1));
    assert_eq!(split_once("ab:cd:ef", ':'), Some(("ab", "cd:ef")));
    assert_eq!(split_once("abc", ':'), None);
}

#[test]
fn lines_like_str_lines() {
    for s in ["", "a", "a\n", "a\nb", "a\r\nb\r\n", "\n", "\n\n", "a\r", "x\r\r\ny"] {
        let expected: Vec<String> = s.lines().map(|l| l.to_string()).collect();
        assert_eq!(lines_of(s), expected, "text {s:?}");
    }
}

#[test]
fn decimal_text_and_back() {
    for n in [0u64, 7, 10, 99, 100, 65535, u64::MAX] {
        let mut s = String::new();
        push_decimal(&mut s, n);
        assert_eq!(s, n.to_string());
        assert_eq!(parse_unsigned(&s, u64::MAX), Some(n));
    }
}

#[test]
fn parse_unsigned_like_std() {
    for s in ["", "+", "-", "-0", "+0", "007", "1a", " 1", "300", "255", "+255"] {
        let std_value = s.parse::<u8>().ok().map(|v| v as u64);
        assert_eq!(parse_unsigned(s, 255), std_value, "text {s:?}");
    }
}

#[test]
fn hex_upper_two_digits_per_byte() {
    assert_eq!(to_hex_upper(&[0x00, 0x0f, 0xa5, 0xff]), "000FA5FF");
    assert_eq!(to_hex_upper(&[]), "");
}

#[test]
fn str_eq_compares_texts() {
    assert!(str_eq("abc", "abc"));
    assert!(str_eq("", ""));
    assert!(!str_eq("abc", "abd"));
    assert!(!str_eq("ab", "abc"));
    assert!(str_eq("héllo", "héllo"));
    assert!(!str_eq("é", "e"));
}
