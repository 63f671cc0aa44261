use xidown::text::{
    after_last_chars, chars_eq, chars_of, contains_chars, decimal_chars, find_chars,
    first_piece_chars, is_whitespace_char, parse_u32, parse_u64, parse_usize, remove_char,
    replace_char, same_text, slice_chars, string_of, take_chars, trim_chars,
};

fn v(s: &str) -> Vec<char> {
    s.chars().collect()
}

fn s(v: &Vec<char>) -> String {
    v.iter().collect()
}

#[test]
fn chars_and_strings_round_trip() {
    assert_eq!(chars_of("白蛇传 a"), v("白蛇传 a"));
    assert_eq!(string_of(&v("陈三五娘")), "陈三五娘");
    assert_eq!(string_of(&Vec::new()), "");
}

#[test]
fn equality() {
    assert!(chars_eq(&v("甲乙"), &v("甲乙")));
    assert!(!chars_eq(&v("甲乙"), &v("甲")));
    assert!(same_text("BV1", "BV1"));
    assert!(!same_text("BV1", "BV2"));
}

#[test]
fn white_space_and_trim_follow_std() {
    for c in [' ', '\t', '\n', '\u{3000}', '\u{a0}', 'a', '甲', '\u{200b}'] {
        assert_eq!(is_whitespace_char(c), c.is_whitespace(), "{c:?}");
    }
    let t = " \u{3000} 白 蛇\t\n";
    assert_eq!(s(&trim_chars(&v(t))), t.trim());
    assert_eq!(s(&trim_chars(&v("   "))), "");
}

#[test]
fn finding() {
    assert_eq!(find_chars(&v("白蛇传 斗阵来看戏 斗阵来看戏"), &v("斗阵来看戏")), Some(4));
    assert_eq!(find_chars(&v("白蛇传"), &v("斗阵")), None);
    assert_eq!(find_chars(&v("abc"), &v("")), Some(0));
    assert!(contains_chars(&v("-702 请求频率过高"), &v("请求频率过高")));
    assert!(!contains_chars(&v("ab"), &v("abc")));
}

#[test]
fn pieces() {
    assert_eq!(s(&first_piece_chars(&v("陈三五娘 斗阵来看戏 20240101"), &v(" "))), "陈三五娘");
    assert_eq!(s(&first_piece_chars(&v("无空格"), &v(" "))), "无空格");
    assert_eq!(s(&after_last_chars(&v("bytes 100-999/1000"), '/')), "1000");
    assert_eq!(s(&after_last_chars(&v("no slash"), '/')), "no slash");
    assert_eq!(s(&slice_chars(&v("白蛇传"), 1, 3)), "蛇传");
    assert_eq!(s(&take_chars(&v("白蛇传"), 2)), "白蛇");
    assert_eq!(s(&take_chars(&v("白蛇传"), 9)), "白蛇传");
}

#[test]
fn replacing() {
    assert_eq!(s(&remove_char(&v(" 白 蛇 传 "), ' ')), "白蛇传");
    assert_eq!(s(&replace_char(&v("甲（1）"), '（', '(')), "甲(1）");
}

#[test]
fn numbers() {
    assert_eq!(s(&decimal_chars(0)), "0");
    assert_eq!(s(&decimal_chars(42)), "42");
    assert_eq!(s(&decimal_chars(u64::MAX)), u64::MAX.to_string());
    for t in ["0", "42", "+7", "007", "18446744073709551615", "18446744073709551616", "", "+", "-1", "1 ", "x"] {
        assert_eq!(parse_u64(&v(t)), t.parse::<u64>().ok(), "{t:?}");
        assert_eq!(parse_usize(&v(t)), t.parse::<usize>().ok(), "{t:?}");
        assert_eq!(parse_u32(&v(t)), t.parse::<u32>().ok(), "{t:?}");
    }
    assert_eq!(parse_u32(&v("4294967296")), None);
    assert_eq!(parse_u32(&v("20240101")), Some(20240101));
}
