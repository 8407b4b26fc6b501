use tinyticker::strings::{
    chars_of, contains, find_line, index_of, lower_all, parse_digits, parse_i32, parse_u32,
    parse_upto, push_int, push_number, push_two, split, split_fields, split_lines, split_tokens,
    split_words, string_of, strip_front, trim, SPACES,
};

fn c(s: &str) -> Vec<char> {
    s.chars().collect()
}

fn texts(v: Vec<Vec<char>>) -> Vec<String> {
    v.iter().map(|w| string_of(w)).collect()
}

#[test]
fn white_space_is_what_the_standard_calls_so() {
    for u in 0..0x11_0000u32 {
        if let Some(ch) = char::from_u32(u) {
            assert_eq!(SPACES.contains(&ch), ch.is_whitespace(), "{u:x}");
        }
    }
    assert_eq!(string_of(trim(&c(" \t\u{3000}a b\u{a0}\n"))), "a b");
    assert_eq!(string_of(trim(&c("  "))), "");
}

#[test]
fn numbers_parse_as_the_standard_does() {
    for s in [
        "", "0", "007", "+5", "-5", "-0", "+", "-", "++1", "1 ", "4294967295", "4294967296",
        "2147483647", "2147483648", "-2147483648", "-2147483649", "99999999999999999999999", "1a",
    ] {
        assert_eq!(parse_u32(&c(s)), s.parse::<u32>().ok(), "{s}");
        assert_eq!(parse_i32(&c(s)), s.parse::<i32>().ok(), "{s}");
        assert_eq!(parse_upto(&c(s), u64::MAX), s.parse::<u64>().ok(), "{s}");
    }
    assert_eq!(parse_digits(&c("+5"), 9), None);
    assert_eq!(parse_digits(&c("9"), 9), Some(9));
    assert_eq!(parse_digits(&c("10"), 9), None);
}

#[test]
fn numbers_are_written_and_read_back() {
    for n in [0u64, 7, 10, 99, 1_000_000, u64::MAX] {
        let mut s = String::new();
        push_number(&mut s, n);
        assert_eq!(s, format!("{n}"));
        assert_eq!(parse_upto(&c(&s), u64::MAX), Some(n));
    }
    for n in [0i64, -1, 12, i64::MIN, i64::MAX] {
        let mut s = String::new();
        push_int(&mut s, n);
        assert_eq!(s, format!("{n}"));
    }
    for n in [0u64, 5, 10, 99, 100] {
        let mut s = String::new();
        push_two(&mut s, n);
        assert_eq!(s, format!("{n:02}"));
    }
}

#[test]
fn texts_are_split_as_the_standard_does() {
    for s in ["", ",", "a", "a,b", ",a,,b,", "a; b ,c, "] {
        let want: Vec<String> = s.split([',', ';']).map(str::to_string).collect();
        assert_eq!(texts(split(&c(s), &[',', ';'])), want, "{s}");
        let want: Vec<String> =
            s.split([',', ';']).map(str::trim).filter(|t| !t.is_empty()).map(str::to_string).collect();
        assert_eq!(texts(split_words(&c(s), &[',', ';'])), want, "{s}");
    }
    for s in ["", "\n", "a\nb", "a\nb\n", "\n\na"] {
        let want: Vec<String> = s.split('\n').map(str::to_string).collect();
        assert_eq!(texts(split_lines(&c(s))), want, "{s:?}");
    }
    let s = "  a \t b\u{3000}c ";
    let want: Vec<String> = s.split_whitespace().map(str::to_string).collect();
    assert_eq!(texts(split_tokens(&c(s))), want);
    assert_eq!(texts(split_fields(&c("a,b,"), &[','])).len(), 2);
}

#[test]
fn parts_are_found() {
    assert_eq!(strip_front(&c("key=1"), "key="), Some(&c("1")[..]));
    assert_eq!(strip_front(&c("ke"), "key"), None);
    assert_eq!(index_of(&c("abc"), 'c'), 2);
    assert_eq!(index_of(&c("abc"), 'x'), 3);
    assert!(contains(&c("abcd"), &c("bc")));
    assert!(contains(&c("a"), &c("")));
    assert!(!contains(&c("abcd"), &c("bd")));
    assert_eq!(string_of(&lower_all(&c("AbC-Ä"))), "abc-Ä");
    let all = vec![c("x 1"), c("cpu 2"), c("cpu 3")];
    assert_eq!(find_line(&all, "cpu "), Some(&c("2")[..]));
    assert_eq!(find_line(&all, "mem "), None);
    assert_eq!(chars_of("aé中"), ['a', 'é', '中']);
}
