use sysstatus::text::{
    chars_of, decimal_string, parse_i32, parse_u64, parse_u8, replace_chars, split_lines,
    split_words, trim_str,
};

fn v(s: &str) -> Vec<char> {
    s.chars().collect()
}

fn strs(vs: &[Vec<char>]) -> Vec<String> {
    vs.iter().map(|w| w.iter().collect()).collect()
}

#[test]
fn chars_of_keeps_characters() {
    assert_eq!(chars_of("a é\n"), vec!['a', ' ', 'é', '\n']);
}

#[test]
fn trim_matches_std() {
    for s in ["  up\n", "up", "\t\u{a0}Battery\u{3000}", "", "   ", "a b", "\u{85}x\u{2028}"] {
        let t: String = trim_str(s).into_iter().collect();
        assert_eq!(t, s.trim(), "{:?}", s);
    }
}

#[test]
fn split_words_matches_std() {
    for s in ["cpu  1 2 3", "  lead and trail  ", "", " \t\n ", "one", "a\u{2003}b\u{a0}c"] {
        let w = strs(&split_words(&v(s)));
        let expected: Vec<String> = s.split_whitespace().map(|x| x.to_string()).collect();
        assert_eq!(w, expected, "{:?}", s);
    }
}

#[test]
fn split_lines_matches_std() {
    for s in ["a\nb", "a\nb\n", "a\r\nb\r\n", "", "\n", "\n\n", "x\r", "a\rb\nc", "last\r\n\r\n"] {
        let l = strs(&split_lines(&v(s)));
        let expected: Vec<String> = s.lines().map(|x| x.to_string()).collect();
        assert_eq!(l, expected, "{:?}", s);
    }
}

#[test]
fn replace_matches_std() {
    let cases = [("%p%", "%p", "42"), ("aaaa", "aa", "b"), ("abc", "", "-"), ("", "", "x"), ("xyz", "q", "r")];
    for (s, p, t) in cases {
        let r: String = replace_chars(&v(s), &v(p), &v(t)).into_iter().collect();
        assert_eq!(r, s.replace(p, t), "{:?}", (s, p, t));
    }
}

#[test]
fn parse_u64_matches_std() {
    for s in ["0", "42", "+7", "", "+", "-1", "-0", "18446744073709551615", "18446744073709551616",
        "12a", " 1", "007", "99999999999999999999999"] {
        assert_eq!(parse_u64(&v(s)), s.parse::<u64>().ok(), "{:?}", s);
    }
}

#[test]
fn parse_u8_matches_std() {
    for s in ["0", "255", "256", "+100", "-1", "", "1000", "80"] {
        assert_eq!(parse_u8(&v(s)), s.parse::<u8>().ok(), "{:?}", s);
    }
}

#[test]
fn parse_i32_matches_std() {
    for s in ["-45", "+3", "0", "-0", "-", "+", "2147483647", "2147483648", "-2147483648",
        "-2147483649", "--1", "4x", ""] {
        assert_eq!(parse_i32(&v(s)), s.parse::<i32>().ok(), "{:?}", s);
    }
}

#[test]
fn decimal_string_writes_digits() {
    assert_eq!(decimal_string(0), "0");
    assert_eq!(decimal_string(7), "7");
    assert_eq!(decimal_string(1024), "1024");
    assert_eq!(decimal_string(u64::MAX as u128), "18446744073709551615");
}
