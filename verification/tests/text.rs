use bench_uring::text::{
    decimal_chars, ends_with, matches_at, parse_u64, parse_unsigned, parse_usize, push_str,
    rfind, starts_with, to_chars,
};

fn chars(s: &str) -> Vec<char> {
    s.chars().collect()
}

fn string(v: Vec<char>) -> String {
    v.into_iter().collect()
}

#[test]
fn parse_usize_accepts_plain_and_plus_digits() {
    assert_eq!(parse_usize("0"), Some(0));
    assert_eq!(parse_usize("16384"), Some(16384));
    assert_eq!(parse_usize("+200"), Some(200));
    assert_eq!(parse_usize("007"), Some(7));
}

#[test]
fn parse_usize_rejects_what_str_parse_rejects() {
    assert_eq!(parse_usize(""), None);
    assert_eq!(parse_usize("+"), None);
    assert_eq!(parse_usize("-1"), None);
    assert_eq!(parse_usize("1 "), None);
    assert_eq!(parse_usize("12a"), None);
    assert_eq!(parse_usize("++1"), None);
}

#[test]
fn parse_agrees_with_std_parse() {
    let cases = [
        "", "0", "1", "+", "+0", "-0", "42", "4294967295", "4294967296",
        "18446744073709551615", "18446744073709551616", "99999999999999999999999",
        " 1", "1_000", "٣", "+٣",
    ];
    for c in cases {
        assert_eq!(parse_u64(c), c.parse::<u64>().ok(), "u64 {c:?}");
        assert_eq!(parse_usize(c), c.parse::<usize>().ok(), "usize {c:?}");
        let v = chars(c);
        assert_eq!(
            parse_unsigned(&v, 0, v.len(), u32::MAX as u64),
            c.parse::<u32>().ok().map(|v| v as u64),
            "u32 {c:?}"
        );
    }
}

#[test]
fn parse_u64_limits() {
    assert_eq!(parse_u64("18446744073709551615"), Some(u64::MAX));
    assert_eq!(parse_u64("18446744073709551616"), None);
}

#[test]
fn decimal_spelling() {
    assert_eq!(string(decimal_chars(0)), "0");
    assert_eq!(string(decimal_chars(7)), "7");
    assert_eq!(string(decimal_chars(1048576)), "1048576");
    assert_eq!(string(decimal_chars(u64::MAX as u128 + 1)), "18446744073709551616");
}

#[test]
fn decimal_reads_back() {
    for n in [0u64, 9, 10, 99, 100, 12345, u64::MAX] {
        assert_eq!(string(decimal_chars(n as u128)), n.to_string());
        assert_eq!(parse_u64(&string(decimal_chars(n as u128))), Some(n));
    }
}

#[test]
fn characters_of_strings() {
    assert_eq!(to_chars("aé٣"), vec!['a', 'é', '٣']);
    assert!(to_chars("").is_empty());
    let mut v = chars("x");
    push_str(&mut v, "yz");
    assert_eq!(string(v), "xyz");
}

#[test]
fn searching_characters() {
    let s = chars("Avg: 1 ... Avg: 2");
    assert_eq!(rfind(&s, &chars("Avg: ")), Some(11));
    assert_eq!(rfind(&s, &chars("xyz")), None);
    assert_eq!(rfind(&chars("ab"), &chars("abc")), None);
    assert_eq!(rfind(&chars("ab"), &chars("")), Some(2));
    assert!(matches_at(&s, &chars("Avg"), 0));
    assert!(!matches_at(&s, &chars("Avg"), 1));
    assert!(!matches_at(&s, &chars("Avg"), 100));
    assert!(starts_with(&chars("client_tokio_st"), &chars("client_")));
    assert!(!starts_with(&chars("clien"), &chars("client_")));
    assert!(ends_with(&chars("server_tokio_st"), &chars("st")));
    assert!(!ends_with(&chars("server_tokio_mt"), &chars("st")));
    assert!(!ends_with(&chars("t"), &chars("st")));
}
