use myftp::decimal::{parse_usize, push_decimal};

fn parse(text: &str) -> Option<usize> {
    let chars: Vec<char> = text.chars().collect();
    parse_usize(&chars)
}

fn render(n: usize) -> String {
    let mut out = String::new();
    push_decimal(&mut out, n);
    out
}

#[test]
fn renders_zero_as_one_digit() {
    assert_eq!(render(0), "0");
}

#[test]
fn renders_without_leading_zeros() {
    assert_eq!(render(7), "7");
    assert_eq!(render(10), "10");
    assert_eq!(render(1005), "1005");
    assert_eq!(render(4294967295), "4294967295");
}

#[test]
fn renders_the_largest_number() {
    assert_eq!(render(usize::MAX), format!("{}", usize::MAX));
}

#[test]
fn rendering_appends_to_what_is_there() {
    let mut out = String::from("bytes=");
    push_decimal(&mut out, 42);
    assert_eq!(out, "bytes=42");
}

#[test]
fn parses_plain_digits() {
    assert_eq!(parse("0"), Some(0));
    assert_eq!(parse("10"), Some(10));
    assert_eq!(parse("007"), Some(7));
    assert_eq!(parse("123456"), Some(123456));
}

#[test]
fn parses_a_leading_plus_sign() {
    assert_eq!(parse("+15"), Some(15));
    assert_eq!(parse("+"), None);
    assert_eq!(parse("++1"), None);
}

#[test]
fn refuses_what_is_no_numeral() {
    assert_eq!(parse(""), None);
    assert_eq!(parse("-1"), None);
    assert_eq!(parse("12a"), None);
    assert_eq!(parse(" 12"), None);
    assert_eq!(parse("12 "), None);
    assert_eq!(parse("12\r"), None);
    assert_eq!(parse("1.5"), None);
}

#[test]
fn refuses_what_does_not_fit() {
    let max = format!("{}", usize::MAX);
    assert_eq!(parse(&max), Some(usize::MAX));
    let mut too_long = max.clone();
    too_long.push('0');
    assert_eq!(parse(&too_long), None);
    let mut one_more: Vec<char> = max.chars().collect();
    let last = one_more.len() - 1;
    // usize::MAX ends in 5 on 32 and 64 bits alike
    assert_eq!(one_more[last], '5');
    one_more[last] = '6';
    assert_eq!(parse_usize(&one_more), None);
}

#[test]
fn parsing_reads_back_what_rendering_wrote() {
    for n in [0usize, 1, 9, 10, 11, 99, 100, 65535, 1 << 20, usize::MAX - 1, usize::MAX] {
        assert_eq!(parse(&render(n)), Some(n));
    }
}
