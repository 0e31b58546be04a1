use myftp::request::Requests;

#[test]
fn full_request_is_the_request_line_and_a_blank_line() {
    assert_eq!(Requests::Full.to_header(), "GET / HTTP/1.0\r\n\r\n");
}

#[test]
fn range_request_names_both_bounds() {
    assert_eq!(
        Requests::Range(4, 10).to_header(),
        "GET / HTTP/1.0\r\nRange: bytes=4-10\r\n\r\n"
    );
}

#[test]
fn range_request_from_zero() {
    assert_eq!(
        Requests::Range(0, 0).to_header(),
        "GET / HTTP/1.0\r\nRange: bytes=0-0\r\n\r\n"
    );
}

#[test]
fn range_request_holds_the_bounds_in_decimal() {
    for (start, end) in [(0usize, 1usize), (9, 10), (100, 99), (123456, 7890123), (0, usize::MAX)] {
        let text = Requests::Range(start, end).to_header();
        assert!(text.contains(&format!("bytes={}-{}\r\n", start, end)));
        assert!(text.starts_with("GET / HTTP/1.0\r\n"));
        assert!(text.ends_with("\r\n\r\n"));
    }
}

#[test]
fn range_request_with_the_largest_bounds() {
    assert_eq!(
        Requests::Range(usize::MAX, usize::MAX).to_header(),
        format!("GET / HTTP/1.0\r\nRange: bytes={}-{}\r\n\r\n", usize::MAX, usize::MAX)
    );
}
