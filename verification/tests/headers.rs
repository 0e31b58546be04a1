use myftp::headers::Headers;

fn length_of(text: &str) -> Option<usize> {
    Headers { all: String::from(text) }.content_length()
}

#[test]
fn reads_the_declared_length() {
    assert_eq!(length_of("HTTP/1.0 200 OK\r\nContent-Length: 10"), Some(10));
}

#[test]
fn reads_a_length_line_that_stands_alone() {
    assert_eq!(length_of("Content-Length: 0"), Some(0));
    assert_eq!(length_of("Content-Length: 1048576\r\n"), Some(1048576));
    assert_eq!(length_of("Content-Length: 12\n"), Some(12));
}

#[test]
fn reads_a_length_line_between_others() {
    assert_eq!(
        length_of("HTTP/1.0 206 Partial Content\r\nServer: x\r\nContent-Length: 77\r\nDate: today"),
        Some(77)
    );
}

#[test]
fn first_length_line_wins() {
    assert_eq!(length_of("Content-Length: 10\r\nContent-Length: 20"), Some(10));
    assert_eq!(length_of("A: b\r\nContent-Length: 3\r\nContent-Length: 4\r\nContent-Length: 5"), Some(3));
}

#[test]
fn unreadable_first_length_line_hides_later_ones() {
    assert_eq!(length_of("Content-Length: ten\r\nContent-Length: 20"), None);
    assert_eq!(length_of("Content-Length: \r\nContent-Length: 20"), None);
}

#[test]
fn no_length_line_no_length() {
    assert_eq!(length_of(""), None);
    assert_eq!(length_of("HTTP/1.0 200 OK"), None);
    assert_eq!(length_of("HTTP/1.0 200 OK\r\nServer: x\r\n"), None);
}

#[test]
fn the_prefix_must_begin_the_line() {
    assert_eq!(length_of(" Content-Length: 10"), None);
    assert_eq!(length_of("X-Content-Length: 10"), None);
    assert_eq!(length_of("Server: x Content-Length: 10"), None);
}

#[test]
fn the_prefix_is_taken_literally() {
    assert_eq!(length_of("content-length: 10"), None);
    assert_eq!(length_of("Content-Length:10"), None);
    assert_eq!(length_of("Content-Length:  10"), None);
}

#[test]
fn the_value_is_a_plain_numeral() {
    assert_eq!(length_of("Content-Length: 10 "), None);
    assert_eq!(length_of("Content-Length: -1"), None);
    assert_eq!(length_of("Content-Length: 0x10"), None);
    assert_eq!(length_of("Content-Length: +10"), Some(10));
    assert_eq!(length_of("Content-Length: 0010"), Some(10));
}

#[test]
fn a_length_that_does_not_fit_is_none() {
    let text = format!("Content-Length: {}0", usize::MAX);
    assert_eq!(length_of(&text), None);
    let text = format!("Content-Length: {}", usize::MAX);
    assert_eq!(length_of(&text), Some(usize::MAX));
}

#[test]
fn a_carriage_return_belongs_to_the_line_break_only() {
    // before a line feed it is part of the line break
    assert_eq!(length_of("Content-Length: 10\r\nServer: x"), Some(10));
    // at the end of the text it is part of the last line
    assert_eq!(length_of("Content-Length: 10\r"), None);
    // only one is taken off
    assert_eq!(length_of("Content-Length: 10\r\r\n"), None);
}

#[test]
fn lines_may_end_with_a_bare_line_feed() {
    assert_eq!(length_of("HTTP/1.0 200 OK\nContent-Length: 5\nServer: x"), Some(5));
}

#[test]
fn text_outside_ascii_is_read_by_characters() {
    assert_eq!(length_of("Sérver: ▓\r\nContent-Length: 9"), Some(9));
    assert_eq!(length_of("Content-Length: ９"), None);
}
