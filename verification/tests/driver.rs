use myftp::driver::{Action, Driver, Phase, TransferError};
use myftp::request::Requests;
use myftp::response::ProtocolError;

fn response(headers: &str, body: &[u8]) -> Vec<u8> {
    let mut raw = headers.as_bytes().to_vec();
    raw.extend_from_slice(b"\r\n\r\n");
    raw.extend_from_slice(body);
    raw
}

/// A server that holds `payload` and sends, in its `n`th response, at most
/// `limits[n]` bytes of what was asked for.
struct Server {
    payload: Vec<u8>,
    limits: Vec<usize>,
    served: usize,
    reconnects: usize,
    requests: Vec<String>,
}

impl Server {
    fn new(payload: &[u8], limits: &[usize]) -> Server {
        Server { payload: payload.to_vec(), limits: limits.to_vec(), served: 0, reconnects: 0, requests: Vec::new() }
    }

    fn serve(&mut self, request: &Requests) -> Vec<u8> {
        self.requests.push(request.to_header());
        let start = match request {
            Requests::Full => 0,
            Requests::Range(start, _) => *start,
        };
        let limit = self.limits[self.served];
        self.served += 1;
        let end = std::cmp::min(self.payload.len(), start + limit);
        response(&format!("HTTP/1.0 200 OK\r\nContent-Length: {}", self.payload.len()), &self.payload[start..end])
    }
}

fn run(server: &mut Server) -> Result<Vec<u8>, TransferError> {
    let mut driver = Driver::new();
    loop {
        let request = match driver.action() {
            Action::Send(request) => request,
            Action::ReconnectAndSend(request) => {
                server.reconnects += 1;
                request
            }
            Action::Persist => break,
        };
        let raw = server.serve(&request);
        driver = driver.on_response(raw)?;
    }
    let data = driver.data().unwrap();
    let mut file = Vec::new();
    let mut done = 0;
    while let Some(body) = data.save(done) {
        file.extend_from_slice(body);
        done = data.written(done, body.len()).unwrap();
    }
    Ok(file)
}

#[test]
fn a_new_run_asks_for_everything() {
    let driver = Driver::new();
    assert_eq!(driver.phase(), Phase::AwaitingInitial);
    assert_eq!(driver.action(), Action::Send(Requests::Full));
    assert!(driver.data().is_none());
}

#[test]
fn truncated_first_response_is_resumed_at_the_byte_received() {
    let driver = Driver::new();
    let driver = driver.on_response(response("HTTP/1.0 200 OK\r\nContent-Length: 10", b"0123")).unwrap();
    assert_eq!(driver.phase(), Phase::AwaitingRange);
    assert_eq!(driver.action(), Action::ReconnectAndSend(Requests::Range(4, 10)));
    match driver.action() {
        Action::ReconnectAndSend(request) => {
            assert_eq!(request.to_header(), "GET / HTTP/1.0\r\nRange: bytes=4-10\r\n\r\n")
        }
        other => panic!("unexpected action {:?}", other),
    }
    let driver = driver.on_response(response("HTTP/1.0 206 Partial Content\r\nContent-Length: 6", b"456789")).unwrap();
    assert_eq!(driver.phase(), Phase::Complete);
    assert_eq!(driver.action(), Action::Persist);
    let data = driver.data().unwrap();
    assert_eq!(data.fragments(), 2);
    assert_eq!(data.current_len(), 10);
    assert_eq!(data.target_len(), 10);
    assert_eq!(data._to_vec(), b"0123456789");
}

#[test]
fn two_cycles_end_to_end() {
    let mut server = Server::new(b"0123456789", &[4, 6]);
    let file = run(&mut server).unwrap();
    assert_eq!(file, b"0123456789");
    assert_eq!(file.len(), 10);
    assert_eq!(server.served, 2);
    assert_eq!(server.reconnects, 1);
    assert_eq!(
        server.requests,
        vec!["GET / HTTP/1.0\r\n\r\n", "GET / HTTP/1.0\r\nRange: bytes=4-10\r\n\r\n"]
    );
}

#[test]
fn whole_payload_in_the_first_response_needs_no_reconnect() {
    let mut server = Server::new(b"0123456789", &[10]);
    let file = run(&mut server).unwrap();
    assert_eq!(file, b"0123456789");
    assert_eq!(server.served, 1);
    assert_eq!(server.reconnects, 0);
    assert_eq!(server.requests, vec!["GET / HTTP/1.0\r\n\r\n"]);
}

#[test]
fn first_response_with_everything_completes_at_once() {
    let driver = Driver::new();
    let driver = driver.on_response(response("Content-Length: 10", b"0123456789")).unwrap();
    assert_eq!(driver.phase(), Phase::Complete);
    assert_eq!(driver.action(), Action::Persist);
    assert_eq!(driver.data().unwrap().fragments(), 1);
}

#[test]
fn missing_length_stops_the_run_before_any_reconnect() {
    let driver = Driver::new();
    let outcome = driver.on_response(response("HTTP/1.0 200 OK\r\nServer: glitchy", b"0123"));
    assert_eq!(outcome.err(), Some(TransferError::Protocol(ProtocolError::MissingLength)));
}

#[test]
fn unreadable_length_stops_the_run() {
    let driver = Driver::new();
    let outcome = driver.on_response(response("Content-Length: many", b"0123"));
    assert_eq!(outcome.err(), Some(TransferError::Protocol(ProtocolError::MissingLength)));
}

#[test]
fn response_without_blank_line_stops_the_run() {
    let outcome = Driver::new().on_response(b"Content-Length: 10\r\n0123".to_vec());
    assert_eq!(outcome.err(), Some(TransferError::Protocol(ProtocolError::NoTerminator)));
    let driver = Driver::new().on_response(response("Content-Length: 10", b"0123")).unwrap();
    let outcome = driver.on_response(b"456789".to_vec());
    assert_eq!(outcome.err(), Some(TransferError::Protocol(ProtocolError::NoTerminator)));
}

#[test]
fn response_with_headers_that_are_no_text_stops_the_run() {
    let mut raw = vec![0xc0u8, 0x20];
    raw.extend_from_slice(b"\r\n\r\nbody");
    let outcome = Driver::new().on_response(raw.clone());
    assert_eq!(outcome.err(), Some(TransferError::Protocol(ProtocolError::InvalidText)));
    let driver = Driver::new().on_response(response("Content-Length: 10", b"0123")).unwrap();
    assert_eq!(driver.on_response(raw).err(), Some(TransferError::Protocol(ProtocolError::InvalidText)));
}

#[test]
fn later_responses_need_no_length_and_cannot_change_it() {
    let driver = Driver::new().on_response(response("Content-Length: 6", b"ab")).unwrap();
    let driver = driver.on_response(response("Server: x", b"cd")).unwrap();
    assert_eq!(driver.action(), Action::ReconnectAndSend(Requests::Range(4, 6)));
    let driver = driver.on_response(response("Content-Length: 100", b"ef")).unwrap();
    assert_eq!(driver.phase(), Phase::Complete);
    assert_eq!(driver.data().unwrap().target_len(), 6);
    assert_eq!(driver.data().unwrap()._to_vec(), b"abcdef");
}

#[test]
fn a_response_without_new_bytes_repeats_the_request() {
    let driver = Driver::new().on_response(response("Content-Length: 6", b"ab")).unwrap();
    let driver = driver.on_response(response("Content-Length: 6", b"")).unwrap();
    assert_eq!(driver.phase(), Phase::AwaitingRange);
    assert_eq!(driver.action(), Action::ReconnectAndSend(Requests::Range(2, 6)));
    assert_eq!(driver.data().unwrap().fragments(), 2);
}

#[test]
fn more_than_declared_never_completes() {
    let driver = Driver::new().on_response(response("Content-Length: 2", b"abc")).unwrap();
    assert_eq!(driver.phase(), Phase::AwaitingRange);
    assert_eq!(driver.action(), Action::ReconnectAndSend(Requests::Range(3, 2)));
}

#[test]
fn an_empty_payload_is_complete_at_once() {
    let driver = Driver::new().on_response(response("Content-Length: 0", b"")).unwrap();
    assert_eq!(driver.phase(), Phase::Complete);
    assert_eq!(driver.data().unwrap()._to_vec(), b"");
}

#[test]
fn a_complete_run_stays_complete() {
    let driver = Driver::new().on_response(response("Content-Length: 2", b"ab")).unwrap();
    let driver = driver.on_response(b"anything".to_vec()).unwrap();
    assert_eq!(driver.phase(), Phase::Complete);
    assert_eq!(driver.data().unwrap()._to_vec(), b"ab");
    assert_eq!(driver.data().unwrap().fragments(), 1);
}

#[test]
fn many_cycles_end_to_end() {
    let payload: Vec<u8> = (0..=255u8).cycle().take(5000).collect();
    let mut server = Server::new(&payload, &[1, 0, 999, 0, 0, 1500, 1, 2499, 5000]);
    let file = run(&mut server).unwrap();
    assert_eq!(file, payload);
    assert_eq!(server.served, 8);
    assert_eq!(server.reconnects, 7);
    assert_eq!(server.requests[1], "GET / HTTP/1.0\r\nRange: bytes=1-5000\r\n\r\n");
    assert_eq!(server.requests[2], "GET / HTTP/1.0\r\nRange: bytes=1-5000\r\n\r\n");
    assert_eq!(server.requests[3], "GET / HTTP/1.0\r\nRange: bytes=1000-5000\r\n\r\n");
    assert_eq!(server.requests[7], "GET / HTTP/1.0\r\nRange: bytes=2501-5000\r\n\r\n");
}
