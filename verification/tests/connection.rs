use flate2::read::GzDecoder;
use http_server::connection::handle;
use http_server::connection::Failure;
use http_server::request::ParseError;
use http_server::router::RouteError;
use http_server::router::Step;
use std::io::Read;

fn answer(input: &[u8], has_directory: bool) -> Vec<u8> {
    match handle(input, has_directory) {
        Ok(Step::Respond(r)) => r.to_bytes(),
        Ok(_) => panic!("expected a response, got a file step"),
        Err(e) => panic!("expected a response, got {:?}", e),
    }
}

#[test]
fn echo_request_on_the_wire() {
    for value in ["abc", "", "0123456789", "with%20escape", "tab\tinside"] {
        let input = format!("GET /echo/{} HTTP/1.1\r\n\r\n", value);
        let expected = format!(
            "HTTP/1.1 200 OK\r\nContent-Type: text/plain\r\nContent-Length: {}\r\n\r\n{}",
            value.len(),
            value
        );
        assert_eq!(answer(input.as_bytes(), false), expected.into_bytes());
    }
}

#[test]
fn echo_request_with_other_headers() {
    for headers in [
        "Host: localhost:4221\r\n",
        "X-A: \r\n",
        "Host: a\r\nUser-Agent: curl/8.0\r\nX-Empty: \r\nAccept: */*\r\n",
        "Accept-Encoding: br, deflate\r\n",
    ] {
        let input = format!("GET /echo/abc HTTP/1.1\r\n{}\r\n", headers);
        assert_eq!(
            answer(input.as_bytes(), true),
            b"HTTP/1.1 200 OK\r\nContent-Type: text/plain\r\nContent-Length: 3\r\n\r\nabc".to_vec()
        );
    }
}

#[test]
fn echo_request_that_accepts_gzip() {
    for encodings in ["gzip", "deflate, gzip, br", "gzip, x"] {
        let input = format!(
            "GET /echo/abc HTTP/1.1\r\nAccept-Encoding: {}\r\n\r\n",
            encodings
        );
        let sent = answer(input.as_bytes(), false);
        let head = b"HTTP/1.1 200 OK\r\nContent-Encoding: gzip\r\nContent-Type: text/plain\r\nContent-Length: ";
        assert_eq!(&sent[..head.len()], &head[..]);
        let body_start = sent.windows(4).position(|w| w == b"\r\n\r\n").unwrap() + 4;
        let body = &sent[body_start..];
        assert_ne!(body, b"abc");
        let mut plain = Vec::new();
        GzDecoder::new(body).read_to_end(&mut plain).unwrap();
        assert_eq!(plain, b"abc".to_vec());
    }
    for encodings in ["x-gzip,gzip", "GZIP", "gzip;q=1"] {
        let input = format!(
            "GET /echo/abc HTTP/1.1\r\nAccept-Encoding: {}\r\n\r\n",
            encodings
        );
        assert_eq!(
            answer(input.as_bytes(), false),
            b"HTTP/1.1 200 OK\r\nContent-Type: text/plain\r\nContent-Length: 3\r\n\r\nabc".to_vec()
        );
    }
}

#[test]
fn root_request_with_any_headers() {
    for headers in ["", "User-Agent: x\r\n", "Accept-Encoding: gzip\r\n", "X-A: \r\nHost: a\r\n"] {
        let input = format!("GET / HTTP/1.1\r\n{}\r\n", headers);
        assert_eq!(
            answer(input.as_bytes(), false),
            b"HTTP/1.1 200 OK\r\n\r\n".to_vec()
        );
    }
}

#[test]
fn root_request_on_the_wire() {
    assert_eq!(
        answer(b"GET / HTTP/1.1\r\nHost: localhost\r\nAccept-Encoding: gzip\r\n\r\n", true),
        b"HTTP/1.1 200 OK\r\n\r\n".to_vec()
    );
}

#[test]
fn unknown_request_on_the_wire() {
    assert_eq!(
        answer(b"GET /does-not-exist HTTP/1.1\r\n\r\n", true),
        b"HTTP/1.1 404 Not Found\r\nContent-Length: 0\r\n\r\n".to_vec()
    );
}

#[test]
fn file_requests_ask_for_the_file_operation() {
    match handle(
        b"POST /files/test.txt HTTP/1.1\r\nContent-Length: 5\r\n\r\nhello",
        true,
    ) {
        Ok(Step::WriteFile { name, content }) => {
            assert_eq!(name, b"test.txt".to_vec());
            assert_eq!(content, b"hello".to_vec());
        }
        _ => panic!("expected a write step"),
    }
    match handle(b"GET /files/test.txt HTTP/1.1\r\n\r\n", true) {
        Ok(Step::ReadFile { name }) => assert_eq!(name, b"test.txt".to_vec()),
        _ => panic!("expected a read step"),
    }
}

#[test]
fn failures_are_reported() {
    assert!(matches!(
        handle(b"GET /\r\n\r\n", false),
        Err(Failure::Parse(ParseError::MalformedRequestLine))
    ));
    assert!(matches!(
        handle(b"GET / HTTP/1.1\r\nbroken\r\n\r\n", false),
        Err(Failure::Parse(ParseError::MalformedHeaderLine))
    ));
    assert!(matches!(
        handle(b"GET /user-agent HTTP/1.1\r\n\r\n", false),
        Err(Failure::Route(RouteError::MissingUserAgent))
    ));
}
