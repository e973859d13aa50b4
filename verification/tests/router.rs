use flate2::read::GzDecoder;
use http_server::headers::Headers;
use http_server::request::Request;
use http_server::response::Response;
use http_server::response::Status;
use http_server::router::after_read;
use http_server::router::after_write;
use http_server::router::echo;
use http_server::router::gzip_accepted;
use http_server::router::on_failure;
use http_server::router::route;
use http_server::router::FailurePolicy;
use http_server::router::RouteError;
use http_server::router::Step;
use std::io::Read;

fn request(ty: &str, path: &str, headers: &[(&str, &str)], body: Option<&str>) -> Request {
    let mut h = Headers::new();
    for (name, value) in headers {
        h.insert(name.as_bytes(), value.as_bytes());
    }
    Request {
        ty: ty.as_bytes().to_vec(),
        path: path.as_bytes().to_vec(),
        headers: h,
        body: body.map(|b| b.as_bytes().to_vec()),
    }
}

fn respond(step: Result<Step, RouteError>) -> Response {
    match step {
        Ok(Step::Respond(r)) => r,
        Ok(_) => panic!("expected a response, got a file step"),
        Err(e) => panic!("expected a response, got {:?}", e),
    }
}

fn gunzip(bytes: &[u8]) -> Vec<u8> {
    let mut out = Vec::new();
    GzDecoder::new(bytes).read_to_end(&mut out).unwrap();
    out
}

#[test]
fn echo_without_encoding_returns_value() {
    for s in ["abc", "", "hello-world_123", "a b", "x".repeat(300).as_str()] {
        let path = format!("/echo/{}", s);
        let r = respond(route(&request("GET", &path, &[], None), false));
        assert_eq!(r.status(), Status::Success);
        assert_eq!(r.header(b"Content-Type"), Some(&b"text/plain".to_vec()));
        assert_eq!(
            r.header(b"Content-Length"),
            Some(&s.len().to_string().into_bytes())
        );
        assert_eq!(r.header(b"Content-Encoding"), None);
        assert_eq!(r.body(), &s.as_bytes().to_vec());
    }
}

#[test]
fn echo_wire_bytes_are_exact() {
    let r = respond(route(&request("GET", "/echo/abc", &[], None), false));
    assert_eq!(
        r.to_bytes(),
        b"HTTP/1.1 200 OK\r\nContent-Type: text/plain\r\nContent-Length: 3\r\n\r\nabc".to_vec()
    );
}

#[test]
fn echo_with_gzip_is_compressed() {
    let r = respond(route(
        &request("GET", "/echo/abc", &[("Accept-Encoding", "gzip")], None),
        false,
    ));
    assert_eq!(r.status(), Status::Success);
    assert_eq!(r.header(b"Content-Encoding"), Some(&b"gzip".to_vec()));
    assert_eq!(r.header(b"Content-Type"), Some(&b"text/plain".to_vec()));
    assert_eq!(
        r.header(b"Content-Length"),
        Some(&r.body().len().to_string().into_bytes())
    );
    assert_ne!(r.body(), &b"abc".to_vec());
    assert_eq!(&r.body()[..2], &[0x1f, 0x8b]);
    assert_eq!(gunzip(r.body()), b"abc".to_vec());
}

#[test]
fn gzip_wire_bytes_frame_the_compressed_body() {
    let r = respond(route(
        &request("GET", "/echo/abc", &[("Accept-Encoding", "gzip")], None),
        false,
    ));
    let mut expected = format!(
        "HTTP/1.1 200 OK\r\nContent-Encoding: gzip\r\nContent-Type: text/plain\r\nContent-Length: {}\r\n\r\n",
        r.body().len()
    )
    .into_bytes();
    expected.extend_from_slice(r.body());
    assert_eq!(r.to_bytes(), expected);
}

#[test]
fn gzip_is_found_among_other_encodings() {
    assert!(gzip_accepted(&request(
        "GET",
        "/",
        &[("Accept-Encoding", "deflate, gzip, br")],
        None
    )));
    assert!(!gzip_accepted(&request(
        "GET",
        "/",
        &[("Accept-Encoding", "deflate,gzip")],
        None
    )));
    assert!(!gzip_accepted(&request(
        "GET",
        "/",
        &[("Accept-Encoding", "GZIP")],
        None
    )));
    assert!(!gzip_accepted(&request(
        "GET",
        "/",
        &[("Accept-Encoding", "gzip;q=1.0")],
        None
    )));
    assert!(!gzip_accepted(&request("GET", "/", &[], None)));
}

#[test]
fn echo_with_other_encoding_is_plain() {
    let r = respond(route(
        &request("GET", "/echo/abc", &[("Accept-Encoding", "br")], None),
        false,
    ));
    assert_eq!(r.header(b"Content-Encoding"), None);
    assert_eq!(r.body(), &b"abc".to_vec());
}

#[test]
fn echo_ignores_further_segments() {
    let r = respond(route(&request("GET", "/echo/abc/def", &[], None), false));
    assert_eq!(r.body(), &b"abc".to_vec());
}

#[test]
fn echo_response_for_given_compressed_bytes() {
    let r = echo(b"abc", Some(vec![1, 2, 3, 4]));
    assert_eq!(r.header(b"Content-Encoding"), Some(&b"gzip".to_vec()));
    assert_eq!(r.header(b"Content-Length"), Some(&b"4".to_vec()));
    assert_eq!(r.body(), &vec![1, 2, 3, 4]);
    let r = echo(b"abc", None);
    assert_eq!(r.header(b"Content-Encoding"), None);
    assert_eq!(r.header(b"Content-Length"), Some(&b"3".to_vec()));
    assert_eq!(r.body(), &b"abc".to_vec());
}

#[test]
fn root_returns_200_with_empty_body() {
    for headers in [
        vec![],
        vec![("Accept-Encoding", "gzip")],
        vec![("User-Agent", "x"), ("Content-Length", "3")],
    ] {
        let r = respond(route(&request("GET", "/", &headers, Some("abc")), true));
        assert_eq!(r.status(), Status::Success);
        assert!(r.body().is_empty());
        assert_eq!(r.header(b"Content-Type"), None);
        assert_eq!(r.to_bytes(), b"HTTP/1.1 200 OK\r\n\r\n".to_vec());
    }
}

#[test]
fn unknown_path_returns_404() {
    let r = respond(route(&request("GET", "/does-not-exist", &[], None), true));
    assert_eq!(r.status(), Status::NotFound);
    assert_eq!(r.header(b"Content-Length"), Some(&b"0".to_vec()));
    assert!(r.body().is_empty());
    assert_eq!(
        r.to_bytes(),
        b"HTTP/1.1 404 Not Found\r\nContent-Length: 0\r\n\r\n".to_vec()
    );
}

#[test]
fn unsupported_method_returns_404() {
    for (ty, path) in [("DELETE", "/"), ("PUT", "/files/a"), ("POST", "/echo/abc"), ("POST", "/")] {
        let r = respond(route(&request(ty, path, &[], Some("x")), true));
        assert_eq!(r.status(), Status::NotFound);
    }
}

#[test]
fn path_without_slash_returns_404() {
    let r = respond(route(&request("GET", "echo", &[], None), true));
    assert_eq!(r.status(), Status::NotFound);
    let r = respond(route(&request("POST", "", &[], None), true));
    assert_eq!(r.status(), Status::NotFound);
}

#[test]
fn echo_without_argument_returns_404() {
    let r = respond(route(&request("GET", "/echo", &[], None), true));
    assert_eq!(r.status(), Status::NotFound);
}

#[test]
fn user_agent_is_reflected() {
    let r = respond(route(
        &request("GET", "/user-agent", &[("User-Agent", "foobar/1.2.3")], None),
        false,
    ));
    assert_eq!(r.status(), Status::Success);
    assert_eq!(r.header(b"Content-Type"), Some(&b"text/plain".to_vec()));
    assert_eq!(r.header(b"Content-Length"), Some(&b"12".to_vec()));
    assert_eq!(r.body(), &b"foobar/1.2.3".to_vec());
}

#[test]
fn user_agent_without_header_is_an_error() {
    match route(&request("GET", "/user-agent", &[], None), false) {
        Err(RouteError::MissingUserAgent) => {}
        _ => panic!("expected the missing header to be reported"),
    }
}

#[test]
fn failure_policy_decides_the_answer() {
    assert!(on_failure(FailurePolicy::AbortWorker).is_none());
    let r = on_failure(FailurePolicy::BadRequest).unwrap();
    assert_eq!(r.status(), Status::BadRequest);
    assert_eq!(
        r.to_bytes(),
        b"HTTP/1.1 400 Bad Request\r\nContent-Length: 0\r\n\r\n".to_vec()
    );
}

#[test]
fn post_then_get_file() {
    let mut stored: Option<(Vec<u8>, Vec<u8>)> = None;
    let post = request("POST", "/files/test.txt", &[("Content-Length", "5")], Some("hello"));
    match route(&post, true) {
        Ok(Step::WriteFile { name, content }) => {
            assert_eq!(name, b"test.txt".to_vec());
            assert_eq!(content, b"hello".to_vec());
            stored = Some((name, content));
        }
        _ => panic!("expected a write step"),
    }
    let created = after_write(true);
    assert_eq!(created.status(), Status::Created);
    assert!(created.body().is_empty());
    assert_eq!(created.to_bytes(), b"HTTP/1.1 201 Created\r\n\r\n".to_vec());

    let get = request("GET", "/files/test.txt", &[], None);
    let r = match route(&get, true) {
        Ok(Step::ReadFile { name }) => {
            let (stored_name, content) = stored.clone().unwrap();
            assert_eq!(name, stored_name);
            after_read(Some(content))
        }
        _ => panic!("expected a read step"),
    };
    assert_eq!(r.status(), Status::Success);
    assert_eq!(
        r.header(b"Content-Type"),
        Some(&b"application/octet-stream".to_vec())
    );
    assert_eq!(r.header(b"Content-Length"), Some(&b"5".to_vec()));
    assert_eq!(r.body(), &b"hello".to_vec());
}

#[test]
fn missing_file_returns_404() {
    let get = request("GET", "/files/missing.txt", &[], None);
    let r = match route(&get, true) {
        Ok(Step::ReadFile { name }) => {
            assert_eq!(name, b"missing.txt".to_vec());
            after_read(None)
        }
        _ => panic!("expected a read step"),
    };
    assert_eq!(r.status(), Status::NotFound);
    assert_eq!(r.header(b"Content-Length"), Some(&b"0".to_vec()));
    assert!(r.body().is_empty());
}

#[test]
fn files_without_directory_return_404() {
    let r = respond(route(&request("GET", "/files/test.txt", &[], None), false));
    assert_eq!(r.status(), Status::NotFound);
    let r = respond(route(
        &request("POST", "/files/test.txt", &[], Some("hello")),
        false,
    ));
    assert_eq!(r.status(), Status::NotFound);
}

#[test]
fn post_without_body_returns_404() {
    let r = respond(route(&request("POST", "/files/test.txt", &[], None), true));
    assert_eq!(r.status(), Status::NotFound);
}

#[test]
fn failed_write_returns_404() {
    let r = after_write(false);
    assert_eq!(r.status(), Status::NotFound);
    assert_eq!(r.header(b"Content-Length"), Some(&b"0".to_vec()));
}

#[test]
fn parsed_request_is_routed() {
    let input = b"GET /echo/pineapple HTTP/1.1\r\nHost: localhost:4221\r\nAccept-Encoding: invalid-1, gzip, invalid-2\r\n\r\n";
    let parsed = match Request::new(input) {
        Ok(r) => r,
        Err(e) => panic!("unexpected parse error {:?}", e),
    };
    let r = respond(route(&parsed, false));
    assert_eq!(r.header(b"Content-Encoding"), Some(&b"gzip".to_vec()));
    assert_eq!(gunzip(r.body()), b"pineapple".to_vec());
}
