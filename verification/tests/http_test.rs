use futsu_linux::http::{
    request_line_complete, parse_header_line, parse_http_request, parse_request_line, ContentType, HttpError,
    HttpMethod, HttpResponse, HttpVersion, ParsingHttpRequest,
};

fn lines(ls: &[&str]) -> Vec<String> {
    ls.iter().map(|l| l.to_string()).collect()
}

#[test]
fn test_parse_http_request() {
    let stream = lines(&[
        "GET /index.html HTTP/1.1",
        "User-Agent: Mozilla/4.0 (compatible; MSIE5.01; Windows NT)",
        "Host: example.com",
        "Connection: close",
        "",
    ]);
    let res = parse_http_request(&stream).unwrap();
    assert_eq!(res.method, HttpMethod::GET);
    assert_eq!(res.path, "/index.html");
    assert_eq!(res.http_version, HttpVersion::V1_1);
    assert_eq!(
        res.headers.get("User-Agent").map(|s| s.as_str()),
        Some("Mozilla/4.0 (compatible; MSIE5.01; Windows NT)")
    );
    assert_eq!(res.headers.get("Host").map(|s| s.as_str()), Some("example.com"));
    assert_eq!(res.headers.get("Connection").map(|s| s.as_str()), Some("close"));
    assert_eq!(res.headers.get("Accept"), None);
}

#[test]
fn test_request_line() {
    struct TestCase {
        args: &'static str,
        expected: Result<(HttpMethod, String, HttpVersion), HttpError>,
    }

    let test_cases: Vec<TestCase> = vec![TestCase {
        args: "GET /index.html HTTP/1.1",
        expected: Ok((HttpMethod::GET, "/index.html".into(), HttpVersion::V1_1)),
    }];

    for test_case in test_cases {
        let (s, expected) = (test_case.args, test_case.expected);

        match expected {
            Ok(expected) => {
                assert_eq!(parse_request_line(s).unwrap(), expected);
            }
            Err(_) => {
                assert!(parse_request_line(s).is_err());
            }
        }
    }
}

#[test]
fn test_parse_header_line() {
    struct TestCase {
        args: &'static str,
        expected: Result<(String, String), HttpError>,
    }

    let test_cases: Vec<TestCase> = vec![
        TestCase {
            args: "Foo-bar: ok",
            expected: Ok(("Foo-bar".into(), "ok".into())),
        },
        TestCase {
            args: "Foo-bar:ok",
            expected: Err(HttpError::HeaderValueNotFound),
        },
        TestCase {
            args: "Foo-bar ok",
            expected: Err(HttpError::HeaderValueNotFound),
        },
    ];

    for test_case in test_cases {
        let (s, expected) = (test_case.args, test_case.expected);

        match expected {
            Ok(expected) => {
                assert_eq!(parse_header_line(s).unwrap(), expected);
            }
            Err(_) => {
                assert!(parse_header_line(s).is_err());
            }
        }
    }
}

#[test]
fn request_line_errors_and_extra_fields() {
    assert_eq!(parse_request_line("POST /x HTTP/1.1"), Err(HttpError::InvalidMethod));
    assert_eq!(parse_request_line("get /x HTTP/1.1"), Err(HttpError::InvalidMethod));
    assert_eq!(parse_request_line("FOO"), Err(HttpError::InvalidMethod));
    assert_eq!(parse_request_line("GET /x HTTP/1.0"), Err(HttpError::InvalidVersion));
    assert_eq!(parse_request_line("HEAD /x  HTTP/2"), Err(HttpError::InvalidVersion));
    assert_eq!(
        parse_request_line("HEAD /a/b HTTP/3 trailing"),
        Ok((HttpMethod::HEAD, "/a/b".to_string(), HttpVersion::V3))
    );
    assert_eq!(
        parse_request_line("GET  HTTP/2"),
        Ok((HttpMethod::GET, "".to_string(), HttpVersion::V2))
    );
}

#[test]
fn header_line_value_ends_at_next_separator() {
    assert_eq!(
        parse_header_line("a: b: c"),
        Ok(("a".to_string(), "b".to_string()))
    );
    assert_eq!(parse_header_line(": "), Ok(("".to_string(), "".to_string())));
    assert_eq!(
        parse_header_line("Time: 12:30"),
        Ok(("Time".to_string(), "12:30".to_string()))
    );
    assert_eq!(parse_header_line(""), Err(HttpError::HeaderValueNotFound));
}

#[test]
fn version_and_method_round_trip() {
    for v in [HttpVersion::V1_1, HttpVersion::V2, HttpVersion::V3] {
        assert_eq!(HttpVersion::from_str(&v.to_string()), Ok(v));
    }
    assert_eq!(HttpVersion::V1_1.to_string(), "HTTP/1.1");
    assert_eq!(HttpVersion::V2.to_string(), "HTTP/2");
    assert_eq!(HttpVersion::V3.to_string(), "HTTP/3");
    assert_eq!(HttpMethod::try_from("GET"), Ok(HttpMethod::GET));
    assert_eq!(HttpMethod::try_from("HEAD"), Ok(HttpMethod::HEAD));
    assert_eq!(HttpMethod::try_from("PUT"), Err(HttpError::InvalidMethod));
    assert_eq!(HttpVersion::from_str("HTTP/4"), Err(HttpError::InvalidVersion));
}

#[test]
fn request_line_round_trip_on_values() {
    let line = format!("{} {} {}", "HEAD", "/docs/a.html", HttpVersion::V2.to_string());
    assert_eq!(
        parse_request_line(&line),
        Ok((HttpMethod::HEAD, "/docs/a.html".to_string(), HttpVersion::V2))
    );
}

#[test]
fn header_line_round_trip_on_values() {
    let line = format!("{}: {}", "X-Key:", "va:lue");
    assert_eq!(
        parse_header_line(&line),
        Ok(("X-Key:".to_string(), "va:lue".to_string()))
    );
}

#[test]
fn request_without_headers_is_invalid() {
    let stream = lines(&["GET / HTTP/1.1", ""]);
    assert_eq!(parse_http_request(&stream).err(), Some(HttpError::InvalidRequest));
    let stream = lines(&["GET / HTTP/1.1"]);
    assert_eq!(parse_http_request(&stream).err(), Some(HttpError::InvalidRequest));
    let stream: Vec<String> = vec![];
    assert_eq!(parse_http_request(&stream).err(), Some(HttpError::InvalidRequest));
}

#[test]
fn request_errors_come_from_the_lines() {
    let stream = lines(&["PUT / HTTP/1.1", "Host: a", ""]);
    assert_eq!(parse_http_request(&stream).err(), Some(HttpError::InvalidMethod));
    let stream = lines(&["GET / HTTP/9", "Host: a", ""]);
    assert_eq!(parse_http_request(&stream).err(), Some(HttpError::InvalidVersion));
    let stream = lines(&["GET / HTTP/1.1", "Host: a", "broken", ""]);
    assert_eq!(
        parse_http_request(&stream).err(),
        Some(HttpError::HeaderValueNotFound)
    );
}

#[test]
fn lines_after_blank_line_are_not_read() {
    let stream = lines(&["GET /a HTTP/2", "Host: a", "", "broken", "PUT x"]);
    let req = parse_http_request(&stream).unwrap();
    assert_eq!(req.path, "/a");
    assert_eq!(req.http_version, HttpVersion::V2);
    assert_eq!(req.headers.get("Host").map(|s| s.as_str()), Some("a"));
}

#[test]
fn request_without_blank_line_uses_all_lines() {
    let stream = lines(&["GET /a HTTP/1.1", "Host: a", "Host: b"]);
    let req = parse_http_request(&stream).unwrap();
    assert_eq!(req.headers.get("Host").map(|s| s.as_str()), Some("b"));
}

#[test]
fn parsing_state_machine() {
    let mut p = ParsingHttpRequest::default();
    assert!(p.reading_request_line());
    assert!(!p.reading_headers());
    assert_eq!(p.feed_line("GET /i HTTP/1.1"), Ok(false));
    assert!(!p.reading_request_line());
    assert!(p.reading_headers());
    assert_eq!(p.feed_line("A: 1"), Ok(false));
    p.set_header("B".to_string(), "2".to_string());
    p.set_header("A".to_string(), "3".to_string());
    assert_eq!(p.feed_line(""), Ok(true));
    assert!(!p.reading_headers());
    assert_eq!(p.feed_line("anything"), Ok(false));
    let req = p.validate().unwrap();
    assert_eq!(req.method, HttpMethod::GET);
    assert_eq!(req.path, "/i");
    assert_eq!(req.headers.get("A").map(|s| s.as_str()), Some("3"));
    assert_eq!(req.headers.get("B").map(|s| s.as_str()), Some("2"));
}

#[test]
fn validate_needs_every_part() {
    let mut p = ParsingHttpRequest::new();
    p.set_request_line(HttpMethod::HEAD, "/".to_string(), HttpVersion::V3);
    assert!(p.reading_headers());
    assert_eq!(p.validate().err(), Some(HttpError::InvalidRequest));
    let mut p = ParsingHttpRequest::new();
    p.set_header("k".to_string(), "v".to_string());
    assert!(p.reading_request_line());
    assert_eq!(p.validate().err(), Some(HttpError::InvalidRequest));
}

#[test]
fn error_messages() {
    assert_eq!(HttpError::InvalidMethod.message(), "Invalid HTTP Method");
    assert_eq!(HttpError::InvalidVersion.message(), "Invalid HTTP Version");
    assert_eq!(HttpError::HeaderValueNotFound.message(), "Header value not found.");
    assert_eq!(HttpError::InvalidRequest.message(), "Invalid HTTP Request.");
}

#[test]
fn response_bytes() {
    let body = b"<!DOCTYPE html>\r\n<html>\r\n  <h1>hello, guys.</h1>\r\n</html>\r\n".to_vec();
    let response = HttpResponse {
        http_version: HttpVersion::V1_1,
        content_length: 56,
        content_type: ContentType::JSON,
        connection: "keep-alive".to_string(),
        body: body.clone(),
    };
    let mut expected = format!(
        "HTTP/1.1 200 OK\r\nContent-length: {}\r\nContent-Type: text/html\r\nConnection: close\r\n\r\n",
        body.len()
    )
    .into_bytes();
    expected.extend(body);
    assert_eq!(response.to_bytes(), expected);
}

#[test]
fn response_with_empty_body() {
    let response = HttpResponse {
        http_version: HttpVersion::V2,
        content_length: 0,
        content_type: ContentType::HTML,
        connection: "close".to_string(),
        body: vec![],
    };
    assert_eq!(
        response.to_bytes(),
        b"HTTP/2 200 OK\r\nContent-length: 0\r\nContent-Type: text/html\r\nConnection: close\r\n\r\n".to_vec()
    );
}

#[test]
fn content_type_names() {
    assert_eq!(ContentType::HTML.to_str(), "text/html");
    assert_eq!(ContentType::JSON.to_str(), "application/json");
}

#[test]
fn request_line_completeness() {
    assert!(!request_line_complete("GET"));
    assert!(!request_line_complete("GET /index.html"));
    assert!(request_line_complete("GET /index.html HTTP/1.1"));
    assert!(request_line_complete("GET / x"));
    assert!(request_line_complete("FOO"));
    assert!(request_line_complete(""));
}

#[test]
fn parsed_request_holds_exactly_the_sent_headers() {
    let stream = lines(&[
        "GET /index.html HTTP/1.1",
        "User-Agent: Mozilla/4.0 (compatible; MSIE5.01; Windows NT)",
        "Host: example.com",
        "Connection: close",
        "",
    ]);
    let res = parse_http_request(&stream).unwrap();
    assert_eq!(res.headers.len(), 3);
    let stream = lines(&["GET / HTTP/1.1", "Host: a", "Host: b", "X: y", ""]);
    let res = parse_http_request(&stream).unwrap();
    assert_eq!(res.headers.len(), 2);
    assert_eq!(res.headers.get("Host").map(|s| s.as_str()), Some("b"));
}
