use astra::network::{build_request, parse_response, parse_url, NetworkError, NetworkStack};

#[test]
fn test_parse_http_url_default_port() {
    let p = parse_url("http://example.com/index.html").unwrap();
    assert_eq!(p.scheme, "http");
    assert_eq!(p.host, "example.com");
    assert_eq!(p.port, 80);
    assert_eq!(p.path, "/index.html");
}

#[test]
fn test_parse_https_url_default_port() {
    let p = parse_url("https://example.com/").unwrap();
    assert_eq!(p.scheme, "https");
    assert_eq!(p.host, "example.com");
    assert_eq!(p.port, 443);
    assert_eq!(p.path, "/");
}

#[test]
fn test_parse_url_custom_port() {
    let p = parse_url("http://localhost:8080/api").unwrap();
    assert_eq!(p.host, "localhost");
    assert_eq!(p.port, 8080);
    assert_eq!(p.path, "/api");
}

#[test]
fn test_parse_url_no_path_defaults_to_slash() {
    let p = parse_url("http://example.com").unwrap();
    assert_eq!(p.path, "/");
}

#[test]
fn test_parse_url_invalid_scheme() {
    assert!(matches!(parse_url("ftp://example.com"), Err(NetworkError::InvalidUrl(_))));
}

#[test]
fn test_parse_url_missing_host() {
    assert!(matches!(parse_url("http:///path"), Err(NetworkError::InvalidUrl(_))));
}

#[test]
fn test_parse_url_invalid_port() {
    assert!(matches!(parse_url("http://example.com:abc/"), Err(NetworkError::InvalidUrl(_))));
}

#[test]
fn test_build_request_format() {
    let req = build_request("example.com", "/index.html");
    assert!(req.starts_with("GET /index.html HTTP/1.1\r\n"));
    assert!(req.contains("Host: example.com\r\n"));
    assert!(req.contains("Connection: close\r\n"));
    assert!(req.contains("User-Agent: Astra/0.1\r\n"));
    assert!(req.ends_with("\r\n\r\n"));
}

#[test]
fn test_parse_response_200() {
    let raw = b"HTTP/1.1 200 OK\r\nContent-Type: text/html\r\nContent-Length: 5\r\n\r\nhello";
    let resp = parse_response(raw).unwrap();
    assert_eq!(resp.status, 200);
    assert_eq!(resp.headers.get("content-type").unwrap(), "text/html");
    assert_eq!(resp.headers.get("content-length").unwrap(), "5");
    assert_eq!(resp.body, b"hello");
}

#[test]
fn test_parse_response_404() {
    let raw = b"HTTP/1.1 404 Not Found\r\n\r\n";
    let resp = parse_response(raw).unwrap();
    assert_eq!(resp.status, 404);
    assert!(resp.body.is_empty());
}

#[test]
fn test_parse_response_empty_body() {
    let raw = b"HTTP/1.1 204 No Content\r\nX-Custom: value\r\n\r\n";
    let resp = parse_response(raw).unwrap();
    assert_eq!(resp.status, 204);
    assert_eq!(resp.headers.get("x-custom").unwrap(), "value");
    assert!(resp.body.is_empty());
}

#[test]
fn test_parse_response_binary_body() {
    let mut raw = b"HTTP/1.1 200 OK\r\n\r\n".to_vec();
    raw.extend_from_slice(&[0u8, 1, 2, 3, 255]);
    let resp = parse_response(&raw).unwrap();
    assert_eq!(resp.body, &[0u8, 1, 2, 3, 255]);
}

#[test]
fn test_parse_response_missing_separator() {
    let raw = b"HTTP/1.1 200 OK\r\nContent-Type: text/html\r\n";
    assert!(matches!(parse_response(raw), Err(NetworkError::HttpError(_))));
}

#[test]
fn test_parse_response_invalid_status_line() {
    let raw = b"BOGUS 200 OK\r\n\r\n";
    assert!(matches!(parse_response(raw), Err(NetworkError::HttpError(_))));
}

#[test]
fn test_parse_response_header_keys_lowercased() {
    let raw = b"HTTP/1.1 200 OK\r\nContent-Type: text/plain\r\n\r\n";
    let resp = parse_response(raw).unwrap();
    assert!(resp.headers.contains_key("content-type"));
    assert!(!resp.headers.contains_key("Content-Type"));
}

#[test]
fn invalid_utf8_headers_are_an_http_error() {
    let raw = b"HTTP/1.1 200 OK\r\nX: \xff\r\n\r\nbody";
    let err = parse_response(raw).unwrap_err();
    assert!(err.message().starts_with("HTTP error: Invalid UTF-8 in headers: "));
}

#[test]
fn status_code_out_of_range_is_an_error() {
    let raw = b"HTTP/1.1 70000 Weird\r\n\r\n";
    let err = parse_response(raw).unwrap_err();
    assert_eq!(err.message(), "HTTP error: Invalid status code: 70000");
}

#[test]
fn port_out_of_range_is_invalid() {
    let err = parse_url("http://example.com:65536/").err().unwrap();
    assert_eq!(err.message(), "Invalid URL: Invalid port in URL: http://example.com:65536/");
}

#[test]
fn fetch_plans_plain_http() {
    let plan = NetworkStack::fetch("http://localhost:8080/api").unwrap();
    assert!(!plan.secure);
    assert_eq!(plan.host, "localhost");
    assert_eq!(plan.port, 8080);
    assert_eq!(plan.request, build_request("localhost", "/api"));
}

#[test]
fn fetch_plans_tls_for_https() {
    let plan = NetworkStack::fetch("https://example.com").unwrap();
    assert!(plan.secure);
    assert_eq!(plan.port, 443);
    assert!(plan.request.starts_with("GET / HTTP/1.1\r\n"));
}

#[test]
fn fetch_reports_url_errors() {
    let err = NetworkStack::fetch("gopher://example.com").err().unwrap();
    assert_eq!(err.message(), "Invalid URL: Unsupported scheme in URL: gopher://example.com");
}

#[test]
fn error_messages_name_their_kind() {
    assert_eq!(NetworkError::Timeout.message(), "Connection timed out");
    assert_eq!(NetworkError::TlsError("bad cert".to_string()).message(), "TLS error: bad cert");
    assert_eq!(NetworkError::ConnectionFailed("refused".to_string()).message(), "Connection failed: refused");
    assert_eq!(NetworkError::IoError("eof".to_string()).message(), "I/O error: eof");
}
