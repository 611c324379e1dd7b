use http_packet::error::CodecError;
use http_packet::start_line::{
    parse_request_line, parse_status_line, MessageKind, StartLine, Version,
};

#[test]
fn request_line_is_cut_at_its_first_two_spaces() {
    let (sl, n) = parse_request_line(b"GET /index.html HTTP/1.1\r\nHost: x\r\n").unwrap();
    assert_eq!(n, 26);
    assert_eq!(
        sl,
        StartLine::Request {
            method: b"GET".to_vec(),
            target: b"/index.html".to_vec(),
            version: Version::Http11
        }
    );
    assert_eq!(sl.kind(), MessageKind::Request);
    assert_eq!(sl.version(), Version::Http11);
    let (old, m) = parse_request_line(b"POST * HTTP/1.0\r\n").unwrap();
    assert_eq!(m, 17);
    assert_eq!(old.version(), Version::Http10);
}

#[test]
fn request_line_without_crlf_is_malformed() {
    assert_eq!(parse_request_line(b"GET / HTTP/1.1"), Err(CodecError::MalformedStartLine));
    assert_eq!(parse_request_line(b"GET / HTTP/1.1\n"), Err(CodecError::MalformedStartLine));
    assert_eq!(parse_request_line(b"GET / HTTP/1.1\r"), Err(CodecError::MalformedStartLine));
    assert_eq!(parse_request_line(b""), Err(CodecError::MalformedStartLine));
}

#[test]
fn request_line_with_missing_fields_is_malformed() {
    assert_eq!(parse_request_line(b"GET /\r\n"), Err(CodecError::MalformedStartLine));
    assert_eq!(parse_request_line(b"GET\r\n"), Err(CodecError::MalformedStartLine));
    assert_eq!(parse_request_line(b" / HTTP/1.1\r\n"), Err(CodecError::MalformedStartLine));
    assert_eq!(parse_request_line(b"GET  HTTP/1.1\r\n"), Err(CodecError::MalformedStartLine));
    assert_eq!(parse_request_line(b"\r\n"), Err(CodecError::MalformedStartLine));
}

#[test]
fn request_line_with_unknown_version_is_malformed() {
    assert_eq!(parse_request_line(b"GET / HTTP/2.0\r\n"), Err(CodecError::MalformedStartLine));
    assert_eq!(parse_request_line(b"GET / http/1.1\r\n"), Err(CodecError::MalformedStartLine));
    assert_eq!(parse_request_line(b"GET / HTTP/1.1 \r\n"), Err(CodecError::MalformedStartLine));
    assert_eq!(parse_request_line(b"GET / x HTTP/1.1\r\n"), Err(CodecError::MalformedStartLine));
    assert_eq!(parse_request_line(b"GET / \r\n"), Err(CodecError::MalformedStartLine));
}

#[test]
fn status_line_has_version_code_and_reason() {
    let (sl, n) = parse_status_line(b"HTTP/1.1 404 Not Found\r\nrest").unwrap();
    assert_eq!(n, 24);
    assert_eq!(
        sl,
        StartLine::Response {
            version: Version::Http11,
            status_code: 404,
            reason: b"Not Found".to_vec()
        }
    );
    assert_eq!(sl.kind(), MessageKind::Response);
}

#[test]
fn status_line_reason_may_be_empty() {
    let (sl, n) = parse_status_line(b"HTTP/1.0 204 \r\n").unwrap();
    assert_eq!(n, 15);
    assert_eq!(
        sl,
        StartLine::Response { version: Version::Http10, status_code: 204, reason: Vec::new() }
    );
}

#[test]
fn status_line_code_is_three_digits() {
    let (sl, _) = parse_status_line(b"HTTP/1.1 007 x\r\n").unwrap();
    assert_eq!(
        sl,
        StartLine::Response { version: Version::Http11, status_code: 7, reason: b"x".to_vec() }
    );
    let (top, _) = parse_status_line(b"HTTP/1.1 999 \r\n").unwrap();
    assert!(matches!(top, StartLine::Response { status_code: 999, .. }));
    assert_eq!(parse_status_line(b"HTTP/1.1 20 OK\r\n"), Err(CodecError::MalformedStartLine));
    assert_eq!(parse_status_line(b"HTTP/1.1 2000 OK\r\n"), Err(CodecError::MalformedStartLine));
    assert_eq!(parse_status_line(b"HTTP/1.1 2x0 OK\r\n"), Err(CodecError::MalformedStartLine));
    assert_eq!(parse_status_line(b"HTTP/1.1 200\r\n"), Err(CodecError::MalformedStartLine));
    assert_eq!(parse_status_line(b"HTTP/1.1\r\n"), Err(CodecError::MalformedStartLine));
}

#[test]
fn status_line_needs_known_version_and_crlf() {
    assert_eq!(parse_status_line(b"HTTP/1.2 200 OK\r\n"), Err(CodecError::MalformedStartLine));
    assert_eq!(parse_status_line(b"HTTP/1.1 200 OK"), Err(CodecError::MalformedStartLine));
    assert_eq!(parse_status_line(b" 200 OK\r\n"), Err(CodecError::MalformedStartLine));
}

#[test]
fn request_line_is_written_as_it_is_read() {
    let sl = StartLine::Request {
        method: b"PUT".to_vec(),
        target: b"/a?b=c".to_vec(),
        version: Version::Http10,
    };
    assert_eq!(sl.to_bytes(), b"PUT /a?b=c HTTP/1.0\r\n".to_vec());
    let (back, n) = parse_request_line(&sl.to_bytes()).unwrap();
    assert_eq!(back, sl);
    assert_eq!(n, sl.to_bytes().len());
}

#[test]
fn status_line_is_written_as_it_is_read() {
    let sl = StartLine::Response {
        version: Version::Http11,
        status_code: 200,
        reason: b"OK".to_vec(),
    };
    assert_eq!(sl.to_bytes(), b"HTTP/1.1 200 OK\r\n".to_vec());
    let (back, _) = parse_status_line(&sl.to_bytes()).unwrap();
    assert_eq!(back, sl);
    let bare = StartLine::Response { version: Version::Http11, status_code: 304, reason: Vec::new() };
    assert_eq!(bare.to_bytes(), b"HTTP/1.1 304 \r\n".to_vec());
    let mut out = b"x".to_vec();
    bare.write_to(&mut out);
    assert_eq!(out, b"xHTTP/1.1 304 \r\n".to_vec());
}

#[test]
fn version_names() {
    assert_eq!(Version::from_bytes(b"HTTP/1.0"), Some(Version::Http10));
    assert_eq!(Version::from_bytes(b"HTTP/1.1"), Some(Version::Http11));
    assert_eq!(Version::from_bytes(b"HTTP/1.2"), None);
    assert_eq!(Version::from_bytes(b"HTTP/1.10"), None);
    assert_eq!(Version::from_bytes(b"HTTP/1."), None);
    assert_eq!(Version::Http10.as_str(), "HTTP/1.0");
    assert_eq!(Version::Http11.as_str(), "HTTP/1.1");
    let mut out = Vec::new();
    Version::Http11.write_to(&mut out);
    assert_eq!(out, b"HTTP/1.1".to_vec());
}

#[test]
fn start_line_clone_is_equal() {
    let sl = StartLine::Request {
        method: b"GET".to_vec(),
        target: b"/".to_vec(),
        version: Version::Http11,
    };
    assert_eq!(sl.clone(), sl);
}
