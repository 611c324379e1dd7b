use http_packet::chunked::{write_chunk, write_last_chunk};
use http_packet::error::CodecError;
use http_packet::framing::BodyFraming;
use http_packet::header::HeaderMap;
use http_packet::lines::{scan_line, Limits, Scanned};
use http_packet::message::HTTPMessage;
use http_packet::serializer::{serialize, serialize_message, write_head};
use http_packet::start_line::{MessageKind, StartLine, Version};

fn post() -> StartLine {
    StartLine::Request { method: b"POST".to_vec(), target: b"/x".to_vec(), version: Version::Http11 }
}

fn ok() -> StartLine {
    StartLine::Response { version: Version::Http11, status_code: 200, reason: b"OK".to_vec() }
}

#[test]
fn headers_are_written_in_order_and_not_merged() {
    let mut h = HeaderMap::new();
    h.insert(b"B", b"2");
    h.insert(b"A", b"1");
    h.insert(b"b", b"3");
    let wire = serialize(&post(), &h, BodyFraming::NoBody, &[]).unwrap();
    assert_eq!(wire, b"POST /x HTTP/1.1\r\nB: 2\r\nA: 1\r\nb: 3\r\n\r\n".to_vec());
}

#[test]
fn fixed_body_must_have_the_declared_length() {
    let mut h = HeaderMap::new();
    h.insert(b"Content-Length", b"5");
    assert_eq!(
        serialize(&post(), &h, BodyFraming::Fixed(5), &[b"hel", b"lo"]).unwrap(),
        b"POST /x HTTP/1.1\r\nContent-Length: 5\r\n\r\nhello".to_vec()
    );
    assert_eq!(serialize(&post(), &h, BodyFraming::Fixed(5), &[b"hell"]), Err(CodecError::LengthMismatch));
    assert_eq!(serialize(&post(), &h, BodyFraming::Fixed(5), &[b"hello!"]), Err(CodecError::LengthMismatch));
    assert_eq!(serialize(&post(), &h, BodyFraming::Fixed(5), &[]), Err(CodecError::LengthMismatch));
}

#[test]
fn no_body_framing_takes_no_bytes() {
    let h = HeaderMap::new();
    assert_eq!(
        serialize(&post(), &h, BodyFraming::NoBody, &[b"", b""]).unwrap(),
        b"POST /x HTTP/1.1\r\n\r\n".to_vec()
    );
    assert_eq!(serialize(&post(), &h, BodyFraming::NoBody, &[b"x"]), Err(CodecError::LengthMismatch));
}

#[test]
fn chunked_body_is_written_chunk_by_chunk() {
    let mut h = HeaderMap::new();
    h.insert(b"Transfer-Encoding", b"chunked");
    let wire = serialize(&ok(), &h, BodyFraming::Chunked, &[b"abc", b"", b"de"]).unwrap();
    assert_eq!(
        wire,
        b"HTTP/1.1 200 OK\r\nTransfer-Encoding: chunked\r\n\r\n3\r\nabc\r\n2\r\nde\r\n0\r\n\r\n".to_vec()
    );
    let mut streamed = Vec::new();
    write_head(&mut streamed, &ok(), &h);
    assert_eq!(streamed, b"HTTP/1.1 200 OK\r\nTransfer-Encoding: chunked\r\n\r\n".to_vec());
    write_chunk(&mut streamed, b"abc");
    assert_eq!(&streamed[streamed.len() - 8..], b"3\r\nabc\r\n");
    write_chunk(&mut streamed, b"");
    write_chunk(&mut streamed, b"de");
    write_last_chunk(&mut streamed);
    assert_eq!(streamed, wire);
}

#[test]
fn body_until_close_is_written_plain() {
    let h = HeaderMap::new();
    assert_eq!(
        serialize(&ok(), &h, BodyFraming::UntilClose, &[b"ab", b"cd"]).unwrap(),
        b"HTTP/1.1 200 OK\r\n\r\nabcd".to_vec()
    );
}

#[test]
fn message_is_written_with_the_framing_of_its_headers() {
    let mut h = HeaderMap::new();
    h.insert(b"Content-Length", b"2");
    let mut m = HTTPMessage::new("HTTP/1.1".to_string(), h);
    assert_eq!(m.framing(MessageKind::Request), Ok(BodyFraming::Fixed(2)));
    assert_eq!(serialize_message(&post(), &m), Err(CodecError::LengthMismatch));
    m.body = Some(b"hi".to_vec());
    assert_eq!(
        serialize_message(&post(), &m).unwrap(),
        b"POST /x HTTP/1.1\r\nContent-Length: 2\r\n\r\nhi".to_vec()
    );
    m.headers.set(b"content-length", b"3");
    assert_eq!(m.framing(MessageKind::Request), Ok(BodyFraming::Fixed(3)));
    assert_eq!(serialize_message(&post(), &m), Err(CodecError::LengthMismatch));
    m.headers.insert(b"Content-Length", b"4");
    assert_eq!(m.framing(MessageKind::Request), Err(CodecError::InvalidContentLength));
    assert_eq!(serialize_message(&post(), &m), Err(CodecError::InvalidContentLength));
    m.headers.remove(b"Content-Length");
    assert_eq!(m.framing(MessageKind::Request), Ok(BodyFraming::NoBody));
    assert_eq!(serialize_message(&post(), &m), Err(CodecError::LengthMismatch));
    assert_eq!(m.framing(MessageKind::Response), Ok(BodyFraming::UntilClose));
    assert_eq!(serialize_message(&ok(), &m).unwrap(), b"HTTP/1.1 200 OK\r\n\r\nhi".to_vec());
    m.headers.insert(b"Transfer-Encoding", b"chunked");
    assert_eq!(
        serialize_message(&ok(), &m).unwrap(),
        b"HTTP/1.1 200 OK\r\nTransfer-Encoding: chunked\r\n\r\n2\r\nhi\r\n0\r\n\r\n".to_vec()
    );
}

#[test]
fn message_clone_is_independent() {
    let mut h = HeaderMap::new();
    h.insert(b"A", b"1");
    let mut m = HTTPMessage::new("HTTP/1.1".to_string(), h);
    m.body = Some(b"body".to_vec());
    let mut c = m.clone();
    assert_eq!(c, m);
    c.headers.set(b"a", b"2");
    c.body = None;
    c.http_version = "HTTP/1.0".to_string();
    assert_eq!(m.headers.get_first(b"A"), Some(&b"1"[..]));
    assert_eq!(m.body, Some(b"body".to_vec()));
    assert_eq!(m.http_version, "HTTP/1.1");
}

#[test]
fn line_scan_reports_what_is_certain() {
    assert_eq!(scan_line(b"abc\r\nrest", 0, 5), Scanned::Line(3));
    assert_eq!(scan_line(b"abc\r\nrest", 0, 4), Scanned::TooLong);
    assert_eq!(scan_line(b"abc", 0, 5), Scanned::Incomplete);
    assert_eq!(scan_line(b"abc\r", 0, 5), Scanned::Incomplete);
    assert_eq!(scan_line(b"abcd\r", 0, 5), Scanned::TooLong);
    assert_eq!(scan_line(b"abcde", 0, 5), Scanned::TooLong);
    assert_eq!(scan_line(b"xx\r\n\r\n", 4, 2), Scanned::Line(4));
    assert_eq!(scan_line(b"a\rb\nc\r\n", 0, 100), Scanned::Line(5));
    assert_eq!(scan_line(b"", 0, 0), Scanned::TooLong);
    assert_eq!(scan_line(b"", 0, 1), Scanned::Incomplete);
    assert_eq!(Limits::new().max_line, 8192);
}
