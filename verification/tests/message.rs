use http_packet::header::HeaderMap;
use http_packet::message::HTTPMessage;

#[test]
fn new_message_has_no_body() {
    let mut headers = HeaderMap::new();
    headers.insert(b"Host", b"example.org");
    let m = HTTPMessage::new("HTTP/1.1".to_string(), headers);
    assert_eq!(m.http_version, "HTTP/1.1");
    assert_eq!(m.headers.len(), 1);
    assert_eq!(m.headers.get_first(b"host"), Some(&b"example.org"[..]));
    assert!(m.body.is_none());
}
