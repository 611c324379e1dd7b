use http_packet::error::CodecError;
use http_packet::framing::{body_framing, last_coding_is_chunked, BodyFraming};
use http_packet::header::HeaderMap;
use http_packet::start_line::MessageKind;

fn headers(entries: &[(&[u8], &[u8])]) -> HeaderMap {
    let mut h = HeaderMap::new();
    for (n, v) in entries {
        h.insert(n, v);
    }
    h
}

#[test]
fn conflicting_lengths_are_rejected() {
    let h = headers(&[(b"Content-Length", b"5"), (b"Content-Length", b"7")]);
    assert_eq!(body_framing(&h, MessageKind::Request), Err(CodecError::InvalidContentLength));
    assert_eq!(body_framing(&h, MessageKind::Response), Err(CodecError::InvalidContentLength));
}

#[test]
fn chunked_wins_over_content_length() {
    let h = headers(&[(b"Content-Length", b"5"), (b"Transfer-Encoding", b"chunked")]);
    assert_eq!(body_framing(&h, MessageKind::Request), Ok(BodyFraming::Chunked));
    let g = headers(&[(b"transfer-encoding", b"Chunked"), (b"content-length", b"junk")]);
    assert_eq!(body_framing(&g, MessageKind::Response), Ok(BodyFraming::Chunked));
}

#[test]
fn content_length_gives_fixed() {
    let h = headers(&[(b"Host", b"x"), (b"content-length", b"123")]);
    assert_eq!(body_framing(&h, MessageKind::Request), Ok(BodyFraming::Fixed(123)));
    let z = headers(&[(b"Content-Length", b"0")]);
    assert_eq!(body_framing(&z, MessageKind::Response), Ok(BodyFraming::Fixed(0)));
    let big = headers(&[(b"Content-Length", b"18446744073709551615")]);
    assert_eq!(body_framing(&big, MessageKind::Request), Ok(BodyFraming::Fixed(u64::MAX)));
}

#[test]
fn equal_lengths_agree() {
    let h = headers(&[(b"Content-Length", b"5"), (b"CONTENT-LENGTH", b"5")]);
    assert_eq!(body_framing(&h, MessageKind::Request), Ok(BodyFraming::Fixed(5)));
    let g = headers(&[(b"Content-Length", b"5"), (b"Content-Length", b"005")]);
    assert_eq!(body_framing(&g, MessageKind::Request), Ok(BodyFraming::Fixed(5)));
}

#[test]
fn length_that_is_no_number_is_rejected() {
    for bad in [&b"abc"[..], b"", b"-1", b"+1", b"1 2", b"5,5", b"0x10", b"18446744073709551616", b" 5"] {
        let h = headers(&[(b"Content-Length", bad)]);
        assert_eq!(body_framing(&h, MessageKind::Request), Err(CodecError::InvalidContentLength));
    }
    let h = headers(&[(b"Content-Length", b"5"), (b"Content-Length", b"x")]);
    assert_eq!(body_framing(&h, MessageKind::Response), Err(CodecError::InvalidContentLength));
}

#[test]
fn other_coding_beside_length_is_rejected() {
    let h = headers(&[(b"Transfer-Encoding", b"gzip"), (b"Content-Length", b"5")]);
    assert_eq!(body_framing(&h, MessageKind::Request), Err(CodecError::InvalidContentLength));
    let g = headers(&[(b"Transfer-Encoding", b"chunked, gzip"), (b"Content-Length", b"5")]);
    assert_eq!(body_framing(&g, MessageKind::Response), Err(CodecError::InvalidContentLength));
}

#[test]
fn no_indicator_depends_on_the_kind() {
    let h = headers(&[(b"Host", b"x")]);
    assert_eq!(body_framing(&h, MessageKind::Request), Ok(BodyFraming::NoBody));
    assert_eq!(body_framing(&h, MessageKind::Response), Ok(BodyFraming::UntilClose));
    let e = HeaderMap::new();
    assert_eq!(body_framing(&e, MessageKind::Request), Ok(BodyFraming::NoBody));
    let g = headers(&[(b"Transfer-Encoding", b"gzip")]);
    assert_eq!(body_framing(&g, MessageKind::Response), Ok(BodyFraming::UntilClose));
    assert_eq!(body_framing(&g, MessageKind::Request), Ok(BodyFraming::NoBody));
}

#[test]
fn last_coding_of_last_header_decides() {
    let h = headers(&[(b"Transfer-Encoding", b"gzip, chunked")]);
    assert_eq!(body_framing(&h, MessageKind::Request), Ok(BodyFraming::Chunked));
    let g = headers(&[(b"Transfer-Encoding", b"chunked"), (b"Transfer-Encoding", b"gzip")]);
    assert_eq!(body_framing(&g, MessageKind::Response), Ok(BodyFraming::UntilClose));
    let k = headers(&[(b"Transfer-Encoding", b"gzip"), (b"Transfer-Encoding", b"chunked")]);
    assert_eq!(body_framing(&k, MessageKind::Response), Ok(BodyFraming::Chunked));
}

#[test]
fn last_coding_is_found_behind_the_last_comma() {
    assert!(last_coding_is_chunked(b"chunked"));
    assert!(last_coding_is_chunked(b"CHUNKED"));
    assert!(last_coding_is_chunked(b"gzip,chunked"));
    assert!(last_coding_is_chunked(b"gzip, \tchunked \t"));
    assert!(!last_coding_is_chunked(b"chunked,"));
    assert!(!last_coding_is_chunked(b"chunked, gzip"));
    assert!(!last_coding_is_chunked(b""));
    assert!(!last_coding_is_chunked(b"chunke"));
    assert!(!last_coding_is_chunked(b"xchunked"));
}
