use http_packet::error::CodecError;
use http_packet::framing::BodyFraming;
use http_packet::header::HeaderMap;
use http_packet::lines::Limits;
use http_packet::parser::{
    parse, parse_pieces, MessageParser, ParseStatus, ParsedMessage, ParserState,
};
use http_packet::serializer::serialize;
use http_packet::start_line::{MessageKind, StartLine, Version};

const REQUEST: &[u8] =
    b"POST /submit HTTP/1.1\r\nHost: example.org\r\nContent-Length: 11\r\nX-Tag:  a \r\n\r\nhello world";

fn feed_all(kind: MessageKind, limits: Limits, chunks: &[&[u8]], finish: bool) -> MessageParser {
    let mut p = MessageParser::new(kind, limits);
    for c in chunks {
        p.feed(c);
    }
    if finish {
        p.finish();
    }
    p
}

fn check_request(m: &ParsedMessage) {
    assert_eq!(
        m.start_line,
        StartLine::Request {
            method: b"POST".to_vec(),
            target: b"/submit".to_vec(),
            version: Version::Http11
        }
    );
    assert_eq!(m.message.http_version, "HTTP/1.1");
    assert_eq!(m.message.headers.len(), 3);
    assert_eq!(m.message.headers.field(0).name, b"Host".to_vec());
    assert_eq!(m.message.headers.field(0).value, b"example.org".to_vec());
    assert_eq!(m.message.headers.field(1).name, b"Content-Length".to_vec());
    assert_eq!(m.message.headers.field(2).name, b"X-Tag".to_vec());
    assert_eq!(m.message.headers.field(2).value, b"a".to_vec());
    assert_eq!(m.message.body, Some(b"hello world".to_vec()));
    assert!(m.trailers.is_empty());
    assert_eq!(m.consumed, REQUEST.len());
}

#[test]
fn whole_request_in_one_call() {
    let mut p = MessageParser::new(MessageKind::Request, Limits::new());
    assert_eq!(p.state(), ParserState::AwaitingStartLine);
    assert_eq!(p.status(), ParseStatus::NeedMore);
    assert_eq!(p.feed(REQUEST), ParseStatus::Complete);
    assert_eq!(p.state(), ParserState::Complete);
    check_request(&p.into_message().unwrap());
}

#[test]
fn one_byte_at_a_time_gives_the_same_message() {
    let whole = feed_all(MessageKind::Request, Limits::new(), &[REQUEST], false)
        .into_message()
        .unwrap();
    let mut p = MessageParser::new(MessageKind::Request, Limits::new());
    for (i, b) in REQUEST.iter().enumerate() {
        let status = p.feed(&[*b]);
        if i + 1 < REQUEST.len() {
            assert_eq!(status, ParseStatus::NeedMore, "after byte {}", i);
        } else {
            assert_eq!(status, ParseStatus::Complete);
        }
    }
    let pieces = p.into_message().unwrap();
    assert_eq!(pieces, whole);
    check_request(&pieces);
}

#[test]
fn every_split_in_two_gives_the_same_message() {
    let whole = parse(REQUEST, MessageKind::Request, Limits::new()).unwrap();
    for k in 0..=REQUEST.len() {
        let p = feed_all(
            MessageKind::Request,
            Limits::new(),
            &[&REQUEST[..k], &REQUEST[k..]],
            true,
        );
        assert_eq!(p.into_message().unwrap(), whole, "split at {}", k);
    }
}

#[test]
fn states_follow_the_message() {
    let mut p = MessageParser::new(MessageKind::Request, Limits::new());
    assert_eq!(p.feed(b"POST /submit HT"), ParseStatus::NeedMore);
    assert_eq!(p.state(), ParserState::AwaitingStartLine);
    assert_eq!(p.feed(b"TP/1.1\r"), ParseStatus::NeedMore);
    assert_eq!(p.state(), ParserState::AwaitingStartLine);
    assert_eq!(p.feed(b"\n"), ParseStatus::NeedMore);
    assert_eq!(p.state(), ParserState::AwaitingHeaders);
    assert_eq!(p.feed(b"Content-Length: 3\r\n"), ParseStatus::NeedMore);
    assert_eq!(p.state(), ParserState::AwaitingHeaders);
    assert_eq!(p.feed(b"\r\n"), ParseStatus::NeedMore);
    assert_eq!(p.state(), ParserState::AwaitingBody);
    assert_eq!(p.feed(b"ab"), ParseStatus::NeedMore);
    assert_eq!(p.state(), ParserState::AwaitingBody);
    assert!(p.feed(b"").eq(&ParseStatus::NeedMore));
    assert_eq!(p.feed(b"c"), ParseStatus::Complete);
    assert_eq!(p.state(), ParserState::Complete);
    let m = p.into_message().unwrap();
    assert_eq!(m.message.body, Some(b"abc".to_vec()));
}

#[test]
fn request_without_length_has_no_body() {
    let wire = b"GET / HTTP/1.0\r\nHost: x\r\n\r\n";
    let mut p = MessageParser::new(MessageKind::Request, Limits::new());
    assert_eq!(p.feed(wire), ParseStatus::Complete);
    let m = p.into_message().unwrap();
    assert_eq!(m.message.body, None);
    assert_eq!(m.message.http_version, "HTTP/1.0");
    assert_eq!(m.consumed, wire.len());
}

#[test]
fn bytes_behind_a_message_are_not_consumed() {
    let mut wire = REQUEST.to_vec();
    wire.extend_from_slice(b"GET /next HTTP/1.1\r\n\r\n");
    let m = parse(&wire, MessageKind::Request, Limits::new()).unwrap();
    assert_eq!(m.consumed, REQUEST.len());
    check_request(&m);
    let next = parse(&wire[m.consumed..], MessageKind::Request, Limits::new()).unwrap();
    assert_eq!(
        next.start_line,
        StartLine::Request {
            method: b"GET".to_vec(),
            target: b"/next".to_vec(),
            version: Version::Http11
        }
    );
}

#[test]
fn complete_decoder_accepts_nothing_more() {
    let mut p = MessageParser::new(MessageKind::Request, Limits::new());
    assert_eq!(p.feed(REQUEST), ParseStatus::Complete);
    assert_eq!(p.feed(b"garbage that is no message"), ParseStatus::Complete);
    assert_eq!(p.finish(), ParseStatus::Complete);
    check_request(&p.into_message().unwrap());
}

#[test]
fn fixed_body_cut_short_ends_unexpectedly() {
    let mut wire = b"HTTP/1.1 200 OK\r\nContent-Length: 100\r\n\r\n".to_vec();
    wire.extend_from_slice(&[b'x'; 50]);
    let mut p = MessageParser::new(MessageKind::Response, Limits::new());
    assert_eq!(p.feed(&wire), ParseStatus::NeedMore);
    assert_eq!(p.state(), ParserState::AwaitingBody);
    assert_eq!(p.finish(), ParseStatus::Failed(CodecError::UnexpectedEof));
    assert_eq!(p.state(), ParserState::Failed(CodecError::UnexpectedEof));
    assert!(p.into_message().is_none());
    assert_eq!(parse(&wire, MessageKind::Response, Limits::new()), Err(CodecError::UnexpectedEof));
}

#[test]
fn failure_is_final() {
    let mut p = MessageParser::new(MessageKind::Request, Limits::new());
    assert_eq!(p.feed(b"BROKEN\r\n"), ParseStatus::Failed(CodecError::MalformedStartLine));
    assert_eq!(p.feed(b"GET / HTTP/1.1\r\n\r\n"), ParseStatus::Failed(CodecError::MalformedStartLine));
    assert_eq!(p.status(), ParseStatus::Failed(CodecError::MalformedStartLine));
    assert_eq!(p.finish(), ParseStatus::Failed(CodecError::MalformedStartLine));
    assert_eq!(p.state(), ParserState::Failed(CodecError::MalformedStartLine));
    assert!(p.into_message().is_none());
}

#[test]
fn long_start_line_is_too_large() {
    let limits = Limits { max_line: 16, max_header_block: 1000 };
    assert!(parse(b"GET / HTTP/1.1\r\n\r\n", MessageKind::Request, limits).is_ok());
    assert_eq!(
        parse(b"GET /a HTTP/1.1\r\n\r\n", MessageKind::Request, limits),
        Err(CodecError::MessageTooLarge)
    );
    let mut p = MessageParser::new(MessageKind::Request, limits);
    assert_eq!(p.feed(b"GET /aaaaaaaaaa"), ParseStatus::NeedMore);
    assert_eq!(p.feed(b"a"), ParseStatus::Failed(CodecError::MessageTooLarge));
}

#[test]
fn long_header_line_is_too_large() {
    let limits = Limits { max_line: 20, max_header_block: 1000 };
    assert!(parse(b"GET / HTTP/1.1\r\nName: 0123456789ab\r\n\r\n", MessageKind::Request, limits).is_ok());
    assert_eq!(
        parse(b"GET / HTTP/1.1\r\nName: 0123456789abc\r\n\r\n", MessageKind::Request, limits),
        Err(CodecError::MessageTooLarge)
    );
    let mut p = MessageParser::new(MessageKind::Request, limits);
    assert_eq!(p.feed(b"GET / HTTP/1.1\r\nName: 0123456789abc"), ParseStatus::NeedMore);
    assert_eq!(p.feed(b"d"), ParseStatus::Failed(CodecError::MessageTooLarge));
}

#[test]
fn large_header_block_is_too_large() {
    let limits = Limits { max_line: 100, max_header_block: 20 };
    assert!(parse(b"GET / HTTP/1.1\r\nA: 1\r\nB: 2\r\nC: 3\r\n\r\n", MessageKind::Request, limits).is_ok());
    assert_eq!(
        parse(b"GET / HTTP/1.1\r\nA: 1\r\nB: 2\r\nC: 34\r\n\r\n", MessageKind::Request, limits),
        Err(CodecError::MessageTooLarge)
    );
}

#[test]
fn zero_line_limit_rejects_at_once() {
    let p = MessageParser::new(MessageKind::Request, Limits { max_line: 0, max_header_block: 0 });
    assert_eq!(p.status(), ParseStatus::Failed(CodecError::MessageTooLarge));
}

#[test]
fn folded_header_line_is_rejected() {
    let wire = b"GET / HTTP/1.1\r\nA: 1\r\n continued\r\n\r\n";
    assert_eq!(parse(wire, MessageKind::Request, Limits::new()), Err(CodecError::MalformedHeader));
    let tab = b"GET / HTTP/1.1\r\nA: 1\r\n\tcontinued: x\r\n\r\n";
    assert_eq!(parse(tab, MessageKind::Request, Limits::new()), Err(CodecError::MalformedHeader));
}

#[test]
fn end_of_input_in_front_of_the_body() {
    let l = Limits::new();
    assert_eq!(parse(b"", MessageKind::Request, l), Err(CodecError::MalformedStartLine));
    assert_eq!(parse(b"GET / HTTP/1.1", MessageKind::Request, l), Err(CodecError::MalformedStartLine));
    assert_eq!(parse(b"GET / HTTP/1.1\r\n", MessageKind::Request, l), Err(CodecError::MalformedHeader));
    assert_eq!(
        parse(b"GET / HTTP/1.1\r\nHost: x", MessageKind::Request, l),
        Err(CodecError::MalformedHeader)
    );
    assert_eq!(
        parse(b"GET / HTTP/1.1\r\nHost: x\r\n", MessageKind::Request, l),
        Err(CodecError::MalformedHeader)
    );
}

#[test]
fn kind_decides_the_start_line_grammar() {
    let l = Limits::new();
    assert_eq!(
        parse(b"HTTP/1.1 200 OK\r\n\r\n", MessageKind::Request, l),
        Err(CodecError::MalformedStartLine)
    );
    assert_eq!(
        parse(b"GET / HTTP/1.1\r\n\r\n", MessageKind::Response, l),
        Err(CodecError::MalformedStartLine)
    );
}

#[test]
fn response_without_length_runs_until_the_input_ends() {
    let mut p = MessageParser::new(MessageKind::Response, Limits::new());
    assert_eq!(p.feed(b"HTTP/1.1 200 OK\r\nServer: s\r\n\r\npart one, "), ParseStatus::NeedMore);
    assert_eq!(p.state(), ParserState::AwaitingBody);
    assert_eq!(p.feed(b"part two"), ParseStatus::NeedMore);
    assert_eq!(p.finish(), ParseStatus::Complete);
    let m = p.into_message().unwrap();
    assert_eq!(m.message.body, Some(b"part one, part two".to_vec()));
    assert_eq!(
        m.start_line,
        StartLine::Response { version: Version::Http11, status_code: 200, reason: b"OK".to_vec() }
    );
    let empty = parse(b"HTTP/1.1 200 OK\r\n\r\n", MessageKind::Response, Limits::new()).unwrap();
    assert_eq!(empty.message.body, Some(Vec::new()));
}

#[test]
fn chunked_message_with_trailers() {
    let wire = b"HTTP/1.1 200 OK\r\nTransfer-Encoding: chunked\r\n\r\n3\r\nabc\r\n2;q\r\nde\r\n0\r\nEtag: \"x\"\r\n\r\n";
    let whole = parse(wire, MessageKind::Response, Limits::new()).unwrap();
    assert_eq!(whole.message.body, Some(b"abcde".to_vec()));
    assert_eq!(whole.trailers.len(), 1);
    assert_eq!(whole.trailers.get_first(b"etag"), Some(&b"\"x\""[..]));
    assert_eq!(whole.message.headers.len(), 1);
    assert_eq!(whole.consumed, wire.len());
    let mut p = MessageParser::new(MessageKind::Response, Limits::new());
    for (i, b) in wire.iter().enumerate() {
        let status = p.feed(&[*b]);
        assert_eq!(status == ParseStatus::Complete, i + 1 == wire.len(), "after byte {}", i);
    }
    assert_eq!(p.into_message().unwrap(), whole);
}

#[test]
fn chunked_message_cut_short() {
    let wire = b"POST / HTTP/1.1\r\nTransfer-Encoding: chunked\r\n\r\n3\r\nabc\r\n0\r\n";
    let mut p = MessageParser::new(MessageKind::Request, Limits::new());
    assert_eq!(p.feed(wire), ParseStatus::NeedMore);
    assert_eq!(p.state(), ParserState::AwaitingBody);
    assert_eq!(p.finish(), ParseStatus::Failed(CodecError::UnexpectedEof));
    let mut q = MessageParser::new(MessageKind::Request, Limits::new());
    assert_eq!(q.feed(&wire[..wire.len() - 6]), ParseStatus::NeedMore);
    assert_eq!(q.finish(), ParseStatus::Failed(CodecError::UnexpectedEof));
}

#[test]
fn chunked_message_with_bad_chunk() {
    let wire = b"POST / HTTP/1.1\r\nTransfer-Encoding: chunked\r\n\r\nzz\r\nabc\r\n0\r\n\r\n";
    assert_eq!(parse(wire, MessageKind::Request, Limits::new()), Err(CodecError::MalformedChunk));
}

#[test]
fn conflicting_lengths_fail_the_message() {
    let wire = b"POST / HTTP/1.1\r\nContent-Length: 5\r\nContent-Length: 7\r\n\r\nhello";
    assert_eq!(parse(wire, MessageKind::Request, Limits::new()), Err(CodecError::InvalidContentLength));
    let mut p = MessageParser::new(MessageKind::Request, Limits::new());
    assert_eq!(p.feed(wire), ParseStatus::Failed(CodecError::InvalidContentLength));
}

#[test]
fn length_beside_chunked_is_read_as_chunked() {
    let wire = b"POST / HTTP/1.1\r\nContent-Length: 5\r\nTransfer-Encoding: chunked\r\n\r\n2\r\nhi\r\n0\r\n\r\n";
    let m = parse(wire, MessageKind::Request, Limits::new()).unwrap();
    assert_eq!(m.message.body, Some(b"hi".to_vec()));
    assert_eq!(m.consumed, wire.len());
}

fn round_trip(start_line: StartLine, headers: HeaderMap, framing: BodyFraming, body: &[&[u8]]) {
    let wire = serialize(&start_line, &headers, framing, body).unwrap();
    let m = parse(&wire, start_line.kind(), Limits::new()).unwrap();
    assert_eq!(m.start_line, start_line);
    assert_eq!(m.message.headers, headers);
    let joined: Vec<u8> = body.concat();
    if framing == BodyFraming::NoBody {
        assert_eq!(m.message.body, None);
    } else {
        assert_eq!(m.message.body, Some(joined));
    }
    assert!(m.trailers.is_empty());
    assert_eq!(m.consumed, wire.len());
    assert_eq!(m.message.framing(start_line.kind()), Ok(framing));
    let mut p = MessageParser::new(start_line.kind(), Limits::new());
    for b in wire.iter() {
        p.feed(&[*b]);
    }
    p.finish();
    assert_eq!(p.into_message().unwrap(), m);
}

#[test]
fn written_messages_are_read_back() {
    let get = StartLine::Request { method: b"GET".to_vec(), target: b"/a/b?c=d".to_vec(), version: Version::Http11 };
    let mut h = HeaderMap::new();
    h.insert(b"Host", b"example.org");
    h.insert(b"Set-Cookie", b"a=1; Path=/");
    h.insert(b"set-cookie", b"b=2");
    h.insert(b"Empty", b"");
    round_trip(get.clone(), h.clone(), BodyFraming::NoBody, &[]);

    let mut fixed = h.clone();
    fixed.insert(b"Content-Length", b"11");
    round_trip(get.clone(), fixed, BodyFraming::Fixed(11), &[b"hello", b" ", b"world"]);

    let mut chunked = h.clone();
    chunked.insert(b"Transfer-Encoding", b"gzip, chunked");
    round_trip(get, chunked.clone(), BodyFraming::Chunked, &[b"abc", b"", b"de\r\n0\r\n\r\n"]);

    let ok = StartLine::Response { version: Version::Http10, status_code: 200, reason: b"OK then".to_vec() };
    round_trip(ok.clone(), h.clone(), BodyFraming::UntilClose, &[b"until", b" the end\r\n"]);
    round_trip(ok.clone(), chunked, BodyFraming::Chunked, &[]);
    let mut zero = HeaderMap::new();
    zero.insert(b"Content-Length", b"0");
    round_trip(ok, zero, BodyFraming::Fixed(0), &[]);
}

#[test]
fn one_call_parse_matches_the_decoder() {
    let m = parse(REQUEST, MessageKind::Request, Limits::new()).unwrap();
    check_request(&m);
    let d = feed_all(MessageKind::Request, Limits::new(), &[REQUEST], true).into_message().unwrap();
    assert_eq!(m, d);
}

#[test]
fn default_limits() {
    let l = Limits::new();
    assert_eq!(l.max_line, 8192);
    assert_eq!(l.max_header_block, 65536);
    assert_eq!(l.budget(10, 10), 8192);
    assert_eq!(l.budget(0, 65536 - 100), 100);
    assert_eq!(l.budget(0, 65536), 0);
    assert_eq!(l.budget(0, 70000), 0);
}

#[test]
fn pieces_are_read_as_the_whole() {
    let whole = parse(REQUEST, MessageKind::Request, Limits::new()).unwrap();
    let bytes: Vec<&[u8]> = REQUEST.chunks(1).collect();
    assert_eq!(parse_pieces(&bytes, MessageKind::Request, Limits::new()).unwrap(), whole);
    let sevens: Vec<&[u8]> = REQUEST.chunks(7).collect();
    assert_eq!(parse_pieces(&sevens, MessageKind::Request, Limits::new()).unwrap(), whole);
    assert_eq!(parse_pieces(&[REQUEST, b"more"], MessageKind::Request, Limits::new()).unwrap(), whole);
    assert_eq!(REQUEST.len(), 87);
    assert_eq!(
        parse_pieces(&[&REQUEST[..30], b"", &REQUEST[30..80]], MessageKind::Request, Limits::new()),
        Err(CodecError::UnexpectedEof)
    );
    assert_eq!(
        parse_pieces(&[&REQUEST[..30], b"", &REQUEST[30..70]], MessageKind::Request, Limits::new()),
        Err(CodecError::MalformedHeader)
    );
    assert_eq!(
        parse_pieces(&[], MessageKind::Request, Limits::new()),
        Err(CodecError::MalformedStartLine)
    );
    assert_eq!(
        parse_pieces(&[b"BAD", b"\r", b"\n", REQUEST], MessageKind::Request, Limits::new()),
        Err(CodecError::MalformedStartLine)
    );
}
