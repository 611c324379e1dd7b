use http_packet::ascii::{parse_decimal, parse_hex, to_decimal, to_hex};
use http_packet::chunked::{
    decode_chunked, encode_chunked, joined_len, read_chunk, write_chunk, write_joined,
    write_last_chunk, ChunkStep,
};
use http_packet::error::CodecError;
use http_packet::lines::Limits;

#[test]
fn fragments_become_chunks_and_empty_ones_are_skipped() {
    let wire = encode_chunked(&[b"abc", b"", b"de"]);
    assert_eq!(wire, b"3\r\nabc\r\n2\r\nde\r\n0\r\n\r\n".to_vec());
    let (body, trailers, n) = decode_chunked(&wire, &Limits::new()).unwrap();
    assert_eq!(body, b"abcde".to_vec());
    assert!(trailers.is_empty());
    assert_eq!(n, wire.len());
}

#[test]
fn no_fragments_give_the_closing_chunk_alone() {
    assert_eq!(encode_chunked(&[]), b"0\r\n\r\n".to_vec());
    assert_eq!(encode_chunked(&[b"", b""]), b"0\r\n\r\n".to_vec());
    let (body, _, n) = decode_chunked(b"0\r\n\r\n", &Limits::new()).unwrap();
    assert!(body.is_empty());
    assert_eq!(n, 5);
}

#[test]
fn chunk_size_is_hexadecimal() {
    let data = vec![7u8; 255];
    let mut out = Vec::new();
    write_chunk(&mut out, &data);
    assert_eq!(&out[..4], b"ff\r\n");
    assert_eq!(out.len(), 4 + 255 + 2);
    write_last_chunk(&mut out);
    let (body, _, n) = decode_chunked(&out, &Limits::new()).unwrap();
    assert_eq!(body, data);
    assert_eq!(n, out.len());
}

#[test]
fn chunk_data_may_hold_line_breaks() {
    let wire = encode_chunked(&[b"a\r\nb", b"\r\n"]);
    assert_eq!(wire, b"4\r\na\r\nb\r\n2\r\n\r\n\r\n0\r\n\r\n".to_vec());
    let (body, _, _) = decode_chunked(&wire, &Limits::new()).unwrap();
    assert_eq!(body, b"a\r\nb\r\n".to_vec());
}

#[test]
fn chunk_extension_is_ignored() {
    let (body, _, n) = decode_chunked(b"3;name=val\r\nabc\r\n0;x\r\n\r\nrest", &Limits::new()).unwrap();
    assert_eq!(body, b"abc".to_vec());
    assert_eq!(n, 24);
}

#[test]
fn upper_case_size_and_leading_zeros_are_read() {
    let (body, _, _) = decode_chunked(b"00A\r\n0123456789\r\n0\r\n\r\n", &Limits::new()).unwrap();
    assert_eq!(body, b"0123456789".to_vec());
}

#[test]
fn trailers_follow_the_last_chunk() {
    let (body, trailers, n) =
        decode_chunked(b"1\r\nx\r\n0\r\nChecksum: abc\r\nX:  y \r\n\r\n", &Limits::new()).unwrap();
    assert_eq!(body, b"x".to_vec());
    assert_eq!(trailers.len(), 2);
    assert_eq!(trailers.get_first(b"checksum"), Some(&b"abc"[..]));
    assert_eq!(trailers.get_first(b"x"), Some(&b"y"[..]));
    assert_eq!(n, 34);
}

#[test]
fn bad_size_is_a_malformed_chunk() {
    let l = Limits::new();
    assert_eq!(decode_chunked(b"xyz\r\nabc\r\n0\r\n\r\n", &l), Err(CodecError::MalformedChunk));
    assert_eq!(decode_chunked(b"\r\nabc\r\n0\r\n\r\n", &l), Err(CodecError::MalformedChunk));
    assert_eq!(decode_chunked(b";ext\r\n0\r\n\r\n", &l), Err(CodecError::MalformedChunk));
    assert_eq!(decode_chunked(b" 3\r\nabc\r\n0\r\n\r\n", &l), Err(CodecError::MalformedChunk));
    assert_eq!(decode_chunked(b"3 \r\nabc\r\n0\r\n\r\n", &l), Err(CodecError::MalformedChunk));
    assert_eq!(decode_chunked(b"-1\r\n\r\n", &l), Err(CodecError::MalformedChunk));
    assert_eq!(
        decode_chunked(b"fffffffffffffffffffffffff\r\n", &l),
        Err(CodecError::MalformedChunk)
    );
}

#[test]
fn missing_line_break_behind_the_data_is_a_malformed_chunk() {
    let l = Limits::new();
    assert_eq!(decode_chunked(b"3\r\nabcd\r\n0\r\n\r\n", &l), Err(CodecError::MalformedChunk));
    assert_eq!(decode_chunked(b"3\r\nabc\n\n0\r\n\r\n", &l), Err(CodecError::MalformedChunk));
}

#[test]
fn cut_chunked_body_ends_unexpectedly() {
    let l = Limits::new();
    let whole = b"3\r\nabc\r\n2\r\nde\r\n0\r\n\r\n";
    for k in 0..whole.len() {
        assert_eq!(decode_chunked(&whole[..k], &l), Err(CodecError::UnexpectedEof), "cut at {}", k);
    }
    assert!(decode_chunked(whole, &l).is_ok());
}

#[test]
fn bad_trailer_is_a_malformed_header() {
    assert_eq!(
        decode_chunked(b"0\r\nno colon\r\n\r\n", &Limits::new()),
        Err(CodecError::MalformedHeader)
    );
}

#[test]
fn long_size_line_is_too_large() {
    let l = Limits { max_line: 6, max_header_block: 100 };
    assert!(decode_chunked(b"3;ab\r\nabc\r\n0\r\n\r\n", &l).is_ok());
    assert_eq!(decode_chunked(b"3;abc\r\nabc\r\n0\r\n\r\n", &l), Err(CodecError::MessageTooLarge));
    assert_eq!(decode_chunked(b"3;abcdefgh", &l), Err(CodecError::MessageTooLarge));
}

#[test]
fn one_chunk_at_a_time() {
    let l = Limits::new();
    let buf = b"3\r\nabc\r\n0\r\n\r\n";
    assert_eq!(read_chunk(buf, 0, &l), ChunkStep::Data(3, 6, 8));
    assert_eq!(read_chunk(buf, 8, &l), ChunkStep::Last(11));
    assert_eq!(read_chunk(&buf[..7], 0, &l), ChunkStep::NeedMore);
    assert_eq!(read_chunk(&buf[..2], 0, &l), ChunkStep::NeedMore);
    assert_eq!(read_chunk(b"3\r\nabcXY", 0, &l), ChunkStep::Failed(CodecError::MalformedChunk));
}

#[test]
fn fragments_joined_and_counted() {
    let mut out = b"-".to_vec();
    write_joined(&mut out, &[b"ab", b"", b"cde"]);
    assert_eq!(out, b"-abcde".to_vec());
    assert_eq!(joined_len(&[b"ab", b"", b"cde"]), Some(5));
    assert_eq!(joined_len(&[]), Some(0));
}

#[test]
fn numbers_are_written_and_read() {
    assert_eq!(to_hex(0), b"0".to_vec());
    assert_eq!(to_hex(15), b"f".to_vec());
    assert_eq!(to_hex(16), b"10".to_vec());
    assert_eq!(to_hex(0xdead_beef), b"deadbeef".to_vec());
    assert_eq!(parse_hex(b"deadBEEF"), Some(0xdead_beef));
    assert_eq!(parse_hex(b""), None);
    assert_eq!(parse_hex(b"g"), None);
    assert_eq!(parse_hex(b"ffffffffffffffff"), Some(usize::MAX));
    assert_eq!(parse_hex(b"10000000000000000"), None);
    assert_eq!(to_decimal(0), b"0".to_vec());
    assert_eq!(to_decimal(1234567890), b"1234567890".to_vec());
    assert_eq!(to_decimal(u64::MAX), b"18446744073709551615".to_vec());
    assert_eq!(parse_decimal(b"1234567890"), Some(1234567890));
    assert_eq!(parse_decimal(b"18446744073709551615"), Some(u64::MAX));
    assert_eq!(parse_decimal(b"18446744073709551616"), None);
    assert_eq!(parse_decimal(b"99999999999999999999"), None);
    assert_eq!(parse_decimal(b""), None);
    assert_eq!(parse_decimal(b"12a"), None);
}
