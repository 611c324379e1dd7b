use http_packet::error::CodecError;
use http_packet::header::{
    parse_header_line, read_header_block, write_header_line, BlockRead, HeaderField, HeaderMap,
};
use http_packet::lines::Limits;

fn sample() -> HeaderMap {
    let mut h = HeaderMap::new();
    h.insert(b"Host", b"example.org");
    h.insert(b"Set-Cookie", b"a=1");
    h.insert(b"Accept", b"*/*");
    h.insert(b"set-cookie", b"b=2");
    h
}

#[test]
fn new_map_is_empty() {
    let h = HeaderMap::new();
    assert_eq!(h.len(), 0);
    assert!(h.is_empty());
    assert!(!h.contains(b"host"));
    assert_eq!(h.get_first(b"host"), None);
    assert!(h.get_all(b"host").is_empty());
}

#[test]
fn insert_appends_and_does_not_replace() {
    let h = sample();
    assert_eq!(h.len(), 4);
    assert!(!h.is_empty());
    assert_eq!(h.get_all(b"Set-Cookie"), vec![&b"a=1"[..], &b"b=2"[..]]);
    assert_eq!(h.get_first(b"Set-Cookie"), Some(&b"a=1"[..]));
}

#[test]
fn entries_keep_insertion_order() {
    let h = sample();
    let names: Vec<&[u8]> = (0..h.len()).map(|i| h.field(i).name.as_slice()).collect();
    assert_eq!(names, vec![&b"Host"[..], &b"Set-Cookie"[..], &b"Accept"[..], &b"set-cookie"[..]]);
    let values: Vec<&[u8]> = (0..h.len()).map(|i| h.field(i).value.as_slice()).collect();
    assert_eq!(values, vec![&b"example.org"[..], &b"a=1"[..], &b"*/*"[..], &b"b=2"[..]]);
}

#[test]
fn lookup_ignores_case_of_the_name() {
    let mut h = HeaderMap::new();
    h.insert(b"Content-Length", b"42");
    assert_eq!(h.get_first(b"content-length"), Some(&b"42"[..]));
    assert_eq!(h.get_first(b"Content-Length"), Some(&b"42"[..]));
    assert_eq!(h.get_first(b"CONTENT-LENGTH"), Some(&b"42"[..]));
    let mut g = HeaderMap::new();
    g.insert(b"content-length", b"42");
    assert_eq!(g.get_first(b"content-length"), g.get_first(b"Content-Length"));
    assert_eq!(g.get_first(b"Content-Length"), Some(&b"42"[..]));
    assert!(g.contains(b"cOnTeNt-LeNgTh"));
    assert!(!g.contains(b"content-lengt"));
    assert!(!g.contains(b"content_length"));
}

#[test]
fn names_are_stored_as_given() {
    let mut h = HeaderMap::new();
    h.insert(b"X-MiXed", b"v");
    assert_eq!(h.field(0).name, b"X-MiXed".to_vec());
}

#[test]
fn values_are_not_trimmed_on_get() {
    let mut h = HeaderMap::new();
    h.insert(b"X", b"  padded  ");
    assert_eq!(h.get_first(b"x"), Some(&b"  padded  "[..]));
}

#[test]
fn set_removes_every_entry_of_the_name_and_adds_one() {
    let mut h = sample();
    h.set(b"SET-COOKIE", b"c=3");
    assert_eq!(h.len(), 3);
    assert_eq!(h.get_all(b"set-cookie"), vec![&b"c=3"[..]]);
    assert_eq!(h.field(0).name, b"Host".to_vec());
    assert_eq!(h.field(1).name, b"Accept".to_vec());
    assert_eq!(h.field(2).name, b"SET-COOKIE".to_vec());
    assert_eq!(h.field(2).value, b"c=3".to_vec());
}

#[test]
fn set_on_a_new_name_appends() {
    let mut h = sample();
    h.set(b"Via", b"proxy");
    assert_eq!(h.len(), 5);
    assert_eq!(h.field(4).name, b"Via".to_vec());
}

#[test]
fn remove_says_how_many_entries_left() {
    let mut h = sample();
    assert_eq!(h.remove(b"set-cookie"), 2);
    assert_eq!(h.len(), 2);
    assert!(!h.contains(b"Set-Cookie"));
    assert_eq!(h.field(0).name, b"Host".to_vec());
    assert_eq!(h.field(1).name, b"Accept".to_vec());
    assert_eq!(h.remove(b"set-cookie"), 0);
    assert_eq!(h.len(), 2);
}

#[test]
fn a_changed_clone_leaves_the_first_value_alone() {
    let h = sample();
    let mut c = h.clone();
    assert_eq!(c, h);
    c.insert(b"Extra", b"1");
    c.remove(b"host");
    assert_eq!(h.len(), 4);
    assert_eq!(h.get_first(b"host"), Some(&b"example.org"[..]));
    assert!(!h.contains(b"extra"));
    assert_eq!(c.len(), 4);
    assert!(!c.contains(b"host"));
}

#[test]
fn header_line_value_is_trimmed_at_parse_time() {
    let f = parse_header_line(b"name:   value  ").unwrap();
    assert_eq!(f, HeaderField { name: b"name".to_vec(), value: b"value".to_vec() });
    let g = parse_header_line(b"Name:\t a b \t").unwrap();
    assert_eq!(g.value, b"a b".to_vec());
    let e = parse_header_line(b"Empty:").unwrap();
    assert_eq!(e.value, b"".to_vec());
    let c = parse_header_line(b"Host: a:b").unwrap();
    assert_eq!(c.name, b"Host".to_vec());
    assert_eq!(c.value, b"a:b".to_vec());
}

#[test]
fn header_line_with_a_bad_name_is_malformed() {
    assert_eq!(parse_header_line(b"no colon here"), Err(CodecError::MalformedHeader));
    assert_eq!(parse_header_line(b": value"), Err(CodecError::MalformedHeader));
    assert_eq!(parse_header_line(b"bad name: v"), Err(CodecError::MalformedHeader));
    assert_eq!(parse_header_line(b"name : v"), Err(CodecError::MalformedHeader));
    assert_eq!(parse_header_line(b" folded: v"), Err(CodecError::MalformedHeader));
    assert_eq!(parse_header_line(b"\tfolded"), Err(CodecError::MalformedHeader));
    assert_eq!(parse_header_line(b"na(me: v"), Err(CodecError::MalformedHeader));
    assert_eq!(parse_header_line(b""), Err(CodecError::MalformedHeader));
}

#[test]
fn header_line_is_written_with_colon_and_space() {
    let mut out = b">".to_vec();
    write_header_line(&mut out, &HeaderField { name: b"Host".to_vec(), value: b"x".to_vec() });
    assert_eq!(out, b">Host: x\r\n".to_vec());
}

#[test]
fn map_is_written_in_stored_order_with_duplicates() {
    let h = sample();
    let mut out = Vec::new();
    h.write_to(&mut out);
    assert_eq!(
        out,
        b"Host: example.org\r\nSet-Cookie: a=1\r\nAccept: */*\r\nset-cookie: b=2\r\n".to_vec()
    );
}

#[test]
fn header_block_is_read_up_to_the_empty_line() {
    let limits = Limits::new();
    let buf = b"XXA: 1\r\nB:2\r\n\r\nrest";
    match read_header_block(buf, 2, &limits) {
        BlockRead::Done(h, end) => {
            assert_eq!(end, 15);
            assert_eq!(h.len(), 2);
            assert_eq!(h.get_first(b"a"), Some(&b"1"[..]));
            assert_eq!(h.get_first(b"b"), Some(&b"2"[..]));
        }
        other => panic!("unexpected {:?}", other),
    }
    assert_eq!(read_header_block(b"A: 1\r\nB", 0, &limits), BlockRead::NeedMore);
    assert_eq!(
        read_header_block(b"A: 1\r\nB\r\n\r\n", 0, &limits),
        BlockRead::Failed(CodecError::MalformedHeader)
    );
}

#[test]
fn header_block_limit_counts_the_whole_block() {
    let limits = Limits { max_line: 100, max_header_block: 12 };
    assert!(matches!(read_header_block(b"A: 1\r\nB: 2\r\n\r\n", 0, &limits), BlockRead::Failed(CodecError::MessageTooLarge)));
    let limits = Limits { max_line: 100, max_header_block: 14 };
    assert!(matches!(read_header_block(b"A: 1\r\nB: 2\r\n\r\n", 0, &limits), BlockRead::Done(_, 14)));
}
