//! The encoder: renders a start line, headers and a body into the bytes
//! that go on the wire.
use crate::ascii::{CR, LF};
use crate::chunked::{fragment_views, joined_len, write_chunks, write_joined, write_last_chunk};
use crate::error::CodecError;
use crate::framing::{body_framing, body_framing_of, BodyFraming};
use crate::grammar::{head_bytes, message_bytes};
use crate::header::HeaderMap;
use crate::message::HTTPMessage;
use crate::start_line::{kind_of, StartLine, StartLineView};
use vstd::prelude::*;

verus! {

/// Writes what stands in front of a body: the start line, every header in
/// the stored order, none left out or merged, and the empty line. A caller
/// that streams a chunked body goes on with one `write_chunk` for each
/// fragment and ends with `write_last_chunk`.
pub fn write_head(out: &mut Vec<u8>, start_line: &StartLine, headers: &HeaderMap)
    ensures
        final(out)@ == old(out)@ + head_bytes(start_line@, headers@),
{
    start_line.write_to(out);
    headers.write_to(out);
    out.push(CR);
    out.push(LF);
    assert(out@ =~= old(out)@ + head_bytes(start_line@, headers@));
}

/// Renders a message. The body is given as fragments: under `Chunked` each
/// fragment that is not empty becomes a chunk of its own; under the other
/// framings the fragments are written one behind the other. Fails with
/// `LengthMismatch` when the framing is `Fixed` and the fragments do not
/// have the declared length together, or when it is `NoBody` and they are
/// not all empty.
pub fn serialize(
    start_line: &StartLine,
    headers: &HeaderMap,
    framing: BodyFraming,
    body: &[&[u8]],
) -> (r: Result<Vec<u8>, CodecError>)
    ensures
        match message_bytes(start_line@, headers@, framing, fragment_views(body@)) {
            Ok(bytes) => r matches Ok(out) && out@ == bytes,
            Err(e) => r matches Err(x) && x == e,
        },
{
    let declared: Option<u64> = match framing {
        BodyFraming::NoBody => Some(0),
        BodyFraming::Fixed(n) => Some(n),
        _ => None,
    };
    match declared {
        Some(n) => {
            match joined_len(body) {
                Some(m) => {
                    if m != n {
                        return Err(CodecError::LengthMismatch);
                    }
                },
                None => {
                    return Err(CodecError::LengthMismatch);
                },
            }
        },
        None => {},
    }
    let mut out: Vec<u8> = Vec::new();
    write_head(&mut out, start_line, headers);
    match framing {
        BodyFraming::Chunked => {
            write_chunks(&mut out, body);
            write_last_chunk(&mut out);
        },
        _ => {
            write_joined(&mut out, body);
        },
    }
    proof {
        let bytes = message_bytes(start_line@, headers@, framing, fragment_views(body@));
        assert(bytes is Ok);
        assert(out@ =~= bytes.unwrap());
    }
    Ok(out)
}

/// The fragments that stand for an optional body.
pub open spec fn body_fragments(body: Option<Seq<u8>>) -> Seq<Seq<u8>> {
    match body {
        Some(b) => seq![b],
        None => Seq::empty(),
    }
}

/// The bytes that a message is written as under the start line given, the
/// framing taken from its headers.
pub open spec fn message_wire_bytes(
    start_line: StartLineView,
    headers: Seq<(Seq<u8>, Seq<u8>)>,
    body: Option<Seq<u8>>,
) -> Result<Seq<u8>, CodecError> {
    match body_framing_of(headers, kind_of(start_line)) {
        Err(e) => Err(e),
        Ok(framing) => message_bytes(start_line, headers, framing, body_fragments(body)),
    }
}

/// Renders a message under the start line given. The framing is taken from
/// the headers as they stand; headers that do not settle it are rejected
/// with `InvalidContentLength`, and a body that does not have the length
/// that they declare with `LengthMismatch`.
pub fn serialize_message(start_line: &StartLine, message: &HTTPMessage) -> (r: Result<
    Vec<u8>,
    CodecError,
>)
    ensures
        match message_wire_bytes(start_line@, message@.headers, message@.body) {
            Ok(bytes) => r matches Ok(out) && out@ == bytes,
            Err(e) => r matches Err(x) && x == e,
        },
{
    let framing = match body_framing(&message.headers, start_line.kind()) {
        Ok(f) => f,
        Err(e) => {
            return Err(e);
        },
    };
    match &message.body {
        Some(b) => {
            let fragments: [&[u8]; 1] = [b.as_slice()];
            assert(fragment_views(fragments@) =~= body_fragments(message@.body));
            serialize(start_line, &message.headers, framing, fragments.as_slice())
        },
        None => {
            let fragments: [&[u8]; 0] = [];
            assert(fragment_views(fragments@) =~= body_fragments(message@.body));
            serialize(start_line, &message.headers, framing, fragments.as_slice())
        },
    }
}

} // verus!
