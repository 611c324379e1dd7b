//! The grammar of a whole message: what a sequence of bytes means, as far
//! as it goes, and which bytes a message is written as.
use crate::ascii::{is_prefix, lemma_prefix_subrange, CR, LF};
use crate::chunked::{
    chunked_body, chunked_encoding, joined, lemma_chunked_body_extend, ChunkedParse,
};
use crate::error::CodecError;
use crate::framing::{body_framing_of, BodyFraming};
use crate::header::{
    header_block, header_lines, header_step, lemma_header_block_extend,
    lemma_header_step_bounds, BlockParse, HeaderStepView,
};
use crate::lines::{lemma_find_crlf_first, lemma_line_scan_extend, line_scan, Limits, LineScan};
use crate::start_line::{start_line_bytes, start_line_of, MessageKind, StartLineView};
use vstd::prelude::*;

verus! {

/// The model of a decoded message.
pub struct ParsedView {
    pub start_line: StartLineView,
    pub headers: Seq<(Seq<u8>, Seq<u8>)>,
    /// `None` exactly when the framing says that there is no body.
    pub body: Option<Seq<u8>>,
    /// The trailers of a chunked body; empty for every other framing.
    pub trailers: Seq<(Seq<u8>, Seq<u8>)>,
}

/// What a sequence of bytes amounts to.
pub enum Outcome {
    /// A whole message, which took the first `consumed` bytes.
    Complete { message: ParsedView, consumed: int },
    /// A well-formed beginning of a message.
    NeedMore,
    /// No message, whatever follows.
    Failed(CodecError),
}

/// The meaning of the bytes `s` as a message of the kind given, read under
/// the limits given. `eof` says that the input has ended behind `s`: a
/// message that lacks bytes is then rejected, and a body that runs until
/// the input ends is complete.
pub open spec fn parse_message(s: Seq<u8>, eof: bool, kind: MessageKind, limits: Limits) -> Outcome {
    match line_scan(s, 0, limits.max_line as int) {
        LineScan::Incomplete => if eof {
            Outcome::Failed(CodecError::MalformedStartLine)
        } else {
            Outcome::NeedMore
        },
        LineScan::TooLong => Outcome::Failed(CodecError::MessageTooLarge),
        LineScan::Line(e) => match start_line_of(s.subrange(0, e), kind) {
            None => Outcome::Failed(CodecError::MalformedStartLine),
            Some(start_line) => from_headers(
                s,
                eof,
                kind,
                limits,
                start_line,
                e + 2,
                e + 2,
                Seq::<(Seq<u8>, Seq<u8>)>::empty(),
            ),
        },
    }
}

/// The meaning of `s` once its start line is read and the headers in front
/// of `pos` are in `acc`; the header block began at `start`.
pub open spec fn from_headers(
    s: Seq<u8>,
    eof: bool,
    kind: MessageKind,
    limits: Limits,
    start_line: StartLineView,
    pos: int,
    start: int,
    acc: Seq<(Seq<u8>, Seq<u8>)>,
) -> Outcome {
    match header_block(s, pos, start, limits, acc) {
        BlockParse::NeedMore => if eof {
            Outcome::Failed(CodecError::MalformedHeader)
        } else {
            Outcome::NeedMore
        },
        BlockParse::Failed(e) => Outcome::Failed(e),
        BlockParse::Done { headers, end } => match body_framing_of(headers, kind) {
            Err(e) => Outcome::Failed(e),
            Ok(framing) => from_body(s, eof, limits, start_line, headers, framing, end),
        },
    }
}

/// The meaning of `s` once its headers are read and its body, framed as
/// given, starts at `start`.
pub open spec fn from_body(
    s: Seq<u8>,
    eof: bool,
    limits: Limits,
    start_line: StartLineView,
    headers: Seq<(Seq<u8>, Seq<u8>)>,
    framing: BodyFraming,
    start: int,
) -> Outcome {
    match framing {
        BodyFraming::NoBody => Outcome::Complete {
            message: ParsedView {
                start_line,
                headers,
                body: None,
                trailers: Seq::<(Seq<u8>, Seq<u8>)>::empty(),
            },
            consumed: start,
        },
        BodyFraming::Fixed(n) => if s.len() - start >= n {
            Outcome::Complete {
                message: ParsedView {
                    start_line,
                    headers,
                    body: Some(s.subrange(start, start + n)),
                    trailers: Seq::<(Seq<u8>, Seq<u8>)>::empty(),
                },
                consumed: start + n,
            }
        } else if eof {
            Outcome::Failed(CodecError::UnexpectedEof)
        } else {
            Outcome::NeedMore
        },
        BodyFraming::UntilClose => if eof {
            Outcome::Complete {
                message: ParsedView {
                    start_line,
                    headers,
                    body: Some(s.subrange(start, s.len() as int)),
                    trailers: Seq::<(Seq<u8>, Seq<u8>)>::empty(),
                },
                consumed: s.len() as int,
            }
        } else {
            Outcome::NeedMore
        },
        BodyFraming::Chunked => from_chunks(
            s,
            eof,
            limits,
            start_line,
            headers,
            start,
            Seq::<u8>::empty(),
        ),
    }
}

/// The meaning of `s` inside a chunked body: the next chunk starts at `pos`
/// and `acc` holds the data of the chunks in front of it.
pub open spec fn from_chunks(
    s: Seq<u8>,
    eof: bool,
    limits: Limits,
    start_line: StartLineView,
    headers: Seq<(Seq<u8>, Seq<u8>)>,
    pos: int,
    acc: Seq<u8>,
) -> Outcome {
    match chunked_body(s, pos, limits, acc) {
        ChunkedParse::NeedMore => if eof {
            Outcome::Failed(CodecError::UnexpectedEof)
        } else {
            Outcome::NeedMore
        },
        ChunkedParse::Failed(e) => Outcome::Failed(e),
        ChunkedParse::Done { body, trailers, end } => Outcome::Complete {
            message: ParsedView { start_line, headers, body: Some(body), trailers },
            consumed: end,
        },
    }
}

/// The meaning of `s` inside the trailers of a chunked body whose data is
/// `body`: the trailer block began at `start` and the trailers in front of
/// `pos` are in `acc`.
pub open spec fn from_trailers(
    s: Seq<u8>,
    eof: bool,
    limits: Limits,
    start_line: StartLineView,
    headers: Seq<(Seq<u8>, Seq<u8>)>,
    body: Seq<u8>,
    pos: int,
    start: int,
    acc: Seq<(Seq<u8>, Seq<u8>)>,
) -> Outcome {
    match header_block(s, pos, start, limits, acc) {
        BlockParse::NeedMore => if eof {
            Outcome::Failed(CodecError::UnexpectedEof)
        } else {
            Outcome::NeedMore
        },
        BlockParse::Failed(e) => Outcome::Failed(e),
        BlockParse::Done { headers: trailers, end } => Outcome::Complete {
            message: ParsedView { start_line, headers, body: Some(body), trailers },
            consumed: end,
        },
    }
}

/// The bytes that a body is written as under a framing, the body given as
/// fragments. A body whose length is not the one that the framing declares
/// cannot be written.
pub open spec fn body_bytes(framing: BodyFraming, fragments: Seq<Seq<u8>>) -> Result<
    Seq<u8>,
    CodecError,
> {
    match framing {
        BodyFraming::NoBody => if joined(fragments).len() == 0 {
            Ok(Seq::empty())
        } else {
            Err(CodecError::LengthMismatch)
        },
        BodyFraming::Fixed(n) => if joined(fragments).len() == n {
            Ok(joined(fragments))
        } else {
            Err(CodecError::LengthMismatch)
        },
        BodyFraming::Chunked => Ok(chunked_encoding(fragments)),
        BodyFraming::UntilClose => Ok(joined(fragments)),
    }
}

/// The bytes in front of the body: the start line, the header lines in
/// their order, and an empty line.
pub open spec fn head_bytes(start_line: StartLineView, headers: Seq<(Seq<u8>, Seq<u8>)>) -> Seq<
    u8,
> {
    start_line_bytes(start_line) + header_lines(headers) + seq![CR, LF]
}

/// The bytes that a message is written as.
pub open spec fn message_bytes(
    start_line: StartLineView,
    headers: Seq<(Seq<u8>, Seq<u8>)>,
    framing: BodyFraming,
    fragments: Seq<Seq<u8>>,
) -> Result<Seq<u8>, CodecError> {
    match body_bytes(framing, fragments) {
        Ok(body) => Ok(head_bytes(start_line, headers) + body),
        Err(e) => Err(e),
    }
}

/// Once the input has ended, nothing is left waiting.
pub proof fn lemma_eof_decides(s: Seq<u8>, kind: MessageKind, limits: Limits)
    ensures
        !(parse_message(s, true, kind, limits) is NeedMore),
{
}

/// What is decided stays decided: bytes that follow a complete message, or
/// a rejected beginning, change nothing, nor does the end of the input.
pub proof fn lemma_parse_extend(
    s: Seq<u8>,
    t: Seq<u8>,
    eof: bool,
    kind: MessageKind,
    limits: Limits,
)
    requires
        is_prefix(s, t),
        !(parse_message(s, false, kind, limits) is NeedMore),
    ensures
        parse_message(t, eof, kind, limits) == parse_message(s, false, kind, limits),
{
    let max = limits.max_line as int;
    lemma_line_scan_extend(s, t, 0, max);
    lemma_find_crlf_first(s, 0);
    match line_scan(s, 0, max) {
        LineScan::Line(e) => {
            lemma_prefix_subrange(s, t, 0, e);
            match start_line_of(s.subrange(0, e), kind) {
                Some(start_line) => {
                    let none = Seq::<(Seq<u8>, Seq<u8>)>::empty();
                    lemma_header_block_extend(s, t, e + 2, e + 2, limits, none);
                    lemma_header_block_end(s, e + 2, e + 2, limits, none);
                    match header_block(s, e + 2, e + 2, limits, none) {
                        BlockParse::Done { headers, end } => {
                            match body_framing_of(headers, kind) {
                                Ok(BodyFraming::Fixed(n)) => {
                                    lemma_prefix_subrange(s, t, end, end + n);
                                },
                                Ok(BodyFraming::Chunked) => {
                                    lemma_chunked_body_extend(s, t, end, limits, Seq::<u8>::empty());
                                },
                                _ => {},
                            }
                        },
                        _ => {},
                    }
                },
                None => {},
            }
        },
        _ => {},
    }
}

/// A header block that is complete ends inside the input.
pub proof fn lemma_header_block_end(
    s: Seq<u8>,
    pos: int,
    start: int,
    limits: Limits,
    acc: Seq<(Seq<u8>, Seq<u8>)>,
)
    requires
        0 <= pos,
    ensures
        match header_block(s, pos, start, limits, acc) {
            BlockParse::Done { headers, end } => pos + 2 <= end <= s.len(),
            _ => true,
        },
    decreases s.len() - pos,
{
    lemma_header_step_bounds(s, pos, start, limits);
    match header_step(s, pos, start, limits) {
        HeaderStepView::Field { name, value, next } => {
            lemma_header_block_end(s, next, start, limits, acc.push((name, value)));
        },
        _ => {},
    }
}

} // verus!
