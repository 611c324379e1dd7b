//! What holds of the codec as a whole: a message that is written is read
//! back as it was, the pieces in which the input arrives do not matter, a
//! body that is cut short is never accepted, and a line beyond the limit is
//! rejected whatever it holds.
use crate::ascii::{
    is_line_safe, is_prefix, is_token, is_token_byte, is_trimmed, lemma_index_of_is,
    lemma_is_prefix_concat, lemma_is_prefix_transitive, lemma_trim_leading, COLON, CR, LF, SP,
};
use crate::chunked::{chunked_encoding, fragments_fit, joined, lemma_chunked_round_trip};
use crate::error::CodecError;
use crate::framing::{body_framing_of, BodyFraming};
use crate::grammar::{
    body_bytes, from_body, from_headers, head_bytes, lemma_parse_extend, message_bytes,
    parse_message, Outcome, ParsedView,
};
use crate::header::{
    header_block, header_line, header_lines, header_of_line, header_step, BlockParse,
    HeaderStepView,
};
use crate::lines::{
    find_crlf, holds_at, lemma_holds_at_front, lemma_holds_at_split, lemma_line_found,
    line_budget, Limits,
};
use crate::start_line::{
    kind_of, lemma_start_line_round_trip, start_line_bytes, start_line_text, start_line_wf,
    MessageKind, StartLineView,
};
use vstd::prelude::*;

verus! {

/// A header that is read back as it was written: the name is a token, and
/// the value holds no line break and no whitespace at either end.
pub open spec fn header_wf(h: (Seq<u8>, Seq<u8>)) -> bool {
    is_token(h.0) && is_trimmed(h.1) && is_line_safe(h.1)
}

pub open spec fn headers_wf(headers: Seq<(Seq<u8>, Seq<u8>)>) -> bool {
    forall|i: int| 0 <= i < headers.len() ==> header_wf(#[trigger] headers[i])
}

/// Every header line fits the line limit.
pub open spec fn lines_fit(headers: Seq<(Seq<u8>, Seq<u8>)>, limits: Limits) -> bool {
    forall|i: int|
        0 <= i < headers.len() ==> header_line(#[trigger] headers[i]).len() <= limits.max_line
}

/// The limits leave room for the message: for its start line, for each
/// header line, for the header block with its empty line, and, where the
/// body is chunked, for a size line of 18 bytes.
pub open spec fn limits_admit(
    start_line: StartLineView,
    headers: Seq<(Seq<u8>, Seq<u8>)>,
    framing: BodyFraming,
    limits: Limits,
) -> bool {
    &&& start_line_bytes(start_line).len() <= limits.max_line
    &&& lines_fit(headers, limits)
    &&& header_lines(headers).len() + 2 <= limits.max_header_block
    &&& framing is Chunked ==> limits.max_line >= 18
}

/// The body of a decoded message whose framing and fragments are given.
pub open spec fn decoded_body(framing: BodyFraming, fragments: Seq<Seq<u8>>) -> Option<Seq<u8>> {
    if framing is NoBody {
        None
    } else {
        Some(joined(fragments))
    }
}

/// The line at `from` is longer than `max` bytes, CRLF included: its CRLF
/// lies beyond the limit, or there are `max` bytes and no CRLF.
pub open spec fn line_too_long(s: Seq<u8>, from: int, max: int) -> bool {
    match find_crlf(s, from) {
        Some(e) => e + 2 - from > max,
        None => s.len() - from >= max,
    }
}

/// The bytes that a decoder has accepted after it was created and fed the
/// chunks one by one: each chunk is taken while the message lacks bytes,
/// and none once the decoder has decided.
pub open spec fn accepted_after(chunks: Seq<Seq<u8>>, kind: MessageKind, limits: Limits) -> Seq<u8>
    decreases chunks.len(),
{
    if chunks.len() == 0 {
        Seq::empty()
    } else {
        let before = accepted_after(chunks.drop_last(), kind, limits);
        if parse_message(before, false, kind, limits) is NeedMore {
            before + chunks.last()
        } else {
            before
        }
    }
}

/// What a decoder that has accepted these bytes reports; `finished` says
/// that it was told of the end of the input afterwards.
pub open spec fn reported(accepted: Seq<u8>, finished: bool, kind: MessageKind, limits: Limits) -> Outcome {
    if finished && parse_message(accepted, false, kind, limits) is NeedMore {
        parse_message(accepted, true, kind, limits)
    } else {
        parse_message(accepted, false, kind, limits)
    }
}

proof fn lemma_header_line_read_back(
    s: Seq<u8>,
    pos: int,
    start: int,
    limits: Limits,
    h: (Seq<u8>, Seq<u8>),
)
    requires
        holds_at(s, pos, header_line(h)),
        header_wf(h),
        0 <= start <= pos,
        header_line(h).len() <= line_budget(limits, start, pos),
    ensures
        header_step(s, pos, start, limits) == (HeaderStepView::Field {
            name: h.0,
            value: h.1,
            next: pos + header_line(h).len(),
        }),
{
    let text = h.0 + seq![COLON, SP] + h.1;
    let colon = h.0.len() as int;
    assert(header_line(h) =~= text + seq![CR, LF]);
    assert forall|j: int| 0 <= j < text.len() implies #[trigger] text[j] != CR by {
        if j < colon {
            assert(text[j] == h.0[j]);
            assert(is_token_byte(h.0[j]));
        } else if j >= colon + 2 {
            assert(text[j] == h.1[j - colon - 2]);
        }
    }
    lemma_line_found(s, pos, text, line_budget(limits, start, pos));
    assert forall|j: int| 0 <= j < colon implies #[trigger] text[j] != COLON by {
        assert(text[j] == h.0[j]);
        assert(is_token_byte(h.0[j]));
    }
    assert(text[colon] == COLON);
    lemma_index_of_is(text, COLON, 0, colon);
    assert(text.subrange(0, colon) =~= h.0);
    assert(text.subrange(colon + 1, text.len() as int) =~= seq![SP] + h.1);
    lemma_trim_leading(seq![SP], h.1);
    assert(header_of_line(text) == Some(h));
}

proof fn lemma_headers_read_back(
    s: Seq<u8>,
    pos: int,
    start: int,
    limits: Limits,
    acc: Seq<(Seq<u8>, Seq<u8>)>,
    headers: Seq<(Seq<u8>, Seq<u8>)>,
)
    requires
        holds_at(s, pos, header_lines(headers)),
        headers_wf(headers),
        lines_fit(headers, limits),
        0 <= start <= pos,
        pos - start + header_lines(headers).len() <= limits.max_header_block,
    ensures
        header_block(s, pos, start, limits, acc) == header_block(
            s,
            pos + header_lines(headers).len(),
            start,
            limits,
            acc + headers,
        ),
    decreases headers.len(),
{
    if headers.len() == 0 {
        assert(acc + headers =~= acc);
    } else {
        let front = headers.drop_last();
        let last = headers.last();
        lemma_holds_at_split(s, pos, header_lines(front), header_line(last));
        assert forall|i: int| 0 <= i < front.len() implies header_wf(#[trigger] front[i]) by {
            assert(front[i] == headers[i]);
        }
        assert forall|i: int| 0 <= i < front.len() implies header_line(#[trigger] front[i]).len()
            <= limits.max_line by {
            assert(front[i] == headers[i]);
        }
        lemma_headers_read_back(s, pos, start, limits, acc, front);
        let p = pos + header_lines(front).len();
        assert(header_wf(last));
        assert(header_line(last).len() <= limits.max_line);
        lemma_header_line_read_back(s, p, start, limits, last);
        assert((acc + front).push((last.0, last.1)) =~= acc + headers);
    }
}

/// Reading a message whose start line and first headers were written well
/// arrives behind them with exactly these headers.
pub proof fn lemma_lines_read_back(
    s: Seq<u8>,
    eof: bool,
    limits: Limits,
    start_line: StartLineView,
    headers: Seq<(Seq<u8>, Seq<u8>)>,
)
    requires
        holds_at(s, 0, start_line_bytes(start_line) + header_lines(headers)),
        start_line_wf(start_line),
        headers_wf(headers),
        start_line_bytes(start_line).len() <= limits.max_line,
        lines_fit(headers, limits),
        header_lines(headers).len() <= limits.max_header_block,
    ensures
        parse_message(s, eof, kind_of(start_line), limits) == from_headers(
            s,
            eof,
            kind_of(start_line),
            limits,
            start_line,
            (start_line_bytes(start_line).len() + header_lines(headers).len()) as int,
            start_line_bytes(start_line).len() as int,
            headers,
        ),
{
    let first = start_line_bytes(start_line);
    let text = start_line_text(start_line);
    let none = Seq::<(Seq<u8>, Seq<u8>)>::empty();
    lemma_holds_at_split(s, 0, first, header_lines(headers));
    lemma_start_line_round_trip(start_line);
    lemma_line_found(s, 0, text, limits.max_line as int);
    lemma_headers_read_back(s, first.len() as int, first.len() as int, limits, none, headers);
    assert(none + headers =~= headers);
}

/// Reading a message whose head was written well arrives at its body with
/// the start line and the headers as they were.
pub proof fn lemma_head_read_back(
    s: Seq<u8>,
    eof: bool,
    limits: Limits,
    start_line: StartLineView,
    headers: Seq<(Seq<u8>, Seq<u8>)>,
)
    requires
        holds_at(s, 0, head_bytes(start_line, headers)),
        start_line_wf(start_line),
        headers_wf(headers),
        start_line_bytes(start_line).len() <= limits.max_line,
        lines_fit(headers, limits),
        header_lines(headers).len() + 2 <= limits.max_header_block,
    ensures
        parse_message(s, eof, kind_of(start_line), limits) == (match body_framing_of(
            headers,
            kind_of(start_line),
        ) {
            Err(e) => Outcome::Failed(e),
            Ok(framing) => from_body(
                s,
                eof,
                limits,
                start_line,
                headers,
                framing,
                head_bytes(start_line, headers).len() as int,
            ),
        }),
{
    let lines = start_line_bytes(start_line) + header_lines(headers);
    let start = start_line_bytes(start_line).len() as int;
    let p = lines.len() as int;
    lemma_holds_at_split(s, 0, lines, seq![CR, LF]);
    lemma_lines_read_back(s, eof, limits, start_line, headers);
    assert(Seq::<u8>::empty() + seq![CR, LF] =~= seq![CR, LF]);
    lemma_line_found(s, p, Seq::<u8>::empty(), line_budget(limits, start, p));
    assert(header_step(s, p, start, limits) == HeaderStepView::End { next: p + 2 });
}

/// Round trip: a well-formed message whose framing is the one that its
/// headers prescribe, written with a body of the declared length, is read
/// back as the same start line, the same headers in the same order and the
/// same body bytes, and takes every byte that was written. The limits must
/// leave room for it, and a body that runs until the input ends is complete
/// only once the input has ended.
pub proof fn lemma_round_trip(
    start_line: StartLineView,
    headers: Seq<(Seq<u8>, Seq<u8>)>,
    framing: BodyFraming,
    fragments: Seq<Seq<u8>>,
    limits: Limits,
    eof: bool,
)
    requires
        start_line_wf(start_line),
        headers_wf(headers),
        body_framing_of(headers, kind_of(start_line)) == Ok::<BodyFraming, CodecError>(framing),
        message_bytes(start_line, headers, framing, fragments) is Ok,
        fragments_fit(fragments),
        limits_admit(start_line, headers, framing, limits),
        eof || !(framing is UntilClose),
    ensures
        parse_message(
            message_bytes(start_line, headers, framing, fragments).unwrap(),
            eof,
            kind_of(start_line),
            limits,
        ) == (Outcome::Complete {
            message: ParsedView {
                start_line,
                headers,
                body: decoded_body(framing, fragments),
                trailers: Seq::<(Seq<u8>, Seq<u8>)>::empty(),
            },
            consumed: message_bytes(start_line, headers, framing, fragments).unwrap().len() as int,
        }),
{
    let head = head_bytes(start_line, headers);
    let body = body_bytes(framing, fragments).unwrap();
    let s = head + body;
    let p = head.len() as int;
    lemma_holds_at_front(head, body);
    lemma_head_read_back(s, eof, limits, start_line, headers);
    assert(s.subrange(p, s.len() as int) =~= body);
    match framing {
        BodyFraming::Chunked => {
            assert(holds_at(s, p, chunked_encoding(fragments)));
            lemma_chunked_round_trip(s, p, limits, Seq::<u8>::empty(), fragments);
            assert(Seq::<u8>::empty() + joined(fragments) =~= joined(fragments));
        },
        _ => {},
    }
}

/// Truncation: a message with a body of a declared length that is cut
/// anywhere inside the body is rejected with `UnexpectedEof` once the input
/// has ended, and waits for more bytes before that. It is never accepted
/// with a shorter body.
pub proof fn lemma_short_body_is_rejected(
    start_line: StartLineView,
    headers: Seq<(Seq<u8>, Seq<u8>)>,
    n: u64,
    body: Seq<u8>,
    limits: Limits,
)
    requires
        start_line_wf(start_line),
        headers_wf(headers),
        body_framing_of(headers, kind_of(start_line)) == Ok::<BodyFraming, CodecError>(
            BodyFraming::Fixed(n),
        ),
        body.len() < n,
        limits_admit(start_line, headers, BodyFraming::Fixed(n), limits),
    ensures
        parse_message(head_bytes(start_line, headers) + body, true, kind_of(start_line), limits)
            == Outcome::Failed(CodecError::UnexpectedEof),
        parse_message(head_bytes(start_line, headers) + body, false, kind_of(start_line), limits)
            == Outcome::NeedMore,
{
    let head = head_bytes(start_line, headers);
    let s = head + body;
    lemma_holds_at_front(head, body);
    lemma_head_read_back(s, true, limits, start_line, headers);
    lemma_head_read_back(s, false, limits, start_line, headers);
}

/// Line-length bound: an input whose first line is longer than the line
/// limit is rejected with `MessageTooLarge`, whatever the line holds.
pub proof fn lemma_long_start_line_is_rejected(
    s: Seq<u8>,
    eof: bool,
    kind: MessageKind,
    limits: Limits,
)
    requires
        line_too_long(s, 0, limits.max_line as int),
    ensures
        parse_message(s, eof, kind, limits) == Outcome::Failed(CodecError::MessageTooLarge),
{
}

/// Line-length bound: an input with a header line that is longer than the
/// line limit, behind a start line and headers that are in order, is
/// rejected with `MessageTooLarge`, whatever the line holds.
pub proof fn lemma_long_header_line_is_rejected(
    s: Seq<u8>,
    eof: bool,
    limits: Limits,
    start_line: StartLineView,
    headers: Seq<(Seq<u8>, Seq<u8>)>,
)
    requires
        holds_at(s, 0, start_line_bytes(start_line) + header_lines(headers)),
        start_line_wf(start_line),
        headers_wf(headers),
        start_line_bytes(start_line).len() <= limits.max_line,
        lines_fit(headers, limits),
        header_lines(headers).len() <= limits.max_header_block,
        line_too_long(
            s,
            (start_line_bytes(start_line).len() + header_lines(headers).len()) as int,
            limits.max_line as int,
        ),
    ensures
        parse_message(s, eof, kind_of(start_line), limits) == Outcome::Failed(
            CodecError::MessageTooLarge,
        ),
{
    lemma_lines_read_back(s, eof, limits, start_line, headers);
}

/// A header block that outgrows the block limit is rejected with
/// `MessageTooLarge` as well: the line that crosses the limit is too long
/// for what is left of it.
pub proof fn lemma_long_block_is_rejected(
    s: Seq<u8>,
    pos: int,
    start: int,
    limits: Limits,
    acc: Seq<(Seq<u8>, Seq<u8>)>,
)
    requires
        0 <= start <= pos,
        line_too_long(s, pos, line_budget(limits, start, pos)),
    ensures
        header_block(s, pos, start, limits, acc) == BlockParse::Failed(
            CodecError::MessageTooLarge,
        ),
{
}

proof fn lemma_joined_one(whole: Seq<u8>)
    ensures
        joined(seq![whole]) == whole,
{
    let one = seq![whole];
    assert(one.drop_last() =~= Seq::<Seq<u8>>::empty());
    assert(joined(one.drop_last()) =~= Seq::<u8>::empty());
    assert(joined(one) =~= whole);
}

/// However the input is cut, a decoder accepts an initial part of it, the
/// whole of it while the message lacks bytes, and reads what it accepted as
/// it would read the whole.
pub proof fn lemma_accepted_after(chunks: Seq<Seq<u8>>, kind: MessageKind, limits: Limits)
    ensures
        is_prefix(accepted_after(chunks, kind, limits), joined(chunks)),
        parse_message(accepted_after(chunks, kind, limits), false, kind, limits) is NeedMore
            ==> accepted_after(chunks, kind, limits) == joined(chunks),
        parse_message(accepted_after(chunks, kind, limits), false, kind, limits) == parse_message(
            joined(chunks),
            false,
            kind,
            limits,
        ),
    decreases chunks.len(),
{
    if chunks.len() > 0 {
        let front = chunks.drop_last();
        let before = accepted_after(front, kind, limits);
        lemma_accepted_after(front, kind, limits);
        lemma_is_prefix_concat(joined(front), chunks.last());
        if !(parse_message(before, false, kind, limits) is NeedMore) {
            lemma_is_prefix_transitive(before, joined(front), joined(chunks));
            lemma_parse_extend(joined(front), joined(chunks), false, kind, limits);
        }
    }
}

/// The pieces do not matter: a decoder that is fed the input in any number
/// of chunks of any sizes, one byte at a time included, reports what a
/// decoder reports that is fed the whole input in one call; and so it does
/// when both are told of the end of the input afterwards.
pub proof fn lemma_pieces_do_not_matter(
    chunks: Seq<Seq<u8>>,
    finished: bool,
    kind: MessageKind,
    limits: Limits,
)
    ensures
        reported(accepted_after(chunks, kind, limits), finished, kind, limits) == reported(
            accepted_after(seq![joined(chunks)], kind, limits),
            finished,
            kind,
            limits,
        ),
        reported(accepted_after(chunks, kind, limits), finished, kind, limits) == reported(
            joined(chunks),
            finished,
            kind,
            limits,
        ),
{
    let whole = joined(chunks);
    lemma_joined_one(whole);
    lemma_accepted_after(chunks, kind, limits);
    lemma_accepted_after(seq![whole], kind, limits);
}

} // verus!
