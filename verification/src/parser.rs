//! The incremental decoder: a state machine that is fed bytes in pieces of
//! any size and yields a message, a request for more input, or an error.
use crate::ascii::{
    append_bytes, copy_range, is_prefix, lemma_is_prefix_concat, lemma_is_prefix_transitive,
    lemma_prefix_subrange,
};
use crate::chunked::{
    chunk_step, chunked_body, fragment_views, joined, lemma_chunk_step_bounds,
    lemma_chunk_step_extend, read_chunk, ChunkStep,
};
use crate::error::CodecError;
use crate::framing::{body_framing, BodyFraming};
use crate::grammar::{
    from_body, from_chunks, from_headers, from_trailers, lemma_parse_extend, parse_message,
    Outcome, ParsedView,
};
use crate::header::{
    header_block, header_step, lemma_header_block_extend, lemma_header_step_bounds,
    lemma_header_step_extend, read_header_line, BlockParse, HeaderMap, HeaderStep,
};
use crate::lines::{
    crlf_at, lemma_find_crlf_first, lemma_line_scan_extend, line_scan, scan_line, Limits,
    LineScan, Scanned,
};
use crate::message::{body_view, HTTPMessage};
use crate::start_line::{
    read_start_line, version_in, version_text, MessageKind, StartLine, StartLineView,
};
use crate::theorems::{accepted_after, lemma_accepted_after};
use vstd::prelude::*;

verus! {

/// Where the decoder stands in a message.
#[derive(Clone, Copy, Debug, PartialEq, Eq, Structural)]
pub enum ParserState {
    /// The first line is not complete yet.
    AwaitingStartLine,
    /// The start line is read; the header block is not complete yet.
    AwaitingHeaders,
    /// The headers are read and the framing is known; the body is not
    /// complete yet.
    AwaitingBody,
    /// A whole message is decoded.
    Complete,
    /// The input was rejected. This state is never left.
    Failed(CodecError),
}

/// What the decoder reports after each call.
#[derive(Clone, Copy, Debug, PartialEq, Eq, Structural)]
pub enum ParseStatus {
    /// So far so good; the message lacks bytes.
    NeedMore,
    /// A whole message is decoded.
    Complete,
    /// The input was rejected.
    Failed(CodecError),
}

/// The report that stands for an outcome.
pub open spec fn status_of(o: Outcome) -> ParseStatus {
    match o {
        Outcome::NeedMore => ParseStatus::NeedMore,
        Outcome::Complete { .. } => ParseStatus::Complete,
        Outcome::Failed(e) => ParseStatus::Failed(e),
    }
}

/// The state of a decoder that has accepted the bytes `s`: the state that
/// stands for the outcome where there is one, and else the part of the
/// message that lacks bytes.
pub open spec fn phase_of(s: Seq<u8>, eof: bool, kind: MessageKind, limits: Limits) -> ParserState {
    match parse_message(s, eof, kind, limits) {
        Outcome::Complete { .. } => ParserState::Complete,
        Outcome::Failed(e) => ParserState::Failed(e),
        Outcome::NeedMore => match line_scan(s, 0, limits.max_line as int) {
            LineScan::Line(e) => match header_block(
                s,
                e + 2,
                e + 2,
                limits,
                Seq::<(Seq<u8>, Seq<u8>)>::empty(),
            ) {
                BlockParse::Done { .. } => ParserState::AwaitingBody,
                _ => ParserState::AwaitingHeaders,
            },
            _ => ParserState::AwaitingStartLine,
        },
    }
}

/// A decoded message.
#[derive(Debug, PartialEq, Eq)]
pub struct ParsedMessage {
    /// The first line.
    pub start_line: StartLine,
    /// Version, headers and body.
    pub message: HTTPMessage,
    /// The trailers of a chunked body; empty for every other framing.
    pub trailers: HeaderMap,
    /// The number of bytes that the message took.
    pub consumed: usize,
}

impl View for ParsedMessage {
    type V = ParsedView;

    open spec fn view(&self) -> ParsedView {
        ParsedView {
            start_line: self.start_line@,
            headers: self.message.headers@,
            body: body_view(self.message.body),
            trailers: self.trailers@,
        }
    }
}

/// The incremental decoder of one message. It keeps every byte that it has
/// accepted and remembers how far it has read, so a call that brings less
/// than a line or a chunk costs no more than looking at that piece again.
#[derive(Debug)]
pub struct MessageParser {
    kind: MessageKind,
    limits: Limits,
    buf: Vec<u8>,
    eof: bool,
    state: ParserState,
    pos: usize,
    headers_start: usize,
    block_start: usize,
    start_line: Option<StartLine>,
    headers: HeaderMap,
    framing: BodyFraming,
    body_start: usize,
    in_trailers: bool,
    has_body: bool,
    body: Vec<u8>,
    trailers: HeaderMap,
    consumed: usize,
}

impl MessageParser {
    /// Every byte that the decoder has accepted, in order.
    pub closed spec fn accepted(&self) -> Seq<u8> {
        self.buf@
    }

    /// Whether the decoder was told that the input has ended.
    pub closed spec fn ended(&self) -> bool {
        self.eof
    }

    /// The kind of message that the decoder reads.
    pub closed spec fn message_kind(&self) -> MessageKind {
        self.kind
    }

    /// The limits that the decoder enforces.
    pub closed spec fn configured_limits(&self) -> Limits {
        self.limits
    }

    /// What the decoder has arrived at.
    pub closed spec fn outcome(&self) -> Outcome {
        match self.state {
            ParserState::Complete => Outcome::Complete {
                message: self.parsed_view(),
                consumed: self.consumed as int,
            },
            ParserState::Failed(e) => Outcome::Failed(e),
            _ => Outcome::NeedMore,
        }
    }

    /// The state that the decoder is in.
    pub closed spec fn current_state(&self) -> ParserState {
        self.state
    }

    spec fn start_view(&self) -> StartLineView {
        self.start_line.unwrap()@
    }

    spec fn parsed_view(&self) -> ParsedView {
        ParsedView {
            start_line: self.start_view(),
            headers: self.headers@,
            body: if self.has_body {
                Some(self.body@)
            } else {
                None
            },
            trailers: self.trailers@,
        }
    }

    /// The meaning of the input `t`, which begins with the accepted bytes,
    /// told from what the decoder has read so far.
    spec fn resume(&self, t: Seq<u8>, e: bool) -> Outcome {
        match self.state {
            ParserState::AwaitingStartLine => parse_message(t, e, self.kind, self.limits),
            ParserState::AwaitingHeaders => from_headers(
                t,
                e,
                self.kind,
                self.limits,
                self.start_view(),
                self.pos as int,
                self.block_start as int,
                self.headers@,
            ),
            ParserState::AwaitingBody => match self.framing {
                BodyFraming::Chunked => if self.in_trailers {
                    from_trailers(
                        t,
                        e,
                        self.limits,
                        self.start_view(),
                        self.headers@,
                        self.body@,
                        self.pos as int,
                        self.block_start as int,
                        self.trailers@,
                    )
                } else {
                    from_chunks(
                        t,
                        e,
                        self.limits,
                        self.start_view(),
                        self.headers@,
                        self.pos as int,
                        self.body@,
                    )
                },
                framing => from_body(
                    t,
                    e,
                    self.limits,
                    self.start_view(),
                    self.headers@,
                    framing,
                    self.body_start as int,
                ),
            },
            ParserState::Complete => Outcome::Complete {
                message: self.parsed_view(),
                consumed: self.consumed as int,
            },
            ParserState::Failed(err) => Outcome::Failed(err),
        }
    }

    /// Reading on from the remembered position gives the meaning of the
    /// whole input, whatever bytes may still follow.
    spec fn sound(&self) -> bool {
        forall|t: Seq<u8>, e: bool|
            is_prefix(self.buf@, t) && (self.eof ==> t == self.buf@ && e) ==> #[trigger] parse_message(
                t,
                e,
                self.kind,
                self.limits,
            ) == self.resume(t, e)
    }

    /// The start line ends where the header block begins.
    spec fn head_found(&self) -> bool {
        &&& 2 <= self.headers_start <= self.buf@.len()
        &&& line_scan(self.buf@, 0, self.limits.max_line as int) == LineScan::Line(
            self.headers_start - 2,
        )
    }

    /// Reading the header block on from the remembered position gives the
    /// meaning of the whole block, whatever bytes may still follow.
    spec fn headers_sound(&self) -> bool {
        &&& self.block_start == self.headers_start
        &&& forall|t: Seq<u8>|
            is_prefix(self.buf@, t) ==> #[trigger] header_block(
                t,
                self.headers_start as int,
                self.headers_start as int,
                self.limits,
                Seq::<(Seq<u8>, Seq<u8>)>::empty(),
            ) == header_block(
                t,
                self.pos as int,
                self.headers_start as int,
                self.limits,
                self.headers@,
            )
    }

    /// The header block is complete.
    spec fn headers_done(&self) -> bool {
        header_block(
            self.buf@,
            self.headers_start as int,
            self.headers_start as int,
            self.limits,
            Seq::<(Seq<u8>, Seq<u8>)>::empty(),
        ) is Done
    }

    spec fn inv(&self) -> bool {
        &&& self.block_start <= self.pos <= self.buf@.len()
        &&& self.body_start <= self.buf@.len()
        &&& self.consumed <= self.buf@.len()
        &&& self.eof ==> self.state is Complete || self.state is Failed
        &&& self.state is AwaitingHeaders || self.state is AwaitingBody || self.state is Complete
            ==> self.start_line is Some
        &&& self.state is AwaitingHeaders || self.state is AwaitingBody ==> self.head_found()
        &&& self.state is AwaitingHeaders ==> self.headers_sound()
        &&& self.state is AwaitingBody ==> self.headers_done()
        &&& self.sound()
    }

    /// Nothing more can be read without more input.
    spec fn settled(&self) -> bool {
        match self.state {
            ParserState::AwaitingStartLine => line_scan(self.buf@, 0, self.limits.max_line as int)
                is Incomplete,
            ParserState::AwaitingHeaders => header_step(
                self.buf@,
                self.pos as int,
                self.block_start as int,
                self.limits,
            ) is NeedMore,
            ParserState::AwaitingBody => match self.framing {
                BodyFraming::NoBody => false,
                BodyFraming::Fixed(n) => self.buf@.len() - self.body_start < n,
                BodyFraming::UntilClose => true,
                BodyFraming::Chunked => if self.in_trailers {
                    header_step(self.buf@, self.pos as int, self.block_start as int, self.limits)
                        is NeedMore
                } else {
                    chunk_step(self.buf@, self.pos as int, self.limits) is NeedMore
                },
            },
            _ => true,
        }
    }

    /// The decoder is consistent: what it remembers agrees with the bytes
    /// that it has accepted, and it has read as far as they go.
    pub closed spec fn wf(&self) -> bool {
        self.inv() && self.settled()
    }

    spec fn rank(&self) -> int {
        match self.state {
            ParserState::AwaitingStartLine => 4,
            ParserState::AwaitingHeaders => 3,
            ParserState::AwaitingBody => if self.framing is Chunked && self.in_trailers {
                1
            } else {
                2
            },
            _ => 0,
        }
    }

    spec fn progressed_from(&self, before: &MessageParser) -> bool {
        self.rank() < before.rank() || (self.rank() == before.rank() && self.pos > before.pos)
    }

    spec fn same_input_as(&self, before: &MessageParser) -> bool {
        &&& self.buf@ == before.buf@
        &&& self.kind == before.kind
        &&& self.limits == before.limits
        &&& self.eof == before.eof
    }

    /// A consistent decoder reports the meaning of the accepted bytes.
    pub proof fn lemma_outcome(&self)
        requires
            self.wf(),
        ensures
            self.outcome() == parse_message(
                self.accepted(),
                self.ended(),
                self.message_kind(),
                self.configured_limits(),
            ),
            status_of(self.outcome()) is NeedMore <==> (self.current_state() is AwaitingStartLine
                || self.current_state() is AwaitingHeaders || self.current_state()
                is AwaitingBody),
            self.ended() ==> !(self.outcome() is NeedMore),
            self.current_state() == phase_of(
                self.accepted(),
                self.ended(),
                self.message_kind(),
                self.configured_limits(),
            ),
    {
        assert(is_prefix(self.buf@, self.buf@));
        assert(parse_message(self.buf@, self.eof, self.kind, self.limits) == self.resume(
            self.buf@,
            self.eof,
        ));
    }

    /// A decoder for one message of the kind given, under the limits given.
    pub fn new(kind: MessageKind, limits: Limits) -> (r: MessageParser)
        ensures
            r.wf(),
            r.accepted() == Seq::<u8>::empty(),
            !r.ended(),
            r.message_kind() == kind,
            r.configured_limits() == limits,
            r.outcome() == parse_message(Seq::<u8>::empty(), false, kind, limits),
    {
        let mut r = MessageParser {
            kind,
            limits,
            buf: Vec::new(),
            eof: false,
            state: ParserState::AwaitingStartLine,
            pos: 0,
            headers_start: 0,
            block_start: 0,
            start_line: None,
            headers: HeaderMap::new(),
            framing: BodyFraming::NoBody,
            body_start: 0,
            in_trailers: false,
            has_body: false,
            body: Vec::new(),
            trailers: HeaderMap::new(),
            consumed: 0,
        };
        r.advance();
        proof {
            r.lemma_outcome();
        }
        r
    }

    /// The state that the decoder is in.
    pub fn state(&self) -> (r: ParserState)
        requires
            self.wf(),
        ensures
            r == self.current_state(),
            r == phase_of(
                self.accepted(),
                self.ended(),
                self.message_kind(),
                self.configured_limits(),
            ),
    {
        proof {
            self.lemma_outcome();
        }
        self.state
    }

    /// The report that the last call gave.
    pub fn status(&self) -> (r: ParseStatus)
        ensures
            r == status_of(self.outcome()),
    {
        match self.state {
            ParserState::Complete => ParseStatus::Complete,
            ParserState::Failed(e) => ParseStatus::Failed(e),
            _ => ParseStatus::NeedMore,
        }
    }

    /// Hands the decoder the next bytes of the input. While the message
    /// lacks bytes the decoder accepts them and reads as far as they go;
    /// once it has a whole message or has failed it accepts nothing more and
    /// repeats its report.
    pub fn feed(&mut self, chunk: &[u8]) -> (status: ParseStatus)
        requires
            old(self).wf(),
        ensures
            final(self).wf(),
            final(self).message_kind() == old(self).message_kind(),
            final(self).configured_limits() == old(self).configured_limits(),
            final(self).ended() == old(self).ended(),
            final(self).accepted() == if old(self).outcome() is NeedMore {
                old(self).accepted() + chunk@
            } else {
                old(self).accepted()
            },
            final(self).outcome() == parse_message(
                final(self).accepted(),
                final(self).ended(),
                final(self).message_kind(),
                final(self).configured_limits(),
            ),
            status == status_of(final(self).outcome()),
    {
        proof {
            self.lemma_outcome();
        }
        match self.state {
            ParserState::Complete => {
                return ParseStatus::Complete;
            },
            ParserState::Failed(e) => {
                return ParseStatus::Failed(e);
            },
            _ => {},
        }
        append_bytes(&mut self.buf, chunk);
        proof {
            lemma_is_prefix_concat(old(self).buf@, chunk@);
            assert forall|t: Seq<u8>, e: bool| is_prefix(self.buf@, t) implies #[trigger] parse_message(
                t,
                e,
                self.kind,
                self.limits,
            ) == self.resume(t, e) by {
                lemma_is_prefix_transitive(old(self).buf@, self.buf@, t);
                assert(self.resume(t, e) == old(self).resume(t, e));
            }
            let none = Seq::<(Seq<u8>, Seq<u8>)>::empty();
            let hs = self.headers_start as int;
            if self.state is AwaitingHeaders || self.state is AwaitingBody {
                lemma_line_scan_extend(old(self).buf@, self.buf@, 0, self.limits.max_line as int);
            }
            if self.state is AwaitingHeaders {
                assert forall|t: Seq<u8>| is_prefix(self.buf@, t) implies #[trigger] header_block(
                    t,
                    hs,
                    hs,
                    self.limits,
                    none,
                ) == header_block(t, self.pos as int, hs, self.limits, self.headers@) by {
                    lemma_is_prefix_transitive(old(self).buf@, self.buf@, t);
                }
            }
            if self.state is AwaitingBody {
                lemma_header_block_extend(old(self).buf@, self.buf@, hs, hs, self.limits, none);
            }
        }
        self.advance();
        proof {
            self.lemma_outcome();
        }
        self.status()
    }

    /// Tells the decoder that the input has ended. A decoder that was
    /// waiting for bytes now decides: a body that runs until the input ends
    /// is complete, and anything else that lacks bytes is rejected, with
    /// `MalformedStartLine` or `MalformedHeader` in front of the body and
    /// `UnexpectedEof` inside it. A decoder that had decided stays as it is.
    pub fn finish(&mut self) -> (status: ParseStatus)
        requires
            old(self).wf(),
        ensures
            final(self).wf(),
            final(self).message_kind() == old(self).message_kind(),
            final(self).configured_limits() == old(self).configured_limits(),
            final(self).accepted() == old(self).accepted(),
            final(self).ended() == (old(self).ended() || old(self).outcome() is NeedMore),
            final(self).outcome() == parse_message(
                final(self).accepted(),
                final(self).ended(),
                final(self).message_kind(),
                final(self).configured_limits(),
            ),
            !(final(self).outcome() is NeedMore),
            status == status_of(final(self).outcome()),
    {
        proof {
            self.lemma_outcome();
            assert(is_prefix(self.buf@, self.buf@));
            assert(parse_message(self.buf@, true, self.kind, self.limits) == self.resume(
                self.buf@,
                true,
            ));
        }
        match self.state {
            ParserState::Complete => {
                return ParseStatus::Complete;
            },
            ParserState::Failed(e) => {
                return ParseStatus::Failed(e);
            },
            ParserState::AwaitingStartLine => {
                self.state = ParserState::Failed(CodecError::MalformedStartLine);
            },
            ParserState::AwaitingHeaders => {
                self.state = ParserState::Failed(CodecError::MalformedHeader);
            },
            ParserState::AwaitingBody => {
                match self.framing {
                    BodyFraming::UntilClose => {
                        let end: usize = self.buf.len();
                        self.body = copy_range(self.buf.as_slice(), self.body_start, end);
                        self.has_body = true;
                        self.trailers = HeaderMap::new();
                        self.consumed = end;
                        self.state = ParserState::Complete;
                    },
                    _ => {
                        self.state = ParserState::Failed(CodecError::UnexpectedEof);
                    },
                }
            },
        }
        self.eof = true;
        proof {
            assert(self.sound());
            self.lemma_outcome();
        }
        self.status()
    }

    /// The decoded message, once there is one.
    pub fn into_message(self) -> (r: Option<ParsedMessage>)
        requires
            self.wf(),
        ensures
            match self.outcome() {
                Outcome::Complete { message, consumed } => r matches Some(m) && m@ == message
                    && m.consumed == consumed && m.message@.http_version == version_text(
                    version_in(message.start_line),
                ),
                _ => r is None,
            },
    {
        match self.state {
            ParserState::Complete => {},
            _ => {
                return None;
            },
        }
        let MessageParser { start_line, headers, has_body, body, trailers, consumed, .. } = self;
        let start_line = start_line.unwrap();
        let mut message = HTTPMessage::new(start_line.version().as_str().to_owned(), headers);
        if has_body {
            message.body = Some(body);
        }
        Some(ParsedMessage { start_line, message, trailers, consumed })
    }

    /// Reads as far as the accepted bytes go.
    fn advance(&mut self)
        requires
            old(self).inv(),
            !old(self).eof,
        ensures
            final(self).wf(),
            final(self).same_input_as(old(self)),
    {
        loop
            invariant
                self.inv(),
                self.same_input_as(old(self)),
                !self.eof,
            ensures
                self.settled(),
            decreases self.rank(), self.buf@.len() - self.pos,
        {
            let progressed = self.step();
            if !progressed {
                break ;
            }
        }
    }

    /// Reads one line or one chunk, if it is complete.
    fn step(&mut self) -> (progressed: bool)
        requires
            old(self).inv(),
            !old(self).eof,
        ensures
            final(self).inv(),
            final(self).same_input_as(old(self)),
            progressed ==> final(self).progressed_from(old(self)),
            !progressed ==> final(self).settled() && *final(self) == *old(self),
    {
        match self.state {
            ParserState::AwaitingStartLine => self.step_start_line(),
            ParserState::AwaitingHeaders => self.step_header(),
            ParserState::AwaitingBody => match self.framing {
                BodyFraming::Chunked => if self.in_trailers {
                    self.step_trailer()
                } else {
                    self.step_chunk()
                },
                _ => self.step_body(),
            },
            _ => false,
        }
    }

    fn step_start_line(&mut self) -> (progressed: bool)
        requires
            old(self).inv(),
            !old(self).eof,
            old(self).state is AwaitingStartLine,
        ensures
            final(self).inv(),
            final(self).same_input_as(old(self)),
            progressed ==> final(self).progressed_from(old(self)),
            !progressed ==> final(self).settled() && *final(self) == *old(self),
    {
        let ghost s = self.buf@;
        let ghost max = self.limits.max_line as int;
        proof {
            lemma_find_crlf_first(s, 0);
        }
        match scan_line(self.buf.as_slice(), 0, self.limits.max_line) {
            Scanned::Incomplete => false,
            Scanned::TooLong => {
                self.state = ParserState::Failed(CodecError::MessageTooLarge);
                proof {
                    assert forall|t: Seq<u8>, e: bool| is_prefix(s, t) implies #[trigger] parse_message(
                        t,
                        e,
                        self.kind,
                        self.limits,
                    ) == self.resume(t, e) by {
                        lemma_line_scan_extend(s, t, 0, max);
                    }
                }
                true
            },
            Scanned::Line(end) => {
                assert(crlf_at(s, end as int));
                let line = vstd::slice::slice_subrange(self.buf.as_slice(), 0, end);
                match read_start_line(line, self.kind) {
                    None => {
                        self.state = ParserState::Failed(CodecError::MalformedStartLine);
                        proof {
                            assert forall|t: Seq<u8>, e: bool| is_prefix(
                                s,
                                t,
                            ) implies #[trigger] parse_message(t, e, self.kind, self.limits)
                                == self.resume(t, e) by {
                                lemma_line_scan_extend(s, t, 0, max);
                                lemma_prefix_subrange(s, t, 0, end as int);
                            }
                        }
                    },
                    Some(start_line) => {
                        self.start_line = Some(start_line);
                        self.headers = HeaderMap::new();
                        self.pos = end + 2;
                        self.headers_start = end + 2;
                        self.block_start = end + 2;
                        self.state = ParserState::AwaitingHeaders;
                        proof {
                            assert forall|t: Seq<u8>, e: bool| is_prefix(
                                s,
                                t,
                            ) implies #[trigger] parse_message(t, e, self.kind, self.limits)
                                == self.resume(t, e) by {
                                lemma_line_scan_extend(s, t, 0, max);
                                lemma_prefix_subrange(s, t, 0, end as int);
                            }
                        }
                    },
                }
                true
            },
        }
    }

    fn step_header(&mut self) -> (progressed: bool)
        requires
            old(self).inv(),
            !old(self).eof,
            old(self).state is AwaitingHeaders,
        ensures
            final(self).inv(),
            final(self).same_input_as(old(self)),
            progressed ==> final(self).progressed_from(old(self)),
            !progressed ==> final(self).settled() && *final(self) == *old(self),
    {
        let ghost s = self.buf@;
        let ghost pos = self.pos as int;
        let ghost start = self.block_start as int;
        let ghost acc = self.headers@;
        proof {
            lemma_header_step_bounds(s, pos, start, self.limits);
        }
        match read_header_line(self.buf.as_slice(), self.pos, self.block_start, &self.limits) {
            HeaderStep::NeedMore => false,
            HeaderStep::Failed(err) => {
                self.state = ParserState::Failed(err);
                proof {
                    assert forall|t: Seq<u8>, e: bool| is_prefix(s, t) implies #[trigger] parse_message(
                        t,
                        e,
                        self.kind,
                        self.limits,
                    ) == self.resume(t, e) by {
                        lemma_header_step_extend(s, t, pos, start, self.limits);
                        assert(parse_message(t, e, self.kind, self.limits) == old(self).resume(t, e));
                    }
                }
                true
            },
            HeaderStep::Field(field, next) => {
                self.headers.append(field);
                self.pos = next;
                proof {
                    assert forall|t: Seq<u8>, e: bool| is_prefix(s, t) implies #[trigger] parse_message(
                        t,
                        e,
                        self.kind,
                        self.limits,
                    ) == self.resume(t, e) by {
                        lemma_header_step_extend(s, t, pos, start, self.limits);
                        assert(parse_message(t, e, self.kind, self.limits) == old(self).resume(t, e));
                        assert(header_block(t, pos, start, self.limits, acc) == header_block(
                            t,
                            next as int,
                            start,
                            self.limits,
                            self.headers@,
                        ));
                    }
                    assert forall|t: Seq<u8>| is_prefix(s, t) implies #[trigger] header_block(
                        t,
                        start,
                        start,
                        self.limits,
                        Seq::<(Seq<u8>, Seq<u8>)>::empty(),
                    ) == header_block(t, next as int, start, self.limits, self.headers@) by {
                        lemma_header_step_extend(s, t, pos, start, self.limits);
                        assert(header_block(t, pos, start, self.limits, acc) == header_block(
                            t,
                            next as int,
                            start,
                            self.limits,
                            self.headers@,
                        ));
                    }
                }
                true
            },
            HeaderStep::End(next) => {
                proof {
                    assert(is_prefix(s, s));
                    assert(header_block(
                        s,
                        start,
                        start,
                        self.limits,
                        Seq::<(Seq<u8>, Seq<u8>)>::empty(),
                    ) == header_block(s, pos, start, self.limits, acc));
                }
                match body_framing(&self.headers, self.kind) {
                    Err(err) => {
                        self.state = ParserState::Failed(err);
                    },
                    Ok(framing) => {
                        self.framing = framing;
                        self.body_start = next;
                        self.pos = next;
                        self.block_start = next;
                        self.in_trailers = false;
                        self.body = Vec::new();
                        self.state = ParserState::AwaitingBody;
                    },
                }
                proof {
                    assert forall|t: Seq<u8>, e: bool| is_prefix(s, t) implies #[trigger] parse_message(
                        t,
                        e,
                        self.kind,
                        self.limits,
                    ) == self.resume(t, e) by {
                        lemma_header_step_extend(s, t, pos, start, self.limits);
                        assert(parse_message(t, e, self.kind, self.limits) == old(self).resume(t, e));
                    }
                }
                true
            },
        }
    }

    fn step_body(&mut self) -> (progressed: bool)
        requires
            old(self).inv(),
            !old(self).eof,
            old(self).state is AwaitingBody,
            !(old(self).framing is Chunked),
        ensures
            final(self).inv(),
            final(self).same_input_as(old(self)),
            progressed ==> final(self).progressed_from(old(self)),
            !progressed ==> final(self).settled() && *final(self) == *old(self),
    {
        let ghost s = self.buf@;
        match self.framing {
            BodyFraming::NoBody => {
                self.has_body = false;
                self.trailers = HeaderMap::new();
                self.consumed = self.body_start;
                self.state = ParserState::Complete;
                proof {
                    assert forall|t: Seq<u8>, e: bool| is_prefix(s, t) implies #[trigger] parse_message(
                        t,
                        e,
                        self.kind,
                        self.limits,
                    ) == self.resume(t, e) by {
                        assert(parse_message(t, e, self.kind, self.limits) == old(self).resume(t, e));
                    }
                }
                true
            },
            BodyFraming::Fixed(n) => {
                let avail: usize = self.buf.len() - self.body_start;
                if avail as u64 >= n {
                    let end: usize = self.body_start + n as usize;
                    self.body = copy_range(self.buf.as_slice(), self.body_start, end);
                    self.has_body = true;
                    self.trailers = HeaderMap::new();
                    self.consumed = end;
                    self.state = ParserState::Complete;
                    proof {
                        assert forall|t: Seq<u8>, e: bool| is_prefix(
                            s,
                            t,
                        ) implies #[trigger] parse_message(t, e, self.kind, self.limits)
                            == self.resume(t, e) by {
                            lemma_prefix_subrange(s, t, self.body_start as int, end as int);
                            assert(parse_message(t, e, self.kind, self.limits) == old(self).resume(
                                t,
                                e,
                            ));
                        }
                    }
                    true
                } else {
                    false
                }
            },
            _ => false,
        }
    }

    fn step_chunk(&mut self) -> (progressed: bool)
        requires
            old(self).inv(),
            !old(self).eof,
            old(self).state is AwaitingBody,
            old(self).framing is Chunked,
            !old(self).in_trailers,
        ensures
            final(self).inv(),
            final(self).same_input_as(old(self)),
            progressed ==> final(self).progressed_from(old(self)),
            !progressed ==> final(self).settled() && *final(self) == *old(self),
    {
        let ghost s = self.buf@;
        let ghost pos = self.pos as int;
        let ghost acc = self.body@;
        proof {
            lemma_chunk_step_bounds(s, pos, self.limits);
        }
        match read_chunk(self.buf.as_slice(), self.pos, &self.limits) {
            ChunkStep::NeedMore => false,
            ChunkStep::Failed(err) => {
                self.state = ParserState::Failed(err);
                proof {
                    assert forall|t: Seq<u8>, e: bool| is_prefix(s, t) implies #[trigger] parse_message(
                        t,
                        e,
                        self.kind,
                        self.limits,
                    ) == self.resume(t, e) by {
                        lemma_chunk_step_extend(s, t, pos, self.limits);
                        assert(parse_message(t, e, self.kind, self.limits) == old(self).resume(t, e));
                    }
                }
                true
            },
            ChunkStep::Last(next) => {
                self.in_trailers = true;
                self.trailers = HeaderMap::new();
                self.pos = next;
                self.block_start = next;
                proof {
                    assert forall|t: Seq<u8>, e: bool| is_prefix(s, t) implies #[trigger] parse_message(
                        t,
                        e,
                        self.kind,
                        self.limits,
                    ) == self.resume(t, e) by {
                        lemma_chunk_step_extend(s, t, pos, self.limits);
                        assert(parse_message(t, e, self.kind, self.limits) == old(self).resume(t, e));
                    }
                }
                true
            },
            ChunkStep::Data(from, to, next) => {
                let data = vstd::slice::slice_subrange(self.buf.as_slice(), from, to);
                append_bytes(&mut self.body, data);
                self.pos = next;
                proof {
                    assert forall|t: Seq<u8>, e: bool| is_prefix(s, t) implies #[trigger] parse_message(
                        t,
                        e,
                        self.kind,
                        self.limits,
                    ) == self.resume(t, e) by {
                        lemma_chunk_step_extend(s, t, pos, self.limits);
                        lemma_prefix_subrange(s, t, from as int, to as int);
                        assert(parse_message(t, e, self.kind, self.limits) == old(self).resume(t, e));
                        assert(chunked_body(t, pos, self.limits, acc) == chunked_body(
                            t,
                            next as int,
                            self.limits,
                            self.body@,
                        ));
                    }
                }
                true
            },
        }
    }

    fn step_trailer(&mut self) -> (progressed: bool)
        requires
            old(self).inv(),
            !old(self).eof,
            old(self).state is AwaitingBody,
            old(self).framing is Chunked,
            old(self).in_trailers,
        ensures
            final(self).inv(),
            final(self).same_input_as(old(self)),
            progressed ==> final(self).progressed_from(old(self)),
            !progressed ==> final(self).settled() && *final(self) == *old(self),
    {
        let ghost s = self.buf@;
        let ghost pos = self.pos as int;
        let ghost start = self.block_start as int;
        let ghost acc = self.trailers@;
        proof {
            lemma_header_step_bounds(s, pos, start, self.limits);
        }
        match read_header_line(self.buf.as_slice(), self.pos, self.block_start, &self.limits) {
            HeaderStep::NeedMore => false,
            HeaderStep::Failed(err) => {
                self.state = ParserState::Failed(err);
                proof {
                    assert forall|t: Seq<u8>, e: bool| is_prefix(s, t) implies #[trigger] parse_message(
                        t,
                        e,
                        self.kind,
                        self.limits,
                    ) == self.resume(t, e) by {
                        lemma_header_step_extend(s, t, pos, start, self.limits);
                        assert(parse_message(t, e, self.kind, self.limits) == old(self).resume(t, e));
                    }
                }
                true
            },
            HeaderStep::Field(field, next) => {
                self.trailers.append(field);
                self.pos = next;
                proof {
                    assert forall|t: Seq<u8>, e: bool| is_prefix(s, t) implies #[trigger] parse_message(
                        t,
                        e,
                        self.kind,
                        self.limits,
                    ) == self.resume(t, e) by {
                        lemma_header_step_extend(s, t, pos, start, self.limits);
                        assert(parse_message(t, e, self.kind, self.limits) == old(self).resume(t, e));
                        assert(header_block(t, pos, start, self.limits, acc) == header_block(
                            t,
                            next as int,
                            start,
                            self.limits,
                            self.trailers@,
                        ));
                    }
                }
                true
            },
            HeaderStep::End(next) => {
                self.has_body = true;
                self.consumed = next;
                self.state = ParserState::Complete;
                proof {
                    assert forall|t: Seq<u8>, e: bool| is_prefix(s, t) implies #[trigger] parse_message(
                        t,
                        e,
                        self.kind,
                        self.limits,
                    ) == self.resume(t, e) by {
                        lemma_header_step_extend(s, t, pos, start, self.limits);
                        assert(parse_message(t, e, self.kind, self.limits) == old(self).resume(t, e));
                    }
                }
                true
            },
        }
    }
}

/// Decodes one message from `bytes`, which hold the whole input: a message
/// that lacks bytes is rejected, and bytes behind the message are left
/// alone and not counted as consumed.
pub fn parse(bytes: &[u8], kind: MessageKind, limits: Limits) -> (r: Result<
    ParsedMessage,
    CodecError,
>)
    ensures
        match parse_message(bytes@, true, kind, limits) {
            Outcome::Complete { message, consumed } => r matches Ok(m) && m@ == message
                && m.consumed == consumed && m.message@.http_version == version_text(
                version_in(message.start_line),
            ),
            Outcome::Failed(e) => r matches Err(x) && x == e,
            Outcome::NeedMore => false,
        },
{
    let mut parser = MessageParser::new(kind, limits);
    let ghost fresh = parser.outcome();
    parser.feed(bytes);
    let ghost fed = parser.outcome();
    proof {
        let none = Seq::<u8>::empty();
        assert(none + bytes@ =~= bytes@);
        if !(fresh is NeedMore) {
            assert(is_prefix(none, bytes@));
            lemma_parse_extend(none, bytes@, true, kind, limits);
        } else if !(fed is NeedMore) {
            assert(is_prefix(bytes@, bytes@));
            lemma_parse_extend(bytes@, bytes@, true, kind, limits);
        }
    }
    match parser.finish() {
        ParseStatus::Failed(e) => Err(e),
        _ => match parser.into_message() {
            Some(m) => Ok(m),
            None => Err(CodecError::UnexpectedEof),
        },
    }
}

/// Decodes one message from an input that arrives in pieces, which hold
/// the whole input between them. The result is that of `parse` on the
/// pieces joined: where the input is cut makes no difference.
pub fn parse_pieces(pieces: &[&[u8]], kind: MessageKind, limits: Limits) -> (r: Result<
    ParsedMessage,
    CodecError,
>)
    ensures
        match parse_message(joined(fragment_views(pieces@)), true, kind, limits) {
            Outcome::Complete { message, consumed } => r matches Ok(m) && m@ == message
                && m.consumed == consumed && m.message@.http_version == version_text(
                version_in(message.start_line),
            ),
            Outcome::Failed(e) => r matches Err(x) && x == e,
            Outcome::NeedMore => false,
        },
{
    let ghost all = fragment_views(pieces@);
    let mut parser = MessageParser::new(kind, limits);
    let mut i: usize = 0;
    assert(all.take(0) =~= Seq::<Seq<u8>>::empty());
    while i < pieces.len()
        invariant
            i <= pieces@.len(),
            all == fragment_views(pieces@),
            parser.wf(),
            !parser.ended(),
            parser.message_kind() == kind,
            parser.configured_limits() == limits,
            parser.accepted() == accepted_after(all.take(i as int), kind, limits),
            parser.outcome() == parse_message(parser.accepted(), false, kind, limits),
        decreases pieces@.len() - i,
    {
        proof {
            let next = all.take(i + 1);
            assert(next.drop_last() =~= all.take(i as int));
            assert(next.last() == pieces@[i as int]@);
        }
        parser.feed(pieces[i]);
        i += 1;
    }
    proof {
        assert(all.take(i as int) =~= all);
        lemma_accepted_after(all, kind, limits);
        if !(parser.outcome() is NeedMore) {
            assert(is_prefix(joined(all), joined(all)));
            lemma_parse_extend(joined(all), joined(all), true, kind, limits);
        }
    }
    match parser.finish() {
        ParseStatus::Failed(e) => Err(e),
        _ => match parser.into_message() {
            Some(m) => Ok(m),
            None => Err(CodecError::UnexpectedEof),
        },
    }
}

} // verus!
