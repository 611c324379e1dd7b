//! The first line of a message: a request line or a status line.
use crate::ascii::{
    all_digits, append_bytes, copy_range, decimal_digits, decimal_value, find_byte,
    has_no, index_of, is_digit, is_line_safe, lemma_decimal_digits_round_trip,
    lemma_decimal_value_three, lemma_index_of_is, parse_decimal, to_decimal, CR, LF, SP,
};
use crate::error::CodecError;
use crate::lines::{crlf_at, find_crlf, lemma_find_crlf_first, scan_line, Scanned};
use vstd::prelude::*;

verus! {

/// The protocol versions that are recognized on the wire.
#[derive(Clone, Copy, Debug, PartialEq, Eq, Structural)]
pub enum Version {
    /// `HTTP/1.0`
    Http10,
    /// `HTTP/1.1`
    Http11,
}

/// Which of the two kinds of message is read or written.
#[derive(Clone, Copy, Debug, PartialEq, Eq, Structural)]
pub enum MessageKind {
    Request,
    Response,
}

/// The first line of a message.
#[derive(Debug, PartialEq, Eq)]
pub enum StartLine {
    /// `method SP target SP version`
    Request { method: Vec<u8>, target: Vec<u8>, version: Version },
    /// `version SP status-code SP reason`
    Response { version: Version, status_code: u16, reason: Vec<u8> },
}

/// The model of a start line.
pub enum StartLineView {
    Request { method: Seq<u8>, target: Seq<u8>, version: Version },
    Response { version: Version, status_code: u16, reason: Seq<u8> },
}

impl View for StartLine {
    type V = StartLineView;

    open spec fn view(&self) -> StartLineView {
        match *self {
            StartLine::Request { method, target, version } => StartLineView::Request {
                method: method@,
                target: target@,
                version,
            },
            StartLine::Response { version, status_code, reason } => StartLineView::Response {
                version,
                status_code,
                reason: reason@,
            },
        }
    }
}

impl Clone for StartLine {
    fn clone(&self) -> (r: Self)
        ensures
            r@ == self@,
    {
        match self {
            StartLine::Request { method, target, version } => {
                let m = method.clone();
                let t = target.clone();
                assert(m@ =~= method@ && t@ =~= target@);
                StartLine::Request { method: m, target: t, version: *version }
            },
            StartLine::Response { version, status_code, reason } => {
                let r = reason.clone();
                assert(r@ =~= reason@);
                StartLine::Response { version: *version, status_code: *status_code, reason: r }
            },
        }
    }
}

/// The eight bytes that name a version on the wire.
pub open spec fn version_bytes(v: Version) -> Seq<u8> {
    match v {
        Version::Http10 => seq![72u8, 84u8, 84u8, 80u8, 47u8, 49u8, 46u8, 48u8],
        Version::Http11 => seq![72u8, 84u8, 84u8, 80u8, 47u8, 49u8, 46u8, 49u8],
    }
}

/// The version that `s` names, if it names one.
pub open spec fn version_of(s: Seq<u8>) -> Option<Version> {
    if s == version_bytes(Version::Http10) {
        Some(Version::Http10)
    } else if s == version_bytes(Version::Http11) {
        Some(Version::Http11)
    } else {
        None
    }
}

/// The version as text.
pub open spec fn version_text(v: Version) -> Seq<char> {
    match v {
        Version::Http10 => "HTTP/1.0"@,
        Version::Http11 => "HTTP/1.1"@,
    }
}

/// The request line that `line` denotes, the line taken without its CRLF.
/// The line is cut at its first two spaces; method and target must not be
/// empty and the rest must name a version.
pub open spec fn request_line_of(line: Seq<u8>) -> Option<StartLineView> {
    let sp1 = index_of(line, SP, 0);
    let sp2 = index_of(line, SP, sp1 + 1);
    if 0 < sp1 && sp1 + 1 < sp2 && sp2 < line.len() {
        match version_of(line.subrange(sp2 + 1, line.len() as int)) {
            Some(version) => Some(
                StartLineView::Request {
                    method: line.subrange(0, sp1),
                    target: line.subrange(sp1 + 1, sp2),
                    version,
                },
            ),
            None => None,
        }
    } else {
        None
    }
}

/// The status line that `line` denotes, the line taken without its CRLF: a
/// version, a space, three digits, a space, and the reason phrase, which
/// may be empty.
pub open spec fn status_line_of(line: Seq<u8>) -> Option<StartLineView> {
    let sp1 = index_of(line, SP, 0);
    if sp1 + 5 <= line.len() && all_digits(line.subrange(sp1 + 1, sp1 + 4)) && line[sp1 + 4]
        == SP {
        match version_of(line.subrange(0, sp1)) {
            Some(version) => Some(
                StartLineView::Response {
                    version,
                    status_code: decimal_value(line.subrange(sp1 + 1, sp1 + 4)) as u16,
                    reason: line.subrange(sp1 + 5, line.len() as int),
                },
            ),
            None => None,
        }
    } else {
        None
    }
}

/// The start line that `line` denotes for a message of the kind given.
pub open spec fn start_line_of(line: Seq<u8>, kind: MessageKind) -> Option<StartLineView> {
    match kind {
        MessageKind::Request => request_line_of(line),
        MessageKind::Response => status_line_of(line),
    }
}

/// The kind of message that a start line opens.
pub open spec fn kind_of(sl: StartLineView) -> MessageKind {
    match sl {
        StartLineView::Request { .. } => MessageKind::Request,
        StartLineView::Response { .. } => MessageKind::Response,
    }
}

/// The version that a start line names.
pub open spec fn version_in(sl: StartLineView) -> Version {
    match sl {
        StartLineView::Request { method, target, version } => version,
        StartLineView::Response { version, status_code, reason } => version,
    }
}

/// The text of a start line, without the CRLF.
pub open spec fn start_line_text(sl: StartLineView) -> Seq<u8> {
    match sl {
        StartLineView::Request { method, target, version } => method + seq![SP] + target
            + seq![SP] + version_bytes(version),
        StartLineView::Response { version, status_code, reason } => version_bytes(version)
            + seq![SP] + decimal_digits(status_code as nat) + seq![SP] + reason,
    }
}

/// The bytes written for a start line.
pub open spec fn start_line_bytes(sl: StartLineView) -> Seq<u8> {
    start_line_text(sl) + seq![CR, LF]
}

/// The start lines that are read back as they were written: no field
/// breaks the line, method and target are non-empty and free of spaces, and
/// the status code has three digits.
pub open spec fn start_line_wf(sl: StartLineView) -> bool {
    match sl {
        StartLineView::Request { method, target, version } => {
            &&& method.len() > 0
            &&& target.len() > 0
            &&& is_line_safe(method)
            &&& is_line_safe(target)
            &&& has_no(method, SP)
            &&& has_no(target, SP)
        },
        StartLineView::Response { version, status_code, reason } => {
            &&& 100 <= status_code <= 999
            &&& is_line_safe(reason)
        },
    }
}

/// The name of a version holds neither a space nor a line break.
pub proof fn lemma_version_bytes_plain(v: Version)
    ensures
        version_bytes(v).len() == 8,
        has_no(version_bytes(v), SP),
        is_line_safe(version_bytes(v)),
        version_of(version_bytes(v)) == Some(v),
{
    assert(version_bytes(Version::Http10)[7] != version_bytes(Version::Http11)[7]);
}

/// A well-formed start line is read back from its text, and the text holds
/// no carriage return.
pub proof fn lemma_start_line_round_trip(sl: StartLineView)
    requires
        start_line_wf(sl),
    ensures
        start_line_of(start_line_text(sl), kind_of(sl)) == Some(sl),
        has_no(start_line_text(sl), CR),
{
    let line = start_line_text(sl);
    match sl {
        StartLineView::Request { method, target, version } => {
            lemma_version_bytes_plain(version);
            let vb = version_bytes(version);
            let sp1 = method.len() as int;
            let sp2 = sp1 + 1 + target.len();
            assert(line.len() == sp2 + 1 + 8);
            assert forall|j: int| 0 <= j < sp1 implies #[trigger] line[j] != SP by {
                assert(line[j] == method[j]);
            }
            assert(line[sp1] == SP);
            lemma_index_of_is(line, SP, 0, sp1);
            assert forall|j: int| sp1 + 1 <= j < sp2 implies #[trigger] line[j] != SP by {
                assert(line[j] == target[j - sp1 - 1]);
            }
            assert(line[sp2] == SP);
            lemma_index_of_is(line, SP, sp1 + 1, sp2);
            assert(line.subrange(0, sp1) =~= method);
            assert(line.subrange(sp1 + 1, sp2) =~= target);
            assert(line.subrange(sp2 + 1, line.len() as int) =~= vb);
            assert forall|j: int| 0 <= j < line.len() implies #[trigger] line[j] != CR by {
                if j < sp1 {
                    assert(line[j] == method[j]);
                } else if j == sp1 {
                } else if j < sp2 {
                    assert(line[j] == target[j - sp1 - 1]);
                } else if j == sp2 {
                } else {
                    assert(line[j] == vb[j - sp2 - 1]);
                }
            }
        },
        StartLineView::Response { version, status_code, reason } => {
            lemma_version_bytes_plain(version);
            lemma_decimal_digits_round_trip(status_code as nat);
            let vb = version_bytes(version);
            let code = decimal_digits(status_code as nat);
            assert(line.len() == 8 + 1 + 3 + 1 + reason.len());
            assert forall|j: int| 0 <= j < 8 implies #[trigger] line[j] != SP by {
                assert(line[j] == vb[j]);
            }
            assert(line[8] == SP);
            lemma_index_of_is(line, SP, 0, 8);
            assert(line.subrange(0, 8) =~= vb);
            assert(line.subrange(9, 12) =~= code);
            assert(line[12] == SP);
            assert(line.subrange(13, line.len() as int) =~= reason);
            assert forall|j: int| 0 <= j < line.len() implies #[trigger] line[j] != CR by {
                if j < 8 {
                    assert(line[j] == vb[j]);
                } else if j == 8 {
                } else if j < 12 {
                    assert(line[j] == code[j - 9]);
                    assert(is_digit(code[j - 9]));
                } else if j == 12 {
                } else {
                    assert(line[j] == reason[j - 13]);
                }
            }
        },
    }
}

impl Version {
    /// Recognizes a version name.
    pub fn from_bytes(s: &[u8]) -> (r: Option<Version>)
        ensures
            r == version_of(s@),
    {
        if s.len() != 8 {
            return None;
        }
        if s[0] == 72 && s[1] == 84 && s[2] == 84 && s[3] == 80 && s[4] == 47 && s[5] == 49
            && s[6] == 46 {
            if s[7] == 48 {
                assert(s@ =~= version_bytes(Version::Http10));
                return Some(Version::Http10);
            } else if s[7] == 49 {
                assert(s@ =~= version_bytes(Version::Http11));
                assert(version_bytes(Version::Http10)[7] != s@[7]);
                return Some(Version::Http11);
            }
        }
        proof {
            let a = version_bytes(Version::Http10);
            let b = version_bytes(Version::Http11);
            if s@ == a {
                assert(s@[0] == a[0] && s@[1] == a[1] && s@[2] == a[2] && s@[3] == a[3] && s@[4]
                    == a[4] && s@[5] == a[5] && s@[6] == a[6] && s@[7] == a[7]);
            }
            if s@ == b {
                assert(s@[0] == b[0] && s@[1] == b[1] && s@[2] == b[2] && s@[3] == b[3] && s@[4]
                    == b[4] && s@[5] == b[5] && s@[6] == b[6] && s@[7] == b[7]);
            }
        }
        None
    }

    /// Writes the name of the version.
    pub fn write_to(&self, out: &mut Vec<u8>)
        ensures
            final(out)@ == old(out)@ + version_bytes(*self),
    {
        out.push(72);
        out.push(84);
        out.push(84);
        out.push(80);
        out.push(47);
        out.push(49);
        out.push(46);
        match self {
            Version::Http10 => out.push(48),
            Version::Http11 => out.push(49),
        }
        assert(out@ =~= old(out)@ + version_bytes(*self));
    }

    /// The name of the version as text.
    pub fn as_str(&self) -> (r: &'static str)
        ensures
            r@ == version_text(*self),
    {
        match self {
            Version::Http10 => "HTTP/1.0",
            Version::Http11 => "HTTP/1.1",
        }
    }
}

impl StartLine {
    /// The kind of message that this line opens.
    pub fn kind(&self) -> (k: MessageKind)
        ensures
            k == kind_of(self@),
    {
        match self {
            StartLine::Request { .. } => MessageKind::Request,
            StartLine::Response { .. } => MessageKind::Response,
        }
    }

    /// The version that this line names.
    pub fn version(&self) -> (v: Version)
        ensures
            v == version_in(self@),
    {
        match self {
            StartLine::Request { version, .. } => *version,
            StartLine::Response { version, .. } => *version,
        }
    }

    /// Writes the line, CRLF included.
    pub fn write_to(&self, out: &mut Vec<u8>)
        ensures
            final(out)@ == old(out)@ + start_line_bytes(self@),
    {
        match self {
            StartLine::Request { method, target, version } => {
                append_bytes(out, method.as_slice());
                out.push(SP);
                append_bytes(out, target.as_slice());
                out.push(SP);
                version.write_to(out);
            },
            StartLine::Response { version, status_code, reason } => {
                version.write_to(out);
                out.push(SP);
                let code = to_decimal(*status_code as u64);
                append_bytes(out, code.as_slice());
                out.push(SP);
                append_bytes(out, reason.as_slice());
            },
        }
        out.push(CR);
        out.push(LF);
        assert(out@ =~= old(out)@ + start_line_bytes(self@));
    }

    /// The line as bytes, CRLF included.
    pub fn to_bytes(&self) -> (out: Vec<u8>)
        ensures
            out@ == start_line_bytes(self@),
    {
        let mut out: Vec<u8> = Vec::new();
        self.write_to(&mut out);
        assert(out@ =~= start_line_bytes(self@));
        out
    }
}

/// Reads a request line from a line given without its CRLF.
pub fn read_request_line(line: &[u8]) -> (r: Option<StartLine>)
    ensures
        match request_line_of(line@) {
            Some(sl) => r matches Some(x) && x@ == sl,
            None => r is None,
        },
{
    let sp1 = find_byte(line, SP, 0);
    if sp1 == 0 || sp1 >= line.len() {
        proof {
            if sp1 >= line.len() {
                assert(index_of(line@, SP, sp1 + 1) == line@.len());
            }
        }
        return None;
    }
    let sp2 = find_byte(line, SP, sp1 + 1);
    if sp2 == sp1 + 1 || sp2 >= line.len() {
        return None;
    }
    let rest = vstd::slice::slice_subrange(line, sp2 + 1, line.len());
    match Version::from_bytes(rest) {
        Some(version) => Some(
            StartLine::Request {
                method: copy_range(line, 0, sp1),
                target: copy_range(line, sp1 + 1, sp2),
                version,
            },
        ),
        None => None,
    }
}

/// Reads a status line from a line given without its CRLF.
pub fn read_status_line(line: &[u8]) -> (r: Option<StartLine>)
    ensures
        match status_line_of(line@) {
            Some(sl) => r matches Some(x) && x@ == sl,
            None => r is None,
        },
{
    let sp1 = find_byte(line, SP, 0);
    if line.len() - sp1 < 5 {
        return None;
    }
    let digits = vstd::slice::slice_subrange(line, sp1 + 1, sp1 + 4);
    proof {
        lemma_decimal_value_three(digits@);
    }
    let code: u64 = match parse_decimal(digits) {
        Some(c) => c,
        None => {
            return None;
        },
    };
    if line[sp1 + 4] != SP {
        return None;
    }
    let name = vstd::slice::slice_subrange(line, 0, sp1);
    match Version::from_bytes(name) {
        Some(version) => Some(
            StartLine::Response {
                version,
                status_code: code as u16,
                reason: copy_range(line, sp1 + 5, line.len()),
            },
        ),
        None => None,
    }
}

/// Reads the start line of a message of the kind given from a line without
/// its CRLF.
pub fn read_start_line(line: &[u8], kind: MessageKind) -> (r: Option<StartLine>)
    ensures
        match start_line_of(line@, kind) {
            Some(sl) => r matches Some(x) && x@ == sl,
            None => r is None,
        },
{
    match kind {
        MessageKind::Request => read_request_line(line),
        MessageKind::Response => read_status_line(line),
    }
}

/// What a start line at the front of `bytes` is read as: the line up to
/// the first CRLF, and the number of bytes that it takes, CRLF included.
pub open spec fn leading_start_line(bytes: Seq<u8>, kind: MessageKind) -> Result<
    (StartLineView, int),
    CodecError,
> {
    match find_crlf(bytes, 0) {
        Some(e) => match start_line_of(bytes.subrange(0, e), kind) {
            Some(sl) => Ok((sl, e + 2)),
            None => Err(CodecError::MalformedStartLine),
        },
        None => Err(CodecError::MalformedStartLine),
    }
}

fn parse_start_line(bytes: &[u8], kind: MessageKind) -> (r: Result<(StartLine, usize), CodecError>)
    ensures
        match leading_start_line(bytes@, kind) {
            Ok((sl, n)) => r matches Ok((x, m)) && x@ == sl && m == n,
            Err(e) => r matches Err(x) && x == e,
        },
{
    proof {
        lemma_find_crlf_first(bytes@, 0);
    }
    let n: usize = bytes.len();
    match scan_line(bytes, 0, usize::MAX) {
        Scanned::Line(e) => {
            assert(crlf_at(bytes@, e as int));
            let line = vstd::slice::slice_subrange(bytes, 0, e);
            match read_start_line(line, kind) {
                Some(sl) => Ok((sl, e + 2)),
                None => Err(CodecError::MalformedStartLine),
            }
        },
        _ => Err(CodecError::MalformedStartLine),
    }
}

/// Reads a request line from the front of `bytes` and says how many bytes
/// it took. Fails with `MalformedStartLine` when there is no CRLF, fewer
/// than two spaces, an empty method or target, or an unknown version.
pub fn parse_request_line(bytes: &[u8]) -> (r: Result<(StartLine, usize), CodecError>)
    ensures
        match leading_start_line(bytes@, MessageKind::Request) {
            Ok((sl, n)) => r matches Ok((x, m)) && x@ == sl && m == n,
            Err(e) => r matches Err(x) && x == e,
        },
{
    parse_start_line(bytes, MessageKind::Request)
}

/// Reads a status line from the front of `bytes` and says how many bytes it
/// took. Fails with `MalformedStartLine` when there is no CRLF, an unknown
/// version, or a status code that is not three digits between spaces.
pub fn parse_status_line(bytes: &[u8]) -> (r: Result<(StartLine, usize), CodecError>)
    ensures
        match leading_start_line(bytes@, MessageKind::Response) {
            Ok((sl, n)) => r matches Ok((x, m)) && x@ == sl && m == n,
            Err(e) => r matches Err(x) && x == e,
        },
{
    parse_start_line(bytes, MessageKind::Response)
}

} // verus!
