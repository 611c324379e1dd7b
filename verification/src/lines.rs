//! Lines: where the next CRLF is, and whether the line in front of it fits
//! the configured limits.
use crate::ascii::{has_no, is_prefix, CR, LF};
use vstd::prelude::*;

verus! {

/// Upper bounds that keep a slow or hostile peer from growing the buffer
/// without end. Both count bytes and include the closing CRLF.
#[derive(Clone, Copy, Debug, PartialEq, Eq, Structural)]
pub struct Limits {
    /// The most bytes that one line may take.
    pub max_line: usize,
    /// The most bytes that a header block may take, its empty line included.
    pub max_header_block: usize,
}

/// A CRLF pair starts at position `i` of `s`.
pub open spec fn crlf_at(s: Seq<u8>, i: int) -> bool {
    0 <= i && i + 1 < s.len() && s[i] == CR && s[i + 1] == LF
}

/// The position of the first CRLF pair of `s` at or after `from`.
pub open spec fn find_crlf(s: Seq<u8>, from: int) -> Option<int>
    decreases s.len() - from,
{
    if from < 0 || from + 1 >= s.len() {
        None
    } else if s[from] == CR && s[from + 1] == LF {
        Some(from)
    } else {
        find_crlf(s, from + 1)
    }
}

/// What is known of the line that starts at some position.
pub enum LineScan {
    /// The line ends with the CRLF at this position, and fits.
    Line(int),
    /// No CRLF yet, and one may still come within the limit.
    Incomplete,
    /// The line cannot fit the limit, whatever follows.
    TooLong,
}

/// The line of `s` that starts at `from`, when at most `max` bytes are
/// allowed for it, CRLF included. `TooLong` is reported as soon as it is
/// certain: with the CRLF in sight, or with `max` bytes and none.
pub open spec fn line_scan(s: Seq<u8>, from: int, max: int) -> LineScan {
    match find_crlf(s, from) {
        Some(e) => if e + 2 - from <= max {
            LineScan::Line(e)
        } else {
            LineScan::TooLong
        },
        None => if s.len() - from >= max {
            LineScan::TooLong
        } else {
            LineScan::Incomplete
        },
    }
}

/// The bytes left for the line at `pos` of a header block that began at
/// `start`: the line limit, or what remains of the block limit if less.
pub open spec fn line_budget(limits: Limits, start: int, pos: int) -> int {
    let used = pos - start;
    if used >= limits.max_header_block {
        0
    } else if limits.max_header_block - used < limits.max_line {
        limits.max_header_block - used
    } else {
        limits.max_line as int
    }
}

pub proof fn lemma_find_crlf_is(s: Seq<u8>, from: int, e: int)
    requires
        0 <= from <= e,
        crlf_at(s, e),
        forall|j: int| from <= j < e ==> !crlf_at(s, j),
    ensures
        find_crlf(s, from) == Some(e),
    decreases e - from,
{
    if from < e {
        assert(!crlf_at(s, from));
        lemma_find_crlf_is(s, from + 1, e);
    }
}

pub proof fn lemma_find_crlf_none(s: Seq<u8>, from: int)
    requires
        0 <= from,
        forall|j: int| from <= j ==> !crlf_at(s, j),
    ensures
        find_crlf(s, from) is None,
    decreases s.len() - from,
{
    if from + 1 < s.len() {
        assert(!crlf_at(s, from));
        lemma_find_crlf_none(s, from + 1);
    }
}

/// What `find_crlf` returns is the first CRLF pair, and `None` means that
/// there is none.
pub proof fn lemma_find_crlf_first(s: Seq<u8>, from: int)
    requires
        0 <= from,
    ensures
        match find_crlf(s, from) {
            Some(e) => from <= e && crlf_at(s, e) && forall|j: int|
                from <= j < e ==> !crlf_at(s, j),
            None => forall|j: int| from <= j ==> !crlf_at(s, j),
        },
    decreases s.len() - from,
{
    if from + 1 < s.len() && !(s[from] == CR && s[from + 1] == LF) {
        lemma_find_crlf_first(s, from + 1);
    }
}

/// A line that is decided stays decided, in the same way, when bytes are
/// added behind it.
pub proof fn lemma_line_scan_extend(s: Seq<u8>, t: Seq<u8>, from: int, max: int)
    requires
        is_prefix(s, t),
        0 <= from <= s.len(),
        !(line_scan(s, from, max) is Incomplete),
    ensures
        line_scan(t, from, max) == line_scan(s, from, max),
{
    lemma_find_crlf_first(s, from);
    lemma_find_crlf_first(t, from);
    match find_crlf(s, from) {
        Some(e) => {
            assert(t[e] == s[e] && t[e + 1] == s[e + 1]);
            assert(crlf_at(t, e));
            assert forall|j: int| from <= j < e implies !crlf_at(t, j) by {
                assert(t[j] == s[j] && t[j + 1] == s[j + 1]);
                assert(!crlf_at(s, j));
            }
            lemma_find_crlf_is(t, from, e);
        },
        None => {
            match find_crlf(t, from) {
                Some(e) => {
                    if e + 1 < s.len() {
                        assert(t[e] == s[e] && t[e + 1] == s[e + 1]);
                        assert(crlf_at(s, e));
                    }
                },
                None => {},
            }
        },
    }
}

/// The bytes `x` stand in `s` at position `pos`.
pub open spec fn holds_at(s: Seq<u8>, pos: int, x: Seq<u8>) -> bool {
    0 <= pos && pos + x.len() <= s.len() && s.subrange(pos, pos + x.len()) == x
}

pub proof fn lemma_holds_at_index(s: Seq<u8>, pos: int, x: Seq<u8>, i: int)
    requires
        holds_at(s, pos, x),
        0 <= i < x.len(),
    ensures
        s[pos + i] == x[i],
{
    assert(s.subrange(pos, pos + x.len())[i] == s[pos + i]);
}

/// Where a concatenation stands, its two parts stand one behind the other.
pub proof fn lemma_holds_at_split(s: Seq<u8>, pos: int, a: Seq<u8>, b: Seq<u8>)
    requires
        holds_at(s, pos, a + b),
    ensures
        holds_at(s, pos, a),
        holds_at(s, pos + a.len(), b),
{
    let x = a + b;
    assert forall|i: int| 0 <= i < a.len() implies s.subrange(pos, pos + a.len())[i] == a[i] by {
        lemma_holds_at_index(s, pos, x, i);
    }
    assert(s.subrange(pos, pos + a.len()) =~= a);
    assert forall|i: int| 0 <= i < b.len() implies s.subrange(
        pos + a.len(),
        pos + a.len() + b.len(),
    )[i] == b[i] by {
        lemma_holds_at_index(s, pos, x, a.len() as int + i);
    }
    assert(s.subrange(pos + a.len(), pos + a.len() + b.len()) =~= b);
}

/// A concatenation stands at the front of itself followed by anything.
pub proof fn lemma_holds_at_front(x: Seq<u8>, rest: Seq<u8>)
    ensures
        holds_at(x + rest, 0, x),
{
    assert((x + rest).subrange(0, x.len() as int) =~= x);
}

/// A text without carriage return that stands at `pos` with a CRLF behind
/// it is the line at `pos`, provided that it fits the limit.
pub proof fn lemma_line_found(s: Seq<u8>, pos: int, text: Seq<u8>, max: int)
    requires
        holds_at(s, pos, text + seq![CR, LF]),
        has_no(text, CR),
        text.len() + 2 <= max,
    ensures
        line_scan(s, pos, max) == LineScan::Line(pos + text.len()),
        s.subrange(pos, pos + text.len()) == text,
{
    let e = pos + text.len();
    let x = text + seq![CR, LF];
    lemma_holds_at_split(s, pos, text, seq![CR, LF]);
    lemma_holds_at_index(s, pos, x, text.len() as int);
    lemma_holds_at_index(s, pos, x, text.len() as int + 1);
    assert(crlf_at(s, e));
    assert forall|j: int| pos <= j < e implies !crlf_at(s, j) by {
        lemma_holds_at_index(s, pos, x, j - pos);
        assert(x[j - pos] == text[j - pos]);
    }
    lemma_find_crlf_is(s, pos, e);
}

/// A line as the decoder sees it.
#[derive(Clone, Copy, Debug, PartialEq, Eq, Structural)]
pub enum Scanned {
    /// The line ends with the CRLF at this position, and fits.
    Line(usize),
    /// No CRLF yet, and one may still come within the limit.
    Incomplete,
    /// The line cannot fit the limit, whatever follows.
    TooLong,
}

impl View for Scanned {
    type V = LineScan;

    open spec fn view(&self) -> LineScan {
        match *self {
            Scanned::Line(e) => LineScan::Line(e as int),
            Scanned::Incomplete => LineScan::Incomplete,
            Scanned::TooLong => LineScan::TooLong,
        }
    }
}

impl Limits {
    /// Limits of 8 KiB per line and 64 KiB per header block.
    pub fn new() -> (r: Limits)
        ensures
            r.max_line == 8192,
            r.max_header_block == 65536,
    {
        Limits { max_line: 8192, max_header_block: 65536 }
    }

    /// The bytes left for the line at `pos` of a header block that began at
    /// `start`.
    pub fn budget(&self, start: usize, pos: usize) -> (r: usize)
        requires
            start <= pos,
        ensures
            r == line_budget(*self, start as int, pos as int),
    {
        let used: usize = pos - start;
        if used >= self.max_header_block {
            0
        } else if self.max_header_block - used < self.max_line {
            self.max_header_block - used
        } else {
            self.max_line
        }
    }
}

/// Looks for the end of the line that starts at `from`, reading no further
/// than the limit allows.
pub fn scan_line(buf: &[u8], from: usize, max: usize) -> (r: Scanned)
    requires
        from <= buf@.len(),
    ensures
        r@ == line_scan(buf@, from as int, max as int),
{
    proof {
        lemma_find_crlf_first(buf@, from as int);
    }
    if max >= 2 {
        let mut i: usize = from;
        while buf.len() - i >= 2
            invariant
                from <= i <= buf@.len(),
                max >= 2,
                forall|j: int| from <= j < i ==> !crlf_at(buf@, j),
            decreases buf@.len() - i,
        {
            if i - from > max - 2 {
                proof {
                    lemma_find_crlf_first(buf@, from as int);
                }
                return Scanned::TooLong;
            }
            if buf[i] == CR && buf[i + 1] == LF {
                proof {
                    lemma_find_crlf_is(buf@, from as int, i as int);
                }
                return Scanned::Line(i);
            }
            i += 1;
        }
        proof {
            lemma_find_crlf_none(buf@, from as int);
        }
    }
    if buf.len() - from >= max {
        Scanned::TooLong
    } else {
        Scanned::Incomplete
    }
}

} // verus!
