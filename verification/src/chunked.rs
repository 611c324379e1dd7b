//! The chunked transfer coding: a body sent as a run of chunks, each with
//! its size in front, closed by a chunk of size zero and optional trailers.
use crate::ascii::{
    append_bytes, find_byte, hex_digits, hex_of, index_of, is_prefix, lemma_hex_digits_round_trip,
    lemma_prefix_subrange, parse_hex, to_hex, CR, LF, SEMICOLON,
};
use crate::error::CodecError;
use crate::header::{
    header_block, lemma_header_block_extend, read_header_block, BlockParse, BlockRead, HeaderMap,
};
use crate::lines::{
    crlf_at, holds_at, lemma_find_crlf_first, lemma_holds_at_index, lemma_holds_at_split,
    lemma_line_found, lemma_line_scan_extend, line_budget, line_scan, scan_line, Limits, LineScan,
    Scanned,
};
use vstd::prelude::*;

verus! {

/// The size that a chunk-size line gives, the line taken without its CRLF:
/// the hexadecimal number in front of the first semicolon, if there is one.
/// What follows the semicolon is a chunk extension and is ignored.
pub open spec fn chunk_size_of(line: Seq<u8>) -> Option<usize> {
    hex_of(line.subrange(0, index_of(line, SEMICOLON, 0)))
}

/// What stands at `pos` of a chunked body.
pub enum ChunkStepView {
    /// A chunk whose data is `s[from..to]`; the next chunk starts at `next`.
    Data { from: int, to: int, next: int },
    /// The chunk of size zero; the trailers start at `next`.
    Last { next: int },
    /// The chunk is not complete yet.
    NeedMore,
    /// The size line is too long or malformed, or the data is not followed
    /// by a CRLF.
    Failed(CodecError),
}

/// The meaning of the chunk at `pos`.
pub open spec fn chunk_step(s: Seq<u8>, pos: int, limits: Limits) -> ChunkStepView {
    match line_scan(s, pos, limits.max_line as int) {
        LineScan::Incomplete => ChunkStepView::NeedMore,
        LineScan::TooLong => ChunkStepView::Failed(CodecError::MessageTooLarge),
        LineScan::Line(e) => match chunk_size_of(s.subrange(pos, e)) {
            None => ChunkStepView::Failed(CodecError::MalformedChunk),
            Some(n) => if n == 0 {
                ChunkStepView::Last { next: e + 2 }
            } else if s.len() < e + 2 + n + 2 {
                ChunkStepView::NeedMore
            } else if crlf_at(s, e + 2 + n) {
                ChunkStepView::Data { from: e + 2, to: e + 2 + n, next: e + 2 + n + 2 }
            } else {
                ChunkStepView::Failed(CodecError::MalformedChunk)
            },
        },
    }
}

/// The outcome of reading a chunked body.
pub enum ChunkedParse {
    /// The body is complete; what follows it starts at `end`.
    Done { body: Seq<u8>, trailers: Seq<(Seq<u8>, Seq<u8>)>, end: int },
    /// The body is not complete yet.
    NeedMore,
    /// The body is rejected.
    Failed(CodecError),
}

/// Reads the chunked body of `s` from `pos` on, where `acc` holds the data
/// of the chunks in front of `pos`.
pub open spec fn chunked_body(s: Seq<u8>, pos: int, limits: Limits, acc: Seq<u8>) -> ChunkedParse
    decreases s.len() - pos,
{
    match chunk_step(s, pos, limits) {
        ChunkStepView::NeedMore => ChunkedParse::NeedMore,
        ChunkStepView::Failed(e) => ChunkedParse::Failed(e),
        ChunkStepView::Last { next } => match header_block(
            s,
            next,
            next,
            limits,
            Seq::<(Seq<u8>, Seq<u8>)>::empty(),
        ) {
            BlockParse::Done { headers, end } => ChunkedParse::Done {
                body: acc,
                trailers: headers,
                end,
            },
            BlockParse::NeedMore => ChunkedParse::NeedMore,
            BlockParse::Failed(e) => ChunkedParse::Failed(e),
        },
        ChunkStepView::Data { from, to, next } => if pos < next <= s.len() {
            chunked_body(s, next, limits, acc + s.subrange(from, to))
        } else {
            ChunkedParse::NeedMore
        },
    }
}

/// The bytes written for one fragment of a body: nothing for an empty
/// fragment, which would otherwise close the body; else the size, the data
/// and a CRLF behind each.
pub open spec fn chunk_bytes(data: Seq<u8>) -> Seq<u8> {
    if data.len() == 0 {
        Seq::empty()
    } else {
        hex_digits(data.len()) + seq![CR, LF] + data + seq![CR, LF]
    }
}

/// The chunks written for a run of fragments, one chunk for each fragment
/// that is not empty.
pub open spec fn chunks_bytes(fragments: Seq<Seq<u8>>) -> Seq<u8>
    decreases fragments.len(),
{
    if fragments.len() == 0 {
        Seq::empty()
    } else {
        chunks_bytes(fragments.drop_last()) + chunk_bytes(fragments.last())
    }
}

/// The bytes that close a chunked body: a chunk of size zero and an empty
/// trailer block.
pub open spec fn last_chunk_bytes() -> Seq<u8> {
    seq![48u8, CR, LF, CR, LF]
}

/// A whole chunked body.
pub open spec fn chunked_encoding(fragments: Seq<Seq<u8>>) -> Seq<u8> {
    chunks_bytes(fragments) + last_chunk_bytes()
}

/// The fragments of a body joined in order.
pub open spec fn joined(fragments: Seq<Seq<u8>>) -> Seq<u8>
    decreases fragments.len(),
{
    if fragments.len() == 0 {
        Seq::empty()
    } else {
        joined(fragments.drop_last()) + fragments.last()
    }
}

/// The model of a list of fragments.
pub open spec fn fragment_views(v: Seq<&[u8]>) -> Seq<Seq<u8>> {
    Seq::new(v.len(), |i: int| v[i]@)
}

/// Every fragment is short enough for its length to be a chunk size.
pub open spec fn fragments_fit(fragments: Seq<Seq<u8>>) -> bool {
    forall|i: int| 0 <= i < fragments.len() ==> (#[trigger] fragments[i]).len() <= usize::MAX
}

/// A chunk that is decided lies inside the input and moves forward.
pub proof fn lemma_chunk_step_bounds(s: Seq<u8>, pos: int, limits: Limits)
    requires
        0 <= pos,
    ensures
        match chunk_step(s, pos, limits) {
            ChunkStepView::Data { from, to, next } => pos + 2 < from < to && to + 2 == next && next
                <= s.len(),
            ChunkStepView::Last { next } => pos + 2 < next <= s.len(),
            _ => true,
        },
{
    lemma_find_crlf_first(s, pos);
    match line_scan(s, pos, limits.max_line as int) {
        LineScan::Line(e) => {
            if e == pos {
                assert(s.subrange(pos, e).len() == 0);
                assert(chunk_size_of(s.subrange(pos, e)) is None);
            }
        },
        _ => {},
    }
}

/// A chunk that is decided means the same when bytes are added behind it.
pub proof fn lemma_chunk_step_extend(s: Seq<u8>, t: Seq<u8>, pos: int, limits: Limits)
    requires
        is_prefix(s, t),
        0 <= pos <= s.len(),
        !(chunk_step(s, pos, limits) is NeedMore),
    ensures
        chunk_step(t, pos, limits) == chunk_step(s, pos, limits),
{
    let max = limits.max_line as int;
    lemma_line_scan_extend(s, t, pos, max);
    lemma_find_crlf_first(s, pos);
    match line_scan(s, pos, max) {
        LineScan::Line(e) => {
            lemma_prefix_subrange(s, t, pos, e);
            match chunk_size_of(s.subrange(pos, e)) {
                Some(n) => {
                    if n > 0 {
                        assert(t[e + 2 + n] == s[e + 2 + n]);
                        assert(t[e + 2 + n + 1] == s[e + 2 + n + 1]);
                    }
                },
                None => {},
            }
        },
        _ => {},
    }
}

/// A chunked body that is decided stays decided, in the same way, when
/// bytes are added behind it.
pub proof fn lemma_chunked_body_extend(
    s: Seq<u8>,
    t: Seq<u8>,
    pos: int,
    limits: Limits,
    acc: Seq<u8>,
)
    requires
        is_prefix(s, t),
        0 <= pos <= s.len(),
        !(chunked_body(s, pos, limits, acc) is NeedMore),
    ensures
        chunked_body(t, pos, limits, acc) == chunked_body(s, pos, limits, acc),
    decreases s.len() - pos,
{
    lemma_chunk_step_extend(s, t, pos, limits);
    lemma_chunk_step_bounds(s, pos, limits);
    match chunk_step(s, pos, limits) {
        ChunkStepView::Data { from, to, next } => {
            lemma_prefix_subrange(s, t, from, to);
            lemma_chunked_body_extend(s, t, next, limits, acc + s.subrange(from, to));
        },
        ChunkStepView::Last { next } => {
            lemma_header_block_extend(
                s,
                t,
                next,
                next,
                limits,
                Seq::<(Seq<u8>, Seq<u8>)>::empty(),
            );
        },
        _ => {},
    }
}

/// Reading skips the chunk that was written for a fragment and collects
/// the fragment.
pub proof fn lemma_chunk_read_back(
    s: Seq<u8>,
    pos: int,
    limits: Limits,
    acc: Seq<u8>,
    data: Seq<u8>,
)
    requires
        holds_at(s, pos, chunk_bytes(data)),
        data.len() <= usize::MAX,
        limits.max_line >= 18,
    ensures
        chunked_body(s, pos, limits, acc) == chunked_body(
            s,
            pos + chunk_bytes(data).len(),
            limits,
            acc + data,
        ),
{
    if data.len() == 0 {
        assert(acc + data =~= acc);
    } else {
        let n = data.len();
        let size = hex_digits(n);
        lemma_hex_digits_round_trip(n);
        lemma_hex_digits_short(n);
        let head = size + seq![CR, LF];
        let tail = data + seq![CR, LF];
        assert(chunk_bytes(data) =~= head + tail);
        lemma_holds_at_split(s, pos, head, tail);
        lemma_line_found(s, pos, size, limits.max_line as int);
        let e = pos + size.len();
        assert(size.subrange(0, size.len() as int) =~= size);
        assert(chunk_size_of(size) == Some(n as usize));
        lemma_holds_at_split(s, e + 2, data, seq![CR, LF]);
        lemma_holds_at_index(s, e + 2 + n, seq![CR, LF], 0);
        lemma_holds_at_index(s, e + 2 + n, seq![CR, LF], 1);
        assert(crlf_at(s, e + 2 + n));
        assert(chunk_step(s, pos, limits) == ChunkStepView::Data {
            from: e + 2,
            to: e + 2 + n,
            next: e + 2 + n + 2,
        });
    }
}

/// The notation of a number that fits in 64 bits has at most 16 digits.
pub proof fn lemma_hex_digits_short(n: nat)
    requires
        n <= usize::MAX,
    ensures
        hex_digits(n).len() <= 16,
{
    assert(pow16(16) == 0x1_0000_0000_0000_0000) by {
        reveal_with_fuel(pow16, 17);
    }
    lemma_hex_digits_len(n, 16);
}

proof fn lemma_hex_digits_len(n: nat, k: nat)
    requires
        k >= 1,
        n < pow16(k),
    ensures
        hex_digits(n).len() <= k,
    decreases k,
{
    if n >= 16 {
        assert(k >= 2) by {
            assert(pow16(1) == 16) by {
                assert(pow16(0) == 1);
            }
        }
        assert(pow16(k) == 16 * pow16((k - 1) as nat));
        lemma_hex_digits_len((n / 16) as nat, (k - 1) as nat);
    }
}

spec fn pow16(k: nat) -> nat
    decreases k,
{
    if k == 0 {
        1
    } else {
        16 * pow16((k - 1) as nat)
    }
}

/// Reading skips the chunks that were written for a run of fragments and
/// collects the fragments in order.
pub proof fn lemma_chunks_read_back(
    s: Seq<u8>,
    pos: int,
    limits: Limits,
    acc: Seq<u8>,
    fragments: Seq<Seq<u8>>,
)
    requires
        holds_at(s, pos, chunks_bytes(fragments)),
        fragments_fit(fragments),
        limits.max_line >= 18,
    ensures
        chunked_body(s, pos, limits, acc) == chunked_body(
            s,
            pos + chunks_bytes(fragments).len(),
            limits,
            acc + joined(fragments),
        ),
    decreases fragments.len(),
{
    if fragments.len() == 0 {
        assert(acc + joined(fragments) =~= acc);
    } else {
        let front = fragments.drop_last();
        let last = fragments.last();
        lemma_holds_at_split(s, pos, chunks_bytes(front), chunk_bytes(last));
        assert forall|i: int| 0 <= i < front.len() implies (#[trigger] front[i]).len()
            <= usize::MAX by {
            assert(front[i] == fragments[i]);
        }
        lemma_chunks_read_back(s, pos, limits, acc, front);
        lemma_chunk_read_back(
            s,
            pos + chunks_bytes(front).len(),
            limits,
            acc + joined(front),
            last,
        );
        assert(acc + joined(front) + last =~= acc + joined(fragments));
    }
}

/// Fragments that are written as a chunked body are read back as their
/// concatenation, with no trailers, whatever stands in front of the body or
/// behind it. The limits must leave room for a size line of 18 bytes and an
/// empty trailer block.
pub proof fn lemma_chunked_round_trip(
    s: Seq<u8>,
    pos: int,
    limits: Limits,
    acc: Seq<u8>,
    fragments: Seq<Seq<u8>>,
)
    requires
        holds_at(s, pos, chunked_encoding(fragments)),
        fragments_fit(fragments),
        limits.max_line >= 18,
        limits.max_header_block >= 2,
    ensures
        chunked_body(s, pos, limits, acc) == (ChunkedParse::Done {
            body: acc + joined(fragments),
            trailers: Seq::<(Seq<u8>, Seq<u8>)>::empty(),
            end: pos + chunked_encoding(fragments).len(),
        }),
{
    let chunks = chunks_bytes(fragments);
    lemma_holds_at_split(s, pos, chunks, last_chunk_bytes());
    lemma_chunks_read_back(s, pos, limits, acc, fragments);
    let p = pos + chunks.len();
    let zero = seq![48u8];
    let crlf = seq![CR, LF];
    assert(last_chunk_bytes() =~= (zero + crlf) + (Seq::<u8>::empty() + crlf));
    lemma_holds_at_split(s, p, zero + crlf, Seq::<u8>::empty() + crlf);
    lemma_line_found(s, p, zero, limits.max_line as int);
    assert(zero =~= hex_digits(0));
    lemma_hex_digits_round_trip(0);
    assert(zero.subrange(0, 1) =~= zero);
    assert(chunk_size_of(zero) == Some(0usize));
    assert(chunk_step(s, p, limits) == ChunkStepView::Last { next: p + 3 });
    lemma_line_found(s, p + 3, Seq::<u8>::empty(), line_budget(limits, p + 3, p + 3));
}

/// The first fragments of a body are never longer than the whole.
pub proof fn lemma_joined_grows(fragments: Seq<Seq<u8>>, k: int)
    requires
        0 <= k <= fragments.len(),
    ensures
        joined(fragments.take(k)).len() <= joined(fragments).len(),
    decreases fragments.len() - k,
{
    if k < fragments.len() {
        lemma_joined_grows(fragments.drop_last(), k);
        assert(fragments.drop_last().take(k) =~= fragments.take(k));
    } else {
        assert(fragments.take(k) =~= fragments);
    }
}

/// What the decoder found at one chunk.
#[derive(Clone, Copy, Debug, PartialEq, Eq, Structural)]
pub enum ChunkStep {
    /// A chunk: where its data starts and ends, and where the next chunk
    /// starts.
    Data(usize, usize, usize),
    /// The chunk of size zero, and where the trailers start.
    Last(usize),
    /// The chunk is not complete yet.
    NeedMore,
    /// The chunk is rejected.
    Failed(CodecError),
}

impl View for ChunkStep {
    type V = ChunkStepView;

    open spec fn view(&self) -> ChunkStepView {
        match *self {
            ChunkStep::Data(from, to, next) => ChunkStepView::Data {
                from: from as int,
                to: to as int,
                next: next as int,
            },
            ChunkStep::Last(next) => ChunkStepView::Last { next: next as int },
            ChunkStep::NeedMore => ChunkStepView::NeedMore,
            ChunkStep::Failed(e) => ChunkStepView::Failed(e),
        }
    }
}

/// Reads the chunk at `pos`.
pub fn read_chunk(buf: &[u8], pos: usize, limits: &Limits) -> (r: ChunkStep)
    requires
        pos <= buf@.len(),
    ensures
        r@ == chunk_step(buf@, pos as int, *limits),
{
    let len: usize = buf.len();
    match scan_line(buf, pos, limits.max_line) {
        Scanned::Incomplete => ChunkStep::NeedMore,
        Scanned::TooLong => ChunkStep::Failed(CodecError::MessageTooLarge),
        Scanned::Line(e) => {
            proof {
                lemma_find_crlf_first(buf@, pos as int);
                assert(crlf_at(buf@, e as int));
            }
            let line = vstd::slice::slice_subrange(buf, pos, e);
            let semi = find_byte(line, SEMICOLON, 0);
            let digits = vstd::slice::slice_subrange(line, 0, semi);
            match parse_hex(digits) {
                None => ChunkStep::Failed(CodecError::MalformedChunk),
                Some(n) => {
                    let data: usize = e + 2;
                    if n == 0 {
                        ChunkStep::Last(data)
                    } else {
                        let avail: usize = len - data;
                        if avail < 2 || avail - 2 < n {
                            ChunkStep::NeedMore
                        } else if buf[data + n] == CR && buf[data + n + 1] == LF {
                            ChunkStep::Data(data, data + n, data + n + 2)
                        } else {
                            ChunkStep::Failed(CodecError::MalformedChunk)
                        }
                    }
                },
            }
        },
    }
}

/// Decodes a chunked body that stands at the front of `buf`, the whole of
/// it being at hand: returns the data of the chunks joined in order, the
/// trailers, and the number of bytes that the body took. A body that is cut
/// short fails with `UnexpectedEof`.
pub fn decode_chunked(buf: &[u8], limits: &Limits) -> (r: Result<
    (Vec<u8>, HeaderMap, usize),
    CodecError,
>)
    ensures
        match chunked_body(buf@, 0, *limits, Seq::<u8>::empty()) {
            ChunkedParse::Done { body, trailers, end } => r matches Ok((b, t, n)) && b@ == body
                && t@ == trailers && n == end,
            ChunkedParse::NeedMore => r matches Err(e) && e == CodecError::UnexpectedEof,
            ChunkedParse::Failed(err) => r matches Err(e) && e == err,
        },
{
    let mut body: Vec<u8> = Vec::new();
    let mut pos: usize = 0;
    loop
        invariant
            pos <= buf@.len(),
            chunked_body(buf@, 0, *limits, Seq::<u8>::empty()) == chunked_body(
                buf@,
                pos as int,
                *limits,
                body@,
            ),
        decreases buf@.len() - pos,
    {
        proof {
            lemma_chunk_step_bounds(buf@, pos as int, *limits);
        }
        match read_chunk(buf, pos, limits) {
            ChunkStep::NeedMore => {
                return Err(CodecError::UnexpectedEof);
            },
            ChunkStep::Failed(e) => {
                return Err(e);
            },
            ChunkStep::Last(next) => {
                return match read_header_block(buf, next, limits) {
                    BlockRead::Done(trailers, end) => Ok((body, trailers, end)),
                    BlockRead::NeedMore => Err(CodecError::UnexpectedEof),
                    BlockRead::Failed(e) => Err(e),
                };
            },
            ChunkStep::Data(from, to, next) => {
                append_bytes(&mut body, vstd::slice::slice_subrange(buf, from, to));
                pos = next;
            },
        }
    }
}

/// Writes one fragment of a body as a chunk of its own. An empty fragment
/// writes nothing, since a chunk of size zero would close the body.
pub fn write_chunk(out: &mut Vec<u8>, data: &[u8])
    ensures
        final(out)@ == old(out)@ + chunk_bytes(data@),
{
    if data.len() == 0 {
        assert(out@ =~= old(out)@ + chunk_bytes(data@));
        return ;
    }
    let size = to_hex(data.len());
    append_bytes(out, size.as_slice());
    out.push(CR);
    out.push(LF);
    append_bytes(out, data);
    out.push(CR);
    out.push(LF);
    assert(out@ =~= old(out)@ + chunk_bytes(data@));
}

/// Writes the chunk of size zero and an empty trailer block, which close a
/// chunked body.
pub fn write_last_chunk(out: &mut Vec<u8>)
    ensures
        final(out)@ == old(out)@ + last_chunk_bytes(),
{
    out.push(48);
    out.push(CR);
    out.push(LF);
    out.push(CR);
    out.push(LF);
    assert(out@ =~= old(out)@ + last_chunk_bytes());
}

/// Writes each fragment as a chunk.
pub fn write_chunks(out: &mut Vec<u8>, fragments: &[&[u8]])
    ensures
        final(out)@ == old(out)@ + chunks_bytes(fragment_views(fragments@)),
{
    let ghost all = fragment_views(fragments@);
    let mut i: usize = 0;
    assert(all.take(0) =~= Seq::<Seq<u8>>::empty());
    assert(out@ =~= old(out)@ + chunks_bytes(all.take(0)));
    while i < fragments.len()
        invariant
            i <= fragments@.len(),
            all == fragment_views(fragments@),
            out@ == old(out)@ + chunks_bytes(all.take(i as int)),
        decreases fragments@.len() - i,
    {
        proof {
            let next = all.take(i + 1);
            assert(next.drop_last() =~= all.take(i as int));
            assert(next.last() == fragments@[i as int]@);
        }
        write_chunk(out, fragments[i]);
        assert(out@ =~= old(out)@ + chunks_bytes(all.take(i + 1)));
        i += 1;
    }
    assert(all.take(i as int) =~= all);
}

/// Encodes a body given as fragments: one chunk for each fragment that is
/// not empty, and the closing chunk.
pub fn encode_chunked(fragments: &[&[u8]]) -> (out: Vec<u8>)
    ensures
        out@ == chunked_encoding(fragment_views(fragments@)),
{
    let mut out: Vec<u8> = Vec::new();
    write_chunks(&mut out, fragments);
    write_last_chunk(&mut out);
    assert(out@ =~= chunked_encoding(fragment_views(fragments@)));
    out
}

/// Writes the fragments one behind the other.
pub fn write_joined(out: &mut Vec<u8>, fragments: &[&[u8]])
    ensures
        final(out)@ == old(out)@ + joined(fragment_views(fragments@)),
{
    let ghost all = fragment_views(fragments@);
    let mut i: usize = 0;
    assert(all.take(0) =~= Seq::<Seq<u8>>::empty());
    assert(out@ =~= old(out)@ + joined(all.take(0)));
    while i < fragments.len()
        invariant
            i <= fragments@.len(),
            all == fragment_views(fragments@),
            out@ == old(out)@ + joined(all.take(i as int)),
        decreases fragments@.len() - i,
    {
        proof {
            let next = all.take(i + 1);
            assert(next.drop_last() =~= all.take(i as int));
            assert(next.last() == fragments@[i as int]@);
        }
        append_bytes(out, fragments[i]);
        assert(out@ =~= old(out)@ + joined(all.take(i + 1)));
        i += 1;
    }
    assert(all.take(i as int) =~= all);
}

/// The length of the fragments taken together, if it fits in 64 bits.
pub fn joined_len(fragments: &[&[u8]]) -> (r: Option<u64>)
    ensures
        match r {
            Some(n) => n == joined(fragment_views(fragments@)).len(),
            None => joined(fragment_views(fragments@)).len() > u64::MAX,
        },
{
    let ghost all = fragment_views(fragments@);
    let mut total: u64 = 0;
    let mut i: usize = 0;
    assert(all.take(0) =~= Seq::<Seq<u8>>::empty());
    while i < fragments.len()
        invariant
            i <= fragments@.len(),
            all == fragment_views(fragments@),
            total == joined(all.take(i as int)).len(),
        decreases fragments@.len() - i,
    {
        proof {
            let next = all.take(i + 1);
            assert(next.drop_last() =~= all.take(i as int));
            assert(next.last() == fragments@[i as int]@);
        }
        let n: u64 = fragments[i].len() as u64;
        if n > u64::MAX - total {
            proof {
                lemma_joined_grows(all, i + 1);
            }
            return None;
        }
        total = total + n;
        i += 1;
    }
    assert(all.take(i as int) =~= all);
    Some(total)
}

} // verus!
