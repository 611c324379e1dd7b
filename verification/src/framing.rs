//! Body framing: how the headers of a message say where its body ends.
use crate::ascii::{
    ascii_bytes, decimal_of, eq_ignore_ascii_case, eq_ignore_case, find_last_byte, last_index_of,
    lemma_last_index_of_bounds, literal_bytes, parse_decimal, trim_bounds, trim_ows, COMMA,
};
use crate::error::CodecError;
use crate::header::{values_of, HeaderMap};
use crate::start_line::MessageKind;
use vstd::prelude::*;

verus! {

/// Where the body of a message ends. The framing is computed from the
/// headers whenever it is needed and never stored beside them.
#[derive(Clone, Copy, Debug, PartialEq, Eq, Structural)]
pub enum BodyFraming {
    /// There is no body.
    NoBody,
    /// The body has exactly this many bytes.
    Fixed(u64),
    /// The body comes in chunks, each with its size in front.
    Chunked,
    /// The body is everything up to the end of the input.
    UntilClose,
}

/// The name of the header that lists transfer codings, in lower case.
pub open spec fn transfer_encoding_name() -> Seq<u8> {
    ascii_bytes("transfer-encoding"@)
}

/// The name of the header that gives the length of the body, in lower case.
pub open spec fn content_length_name() -> Seq<u8> {
    ascii_bytes("content-length"@)
}

/// The name of the chunked transfer coding.
pub open spec fn chunked_name() -> Seq<u8> {
    ascii_bytes("chunked"@)
}

/// The last coding that a list of codings names: what stands behind the
/// last comma, without the whitespace around it.
pub open spec fn last_coding(value: Seq<u8>) -> Seq<u8> {
    trim_ows(value.subrange(last_index_of(value, COMMA, value.len() as int) + 1, value.len() as int))
}

/// Whether the transfer codings end in `chunked`: the last coding of the
/// last `Transfer-Encoding` header decides.
pub open spec fn ends_in_chunked(codings: Seq<Seq<u8>>) -> bool {
    codings.len() > 0 && eq_ignore_case(last_coding(codings.last()), chunked_name())
}

/// The one length that all `Content-Length` values give: defined when there
/// is a value, each is a decimal number, and all denote the same number.
pub open spec fn agreed_length(lengths: Seq<Seq<u8>>) -> Option<u64> {
    if lengths.len() > 0 && decimal_of(lengths[0]) is Some && forall|i: int|
        0 <= i < lengths.len() ==> decimal_of(#[trigger] lengths[i]) == decimal_of(lengths[0]) {
        decimal_of(lengths[0])
    } else {
        None
    }
}

/// The framing that headers prescribe for a message of the kind given.
///
/// 1. Transfer codings that end in `chunked` give `Chunked`, whatever else
///    the headers say.
/// 2. Otherwise a `Content-Length` gives `Fixed`, unless a value is not a
///    number, two values differ, or a `Transfer-Encoding` header stands
///    beside it: each of these is `InvalidContentLength`.
/// 3. Otherwise a response runs until the input ends, and a request has no
///    body.
pub open spec fn body_framing_of(headers: Seq<(Seq<u8>, Seq<u8>)>, kind: MessageKind) -> Result<
    BodyFraming,
    CodecError,
> {
    let codings = values_of(headers, transfer_encoding_name());
    let lengths = values_of(headers, content_length_name());
    if ends_in_chunked(codings) {
        Ok(BodyFraming::Chunked)
    } else if lengths.len() > 0 {
        if codings.len() > 0 {
            Err(CodecError::InvalidContentLength)
        } else {
            match agreed_length(lengths) {
                Some(n) => Ok(BodyFraming::Fixed(n)),
                None => Err(CodecError::InvalidContentLength),
            }
        }
    } else {
        match kind {
            MessageKind::Request => Ok(BodyFraming::NoBody),
            MessageKind::Response => Ok(BodyFraming::UntilClose),
        }
    }
}

/// Two `Content-Length` values that do not denote the same number are
/// never resolved in favour of one of them: unless the transfer codings end
/// in `chunked`, the headers are rejected.
pub proof fn lemma_differing_lengths_rejected(
    headers: Seq<(Seq<u8>, Seq<u8>)>,
    kind: MessageKind,
    i: int,
    j: int,
)
    requires
        !ends_in_chunked(values_of(headers, transfer_encoding_name())),
        0 <= i < values_of(headers, content_length_name()).len(),
        0 <= j < values_of(headers, content_length_name()).len(),
        decimal_of(values_of(headers, content_length_name())[i]) != decimal_of(
            values_of(headers, content_length_name())[j],
        ),
    ensures
        body_framing_of(headers, kind) == Err::<BodyFraming, CodecError>(
            CodecError::InvalidContentLength,
        ),
{
}

/// Transfer codings that end in `chunked` decide the framing alone: a
/// `Content-Length` beside them is neither used nor an error.
pub proof fn lemma_chunked_wins(headers: Seq<(Seq<u8>, Seq<u8>)>, kind: MessageKind)
    requires
        ends_in_chunked(values_of(headers, transfer_encoding_name())),
    ensures
        body_framing_of(headers, kind) == Ok::<BodyFraming, CodecError>(BodyFraming::Chunked),
{
}

/// Whether the last coding that `value` lists is `chunked`, in any case.
pub fn last_coding_is_chunked(value: &[u8]) -> (r: bool)
    ensures
        r == eq_ignore_case(last_coding(value@), chunked_name()),
{
    proof {
        lemma_last_index_of_bounds(value@, COMMA, value@.len() as int);
    }
    let end: usize = value.len();
    let start: usize = match find_last_byte(value, COMMA) {
        Some(i) => i + 1,
        None => 0,
    };
    let (a, b) = trim_bounds(value, start, end);
    let coding = vstd::slice::slice_subrange(value, a, b);
    proof {
        reveal_strlit("chunked");
    }
    eq_ignore_ascii_case(coding, literal_bytes("chunked"))
}

/// Decides the framing of a message of the kind given from its headers.
pub fn body_framing(headers: &HeaderMap, kind: MessageKind) -> (r: Result<BodyFraming, CodecError>)
    ensures
        r == body_framing_of(headers@, kind),
{
    proof {
        reveal_strlit("transfer-encoding");
        reveal_strlit("content-length");
    }
    let codings = headers.get_all(literal_bytes("transfer-encoding"));
    let lengths = headers.get_all(literal_bytes("content-length"));
    let ghost cv = values_of(headers@, transfer_encoding_name());
    let ghost lv = values_of(headers@, content_length_name());
    if codings.len() > 0 {
        let last: &[u8] = codings[codings.len() - 1];
        assert(last@ == cv.last());
        if last_coding_is_chunked(last) {
            return Ok(BodyFraming::Chunked);
        }
    }
    if lengths.len() == 0 {
        return match kind {
            MessageKind::Request => Ok(BodyFraming::NoBody),
            MessageKind::Response => Ok(BodyFraming::UntilClose),
        };
    }
    if codings.len() > 0 {
        return Err(CodecError::InvalidContentLength);
    }
    let first: &[u8] = lengths[0];
    assert(first@ == lv[0]);
    let n: u64 = match parse_decimal(first) {
        Some(n) => n,
        None => {
            return Err(CodecError::InvalidContentLength);
        },
    };
    let mut i: usize = 1;
    while i < lengths.len()
        invariant
            1 <= i <= lengths@.len(),
            body_framing_of(headers@, kind) == (match agreed_length(lv) {
                Some(m) => Ok::<BodyFraming, CodecError>(BodyFraming::Fixed(m)),
                None => Err::<BodyFraming, CodecError>(CodecError::InvalidContentLength),
            }),
            lengths@.len() == lv.len(),
            forall|k: int| 0 <= k < lengths@.len() ==> (#[trigger] lengths@[k])@ == lv[k],
            decimal_of(lv[0]) == Some(n),
            forall|k: int| 0 <= k < i ==> decimal_of(#[trigger] lv[k]) == Some(n),
        decreases lengths@.len() - i,
    {
        let other: &[u8] = lengths[i];
        assert(other@ == lv[i as int]);
        match parse_decimal(other) {
            Some(m) => {
                if m != n {
                    return Err(CodecError::InvalidContentLength);
                }
            },
            None => {
                return Err(CodecError::InvalidContentLength);
            },
        }
        i += 1;
    }
    Ok(BodyFraming::Fixed(n))
}

} // verus!
