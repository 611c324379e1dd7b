//! The header collection: an ordered multimap whose names compare without
//! regard to ASCII case, and the wire grammar of header lines and blocks.
use crate::ascii::{
    append_bytes, check_token, copy_range, eq_ignore_ascii_case, eq_ignore_case, find_byte,
    index_of, is_prefix, is_token, lemma_prefix_subrange, trim_bounds, trim_ows, COLON, CR, LF, SP,
};
use crate::error::CodecError;
use crate::lines::{
    crlf_at, lemma_find_crlf_first, lemma_line_scan_extend, line_budget, line_scan,
    scan_line, Limits, LineScan, Scanned,
};
use vstd::prelude::*;

verus! {

/// One header: a name and a value, both as they stand on the wire.
#[derive(Debug, PartialEq, Eq)]
pub struct HeaderField {
    pub name: Vec<u8>,
    pub value: Vec<u8>,
}

impl View for HeaderField {
    type V = (Seq<u8>, Seq<u8>);

    open spec fn view(&self) -> (Seq<u8>, Seq<u8>) {
        (self.name@, self.value@)
    }
}

impl Clone for HeaderField {
    fn clone(&self) -> (r: Self)
        ensures
            r@ == self@,
    {
        let name = self.name.clone();
        let value = self.value.clone();
        assert(name@ =~= self.name@);
        assert(value@ =~= self.value@);
        HeaderField { name, value }
    }
}

/// The values stored under `name`, oldest first.
pub open spec fn values_of(entries: Seq<(Seq<u8>, Seq<u8>)>, name: Seq<u8>) -> Seq<Seq<u8>>
    decreases entries.len(),
{
    if entries.len() == 0 {
        Seq::empty()
    } else if eq_ignore_case(entries.last().0, name) {
        values_of(entries.drop_last(), name).push(entries.last().1)
    } else {
        values_of(entries.drop_last(), name)
    }
}

/// The oldest value stored under `name`.
pub open spec fn first_value(entries: Seq<(Seq<u8>, Seq<u8>)>, name: Seq<u8>) -> Option<Seq<u8>> {
    if values_of(entries, name).len() > 0 {
        Some(values_of(entries, name)[0])
    } else {
        None
    }
}

/// The entries whose name is not `name`, in their order.
pub open spec fn without(entries: Seq<(Seq<u8>, Seq<u8>)>, name: Seq<u8>) -> Seq<
    (Seq<u8>, Seq<u8>),
>
    decreases entries.len(),
{
    if entries.len() == 0 {
        Seq::empty()
    } else if eq_ignore_case(entries.last().0, name) {
        without(entries.drop_last(), name)
    } else {
        without(entries.drop_last(), name).push(entries.last())
    }
}

/// Whether some entry has the name.
pub open spec fn has_name(entries: Seq<(Seq<u8>, Seq<u8>)>, name: Seq<u8>) -> bool {
    exists|j: int| 0 <= j < entries.len() && eq_ignore_case((#[trigger] entries[j]).0, name)
}

/// The model of a vector of fields.
pub open spec fn fields_view(v: Seq<HeaderField>) -> Seq<(Seq<u8>, Seq<u8>)> {
    Seq::new(v.len(), |i: int| v[i]@)
}

/// Where no entry has the name, there are no values.
pub proof fn lemma_values_of_absent(entries: Seq<(Seq<u8>, Seq<u8>)>, name: Seq<u8>)
    requires
        forall|j: int| 0 <= j < entries.len() ==> !eq_ignore_case((#[trigger] entries[j]).0, name),
    ensures
        values_of(entries, name).len() == 0,
    decreases entries.len(),
{
    if entries.len() > 0 {
        let rest = entries.drop_last();
        assert forall|j: int| 0 <= j < rest.len() implies !eq_ignore_case(
            (#[trigger] rest[j]).0,
            name,
        ) by {
            assert(rest[j] == entries[j]);
        }
        assert(entries.last() == entries[entries.len() - 1]);
        lemma_values_of_absent(rest, name);
    }
}

/// The first value is that of the first entry with the name.
pub proof fn lemma_values_of_first(entries: Seq<(Seq<u8>, Seq<u8>)>, name: Seq<u8>, i: int)
    requires
        0 <= i < entries.len(),
        eq_ignore_case(entries[i].0, name),
        forall|j: int| 0 <= j < i ==> !eq_ignore_case((#[trigger] entries[j]).0, name),
    ensures
        first_value(entries, name) == Some(entries[i].1),
    decreases entries.len(),
{
    let rest = entries.drop_last();
    if i == entries.len() - 1 {
        assert forall|j: int| 0 <= j < rest.len() implies !eq_ignore_case(
            (#[trigger] rest[j]).0,
            name,
        ) by {
            assert(rest[j] == entries[j]);
        }
        lemma_values_of_absent(rest, name);
    } else {
        assert(rest[i] == entries[i]);
        assert forall|j: int| 0 <= j < i implies !eq_ignore_case((#[trigger] rest[j]).0, name) by {
            assert(rest[j] == entries[j]);
        }
        lemma_values_of_first(rest, name, i);
    }
}

/// A name has a value exactly when some entry has the name.
pub proof fn lemma_values_of_present(entries: Seq<(Seq<u8>, Seq<u8>)>, name: Seq<u8>)
    ensures
        values_of(entries, name).len() > 0 <==> has_name(entries, name),
    decreases entries.len(),
{
    if entries.len() > 0 {
        let rest = entries.drop_last();
        lemma_values_of_present(rest, name);
        if eq_ignore_case(entries.last().0, name) {
            assert(eq_ignore_case(entries[entries.len() - 1].0, name));
        } else if values_of(entries, name).len() > 0 {
            let j = choose|j: int| 0 <= j < rest.len() && eq_ignore_case((#[trigger] rest[j]).0, name);
            assert(rest[j] == entries[j]);
        } else {
            assert forall|j: int| 0 <= j < entries.len() implies !eq_ignore_case(
                (#[trigger] entries[j]).0,
                name,
            ) by {
                if j < rest.len() {
                    assert(rest[j] == entries[j]);
                }
            }
        }
    }
}

/// Two spellings of a name that differ only in case find the same values
/// and remove the same entries.
pub proof fn lemma_lookup_ignores_case(
    entries: Seq<(Seq<u8>, Seq<u8>)>,
    a: Seq<u8>,
    b: Seq<u8>,
)
    requires
        eq_ignore_case(a, b),
    ensures
        values_of(entries, a) == values_of(entries, b),
        first_value(entries, a) == first_value(entries, b),
        without(entries, a) == without(entries, b),
    decreases entries.len(),
{
    if entries.len() > 0 {
        lemma_lookup_ignores_case(entries.drop_last(), a, b);
    }
}

/// After a value is inserted under one spelling of a name, a lookup under
/// any other spelling finds a value, and the same one as under the first.
pub proof fn lemma_inserted_is_found(
    entries: Seq<(Seq<u8>, Seq<u8>)>,
    inserted_as: Seq<u8>,
    value: Seq<u8>,
    looked_up_as: Seq<u8>,
)
    requires
        eq_ignore_case(inserted_as, looked_up_as),
    ensures
        first_value(entries.push((inserted_as, value)), looked_up_as) is Some,
        first_value(entries.push((inserted_as, value)), looked_up_as) == first_value(
            entries.push((inserted_as, value)),
            inserted_as,
        ),
        values_of(entries.push((inserted_as, value)), looked_up_as).last() == value,
{
    let after = entries.push((inserted_as, value));
    assert(after.drop_last() =~= entries);
    assert(after.last() == (inserted_as, value));
    lemma_lookup_ignores_case(after, inserted_as, looked_up_as);
}

/// An ordered multimap from header names to values. Entries keep the order
/// in which they were inserted; names compare without regard to ASCII case
/// and are stored as given.
#[derive(Debug, PartialEq, Eq)]
pub struct HeaderMap {
    fields: Vec<HeaderField>,
}

impl View for HeaderMap {
    type V = Seq<(Seq<u8>, Seq<u8>)>;

    closed spec fn view(&self) -> Seq<(Seq<u8>, Seq<u8>)> {
        fields_view(self.fields@)
    }
}

impl Clone for HeaderMap {
    fn clone(&self) -> (r: Self)
        ensures
            r@ == self@,
    {
        let mut fields: Vec<HeaderField> = Vec::new();
        let mut i: usize = 0;
        while i < self.fields.len()
            invariant
                i <= self.fields@.len(),
                fields@.len() == i,
                forall|j: int| 0 <= j < i ==> fields@[j]@ == self.fields@[j]@,
            decreases self.fields@.len() - i,
        {
            fields.push(self.fields[i].clone());
            i += 1;
        }
        assert(fields_view(fields@) =~= fields_view(self.fields@));
        HeaderMap { fields }
    }
}

impl HeaderMap {
    /// An empty collection.
    pub fn new() -> (r: HeaderMap)
        ensures
            r@ == Seq::<(Seq<u8>, Seq<u8>)>::empty(),
    {
        let r = HeaderMap { fields: Vec::new() };
        assert(r@ =~= Seq::<(Seq<u8>, Seq<u8>)>::empty());
        r
    }

    /// The number of entries; a name that occurs twice counts twice.
    pub fn len(&self) -> (n: usize)
        ensures
            n == self@.len(),
    {
        self.fields.len()
    }

    pub fn is_empty(&self) -> (r: bool)
        ensures
            r == (self@.len() == 0),
    {
        self.fields.len() == 0
    }

    /// The entry at position `i` in insertion order.
    pub fn field(&self, i: usize) -> (f: &HeaderField)
        requires
            i < self@.len(),
        ensures
            f@ == self@[i as int],
    {
        &self.fields[i]
    }

    /// Appends an entry; entries already stored under the name stay.
    pub fn insert(&mut self, name: &[u8], value: &[u8])
        ensures
            final(self)@ == old(self)@.push((name@, value@)),
    {
        let f = HeaderField {
            name: vstd::slice::slice_to_vec(name),
            value: vstd::slice::slice_to_vec(value),
        };
        self.append(f);
    }

    /// Appends an entry that is already built.
    pub fn append(&mut self, f: HeaderField)
        ensures
            final(self)@ == old(self)@.push(f@),
    {
        self.fields.push(f);
        assert(self@ =~= old(self)@.push(f@));
    }

    /// Whether some entry has the name.
    pub fn contains(&self, name: &[u8]) -> (r: bool)
        ensures
            r == has_name(self@, name@),
            r == (values_of(self@, name@).len() > 0),
    {
        proof {
            lemma_values_of_present(self@, name@);
        }
        let mut i: usize = 0;
        while i < self.fields.len()
            invariant
                i <= self.fields@.len(),
                forall|j: int| 0 <= j < i ==> !eq_ignore_case((#[trigger] self@[j]).0, name@),
            decreases self.fields@.len() - i,
        {
            if eq_ignore_ascii_case(self.fields[i].name.as_slice(), name) {
                proof {
                    assert(self@[i as int] == self.fields@[i as int]@);
                    lemma_values_of_first(self@, name@, i as int);
                }
                return true;
            }
            assert(self@[i as int] == self.fields@[i as int]@);
            i += 1;
        }
        proof {
            lemma_values_of_absent(self@, name@);
        }
        false
    }

    /// The oldest value stored under the name.
    pub fn get_first(&self, name: &[u8]) -> (r: Option<&[u8]>)
        ensures
            match r {
                Some(v) => first_value(self@, name@) == Some(v@),
                None => first_value(self@, name@) is None,
            },
    {
        let mut i: usize = 0;
        while i < self.fields.len()
            invariant
                i <= self.fields@.len(),
                forall|j: int| 0 <= j < i ==> !eq_ignore_case((#[trigger] self@[j]).0, name@),
            decreases self.fields@.len() - i,
        {
            if eq_ignore_ascii_case(self.fields[i].name.as_slice(), name) {
                proof {
                    assert(self@[i as int] == self.fields@[i as int]@);
                    lemma_values_of_first(self@, name@, i as int);
                }
                return Some(self.fields[i].value.as_slice());
            }
            assert(self@[i as int] == self.fields@[i as int]@);
            i += 1;
        }
        proof {
            lemma_values_of_absent(self@, name@);
        }
        None
    }

    /// Every value stored under the name, oldest first.
    pub fn get_all(&self, name: &[u8]) -> (r: Vec<&[u8]>)
        ensures
            r@.len() == values_of(self@, name@).len(),
            forall|k: int| 0 <= k < r@.len() ==> (#[trigger] r@[k])@ == values_of(self@, name@)[k],
    {
        let mut out: Vec<&[u8]> = Vec::new();
        let mut i: usize = 0;
        assert(self@.take(0) =~= Seq::<(Seq<u8>, Seq<u8>)>::empty());
        while i < self.fields.len()
            invariant
                i <= self.fields@.len(),
                out@.len() == values_of(self@.take(i as int), name@).len(),
                forall|k: int|
                    0 <= k < out@.len() ==> (#[trigger] out@[k])@ == values_of(
                        self@.take(i as int),
                        name@,
                    )[k],
            decreases self.fields@.len() - i,
        {
            proof {
                let next = self@.take(i + 1);
                assert(next.drop_last() =~= self@.take(i as int));
                assert(next.last() == self.fields@[i as int]@);
            }
            if eq_ignore_ascii_case(self.fields[i].name.as_slice(), name) {
                out.push(self.fields[i].value.as_slice());
            }
            i += 1;
        }
        assert(self@.take(i as int) =~= self@);
        out
    }

    /// Removes every entry with the name and says how many there were. The
    /// other entries keep their order.
    pub fn remove(&mut self, name: &[u8]) -> (removed: usize)
        ensures
            final(self)@ == without(old(self)@, name@),
            removed == old(self)@.len() - final(self)@.len(),
    {
        let ghost before = self.fields@;
        let total: usize = self.fields.len();
        let ghost n = total as int;
        let mut stack: Vec<HeaderField> = Vec::new();
        while self.fields.len() > 0
            invariant
                n == total,
                self.fields@.len() + stack@.len() == n,
                n == before.len(),
                forall|j: int| 0 <= j < self.fields@.len() ==> self.fields@[j] == before[j],
                forall|j: int| 0 <= j < stack@.len() ==> stack@[j] == before[n - 1 - j],
            decreases self.fields@.len(),
        {
            let f = self.fields.pop().unwrap();
            stack.push(f);
        }
        let mut removed: usize = 0;
        assert(fields_view(before).take(0) =~= Seq::<(Seq<u8>, Seq<u8>)>::empty());
        while stack.len() > 0
            invariant
                n == before.len(),
                n == total,
                stack@.len() <= n,
                forall|j: int| 0 <= j < stack@.len() ==> stack@[j] == before[n - 1 - j],
                self@ == without(fields_view(before).take(n - stack@.len()), name@),
                removed + self.fields@.len() == n - stack@.len(),
            decreases stack@.len(),
        {
            let ghost k = n - stack@.len();
            let ghost kept = self@;
            let f = stack.pop().unwrap();
            proof {
                let next = fields_view(before).take(k + 1);
                assert(f == before[k]);
                assert(next.drop_last() =~= fields_view(before).take(k));
                assert(next.last() == f@);
            }
            if eq_ignore_ascii_case(f.name.as_slice(), name) {
                removed += 1;
            } else {
                self.fields.push(f);
                assert(self@ =~= kept.push(f@));
            }
        }
        assert(fields_view(before).take(n) =~= fields_view(before));
        removed
    }

    /// Replaces every entry stored under the name by one new entry, which
    /// goes to the end.
    pub fn set(&mut self, name: &[u8], value: &[u8])
        ensures
            final(self)@ == without(old(self)@, name@).push((name@, value@)),
    {
        self.remove(name);
        self.insert(name, value);
    }

    /// Writes every entry as a header line, in the stored order.
    pub fn write_to(&self, out: &mut Vec<u8>)
        ensures
            final(out)@ == old(out)@ + header_lines(self@),
    {
        let mut i: usize = 0;
        assert(self@.take(0) =~= Seq::<(Seq<u8>, Seq<u8>)>::empty());
        assert(out@ =~= old(out)@ + header_lines(self@.take(0)));
        while i < self.fields.len()
            invariant
                i <= self.fields@.len(),
                out@ == old(out)@ + header_lines(self@.take(i as int)),
            decreases self.fields@.len() - i,
        {
            proof {
                let next = self@.take(i + 1);
                assert(next.drop_last() =~= self@.take(i as int));
                assert(next.last() == self.fields@[i as int]@);
            }
            write_header_line(out, &self.fields[i]);
            assert(out@ =~= old(out)@ + header_lines(self@.take(i + 1)));
            i += 1;
        }
        assert(self@.take(i as int) =~= self@);
    }
}

/// The header that a line denotes, the line taken without its CRLF: the
/// name is what stands before the first colon and must be a token; the value
/// is the rest without the whitespace around it.
pub open spec fn header_of_line(line: Seq<u8>) -> Option<(Seq<u8>, Seq<u8>)> {
    let colon = index_of(line, COLON, 0);
    if colon < line.len() && is_token(line.subrange(0, colon)) {
        Some((line.subrange(0, colon), trim_ows(line.subrange(colon + 1, line.len() as int))))
    } else {
        None
    }
}

/// The line written for a header: name, colon, space, value, CRLF.
pub open spec fn header_line(h: (Seq<u8>, Seq<u8>)) -> Seq<u8> {
    h.0 + seq![COLON, SP] + h.1 + seq![CR, LF]
}

/// The lines written for a sequence of headers, in order.
pub open spec fn header_lines(entries: Seq<(Seq<u8>, Seq<u8>)>) -> Seq<u8>
    decreases entries.len(),
{
    if entries.len() == 0 {
        Seq::empty()
    } else {
        header_lines(entries.drop_last()) + header_line(entries.last())
    }
}

/// What the line at `pos` of a header block means.
pub enum HeaderStepView {
    /// A header; the next line starts at `next`.
    Field { name: Seq<u8>, value: Seq<u8>, next: int },
    /// The empty line that closes the block; what follows starts at `next`.
    End { next: int },
    /// The line is not complete yet.
    NeedMore,
    /// The line is too long or is no header.
    Failed(CodecError),
}

/// The meaning of the line at `pos` of the header block that began at
/// `start`.
pub open spec fn header_step(s: Seq<u8>, pos: int, start: int, limits: Limits) -> HeaderStepView {
    match line_scan(s, pos, line_budget(limits, start, pos)) {
        LineScan::Incomplete => HeaderStepView::NeedMore,
        LineScan::TooLong => HeaderStepView::Failed(CodecError::MessageTooLarge),
        LineScan::Line(e) => if e == pos {
            HeaderStepView::End { next: e + 2 }
        } else {
            match header_of_line(s.subrange(pos, e)) {
                Some(h) => HeaderStepView::Field { name: h.0, value: h.1, next: e + 2 },
                None => HeaderStepView::Failed(CodecError::MalformedHeader),
            }
        },
    }
}

/// The outcome of reading a header block.
pub enum BlockParse {
    /// The block is complete; what follows it starts at `end`.
    Done { headers: Seq<(Seq<u8>, Seq<u8>)>, end: int },
    /// The block is not complete yet.
    NeedMore,
    /// The block is rejected.
    Failed(CodecError),
}

/// Reads the header block of `s` from `pos` on, where the block began at
/// `start` and `acc` holds the headers in front of `pos`.
pub open spec fn header_block(
    s: Seq<u8>,
    pos: int,
    start: int,
    limits: Limits,
    acc: Seq<(Seq<u8>, Seq<u8>)>,
) -> BlockParse
    decreases s.len() - pos,
{
    match header_step(s, pos, start, limits) {
        HeaderStepView::NeedMore => BlockParse::NeedMore,
        HeaderStepView::Failed(e) => BlockParse::Failed(e),
        HeaderStepView::End { next } => BlockParse::Done { headers: acc, end: next },
        HeaderStepView::Field { name, value, next } => if pos < next <= s.len() {
            header_block(s, next, start, limits, acc.push((name, value)))
        } else {
            BlockParse::NeedMore
        },
    }
}

/// A step that is decided lies inside the input and moves forward.
pub proof fn lemma_header_step_bounds(s: Seq<u8>, pos: int, start: int, limits: Limits)
    requires
        0 <= pos,
    ensures
        match header_step(s, pos, start, limits) {
            HeaderStepView::Field { name, value, next } => pos + 2 < next <= s.len(),
            HeaderStepView::End { next } => next == pos + 2 && next <= s.len(),
            _ => true,
        },
{
    lemma_find_crlf_first(s, pos);
}

/// A line that is decided means the same when bytes are added behind it.
pub proof fn lemma_header_step_extend(
    s: Seq<u8>,
    t: Seq<u8>,
    pos: int,
    start: int,
    limits: Limits,
)
    requires
        is_prefix(s, t),
        0 <= pos <= s.len(),
        !(header_step(s, pos, start, limits) is NeedMore),
    ensures
        header_step(t, pos, start, limits) == header_step(s, pos, start, limits),
{
    let max = line_budget(limits, start, pos);
    lemma_line_scan_extend(s, t, pos, max);
    lemma_find_crlf_first(s, pos);
    match line_scan(s, pos, max) {
        LineScan::Line(e) => {
            lemma_prefix_subrange(s, t, pos, e);
        },
        _ => {},
    }
}

/// A header block that is decided stays decided, in the same way, when bytes
/// are added behind it.
pub proof fn lemma_header_block_extend(
    s: Seq<u8>,
    t: Seq<u8>,
    pos: int,
    start: int,
    limits: Limits,
    acc: Seq<(Seq<u8>, Seq<u8>)>,
)
    requires
        is_prefix(s, t),
        0 <= pos <= s.len(),
        !(header_block(s, pos, start, limits, acc) is NeedMore),
    ensures
        header_block(t, pos, start, limits, acc) == header_block(s, pos, start, limits, acc),
    decreases s.len() - pos,
{
    lemma_header_step_extend(s, t, pos, start, limits);
    lemma_header_step_bounds(s, pos, start, limits);
    match header_step(s, pos, start, limits) {
        HeaderStepView::Field { name, value, next } => {
            lemma_header_block_extend(s, t, next, start, limits, acc.push((name, value)));
        },
        _ => {},
    }
}

/// Reads one header from a line, the line given without its CRLF.
pub fn parse_header_line(line: &[u8]) -> (r: Result<HeaderField, CodecError>)
    ensures
        match header_of_line(line@) {
            Some(h) => r matches Ok(f) && f@ == h,
            None => r == Err::<HeaderField, CodecError>(CodecError::MalformedHeader),
        },
{
    let colon = find_byte(line, COLON, 0);
    if colon >= line.len() {
        return Err(CodecError::MalformedHeader);
    }
    let name = copy_range(line, 0, colon);
    if !check_token(name.as_slice()) {
        return Err(CodecError::MalformedHeader);
    }
    let (a, b) = trim_bounds(line, colon + 1, line.len());
    let value = copy_range(line, a, b);
    Ok(HeaderField { name, value })
}

/// Writes one header as a line.
pub fn write_header_line(out: &mut Vec<u8>, f: &HeaderField)
    ensures
        final(out)@ == old(out)@ + header_line(f@),
{
    append_bytes(out, f.name.as_slice());
    out.push(COLON);
    out.push(SP);
    append_bytes(out, f.value.as_slice());
    out.push(CR);
    out.push(LF);
    assert(out@ =~= old(out)@ + header_line(f@));
}

/// What the decoder found at one line of a header block.
#[derive(Debug, PartialEq, Eq)]
pub enum HeaderStep {
    /// A header; the next line starts at the position given.
    Field(HeaderField, usize),
    /// The empty line that closes the block, and where the rest starts.
    End(usize),
    /// The line is not complete yet.
    NeedMore,
    /// The line is too long or is no header.
    Failed(CodecError),
}

impl View for HeaderStep {
    type V = HeaderStepView;

    open spec fn view(&self) -> HeaderStepView {
        match *self {
            HeaderStep::Field(f, next) => HeaderStepView::Field {
                name: f@.0,
                value: f@.1,
                next: next as int,
            },
            HeaderStep::End(next) => HeaderStepView::End { next: next as int },
            HeaderStep::NeedMore => HeaderStepView::NeedMore,
            HeaderStep::Failed(e) => HeaderStepView::Failed(e),
        }
    }
}

/// Reads the line at `pos` of the header block that began at `start`.
pub fn read_header_line(buf: &[u8], pos: usize, start: usize, limits: &Limits) -> (r: HeaderStep)
    requires
        start <= pos <= buf@.len(),
    ensures
        r@ == header_step(buf@, pos as int, start as int, *limits),
{
    let max = limits.budget(start, pos);
    match scan_line(buf, pos, max) {
        Scanned::Incomplete => HeaderStep::NeedMore,
        Scanned::TooLong => HeaderStep::Failed(CodecError::MessageTooLarge),
        Scanned::Line(e) => {
            proof {
                lemma_find_crlf_first(buf@, pos as int);
                assert(crlf_at(buf@, e as int));
            }
            assert(e + 2 <= buf.len());
            if e == pos {
                HeaderStep::End(e + 2)
            } else {
                let line = vstd::slice::slice_subrange(buf, pos, e);
                match parse_header_line(line) {
                    Ok(f) => HeaderStep::Field(f, e + 2),
                    Err(_) => HeaderStep::Failed(CodecError::MalformedHeader),
                }
            }
        },
    }
}

/// What the decoder found of a whole header block.
#[derive(Debug, PartialEq, Eq)]
pub enum BlockRead {
    /// The headers of the block, and where the rest starts.
    Done(HeaderMap, usize),
    /// The block is not complete yet.
    NeedMore,
    /// The block is rejected.
    Failed(CodecError),
}

impl View for BlockRead {
    type V = BlockParse;

    open spec fn view(&self) -> BlockParse {
        match *self {
            BlockRead::Done(h, end) => BlockParse::Done { headers: h@, end: end as int },
            BlockRead::NeedMore => BlockParse::NeedMore,
            BlockRead::Failed(e) => BlockParse::Failed(e),
        }
    }
}

/// Reads the header block that begins at `start`.
pub fn read_header_block(buf: &[u8], start: usize, limits: &Limits) -> (r: BlockRead)
    requires
        start <= buf@.len(),
    ensures
        r@ == header_block(
            buf@,
            start as int,
            start as int,
            *limits,
            Seq::<(Seq<u8>, Seq<u8>)>::empty(),
        ),
{
    let mut headers = HeaderMap::new();
    let mut pos: usize = start;
    loop
        invariant
            start <= pos <= buf@.len(),
            header_block(
                buf@,
                start as int,
                start as int,
                *limits,
                Seq::<(Seq<u8>, Seq<u8>)>::empty(),
            ) == header_block(buf@, pos as int, start as int, *limits, headers@),
        decreases buf@.len() - pos,
    {
        proof {
            lemma_header_step_bounds(buf@, pos as int, start as int, *limits);
        }
        match read_header_line(buf, pos, start, limits) {
            HeaderStep::NeedMore => {
                return BlockRead::NeedMore;
            },
            HeaderStep::Failed(e) => {
                return BlockRead::Failed(e);
            },
            HeaderStep::End(next) => {
                return BlockRead::Done(headers, next);
            },
            HeaderStep::Field(f, next) => {
                headers.append(f);
                pos = next;
            },
        }
    }
}

} // verus!
