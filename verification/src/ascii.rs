//! Byte classes of the wire grammar, case folding, searching, trimming and
//! the two number notations (decimal lengths, hexadecimal chunk sizes).
use vstd::prelude::*;
use vstd::string::*;

verus! {

pub const CR: u8 = 13;

pub const LF: u8 = 10;

pub const SP: u8 = 32;

pub const HTAB: u8 = 9;

pub const COLON: u8 = 58;

pub const SEMICOLON: u8 = 59;

pub const COMMA: u8 = 44;

/// Whether `b` may appear in a token: a letter, a digit, or one of
/// ``! # $ % & ' * + - . ^ _ ` | ~``.
pub open spec fn is_token_byte(b: u8) -> bool {
    ||| 48 <= b <= 57
    ||| 65 <= b <= 90
    ||| 97 <= b <= 122
    ||| b == 33
    ||| 35 <= b <= 39
    ||| b == 42
    ||| b == 43
    ||| b == 45
    ||| b == 46
    ||| 94 <= b <= 96
    ||| b == 124
    ||| b == 126
}

/// A token is a non-empty run of token bytes.
pub open spec fn is_token(s: Seq<u8>) -> bool {
    s.len() > 0 && forall|i: int| 0 <= i < s.len() ==> is_token_byte(#[trigger] s[i])
}

/// Optional whitespace: a space or a horizontal tab.
pub open spec fn is_ows(b: u8) -> bool {
    b == SP || b == HTAB
}

/// The ASCII lower-case form of a byte; bytes other than `A`..`Z` are kept.
pub open spec fn lower(b: u8) -> u8 {
    if 65 <= b <= 90 {
        (b + 32) as u8
    } else {
        b
    }
}

/// A byte sequence with every ASCII upper-case letter folded to lower case.
pub open spec fn folded(s: Seq<u8>) -> Seq<u8> {
    Seq::new(s.len(), |i: int| lower(s[i]))
}

/// Equality of two byte sequences up to ASCII case.
pub open spec fn eq_ignore_case(a: Seq<u8>, b: Seq<u8>) -> bool {
    folded(a) == folded(b)
}

/// The bytes of a text that holds ASCII characters only.
pub open spec fn ascii_bytes(s: Seq<char>) -> Seq<u8> {
    Seq::new(s.len(), |i: int| s[i] as u8)
}

/// `s` is an initial segment of `t`.
pub open spec fn is_prefix(s: Seq<u8>, t: Seq<u8>) -> bool {
    s.len() <= t.len() && forall|i: int| 0 <= i < s.len() ==> #[trigger] t[i] == s[i]
}

/// The position of the first `b` in `s` at or after `from`, or `s.len()`
/// where there is none.
pub open spec fn index_of(s: Seq<u8>, b: u8, from: int) -> int
    decreases s.len() - from,
{
    if from < 0 || from >= s.len() {
        s.len() as int
    } else if s[from] == b {
        from
    } else {
        index_of(s, b, from + 1)
    }
}

/// The position of the last `b` in `s` before `to`, or `-1` where there is
/// none.
pub open spec fn last_index_of(s: Seq<u8>, b: u8, to: int) -> int
    decreases to,
{
    if to <= 0 || to > s.len() {
        -1
    } else if s[to - 1] == b {
        to - 1
    } else {
        last_index_of(s, b, to - 1)
    }
}

/// The first position at or after `from` that holds no optional whitespace.
pub open spec fn skip_ows(s: Seq<u8>, from: int) -> int
    decreases s.len() - from,
{
    if 0 <= from < s.len() && is_ows(s[from]) {
        skip_ows(s, from + 1)
    } else {
        from
    }
}

/// The end of `s[from..to]` once its trailing optional whitespace is cut.
pub open spec fn skip_ows_back(s: Seq<u8>, from: int, to: int) -> int
    decreases to,
{
    if 0 <= from < to <= s.len() && is_ows(s[to - 1]) {
        skip_ows_back(s, from, to - 1)
    } else {
        to
    }
}

/// `s` without its leading and trailing optional whitespace.
pub open spec fn trim_ows(s: Seq<u8>) -> Seq<u8> {
    let a = skip_ows(s, 0);
    let b = skip_ows_back(s, a, s.len() as int);
    s.subrange(a, b)
}

/// Neither end of `s` is optional whitespace, so trimming leaves it as it is.
pub open spec fn is_trimmed(s: Seq<u8>) -> bool {
    s.len() > 0 ==> !is_ows(s[0]) && !is_ows(s[s.len() - 1])
}

pub open spec fn is_digit(b: u8) -> bool {
    48 <= b <= 57
}

pub open spec fn all_digits(s: Seq<u8>) -> bool {
    forall|i: int| 0 <= i < s.len() ==> is_digit(#[trigger] s[i])
}

/// The number that a run of decimal digits denotes, most significant first.
pub open spec fn decimal_value(s: Seq<u8>) -> nat
    decreases s.len(),
{
    if s.len() == 0 {
        0
    } else {
        (decimal_value(s.drop_last()) * 10 + (s.last() - 48)) as nat
    }
}

/// The reading of `s` as a decimal number: defined for a non-empty run of
/// digits whose value fits in 64 bits.
pub open spec fn decimal_of(s: Seq<u8>) -> Option<u64> {
    if s.len() > 0 && all_digits(s) && decimal_value(s) <= u64::MAX {
        Some(decimal_value(s) as u64)
    } else {
        None
    }
}

pub open spec fn is_hex_digit(b: u8) -> bool {
    48 <= b <= 57 || 65 <= b <= 70 || 97 <= b <= 102
}

pub open spec fn all_hex_digits(s: Seq<u8>) -> bool {
    forall|i: int| 0 <= i < s.len() ==> is_hex_digit(#[trigger] s[i])
}

/// The value of one hexadecimal digit, either case.
pub open spec fn hex_digit_value(b: u8) -> nat {
    if 48 <= b <= 57 {
        (b - 48) as nat
    } else if 65 <= b <= 70 {
        (b - 55) as nat
    } else {
        (b - 87) as nat
    }
}

/// The number that a run of hexadecimal digits denotes.
pub open spec fn hex_value(s: Seq<u8>) -> nat
    decreases s.len(),
{
    if s.len() == 0 {
        0
    } else {
        hex_value(s.drop_last()) * 16 + hex_digit_value(s.last())
    }
}

/// The reading of `s` as a hexadecimal number: defined for a non-empty run
/// of hexadecimal digits whose value fits in a `usize`.
pub open spec fn hex_of(s: Seq<u8>) -> Option<usize> {
    if s.len() > 0 && all_hex_digits(s) && hex_value(s) <= usize::MAX {
        Some(hex_value(s) as usize)
    } else {
        None
    }
}

/// The lower-case hexadecimal digit for a value below sixteen.
pub open spec fn hex_digit_of(d: nat) -> u8 {
    if d < 10 {
        (48 + d) as u8
    } else {
        (87 + d) as u8
    }
}

/// The shortest lower-case hexadecimal notation of `n`.
pub open spec fn hex_digits(n: nat) -> Seq<u8>
    decreases n,
{
    if n < 16 {
        seq![hex_digit_of(n)]
    } else {
        hex_digits(n / 16).push(hex_digit_of(n % 16))
    }
}

/// The shortest decimal notation of `n`.
pub open spec fn decimal_digits(n: nat) -> Seq<u8>
    decreases n,
{
    if n < 10 {
        seq![(48 + n) as u8]
    } else {
        decimal_digits(n / 10).push((48 + n % 10) as u8)
    }
}

/// No byte of `s` is a carriage return or a line feed, so `s` can stand
/// inside a line.
pub open spec fn is_line_safe(s: Seq<u8>) -> bool {
    forall|i: int| 0 <= i < s.len() ==> #[trigger] s[i] != CR && s[i] != LF
}

/// No byte of `s` is `b`.
pub open spec fn has_no(s: Seq<u8>, b: u8) -> bool {
    forall|i: int| 0 <= i < s.len() ==> #[trigger] s[i] != b
}

pub proof fn lemma_is_prefix_concat(s: Seq<u8>, x: Seq<u8>)
    ensures
        is_prefix(s, s + x),
{
}

pub proof fn lemma_is_prefix_transitive(a: Seq<u8>, b: Seq<u8>, c: Seq<u8>)
    requires
        is_prefix(a, b),
        is_prefix(b, c),
    ensures
        is_prefix(a, c),
{
    assert forall|i: int| 0 <= i < a.len() implies #[trigger] c[i] == a[i] by {
        assert(b[i] == a[i]);
    }
}

/// A prefix agrees with the whole on every range that lies inside it.
pub proof fn lemma_prefix_subrange(s: Seq<u8>, t: Seq<u8>, from: int, to: int)
    requires
        is_prefix(s, t),
        0 <= from <= to <= s.len(),
    ensures
        t.subrange(from, to) == s.subrange(from, to),
{
    assert forall|i: int| 0 <= i < to - from implies t.subrange(from, to)[i] == s.subrange(
        from,
        to,
    )[i] by {
        assert(t[from + i] == s[from + i]);
    }
    assert(t.subrange(from, to) =~= s.subrange(from, to));
}

/// `index_of` is the position `i` as soon as `i` holds `b` (or is the end)
/// and nothing between `from` and `i` does.
pub proof fn lemma_index_of_is(s: Seq<u8>, b: u8, from: int, i: int)
    requires
        0 <= from <= i <= s.len(),
        i < s.len() ==> s[i] == b,
        forall|j: int| from <= j < i ==> #[trigger] s[j] != b,
    ensures
        index_of(s, b, from) == i,
    decreases i - from,
{
    if from < i {
        lemma_index_of_is(s, b, from + 1, i);
    }
}

pub proof fn lemma_last_index_of_bounds(s: Seq<u8>, b: u8, to: int)
    requires
        0 <= to <= s.len(),
    ensures
        -1 <= last_index_of(s, b, to) < to,
        last_index_of(s, b, to) >= 0 ==> s[last_index_of(s, b, to)] == b,
        forall|j: int| last_index_of(s, b, to) < j < to ==> #[trigger] s[j] != b,
    decreases to,
{
    if to > 0 && s[to - 1] != b {
        lemma_last_index_of_bounds(s, b, to - 1);
    }
}

pub proof fn lemma_skip_ows_back_bounds(s: Seq<u8>, from: int, to: int)
    requires
        0 <= from <= to <= s.len(),
    ensures
        from <= skip_ows_back(s, from, to) <= to,
    decreases to,
{
    if from < to && is_ows(s[to - 1]) {
        lemma_skip_ows_back_bounds(s, from, to - 1);
    }
}

/// Trimming skips any run of whitespace in front of a trimmed sequence.
pub proof fn lemma_trim_leading(pad: Seq<u8>, v: Seq<u8>)
    requires
        is_trimmed(v),
        forall|i: int| 0 <= i < pad.len() ==> is_ows(#[trigger] pad[i]),
    ensures
        trim_ows(pad + v) == v,
{
    let s = pad + v;
    lemma_skip_over(s, 0, pad.len() as int);
    if v.len() == 0 {
        lemma_skip_ows_back_bounds(s, pad.len() as int, s.len() as int);
        assert(s.subrange(pad.len() as int, pad.len() as int) =~= v);
    } else {
        assert(s[pad.len() as int] == v[0]);
        assert(skip_ows(s, pad.len() as int) == pad.len());
        assert(s[s.len() - 1] == v[v.len() - 1]);
        assert(skip_ows_back(s, pad.len() as int, s.len() as int) == s.len());
        assert(s.subrange(pad.len() as int, s.len() as int) =~= v);
    }
}

proof fn lemma_skip_over(s: Seq<u8>, from: int, to: int)
    requires
        0 <= from <= to <= s.len(),
        forall|i: int| from <= i < to ==> is_ows(#[trigger] s[i]),
    ensures
        skip_ows(s, from) == skip_ows(s, to),
    decreases to - from,
{
    if from < to {
        lemma_skip_over(s, from + 1, to);
    }
}

/// A longer run of digits never denotes a smaller number than its prefix.
pub proof fn lemma_decimal_value_grows(s: Seq<u8>, k: int)
    requires
        0 <= k <= s.len(),
        all_digits(s),
    ensures
        decimal_value(s.take(k)) <= decimal_value(s),
    decreases s.len() - k,
{
    if k < s.len() {
        lemma_decimal_value_grows(s.drop_last(), k);
        assert(s.drop_last().take(k) =~= s.take(k));
        assert(is_digit(s[s.len() - 1]));
    } else {
        assert(s.take(k) =~= s);
    }
}

pub proof fn lemma_hex_value_grows(s: Seq<u8>, k: int)
    requires
        0 <= k <= s.len(),
    ensures
        hex_value(s.take(k)) <= hex_value(s),
    decreases s.len() - k,
{
    if k < s.len() {
        lemma_hex_value_grows(s.drop_last(), k);
        assert(s.drop_last().take(k) =~= s.take(k));
    } else {
        assert(s.take(k) =~= s);
    }
}

/// The notation that `hex_digits` writes is read back as the same number.
pub proof fn lemma_hex_digits_round_trip(n: nat)
    ensures
        hex_digits(n).len() > 0,
        all_hex_digits(hex_digits(n)),
        hex_value(hex_digits(n)) == n,
        index_of(hex_digits(n), SEMICOLON, 0) == hex_digits(n).len(),
        forall|i: int| 0 <= i < hex_digits(n).len() ==> #[trigger] hex_digits(n)[i] != CR,
    decreases n,
{
    let s = hex_digits(n);
    if n < 16 {
        assert(s.drop_last() =~= Seq::<u8>::empty());
        assert(hex_value(s.drop_last()) == 0);
        assert(hex_value(s) == hex_digit_value(s.last()));
    } else {
        lemma_hex_digits_round_trip(n / 16);
        let p = hex_digits(n / 16);
        assert(s.drop_last() =~= p);
        assert(s.last() == hex_digit_of(n % 16));
        assert(hex_digit_value(hex_digit_of(n % 16)) == n % 16);
        assert(forall|i: int| 0 <= i < p.len() ==> s[i] == p[i]);
    }
    assert forall|j: int| 0 <= j < s.len() implies #[trigger] s[j] != SEMICOLON by {
        assert(is_hex_digit(s[j]));
    }
    lemma_index_of_is(s, SEMICOLON, 0, s.len() as int);
}

/// The notation that `decimal_digits` writes is read back as the same
/// number.
pub proof fn lemma_decimal_digits_round_trip(n: nat)
    ensures
        decimal_digits(n).len() > 0,
        all_digits(decimal_digits(n)),
        decimal_value(decimal_digits(n)) == n,
        100 <= n <= 999 ==> decimal_digits(n).len() == 3,
    decreases n,
{
    let s = decimal_digits(n);
    if n < 10 {
        assert(s.drop_last() =~= Seq::<u8>::empty());
        assert(decimal_value(s.drop_last()) == 0);
    } else {
        lemma_decimal_digits_round_trip(n / 10);
        let p = decimal_digits(n / 10);
        assert(s.drop_last() =~= p);
        assert(forall|i: int| 0 <= i < p.len() ==> s[i] == p[i]);
        if 100 <= n <= 999 {
            let q = decimal_digits(n / 100);
            assert(n / 10 / 10 == n / 100);
            assert(p == q.push((48 + (n / 10) % 10) as u8));
            assert(q.len() == 1);
        }
    }
}

/// A run of three digits denotes hundreds, tens and units.
pub proof fn lemma_decimal_value_three(s: Seq<u8>)
    requires
        s.len() == 3,
    ensures
        decimal_value(s) == (s[0] - 48) * 100 + (s[1] - 48) * 10 + (s[2] - 48) || !all_digits(s),
{
    if all_digits(s) {
        let s2 = s.drop_last();
        let s1 = s2.drop_last();
        let s0 = s1.drop_last();
        assert(s0.len() == 0);
        assert(s1.last() == s[0]);
        assert(s2.last() == s[1]);
        assert(is_digit(s[0]) && is_digit(s[1]) && is_digit(s[2]));
        assert(decimal_value(s0) == 0);
        assert(decimal_value(s1) == s[0] - 48);
        assert(decimal_value(s2) == (s[0] - 48) * 10 + (s[1] - 48));
    }
}

pub fn is_token_char(b: u8) -> (r: bool)
    ensures
        r == is_token_byte(b),
{
    (48 <= b && b <= 57) || (65 <= b && b <= 90) || (97 <= b && b <= 122) || b == 33 || (35 <= b
        && b <= 39) || b == 42 || b == 43 || b == 45 || b == 46 || (94 <= b && b <= 96) || b == 124
        || b == 126
}

pub fn to_lower(b: u8) -> (r: u8)
    ensures
        r == lower(b),
{
    if 65 <= b && b <= 90 {
        b + 32
    } else {
        b
    }
}

/// Compares two byte strings up to ASCII case, in place.
pub fn eq_ignore_ascii_case(a: &[u8], b: &[u8]) -> (r: bool)
    ensures
        r == eq_ignore_case(a@, b@),
{
    if a.len() != b.len() {
        assert(folded(a@).len() != folded(b@).len());
        return false;
    }
    let mut i: usize = 0;
    while i < a.len()
        invariant
            i <= a.len(),
            a.len() == b.len(),
            forall|j: int| 0 <= j < i ==> lower(a@[j]) == lower(b@[j]),
        decreases a.len() - i,
    {
        if to_lower(a[i]) != to_lower(b[i]) {
            assert(folded(a@)[i as int] != folded(b@)[i as int]);
            return false;
        }
        i += 1;
    }
    assert(folded(a@) =~= folded(b@));
    true
}

/// Whether every byte of `s` is a token byte and there is at least one.
pub fn check_token(s: &[u8]) -> (r: bool)
    ensures
        r == is_token(s@),
{
    if s.len() == 0 {
        return false;
    }
    let mut i: usize = 0;
    while i < s.len()
        invariant
            i <= s.len(),
            forall|j: int| 0 <= j < i ==> is_token_byte(#[trigger] s@[j]),
        decreases s.len() - i,
    {
        if !is_token_char(s[i]) {
            return false;
        }
        i += 1;
    }
    true
}

/// Finds the first `b` in `s` at or after `from`; `s.len()` if there is none.
pub fn find_byte(s: &[u8], b: u8, from: usize) -> (i: usize)
    requires
        from <= s@.len(),
    ensures
        i == index_of(s@, b, from as int),
        from <= i <= s@.len(),
{
    let mut i: usize = from;
    while i < s.len() && s[i] != b
        invariant
            from <= i <= s@.len(),
            index_of(s@, b, from as int) == index_of(s@, b, i as int),
        decreases s.len() - i,
    {
        i += 1;
    }
    i
}

/// Finds the last `b` in `s`; `None` if there is none.
pub fn find_last_byte(s: &[u8], b: u8) -> (r: Option<usize>)
    ensures
        match r {
            Some(i) => i < s@.len() && i == last_index_of(s@, b, s@.len() as int),
            None => last_index_of(s@, b, s@.len() as int) == -1,
        },
{
    let mut i: usize = s.len();
    while i > 0
        invariant
            i <= s@.len(),
            last_index_of(s@, b, s@.len() as int) == last_index_of(s@, b, i as int),
        decreases i,
    {
        if s[i - 1] == b {
            return Some(i - 1);
        }
        i -= 1;
    }
    None
}

/// The bounds of `s[from..to]` without its leading and trailing optional
/// whitespace.
pub fn trim_bounds(s: &[u8], from: usize, to: usize) -> (r: (usize, usize))
    requires
        from <= to <= s@.len(),
    ensures
        from <= r.0 <= r.1 <= to,
        r.0 == from + skip_ows(s@.subrange(from as int, to as int), 0),
        r.1 == from + skip_ows_back(
            s@.subrange(from as int, to as int),
            r.0 - from,
            to - from,
        ),
        s@.subrange(r.0 as int, r.1 as int) == trim_ows(s@.subrange(from as int, to as int)),
{
    let ghost w = s@.subrange(from as int, to as int);
    let mut a: usize = from;
    while a < to && (s[a] == SP || s[a] == HTAB)
        invariant
            from <= a <= to <= s@.len(),
            w == s@.subrange(from as int, to as int),
            skip_ows(w, 0) == skip_ows(w, a - from),
        decreases to - a,
    {
        assert(w[a - from] == s@[a as int]);
        a += 1;
    }
    assert(skip_ows(w, 0) == a - from) by {
        if a < to {
            assert(w[a - from] == s@[a as int]);
        }
    }
    let mut b: usize = to;
    while a < b && (s[b - 1] == SP || s[b - 1] == HTAB)
        invariant
            from <= a <= b <= to <= s@.len(),
            w == s@.subrange(from as int, to as int),
            skip_ows_back(w, a - from, w.len() as int) == skip_ows_back(w, a - from, b - from),
        decreases b,
    {
        assert(w[b - 1 - from] == s@[b - 1]);
        b -= 1;
    }
    assert(skip_ows_back(w, a - from, w.len() as int) == b - from) by {
        if a < b {
            assert(w[b - 1 - from] == s@[b - 1]);
        }
    }
    assert(s@.subrange(a as int, b as int) =~= w.subrange(a - from, b - from));
    (a, b)
}

/// A copy of `s[from..to]`.
pub fn copy_range(s: &[u8], from: usize, to: usize) -> (out: Vec<u8>)
    requires
        from <= to <= s@.len(),
    ensures
        out@ == s@.subrange(from as int, to as int),
{
    vstd::slice::slice_to_vec(vstd::slice::slice_subrange(s, from, to))
}

/// Reads a decimal number: `Some` exactly for a non-empty run of digits whose
/// value fits in 64 bits.
pub fn parse_decimal(s: &[u8]) -> (r: Option<u64>)
    ensures
        r == decimal_of(s@),
{
    if s.len() == 0 {
        return None;
    }
    let mut acc: u64 = 0;
    let mut i: usize = 0;
    while i < s.len()
        invariant
            i <= s@.len(),
            all_digits(s@.take(i as int)),
            acc == decimal_value(s@.take(i as int)),
        decreases s.len() - i,
    {
        let b: u8 = s[i];
        if !(48 <= b && b <= 57) {
            return None;
        }
        let d: u64 = (b - 48) as u64;
        proof {
            let next = s@.take(i + 1);
            assert(next.drop_last() =~= s@.take(i as int));
            assert(next.last() == b);
            assert forall|j: int| 0 <= j < next.len() implies is_digit(#[trigger] next[j]) by {
                if j < i {
                    assert(s@.take(i as int)[j] == next[j]);
                }
            }
            assert(decimal_value(next) == acc * 10 + d);
        }
        if acc > (u64::MAX - d) / 10 {
            proof {
                if all_digits(s@) {
                    lemma_decimal_value_grows(s@, i + 1);
                }
            }
            return None;
        }
        acc = acc * 10 + d;
        i += 1;
    }
    assert(s@.take(i as int) =~= s@);
    Some(acc)
}

/// Reads a hexadecimal number: `Some` exactly for a non-empty run of
/// hexadecimal digits whose value fits in a `usize`.
pub fn parse_hex(s: &[u8]) -> (r: Option<usize>)
    ensures
        r == hex_of(s@),
{
    if s.len() == 0 {
        return None;
    }
    let mut acc: usize = 0;
    let mut i: usize = 0;
    while i < s.len()
        invariant
            i <= s@.len(),
            all_hex_digits(s@.take(i as int)),
            acc == hex_value(s@.take(i as int)),
        decreases s.len() - i,
    {
        let b: u8 = s[i];
        let d: usize = if 48 <= b && b <= 57 {
            (b - 48) as usize
        } else if 65 <= b && b <= 70 {
            (b - 55) as usize
        } else if 97 <= b && b <= 102 {
            (b - 87) as usize
        } else {
            return None;
        };
        proof {
            let next = s@.take(i + 1);
            assert(next.drop_last() =~= s@.take(i as int));
            assert(next.last() == b);
            assert forall|j: int| 0 <= j < next.len() implies is_hex_digit(#[trigger] next[j]) by {
                if j < i {
                    assert(s@.take(i as int)[j] == next[j]);
                }
            }
            assert(hex_value(next) == acc * 16 + d);
        }
        if acc > (usize::MAX - d) / 16 {
            proof {
                lemma_hex_value_grows(s@, i + 1);
            }
            return None;
        }
        acc = acc * 16 + d;
        i += 1;
    }
    assert(s@.take(i as int) =~= s@);
    Some(acc)
}

/// Writes `n` in the shortest lower-case hexadecimal notation.
pub fn to_hex(n: usize) -> (out: Vec<u8>)
    ensures
        out@ == hex_digits(n as nat),
    decreases n,
{
    if n < 16 {
        let d: u8 = n as u8;
        let c: u8 = if d < 10 {
            48 + d
        } else {
            87 + d
        };
        let mut out: Vec<u8> = Vec::new();
        out.push(c);
        assert(out@ =~= seq![hex_digit_of(n as nat)]);
        out
    } else {
        let mut out = to_hex(n / 16);
        let d: u8 = (n % 16) as u8;
        let c: u8 = if d < 10 {
            48 + d
        } else {
            87 + d
        };
        out.push(c);
        out
    }
}

/// Appends the bytes of `s` to `out`.
pub fn append_bytes(out: &mut Vec<u8>, s: &[u8])
    ensures
        final(out)@ == old(out)@ + s@,
{
    out.extend_from_slice(s);
    assert(out@ =~= old(out)@ + s@);
}

/// Writes `n` in the shortest decimal notation.
pub fn to_decimal(n: u64) -> (out: Vec<u8>)
    ensures
        out@ == decimal_digits(n as nat),
    decreases n,
{
    if n < 10 {
        let mut out: Vec<u8> = Vec::new();
        out.push(48 + n as u8);
        assert(out@ =~= seq![(48 + n) as u8]);
        out
    } else {
        let mut out = to_decimal(n / 10);
        out.push(48 + (n % 10) as u8);
        out
    }
}

/// The bytes of an ASCII text.
pub fn literal_bytes(s: &'static str) -> (r: &'static [u8])
    requires
        is_ascii(s),
    ensures
        r@ == ascii_bytes(s@),
{
    broadcast use is_ascii_spec_bytes;

    s.as_bytes()
}

} // verus!
