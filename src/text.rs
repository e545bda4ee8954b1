//! Byte-level classification of the source text.
//!
//! All markup bytes (`@`, the brackets, the line break) are ASCII, so they can
//! never occur inside the UTF-8 encoding of another character. White space is
//! recognised by the UTF-8 encodings of the Unicode `White_Space` characters,
//! whose first byte is never a continuation byte either; scanning byte by byte
//! therefore stops only on character boundaries.
use vstd::prelude::*;
use vstd::string::StringSliceAdditionalSpecFns;
use vstd::utf8::{
    valid_utf8,
    is_continuation_byte,
    is_char_boundary,
    is_char_boundary_iff_not_is_continuation_byte,
    is_char_boundary_start_end_of_seq,
    valid_utf8_split,
    valid_first_scalar,
    pop_first_scalar,
    encode_utf8_valid_utf8,
};

verus! {

/// The signal introducer `@`.
pub const SIGNAL: u8 = 0x40;

/// The line break `\n`.
pub const NEWLINE: u8 = 0x0a;

/// A half-open byte range `[start, end)` of the source text.
pub struct Span {
    pub start: int,
    pub end: int,
}

/// Relies on `Range::clone`, so that the types holding a range can be cloned;
/// nothing is claimed of the result.
pub assume_specification<Idx: Clone>[ <core::ops::Range<Idx> as Clone>::clone ](
    r: &core::ops::Range<Idx>,
) -> core::ops::Range<Idx>;

/// A part of a text: its bytes `range`, and those bytes as `slice`.
#[derive(Clone, Eq, PartialEq, Hash, Debug, Default)]
pub struct StrRange<'a> {
    /// The text of `range`.
    pub slice: &'a str,
    /// The byte range in the whole text.
    pub range: core::ops::Range<usize>,
}

impl<'a> StrRange<'a> {
    /// The span of `range`.
    pub open spec fn span(&self) -> Span {
        span_of(self.range)
    }

    /// `range` lies in `s`, and `slice` holds its bytes.
    pub open spec fn within(&self, s: Seq<u8>) -> bool {
        &&& self.range.start <= self.range.end <= s.len()
        &&& self.slice.spec_bytes() == s.subrange(self.range.start as int, self.range.end as int)
    }
}

/// The span of a `Range<usize>`.
pub open spec fn span_of(r: core::ops::Range<usize>) -> Span {
    Span { start: r.start as int, end: r.end as int }
}

/// The span `[start, end)`.
pub open spec fn span(start: int, end: int) -> Span {
    Span { start, end }
}

/// One of the opening brackets `{ [ ( <`.
pub open spec fn is_opener(b: u8) -> bool {
    b == 0x7b || b == 0x5b || b == 0x28 || b == 0x3c
}

/// The closing bracket `} ] ) >` that matches an opening bracket.
pub open spec fn closer_of(b: u8) -> u8 {
    if b == 0x7b {
        0x7d
    } else if b == 0x5b {
        0x5d
    } else if b == 0x28 {
        0x29
    } else {
        0x3e
    }
}

/// The three-byte encodings of U+1680, U+2000..=U+200A, U+2028, U+2029,
/// U+202F, U+205F and U+3000.
pub open spec fn is_wide_space(a: u8, b: u8, c: u8) -> bool {
    ||| (a == 0xe1 && b == 0x9a && c == 0x80)
    ||| (a == 0xe2 && b == 0x80 && ((0x80 <= c && c <= 0x8a) || c == 0xa8 || c == 0xa9 || c
        == 0xaf))
    ||| (a == 0xe2 && b == 0x81 && c == 0x9f)
    ||| (a == 0xe3 && b == 0x80 && c == 0x80)
}

/// The width in bytes of the white-space character encoded at `i`, or 0 where
/// no white-space character starts at `i`. The white-space characters are
/// U+0009..=U+000D, U+0020, U+0085, U+00A0 (one and two bytes) and those of
/// `is_wide_space` (three bytes).
pub open spec fn ws_width(s: Seq<u8>, i: int) -> int {
    if i < 0 || i >= s.len() {
        0
    } else if (0x09 <= s[i] && s[i] <= 0x0d) || s[i] == 0x20 {
        1
    } else if i + 1 < s.len() && s[i] == 0xc2 && (s[i + 1] == 0x85 || s[i + 1] == 0xa0) {
        2
    } else if i + 2 < s.len() && is_wide_space(s[i], s[i + 1], s[i + 2]) {
        3
    } else {
        0
    }
}

/// The width of the white-space character whose encoding ends just before
/// `j`, or 0 where none does.
pub open spec fn ws_width_before(s: Seq<u8>, j: int) -> int {
    if j >= 1 && ws_width(s, j - 1) == 1 {
        1
    } else if j >= 2 && ws_width(s, j - 2) == 2 {
        2
    } else if j >= 3 && ws_width(s, j - 3) == 3 {
        3
    } else {
        0
    }
}

/// The first position at or after `i` that holds byte `c`, or the length of `s`.
pub open spec fn find_byte(s: Seq<u8>, i: int, c: u8) -> int
    decreases s.len() - i,
{
    if i >= s.len() {
        s.len() as int
    } else if i >= 0 && s[i] == c {
        i
    } else {
        find_byte(s, i + 1, c)
    }
}

/// `[a, b)` with its trailing white space removed.
pub open spec fn trim_end(s: Seq<u8>, a: int, b: int) -> int
    decreases b - a,
{
    if a < b && ws_width_before(s, b) > 0 && b - ws_width_before(s, b) >= a {
        trim_end(s, a, b - ws_width_before(s, b))
    } else {
        b
    }
}

/// Where `[a, b)` starts once its leading white space is skipped.
pub open spec fn trim_start(s: Seq<u8>, a: int, b: int) -> int
    decreases b - a,
{
    if a < b && ws_width(s, a) > 0 && a + ws_width(s, a) <= b {
        trim_start(s, a + ws_width(s, a), b)
    } else {
        a
    }
}

/// `[a, b)` with its leading white space removed; a range of white space
/// only becomes the empty range at `a`.
pub open spec fn trim_left(s: Seq<u8>, a: int, b: int) -> (int, int) {
    if trim_start(s, a, b) == b {
        (a, a)
    } else {
        (trim_start(s, a, b), b)
    }
}

/// Position `i` is where a character starts, or the end of `s`.
pub open spec fn on_char(s: Seq<u8>, i: int) -> bool {
    i == s.len() || (0 <= i < s.len() && !is_continuation_byte(s[i]))
}

/// The length of the UTF-8 encoding that starts with byte `b`.
pub open spec fn lead_width(b: u8) -> int {
    if b <= 0x7f {
        1
    } else if 0xc0 <= b && b <= 0xdf {
        2
    } else if 0xe0 <= b && b <= 0xef {
        3
    } else {
        4
    }
}

/// In valid UTF-8, the character that starts at `i` ends where another one
/// starts, or at the end.
pub proof fn lemma_next_char(s: Seq<u8>, i: int)
    requires
        valid_utf8(s),
        0 <= i < s.len(),
        !is_continuation_byte(s[i]),
    ensures
        i + lead_width(s[i]) <= s.len(),
        on_char(s, i + lead_width(s[i])),
{
    is_char_boundary_iff_not_is_continuation_byte(s, i);
    valid_utf8_split(s, i);
    let t = s.subrange(i, s.len() as int);
    assert(t[0] == s[i]);
    assert(valid_first_scalar(t) && valid_utf8(pop_first_scalar(t)));
    let w = lead_width(s[i]);
    let rest = pop_first_scalar(t);
    assert(rest =~= s.subrange(i + w, s.len() as int));
    if rest.len() > 0 {
        assert(valid_first_scalar(rest));
        assert(rest[0] == s[i + w]);
    }
}

/// A white-space character starts a character, and ends where another one
/// starts.
pub proof fn lemma_ws_on_char(s: Seq<u8>, i: int)
    requires
        valid_utf8(s),
        ws_width(s, i) > 0,
    ensures
        on_char(s, i),
        on_char(s, i + ws_width(s, i)),
{
    lemma_next_char(s, i);
}

/// The position after an ASCII byte at a character start is a character
/// start.
pub proof fn lemma_after_ascii(s: Seq<u8>, i: int)
    requires
        valid_utf8(s),
        0 <= i < s.len(),
        s[i] <= 0x7f,
    ensures
        on_char(s, i + 1),
{
    lemma_next_char(s, i);
}

pub proof fn lemma_char_boundary(s: Seq<u8>, i: int)
    requires
        valid_utf8(s),
        on_char(s, i),
    ensures
        is_char_boundary(s, i),
{
    if i == s.len() {
        is_char_boundary_start_end_of_seq(s);
    } else {
        is_char_boundary_iff_not_is_continuation_byte(s, i);
    }
}

/// Valid UTF-8 starts with a character.
pub proof fn lemma_start_on_char(s: Seq<u8>)
    requires
        valid_utf8(s),
    ensures
        on_char(s, 0),
{
    if s.len() > 0 {
        assert(valid_first_scalar(s));
    }
}

/// The bytes of a text are valid UTF-8.
pub proof fn lemma_str_valid(t: &str)
    ensures
        valid_utf8(t.spec_bytes()),
{
    encode_utf8_valid_utf8(t@);
}

/// The part `[a, b)` of `full`, where `a` and `b` are character starts.
pub fn slice_str<'a>(full: &'a str, a: usize, b: usize) -> (r: &'a str)
    requires
        a <= b <= full.spec_bytes().len(),
        on_char(full.spec_bytes(), a as int),
        on_char(full.spec_bytes(), b as int),
    ensures
        r.spec_bytes() == full.spec_bytes().subrange(a as int, b as int),
{
    proof {
        lemma_str_valid(full);
        lemma_char_boundary(full.spec_bytes(), a as int);
    }
    let (_, tail) = full.split_at(a);
    proof {
        let t = tail.spec_bytes();
        lemma_str_valid(tail);
        assert(t.len() == full.spec_bytes().len() - a);
        if b < full.spec_bytes().len() {
            assert(t[b - a] == full.spec_bytes()[b as int]);
        }
        lemma_char_boundary(t, b - a);
    }
    let (mid, _) = tail.split_at(b - a);
    proof {
        assert(mid.spec_bytes() =~= full.spec_bytes().subrange(a as int, b as int));
    }
    mid
}

pub proof fn lemma_find_byte(s: Seq<u8>, i: int, c: u8)
    requires
        0 <= i <= s.len(),
    ensures
        i <= find_byte(s, i, c) <= s.len(),
        find_byte(s, i, c) < s.len() ==> s[find_byte(s, i, c)] == c,
        forall|k: int| i <= k < find_byte(s, i, c) ==> s[k] != c,
    decreases s.len() - i,
{
    if i < s.len() && s[i] != c {
        lemma_find_byte(s, i + 1, c);
    }
}

pub proof fn lemma_trim_end(s: Seq<u8>, a: int, b: int)
    requires
        a <= b,
    ensures
        a <= trim_end(s, a, b) <= b,
        trim_end(s, a, b) == b || ws_width(s, trim_end(s, a, b)) > 0,
    decreases b - a,
{
    if a < b && ws_width_before(s, b) > 0 && b - ws_width_before(s, b) >= a {
        lemma_trim_end(s, a, b - ws_width_before(s, b));
    }
}

pub proof fn lemma_trim_start(s: Seq<u8>, a: int, b: int)
    requires
        a <= b,
    ensures
        a <= trim_start(s, a, b) <= b,
        valid_utf8(s) && on_char(s, a) ==> on_char(s, trim_start(s, a, b)),
    decreases b - a,
{
    if a < b && ws_width(s, a) > 0 && a + ws_width(s, a) <= b {
        if valid_utf8(s) {
            lemma_ws_on_char(s, a);
        }
        lemma_trim_start(s, a + ws_width(s, a), b);
    }
}

/// Width of the white-space character encoded at `i` (see `ws_width`).
pub fn whitespace_width(s: &[u8], i: usize) -> (w: usize)
    ensures
        w == ws_width(s@, i as int),
{
    let n = s.len();
    if i >= n {
        return 0;
    }
    let a = s[i];
    if (0x09 <= a && a <= 0x0d) || a == 0x20 {
        1
    } else if n - i > 1 && a == 0xc2 && (s[i + 1] == 0x85 || s[i + 1] == 0xa0) {
        2
    } else if n - i > 2 {
        let b = s[i + 1];
        let c = s[i + 2];
        if (a == 0xe1 && b == 0x9a && c == 0x80) || (a == 0xe2 && b == 0x80 && ((0x80 <= c && c
            <= 0x8a) || c == 0xa8 || c == 0xa9 || c == 0xaf)) || (a == 0xe2 && b == 0x81 && c
            == 0x9f) || (a == 0xe3 && b == 0x80 && c == 0x80) {
            3
        } else {
            0
        }
    } else {
        0
    }
}

/// Width of the white-space character that ends just before `j` (see
/// `ws_width_before`).
pub fn whitespace_width_before(s: &[u8], j: usize) -> (w: usize)
    ensures
        w == ws_width_before(s@, j as int),
{
    if j >= 1 && whitespace_width(s, j - 1) == 1 {
        1
    } else if j >= 2 && whitespace_width(s, j - 2) == 2 {
        2
    } else if j >= 3 && whitespace_width(s, j - 3) == 3 {
        3
    } else {
        0
    }
}

/// The first position at or after `i` that holds byte `c`, or `s.len()`.
pub fn find(s: &[u8], i: usize, c: u8) -> (r: usize)
    requires
        i <= s@.len(),
    ensures
        r as int == find_byte(s@, i as int, c),
{
    let mut k = i;
    while k < s.len() && s[k] != c
        invariant
            i <= k <= s@.len(),
            find_byte(s@, k as int, c) == find_byte(s@, i as int, c),
        decreases s@.len() - k,
    {
        k = k + 1;
    }
    k
}

/// The end of `[a, b)` once trailing white space is removed.
pub fn trimmed_end(s: &[u8], a: usize, b: usize) -> (r: usize)
    requires
        a <= b,
    ensures
        r as int == trim_end(s@, a as int, b as int),
{
    let mut e = b;
    loop
        invariant
            a <= e <= b,
            trim_end(s@, a as int, e as int) == trim_end(s@, a as int, b as int),
        decreases e - a,
    {
        let w = whitespace_width_before(s, e);
        if a < e && w > 0 && e - w >= a {
            e = e - w;
        } else {
            return e;
        }
    }
}

/// `[a, b)` with its leading white space removed (see `trim_left`).
pub fn trimmed_start(s: &[u8], a: usize, b: usize) -> (r: (usize, usize))
    requires
        a <= b,
    ensures
        (r.0 as int, r.1 as int) == trim_left(s@, a as int, b as int),
{
    let mut p = a;
    loop
        invariant
            a <= p <= b,
            trim_start(s@, p as int, b as int) == trim_start(s@, a as int, b as int),
        decreases b - p,
    {
        let w = whitespace_width(s, p);
        if p < b && w > 0 && w <= b - p {
            p = p + w;
        } else if p == b {
            return (a, a);
        } else {
            return (p, b);
        }
    }
}

/// Whether `b` is an opening bracket.
pub fn opener(b: u8) -> (r: bool)
    ensures
        r == is_opener(b),
{
    b == 0x7b || b == 0x5b || b == 0x28 || b == 0x3c
}

/// The closing bracket that matches the opening bracket `b`.
pub fn closer(b: u8) -> (r: u8)
    ensures
        r == closer_of(b),
{
    if b == 0x7b {
        0x7d
    } else if b == 0x5b {
        0x5d
    } else if b == 0x28 {
        0x29
    } else {
        0x3e
    }
}

/// Whether two byte strings are equal.
pub fn bytes_equal(a: &[u8], b: &[u8]) -> (r: bool)
    ensures
        r == (a@ == b@),
{
    if a.len() != b.len() {
        return false;
    }
    let mut i: usize = 0;
    while i < a.len()
        invariant
            a@.len() == b@.len(),
            i <= a@.len(),
            forall|k: int| 0 <= k < i ==> a@[k] == b@[k],
        decreases a@.len() - i,
    {
        if a[i] != b[i] {
            return false;
        }
        i = i + 1;
    }
    assert(a@ =~= b@);
    true
}

} // verus!
