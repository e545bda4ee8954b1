//! The signal scanner: splits one line of text into text spans and signal
//! spans.
//!
//! A signal is `@`, a prompt (a run of bytes up to white space, another `@`
//! or an opening bracket) and, where an opening bracket follows the prompt, a
//! parameter that runs up to the first matching closing bracket, or to the
//! end of the text where there is none.
use core::ops;
use vstd::prelude::*;
use vstd::string::StringSliceAdditionalSpecFns;
use crate::text::{
    Span,
    span,
    span_of,
    SIGNAL,
    is_opener,
    closer_of,
    ws_width,
    find_byte,
    lemma_find_byte,
    whitespace_width,
    find,
    opener,
    closer,
    on_char,
    lemma_ws_on_char,
    lemma_after_ascii,
    lemma_start_on_char,
    lemma_str_valid,
};
use vstd::utf8::valid_utf8;

verus! {

/// One item of the scanner, as byte ranges of the scanned text.
#[derive(Clone, Eq, PartialEq, Hash, Debug)]
pub enum Range {
    Text(ops::Range<usize>),
    Signal { prompt: ops::Range<usize>, param: ops::Range<usize> },
}

/// A scanner item as spans.
pub enum Piece {
    Text(Span),
    Signal(Span, Span),
}

impl View for Range {
    type V = Piece;

    open spec fn view(&self) -> Piece {
        match self {
            Range::Text(r) => Piece::Text(span_of(*r)),
            Range::Signal { prompt, param } => Piece::Signal(span_of(*prompt), span_of(*param)),
        }
    }
}

/// Where a prompt stops: white space, another `@` or an opening bracket.
pub open spec fn is_stop(s: Seq<u8>, j: int) -> bool {
    ws_width(s, j) > 0 || s[j] == SIGNAL || is_opener(s[j])
}

/// The end of the prompt that starts at `i`.
pub open spec fn prompt_end(s: Seq<u8>, i: int) -> int
    decreases s.len() - i,
{
    if i >= s.len() {
        s.len() as int
    } else if i >= 0 && is_stop(s, i) {
        i
    } else {
        prompt_end(s, i + 1)
    }
}

/// The item that starts at `p`. Without a prompt, a parameter's empty prompt
/// lies at the parameter's start.
pub open spec fn item_at(s: Seq<u8>, p: int) -> Piece {
    if s[p] != SIGNAL {
        Piece::Text(span(p, find_byte(s, p + 1, SIGNAL)))
    } else {
        let e = prompt_end(s, p + 1);
        if e < s.len() && is_opener(s[e]) {
            let prompt = if e == p + 1 {
                span(e + 1, e + 1)
            } else {
                span(p + 1, e)
            };
            Piece::Signal(prompt, span(e + 1, find_byte(s, e + 1, closer_of(s[e]))))
        } else {
            Piece::Signal(span(p + 1, e), span(e, e))
        }
    }
}

/// Where the item that starts at `p` ends: after the closing bracket of a
/// parameter, at the end of a prompt, or before the next `@` of a text.
pub open spec fn item_end(s: Seq<u8>, p: int) -> int {
    if s[p] != SIGNAL {
        find_byte(s, p + 1, SIGNAL)
    } else {
        let e = prompt_end(s, p + 1);
        if e < s.len() && is_opener(s[e]) {
            let c = find_byte(s, e + 1, closer_of(s[e]));
            if c < s.len() {
                c + 1
            } else {
                c
            }
        } else {
            e
        }
    }
}

/// The items of `s` from position `p` on.
pub open spec fn raw_items(s: Seq<u8>, p: int) -> Seq<Piece>
    decreases s.len() - p,
    via raw_items_decreases
{
    if p < 0 || p >= s.len() {
        seq![]
    } else {
        seq![item_at(s, p)] + raw_items(s, item_end(s, p))
    }
}

#[via_fn]
proof fn raw_items_decreases(s: Seq<u8>, p: int) {
    if 0 <= p < s.len() {
        lemma_item(s, p);
    }
}

pub proof fn lemma_prompt_end(s: Seq<u8>, i: int)
    requires
        0 <= i <= s.len(),
    ensures
        i <= prompt_end(s, i) <= s.len(),
        prompt_end(s, i) < s.len() ==> is_stop(s, prompt_end(s, i)),
    decreases s.len() - i,
{
    if i < s.len() && !is_stop(s, i) {
        lemma_prompt_end(s, i + 1);
    }
}

/// The item at `p` lies within `[p, item_end(s, p))`, which is not empty; a
/// signal starts with `@`, and its prompt right after it (an empty prompt may lie
/// at the start of the parameter instead).
pub proof fn lemma_item(s: Seq<u8>, p: int)
    requires
        0 <= p < s.len(),
    ensures
        p < item_end(s, p) <= s.len(),
        match item_at(s, p) {
            Piece::Text(t) => t.start == p && t.end == item_end(s, p),
            Piece::Signal(pr, pa) => {
                &&& s[p] == SIGNAL
                &&& pr.start == p + 1 || (pr.start == p + 2 && pr.end == pr.start)
                &&& pr.start <= pr.end <= pa.start <= pa.end <= item_end(s, p)
            },
        },
{
    if s[p] != SIGNAL {
        lemma_find_byte(s, p + 1, SIGNAL);
    } else {
        lemma_prompt_end(s, p + 1);
        let e = prompt_end(s, p + 1);
        if e < s.len() && is_opener(s[e]) {
            lemma_find_byte(s, e + 1, closer_of(s[e]));
        }
    }
}

/// Every position that an item names starts a character of `s` (or is its
/// end), and its spans are ordered.
pub open spec fn piece_fits(s: Seq<u8>, x: Piece) -> bool {
    match x {
        Piece::Text(t) => on_char(s, t.start) && on_char(s, t.end) && t.start <= t.end,
        Piece::Signal(pr, pa) => {
            &&& on_char(s, pr.start)
            &&& on_char(s, pr.end)
            &&& on_char(s, pa.start)
            &&& on_char(s, pa.end)
            &&& 1 <= pr.start <= pr.end <= pa.start <= pa.end
        },
    }
}

/// In valid UTF-8, an item that starts on a character names only character
/// starts, and ends on one.
pub proof fn lemma_item_on_char(s: Seq<u8>, p: int)
    requires
        valid_utf8(s),
        0 <= p < s.len(),
        on_char(s, p),
    ensures
        piece_fits(s, item_at(s, p)),
        on_char(s, item_end(s, p)),
{
    lemma_item(s, p);
    if s[p] != SIGNAL {
        lemma_find_byte(s, p + 1, SIGNAL);
    } else {
        lemma_after_ascii(s, p);
        lemma_prompt_end(s, p + 1);
        let e = prompt_end(s, p + 1);
        if e < s.len() && ws_width(s, e) > 0 {
            lemma_ws_on_char(s, e);
        }
        if e < s.len() && is_opener(s[e]) {
            lemma_after_ascii(s, e);
            let c = find_byte(s, e + 1, closer_of(s[e]));
            lemma_find_byte(s, e + 1, closer_of(s[e]));
            if c < s.len() {
                lemma_after_ascii(s, c);
            }
        }
    }
}

/// The end of the prompt that starts at `i`.
fn find_prompt_end(s: &[u8], i: usize) -> (r: usize)
    requires
        i <= s@.len(),
    ensures
        r as int == prompt_end(s@, i as int),
{
    let mut k = i;
    while k < s.len()
        invariant
            i <= k <= s@.len(),
            prompt_end(s@, k as int) == prompt_end(s@, i as int),
        decreases s@.len() - k,
    {
        if whitespace_width(s, k) > 0 || s[k] == SIGNAL || opener(s[k]) {
            return k;
        }
        k = k + 1;
    }
    k
}

/// The item that starts at `p`, with the end of its extent.
pub fn scan_at(s: &[u8], p: usize) -> (r: (Range, usize))
    requires
        p < s@.len(),
    ensures
        r.0@ == item_at(s@, p as int),
        r.1 as int == item_end(s@, p as int),
{
    if s[p] != SIGNAL {
        let e = find(s, p + 1, SIGNAL);
        (Range::Text(p..e), e)
    } else {
        let q = p + 1;
        let e = find_prompt_end(s, q);
        proof {
            lemma_prompt_end(s@, q as int);
        }
        if e < s.len() && opener(s[e]) {
            let c = find(s, e + 1, closer(s[e]));
            let end = if c < s.len() {
                c + 1
            } else {
                c
            };
            let prompt = if e == q {
                (e + 1)..(e + 1)
            } else {
                q..e
            };
            (Range::Signal { prompt, param: (e + 1)..c }, end)
        } else {
            (Range::Signal { prompt: q..e, param: e..e }, e)
        }
    }
}

/// The scanner over one text.
#[derive(Debug)]
pub struct Iter<'a> {
    text: &'a str,
    pos: usize,
}

impl<'a> Iter<'a> {
    #[verifier::type_invariant]
    spec fn inv(&self) -> bool {
        on_char(self.text.spec_bytes(), self.pos as int)
    }

    /// The scanned text.
    pub closed spec fn full(&self) -> &'a str {
        self.text
    }

    /// Where the next item starts.
    pub closed spec fn pos(&self) -> int {
        self.pos as int
    }

    /// The items still to come.
    pub open spec fn rest(&self) -> Seq<Piece> {
        raw_items(self.full().spec_bytes(), self.pos())
    }

    pub fn new(text: &'a str) -> (r: Self)
        ensures
            r.full() == text,
            r.pos() == 0,
            r.rest() == raw_items(text.spec_bytes(), 0),
    {
        proof {
            lemma_str_valid(text);
            lemma_start_on_char(text.spec_bytes());
        }
        Iter { text, pos: 0 }
    }

    pub fn as_full_str(&self) -> (r: &'a str)
        ensures
            r == self.full(),
    {
        self.text
    }

    /// The next item, or `None` once the text is exhausted.
    pub fn next(&mut self) -> (r: Option<Range>)
        ensures
            final(self).full() == old(self).full(),
            old(self).rest().len() == 0 ==> r is None && final(self).rest().len() == 0,
            old(self).rest().len() > 0 ==> r is Some && r->0@ == old(self).rest()[0]
                && final(self).rest() == old(self).rest().drop_first(),
            r is Some ==> piece_fits(old(self).full().spec_bytes(), r->0@),
            r is Some ==> 0 <= old(self).pos() < old(self).full().spec_bytes().len()
                && r->0@ == item_at(old(self).full().spec_bytes(), old(self).pos())
                && final(self).pos() == item_end(old(self).full().spec_bytes(), old(self).pos()),
            r is None ==> old(self).pos() >= old(self).full().spec_bytes().len() && final(self).pos()
                == old(self).pos(),
    {
        proof {
            use_type_invariant(&*self);
        }
        let s = self.text.as_bytes();
        if self.pos >= s.len() {
            return None;
        }
        let (item, end) = scan_at(s, self.pos);
        proof {
            lemma_item(s@, self.pos as int);
            lemma_str_valid(self.text);
            lemma_item_on_char(s@, self.pos as int);
            assert(old(self).rest().drop_first() =~= raw_items(s@, end as int));
        }
        self.pos = end;
        Some(item)
    }
}

} // verus!
