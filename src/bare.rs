//! A plainer scanner: text runs up to the next `@`, and a signal is only the
//! prompt after its `@`, up to white space, another `@` or the end of the
//! text. Brackets have no meaning here, and a signal's range leaves its `@`
//! out.
use core::ops;
use vstd::prelude::*;
use vstd::string::StringSliceAdditionalSpecFns;
use crate::text::{
    Span,
    span,
    span_of,
    SIGNAL,
    ws_width,
    find_byte,
    lemma_find_byte,
    whitespace_width,
    find,
    on_char,
    slice_str,
    lemma_ws_on_char,
    lemma_after_ascii,
    lemma_start_on_char,
    lemma_str_valid,
};

verus! {

/// A range of a whole text, kept with that text.
#[derive(Clone, Eq, PartialEq, Hash, Debug, Default)]
pub struct StrRange<'a> {
    /// The whole text.
    pub full: &'a str,
    /// A byte range of `full`.
    pub range: ops::Range<usize>,
}

impl<'a> StrRange<'a> {
    /// The part of `full` that `range` covers. Its ends must lie in `full`,
    /// on character starts.
    pub fn substr(&self) -> (r: &'a str)
        requires
            self.range.start <= self.range.end <= self.full.spec_bytes().len(),
            on_char(self.full.spec_bytes(), self.range.start as int),
            on_char(self.full.spec_bytes(), self.range.end as int),
        ensures
            r.spec_bytes() == self.full.spec_bytes().subrange(
                self.range.start as int,
                self.range.end as int,
            ),
    {
        slice_str(self.full, self.range.start, self.range.end)
    }
}

/// Whether an event holds text or a signal.
#[derive(Clone, Copy, Eq, PartialEq, Structural, Hash, Debug)]
pub enum RawEventKind {
    Text,
    Signal,
}

/// One item of the plainer scanner.
#[derive(Clone, Eq, PartialEq, Hash, Debug)]
pub struct RawEvent {
    /// Byte range of the whole text.
    pub range: ops::Range<usize>,
    pub kind: RawEventKind,
}

impl View for RawEvent {
    type V = (RawEventKind, Span);

    open spec fn view(&self) -> (RawEventKind, Span) {
        (self.kind, span_of(self.range))
    }
}

impl RawEvent {
    pub fn text(range: ops::Range<usize>) -> (r: Self)
        ensures
            r.range == range,
            r.kind == RawEventKind::Text,
    {
        RawEvent { range, kind: RawEventKind::Text }
    }

    pub fn signal(range: ops::Range<usize>) -> (r: Self)
        ensures
            r.range == range,
            r.kind == RawEventKind::Signal,
    {
        RawEvent { range, kind: RawEventKind::Signal }
    }

    pub fn is_text(&self) -> (r: bool)
        ensures
            r == (self.kind == RawEventKind::Text),
    {
        self.kind == RawEventKind::Text
    }

    pub fn is_signal(&self) -> (r: bool)
        ensures
            r == (self.kind == RawEventKind::Signal),
    {
        self.kind == RawEventKind::Signal
    }

    /// The range, kept with the whole text `full`.
    pub fn as_of<'a>(&self, full: &'a str) -> (r: StrRange<'a>)
        ensures
            r.full == full,
            r.range == self.range,
    {
        StrRange { full, range: self.range.start..self.range.end }
    }
}

/// Where a bare prompt stops: white space or another `@`.
pub open spec fn is_bare_stop(s: Seq<u8>, j: int) -> bool {
    ws_width(s, j) > 0 || s[j] == SIGNAL
}

/// The end of the bare prompt that starts at `i`.
pub open spec fn bare_end(s: Seq<u8>, i: int) -> int
    decreases s.len() - i,
{
    if i >= s.len() {
        s.len() as int
    } else if i >= 0 && is_bare_stop(s, i) {
        i
    } else {
        bare_end(s, i + 1)
    }
}

/// The item that starts at `p`: text up to the next `@`, or the prompt
/// after the `@` at `p`.
pub open spec fn bare_item(s: Seq<u8>, p: int) -> (RawEventKind, Span) {
    if s[p] != SIGNAL {
        (RawEventKind::Text, span(p, find_byte(s, p + 1, SIGNAL)))
    } else {
        (RawEventKind::Signal, span(p + 1, bare_end(s, p + 1)))
    }
}

/// The items of `s` from position `p` on.
pub open spec fn bare_items(s: Seq<u8>, p: int) -> Seq<(RawEventKind, Span)>
    decreases s.len() - p,
    via bare_items_decreases
{
    if p < 0 || p >= s.len() {
        seq![]
    } else {
        seq![bare_item(s, p)] + bare_items(s, bare_item(s, p).1.end)
    }
}

pub proof fn lemma_bare_end(s: Seq<u8>, i: int)
    requires
        0 <= i <= s.len(),
    ensures
        i <= bare_end(s, i) <= s.len(),
        bare_end(s, i) < s.len() ==> is_bare_stop(s, bare_end(s, i)),
    decreases s.len() - i,
{
    if i < s.len() && !is_bare_stop(s, i) {
        lemma_bare_end(s, i + 1);
    }
}

#[via_fn]
proof fn bare_items_decreases(s: Seq<u8>, p: int) {
    if 0 <= p < s.len() {
        if s[p] != SIGNAL {
            lemma_find_byte(s, p + 1, SIGNAL);
        } else {
            lemma_bare_end(s, p + 1);
        }
    }
}

/// The items of the plainer scanner over one text, in order.
#[derive(Debug)]
pub struct RawEventIter<'a> {
    full: &'a str,
    pos: usize,
}

impl<'a> RawEventIter<'a> {
    #[verifier::type_invariant]
    spec fn inv(&self) -> bool {
        on_char(self.full.spec_bytes(), self.pos as int)
    }

    /// The scanned text.
    pub closed spec fn full(&self) -> &'a str {
        self.full
    }

    /// Where the next item starts.
    pub closed spec fn pos(&self) -> int {
        self.pos as int
    }

    /// The items still to come.
    pub open spec fn rest(&self) -> Seq<(RawEventKind, Span)> {
        bare_items(self.full().spec_bytes(), self.pos())
    }

    pub fn new(full: &'a str) -> (r: Self)
        ensures
            r.full() == full,
            r.rest() == bare_items(full.spec_bytes(), 0),
    {
        proof {
            lemma_str_valid(full);
            lemma_start_on_char(full.spec_bytes());
        }
        RawEventIter { full, pos: 0 }
    }

    /// The next item, or `None` once the text is exhausted. Its range lies in
    /// the text, on character starts.
    pub fn next(&mut self) -> (r: Option<RawEvent>)
        ensures
            final(self).full() == old(self).full(),
            old(self).rest().len() == 0 ==> r is None && final(self).rest().len() == 0,
            old(self).rest().len() > 0 ==> r is Some && r->0@ == old(self).rest()[0]
                && final(self).rest() == old(self).rest().drop_first(),
            r is Some ==> ({
                let b = old(self).full().spec_bytes();
                &&& r->0.range.start <= r->0.range.end <= b.len()
                &&& on_char(b, r->0.range.start as int)
                &&& on_char(b, r->0.range.end as int)
            }),
    {
        proof {
            use_type_invariant(&*self);
            lemma_str_valid(self.full);
        }
        let s = self.full.as_bytes();
        let p = self.pos;
        if p >= s.len() {
            return None;
        }
        if s[p] != SIGNAL {
            let e = find(s, p + 1, SIGNAL);
            proof {
                lemma_find_byte(s@, p + 1, SIGNAL);
                assert(old(self).rest().drop_first() =~= bare_items(s@, e as int));
            }
            self.pos = e;
            Some(RawEvent::text(p..e))
        } else {
            let q = p + 1;
            let mut e = q;
            while e < s.len() && whitespace_width(s, e) == 0 && s[e] != SIGNAL
                invariant
                    q <= e <= s@.len(),
                    bare_end(s@, e as int) == bare_end(s@, q as int),
                decreases s@.len() - e,
            {
                e = e + 1;
            }
            proof {
                lemma_after_ascii(s@, p as int);
                lemma_bare_end(s@, q as int);
                if e < s.len() && ws_width(s@, e as int) > 0 {
                    lemma_ws_on_char(s@, e as int);
                }
                assert(old(self).rest().drop_first() =~= bare_items(s@, e as int));
            }
            self.pos = e;
            Some(RawEvent::signal(q..e))
        }
    }
}

} // verus!
