//! The extents of the scanner's items: each text span and each whole signal
//! (from its `@` to the end of its prompt or past its closing bracket).
use core::ops;
use vstd::prelude::*;
use vstd::string::StringSliceAdditionalSpecFns;
use crate::text::{Span, span, span_of, SIGNAL, StrRange, on_char, slice_str, lemma_find_byte};
use crate::raw::{Piece, item_at, item_end, lemma_item, scan_at, Range};

verus! {

/// Whether a span holds text or a signal.
#[derive(Clone, Copy, Eq, PartialEq, Structural, Hash, Debug)]
pub enum ExtentKind {
    Text,
    Signal,
}

/// The extent of one item of the scanner.
#[derive(Clone, Eq, PartialEq, Hash, Debug)]
pub struct Extent {
    /// Byte range of the whole text.
    pub range: ops::Range<usize>,
    pub kind: ExtentKind,
}

/// The kind of a scanner item.
pub open spec fn kind_of(x: Piece) -> ExtentKind {
    match x {
        Piece::Text(_) => ExtentKind::Text,
        Piece::Signal(_, _) => ExtentKind::Signal,
    }
}

/// The extents of the items of `s` from position `p` on.
pub open spec fn raw_spans(s: Seq<u8>, p: int) -> Seq<(ExtentKind, Span)>
    decreases s.len() - p,
    via raw_spans_decreases
{
    if p < 0 || p >= s.len() {
        seq![]
    } else {
        seq![(kind_of(item_at(s, p)), span(p, item_end(s, p)))] + raw_spans(s, item_end(s, p))
    }
}

#[via_fn]
proof fn raw_spans_decreases(s: Seq<u8>, p: int) {
    if 0 <= p < s.len() {
        lemma_item(s, p);
    }
}

/// The bytes of the spans `sp` of `s`, one after another.
pub open spec fn join_spans(s: Seq<u8>, sp: Seq<(ExtentKind, Span)>) -> Seq<u8>
    decreases sp.len(),
{
    if sp.len() == 0 {
        seq![]
    } else {
        s.subrange(sp[0].1.start, sp[0].1.end) + join_spans(s, sp.drop_first())
    }
}

/// The spans from `p` on are contiguous and cover `[p, s.len())`; text spans
/// hold no `@` and signal spans start with one.
pub proof fn lemma_spans_from(s: Seq<u8>, p: int)
    requires
        0 <= p <= s.len(),
    ensures
        ({
            let sp = raw_spans(s, p);
            &&& sp.len() == 0 <==> p == s.len()
            &&& sp.len() > 0 ==> sp[0].1.start == p && sp.last().1.end == s.len()
            &&& forall|k: int| 0 <= k < sp.len() ==> p <= #[trigger] sp[k].1.start < sp[k].1.end <= s.len()
            &&& forall|k: int| 0 <= k < sp.len() - 1 ==> #[trigger] sp[k].1.end == sp[k + 1].1.start
            &&& forall|k: int| 0 <= k < sp.len() && #[trigger] sp[k].0 == ExtentKind::Signal
                ==> s[sp[k].1.start] == SIGNAL
            &&& forall|k: int, j: int|
                0 <= k < sp.len() && #[trigger] sp[k].0 == ExtentKind::Text && sp[k].1.start <= j
                    < sp[k].1.end ==> #[trigger] s[j] != SIGNAL
        }),
        join_spans(s, raw_spans(s, p)) == s.subrange(p, s.len() as int),
    decreases s.len() - p,
{
    let sp = raw_spans(s, p);
    if p < s.len() {
        lemma_item(s, p);
        let e = item_end(s, p);
        lemma_spans_from(s, e);
        let tail = raw_spans(s, e);
        assert(sp.drop_first() =~= tail);
        assert forall|k: int| 0 <= k < sp.len() implies p <= #[trigger] sp[k].1.start < sp[k].1.end
            <= s.len() by {
            if k > 0 {
                assert(sp[k] == tail[k - 1]);
            }
        }
        assert forall|k: int| 0 <= k < sp.len() - 1 implies #[trigger] sp[k].1.end == sp[k
            + 1].1.start by {
            if k > 0 {
                assert(sp[k] == tail[k - 1]);
            }
        }
        assert forall|k: int| 0 <= k < sp.len() && #[trigger] sp[k].0 == ExtentKind::Signal
            implies s[sp[k].1.start] == SIGNAL by {
            if k > 0 {
                assert(sp[k] == tail[k - 1]);
            }
        }
        assert forall|k: int, j: int|
            0 <= k < sp.len() && #[trigger] sp[k].0 == ExtentKind::Text && sp[k].1.start <= j
                < sp[k].1.end implies #[trigger] s[j] != SIGNAL by {
            if k > 0 {
                assert(sp[k] == tail[k - 1]);
            } else {
                lemma_find_byte(s, p + 1, SIGNAL);
            }
        }
        if tail.len() > 0 {
            assert(sp.last() == tail.last());
        }
        assert(s.subrange(p, e) + s.subrange(e, s.len() as int) =~= s.subrange(p, s.len() as int));
    } else {
        assert(s.subrange(p, s.len() as int) =~= seq![]);
    }
}

/// Coverage: the spans of a text are contiguous and do not overlap; the first
/// starts at 0 and the last ends at the text's length, and only an empty text
/// has none. Each span is non-empty; a text span holds no `@`, and a signal
/// span starts with one.
pub proof fn law_spans_cover(s: Seq<u8>)
    ensures
        ({
            let sp = raw_spans(s, 0);
            &&& sp.len() == 0 <==> s.len() == 0
            &&& sp.len() > 0 ==> sp[0].1.start == 0 && sp.last().1.end == s.len()
            &&& forall|k: int| 0 <= k < sp.len() ==> 0 <= #[trigger] sp[k].1.start < sp[k].1.end <= s.len()
            &&& forall|k: int| 0 <= k < sp.len() - 1 ==> #[trigger] sp[k].1.end == sp[k + 1].1.start
            &&& forall|k: int| 0 <= k < sp.len() && #[trigger] sp[k].0 == ExtentKind::Signal
                ==> s[sp[k].1.start] == SIGNAL
            &&& forall|k: int, j: int|
                0 <= k < sp.len() && #[trigger] sp[k].0 == ExtentKind::Text && sp[k].1.start <= j
                    < sp[k].1.end ==> #[trigger] s[j] != SIGNAL
        }),
{
    lemma_spans_from(s, 0);
}

/// Round trip: the bytes of all spans of a text, in order, are the text.
pub proof fn law_spans_round_trip(s: Seq<u8>)
    ensures
        join_spans(s, raw_spans(s, 0)) == s,
{
    lemma_spans_from(s, 0);
    assert(s.subrange(0, s.len() as int) =~= s);
}

impl View for Extent {
    type V = (ExtentKind, Span);

    open spec fn view(&self) -> (ExtentKind, Span) {
        (self.kind, span_of(self.range))
    }
}

impl Extent {
    pub fn text(range: ops::Range<usize>) -> (r: Self)
        ensures
            r.range == range,
            r.kind == ExtentKind::Text,
    {
        Extent { range, kind: ExtentKind::Text }
    }

    pub fn signal(range: ops::Range<usize>) -> (r: Self)
        ensures
            r.range == range,
            r.kind == ExtentKind::Signal,
    {
        Extent { range, kind: ExtentKind::Signal }
    }

    pub fn is_text(&self) -> (r: bool)
        ensures
            r == (self.kind == ExtentKind::Text),
    {
        self.kind == ExtentKind::Text
    }

    pub fn is_signal(&self) -> (r: bool)
        ensures
            r == (self.kind == ExtentKind::Signal),
    {
        self.kind == ExtentKind::Signal
    }

    /// The part of `full` that this span covers.
    pub fn slice_of<'a>(&self, full: &'a str) -> (r: StrRange<'a>)
        requires
            self.range.start <= self.range.end <= full.spec_bytes().len(),
            on_char(full.spec_bytes(), self.range.start as int),
            on_char(full.spec_bytes(), self.range.end as int),
        ensures
            r.range == self.range,
            r.within(full.spec_bytes()),
    {
        let slice = slice_str(full, self.range.start, self.range.end);
        StrRange { slice, range: self.range.start..self.range.end }
    }
}

/// The extents of the scanner's items over one text, in order.
#[derive(Debug)]
pub struct ExtentIter<'a> {
    full: &'a str,
    pos: usize,
}

impl<'a> ExtentIter<'a> {
    /// The scanned text.
    pub closed spec fn full(&self) -> &'a str {
        self.full
    }

    /// Where the next span starts.
    pub closed spec fn pos(&self) -> int {
        self.pos as int
    }

    /// The spans still to come.
    pub open spec fn rest(&self) -> Seq<(ExtentKind, Span)> {
        raw_spans(self.full().spec_bytes(), self.pos())
    }

    pub fn new(full: &'a str) -> (r: Self)
        ensures
            r.full() == full,
            r.rest() == raw_spans(full.spec_bytes(), 0),
    {
        ExtentIter { full, pos: 0 }
    }

    /// The next span, or `None` once the text is covered.
    pub fn next(&mut self) -> (r: Option<Extent>)
        ensures
            final(self).full() == old(self).full(),
            old(self).rest().len() == 0 ==> r is None && final(self).rest().len() == 0,
            old(self).rest().len() > 0 ==> r is Some && r->0@ == old(self).rest()[0]
                && final(self).rest() == old(self).rest().drop_first(),
    {
        let s = self.full.as_bytes();
        if self.pos >= s.len() {
            return None;
        }
        let start = self.pos;
        let (item, end) = scan_at(s, start);
        proof {
            lemma_item(s@, start as int);
            assert(old(self).rest().drop_first() =~= raw_spans(s@, end as int));
        }
        self.pos = end;
        match item {
            Range::Text(_) => Some(Extent::text(start..end)),
            Range::Signal { .. } => Some(Extent::signal(start..end)),
        }
    }
}

} // verus!
