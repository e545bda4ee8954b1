//! The event composer: the trimmed items of every line, at absolute byte
//! offsets, with a `Break` between two consecutive lines that both produce
//! events, and each signal classified by which of its prompt and parameter
//! are empty.
use vstd::prelude::*;
use vstd::string::StringSliceAdditionalSpecFns;
use crate::text::{Span, span, StrRange, slice_str, NEWLINE, find_byte, lemma_find_byte};
use crate::raw::{Piece, Range, piece_fits, item_end, lemma_item};
use crate::trim::{self, trimmed};
use crate::lines::{self, lines_from};

verus! {

/// A signal, by which of its prompt and parameter are present.
#[derive(Clone, Eq, PartialEq, Hash, Debug, Default)]
pub enum Signal<'a> {
    /// Just an `@`.
    #[default]
    Ping,
    /// `@` followed by a name.
    Prompt(StrRange<'a>),
    /// `@` followed by brackets.
    Param(StrRange<'a>),
    /// `@` followed by a name and then brackets.
    Call { prompt: StrRange<'a>, param: StrRange<'a> },
}

/// One event of a text.
#[derive(Clone, Eq, PartialEq, Hash, Debug)]
pub enum Event<'a> {
    Signal(Signal<'a>),
    Text(StrRange<'a>),
    /// The boundary between two lines.
    Break,
}

/// A signal as spans.
pub enum SignalV {
    Ping,
    Prompt(Span),
    Param(Span),
    Call(Span, Span),
}

/// An event as spans.
pub enum EventV {
    Signal(SignalV),
    Text(Span),
    Break,
}

impl<'a> View for Signal<'a> {
    type V = SignalV;

    open spec fn view(&self) -> SignalV {
        match self {
            Signal::Ping => SignalV::Ping,
            Signal::Prompt(p) => SignalV::Prompt(p.span()),
            Signal::Param(p) => SignalV::Param(p.span()),
            Signal::Call { prompt, param } => SignalV::Call(prompt.span(), param.span()),
        }
    }
}

impl<'a> Signal<'a> {
    /// Each part of the signal holds the bytes of its range of `s`; a prompt
    /// comes after its `@`.
    pub open spec fn within(&self, s: Seq<u8>) -> bool {
        match self {
            Signal::Ping => true,
            Signal::Prompt(p) => p.within(s) && p.range.start >= 1,
            Signal::Param(p) => p.within(s),
            Signal::Call { prompt, param } => prompt.within(s) && param.within(s) && prompt.range.start
                >= 1,
        }
    }
}

impl<'a> View for Event<'a> {
    type V = EventV;

    open spec fn view(&self) -> EventV {
        match self {
            Event::Signal(sig) => EventV::Signal(sig@),
            Event::Text(t) => EventV::Text(t.span()),
            Event::Break => EventV::Break,
        }
    }
}

impl<'a> Event<'a> {
    /// Each part of the event holds the bytes of its range of `s`.
    pub open spec fn within(&self, s: Seq<u8>) -> bool {
        match self {
            Event::Signal(sig) => sig.within(s),
            Event::Text(t) => t.within(s),
            Event::Break => true,
        }
    }
}

/// `x` moved by `off`.
pub open spec fn shift(x: Span, off: int) -> Span {
    span(x.start + off, x.end + off)
}

/// The event of a trimmed item of a line that starts at `off`: a signal is
/// a `Ping` with neither prompt nor parameter, a `Param` without prompt, a
/// `Prompt` without parameter and a `Call` with both.
pub open spec fn classify(x: Piece, off: int) -> EventV {
    match x {
        Piece::Text(t) => EventV::Text(shift(t, off)),
        Piece::Signal(pr, pa) => if pr.end <= pr.start && pa.end <= pa.start {
            EventV::Signal(SignalV::Ping)
        } else if pr.end <= pr.start {
            EventV::Signal(SignalV::Param(shift(pa, off)))
        } else if pa.end <= pa.start {
            EventV::Signal(SignalV::Prompt(shift(pr, off)))
        } else {
            EventV::Signal(SignalV::Call(shift(pr, off), shift(pa, off)))
        },
    }
}

/// The events of line `l` of `s`.
pub open spec fn line_events(s: Seq<u8>, l: Span) -> Seq<EventV> {
    trimmed(s.subrange(l.start, l.end), 0, true, false).map_values(|x: Piece| classify(x, l.start))
}

/// The events of the lines `ls`, which follow a line that produced events
/// where `prev` holds: a `Break` comes before a line that produces events
/// and follows such a line.
pub open spec fn breaks_then(s: Seq<u8>, prev: bool, ls: Seq<Span>) -> Seq<EventV>
    decreases ls.len(),
{
    if ls.len() == 0 {
        seq![]
    } else {
        let le = line_events(s, ls[0]);
        let lead = if prev && le.len() > 0 {
            seq![EventV::Break]
        } else {
            seq![]
        };
        lead + le + breaks_then(s, le.len() > 0, ls.drop_first())
    }
}

/// The events of the lines `ls`, with a `Break` between two consecutive lines
/// that both produce events.
pub open spec fn events_of_lines(s: Seq<u8>, ls: Seq<Span>) -> Seq<EventV> {
    if ls.len() == 0 {
        seq![]
    } else {
        line_events(s, ls[0]) + breaks_then(s, line_events(s, ls[0]).len() > 0, ls.drop_first())
    }
}

/// The events of the text `s`.
pub open spec fn events(s: Seq<u8>) -> Seq<EventV> {
    events_of_lines(s, lines_from(s, 0))
}

/// A line has no more trimmed items than bytes.
proof fn lemma_trimmed_len(s: Seq<u8>, p: int, left_next: bool, seen: bool)
    requires
        0 <= p <= s.len(),
    ensures
        trimmed(s, p, left_next, seen).len() <= s.len() - p,
    decreases s.len() - p,
{
    if p < s.len() {
        lemma_item(s, p);
        let e = item_end(s, p);
        lemma_trimmed_len(s, e, false, seen);
        lemma_trimmed_len(s, e, left_next, true);
    }
}

/// The lines from `p` on have no more events than bytes; with a `Break`
/// before the first, one more.
proof fn lemma_lines_events_len(s: Seq<u8>, p: int, prev: bool)
    requires
        0 <= p <= s.len(),
    ensures
        events_of_lines(s, lines_from(s, p)).len() <= s.len() - p,
        breaks_then(s, prev, lines_from(s, p)).len() <= s.len() - p + 1,
    decreases s.len() + 1 - p,
{
    lemma_find_byte(s, p, NEWLINE);
    let e = find_byte(s, p, NEWLINE);
    let ls = lines_from(s, p);
    let le = line_events(s, ls[0]);
    lemma_trimmed_len(s.subrange(p, e), 0, true, false);
    assert(ls[0] == span(p, e));
    assert(le.len() <= e - p);
    if e < s.len() {
        lemma_lines_events_len(s, e + 1, le.len() > 0);
        assert(ls.drop_first() == lines_from(s, e + 1));
    } else {
        assert(ls.drop_first() =~= seq![]);
    }
}

/// A text has no more events than bytes.
pub proof fn lemma_events_len(s: Seq<u8>)
    ensures
        events(s).len() <= s.len(),
{
    lemma_lines_events_len(s, 0, false);
}

/// The part `[a, b)` of `line`, whose range in the whole text is moved by
/// `offset`.
fn offset_slice<'a>(line: &'a str, a: usize, b: usize, offset: usize, Ghost(s): Ghost<Seq<u8>>) -> (r:
    StrRange<'a>)
    requires
        a <= b <= line.spec_bytes().len(),
        crate::text::on_char(line.spec_bytes(), a as int),
        crate::text::on_char(line.spec_bytes(), b as int),
        offset + line.spec_bytes().len() <= s.len() <= usize::MAX,
        line.spec_bytes() == s.subrange(offset as int, offset + line.spec_bytes().len()),
    ensures
        r.span() == shift(span(a as int, b as int), offset as int),
        r.within(s),
{
    let slice = slice_str(line, a, b);
    proof {
        assert(slice.spec_bytes() =~= s.subrange(offset + a, offset + b));
    }
    StrRange { slice, range: (offset + a)..(offset + b) }
}

/// The event of a trimmed item of `line`, which starts at `offset` in `s`.
fn to_event<'a>(line: &'a str, item: Range, offset: usize, Ghost(s): Ghost<Seq<u8>>) -> (r: Event<
    'a>)
    requires
        piece_fits(line.spec_bytes(), item@),
        offset + line.spec_bytes().len() <= s.len() <= usize::MAX,
        line.spec_bytes() == s.subrange(offset as int, offset + line.spec_bytes().len()),
    ensures
        r@ == classify(item@, offset as int),
        r.within(s),
{
    match item {
        Range::Text(t) => Event::Text(offset_slice(line, t.start, t.end, offset, Ghost(s))),
        Range::Signal { prompt, param } => {
            if prompt.end <= prompt.start && param.end <= param.start {
                Event::Signal(Signal::Ping)
            } else if prompt.end <= prompt.start {
                Event::Signal(Signal::Param(offset_slice(line, param.start, param.end, offset, Ghost(s))))
            } else if param.end <= param.start {
                Event::Signal(Signal::Prompt(offset_slice(line, prompt.start, prompt.end, offset, Ghost(s))))
            } else {
                Event::Signal(
                    Signal::Call {
                        prompt: offset_slice(line, prompt.start, prompt.end, offset, Ghost(s)),
                        param: offset_slice(line, param.start, param.end, offset, Ghost(s)),
                    },
                )
            }
        },
    }
}

/// The events of a text, in order.
#[derive(Debug)]
pub struct Iter<'a> {
    current: Option<trim::Iter<'a>>,
    remainder: lines::Iter<'a>,
    offset: usize,
    /// The first event of the current line, held back behind a `Break`.
    ahead: Option<Event<'a>>,
    /// The current line has produced an event.
    line_active: bool,
    /// The line before the current one produced an event.
    prev_active: bool,
}

impl<'a> Iter<'a> {
    /// The current line lies in the text at the current offset, and an event
    /// held back lies in the text.
    pub closed spec fn wf(&self) -> bool {
        let s = self.remainder.full().spec_bytes();
        &&& s.len() <= usize::MAX
        &&& match self.current {
            Some(t) => {
                let n = t.full().spec_bytes().len();
                &&& self.offset + n <= s.len()
                &&& t.full().spec_bytes() == s.subrange(self.offset as int, self.offset + n)
            },
            None => true,
        }
        &&& match self.ahead {
            Some(e) => self.line_active && self.current is Some && e.within(s),
            None => true,
        }
    }

    /// The text whose events these are.
    pub closed spec fn full(&self) -> &'a str {
        self.remainder.full()
    }

    /// The events still to come.
    pub closed spec fn rest(&self) -> Seq<EventV> {
        let s = self.remainder.full().spec_bytes();
        match self.current {
            Some(t) => {
                let cur = t.rest().map_values(|x: Piece| classify(x, self.offset as int));
                let head = match self.ahead {
                    Some(e) => seq![e@],
                    None => seq![],
                };
                let lead = if !self.line_active && self.prev_active && cur.len() > 0 {
                    seq![EventV::Break]
                } else {
                    seq![]
                };
                head + lead + cur + breaks_then(s, self.line_active || cur.len() > 0, self.remainder.rest())
            },
            None => events_of_lines(s, self.remainder.rest()),
        }
    }

    pub fn new(text: &'a str) -> (r: Self)
        ensures
            r.full() == text,
            r.rest() == events(text.spec_bytes()),
            r.wf(),
    {
        // The length of the text fits in a `usize`.
        let _len = text.as_bytes().len();
        Iter {
            current: None,
            remainder: lines::Iter::new(text),
            offset: 0,
            ahead: None,
            line_active: false,
            prev_active: false,
        }
    }

    /// The next event, or `None` once the text is exhausted.
    pub fn next(&mut self) -> (r: Option<Event<'a>>)
        requires
            old(self).wf(),
        ensures
            final(self).wf(),
            final(self).full() == old(self).full(),
            old(self).rest().len() == 0 ==> r is None && final(self).rest().len() == 0,
            old(self).rest().len() > 0 ==> r is Some && r->0@ == old(self).rest()[0]
                && final(self).rest() == old(self).rest().drop_first(),
            r is Some ==> r->0.within(old(self).full().spec_bytes()),
    {
        let ghost s = self.remainder.full().spec_bytes();
        let ghost before = self.rest();
        match self.ahead.take() {
            Some(ev) => {
                proof {
                    assert(before.drop_first() =~= self.rest());
                }
                return Some(ev);
            },
            None => {},
        }
        if self.current.is_none() {
            let ghost ls = self.remainder.rest();
            let offset = self.remainder.line_start();
            match self.remainder.next() {
                None => {
                    return None;
                },
                Some(t) => {
                    proof {
                        assert(t.rest().map_values(|x: Piece| classify(x, offset as int))
                            == line_events(s, ls[0]));
                    }
                    self.offset = offset;
                    self.current = Some(t);
                    self.line_active = false;
                    self.prev_active = false;
                    proof {
                        assert(before =~= self.rest());
                    }
                },
            }
        }
        loop
            invariant
                self.wf(),
                self.remainder.full().spec_bytes() == s,
                self.full() == old(self).full(),
                self.current is Some,
                self.ahead is None,
                self.rest() == before,
                before == old(self).rest(),
            decreases self.remainder.rest().len(),
        {
            let mut cur = self.current.take().unwrap();
            let ghost off = self.offset as int;
            let ghost cur_rest = cur.rest();
            let ghost f = |x: Piece| classify(x, off);
            match cur.next() {
                Some(item) => {
                    let line = cur.as_full_str();
                    let ev = to_event(line, item, self.offset, Ghost(s));
                    self.current = Some(cur);
                    proof {
                        assert(cur_rest.map_values(f).drop_first() =~= cur.rest().map_values(f));
                    }
                    if !self.line_active && self.prev_active {
                        self.line_active = true;
                        self.ahead = Some(ev);
                        proof {
                            assert(before.drop_first() =~= self.rest());
                        }
                        return Some(Event::Break);
                    }
                    self.line_active = true;
                    proof {
                        assert(before.drop_first() =~= self.rest());
                    }
                    return Some(ev);
                },
                None => {
                    proof {
                        assert(cur_rest.map_values(f) =~= seq![]);
                    }
                    let ghost ls = self.remainder.rest();
                    let offset = self.remainder.line_start();
                    match self.remainder.next() {
                        None => {
                            proof {
                                assert(self.rest() =~= seq![]);
                                assert(before =~= seq![]);
                            }
                            return None;
                        },
                        Some(t) => {
                            proof {
                                assert(t.rest().map_values(|x: Piece| classify(x, offset as int))
                                    == line_events(s, ls[0]));
                            }
                            self.offset = offset;
                            self.current = Some(t);
                            self.prev_active = self.line_active;
                            self.line_active = false;
                            proof {
                                assert(before =~= self.rest());
                            }
                        },
                    }
                },
            }
        }
    }
}

} // verus!
