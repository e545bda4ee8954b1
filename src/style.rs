//! The style decorator: `@style{codes}@{text}` becomes one styled text event.
//!
//! The codes are letters: `p` panel, `c` code, `q` quote, `b` bold, `i`
//! italic, `s` scratch; any other character adds nothing. A `style` call that
//! is not followed at once by a parameter ends the stream of events.
use vstd::prelude::*;
use vstd::string::StringSliceAdditionalSpecFns;
use crate::text::{Span, StrRange};
use crate::event::{self, Signal, SignalV, EventV, events};

verus! {

/// A set of style flags.
#[derive(Clone, Copy, Eq, PartialEq, Structural, Hash, Debug, Default)]
pub struct Style {
    bits: u16,
}

/// The flag of one style code letter, or none.
pub open spec fn code_bits(b: u8) -> u16 {
    if b == 0x70 {
        1
    } else if b == 0x63 {
        2
    } else if b == 0x71 {
        4
    } else if b == 0x62 {
        8
    } else if b == 0x69 {
        16
    } else if b == 0x73 {
        32
    } else {
        0
    }
}

/// The flags of all code letters of `s`.
pub open spec fn style_bits(s: Seq<u8>) -> u16
    decreases s.len(),
{
    if s.len() == 0 {
        0
    } else {
        style_bits(s.drop_last()) | code_bits(s.last())
    }
}

impl View for Style {
    type V = u16;

    closed spec fn view(&self) -> u16 {
        self.bits
    }
}

impl Style {
    /// No flag.
    pub fn regular() -> (r: Style)
        ensures
            r@ == 0,
    {
        Style { bits: 0 }
    }

    pub fn panel() -> (r: Style)
        ensures
            r@ == 1,
    {
        Style { bits: 1 }
    }

    pub fn code() -> (r: Style)
        ensures
            r@ == 2,
    {
        Style { bits: 2 }
    }

    pub fn quote() -> (r: Style)
        ensures
            r@ == 4,
    {
        Style { bits: 4 }
    }

    pub fn bold() -> (r: Style)
        ensures
            r@ == 8,
    {
        Style { bits: 8 }
    }

    pub fn italic() -> (r: Style)
        ensures
            r@ == 16,
    {
        Style { bits: 16 }
    }

    pub fn scratch() -> (r: Style)
        ensures
            r@ == 32,
    {
        Style { bits: 32 }
    }

    pub fn bits(&self) -> (r: u16)
        ensures
            r == self@,
    {
        self.bits
    }

    /// Whether every flag of `other` is set here.
    pub fn contains(&self, other: Style) -> (r: bool)
        ensures
            r == (self@ & other@ == other@),
    {
        self.bits & other.bits == other.bits
    }

    /// The flags of a parameter of style codes.
    pub fn from_param(param: &str) -> (r: Style)
        ensures
            r@ == style_bits(param.spec_bytes()),
    {
        let b = param.as_bytes();
        let mut bits: u16 = 0;
        let mut i: usize = 0;
        while i < b.len()
            invariant
                i <= b@.len(),
                bits == style_bits(b@.take(i as int)),
            decreases b@.len() - i,
        {
            let c = b[i];
            let flag: u16 = if c == 0x70 {
                1
            } else if c == 0x63 {
                2
            } else if c == 0x71 {
                4
            } else if c == 0x62 {
                8
            } else if c == 0x69 {
                16
            } else if c == 0x73 {
                32
            } else {
                0
            };
            proof {
                assert(b@.take(i + 1).drop_last() =~= b@.take(i as int));
            }
            bits = bits | flag;
            i = i + 1;
        }
        proof {
            assert(b@.take(b@.len() as int) =~= b@);
        }
        Style { bits }
    }
}

impl core::ops::BitOr for Style {
    type Output = Style;

    fn bitor(self, rhs: Style) -> (r: Style)
        ensures
            r@ == self@ | rhs@,
    {
        Style { bits: self.bits | rhs.bits }
    }
}

impl vstd::std_specs::ops::BitOrSpecImpl for Style {
    open spec fn obeys_bitor_spec() -> bool {
        true
    }

    open spec fn bitor_req(self, rhs: Style) -> bool {
        true
    }

    closed spec fn bitor_spec(self, rhs: Style) -> Style {
        Style { bits: self.bits | rhs.bits }
    }
}

/// One event, with a style on text.
#[derive(Clone, Eq, PartialEq, Hash, Debug)]
pub enum Event<'a> {
    Signal(Signal<'a>),
    Text { style: Style, content: StrRange<'a> },
    Break,
}

/// A styled event as spans.
pub enum StyledV {
    Signal(SignalV),
    Text(u16, Span),
    Break,
}

impl<'a> View for Event<'a> {
    type V = StyledV;

    open spec fn view(&self) -> StyledV {
        match self {
            Event::Signal(sig) => StyledV::Signal(sig@),
            Event::Text { style, content } => StyledV::Text(style@, content.span()),
            Event::Break => StyledV::Break,
        }
    }
}

impl<'a> Event<'a> {
    /// Each part of the event holds the bytes of its range of `s`.
    pub open spec fn within(&self, s: Seq<u8>) -> bool {
        match self {
            Event::Signal(sig) => sig.within(s),
            Event::Text { content, .. } => content.within(s),
            Event::Break => true,
        }
    }

    /// An event of the composer, with no style on text.
    fn from_inner(event: event::Event<'a>) -> (r: Self)
        ensures
            r@ == plain(event@),
            r.within_if(event),
    {
        match event {
            event::Event::Signal(sig) => Event::Signal(sig),
            event::Event::Text(content) => Event::Text { style: Style { bits: 0 }, content },
            event::Event::Break => Event::Break,
        }
    }

    /// Whatever `within` holds of `event` holds of this event.
    pub open spec fn within_if(&self, event: event::Event<'a>) -> bool {
        forall|s: Seq<u8>| event.within(s) ==> #[trigger] self.within(s)
    }
}

/// The bytes of `style`.
pub open spec fn style_word() -> Seq<u8> {
    seq![0x73u8, 0x74, 0x79, 0x6c, 0x65]
}

/// An event of the composer with no style on text.
pub open spec fn plain(e: EventV) -> StyledV {
    match e {
        EventV::Signal(sig) => StyledV::Signal(sig),
        EventV::Text(t) => StyledV::Text(0, t),
        EventV::Break => StyledV::Break,
    }
}

/// `e` is a call whose prompt is `style`.
pub open spec fn is_style_call(s: Seq<u8>, e: EventV) -> bool {
    match e {
        EventV::Signal(SignalV::Call(pr, _)) => s.subrange(pr.start, pr.end) == style_word(),
        _ => false,
    }
}

/// The styled events of the events `evs` of `s`: a `style` call and the
/// parameter right after it become one styled text; a `style` call without
/// such a parameter ends the sequence.
pub open spec fn styled(s: Seq<u8>, evs: Seq<EventV>) -> Seq<StyledV>
    decreases evs.len(),
{
    if evs.len() == 0 {
        seq![]
    } else if is_style_call(s, evs[0]) {
        match (evs[0], if evs.len() >= 2 { Some(evs[1]) } else { None }) {
            (
                EventV::Signal(SignalV::Call(_, pa)),
                Some(EventV::Signal(SignalV::Param(content))),
            ) => seq![StyledV::Text(style_bits(s.subrange(pa.start, pa.end)), content)]
                + styled(s, evs.skip(2)),
            _ => seq![],
        }
    } else {
        seq![plain(evs[0])] + styled(s, evs.drop_first())
    }
}

/// Whether `b` spells `style`.
fn is_style(b: &[u8]) -> (r: bool)
    ensures
        r == (b@ == style_word()),
{
    let r = b.len() == 5 && b[0] == 0x73 && b[1] == 0x74 && b[2] == 0x79 && b[3] == 0x6c && b[4]
        == 0x65;
    proof {
        if r {
            assert(b@ =~= style_word());
        }
    }
    r
}

/// The styled events of a text, in order.
#[derive(Debug)]
pub struct EventIter<'a> {
    inner: event::Iter<'a>,
    done: bool,
}

impl<'a> EventIter<'a> {
    /// The text whose events these are.
    pub closed spec fn full(&self) -> &'a str {
        self.inner.full()
    }

    pub closed spec fn wf(&self) -> bool {
        self.inner.wf()
    }

    /// The events still to come.
    pub closed spec fn rest(&self) -> Seq<StyledV> {
        if self.done {
            seq![]
        } else {
            styled(self.inner.full().spec_bytes(), self.inner.rest())
        }
    }

    pub fn new(text: &'a str) -> (r: Self)
        ensures
            r.full() == text,
            r.wf(),
            r.rest() == styled(text.spec_bytes(), events(text.spec_bytes())),
    {
        EventIter { inner: event::Iter::new(text), done: false }
    }

    /// The next event, or `None` once the stream has ended.
    pub fn next(&mut self) -> (r: Option<Event<'a>>)
        requires
            old(self).wf(),
        ensures
            final(self).wf(),
            final(self).full() == old(self).full(),
            old(self).rest().len() == 0 ==> r is None && final(self).rest().len() == 0,
            old(self).rest().len() > 0 ==> r is Some && r->0@ == old(self).rest()[0]
                && final(self).rest() == old(self).rest().drop_first(),
            r is Some ==> r->0.within(old(self).full().spec_bytes()),
    {
        if self.done {
            return None;
        }
        let ghost s = self.inner.full().spec_bytes();
        let ghost evs = self.inner.rest();
        let next = match self.inner.next() {
            Some(e) => e,
            None => {
                return None;
            },
        };
        let style = match &next {
            event::Event::Signal(Signal::Call { prompt, param }) => {
                if is_style(prompt.slice.as_bytes()) {
                    Some(Style::from_param(param.slice))
                } else {
                    None
                }
            },
            _ => None,
        };
        match style {
            Some(style) => {
                let ghost evs1 = self.inner.rest();
                match self.inner.next() {
                    Some(event::Event::Signal(Signal::Param(content))) => {
                        proof {
                            assert(evs1.drop_first() =~= evs.skip(2));
                        }
                        Some(Event::Text { style, content })
                    },
                    _ => {
                        self.done = true;
                        None
                    },
                }
            },
            None => {
                let r = Event::from_inner(next);
                Some(r)
            },
        }
    }
}

/// The styled events of a text.
pub fn event_iter(text: &str) -> (r: EventIter<'_>)
    ensures
        r.full() == text,
        r.wf(),
        r.rest() == styled(text.spec_bytes(), events(text.spec_bytes())),
{
    EventIter::new(text)
}

} // verus!
