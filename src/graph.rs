//! The narrative graph builder.
//!
//! `@bookmark{name}` opens a node whose text runs to the next bookmark or
//! choice signal (or to the end); `@choice{name}` opens the text of an edge
//! from the enclosing bookmark's node to the node of the bookmark `name`.
//! The first pass creates the nodes and the guide from names to nodes and
//! collects the choices; the second links each choice whose target the guide
//! knows, so that a choice may name a bookmark declared later. A choice
//! whose target is never declared is dropped; a bookmark whose name is
//! already known adds nothing, and its choices stay with the bookmark before
//! it. Before any bookmark, the enclosing node is the first node.
use core::ops;
use vstd::prelude::*;
use vstd::string::StringSliceAdditionalSpecFns;
use crate::text::{Span, span, StrRange, bytes_equal};
use crate::event::{self, Event, Signal, SignalV, EventV, events, lemma_events_len};
use crate::story::{Story, story_nodes, story_edges, new_story, add_node, add_edge};

verus! {

/// Names of bookmarks, each with the index of its node, in the order of
/// declaration; a name occurs once.
#[derive(Debug)]
pub struct Guide<'a> {
    entries: Vec<(&'a str, usize)>,
}

/// The node of `name` in the entries `g`: that of the first entry with that
/// name.
pub open spec fn lookup(g: Seq<(Seq<u8>, int)>, name: Seq<u8>) -> Option<int>
    decreases g.len(),
{
    if g.len() == 0 {
        None
    } else if g[0].0 == name {
        Some(g[0].1)
    } else {
        lookup(g.drop_first(), name)
    }
}

impl<'a> View for Guide<'a> {
    type V = Seq<(Seq<u8>, int)>;

    closed spec fn view(&self) -> Seq<(Seq<u8>, int)> {
        self.entries@.map_values(|e: (&'a str, usize)| (e.0.spec_bytes(), e.1 as int))
    }
}

impl<'a> Guide<'a> {
    fn new() -> (r: Self)
        ensures
            r@ == Seq::<(Seq<u8>, int)>::empty(),
    {
        let r = Guide { entries: Vec::new() };
        proof {
            assert(r@ =~= Seq::<(Seq<u8>, int)>::empty());
        }
        r
    }

    /// The number of names.
    pub fn len(&self) -> (r: usize)
        ensures
            r == self@.len(),
    {
        self.entries.len()
    }

    /// The node of the bookmark `name`, if it was declared.
    pub fn get(&self, name: &str) -> (r: Option<usize>)
        ensures
            match r {
                Some(i) => lookup(self@, name.spec_bytes()) == Some(i as int),
                None => lookup(self@, name.spec_bytes()) is None,
            },
    {
        let key = name.as_bytes();
        let mut i: usize = 0;
        proof {
            assert(self@.skip(0) =~= self@);
        }
        while i < self.entries.len()
            invariant
                i <= self@.len(),
                self@.len() == self.entries@.len(),
                key@ == name.spec_bytes(),
                lookup(self@.skip(i as int), key@) == lookup(self@, key@),
            decreases self.entries@.len() - i,
        {
            let (n, node) = self.entries[i];
            proof {
                assert(self@[i as int] == (n.spec_bytes(), node as int));
                assert(self@.skip(i as int).drop_first() =~= self@.skip(i + 1));
            }
            if bytes_equal(n.as_bytes(), key) {
                return Some(node);
            }
            i = i + 1;
        }
        None
    }

    /// The name and node of entry `i`, in the order of declaration.
    pub fn entry(&self, i: usize) -> (r: (&'a str, usize))
        requires
            i < self@.len(),
        ensures
            self@[i as int] == (r.0.spec_bytes(), r.1 as int),
    {
        self.entries[i]
    }

    fn push(&mut self, name: &'a str, node: usize)
        ensures
            final(self)@ == old(self)@.push((name.spec_bytes(), node as int)),
    {
        self.entries.push((name, node));
        proof {
            assert(final(self)@ =~= old(self)@.push((name.spec_bytes(), node as int)));
        }
    }
}

/// The bytes of `bookmark`.
pub open spec fn bookmark_word() -> Seq<u8> {
    seq![0x62u8, 0x6f, 0x6f, 0x6b, 0x6d, 0x61, 0x72, 0x6b]
}

/// The bytes of `choice`.
pub open spec fn choice_word() -> Seq<u8> {
    seq![0x63u8, 0x68, 0x6f, 0x69, 0x63, 0x65]
}

fn is_bookmark(b: &[u8]) -> (r: bool)
    ensures
        r == (b@ == bookmark_word()),
{
    let r = b.len() == 8 && b[0] == 0x62 && b[1] == 0x6f && b[2] == 0x6f && b[3] == 0x6b && b[4]
        == 0x6d && b[5] == 0x61 && b[6] == 0x72 && b[7] == 0x6b;
    proof {
        if r {
            assert(b@ =~= bookmark_word());
        }
    }
    r
}

fn is_choice(b: &[u8]) -> (r: bool)
    ensures
        r == (b@ == choice_word()),
{
    let r = b.len() == 6 && b[0] == 0x63 && b[1] == 0x68 && b[2] == 0x6f && b[3] == 0x69 && b[4]
        == 0x63 && b[5] == 0x65;
    proof {
        if r {
            assert(b@ =~= choice_word());
        }
    }
    r
}

/// The state of the first pass: the end of the content seen so far, the
/// node of the enclosing bookmark, the bookmark or choice whose text is still
/// open (its parameter's span and bytes, and whether it is a bookmark), the
/// guide, the nodes
/// and the choices to link (source node, target name, text).
pub struct Pass {
    pub end: int,
    pub last: int,
    pub pending: Option<(Span, Seq<u8>, bool)>,
    pub guide: Seq<(Seq<u8>, int)>,
    pub nodes: Seq<(int, int)>,
    pub requests: Seq<(int, Seq<u8>, (int, int))>,
}

/// The state before any event.
pub open spec fn start_pass() -> Pass {
    Pass {
        end: 0,
        last: 0,
        pending: None,
        guide: seq![],
        nodes: seq![],
        requests: seq![],
    }
}

/// Closes the open bookmark or choice with parameter `prev`, which holds
/// `name`: its text runs from after the parameter's closing bracket to
/// `boundary`. A bookmark whose name is new gets a node, and becomes the
/// enclosing bookmark; a bookmark whose name is known is dropped. A choice is
/// kept for the second pass.
pub open spec fn close(st: Pass, prev: Span, name: Seq<u8>, is_bookmark: bool, boundary: int) -> Pass {
    let text = (prev.end + 1, boundary);
    if is_bookmark {
        if lookup(st.guide, name) is Some {
            st
        } else {
            Pass {
                nodes: st.nodes.push(text),
                guide: st.guide.push((name, st.nodes.len() as int)),
                last: st.nodes.len() as int,
                ..st
            }
        }
    } else {
        Pass { requests: st.requests.push((st.last, name, text)), ..st }
    }
}

/// The first pass after event `e` of the text `s`. A bookmark or choice call
/// closes the open one at its `@` and is open in turn; any other event with a
/// span moves the end of the content past it.
pub open spec fn step(s: Seq<u8>, st: Pass, e: EventV) -> Pass {
    match e {
        EventV::Signal(SignalV::Call(pr, pa)) => {
            let p = s.subrange(pr.start, pr.end);
            if p == bookmark_word() || p == choice_word() {
                let closed = match st.pending {
                    None => st,
                    Some((prev, name, b)) => close(st, prev, name, b, pr.start - 1),
                };
                Pass {
                    pending: Some((pa, s.subrange(pa.start, pa.end), p == bookmark_word())),
                    ..closed
                }
            } else {
                Pass { end: pa.end + 1, ..st }
            }
        },
        EventV::Signal(SignalV::Param(pa)) => Pass { end: pa.end + 1, ..st },
        EventV::Signal(SignalV::Prompt(pr)) => Pass { end: pr.end, ..st },
        EventV::Text(t) => Pass { end: t.end, ..st },
        _ => st,
    }
}

/// The first pass over the events `evs`, each with the text it belongs to.
pub open spec fn node_pass(evs: Seq<(Seq<u8>, EventV)>) -> Pass
    decreases evs.len(),
{
    if evs.len() == 0 {
        start_pass()
    } else {
        step(evs.last().0, node_pass(evs.drop_last()), evs.last().1)
    }
}

/// The events `evs` of the text `s`, each with that text.
pub open spec fn of_text(s: Seq<u8>, evs: Seq<EventV>) -> Seq<(Seq<u8>, EventV)> {
    evs.map_values(|e: EventV| (s, e))
}

/// The events of the texts `chunks`, one after another, each with its text;
/// ranges stay relative to their own text.
pub open spec fn chunk_events(chunks: Seq<&str>) -> Seq<(Seq<u8>, EventV)>
    decreases chunks.len(),
{
    if chunks.len() == 0 {
        seq![]
    } else {
        let c = chunks.last().spec_bytes();
        chunk_events(chunks.drop_last()) + of_text(c, events(c))
    }
}

/// The byte length of the texts `chunks` together.
pub open spec fn chunks_len(chunks: Seq<&str>) -> int
    decreases chunks.len(),
{
    if chunks.len() == 0 {
        0
    } else {
        chunks_len(chunks.drop_last()) + chunks.last().spec_bytes().len()
    }
}

/// Texts have no more events, together, than bytes.
proof fn lemma_chunk_events_len(chunks: Seq<&str>)
    ensures
        chunk_events(chunks).len() <= chunks_len(chunks),
        forall|k: int| 0 <= k < chunks.len() ==> #[trigger] chunks[k].spec_bytes().len() <= chunks_len(chunks),
    decreases chunks.len(),
{
    if chunks.len() > 0 {
        lemma_chunk_events_len(chunks.drop_last());
        lemma_events_len(chunks.last().spec_bytes());
        assert forall|k: int| 0 <= k < chunks.len() implies #[trigger] chunks[k].spec_bytes().len()
            <= chunks_len(chunks) by {
            if k < chunks.len() - 1 {
                assert(chunks[k] == chunks.drop_last()[k]);
            }
        }
    }
}

/// The first pass, with the still open bookmark or choice closed at the end
/// of the content (where no content followed it, that end lies before its
/// text's start).
pub open spec fn finish(st: Pass) -> Pass {
    match st.pending {
        None => st,
        Some((prev, name, b)) => Pass { pending: None, ..close(st, prev, name, b, st.end) },
    }
}

/// The edges of the choices `reqs` whose target `g` knows, in order.
pub open spec fn link(g: Seq<(Seq<u8>, int)>, reqs: Seq<(int, Seq<u8>, (int, int))>) -> Seq<
    (int, int, (int, int)),
>
    decreases reqs.len(),
{
    if reqs.len() == 0 {
        seq![]
    } else {
        let prev = link(g, reqs.drop_last());
        let r = reqs.last();
        match lookup(g, r.1) {
            Some(to) => prev.push((r.0, to, r.2)),
            None => prev,
        }
    }
}

/// A choice waiting for the second pass.
struct Choice<'a> {
    from: usize,
    to: &'a str,
    range: ops::Range<usize>,
}

/// The state of the first pass.
struct Builder<'a> {
    end: usize,
    last: usize,
    pending: Option<(StrRange<'a>, bool)>,
    guide: Guide<'a>,
    story: Story,
    choices: Vec<Choice<'a>>,
}

/// The choices as `(source, target name, (start, end))`.
spec fn choices_view<'a>(c: Seq<Choice<'a>>) -> Seq<(int, Seq<u8>, (int, int))> {
    c.map_values(
        |c: Choice<'a>| (c.from as int, c.to.spec_bytes(), (c.range.start as int, c.range.end as int)),
    )
}

/// What holds of every state of the first pass: indices name existing nodes
/// (or the first node, before any), and counts stay below the index limit.
spec fn pass_bounded(st: Pass, n: int) -> bool {
    &&& st.nodes.len() <= n
    &&& st.requests.len() <= n
    &&& st.last == 0 || st.last < st.nodes.len()
    &&& forall|k: int| 0 <= k < st.guide.len() ==> 0 <= #[trigger] st.guide[k].1 < st.nodes.len()
    &&& forall|k: int|
        0 <= k < st.requests.len() ==> (#[trigger] st.requests[k].0 == 0 || st.requests[k].0
            < st.nodes.len())
    &&& 0 <= st.last
    &&& forall|k: int| 0 <= k < st.requests.len() ==> 0 <= #[trigger] st.requests[k].0
}

impl<'a> Builder<'a> {
    spec fn view(&self) -> Pass {
        Pass {
            end: self.end as int,
            last: self.last as int,
            pending: match self.pending {
                Some((p, b)) => Some((p.span(), p.slice.spec_bytes(), b)),
                None => None,
            },
            guide: self.guide@,
            nodes: story_nodes(self.story),
            requests: choices_view(self.choices@),
        }
    }

    /// Positions stay below the index limit, and the state is bounded by
    /// `n` events.
    spec fn wf(&self, n: int) -> bool {
        &&& n <= u32::MAX
        &&& self.end <= u32::MAX
        &&& story_edges(self.story) == Seq::<(int, int, (int, int))>::empty()
        &&& pass_bounded(self.view(), n)
        &&& match self.pending {
            Some((p, _)) => p.range.end < u32::MAX,
            None => true,
        }
    }

    fn close(&mut self, prev: StrRange<'a>, is_bookmark: bool, boundary: usize, Ghost(n): Ghost<int>)
        requires
            old(self).wf(n),
            prev.range.end < u32::MAX,
            old(self).view().nodes.len() < n,
            old(self).view().requests.len() < n,
        ensures
            final(self).wf(n),
            final(self).pending == old(self).pending,
            final(self).view() == close(
                old(self).view(),
                prev.span(),
                prev.slice.spec_bytes(),
                is_bookmark,
                boundary as int,
            ),
    {
        let ghost st = self.view();
        let start = prev.range.end + 1;
        if is_bookmark {
            match self.guide.get(prev.slice) {
                Some(_) => {},
                None => {
                    let node = add_node(&mut self.story, start..boundary);
                    self.guide.push(prev.slice, node);
                    self.last = node;
                    proof {
                        let st2 = self.view();
                        assert(st2.nodes =~= st.nodes.push((start as int, boundary as int)));
                        assert(pass_bounded(st2, n));
                    }
                },
            }
        } else {
            let choice = Choice { from: self.last, to: prev.slice, range: start..boundary };
            self.choices.push(choice);
            proof {
                assert(choices_view(self.choices@) =~= st.requests.push(
                    (st.last, prev.slice.spec_bytes(), (start as int, boundary as int)),
                ));
            }
        }
    }

    /// The first pass over one more event, of the text `s`.
    fn step(&mut self, e: Event<'a>, Ghost(s): Ghost<Seq<u8>>, Ghost(n): Ghost<int>)
        requires
            old(self).wf(n),
            s.len() < u32::MAX,
            e.within(s),
            old(self).view().nodes.len() < n,
            old(self).view().requests.len() < n,
        ensures
            final(self).wf(n),
            final(self).view() == step(s, old(self).view(), e@),
    {
        match e {
            Event::Signal(Signal::Call { prompt, param }) => {
                let p = prompt.slice.as_bytes();
                let bookmark = is_bookmark(p);
                if bookmark || is_choice(p) {
                    let boundary = prompt.range.start - 1;
                    let prev = self.pending.take();
                    match prev {
                        Some((prev_param, prev_bookmark)) => {
                            self.close(prev_param, prev_bookmark, boundary, Ghost(n));
                        },
                        None => {},
                    }
                    self.pending = Some((param, bookmark));
                } else {
                    self.end = param.range.end + 1;
                }
            },
            Event::Signal(Signal::Param(param)) => {
                self.end = param.range.end + 1;
            },
            Event::Signal(Signal::Prompt(prompt)) => {
                self.end = prompt.range.end;
            },
            Event::Text(t) => {
                self.end = t.range.end;
            },
            _ => {},
        }
    }
}

/// The guide and the story of the events `evs`, each with its text.
pub open spec fn build(evs: Seq<(Seq<u8>, EventV)>) -> (Seq<(Seq<u8>, int)>, Seq<(int, int)>, Seq<(int, int, (int, int))>) {
    let st = finish(node_pass(evs));
    (st.guide, st.nodes, link(st.guide, st.requests))
}

fn new_builder<'a>() -> (b: Builder<'a>)
    ensures
        b.view() == start_pass(),
        b.wf(0),
{
    let b = Builder {
        end: 0,
        last: 0,
        pending: None,
        guide: Guide::new(),
        story: new_story(),
        choices: Vec::new(),
    };
    proof {
        assert(choices_view(b.choices@) =~= seq![]);
        assert(b.view() == start_pass());
    }
    b
}

/// The first pass over the events that `iter` still holds, after the events
/// `seen`.
fn feed<'a>(b: &mut Builder<'a>, iter: event::Iter<'a>, Ghost(seen): Ghost<Seq<(Seq<u8>, EventV)>>, Ghost(n): Ghost<int>)
    requires
        iter.wf(),
        iter.full().spec_bytes().len() < u32::MAX,
        seen.len() + iter.rest().len() <= n <= u32::MAX,
        old(b).wf(seen.len() as int),
        old(b).view() == node_pass(seen),
    ensures
        final(b).wf(seen.len() + iter.rest().len() as int),
        final(b).view() == node_pass(seen + of_text(iter.full().spec_bytes(), iter.rest())),
{
    let ghost s = iter.full().spec_bytes();
    let ghost all = iter.rest();
    let ghost mut done: Seq<EventV> = seq![];
    let mut iter = iter;
    proof {
        assert(seen + of_text(s, done) =~= seen);
    }
    loop
        invariant
            iter.wf(),
            iter.full().spec_bytes() == s,
            s.len() < u32::MAX,
            all == done + iter.rest(),
            seen.len() + all.len() <= n <= u32::MAX,
            b.wf(seen.len() + done.len() as int),
            b.view() == node_pass(seen + of_text(s, done)),
        ensures
            b.wf(seen.len() + all.len() as int),
            b.view() == node_pass(seen + of_text(s, all)),
        decreases iter.rest().len(),
    {
        let ghost before = iter.rest();
        match iter.next() {
            None => {
                proof {
                    assert(done =~= all);
                }
                break;
            },
            Some(e) => {
                let ghost m = seen.len() + done.len() + 1 as int;
                proof {
                    assert(b.wf(m));
                }
                b.step(e, Ghost(s), Ghost(m));
                proof {
                    let done2 = done.push(before[0]);
                    assert((seen + of_text(s, done2)).drop_last() =~= seen + of_text(s, done));
                    assert((seen + of_text(s, done2)).last() == (s, before[0]));
                    assert(all =~= done2 + iter.rest());
                    done = done2;
                }
            },
        }
    }
}

/// Closes what is still open after the first pass.
fn finish_pass<'a>(b: &mut Builder<'a>, Ghost(n): Ghost<int>)
    requires
        old(b).wf(n),
        n < u32::MAX,
    ensures
        final(b).view() == finish(old(b).view()),
        final(b).wf(n + 1),
{
    let end = b.end;
    match b.pending.take() {
        Some((prev, is_bookmark)) => {
            b.close(prev, is_bookmark, end, Ghost(n + 1));
        },
        None => {},
    }
}

/// The second pass: an edge for each choice whose target the guide knows.
fn edge_pass<'a>(
    story: &mut Story,
    guide: &Guide<'a>,
    choices: &Vec<Choice<'a>>,
    Ghost(fin): Ghost<Pass>,
    Ghost(n): Ghost<int>,
)
    requires
        guide@ == fin.guide,
        choices_view(choices@) == fin.requests,
        story_nodes(*old(story)) == fin.nodes,
        story_edges(*old(story)) == Seq::<(int, int, (int, int))>::empty(),
        pass_bounded(fin, n),
        n <= u32::MAX,
    ensures
        story_nodes(*final(story)) == fin.nodes,
        story_edges(*final(story)) == link(fin.guide, fin.requests),
{
    let mut i: usize = 0;
    proof {
        assert(fin.requests.take(0) =~= seq![]);
    }
    while i < choices.len()
        invariant
            i <= choices@.len(),
            guide@ == fin.guide,
            choices_view(choices@) == fin.requests,
            story_nodes(*story) == fin.nodes,
            story_edges(*story) == link(fin.guide, fin.requests.take(i as int)),
            pass_bounded(fin, n),
            n <= u32::MAX,
        decreases choices@.len() - i,
    {
        let c = &choices[i];
        let ghost req = fin.requests[i as int];
        proof {
            assert(fin.requests.take(i + 1).drop_last() =~= fin.requests.take(i as int));
            assert(req == choices_view(choices@)[i as int]);
            lemma_link_len(fin.guide, fin.requests.take(i as int));
        }
        match guide.get(c.to) {
            Some(to) => {
                proof {
                    lemma_lookup_in(fin.guide, req.1);
                    let k = choose|k: int|
                        0 <= k < fin.guide.len() && #[trigger] fin.guide[k].1 == to as int;
                    assert(0 <= fin.guide[k].1 < fin.nodes.len());
                    assert(c.from as int == req.0);
                    assert(req.0 == 0 || req.0 < fin.nodes.len());
                }
                add_edge(story, c.from, to, c.range.start..c.range.end);
            },
            None => {},
        }
        i = i + 1;
    }
    proof {
        assert(fin.requests.take(choices@.len() as int) =~= fin.requests);
    }
}

/// The guide and the story of the events that `iter` still holds.
pub fn from_iter<'a>(iter: event::Iter<'a>) -> (r: (Guide<'a>, Story))
    requires
        iter.wf(),
        iter.full().spec_bytes().len() < u32::MAX,
        iter.rest().len() < u32::MAX,
    ensures
        ({
            let b = build(of_text(iter.full().spec_bytes(), iter.rest()));
            &&& r.0@ == b.0
            &&& story_nodes(r.1) == b.1
            &&& story_edges(r.1) == b.2
        }),
{
    let ghost evs = of_text(iter.full().spec_bytes(), iter.rest());
    let ghost n = iter.rest().len() as int;
    let mut b = new_builder();
    proof {
        assert(Seq::<(Seq<u8>, EventV)>::empty() + evs =~= evs);
    }
    feed(&mut b, iter, Ghost(Seq::empty()), Ghost(n));
    finish_pass(&mut b, Ghost(n));
    let ghost fin = b.view();
    let Builder { guide, mut story, choices, .. } = b;
    edge_pass(&mut story, &guide, &choices, Ghost(fin), Ghost(n + 1));
    (guide, story)
}

/// The names of the entries `g` are pairwise distinct.
pub open spec fn distinct_names(g: Seq<(Seq<u8>, int)>) -> bool {
    forall|i: int, j: int| 0 <= i < j < g.len() ==> #[trigger] g[i].0 != #[trigger] g[j].0
}

/// A name that `lookup` does not find is the name of no entry.
proof fn lemma_lookup_none(g: Seq<(Seq<u8>, int)>, name: Seq<u8>)
    ensures
        lookup(g, name) is None ==> forall|k: int| 0 <= k < g.len() ==> #[trigger] g[k].0 != name,
    decreases g.len(),
{
    if g.len() > 0 {
        lemma_lookup_none(g.drop_first(), name);
        if lookup(g, name) is None {
            assert forall|k: int| 0 <= k < g.len() implies #[trigger] g[k].0 != name by {
                if k > 0 {
                    assert(g[k] == g.drop_first()[k - 1]);
                }
            }
        }
    }
}

/// Closing a bookmark or choice keeps the names of the guide distinct.
proof fn lemma_close_distinct(st: Pass, prev: Span, name: Seq<u8>, b: bool, boundary: int)
    requires
        distinct_names(st.guide),
    ensures
        distinct_names(close(st, prev, name, b, boundary).guide),
{
    lemma_lookup_none(st.guide, name);
    let g = close(st, prev, name, b, boundary).guide;
    assert forall|i: int, j: int| 0 <= i < j < g.len() implies #[trigger] g[i].0 != #[trigger] g[j].0 by {
        if j == st.guide.len() {
            assert(g[i] == st.guide[i]);
        }
    }
}

/// The first pass keeps the names of the guide distinct.
proof fn lemma_pass_distinct(evs: Seq<(Seq<u8>, EventV)>)
    ensures
        distinct_names(node_pass(evs).guide),
    decreases evs.len(),
{
    if evs.len() > 0 {
        let st = node_pass(evs.drop_last());
        lemma_pass_distinct(evs.drop_last());
        match evs.last().1 {
            EventV::Signal(SignalV::Call(pr, _)) => {
                if let Some((prev, name, b)) = st.pending {
                    lemma_close_distinct(st, prev, name, b, pr.start - 1);
                }
            },
            _ => {},
        }
    }
}

/// The guide holds each bookmark name once: its names are pairwise distinct,
/// whatever the events, since a bookmark whose name the guide already holds
/// adds no entry.
pub proof fn law_guide_names_distinct(evs: Seq<(Seq<u8>, EventV)>)
    ensures
        distinct_names(build(evs).0),
{
    let st = node_pass(evs);
    lemma_pass_distinct(evs);
    if let Some((prev, name, b)) = st.pending {
        lemma_close_distinct(st, prev, name, b, st.end);
    }
}

/// A name found by `lookup` is that of an entry.
proof fn lemma_lookup_in(g: Seq<(Seq<u8>, int)>, name: Seq<u8>)
    ensures
        lookup(g, name) matches Some(v) ==> exists|k: int| 0 <= k < g.len() && #[trigger] g[k].1 == v,
    decreases g.len(),
{
    if g.len() > 0 && g[0].0 != name {
        lemma_lookup_in(g.drop_first(), name);
        if let Some(v) = lookup(g, name) {
            let k = choose|k: int| 0 <= k < g.drop_first().len() && #[trigger] g.drop_first()[k].1 == v;
            assert(g[k + 1].1 == v);
        }
    } else if g.len() > 0 {
        assert(g[0].1 == g[0].1);
    }
}

/// Linking keeps at most one edge for each choice.
proof fn lemma_link_len(g: Seq<(Seq<u8>, int)>, reqs: Seq<(int, Seq<u8>, (int, int))>)
    ensures
        link(g, reqs).len() <= reqs.len(),
    decreases reqs.len(),
{
    if reqs.len() > 0 {
        lemma_link_len(g, reqs.drop_last());
    }
}

/// Reads the bookmarks and choices of the texts `text_chunks`, one after
/// another, into one guide and one story. Each chunk is read on its own: its
/// ranges are relative to it, and no break comes between two chunks.
pub fn read<'a>(text_chunks: &[&'a str]) -> (r: (Guide<'a>, Story))
    requires
        chunks_len(text_chunks@) < u32::MAX,
    ensures
        ({
            let b = build(chunk_events(text_chunks@));
            &&& r.0@ == b.0
            &&& story_nodes(r.1) == b.1
            &&& story_edges(r.1) == b.2
        }),
{
    let ghost cs = text_chunks@;
    let ghost n = chunk_events(cs).len() as int;
    proof {
        lemma_chunk_events_len(cs);
    }
    let mut b = new_builder();
    let mut i: usize = 0;
    proof {
        assert(cs.take(0) =~= Seq::<&str>::empty());
    }
    while i < text_chunks.len()
        invariant
            cs == text_chunks@,
            i <= cs.len(),
            n == chunk_events(cs).len(),
            n < u32::MAX,
            chunks_len(cs) < u32::MAX,
            forall|k: int| 0 <= k < cs.len() ==> #[trigger] cs[k].spec_bytes().len() <= chunks_len(cs),
            chunk_events(cs.take(i as int)).len() <= n,
            b.wf(chunk_events(cs.take(i as int)).len() as int),
            b.view() == node_pass(chunk_events(cs.take(i as int))),
        decreases cs.len() - i,
    {
        let chunk = text_chunks[i];
        let ghost c = chunk.spec_bytes();
        let ghost before = chunk_events(cs.take(i as int));
        proof {
            assert(cs.take(i + 1).drop_last() =~= cs.take(i as int));
            assert(cs.take(i + 1).last() == chunk);
            lemma_events_len(c);
            lemma_chunk_prefix_len(cs, i + 1);
        }
        feed(&mut b, event::Iter::new(chunk), Ghost(before), Ghost(n));
        i = i + 1;
    }
    proof {
        assert(cs.take(cs.len() as int) =~= cs);
    }
    finish_pass(&mut b, Ghost(n));
    let ghost fin = b.view();
    let Builder { guide, mut story, choices, .. } = b;
    edge_pass(&mut story, &guide, &choices, Ghost(fin), Ghost(n + 1));
    (guide, story)
}

/// The events of the first `k` chunks are no more than those of all.
proof fn lemma_chunk_prefix_len(cs: Seq<&str>, k: int)
    requires
        0 <= k <= cs.len(),
    ensures
        chunk_events(cs.take(k)).len() <= chunk_events(cs).len(),
    decreases cs.len() - k,
{
    if k < cs.len() {
        lemma_chunk_prefix_len(cs, k + 1);
        assert(cs.take(k + 1).drop_last() =~= cs.take(k));
        assert(chunk_events(cs.take(k + 1)).len() >= chunk_events(cs.take(k)).len());
    } else {
        assert(cs.take(k) =~= cs);
    }
}

} // verus!
