//! White-space trimming over the scanner of one line.
//!
//! Trailing white space is removed from every text span. The first text span
//! of the line also loses its leading white space, where a signal came before
//! it on that line. A text span left empty is skipped.
use vstd::prelude::*;
use vstd::string::StringSliceAdditionalSpecFns;
use crate::text::{span, trim_end, trim_left, lemma_trim_end, lemma_trim_start, ws_width, lemma_ws_on_char, lemma_str_valid, trimmed_end, trimmed_start};
use crate::raw::{self, Piece, Range, item_at, item_end, lemma_item, piece_fits};

verus! {

/// The items of the scanner from `p` on, trimmed. `left_next` says that no
/// text span has come yet on the line; `seen` that a signal has.
pub open spec fn trimmed(s: Seq<u8>, p: int, left_next: bool, seen: bool) -> Seq<Piece>
    decreases s.len() - p,
    via trimmed_decreases
{
    if p < 0 || p >= s.len() {
        seq![]
    } else {
        let e = item_end(s, p);
        match item_at(s, p) {
            Piece::Text(t) => {
                let right = trim_end(s, t.start, t.end);
                let (start, end) = if left_next && seen {
                    trim_left(s, t.start, right)
                } else {
                    (t.start, right)
                };
                if start < end {
                    seq![Piece::Text(span(start, end))] + trimmed(s, e, false, seen)
                } else {
                    trimmed(s, e, false, seen)
                }
            },
            Piece::Signal(_, _) => seq![item_at(s, p)] + trimmed(s, e, left_next, true),
        }
    }
}

#[via_fn]
proof fn trimmed_decreases(s: Seq<u8>, p: int, left_next: bool, seen: bool) {
    if 0 <= p < s.len() {
        lemma_item(s, p);
    }
}

/// The trimmer over the scanner of one line.
#[derive(Debug)]
pub struct Iter<'a> {
    raw: raw::Iter<'a>,
    remove_left_next: bool,
    seen_signal: bool,
}

impl<'a> Iter<'a> {
    /// The trimmed text.
    pub closed spec fn full(&self) -> &'a str {
        self.raw.full()
    }

    /// The items still to come.
    pub closed spec fn rest(&self) -> Seq<Piece> {
        trimmed(self.raw.full().spec_bytes(), self.raw.pos(), self.remove_left_next, self.seen_signal)
    }

    pub fn new(text: &'a str) -> (r: Self)
        ensures
            r.full() == text,
            r.rest() == trimmed(text.spec_bytes(), 0, true, false),
    {
        Iter { raw: raw::Iter::new(text), remove_left_next: true, seen_signal: false }
    }

    pub fn as_full_str(&self) -> (r: &'a str)
        ensures
            r == self.full(),
    {
        self.raw.as_full_str()
    }

    /// The next trimmed item, or `None` once the line is exhausted.
    pub fn next(&mut self) -> (r: Option<Range>)
        ensures
            final(self).full() == old(self).full(),
            old(self).rest().len() == 0 ==> r is None && final(self).rest().len() == 0,
            old(self).rest().len() > 0 ==> r is Some && r->0@ == old(self).rest()[0]
                && final(self).rest() == old(self).rest().drop_first(),
            r is Some ==> piece_fits(old(self).full().spec_bytes(), r->0@),
    {
        let ghost s = self.raw.full().spec_bytes();
        loop
            invariant
                self.full() == old(self).full(),
                s == self.full().spec_bytes(),
                self.rest() == old(self).rest(),
            decreases s.len() - self.raw.pos(),
        {
            let ghost p = self.raw.pos();
            proof {
                if 0 <= p < s.len() {
                    lemma_item(s, p);
                }
            }
            match self.raw.next() {
                None => {
                    return None;
                },
                Some(Range::Text(t)) => {
                    let full = self.raw.as_full_str();
                    let bytes = full.as_bytes();
                    let right = trimmed_end(bytes, t.start, t.end);
                    let mut start = t.start;
                    let mut end = right;
                    proof {
                        lemma_trim_end(s, t.start as int, t.end as int);
                        lemma_str_valid(full);
                        if ws_width(s, right as int) > 0 {
                            lemma_ws_on_char(s, right as int);
                        }
                    }
                    if self.remove_left_next {
                        if self.seen_signal {
                            let (l, r) = trimmed_start(bytes, t.start, right);
                            start = l;
                            end = r;
                            proof {
                                lemma_trim_start(s, t.start as int, right as int);
                            }
                        }
                        self.remove_left_next = false;
                    }
                    if start < end {
                        return Some(Range::Text(start..end));
                    }
                },
                Some(signal) => {
                    self.seen_signal = true;
                    return Some(signal);
                },
            }
        }
    }
}

} // verus!
