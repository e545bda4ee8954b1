//! The line splitter: one trimmer for each line of a text.
use vstd::prelude::*;
use vstd::string::StringSliceAdditionalSpecFns;
use crate::text::{
    Span,
    span,
    NEWLINE,
    find_byte,
    lemma_find_byte,
    find,
    on_char,
    slice_str,
    lemma_after_ascii,
    lemma_start_on_char,
    lemma_str_valid,
};
use crate::trim::{self, trimmed};

verus! {

/// The lines of `s` from position `p` on: the spans between line breaks. A
/// text with `n` line breaks has `n + 1` lines.
pub open spec fn lines_from(s: Seq<u8>, p: int) -> Seq<Span>
    decreases s.len() + 1 - p,
    via lines_from_decreases
{
    if p < 0 || p > s.len() {
        seq![]
    } else if find_byte(s, p, NEWLINE) < s.len() {
        seq![span(p, find_byte(s, p, NEWLINE))] + lines_from(s, find_byte(s, p, NEWLINE) + 1)
    } else {
        seq![span(p, s.len() as int)]
    }
}

#[via_fn]
proof fn lines_from_decreases(s: Seq<u8>, p: int) {
    if 0 <= p <= s.len() {
        lemma_find_byte(s, p, NEWLINE);
    }
}

/// The lines of a text, each handed out as a trimmer over it.
#[derive(Debug)]
pub struct Iter<'a> {
    text: &'a str,
    offset: usize,
    done: bool,
}

impl<'a> Iter<'a> {
    #[verifier::type_invariant]
    spec fn inv(&self) -> bool {
        !self.done ==> on_char(self.text.spec_bytes(), self.offset as int)
    }

    /// The split text.
    pub closed spec fn full(&self) -> &'a str {
        self.text
    }

    /// The lines still to come.
    pub closed spec fn rest(&self) -> Seq<Span> {
        if self.done {
            seq![]
        } else {
            lines_from(self.text.spec_bytes(), self.offset as int)
        }
    }

    pub fn new(text: &'a str) -> (r: Self)
        ensures
            r.full() == text,
            r.rest() == lines_from(text.spec_bytes(), 0),
    {
        proof {
            lemma_str_valid(text);
            lemma_start_on_char(text.spec_bytes());
        }
        Iter { text, offset: 0, done: false }
    }

    /// Where the next line starts: the byte length of the lines handed out
    /// so far, each with its line break; once every line was handed out, the
    /// length of the text plus one.
    pub fn offset(&self) -> (r: usize)
        requires
            self.rest().len() == 0 ==> self.full().spec_bytes().len() < usize::MAX,
        ensures
            self.rest().len() > 0 ==> r == self.rest()[0].start,
            self.rest().len() == 0 ==> r == self.full().spec_bytes().len() + 1,
    {
        proof {
            use_type_invariant(self);
            if !self.done {
                lemma_find_byte(self.text.spec_bytes(), self.offset as int, NEWLINE);
            }
        }
        if self.done {
            self.text.len() + 1
        } else {
            self.offset
        }
    }

    /// Where the next line starts, while one is left.
    pub(crate) fn line_start(&self) -> (r: usize)
        ensures
            self.rest().len() > 0 ==> r == self.rest()[0].start,
    {
        self.offset
    }

    /// A trimmer over the next line, or `None` once every line was handed out.
    pub fn next(&mut self) -> (r: Option<trim::Iter<'a>>)
        ensures
            final(self).full() == old(self).full(),
            old(self).rest().len() == 0 ==> r is None && final(self).rest().len() == 0,
            old(self).rest().len() > 0 ==> r is Some && final(self).rest()
                == old(self).rest().drop_first(),
            r is Some ==> ({
                let l = old(self).rest()[0];
                let s = old(self).full().spec_bytes();
                &&& 0 <= l.start <= l.end <= s.len()
                &&& r->0.full().spec_bytes() == s.subrange(l.start, l.end)
                &&& r->0.rest() == trimmed(s.subrange(l.start, l.end), 0, true, false)
            }),
    {
        proof {
            use_type_invariant(&*self);
        }
        if self.done {
            return None;
        }
        let s = self.text.as_bytes();
        let start = self.offset;
        let e = find(s, start, NEWLINE);
        proof {
            lemma_find_byte(s@, start as int, NEWLINE);
            lemma_str_valid(self.text);
        }
        let line = slice_str(self.text, start, e);
        if e < s.len() {
            proof {
                lemma_after_ascii(s@, e as int);
            }
            self.offset = e + 1;
        } else {
            self.done = true;
        }
        Some(trim::Iter::new(line))
    }
}

} // verus!
