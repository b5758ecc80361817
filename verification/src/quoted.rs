//! Splitting text into logical lines: a quote left open at the end of a
//! line carries the value on to the next line.

use vstd::prelude::*;
use crate::error::Error;
use crate::line::{lemma_scan_while_bounds, scan_while};
use crate::text::{byte_len, lemma_byte_len_add, lemma_byte_len_subrange, string_of};

verus! {

/// Where a logical line stands with respect to quotes and escapes.
#[derive(Clone, Copy, PartialEq, Eq, Structural, Debug)]
pub enum QuoteState {
    /// After a backslash outside quotes.
    Escape,
    /// Inside single quotes.
    StrongOpen,
    /// After a backslash inside single quotes.
    StrongOpenEscape,
    /// Inside double quotes.
    WeakOpen,
    /// After a backslash inside double quotes.
    WeakOpenEscape,
    /// Outside quotes.
    Close,
}

/// The state after reading `c` in state `st`.
pub open spec fn quote_step(st: QuoteState, c: char) -> QuoteState {
    match st {
        QuoteState::Escape => QuoteState::Close,
        QuoteState::Close => if c == '\\' {
            QuoteState::Escape
        } else if c == '"' {
            QuoteState::WeakOpen
        } else if c == '\'' {
            QuoteState::StrongOpen
        } else {
            QuoteState::Close
        },
        QuoteState::WeakOpen => if c == '\\' {
            QuoteState::WeakOpenEscape
        } else if c == '"' {
            QuoteState::Close
        } else {
            QuoteState::WeakOpen
        },
        QuoteState::WeakOpenEscape => QuoteState::WeakOpen,
        QuoteState::StrongOpen => if c == '\\' {
            QuoteState::StrongOpenEscape
        } else if c == '\'' {
            QuoteState::Close
        } else {
            QuoteState::StrongOpen
        },
        QuoteState::StrongOpenEscape => QuoteState::StrongOpen,
    }
}

/// The state after reading all of `s`, from the first character on.
pub open spec fn quote_fold(st: QuoteState, s: Seq<char>) -> QuoteState
    decreases s.len(),
{
    if s.len() == 0 {
        st
    } else {
        quote_fold(quote_step(st, s[0]), s.drop_first())
    }
}

/// Reading `a + b` is reading `a`, then `b`.
pub proof fn lemma_quote_fold_add(st: QuoteState, a: Seq<char>, b: Seq<char>)
    ensures
        quote_fold(st, a + b) == quote_fold(quote_fold(st, a), b),
    decreases a.len(),
{
    if a.len() == 0 {
        assert(a + b =~= b);
    } else {
        assert((a + b).drop_first() =~= a.drop_first() + b);
        lemma_quote_fold_add(quote_step(st, a[0]), a.drop_first(), b);
    }
}

impl QuoteState {
    /// The state after reading `input[from..to]`.
    pub fn next_state_chars(self, input: &Vec<char>, from: usize, to: usize) -> (res: QuoteState)
        requires
            from <= to <= input.len(),
        ensures
            res == quote_fold(self, input@.subrange(from as int, to as int)),
    {
        let mut curr = self;
        let mut i = from;
        while i < to
            invariant
                from <= i <= to <= input.len(),
                quote_fold(self, input@.subrange(from as int, to as int)) == quote_fold(
                    curr,
                    input@.subrange(i as int, to as int),
                ),
            decreases to - i,
        {
            let c = input[i];
            assert(input@.subrange(i as int, to as int).drop_first() =~= input@.subrange(
                i + 1,
                to as int,
            ));
            curr =
            match curr {
                QuoteState::Escape => QuoteState::Close,
                QuoteState::Close => {
                    if c == '\\' {
                        QuoteState::Escape
                    } else if c == '"' {
                        QuoteState::WeakOpen
                    } else if c == '\'' {
                        QuoteState::StrongOpen
                    } else {
                        QuoteState::Close
                    }
                },
                QuoteState::WeakOpen => {
                    if c == '\\' {
                        QuoteState::WeakOpenEscape
                    } else if c == '"' {
                        QuoteState::Close
                    } else {
                        QuoteState::WeakOpen
                    }
                },
                QuoteState::WeakOpenEscape => QuoteState::WeakOpen,
                QuoteState::StrongOpen => {
                    if c == '\\' {
                        QuoteState::StrongOpenEscape
                    } else if c == '\'' {
                        QuoteState::Close
                    } else {
                        QuoteState::StrongOpen
                    }
                },
                QuoteState::StrongOpenEscape => QuoteState::StrongOpen,
            };
            i = i + 1;
        }
        assert(input@.subrange(to as int, to as int) =~= Seq::<char>::empty());
        curr
    }

    /// The state after reading `input`.
    pub fn next_state(self, input: &str) -> (res: QuoteState)
        ensures
            res == quote_fold(self, input@),
    {
        let v = crate::text::chars_of(input);
        assert(v@.subrange(0, v@.len() as int) =~= v@);
        self.next_state_chars(&v, 0, v.len())
    }
}

/// The index after the first `\n` at or after `i`, or the end of `t`: where
/// a read of one physical line from `i` stops.
pub open spec fn line_end(t: Seq<char>, i: int) -> int {
    let j = scan_while(t, i, |c: char| c != '\n');
    if j < t.len() {
        j + 1
    } else {
        j
    }
}

/// `line_end` moves forward.
pub proof fn lemma_line_end(t: Seq<char>, i: int)
    requires
        0 <= i < t.len(),
    ensures
        i < line_end(t, i) <= t.len(),
{
    lemma_scan_while_bounds(t, i, |c: char| c != '\n');
}

/// `buf` without one trailing `\n`, and then without one `\r` before it.
pub open spec fn strip_newline(buf: Seq<char>) -> Seq<char> {
    if buf.len() > 0 && buf.last() == '\n' {
        let b = buf.drop_last();
        if b.len() > 0 && b.last() == '\r' {
            b.drop_last()
        } else {
            b
        }
    } else {
        buf
    }
}

/// What reading one logical line gives.
pub enum LineRead {
    /// There is nothing left to read.
    End,
    /// A logical line, without its line break.
    Line(Seq<char>),
    /// The text ends inside a quote; the text read since the start of the line.
    Unclosed(Seq<char>),
}

/// Reads a logical line of `t` that started at `start`, having read up to
/// `i` (a line boundary) and reached state `st`: what it gives and where
/// reading stops.
pub open spec fn quoted_from(t: Seq<char>, start: int, i: int, st: QuoteState) -> (LineRead, int)
    decreases t.len() - i,
{
    if i < 0 || i >= t.len() {
        if st == QuoteState::Close {
            (LineRead::End, i)
        } else {
            (LineRead::Unclosed(t.subrange(start, t.len() as int)), t.len() as int)
        }
    } else {
        let e = line_end(t, i);
        let st2 = quote_fold(st, t.subrange(i, e));
        if e <= i || e > t.len() {
            (LineRead::End, i)
        } else if st2 == QuoteState::Close {
            (LineRead::Line(strip_newline(t.subrange(start, e))), e)
        } else {
            quoted_from(t, start, e, st2)
        }
    }
}

/// Reads the logical line of `t` that starts at `p`.
pub open spec fn quoted_next(t: Seq<char>, p: int) -> (LineRead, int) {
    quoted_from(t, p, p, QuoteState::Close)
}

/// Reading a logical line moves forward, and a line is part of the text.
pub proof fn lemma_quoted_from(t: Seq<char>, start: int, i: int, st: QuoteState)
    requires
        0 <= start <= i <= t.len(),
    ensures
        match quoted_from(t, start, i, st).0 {
            LineRead::End => quoted_from(t, start, i, st).1 == i && st == QuoteState::Close && i
                == t.len(),
            LineRead::Line(l) => i < quoted_from(t, start, i, st).1 <= t.len() && byte_len(l)
                <= byte_len(t),
            LineRead::Unclosed(b) => quoted_from(t, start, i, st).1 == t.len() && b
                == t.subrange(start, t.len() as int),
        },
    decreases t.len() - i,
{
    if i < t.len() {
        lemma_line_end(t, i);
        let e = line_end(t, i);
        let st2 = quote_fold(st, t.subrange(i, e));
        if st2 == QuoteState::Close {
            let b = t.subrange(start, e);
            lemma_byte_len_subrange(t, start, e);
            if b.len() > 0 && b.last() == '\n' {
                let b2 = b.drop_last();
                assert(b2 =~= t.subrange(start, e - 1));
                lemma_byte_len_subrange(t, start, e - 1);
                if b2.len() > 0 && b2.last() == '\r' {
                    assert(b2.drop_last() =~= t.subrange(start, e - 2));
                    lemma_byte_len_subrange(t, start, e - 2);
                }
            }
        } else {
            lemma_quoted_from(t, start, e, st2);
        }
    }
}

/// Logical lines of a text, read one after another.
pub struct Quoted {
    buf: Vec<char>,
    pos: usize,
}

impl Quoted {
    /// The text.
    pub closed spec fn text(&self) -> Seq<char> {
        self.buf@
    }

    /// Where the next line starts.
    pub closed spec fn position(&self) -> int {
        self.pos as int
    }

    /// The reader is well formed.
    pub closed spec fn wf(&self) -> bool {
        &&& self.pos <= self.buf.len()
        &&& byte_len(self.buf@) <= usize::MAX
    }

    /// What well-formedness gives.
    pub proof fn lemma_wf(&self)
        requires
            self.wf(),
        ensures
            0 <= self.position() <= self.text().len(),
            byte_len(self.text()) <= usize::MAX,
    {
    }

    /// Lines of `text`, from its start.
    pub fn new(text: Vec<char>) -> (res: Quoted)
        requires
            byte_len(text@) <= usize::MAX,
        ensures
            res.wf(),
            res.text() == text@,
            res.position() == 0,
    {
        Quoted { buf: text, pos: 0 }
    }

    /// The next logical line: `None` at the end of the text, an error when
    /// the text ends inside a quote (with the text read since the start of
    /// the line and its length in bytes).
    pub fn next(&mut self) -> (res: Option<Result<String, Error>>)
        requires
            old(self).wf(),
        ensures
            final(self).wf(),
            final(self).text() == old(self).text(),
            final(self).position() == quoted_next(old(self).text(), old(self).position()).1,
            match quoted_next(old(self).text(), old(self).position()).0 {
                LineRead::End => res is None,
                LineRead::Line(l) => res matches Some(Ok(s)) && s@ == l,
                LineRead::Unclosed(b) => res matches Some(Err(Error::LineParse(text, n)))
                    && text@ == b && n == byte_len(b),
            },
    {
        let ghost t = self.buf@;
        let start = self.pos;
        let mut cur_state = QuoteState::Close;
        let mut i = start;
        loop
            invariant
                self.wf(),
                t == self.buf@,
                t == old(self).buf@,
                start == old(self).pos,
                start <= i <= self.buf.len(),
                i == start || cur_state != QuoteState::Close,
                self.pos == start,
                quoted_next(t, start as int) == quoted_from(t, start as int, i as int, cur_state),
            decreases self.buf.len() - i,
        {
            if i == self.buf.len() {
                if cur_state == QuoteState::Close {
                    return None;
                } else {
                    self.pos = self.buf.len();
                    let s = string_of(&self.buf, start, self.buf.len());
                    proof {
                        lemma_byte_len_add(t.take(start as int), t.skip(start as int));
                        assert(t.take(start as int) + t.skip(start as int) =~= t);
                        assert(t.skip(start as int) =~= t.subrange(start as int, t.len() as int));
                    }
                    let len = s.as_str().len();
                    return Some(Err(Error::LineParse(s, len)));
                }
            }
            proof {
                lemma_line_end(t, i as int);
            }
            let mut j = i;
            while j < self.buf.len() && self.buf[j] != '\n'
                invariant
                    i <= j <= self.buf.len(),
                    t == self.buf@,
                    scan_while(t, i as int, |c: char| c != '\n') == scan_while(
                        t,
                        j as int,
                        |c: char| c != '\n',
                    ),
                decreases self.buf.len() - j,
            {
                j = j + 1;
            }
            let e = if j < self.buf.len() {
                j + 1
            } else {
                j
            };
            cur_state = cur_state.next_state_chars(&self.buf, i, e);
            i = e;
            if cur_state == QuoteState::Close {
                self.pos = e;
                let mut end = e;
                if end > start && self.buf[end - 1] == '\n' {
                    end = end - 1;
                    if end > start && self.buf[end - 1] == '\r' {
                        end = end - 1;
                    }
                }
                proof {
                    let b = t.subrange(start as int, e as int);
                    if b.len() > 0 && b.last() == '\n' {
                        assert(b.drop_last() =~= t.subrange(start as int, e - 1));
                        if e - 1 > start && t[e - 2] == '\r' {
                            assert(b.drop_last().drop_last() =~= t.subrange(start as int, e - 2));
                        }
                    }
                }
                return Some(Ok(string_of(&self.buf, start, end)));
            }
        }
    }
}

} // verus!
