//! An iterator over the entries of a `.env` text, read line by line.

use vstd::prelude::*;
use crate::error::Error;
use crate::quoted::Quoted;
use crate::reader::{load_entries, load_run, next_entry, read_next, ReadItem};
use crate::text::{byte_len, chars_of, str_byte_len};
use crate::vars::{Context, Environment};

verus! {

/// The entries of a `.env` text, read line by line: each call of
/// [`Iter::next`] gives the next entry or failure.
pub struct Iter {
    lines: Quoted,
    substitution_data: Context,
}

impl Iter {
    /// The text being read.
    pub closed spec fn text(&self) -> Seq<char> {
        self.lines.text()
    }

    /// Where reading stands in the text.
    pub closed spec fn position(&self) -> int {
        self.lines.position()
    }

    /// The values recorded so far, for later substitutions.
    pub closed spec fn context(&self) -> Seq<(Seq<char>, Option<Seq<char>>)> {
        self.substitution_data@
    }

    /// The iterator is well formed.
    pub closed spec fn wf(&self) -> bool {
        &&& self.lines.wf()
        &&& 0 <= self.lines.position()
    }

    /// An iterator over `text`, from its start.
    pub fn new(text: String) -> (res: Iter)
        ensures
            res.wf(),
            res.text() == text@,
            res.position() == 0,
            res.context() == Seq::<(Seq<char>, Option<Seq<char>>)>::empty(),
    {
        let _ = str_byte_len(text.as_str());
        let chars = chars_of(text.as_str());
        Iter { lines: Quoted::new(chars), substitution_data: Context::new() }
    }

    /// The next entry or failure; `None` at the end of the text.
    pub fn next(&mut self, env: &Environment) -> (res: Option<Result<(String, String), Error>>)
        requires
            old(self).wf(),
        ensures
            final(self).wf(),
            final(self).text() == old(self).text(),
            ({
                let (item, q, ctx2) = read_next(
                    env@,
                    old(self).text(),
                    old(self).position(),
                    old(self).context(),
                );
                &&& final(self).position() == q
                &&& final(self).context() == ctx2
                &&& match item {
                    None => res is None,
                    Some(ReadItem::Pair(k, v)) => res matches Some(Ok((key, value))) && key@ == k
                        && value@ == v,
                    Some(ReadItem::Fail(text, pos)) => res matches Some(
                        Err(Error::LineParse(t, n)),
                    ) && t@ == text && n == pos,
                }
            }),
    {
        next_entry(&mut self.lines, &mut self.substitution_data, env)
    }

    /// Loads all the entries into `env`, keeping the variables that are
    /// already set; stops at the first failure, which it returns.
    pub fn load(self, env: &mut Environment) -> (res: Result<(), Error>)
        requires
            self.wf(),
        ensures
            ({
                let (env2, failure) = load_run(old(env)@, self.text(), self.position(), self.context());
                &&& final(env)@ == env2
                &&& match failure {
                    None => res is Ok,
                    Some((text, pos)) => res matches Err(Error::LineParse(t, n)) && t@ == text && n
                        == pos,
                }
            }),
    {
        let mut this = self;
        load_entries(&mut this.lines, &mut this.substitution_data, env)
    }
}

} // verus!
