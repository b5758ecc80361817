//! The line-oriented reader: logical lines of a text, each parsed with the
//! line parser, the values of earlier lines available to later ones.

use vstd::prelude::*;
use crate::error::Error;
use crate::line::{line_outcome, parse_line, LineOutcome};
use crate::quoted::{lemma_quoted_from, quoted_next, LineRead, Quoted};
use crate::text::{byte_len, chars_of, str_byte_len};
use crate::vars::{assoc_get, Context, Environment};

verus! {

/// What the reader yields: an entry, or a failure with the text reported
/// and the offset.
pub enum ReadItem {
    Pair(Seq<char>, Seq<char>),
    Fail(Seq<char>, int),
}

/// The next item of the text `t` from position `p` with context `ctx`,
/// substitutions reading `env` first: the item (none at the end), the
/// position after it, and the context after it.
pub open spec fn read_next(
    env: Seq<(Seq<char>, Seq<char>)>,
    t: Seq<char>,
    p: int,
    ctx: Seq<(Seq<char>, Option<Seq<char>>)>,
) -> (Option<ReadItem>, int, Seq<(Seq<char>, Option<Seq<char>>)>)
    decreases t.len() - p,
{
    let (r, q) = quoted_next(t, p);
    match r {
        LineRead::End => (None, q, ctx),
        LineRead::Unclosed(b) => (Some(ReadItem::Fail(b, byte_len(b) as int)), q, ctx),
        LineRead::Line(l) => match line_outcome(env, ctx, l) {
            LineOutcome::Skip => if p < q <= t.len() {
                read_next(env, t, q, ctx)
            } else {
                (None, q, ctx)
            },
            LineOutcome::Entry { key, value, recorded } => (
                Some(ReadItem::Pair(key, value)),
                q,
                ctx.push((key, recorded)),
            ),
            LineOutcome::Fail { text, pos } => (Some(ReadItem::Fail(text, pos)), q, ctx),
        },
    }
}

/// The environment after loading the text `t` from position `p`: each
/// entry is assigned unless its key is already in the environment, which
/// later substitutions see; loading stops at the first failure.
pub open spec fn load_run(
    env: Seq<(Seq<char>, Seq<char>)>,
    t: Seq<char>,
    p: int,
    ctx: Seq<(Seq<char>, Option<Seq<char>>)>,
) -> (Seq<(Seq<char>, Seq<char>)>, Option<(Seq<char>, int)>)
    decreases t.len() - p,
{
    let (item, q, ctx2) = read_next(env, t, p, ctx);
    match item {
        None => (env, None),
        Some(ReadItem::Fail(text, pos)) => (env, Some((text, pos))),
        Some(ReadItem::Pair(k, v)) => {
            let env2 = if assoc_get(env, k) is None {
                env.push((k, v))
            } else {
                env
            };
            if p < q <= t.len() {
                load_run(env2, t, q, ctx2)
            } else {
                (env2, None)
            }
        },
    }
}

/// Reading moves forward over the text.
pub proof fn lemma_read_next(
    env: Seq<(Seq<char>, Seq<char>)>,
    t: Seq<char>,
    p: int,
    ctx: Seq<(Seq<char>, Option<Seq<char>>)>,
)
    requires
        0 <= p <= t.len(),
    ensures
        p <= read_next(env, t, p, ctx).1 <= t.len(),
        read_next(env, t, p, ctx).0 is Some ==> p < read_next(env, t, p, ctx).1,
        read_next(env, t, p, ctx).0 is None ==> read_next(env, t, p, ctx).1 == t.len(),
    decreases t.len() - p,
{
    lemma_quoted_from(t, p, p, crate::quoted::QuoteState::Close);
    let (r, q) = quoted_next(t, p);
    if let LineRead::Line(l) = r {
        if let LineOutcome::Skip = line_outcome(env, ctx, l) {
            lemma_read_next(env, t, q, ctx);
        }
    }
}

/// Reads the next entry from `lines`: skips blank lines and comments,
/// records each entry in `context`.
pub(crate) fn next_entry(lines: &mut Quoted, context: &mut Context, env: &Environment) -> (res: Option<
    Result<(String, String), Error>,
>)
    requires
        old(lines).wf(),
        0 <= old(lines).position(),
    ensures
        final(lines).wf(),
        final(lines).text() == old(lines).text(),
        0 <= final(lines).position(),
        ({
            let (item, q, ctx2) = read_next(
                env@,
                old(lines).text(),
                old(lines).position(),
                old(context)@,
            );
            &&& final(lines).position() == q
            &&& final(context)@ == ctx2
            &&& match item {
                None => res is None,
                Some(ReadItem::Pair(k, v)) => res matches Some(Ok((key, value))) && key@ == k
                    && value@ == v,
                Some(ReadItem::Fail(text, pos)) => res matches Some(Err(Error::LineParse(t, n)))
                    && t@ == text && n == pos,
            }
        }),
{
    let ghost t = lines.text();
    proof {
        lines.lemma_wf();
        lemma_read_next(env@, t, lines.position(), context@);
    }
    loop
        invariant
            lines.wf(),
            lines.text() == t,
            t == old(lines).text(),
            0 <= old(lines).position() <= lines.position() <= t.len(),
            old(lines).position() <= read_next(env@, t, old(lines).position(), old(context)@).1,
            byte_len(t) <= usize::MAX,
            read_next(env@, t, old(lines).position(), old(context)@) == read_next(
                env@,
                t,
                lines.position(),
                context@,
            ),
            context@ == old(context)@,
        decreases t.len() - lines.position(),
    {
        let ghost p = lines.position();
        proof {
            lemma_quoted_from(t, p, p, crate::quoted::QuoteState::Close);
        }
        let line = match lines.next() {
            Some(Ok(line)) => line,
            Some(Err(err)) => {
                proof {
                    lines.lemma_wf();
                }
                return Some(Err(err));
            },
            None => {
                proof {
                    lines.lemma_wf();
                }
                return None;
            },
        };
        proof {
            lines.lemma_wf();
        }
        match parse_line(&line, env, context) {
            Ok(Some(result)) => return Some(Ok(result)),
            Ok(None) => {},
            Err(err) => return Some(Err(err)),
        }
    }
}

/// A `.env` text read line by line: each call of [`Dotenv::next`] gives
/// the next entry or failure.
pub struct Dotenv {
    context: Context,
    lines: Quoted,
}

impl Dotenv {
    /// The text being read.
    pub closed spec fn text(&self) -> Seq<char> {
        self.lines.text()
    }

    /// Where reading stands in the text.
    pub closed spec fn position(&self) -> int {
        self.lines.position()
    }

    /// The values recorded so far, for later substitutions.
    pub closed spec fn context(&self) -> Seq<(Seq<char>, Option<Seq<char>>)> {
        self.context@
    }

    /// The reader is well formed.
    pub closed spec fn wf(&self) -> bool {
        &&& self.lines.wf()
        &&& 0 <= self.lines.position()
    }

    /// A reader of `text`, from its start.
    pub fn new(text: String) -> (res: Dotenv)
        ensures
            res.wf(),
            res.text() == text@,
            res.position() == 0,
            res.context() == Seq::<(Seq<char>, Option<Seq<char>>)>::empty(),
    {
        let _ = str_byte_len(text.as_str());
        let chars = chars_of(text.as_str());
        Dotenv { context: Context::new(), lines: Quoted::new(chars) }
    }

    /// The next entry, or the next failure: a logical line that does not
    /// parse, or a quote left open at the end of the text. Reading goes on
    /// after a failure. `None` at the end of the text.
    pub fn next(&mut self, env: &Environment) -> (res: Option<Result<(String, String), Error>>)
        requires
            old(self).wf(),
        ensures
            final(self).wf(),
            final(self).text() == old(self).text(),
            ({
                let (item, q, ctx2) = read_next(
                    env@,
                    old(self).text(),
                    old(self).position(),
                    old(self).context(),
                );
                &&& final(self).position() == q
                &&& final(self).context() == ctx2
                &&& match item {
                    None => res is None,
                    Some(ReadItem::Pair(k, v)) => res matches Some(Ok((key, value))) && key@ == k
                        && value@ == v,
                    Some(ReadItem::Fail(text, pos)) => res matches Some(
                        Err(Error::LineParse(t, n)),
                    ) && t@ == text && n == pos,
                }
            }),
    {
        next_entry(&mut self.lines, &mut self.context, env)
    }

    /// Loads the entries into `env`: each key not yet in `env` is assigned
    /// its value, and later substitutions see it. Loading stops at the first
    /// failure, which it returns.
    pub fn load(self, env: &mut Environment) -> (res: Result<(), Error>)
        requires
            self.wf(),
        ensures
            ({
                let (env2, failure) = load_run(old(env)@, self.text(), self.position(), self.context());
                &&& final(env)@ == env2
                &&& match failure {
                    None => res is Ok,
                    Some((text, pos)) => res matches Err(Error::LineParse(t, n)) && t@ == text && n
                        == pos,
                }
            }),
    {
        let mut this = self;
        load_entries(&mut this.lines, &mut this.context, env)
    }
}

/// Loads the entries of `lines` into `env`.
pub(crate) fn load_entries(lines: &mut Quoted, context: &mut Context, env: &mut Environment) -> (res:
    Result<(), Error>)
    requires
        old(lines).wf(),
        0 <= old(lines).position(),
    ensures
        ({
            let (env2, failure) = load_run(
                old(env)@,
                old(lines).text(),
                old(lines).position(),
                old(context)@,
            );
            &&& final(env)@ == env2
            &&& match failure {
                None => res is Ok,
                Some((text, pos)) => res matches Err(Error::LineParse(t, n)) && t@ == text && n
                    == pos,
            }
        }),
{
    let ghost t = lines.text();
    proof {
        lines.lemma_wf();
    }
    loop
        invariant
            lines.wf(),
            lines.text() == t,
            t == old(lines).text(),
            0 <= lines.position() <= t.len(),
            load_run(old(env)@, t, old(lines).position(), old(context)@) == load_run(
                env@,
                t,
                lines.position(),
                context@,
            ),
        decreases t.len() - lines.position(),
    {
        let ghost p = lines.position();
        let ghost e0 = env@;
        let ghost c0 = context@;
        proof {
            lemma_read_next(e0, t, p, c0);
        }
        match next_entry(lines, context, env) {
            None => return Ok(()),
            Some(Err(err)) => return Err(err),
            Some(Ok((key, value))) => {
                if env.get(key.as_str()).is_none() {
                    env.set(key.as_str(), value.as_str());
                }
            },
        }
    }
}

} // verus!
