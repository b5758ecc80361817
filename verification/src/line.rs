//! The line parser: one `KEY=value` line at a time, with quotes, escapes
//! and `$VAR` / `${VAR}` substitution from the environment and from the
//! keys parsed before.

use vstd::prelude::*;
use crate::error::Error;
use crate::text::{
    byte_len, byte_len_of, char_is_ascii_alnum, char_is_ascii_alpha, char_is_whitespace, char_width, chars_eq, chars_of, is_ascii_alnum,
    is_ascii_alpha, is_whitespace, lemma_byte_len_add, lemma_byte_len_prefix, lemma_byte_len_push,
    push_str_chars, str_byte_len, string_of_all,
};
use vstd::utf8::encode_utf8;
use crate::vars::{assoc_get, opt_view, Context, Environment};

verus! {

/// `char::is_alphanumeric` (the Unicode `Alphabetic` or `Numeric` property).
pub uninterp spec fn unicode_alphanumeric(c: char) -> bool;

/// Whether `c` may stand in a `$name`: `char::is_alphanumeric`, which on an
/// ASCII character is an ASCII letter or digit.
pub open spec fn alphanumeric(c: char) -> bool {
    if c <= '\u{7f}' {
        is_ascii_alnum(c)
    } else {
        unicode_alphanumeric(c)
    }
}

/// Calls `char::is_alphanumeric`; its result is [`unicode_alphanumeric`],
/// and on an ASCII character an ASCII letter or digit (the Unicode
/// `Alphabetic` and `Numeric` characters of ASCII are exactly those).
#[verifier::external_body]
fn char_is_alphanumeric(c: char) -> (res: bool)
    ensures
        res == unicode_alphanumeric(c),
        c <= '\u{7f}' ==> (res == is_ascii_alnum(c)),
{
    c.is_alphanumeric()
}

/// Where a `$` substitution stands while a value is read.
#[derive(Clone, Copy, PartialEq, Eq, Structural)]
pub enum SubstitutionMode {
    /// No substitution is being read.
    Idle,
    /// After `$`: a name made of alphanumeric characters.
    Block,
    /// After `${`: a name that ends at `}`.
    EscapedBlock,
}

/// The state of [`parse_value`] between two characters.
pub struct ValueState {
    pub strong_quote: bool,
    pub weak_quote: bool,
    pub escaped: bool,
    pub expecting_end: bool,
    pub output: Seq<char>,
    pub mode: SubstitutionMode,
    pub name: Seq<char>,
}

/// What one character does to a [`ValueState`].
pub enum ValueStep {
    /// Reading goes on in this state.
    Next(ValueState),
    /// The rest of the value is an inline comment.
    Stop,
    /// The character is not allowed here.
    Fail,
}

/// The state in which a value is read from its start.
pub open spec fn value_start() -> ValueState {
    ValueState {
        strong_quote: false,
        weak_quote: false,
        escaped: false,
        expecting_end: false,
        output: Seq::empty(),
        mode: SubstitutionMode::Idle,
        name: Seq::empty(),
    }
}

/// What `$name` stands for: its value in the environment, else its value in
/// the context, else nothing.
pub open spec fn substitute(
    env: Seq<(Seq<char>, Seq<char>)>,
    ctx: Seq<(Seq<char>, Option<Seq<char>>)>,
    name: Seq<char>,
) -> Seq<char> {
    match assoc_get(env, name) {
        Some(v) => v,
        None => match assoc_get(ctx, name) {
            Some(Some(v)) => v,
            _ => Seq::empty(),
        },
    }
}

/// The effect of reading `c` in state `st`.
pub open spec fn value_step(
    env: Seq<(Seq<char>, Seq<char>)>,
    ctx: Seq<(Seq<char>, Option<Seq<char>>)>,
    st: ValueState,
    c: char,
) -> ValueStep {
    value_step_with(env, ctx, st, c, alphanumeric(c))
}

/// The effect of reading `c` in state `st`, where `alnum` says whether `c`
/// may stand in a `$name`.
pub open spec fn value_step_with(
    env: Seq<(Seq<char>, Seq<char>)>,
    ctx: Seq<(Seq<char>, Option<Seq<char>>)>,
    st: ValueState,
    c: char,
    alnum: bool,
) -> ValueStep {
    if st.expecting_end {
        if c == ' ' || c == '\t' {
            ValueStep::Next(st)
        } else if c == '#' {
            ValueStep::Stop
        } else {
            ValueStep::Fail
        }
    } else if st.escaped {
        if c == '\\' || c == '\'' || c == '"' || c == '$' || c == ' ' {
            ValueStep::Next(ValueState { output: st.output.push(c), escaped: false, ..st })
        } else if c == 'n' {
            ValueStep::Next(ValueState { output: st.output.push('\n'), escaped: false, ..st })
        } else {
            ValueStep::Fail
        }
    } else if st.strong_quote {
        if c == '\'' {
            ValueStep::Next(ValueState { strong_quote: false, ..st })
        } else {
            ValueStep::Next(ValueState { output: st.output.push(c), ..st })
        }
    } else if st.mode != SubstitutionMode::Idle {
        if alnum {
            ValueStep::Next(ValueState { name: st.name.push(c), ..st })
        } else if st.mode == SubstitutionMode::Block {
            if c == '{' && st.name.len() == 0 {
                ValueStep::Next(ValueState { mode: SubstitutionMode::EscapedBlock, ..st })
            } else {
                let out = st.output + substitute(env, ctx, st.name);
                if c == '$' {
                    ValueStep::Next(
                        ValueState {
                            output: out,
                            name: Seq::empty(),
                            mode: SubstitutionMode::Block,
                            ..st
                        },
                    )
                } else {
                    ValueStep::Next(
                        ValueState {
                            output: out.push(c),
                            name: Seq::empty(),
                            mode: SubstitutionMode::Idle,
                            ..st
                        },
                    )
                }
            }
        } else if c == '}' {
            ValueStep::Next(
                ValueState {
                    output: st.output + substitute(env, ctx, st.name),
                    name: Seq::empty(),
                    mode: SubstitutionMode::Idle,
                    ..st
                },
            )
        } else {
            ValueStep::Next(ValueState { name: st.name.push(c), ..st })
        }
    } else if c == '$' {
        ValueStep::Next(ValueState { mode: SubstitutionMode::Block, ..st })
    } else if st.weak_quote {
        if c == '"' {
            ValueStep::Next(ValueState { weak_quote: false, ..st })
        } else if c == '\\' {
            ValueStep::Next(ValueState { escaped: true, ..st })
        } else {
            ValueStep::Next(ValueState { output: st.output.push(c), ..st })
        }
    } else if c == '\'' {
        ValueStep::Next(ValueState { strong_quote: true, ..st })
    } else if c == '"' {
        ValueStep::Next(ValueState { weak_quote: true, ..st })
    } else if c == '\\' {
        ValueStep::Next(ValueState { escaped: true, ..st })
    } else if c == ' ' || c == '\t' {
        ValueStep::Next(ValueState { expecting_end: true, ..st })
    } else {
        ValueStep::Next(ValueState { output: st.output.push(c), ..st })
    }
}

/// Reads `s[i..]` from state `st`: the state at the end of the value (or at
/// an inline comment), or the index of the character that is not allowed.
pub open spec fn value_run(
    env: Seq<(Seq<char>, Seq<char>)>,
    ctx: Seq<(Seq<char>, Option<Seq<char>>)>,
    s: Seq<char>,
    i: int,
    st: ValueState,
) -> Result<ValueState, int>
    decreases s.len() - i,
{
    if i < 0 || i >= s.len() {
        Ok(st)
    } else {
        match value_step(env, ctx, st, s[i]) {
            ValueStep::Next(next) => value_run(env, ctx, s, i + 1, next),
            ValueStep::Stop => Ok(st),
            ValueStep::Fail => Err(i),
        }
    }
}

/// The value that `s` denotes, or the offset reported when it does not
/// parse: the index of a character that is not allowed, or, for an open
/// quote or an open `${`, the offset of the last byte.
pub open spec fn value_result(
    env: Seq<(Seq<char>, Seq<char>)>,
    ctx: Seq<(Seq<char>, Option<Seq<char>>)>,
    s: Seq<char>,
) -> Result<Seq<char>, int> {
    match value_run(env, ctx, s, 0, value_start()) {
        Err(i) => Err(i),
        Ok(st) => if st.mode == SubstitutionMode::EscapedBlock || st.strong_quote
            || st.weak_quote {
            Err(if byte_len(s) == 0 {
                0
            } else {
                byte_len(s) - 1
            })
        } else {
            Ok(st.output + substitute(env, ctx, st.name))
        },
    }
}

/// Appends what `$name` stands for to `output`.
fn apply_substitution(env: &Environment, ctx: &Context, name: &Vec<char>, output: &mut Vec<char>)
    ensures
        final(output)@ == old(output)@ + substitute(env@, ctx@, name@),
{
    if let Some(value) = env.lookup(name) {
        push_str_chars(output, value);
    } else if let Some(Some(value)) = ctx.lookup(name) {
        push_str_chars(output, value);
    } else {
        // the variable is not set
        assert(old(output)@ + Seq::<char>::empty() =~= old(output)@);
    }
}

/// What [`ValueReader::step`] did with a character.
#[derive(Clone, Copy, PartialEq, Eq, Structural, Debug)]
pub enum StepOutcome {
    /// The character was read; reading goes on.
    Continue,
    /// The character starts an inline comment: the value ends before it.
    Stop,
    /// The character is not allowed here.
    Fail,
}

/// A value being read, one character at a time.
pub struct ValueReader {
    pub strong_quote: bool,
    pub weak_quote: bool,
    pub escaped: bool,
    pub expecting_end: bool,
    pub output: Vec<char>,
    pub mode: SubstitutionMode,
    pub name: Vec<char>,
}

impl View for ValueReader {
    type V = ValueState;

    open spec fn view(&self) -> ValueState {
        ValueState {
            strong_quote: self.strong_quote,
            weak_quote: self.weak_quote,
            escaped: self.escaped,
            expecting_end: self.expecting_end,
            output: self.output@,
            mode: self.mode,
            name: self.name@,
        }
    }
}

impl ValueReader {
    /// A reader at the start of a value.
    pub fn new() -> (res: ValueReader)
        ensures
            res@ == value_start(),
    {
        ValueReader {
            strong_quote: false,
            weak_quote: false,
            escaped: false,
            expecting_end: false,
            output: Vec::new(),
            mode: SubstitutionMode::Idle,
            name: Vec::new(),
        }
    }

    /// Reads `c`, where `alphanumeric` says whether `c` may stand in a
    /// `$name`: the state moves as [`value_step_with`] says, and stays
    /// as it was on `Stop` and `Fail`.
    pub fn step(&mut self, c: char, alphanumeric: bool, env: &Environment, ctx: &Context) -> (res:
        StepOutcome)
        ensures
            match value_step_with(env@, ctx@, old(self)@, c, alphanumeric) {
                ValueStep::Next(st) => res == StepOutcome::Continue && final(self)@ == st,
                ValueStep::Stop => res == StepOutcome::Stop && final(self)@ == old(self)@,
                ValueStep::Fail => res == StepOutcome::Fail && final(self)@ == old(self)@,
            },
    {
        if self.expecting_end {
            if c == ' ' || c == '\t' {
                StepOutcome::Continue
            } else if c == '#' {
                StepOutcome::Stop
            } else {
                StepOutcome::Fail
            }
        } else if self.escaped {
            if c == '\\' || c == '\'' || c == '"' || c == '$' || c == ' ' {
                self.output.push(c);
            } else if c == 'n' {
                self.output.push('\n');
            } else {
                return StepOutcome::Fail;
            }
            self.escaped = false;
            StepOutcome::Continue
        } else if self.strong_quote {
            if c == '\'' {
                self.strong_quote = false;
            } else {
                self.output.push(c);
            }
            StepOutcome::Continue
        } else if self.mode != SubstitutionMode::Idle {
            if alphanumeric {
                self.name.push(c);
            } else if self.mode == SubstitutionMode::Block {
                if c == '{' && self.name.len() == 0 {
                    self.mode = SubstitutionMode::EscapedBlock;
                } else {
                    apply_substitution(env, ctx, &self.name, &mut self.output);
                    self.name = Vec::new();
                    if c == '$' {
                        self.mode = SubstitutionMode::Block;
                    } else {
                        self.mode = SubstitutionMode::Idle;
                        self.output.push(c);
                    }
                }
            } else if c == '}' {
                self.mode = SubstitutionMode::Idle;
                apply_substitution(env, ctx, &self.name, &mut self.output);
                self.name = Vec::new();
            } else {
                self.name.push(c);
            }
            StepOutcome::Continue
        } else {
            if c == '$' {
                self.mode = SubstitutionMode::Block;
            } else if self.weak_quote {
                if c == '"' {
                    self.weak_quote = false;
                } else if c == '\\' {
                    self.escaped = true;
                } else {
                    self.output.push(c);
                }
            } else if c == '\'' {
                self.strong_quote = true;
            } else if c == '"' {
                self.weak_quote = true;
            } else if c == '\\' {
                self.escaped = true;
            } else if c == ' ' || c == '\t' {
                self.expecting_end = true;
            } else {
                self.output.push(c);
            }
            StepOutcome::Continue
        }
    }
}

/// Reads a value: quotes, escapes, substitutions and an inline comment.
fn parse_value(input: &Vec<char>, env: &Environment, ctx: &Context) -> (res: Result<
    Vec<char>,
    Error,
>)
    requires
        byte_len(input@) <= usize::MAX,
    ensures
        match value_result(env@, ctx@, input@) {
            Ok(v) => res matches Ok(out) && out@ == v,
            Err(i) => res matches Err(Error::LineParse(text, index)) && text@ == input@ && index
                == i,
        },
{
    let mut reader = ValueReader::new();
    let mut stopped = false;
    let mut index: usize = 0;
    let ghost e = env@;
    let ghost c0 = ctx@;
    while index < input.len() && !stopped
        invariant
            index <= input.len(),
            e == env@,
            c0 == ctx@,
            value_run(e, c0, input@, 0, value_start()) == (if stopped {
                Ok(reader@)
            } else {
                value_run(e, c0, input@, index as int, reader@)
            }),
        decreases input.len() - index + (if stopped {
            0int
        } else {
            1int
        }),
    {
        let c = input[index];
        let alnum = char_is_alphanumeric(c);
        assert(alnum == alphanumeric(c));
        match reader.step(c, alnum, env, ctx) {
            StepOutcome::Continue => {
                index = index + 1;
            },
            StepOutcome::Stop => {
                stopped = true;
            },
            StepOutcome::Fail => {
                return Err(Error::LineParse(string_of_all(input), index));
            },
        }
    }
    if reader.mode == SubstitutionMode::EscapedBlock || reader.strong_quote || reader.weak_quote {
        let value_length = byte_len_of(input, input.len());
        proof {
            assert(input@.take(input@.len() as int) =~= input@);
        }
        Err(
            Error::LineParse(
                string_of_all(input),
                if value_length == 0 {
                    0
                } else {
                    value_length - 1
                },
            ),
        )
    } else {
        let mut output = reader.output;
        apply_substitution(env, ctx, &reader.name, &mut output);
        Ok(output)
    }
}

/// The end of the run of characters of `s` from `i` on that satisfy `p`.
pub open spec fn scan_while(s: Seq<char>, i: int, p: spec_fn(char) -> bool) -> int
    decreases s.len() - i,
{
    if 0 <= i < s.len() && p(s[i]) {
        scan_while(s, i + 1, p)
    } else {
        i
    }
}

/// A run never ends before it starts nor after the end of `s`.
pub proof fn lemma_scan_while_bounds(s: Seq<char>, i: int, p: spec_fn(char) -> bool)
    requires
        0 <= i <= s.len(),
    ensures
        i <= scan_while(s, i, p) <= s.len(),
        scan_while(s, i, p) < s.len() ==> !p(s[scan_while(s, i, p)]),
        forall|j: int| i <= j < scan_while(s, i, p) ==> p(#[trigger] s[j]),
    decreases s.len() - i,
{
    if i < s.len() && p(s[i]) {
        lemma_scan_while_bounds(s, i + 1, p);
    }
}

/// The index of the first character of `s` at or after `i` that is not whitespace.
pub open spec fn skip_ws(s: Seq<char>, i: int) -> int {
    scan_while(s, i, |c: char| is_whitespace(c))
}

/// `s` without its trailing whitespace (`str::trim_end`).
pub open spec fn trim_end(s: Seq<char>) -> Seq<char>
    decreases s.len(),
{
    if s.len() > 0 && is_whitespace(s.last()) {
        trim_end(s.drop_last())
    } else {
        s
    }
}

/// A key starts with an ASCII letter or `_`.
pub open spec fn is_key_start(c: char) -> bool {
    is_ascii_alpha(c) || c == '_'
}

/// A key goes on with ASCII letters, digits, `_` and `.`.
pub open spec fn is_key_char(c: char) -> bool {
    is_ascii_alnum(c) || c == '_' || c == '.'
}

/// The end of the key that starts at `i`.
pub open spec fn key_end(s: Seq<char>, i: int) -> int {
    scan_while(s, i, |c: char| is_key_char(c))
}

/// Whether a key starts at `i`.
pub open spec fn key_starts(s: Seq<char>, i: int) -> bool {
    0 <= i < s.len() && is_key_start(s[i])
}

/// Whether `s[i]` is `=`.
pub open spec fn equal_at(s: Seq<char>, i: int) -> bool {
    0 <= i < s.len() && s[i] == '='
}

/// Where the key and the `=` of a line are: the key and the index after
/// `=`, or the index at which parsing stopped. `i` is the first character
/// of the line that is not whitespace.
pub open spec fn key_and_equal(s: Seq<char>, i: int) -> Result<(Seq<char>, int), int> {
    if !key_starts(s, i) {
        Err(i)
    } else {
        let k1 = key_end(s, i);
        let key1 = s.subrange(i, k1);
        let j1 = skip_ws(s, k1);
        if key1 == "export"@ && !equal_at(s, j1) {
            if !key_starts(s, j1) {
                Err(j1)
            } else {
                let k2 = key_end(s, j1);
                let j2 = skip_ws(s, k2);
                if equal_at(s, j2) {
                    Ok((s.subrange(j1, k2), j2 + 1))
                } else {
                    Err(j2)
                }
            }
        } else if equal_at(s, j1) {
            Ok((key1, j1 + 1))
        } else {
            Err(j1)
        }
    }
}

/// What parsing one line gives.
pub enum LineOutcome {
    /// A blank line or a comment.
    Skip,
    /// An entry: its key, its value, and what the context records for it
    /// (nothing for an empty value).
    Entry { key: Seq<char>, value: Seq<char>, recorded: Option<Seq<char>> },
    /// A line that does not parse: the text reported and the offset.
    Fail { text: Seq<char>, pos: int },
}

/// What parsing `line` gives, with environment `env` and context `ctx`.
pub open spec fn line_outcome(
    env: Seq<(Seq<char>, Seq<char>)>,
    ctx: Seq<(Seq<char>, Option<Seq<char>>)>,
    line: Seq<char>,
) -> LineOutcome {
    let l = trim_end(line);
    let i0 = skip_ws(l, 0);
    if i0 == l.len() || l[i0] == '#' {
        LineOutcome::Skip
    } else {
        match key_and_equal(l, i0) {
            Err(p) => LineOutcome::Fail { text: line, pos: byte_len(l.take(p)) as int },
            Ok((key, j)) => {
                let v0 = skip_ws(l, j);
                if v0 == l.len() || l[v0] == '#' {
                    LineOutcome::Entry { key, value: Seq::empty(), recorded: None }
                } else {
                    match value_result(env, ctx, l.skip(v0)) {
                        Err(i) => LineOutcome::Fail { text: l.skip(v0), pos: i },
                        Ok(v) => LineOutcome::Entry { key, value: v, recorded: Some(v) },
                    }
                }
            },
        }
    }
}

/// The index after the last character of `v` that is not whitespace.
fn trim_end_len(v: &Vec<char>) -> (n: usize)
    ensures
        n <= v.len(),
        v@.take(n as int) == trim_end(v@),
{
    let mut n = v.len();
    assert(v@.take(n as int) =~= v@);
    while n > 0 && char_is_whitespace(v[n - 1])
        invariant
            n <= v.len(),
            trim_end(v@) == trim_end(v@.take(n as int)),
        decreases n,
    {
        assert(v@.take(n as int).drop_last() =~= v@.take(n - 1));
        n = n - 1;
    }
    assert(v@.take(n as int) == trim_end(v@.take(n as int)));
    n
}

/// A parser over one line.
struct LineParser<'a> {
    raw_line: &'a str,
    line: Vec<char>,
    cur: usize,
    pos: usize,
}

impl<'a> LineParser<'a> {
    /// The parser is at character `cur` of `line`, and `pos` is the byte
    /// offset of that character.
    spec fn wf(&self) -> bool {
        &&& self.cur <= self.line.len()
        &&& self.pos == byte_len(self.line@.take(self.cur as int))
        &&& byte_len(self.line@) <= usize::MAX
        &&& self.line@ == trim_end(self.raw_line@)
    }

    fn new(line: &'a str) -> (res: LineParser<'a>)
        requires
            byte_len(line@) <= usize::MAX,
        ensures
            res.wf(),
            res.raw_line == line,
            res.cur == 0,
    {
        let chars = chars_of(line);
        let n = trim_end_len(&chars);
        let mut trimmed: Vec<char> = Vec::new();
        let mut i: usize = 0;
        while i < n
            invariant
                n <= chars.len(),
                i <= n,
                trimmed@ == chars@.take(i as int),
            decreases n - i,
        {
            trimmed.push(chars[i]);
            assert(chars@.take(i + 1) =~= chars@.take(i as int).push(chars@[i as int]));
            i = i + 1;
        }
        proof {
            lemma_byte_len_prefix(line@, n as int);
            assert(trimmed@.take(0) =~= Seq::<char>::empty());
            assert(encode_utf8(Seq::<char>::empty()) =~= Seq::<u8>::empty());
        }
        LineParser { raw_line: line, line: trimmed, cur: 0, pos: 0 }
    }

    fn err(&self) -> (res: Error)
        ensures
            res matches Error::LineParse(text, pos) && text@ == self.raw_line@ && pos
                == self.pos,
    {
        Error::LineParse(self.raw_line.to_owned(), self.pos)
    }

    /// Moves `n` characters forward.
    fn advance(&mut self, n: usize)
        requires
            old(self).wf(),
            old(self).cur + n <= old(self).line.len(),
        ensures
            final(self).wf(),
            final(self).cur == old(self).cur + n,
            final(self).line == old(self).line,
            final(self).raw_line == old(self).raw_line,
    {
        let target = self.cur + n;
        while self.cur < target
            invariant
                self.wf(),
                self.cur <= target <= self.line.len(),
                self.line == old(self).line,
                self.raw_line == old(self).raw_line,
                target == old(self).cur + n,
            decreases target - self.cur,
        {
            proof {
                lemma_byte_len_push(self.line@.take(self.cur as int), self.line@[self.cur as int]);
                assert(self.line@.take(self.cur + 1) =~= self.line@.take(self.cur as int).push(
                    self.line@[self.cur as int],
                ));
                lemma_byte_len_prefix(self.line@, self.cur + 1);
            }
            self.pos = self.pos + char_width(self.line[self.cur]);
            self.cur = self.cur + 1;
        }
    }

    fn skip_whitespace(&mut self)
        requires
            old(self).wf(),
        ensures
            final(self).wf(),
            final(self).cur == skip_ws(old(self).line@, old(self).cur as int),
            final(self).line == old(self).line,
            final(self).raw_line == old(self).raw_line,
    {
        let mut j = self.cur;
        proof {
            lemma_scan_while_bounds(self.line@, self.cur as int, |c: char| is_whitespace(c));
        }
        while j < self.line.len() && char_is_whitespace(self.line[j])
            invariant
                self.cur <= j <= self.line.len(),
                skip_ws(self.line@, self.cur as int) == skip_ws(self.line@, j as int),
            decreases self.line.len() - j,
        {
            j = j + 1;
        }
        let n = j - self.cur;
        self.advance(n);
    }

    fn parse_key(&mut self) -> (res: Result<Vec<char>, Error>)
        requires
            old(self).wf(),
        ensures
            final(self).wf(),
            final(self).line == old(self).line,
            final(self).raw_line == old(self).raw_line,
            match res {
                Ok(key) => key_starts(old(self).line@, old(self).cur as int) && final(self).cur
                    == key_end(old(self).line@, old(self).cur as int) && key@
                    == old(self).line@.subrange(old(self).cur as int, final(self).cur as int),
                Err(e) => {
                    &&& !key_starts(old(self).line@, old(self).cur as int)
                    &&& final(self).cur == old(self).cur
                    &&& e matches Error::LineParse(text, pos) && text@ == old(self).raw_line@
                        && pos == old(self).pos
                },
            },
    {
        if !(self.cur < self.line.len() && (char_is_ascii_alpha(self.line[self.cur])
            || self.line[self.cur] == '_')) {
            return Err(self.err());
        }
        let start = self.cur;
        let mut j = self.cur;
        proof {
            lemma_scan_while_bounds(self.line@, self.cur as int, |c: char| is_key_char(c));
        }
        while j < self.line.len() && (char_is_ascii_alnum(self.line[j]) || self.line[j] == '_'
            || self.line[j] == '.')
            invariant
                self.cur <= j <= self.line.len(),
                key_end(self.line@, self.cur as int) == key_end(self.line@, j as int),
            decreases self.line.len() - j,
        {
            j = j + 1;
        }
        let mut key: Vec<char> = Vec::new();
        let mut i = start;
        while i < j
            invariant
                start <= i <= j <= self.line.len(),
                key@ == self.line@.subrange(start as int, i as int),
            decreases j - i,
        {
            key.push(self.line[i]);
            assert(self.line@.subrange(start as int, i + 1) =~= self.line@.subrange(
                start as int,
                i as int,
            ).push(self.line@[i as int]));
            i = i + 1;
        }
        let n = j - start;
        self.advance(n);
        Ok(key)
    }

    fn expect_equal(&mut self) -> (res: Result<(), Error>)
        requires
            old(self).wf(),
        ensures
            final(self).wf(),
            final(self).line == old(self).line,
            final(self).raw_line == old(self).raw_line,
            match res {
                Ok(()) => equal_at(old(self).line@, old(self).cur as int) && final(self).cur
                    == old(self).cur + 1,
                Err(e) => {
                    &&& !equal_at(old(self).line@, old(self).cur as int)
                    &&& final(self).cur == old(self).cur
                    &&& e matches Error::LineParse(text, pos) && text@ == old(self).raw_line@
                        && pos == old(self).pos
                },
            },
    {
        if !(self.cur < self.line.len() && self.line[self.cur] == '=') {
            return Err(self.err());
        }
        self.advance(1);
        Ok(())
    }

    fn parse_line(&mut self, env: &Environment, context: &mut Context) -> (res: Result<
        Option<(String, String)>,
        Error,
    >)
        requires
            old(self).wf(),
            old(self).cur == 0,
        ensures
            match line_outcome(env@, old(context)@, old(self).raw_line@) {
                LineOutcome::Skip => res matches Ok(None) && final(context)@ == old(context)@,
                LineOutcome::Entry { key, value, recorded } => res matches Ok(Some((k, v)))
                    && k@ == key && v@ == value && final(context)@ == old(context)@.push(
                    (key, recorded),
                ),
                LineOutcome::Fail { text, pos } => res matches Err(Error::LineParse(t, p))
                    && t@ == text && p == pos && final(context)@ == old(context)@,
            },
    {
        let ghost l = self.line@;
        self.skip_whitespace();
        if self.cur == self.line.len() || self.line[self.cur] == '#' {
            return Ok(None);
        }
        let ghost i0 = self.cur as int;
        let mut key = self.parse_key()?;
        let ghost k1 = self.cur as int;
        self.skip_whitespace();
        let ghost j1 = self.cur as int;
        let export = chars_of("export");
        if chars_eq(&key, &export) {
            if self.expect_equal().is_err() {
                key = self.parse_key()?;
                self.skip_whitespace();
                self.expect_equal()?;
            }
        } else {
            self.expect_equal()?;
        }
        assert(key_and_equal(l, i0) == Ok::<(Seq<char>, int), int>((key@, self.cur as int)));
        self.skip_whitespace();
        if self.cur == self.line.len() || self.line[self.cur] == '#' {
            context.insert(key.clone(), None);
            return Ok(Some((string_of_all(&key), String::new())));
        }
        let ghost v0 = self.cur as int;
        let mut rest: Vec<char> = Vec::new();
        let mut i = self.cur;
        while i < self.line.len()
            invariant
                self.cur <= i <= self.line.len(),
                rest@ == self.line@.subrange(self.cur as int, i as int),
            decreases self.line.len() - i,
        {
            rest.push(self.line[i]);
            assert(self.line@.subrange(self.cur as int, i + 1) =~= self.line@.subrange(
                self.cur as int,
                i as int,
            ).push(self.line@[i as int]));
            i = i + 1;
        }
        proof {
            assert(rest@ =~= l.skip(v0));
            lemma_byte_len_add(l.take(v0), l.skip(v0));
            assert(l.take(v0) + l.skip(v0) =~= l);
        }
        let parsed_value = parse_value(&rest, env, context)?;
        context.insert(key.clone(), Some(parsed_value.clone()));
        Ok(Some((string_of_all(&key), string_of_all(&parsed_value))))
    }
}

/// Parses one line of a `.env` file. A blank line or a comment gives
/// `Ok(None)`; an entry gives its key and value and records the value in
/// `context` for the substitutions of later lines; a line that does not
/// parse gives [`Error::LineParse`] and leaves `context` as it was.
/// Substitutions read `env` first, then `context`.
pub fn parse_line(line: &str, env: &Environment, context: &mut Context) -> (res: Result<
    Option<(String, String)>,
    Error,
>)
    ensures
        match line_outcome(env@, old(context)@, line@) {
            LineOutcome::Skip => res matches Ok(None) && final(context)@ == old(context)@,
            LineOutcome::Entry { key, value, recorded } => res matches Ok(Some((k, v))) && k@
                == key && v@ == value && final(context)@ == old(context)@.push((key, recorded)),
            LineOutcome::Fail { text, pos } => res matches Err(Error::LineParse(t, p)) && t@
                == text && p == pos && final(context)@ == old(context)@,
        },
{
    let _ = str_byte_len(line);
    let mut parser = LineParser::new(line);
    parser.parse_line(env, context)
}

} // verus!
