//! Parsed `.env` content and the iterator over its entries.

use vstd::prelude::*;
use vstd::string::StrSliceExecFns;
use crate::parse::{
    lemma_bscan, lemma_kv_line_bounds, parse_step, parse_step_exec, scan_line, scan_multispace,
    Parsed, Scope, Step,
};
use crate::text::{chars_of, string_of_all};
use crate::vars::{assoc_get, Environment, Vars};

verus! {

/// `s` without a leading byte order mark.
pub open spec fn strip_bom(s: Seq<char>) -> Seq<char> {
    if s.len() > 0 && s[0] == '\u{feff}' {
        s.drop_first()
    } else {
        s
    }
}

/// `s` with each `\r\n` replaced by `\n`, from left to right.
pub open spec fn replace_crlf(s: Seq<char>) -> Seq<char>
    decreases s.len(),
{
    if s.len() == 0 {
        s
    } else if s.len() >= 2 && s[0] == '\r' && s[1] == '\n' {
        seq!['\n'] + replace_crlf(s.skip(2))
    } else {
        seq![s[0]] + replace_crlf(s.drop_first())
    }
}

/// `s` with each `\r` replaced by `\n`.
pub open spec fn replace_cr(s: Seq<char>) -> Seq<char> {
    s.map_values(|c: char| if c == '\r' { '\n' } else { c })
}

/// The input as the parser reads it: without a byte order mark, with
/// `\r\n` and then every remaining `\r` turned into `\n`.
pub open spec fn normalize(s: Seq<char>) -> Seq<char> {
    replace_cr(replace_crlf(strip_bom(s)))
}

fn normalize_input(buf: String) -> (res: String)
    ensures
        res@ == normalize(buf@),
{
    let chars = chars_of(buf.as_str());
    let start: usize = if chars.len() > 0 && chars[0] == '\u{feff}' {
        1
    } else {
        0
    };
    let ghost stripped = strip_bom(buf@);
    assert(stripped =~= chars@.skip(start as int));
    // `\r\n` to `\n`
    let mut crlf: Vec<char> = Vec::new();
    let mut i = start;
    while i < chars.len()
        invariant
            start <= i <= chars.len(),
            replace_crlf(stripped) == crlf@ + replace_crlf(chars@.skip(i as int)),
        decreases chars.len() - i,
    {
        if chars.len() - i >= 2 && chars[i] == '\r' && chars[i + 1] == '\n' {
            proof {
                assert(chars@.skip(i as int).skip(2) =~= chars@.skip(i + 2));
                assert(crlf@ + (seq!['\n'] + replace_crlf(chars@.skip(i + 2))) =~= crlf@.push('\n')
                    + replace_crlf(chars@.skip(i + 2)));
            }
            crlf.push('\n');
            i = i + 2;
        } else {
            proof {
                assert(chars@.skip(i as int).drop_first() =~= chars@.skip(i + 1));
                assert(crlf@ + (seq![chars@[i as int]] + replace_crlf(chars@.skip(i + 1)))
                    =~= crlf@.push(chars@[i as int]) + replace_crlf(chars@.skip(i + 1)));
            }
            crlf.push(chars[i]);
            i = i + 1;
        }
    }
    assert(chars@.skip(i as int) =~= Seq::<char>::empty());
    assert(crlf@ + Seq::<char>::empty() =~= crlf@);
    // remaining `\r` to `\n`
    let mut out: Vec<char> = Vec::new();
    let mut j: usize = 0;
    while j < crlf.len()
        invariant
            j <= crlf.len(),
            out@ =~= replace_cr(crlf@.take(j as int)),
        decreases crlf.len() - j,
    {
        let c = crlf[j];
        if c == '\r' {
            out.push('\n');
        } else {
            out.push(c);
        }
        assert(crlf@.take(j + 1) =~= crlf@.take(j as int).push(c));
        j = j + 1;
    }
    assert(crlf@.take(j as int) =~= crlf@);
    string_of_all(&out)
}

/// Parsed dotenv content.
pub struct Dotenv {
    buf: String,
}

impl View for Dotenv {
    type V = Seq<char>;

    /// The content, as the parser reads it.
    closed spec fn view(&self) -> Seq<char> {
        self.buf@
    }
}

/// The next entry of the content `s` from position `pos`, with the
/// environment `env` and the values resolved so far: the entry (where its
/// key starts and ends, and its value), the position after it, and the
/// resolved values after it. Comments are skipped; at the end of the input
/// and at input that does not parse there is no entry, and the position is
/// where the input was left.
pub open spec fn iter_next(
    env: Seq<(Seq<char>, Seq<char>)>,
    s: Seq<char>,
    pos: int,
    resolved: Seq<(Seq<char>, Seq<char>)>,
) -> (Option<(int, int, Seq<char>)>, int, Seq<(Seq<char>, Seq<char>)>)
    decreases s.len() - pos,
{
    if pos < 0 || pos >= s.len() {
        (None, pos, resolved)
    } else {
        match parse_step(Scope { env, resolved }, s, pos) {
            Parsed::Comment(j) => if pos < j <= s.len() {
                iter_next(env, s, j, resolved)
            } else {
                (None, j, resolved)
            },
            Parsed::Entry(ks, ke, t, j) => (
                Some((ks, ke, t)),
                j,
                resolved.push((s.subrange(ks, ke), t)),
            ),
            Parsed::Fail(f) => (None, f, resolved),
        }
    }
}

/// One step of the parser moves forward and stays inside the input.
pub proof fn lemma_parse_step_bounds(scope: Scope, s: Seq<char>, i: int)
    requires
        0 <= i < s.len(),
    ensures
        match parse_step(scope, s, i) {
            Parsed::Comment(j) => i < j <= s.len(),
            Parsed::Entry(ks, ke, t, j) => i <= ks < ke < j <= s.len(),
            Parsed::Fail(f) => i <= f <= s.len(),
        },
{
    let n = s.len() as int;
    lemma_bscan(s, i, n, |c: char| crate::parse::is_multispace(c));
    let p0 = scan_multispace(s, i, n);
    if p0 < n && s[p0] == '#' {
        lemma_bscan(s, p0 + 1, n, |c: char| c != '\n' && c != '\r');
        let j = scan_line(s, p0 + 1, n);
        lemma_bscan(s, j, n, |c: char| crate::parse::is_multispace(c));
    }
    lemma_kv_line_bounds(scope, s, p0);
    if let Ok((ks, ke, t, end)) = crate::parse::kv_line(scope, s, p0) {
        lemma_bscan(s, end, n, |c: char| crate::parse::is_multispace(c));
    }
}

/// Reading moves forward and stays inside the input.
pub proof fn lemma_iter_next(
    env: Seq<(Seq<char>, Seq<char>)>,
    s: Seq<char>,
    pos: int,
    resolved: Seq<(Seq<char>, Seq<char>)>,
)
    requires
        0 <= pos <= s.len(),
    ensures
        pos <= iter_next(env, s, pos, resolved).1 <= s.len(),
        iter_next(env, s, pos, resolved).0 matches Some((ks, ke, t)) ==> pos <= ks < ke < iter_next(
            env,
            s,
            pos,
            resolved,
        ).1,
    decreases s.len() - pos,
{
    if pos < s.len() {
        lemma_parse_step_bounds(Scope { env, resolved }, s, pos);
        if let Parsed::Comment(j) = parse_step(Scope { env, resolved }, s, pos) {
            lemma_iter_next(env, s, j, resolved);
        }
    }
}

/// The environment after setting the entries of `s` from `pos` on, each
/// entry parsed with the environment as the earlier ones left it: with
/// `override_env`, every entry is set; without, only the entries whose key
/// is not in the environment yet.
pub open spec fn set_run(
    env: Seq<(Seq<char>, Seq<char>)>,
    s: Seq<char>,
    pos: int,
    resolved: Seq<(Seq<char>, Seq<char>)>,
    override_env: bool,
) -> Seq<(Seq<char>, Seq<char>)>
    decreases s.len() - pos,
{
    let (item, q, r2) = iter_next(env, s, pos, resolved);
    match item {
        None => env,
        Some((ks, ke, t)) => {
            let key = s.subrange(ks, ke);
            let env2 = if override_env || assoc_get(env, key) is None {
                env.push((key, t))
            } else {
                env
            };
            if pos < q <= s.len() {
                set_run(env2, s, q, r2, override_env)
            } else {
                env2
            }
        },
    }
}

impl Dotenv {
    /// Parsed content of `buf`: a leading byte order mark is dropped and
    /// line endings are normalised to `\n`.
    pub fn new(buf: String) -> (res: Dotenv)
        ensures
            res@ == normalize(buf@),
    {
        Dotenv { buf: normalize_input(buf) }
    }

    /// An iterator over the entries; substitutions read `env` first, then
    /// the entries yielded before.
    pub fn iter<'a>(&'a self, env: &'a Environment) -> (res: Iter<'a>)
        ensures
            res.wf(),
            res.input() == self@,
            res.position() == 0,
            res.env() == env@,
            res.resolved() == Seq::<(Seq<char>, Seq<char>)>::empty(),
    {
        Iter::new(self.buf.as_str(), env)
    }

    /// Loads the entries into `env`, keeping the variables that are
    /// already set. Each entry is parsed with the environment as the
    /// entries before it left it.
    pub fn load(self, env: &mut Environment)
        ensures
            final(env)@ == set_run(old(env)@, self@, 0, Seq::empty(), false),
    {
        self.set_vars(false, env)
    }

    /// Loads the entries into `env`, overwriting the variables that are
    /// already set.
    pub fn load_override(self, env: &mut Environment)
        ensures
            final(env)@ == set_run(old(env)@, self@, 0, Seq::empty(), true),
    {
        self.set_vars(true, env)
    }

    fn set_vars(self, override_env: bool, env: &mut Environment)
        ensures
            final(env)@ == set_run(old(env)@, self@, 0, Seq::empty(), override_env),
    {
        let s = chars_of(self.buf.as_str());
        let mut resolved = Vars::new();
        let mut pos: usize = 0;
        loop
            invariant
                pos <= s.len(),
                s@ == self@,
                set_run(old(env)@, s@, 0, Seq::empty(), override_env) == set_run(
                    env@,
                    s@,
                    pos as int,
                    resolved@,
                    override_env,
                ),
            decreases s.len() - pos,
        {
            let ghost e0 = env@;
            let ghost r0 = resolved@;
            proof {
                lemma_iter_next(e0, s@, pos as int, r0);
            }
            match next_entry(&s, &mut pos, env, &mut resolved) {
                None => return ,
                Some((ks, ke, value)) => {
                    let key = crate::text::string_of(&s, ks, ke);
                    if override_env || env.get(key.as_str()).is_none() {
                        env.set(key.as_str(), string_of_all(&value).as_str());
                    }
                },
            }
        }
    }
}

/// Reads the next entry of `s` from `*pos`, recording its value in `resolved`.
fn next_entry(s: &Vec<char>, pos: &mut usize, env: &Environment, resolved: &mut Vars) -> (res:
    Option<(usize, usize, Vec<char>)>)
    requires
        *old(pos) <= s.len(),
    ensures
        ({
            let (item, q, r2) = iter_next(env@, s@, *old(pos) as int, old(resolved)@);
            &&& *final(pos) == q
            &&& final(resolved)@ == r2
            &&& match item {
                None => res is None,
                Some((ks, ke, t)) => res matches Some((a, b, v)) && a == ks && b == ke && v@ == t,
            }
        }),
{
    let ghost p0 = *pos as int;
    proof {
        lemma_iter_next(env@, s@, p0, resolved@);
    }
    while *pos < s.len()
        invariant
            *pos <= s.len(),
            p0 == *old(pos),
            iter_next(env@, s@, p0, old(resolved)@) == iter_next(env@, s@, *pos as int, resolved@),
            resolved@ == old(resolved)@,
        decreases s.len() - *pos,
    {
        proof {
            lemma_parse_step_bounds(Scope { env: env@, resolved: resolved@ }, s@, *pos as int);
        }
        match parse_step_exec(env, resolved, s, *pos) {
            Step::Entry(ks, ke, value, j) => {
                let key = crate::parse::slice_chars(s, ks, ke);
                let copy = value.clone();
                assert(copy@ =~= value@);
                resolved.set_chars(key, copy);
                *pos = j;
                return Some((ks, ke, value));
            },
            Step::Comment(j) => {
                *pos = j;
            },
            Step::Fail(f) => {
                *pos = f;
                return None;
            },
        }
    }
    None
}

/// An iterator over the entries of parsed content. Substitutions are
/// resolved against the environment and the entries yielded before.
pub struct Iter<'a> {
    resolved: Vars,
    input: &'a str,
    chars: Vec<char>,
    pos: usize,
    env: &'a Environment,
}

impl<'a> Iter<'a> {
    /// The content.
    pub closed spec fn input(&self) -> Seq<char> {
        self.input@
    }

    /// Where reading stands.
    pub closed spec fn position(&self) -> int {
        self.pos as int
    }

    /// The environment that substitutions read.
    pub closed spec fn env(&self) -> Seq<(Seq<char>, Seq<char>)> {
        self.env@
    }

    /// The entries yielded so far, with their values.
    pub closed spec fn resolved(&self) -> Seq<(Seq<char>, Seq<char>)> {
        self.resolved@
    }

    /// The iterator is well formed.
    pub closed spec fn wf(&self) -> bool {
        &&& self.chars@ == self.input@
        &&& self.pos <= self.chars.len()
    }

    pub(crate) fn new(input: &'a str, env: &'a Environment) -> (res: Iter<'a>)
        ensures
            res.wf(),
            res.input() == input@,
            res.position() == 0,
            res.env() == env@,
            res.resolved() == Seq::<(Seq<char>, Seq<char>)>::empty(),
    {
        Iter { resolved: Vars::new(), input, chars: chars_of(input), pos: 0, env }
    }

    /// The next entry: its key and its value, with substitutions resolved.
    /// `None` at the end of the input or at input that does not parse.
    pub fn next(&mut self) -> (res: Option<(&'a str, String)>)
        requires
            old(self).wf(),
        ensures
            final(self).wf(),
            final(self).input() == old(self).input(),
            final(self).env() == old(self).env(),
            ({
                let (item, q, r2) = iter_next(
                    old(self).env(),
                    old(self).input(),
                    old(self).position(),
                    old(self).resolved(),
                );
                &&& final(self).position() == q
                &&& final(self).resolved() == r2
                &&& match item {
                    None => res is None,
                    Some((ks, ke, t)) => res matches Some((k, v)) && k@ == old(self).input().subrange(
                        ks,
                        ke,
                    ) && v@ == t,
                }
            }),
    {
        proof {
            lemma_iter_next(self.env@, self.chars@, self.pos as int, self.resolved@);
        }
        match next_entry(&self.chars, &mut self.pos, self.env, &mut self.resolved) {
            None => None,
            Some((ks, ke, value)) => {
                let key = self.input.substring_char(ks, ke);
                Some((key, string_of_all(&value)))
            },
        }
    }
}

} // verus!
