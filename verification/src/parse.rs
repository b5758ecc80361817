//! The `.env` grammar: comment lines and `KEY=value` entries with an
//! optional `export` prefix; single-quoted, double-quoted, backtick-quoted
//! and unquoted values; escapes and `$VAR`, `${VAR}`, `${VAR:-fallback}`
//! substitutions, resolved as they are read.
//!
//! Positions index the characters of the whole input; a region `[i, e)` is
//! the part of it that a sub-parser may read.

use vstd::prelude::*;
use crate::text::{
    char_is_ascii_alnum, char_is_ascii_alpha, char_is_whitespace, has_at, is_ascii_alnum,
    is_ascii_alpha, is_whitespace, push_str_chars,
};
use crate::vars::{assoc_get, Vars};

verus! {

/// What a substitution reads: the environment and the values resolved so far.
pub struct Scope {
    pub env: Seq<(Seq<char>, Seq<char>)>,
    pub resolved: Seq<(Seq<char>, Seq<char>)>,
}

/// The end of the run of characters of `s[i..e]` that satisfy `p`.
pub open spec fn bscan(s: Seq<char>, i: int, e: int, p: spec_fn(char) -> bool) -> int
    decreases e - i,
{
    if 0 <= i < e && i < s.len() && p(s[i]) {
        bscan(s, i + 1, e, p)
    } else {
        i
    }
}

/// A run stays inside its region and its characters satisfy `p`.
pub proof fn lemma_bscan(s: Seq<char>, i: int, e: int, p: spec_fn(char) -> bool)
    requires
        0 <= i <= e <= s.len(),
    ensures
        i <= bscan(s, i, e, p) <= e,
        bscan(s, i, e, p) < e ==> !p(s[bscan(s, i, e, p)]),
        forall|j: int| i <= j < bscan(s, i, e, p) ==> p(#[trigger] s[j]),
    decreases e - i,
{
    if i < e && p(s[i]) {
        lemma_bscan(s, i + 1, e, p);
    }
}

/// `scan_to` stays inside its region.
pub proof fn lemma_scan_to(s: Seq<char>, i: int, e: int, q: char)
    requires
        0 <= i <= e <= s.len(),
    ensures
        i <= scan_to(s, i, e, q) <= e,
        scan_to(s, i, e, q) < e ==> s[scan_to(s, i, e, q)] == q,
    decreases e - i,
{
    if i < e && s[i] != q {
        lemma_scan_to(s, i + 1, e, q);
    }
}

/// A key starts with an ASCII letter or `_`.
pub open spec fn is_key_start(c: char) -> bool {
    is_ascii_alpha(c) || c == '_'
}

/// A key goes on with ASCII letters, digits and `_`.
pub open spec fn is_key_char(c: char) -> bool {
    is_ascii_alnum(c) || c == '_'
}

/// Space or tab.
pub open spec fn is_space(c: char) -> bool {
    c == ' ' || c == '\t'
}

/// Space, tab, carriage return or line feed.
pub open spec fn is_multispace(c: char) -> bool {
    c == ' ' || c == '\t' || c == '\r' || c == '\n'
}

/// The end of the key characters from `i`.
pub open spec fn scan_key(s: Seq<char>, i: int, e: int) -> int {
    bscan(s, i, e, |c: char| is_key_char(c))
}

/// The end of the spaces and tabs from `i`.
pub open spec fn scan_space(s: Seq<char>, i: int, e: int) -> int {
    bscan(s, i, e, |c: char| is_space(c))
}

/// The end of the spaces, tabs and line breaks from `i`.
pub open spec fn scan_multispace(s: Seq<char>, i: int, e: int) -> int {
    bscan(s, i, e, |c: char| is_multispace(c))
}

/// The end of the Unicode whitespace from `i`.
pub open spec fn scan_whitespace(s: Seq<char>, i: int, e: int) -> int {
    bscan(s, i, e, |c: char| is_whitespace(c))
}

/// The first occurrence of `q` at or after `i`, or `e`.
pub open spec fn scan_to(s: Seq<char>, i: int, e: int, q: char) -> int {
    bscan(s, i, e, |c: char| c != q)
}

/// The first `$` or `}` at or after `i`, or `e`.
pub open spec fn scan_fallback_text(s: Seq<char>, i: int, e: int) -> int {
    bscan(s, i, e, |c: char| c != '$' && c != '}')
}

/// The first `\` or `$` at or after `i`, or `e`.
pub open spec fn scan_text(s: Seq<char>, i: int, e: int) -> int {
    bscan(s, i, e, |c: char| c != '\\' && c != '$')
}

/// The first line break or `#` at or after `i`, or `e`.
pub open spec fn scan_unquoted(s: Seq<char>, i: int, e: int) -> int {
    bscan(s, i, e, |c: char| c != '\n' && c != '\r' && c != '#')
}

/// The first line break at or after `i`, or `e`.
pub open spec fn scan_line(s: Seq<char>, i: int, e: int) -> int {
    bscan(s, i, e, |c: char| c != '\n' && c != '\r')
}

/// The start of the trailing Unicode whitespace of `s[a..b]`.
pub open spec fn trim_back(s: Seq<char>, a: int, b: int) -> int
    decreases b - a,
{
    if a < b && 0 < b <= s.len() && is_whitespace(s[b - 1]) {
        trim_back(s, a, b - 1)
    } else {
        b
    }
}

/// The end of a key that starts at `i`, if one does.
pub open spec fn key_at(s: Seq<char>, i: int, e: int) -> Option<int> {
    if 0 <= i < e && i < s.len() && is_key_start(s[i]) {
        Some(scan_key(s, i, e))
    } else {
        None
    }
}

/// The value of a variable as a substitution sees it: from the
/// environment, else from the values resolved so far; an empty value
/// counts as none.
pub open spec fn resolve_var(scope: Scope, name: Seq<char>) -> Option<Seq<char>> {
    let v = match assoc_get(scope.env, name) {
        Some(x) => Some(x),
        None => assoc_get(scope.resolved, name),
    };
    match v {
        Some(x) => if x.len() > 0 {
            Some(x)
        } else {
            None
        },
        None => None,
    }
}

/// What a substitution of `name` gives: the variable's value, else the
/// fallback, else nothing.
pub open spec fn resolve_sub(scope: Scope, name: Seq<char>, fallback: Option<Seq<char>>) -> Seq<
    char,
> {
    match resolve_var(scope, name) {
        Some(v) => v,
        None => match fallback {
            Some(f) => f,
            None => Seq::empty(),
        },
    }
}

/// A substitution at `i` in `[i, e)`: `${NAME}`, `${NAME:-fallback}` or
/// `$NAME`. Its resolved text and its end, if one stands there.
pub open spec fn substitution(scope: Scope, s: Seq<char>, i: int, e: int) -> Option<
    (Seq<char>, int),
>
    decreases e - i, 0int,
{
    let braced = if has_at(s, i, "${"@) && i + 2 <= e {
        match key_at(s, i + 2, e) {
            Some(j) => if has_at(s, j, ":-"@) && j + 2 <= e && i < j {
                let (fb, m) = fallback(scope, s, j + 2, e);
                if 0 <= m < e && m < s.len() && s[m] == '}' {
                    Some((resolve_sub(scope, s.subrange(i + 2, j), Some(fb)), m + 1))
                } else {
                    None
                }
            } else if 0 <= j < e && j < s.len() && s[j] == '}' {
                Some((resolve_sub(scope, s.subrange(i + 2, j), None), j + 1))
            } else {
                None
            },
            None => None,
        }
    } else {
        None
    };
    match braced {
        Some(r) => Some(r),
        None => if 0 <= i < e && i < s.len() && s[i] == '$' {
            match key_at(s, i + 1, e) {
                Some(j) => Some((resolve_sub(scope, s.subrange(i + 1, j), None), j)),
                None => None,
            }
        } else {
            None
        },
    }
}

/// The fallback of `${NAME:-fallback}` from `i`: substitutions and text up
/// to a `}` or a `$` that starts no substitution. Its resolved text and
/// its end.
pub open spec fn fallback(scope: Scope, s: Seq<char>, i: int, e: int) -> (Seq<char>, int)
    decreases e - i, 1int,
{
    if i < 0 || i >= e || i >= s.len() {
        (Seq::empty(), i)
    } else {
        match substitution(scope, s, i, e) {
            Some((t, j)) => if i < j <= e {
                let (r, m) = fallback(scope, s, j, e);
                (t + r, m)
            } else {
                (Seq::empty(), i)
            },
            None => {
                let j = scan_fallback_text(s, i, e);
                if i < j <= e {
                    let (r, m) = fallback(scope, s, j, e);
                    (s.subrange(i, j) + r, m)
                } else {
                    (Seq::empty(), i)
                }
            },
        }
    }
}

/// Whether `\c` is an escape: `\\`, `\$`, `\n`, and in double quotes `\r`.
pub open spec fn is_escape(c: char, in_quotes: bool) -> bool {
    c == '\\' || c == '$' || c == 'n' || (in_quotes && c == 'r')
}

/// What the escape `\c` stands for. `\n` is a line feed in double quotes
/// and stays `\n` elsewhere.
pub open spec fn escape_text(c: char, in_quotes: bool) -> Seq<char> {
    if c == '\\' {
        seq!['\\']
    } else if c == '$' {
        seq!['$']
    } else if c == 'n' {
        if in_quotes {
            seq!['\n']
        } else {
            seq!['\\', 'n']
        }
    } else {
        seq!['\r']
    }
}

/// The text of the value content `s[i..e]`: substitutions, escapes and
/// plain text, read for as long as one of them stands next; the rest of
/// the content is dropped.
pub open spec fn expand(scope: Scope, s: Seq<char>, i: int, e: int, in_quotes: bool) -> Seq<char>
    decreases e - i,
{
    if i < 0 || i >= e || i >= s.len() {
        Seq::empty()
    } else {
        match substitution(scope, s, i, e) {
            Some((t, j)) => if i < j <= e {
                t + expand(scope, s, j, e, in_quotes)
            } else {
                Seq::empty()
            },
            None => if s[i] == '\\' && i + 1 < e && i + 1 < s.len() && is_escape(
                s[i + 1],
                in_quotes,
            ) {
                escape_text(s[i + 1], in_quotes) + expand(scope, s, i + 2, e, in_quotes)
            } else {
                let j = scan_text(s, i, e);
                if i < j <= e {
                    s.subrange(i, j) + expand(scope, s, j, e, in_quotes)
                } else {
                    Seq::empty()
                }
            },
        }
    }
}

/// The value from `i`: its resolved text and its end, or the position at
/// which parsing stopped (a single quote or backtick that is never closed).
pub open spec fn value(scope: Scope, s: Seq<char>, i: int) -> Result<(Seq<char>, int), int> {
    let n = s.len() as int;
    if i < 0 || i >= n {
        Ok((Seq::empty(), i))
    } else if s[i] == '\'' || s[i] == '`' {
        let j = scan_to(s, i + 1, n, s[i]);
        if j < n {
            Ok((s.subrange(i + 1, j), j + 1))
        } else {
            Err(n)
        }
    } else if s[i] == '"' {
        let j = scan_to(s, i + 1, n, '"');
        if j < n {
            Ok((expand(scope, s, i + 1, j, true), j + 1))
        } else {
            Ok(unquoted(scope, s, i))
        }
    } else {
        Ok(unquoted(scope, s, i))
    }
}

/// An unquoted value from `i`: the text up to a line break or `#`, trimmed,
/// and its end. A double quote that is never closed is read this way too,
/// the quote being part of the text.
pub open spec fn unquoted(scope: Scope, s: Seq<char>, i: int) -> (Seq<char>, int) {
    let n = s.len() as int;
    let j = scan_unquoted(s, i, n);
    let a = scan_whitespace(s, i, j);
    let b = trim_back(s, a, j);
    (expand(scope, s, a, b, false), j)
}

/// An entry `[export ]KEY = value` from `p`: where its key starts and ends,
/// its value's text and its end; or the position at which parsing stopped.
pub open spec fn kv_line(scope: Scope, s: Seq<char>, p: int) -> Result<
    (int, int, Seq<char>, int),
    int,
> {
    let n = s.len() as int;
    let p1 = if has_at(s, p, "export"@) && p + 6 < n && is_space(s[p + 6]) {
        scan_space(s, p + 6, n)
    } else {
        p
    };
    match key_at(s, p1, n) {
        None => Err(p1),
        Some(k) => {
            let q = scan_space(s, k, n);
            if !(0 <= q < n && s[q] == '=') {
                Err(q)
            } else {
                let r = scan_space(s, q + 1, n);
                match value(scope, s, r) {
                    Err(f) => Err(f),
                    Ok((t, end)) => Ok((p1, k, t, end)),
                }
            }
        },
    }
}

/// A comment `#...` from `p`: its end, at the line break. A comment that
/// ends in a carriage return not followed by a line feed does not parse.
pub open spec fn comment(s: Seq<char>, p: int) -> Option<int> {
    let n = s.len() as int;
    if 0 <= p < n && s[p] == '#' {
        let j = scan_line(s, p + 1, n);
        if j < n && s[j] == '\r' && !(j + 1 < n && s[j + 1] == '\n') {
            None
        } else {
            Some(j)
        }
    } else {
        None
    }
}

/// What one step of the parser gives from `i`.
pub enum Parsed {
    /// A comment, and where parsing goes on.
    Comment(int),
    /// An entry: where its key starts and ends, its value's text, and where
    /// parsing goes on.
    Entry(int, int, Seq<char>, int),
    /// Nothing parses; where the input was left.
    Fail(int),
}

/// One step of the parser from `i`: surrounding whitespace and line breaks,
/// then a comment or an entry.
pub open spec fn parse_step(scope: Scope, s: Seq<char>, i: int) -> Parsed {
    let n = s.len() as int;
    let p0 = scan_multispace(s, i, n);
    match comment(s, p0) {
        Some(j) => Parsed::Comment(scan_multispace(s, j, n)),
        None => match kv_line(scope, s, p0) {
            Ok((ks, ke, t, end)) => Parsed::Entry(ks, ke, t, scan_multispace(s, end, n)),
            Err(f) => Parsed::Fail(f),
        },
    }
}

/// Substitutions and fallbacks move forward and stay inside their region.
pub proof fn lemma_substitution_bounds(scope: Scope, s: Seq<char>, i: int, e: int)
    requires
        0 <= i <= e <= s.len(),
    ensures
        substitution(scope, s, i, e) matches Some((t, j)) ==> i < j <= e,
    decreases e - i, 0int,
{
    if has_at(s, i, "${"@) && i + 2 <= e {
        if let Some(j) = key_at(s, i + 2, e) {
            lemma_bscan(s, i + 2, e, |c: char| is_key_char(c));
            if has_at(s, j, ":-"@) && j + 2 <= e && i < j {
                lemma_fallback_bounds(scope, s, j + 2, e);
            }
        }
    }
    if 0 <= i < e && s[i] == '$' {
        if let Some(j) = key_at(s, i + 1, e) {
            lemma_bscan(s, i + 1, e, |c: char| is_key_char(c));
        }
    }
}

/// A fallback ends inside its region.
pub proof fn lemma_fallback_bounds(scope: Scope, s: Seq<char>, i: int, e: int)
    requires
        0 <= i <= e <= s.len(),
    ensures
        i <= fallback(scope, s, i, e).1 <= e,
    decreases e - i, 1int,
{
    if i < e {
        lemma_substitution_bounds(scope, s, i, e);
        match substitution(scope, s, i, e) {
            Some((t, j)) => {
                lemma_fallback_bounds(scope, s, j, e);
            },
            None => {
                lemma_bscan(s, i, e, |c: char| c != '$' && c != '}');
                let j = scan_fallback_text(s, i, e);
                if i < j {
                    lemma_fallback_bounds(scope, s, j, e);
                }
            },
        }
    }
}

/// A two-character literal stands at `i` when both its characters do.
pub proof fn lemma_has_at2(s: Seq<char>, i: int, lit: Seq<char>)
    requires
        lit.len() == 2,
        0 <= i,
        i + 2 <= s.len(),
    ensures
        has_at(s, i, lit) <==> (s[i] == lit[0] && s[i + 1] == lit[1]),
{
    if s[i] == lit[0] && s[i + 1] == lit[1] {
        assert(s.subrange(i, i + 2) =~= lit);
    }
    if has_at(s, i, lit) {
        assert(s.subrange(i, i + 2)[0] == s[i]);
        assert(s.subrange(i, i + 2)[1] == s[i + 1]);
    }
}

/// The scope that `env` and `resolved` make.
pub open spec fn scope_of(env: &Vars, resolved: &Vars) -> Scope {
    Scope { env: env@, resolved: resolved@ }
}

/// The end of a key that starts at `i`, if one does.
fn key_end(s: &Vec<char>, i: usize, e: usize) -> (r: Option<usize>)
    requires
        i <= e <= s.len(),
    ensures
        match key_at(s@, i as int, e as int) {
            Some(j) => r == Some(j as usize),
            None => r is None,
        },
{
    if !(i < e && (char_is_ascii_alpha(s[i]) || s[i] == '_')) {
        return None;
    }
    let mut j = i;
    while j < e && (char_is_ascii_alnum(s[j]) || s[j] == '_')
        invariant
            i <= j <= e <= s.len(),
            scan_key(s@, i as int, e as int) == scan_key(s@, j as int, e as int),
        decreases e - j,
    {
        j = j + 1;
    }
    Some(j)
}

/// The end of the spaces and tabs from `i`.
fn skip_space(s: &Vec<char>, i: usize, e: usize) -> (r: usize)
    requires
        i <= e <= s.len(),
    ensures
        r == scan_space(s@, i as int, e as int),
        i <= r <= e,
{
    let mut j = i;
    while j < e && (s[j] == ' ' || s[j] == '\t')
        invariant
            i <= j <= e <= s.len(),
            scan_space(s@, i as int, e as int) == scan_space(s@, j as int, e as int),
        decreases e - j,
    {
        j = j + 1;
    }
    j
}

/// The end of the spaces, tabs and line breaks from `i`.
fn skip_multispace(s: &Vec<char>, i: usize, e: usize) -> (r: usize)
    requires
        i <= e <= s.len(),
    ensures
        r == scan_multispace(s@, i as int, e as int),
        i <= r <= e,
{
    let mut j = i;
    while j < e && (s[j] == ' ' || s[j] == '\t' || s[j] == '\r' || s[j] == '\n')
        invariant
            i <= j <= e <= s.len(),
            scan_multispace(s@, i as int, e as int) == scan_multispace(s@, j as int, e as int),
        decreases e - j,
    {
        j = j + 1;
    }
    j
}

/// The first `q` at or after `i`, or `e`.
fn find_char(s: &Vec<char>, i: usize, e: usize, q: char) -> (r: usize)
    requires
        i <= e <= s.len(),
    ensures
        r == scan_to(s@, i as int, e as int, q),
        i <= r <= e,
{
    let mut j = i;
    while j < e && s[j] != q
        invariant
            i <= j <= e <= s.len(),
            scan_to(s@, i as int, e as int, q) == scan_to(s@, j as int, e as int, q),
        decreases e - j,
    {
        j = j + 1;
    }
    j
}

/// The characters `s[i..j]`.
pub(crate) fn slice_chars(s: &Vec<char>, i: usize, j: usize) -> (r: Vec<char>)
    requires
        i <= j <= s.len(),
    ensures
        r@ == s@.subrange(i as int, j as int),
{
    let mut r: Vec<char> = Vec::new();
    let mut k = i;
    while k < j
        invariant
            i <= k <= j <= s.len(),
            r@ == s@.subrange(i as int, k as int),
        decreases j - k,
    {
        r.push(s[k]);
        assert(s@.subrange(i as int, k + 1) =~= s@.subrange(i as int, k as int).push(s@[k as int]));
        k = k + 1;
    }
    r
}

/// What a substitution of `name` gives.
fn resolve_sub_exec(env: &Vars, resolved: &Vars, name: &Vec<char>, fallback: Option<Vec<char>>) -> (r:
    Vec<char>)
    ensures
        r@ == resolve_sub(scope_of(env, resolved), name@, opt_seq(fallback)),
{
    let found = match env.lookup(name) {
        Some(v) => Some(v),
        None => resolved.lookup(name),
    };
    match found {
        Some(v) => {
            if v.len() > 0 {
                return v.clone();
            }
        },
        None => {},
    }
    match fallback {
        Some(f) => f,
        None => Vec::new(),
    }
}

/// The view of an optional character vector.
pub open spec fn opt_seq(o: Option<Vec<char>>) -> Option<Seq<char>> {
    match o {
        Some(v) => Some(v@),
        None => None,
    }
}

/// Reads a substitution at `i`.
fn substitution_exec(env: &Vars, resolved: &Vars, s: &Vec<char>, i: usize, e: usize) -> (r: Option<
    (Vec<char>, usize),
>)
    requires
        i <= e <= s.len(),
    ensures
        match substitution(scope_of(env, resolved), s@, i as int, e as int) {
            Some((t, j)) => r matches Some((v, k)) && v@ == t && k == j,
            None => r is None,
        },
    decreases e - i, 0int,
{
    let ghost sc = scope_of(env, resolved);
    proof {
        lemma_substitution_bounds(sc, s@, i as int, e as int);
    }
    proof {
        reveal_strlit("${");
        reveal_strlit(":-");
        if i + 2 <= s.len() {
            lemma_has_at2(s@, i as int, "${"@);
        }
    }
    if e - i >= 2 && s[i] == '$' && s[i + 1] == '{' {
        if let Some(j) = key_end(s, i + 2, e) {
            proof {
                lemma_bscan(s@, i + 2, e as int, |c: char| is_key_char(c));
                if j + 2 <= s.len() {
                    lemma_has_at2(s@, j as int, ":-"@);
                }
            }
            let name = slice_chars(s, i + 2, j);
            let colon = e - j >= 2 && s[j] == ':' && s[j + 1] == '-';
            if colon {
                let (fb, m) = fallback_exec(env, resolved, s, j + 2, e);
                proof {
                    lemma_fallback_bounds(sc, s@, j + 2, e as int);
                }
                if m < e && s[m] == '}' {
                    return Some((resolve_sub_exec(env, resolved, &name, Some(fb)), m + 1));
                }
            } else if j < e && s[j] == '}' {
                return Some((resolve_sub_exec(env, resolved, &name, None), j + 1));
            }
        }
    }
    if i < e && s[i] == '$' {
        if let Some(j) = key_end(s, i + 1, e) {
            let name = slice_chars(s, i + 1, j);
            return Some((resolve_sub_exec(env, resolved, &name, None), j));
        }
    }
    None
}

/// Reads a fallback from `i`.
fn fallback_exec(env: &Vars, resolved: &Vars, s: &Vec<char>, i: usize, e: usize) -> (r: (
    Vec<char>,
    usize,
))
    requires
        i <= e <= s.len(),
    ensures
        r.0@ == fallback(scope_of(env, resolved), s@, i as int, e as int).0,
        r.1 == fallback(scope_of(env, resolved), s@, i as int, e as int).1,
    decreases e - i, 1int,
{
    let ghost sc = scope_of(env, resolved);
    let mut out: Vec<char> = Vec::new();
    let mut k = i;
    loop
        invariant
            i <= k <= e <= s.len(),
            sc == scope_of(env, resolved),
            fallback(sc, s@, i as int, e as int).0 == out@ + fallback(sc, s@, k as int, e as int).0,
            fallback(sc, s@, i as int, e as int).1 == fallback(sc, s@, k as int, e as int).1,
        decreases e - k,
    {
        if k >= e {
            assert(out@ + Seq::<char>::empty() =~= out@);
            return (out, k);
        }
        proof {
            lemma_substitution_bounds(sc, s@, k as int, e as int);
        }
        match substitution_exec(env, resolved, s, k, e) {
            Some((t, j)) => {
                proof {
                    assert(out@ + (t@ + fallback(sc, s@, j as int, e as int).0) =~= (out@ + t@)
                        + fallback(sc, s@, j as int, e as int).0);
                }
                push_str_chars(&mut out, &t);
                k = j;
            },
            None => {
                let mut j = k;
                while j < e && s[j] != '$' && s[j] != '}'
                    invariant
                        k <= j <= e <= s.len(),
                        scan_fallback_text(s@, k as int, e as int) == scan_fallback_text(
                            s@,
                            j as int,
                            e as int,
                        ),
                    decreases e - j,
                {
                    j = j + 1;
                }
                if j > k {
                    let piece = slice_chars(s, k, j);
                    proof {
                        assert(out@ + (piece@ + fallback(sc, s@, j as int, e as int).0) =~= (out@
                            + piece@) + fallback(sc, s@, j as int, e as int).0);
                    }
                    push_str_chars(&mut out, &piece);
                    k = j;
                } else {
                    assert(out@ + Seq::<char>::empty() =~= out@);
                    return (out, k);
                }
            },
        }
    }
}

/// Whether `s[i..]` starts with the characters of `lit`.
fn starts_with_at(s: &Vec<char>, i: usize, lit: &Vec<char>) -> (r: bool)
    requires
        i <= s.len(),
    ensures
        r == has_at(s@, i as int, lit@),
{
    if lit.len() > s.len() - i {
        return false;
    }
    let mut k: usize = 0;
    while k < lit.len()
        invariant
            i + lit.len() <= s.len(),
            k <= lit.len(),
            forall|m: int| 0 <= m < k ==> s@[i + m] == lit@[m],
        decreases lit.len() - k,
    {
        if s[i + k] != lit[k] {
            assert(s@.subrange(i as int, i + lit.len())[k as int] == s@[i + k]);
            return false;
        }
        k = k + 1;
    }
    assert(s@.subrange(i as int, i + lit.len()) =~= lit@);
    true
}

/// Reads the content `s[i..e]` of a value.
fn expand_exec(env: &Vars, resolved: &Vars, s: &Vec<char>, i: usize, e: usize, in_quotes: bool) -> (r:
    Vec<char>)
    requires
        i <= e <= s.len(),
    ensures
        r@ == expand(scope_of(env, resolved), s@, i as int, e as int, in_quotes),
{
    let ghost sc = scope_of(env, resolved);
    let mut out: Vec<char> = Vec::new();
    let mut k = i;
    loop
        invariant
            i <= k <= e <= s.len(),
            sc == scope_of(env, resolved),
            expand(sc, s@, i as int, e as int, in_quotes) == out@ + expand(
                sc,
                s@,
                k as int,
                e as int,
                in_quotes,
            ),
        decreases e - k,
    {
        if k >= e {
            assert(out@ + Seq::<char>::empty() =~= out@);
            return out;
        }
        proof {
            lemma_substitution_bounds(sc, s@, k as int, e as int);
        }
        match substitution_exec(env, resolved, s, k, e) {
            Some((t, j)) => {
                proof {
                    assert(out@ + (t@ + expand(sc, s@, j as int, e as int, in_quotes)) =~= (out@
                        + t@) + expand(sc, s@, j as int, e as int, in_quotes));
                }
                push_str_chars(&mut out, &t);
                k = j;
            },
            None => {
                if s[k] == '\\' && e - k >= 2 && (s[k + 1] == '\\' || s[k + 1] == '$' || s[k + 1]
                    == 'n' || (in_quotes && s[k + 1] == 'r')) {
                    let c = s[k + 1];
                    let mut piece: Vec<char> = Vec::new();
                    if c == '\\' {
                        piece.push('\\');
                    } else if c == '$' {
                        piece.push('$');
                    } else if c == 'n' {
                        if in_quotes {
                            piece.push('\n');
                        } else {
                            piece.push('\\');
                            piece.push('n');
                        }
                    } else {
                        piece.push('\r');
                    }
                    proof {
                        assert(piece@ =~= escape_text(c, in_quotes));
                        assert(out@ + (piece@ + expand(sc, s@, k + 2, e as int, in_quotes)) =~= (out@
                            + piece@) + expand(sc, s@, k + 2, e as int, in_quotes));
                    }
                    push_str_chars(&mut out, &piece);
                    k = k + 2;
                } else {
                    let mut j = k;
                    while j < e && s[j] != '\\' && s[j] != '$'
                        invariant
                            k <= j <= e <= s.len(),
                            scan_text(s@, k as int, e as int) == scan_text(s@, j as int, e as int),
                        decreases e - j,
                    {
                        j = j + 1;
                    }
                    if j > k {
                        let piece = slice_chars(s, k, j);
                        proof {
                            assert(out@ + (piece@ + expand(sc, s@, j as int, e as int, in_quotes))
                                =~= (out@ + piece@) + expand(sc, s@, j as int, e as int, in_quotes));
                        }
                        push_str_chars(&mut out, &piece);
                        k = j;
                    } else {
                        assert(out@ + Seq::<char>::empty() =~= out@);
                        return out;
                    }
                }
            },
        }
    }
}

/// Reads the value from `i`.
fn value_exec(env: &Vars, resolved: &Vars, s: &Vec<char>, i: usize) -> (r: Result<
    (Vec<char>, usize),
    usize,
>)
    requires
        i <= s.len(),
    ensures
        match value(scope_of(env, resolved), s@, i as int) {
            Ok((t, j)) => r matches Ok((v, k)) && v@ == t && k == j,
            Err(f) => r == Err::<(Vec<char>, usize), usize>(f as usize),
        },
{
    let n = s.len();
    if i >= n {
        return Ok((Vec::new(), i));
    }
    let c = s[i];
    if c == '\'' || c == '`' {
        let j = find_char(s, i + 1, n, c);
        if j < n {
            Ok((slice_chars(s, i + 1, j), j + 1))
        } else {
            Err(n)
        }
    } else if c == '"' {
        let j = find_char(s, i + 1, n, '"');
        if j < n {
            Ok((expand_exec(env, resolved, s, i + 1, j, true), j + 1))
        } else {
            Ok(unquoted_exec(env, resolved, s, i))
        }
    } else {
        Ok(unquoted_exec(env, resolved, s, i))
    }
}

/// Reads an unquoted value from `i`.
fn unquoted_exec(env: &Vars, resolved: &Vars, s: &Vec<char>, i: usize) -> (r: (Vec<char>, usize))
    requires
        i <= s.len(),
    ensures
        r.0@ == unquoted(scope_of(env, resolved), s@, i as int).0,
        r.1 == unquoted(scope_of(env, resolved), s@, i as int).1,
{
    let n = s.len();
    let mut j = i;
    while j < n && s[j] != '\n' && s[j] != '\r' && s[j] != '#'
        invariant
            i <= j <= n == s.len(),
            scan_unquoted(s@, i as int, n as int) == scan_unquoted(s@, j as int, n as int),
        decreases n - j,
    {
        j = j + 1;
    }
    let mut a = i;
    while a < j && char_is_whitespace(s[a])
        invariant
            i <= a <= j <= n == s.len(),
            scan_whitespace(s@, i as int, j as int) == scan_whitespace(s@, a as int, j as int),
        decreases j - a,
    {
        a = a + 1;
    }
    let mut b = j;
    while b > a && char_is_whitespace(s[b - 1])
        invariant
            a <= b <= j <= n == s.len(),
            trim_back(s@, a as int, j as int) == trim_back(s@, a as int, b as int),
        decreases b - a,
    {
        b = b - 1;
    }
    (expand_exec(env, resolved, s, a, b, false), j)
}

/// Reads an entry from `p`.
fn kv_line_exec(env: &Vars, resolved: &Vars, s: &Vec<char>, p: usize) -> (r: Result<
    (usize, usize, Vec<char>, usize),
    usize,
>)
    requires
        p <= s.len(),
    ensures
        match kv_line(scope_of(env, resolved), s@, p as int) {
            Ok((ks, ke, t, end)) => r matches Ok((a, b, v, c)) && a == ks && b == ke && v@ == t
                && c == end,
            Err(f) => r == Err::<(usize, usize, Vec<char>, usize), usize>(f as usize),
        },
{
    let n = s.len();
    let export = crate::text::chars_of("export");
    let p1 = if starts_with_at(s, p, &export) && n - p > 6 && (s[p + 6] == ' ' || s[p + 6]
        == '\t') {
        skip_space(s, p + 6, n)
    } else {
        p
    };
    match key_end(s, p1, n) {
        None => Err(p1),
        Some(k) => {
            proof {
                lemma_bscan(s@, p1 as int, n as int, |c: char| is_key_char(c));
            }
            let q = skip_space(s, k, n);
            if !(q < n && s[q] == '=') {
                return Err(q);
            }
            let r = skip_space(s, q + 1, n);
            match value_exec(env, resolved, s, r) {
                Err(f) => Err(f),
                Ok((t, end)) => Ok((p1, k, t, end)),
            }
        },
    }
}

/// Reads a comment from `p`.
fn comment_exec(s: &Vec<char>, p: usize) -> (r: Option<usize>)
    requires
        p <= s.len(),
    ensures
        match comment(s@, p as int) {
            Some(j) => r == Some(j as usize),
            None => r is None,
        },
{
    let n = s.len();
    if !(p < n && s[p] == '#') {
        return None;
    }
    let mut j = p + 1;
    while j < n && s[j] != '\n' && s[j] != '\r'
        invariant
            p + 1 <= j <= n == s.len(),
            scan_line(s@, p + 1, n as int) == scan_line(s@, j as int, n as int),
        decreases n - j,
    {
        j = j + 1;
    }
    if j < n && s[j] == '\r' && !(n - j >= 2 && s[j + 1] == '\n') {
        None
    } else {
        Some(j)
    }
}

/// What one step of the parser gives.
pub(crate) enum Step {
    Comment(usize),
    Entry(usize, usize, Vec<char>, usize),
    Fail(usize),
}

/// One step of the parser from `i`.
pub(crate) fn parse_step_exec(env: &Vars, resolved: &Vars, s: &Vec<char>, i: usize) -> (r: Step)
    requires
        i <= s.len(),
    ensures
        match parse_step(scope_of(env, resolved), s@, i as int) {
            Parsed::Comment(j) => r == Step::Comment(j as usize),
            Parsed::Entry(ks, ke, t, j) => r matches Step::Entry(a, b, v, c) && a == ks && b == ke
                && v@ == t && c == j,
            Parsed::Fail(f) => r == Step::Fail(f as usize),
        },
{
    let n = s.len();
    let p0 = skip_multispace(s, i, n);
    match comment_exec(s, p0) {
        Some(j) => {
            proof {
                lemma_bscan(s@, p0 + 1, n as int, |c: char| c != '\n' && c != '\r');
            }
            Step::Comment(skip_multispace(s, j, n))
        },
        None => match kv_line_exec(env, resolved, s, p0) {
            Ok((ks, ke, t, end)) => {
                proof {
                    lemma_kv_line_bounds(scope_of(env, resolved), s@, p0 as int);
                }
                Step::Entry(ks, ke, t, skip_multispace(s, end, n))
            },
            Err(f) => Step::Fail(f),
        },
    }
}

/// An entry's key and value lie inside the input, after its start.
pub proof fn lemma_kv_line_bounds(scope: Scope, s: Seq<char>, p: int)
    requires
        0 <= p <= s.len(),
    ensures
        kv_line(scope, s, p) matches Ok((ks, ke, t, end)) ==> p <= ks < ke < end <= s.len(),
        kv_line(scope, s, p) matches Err(f) ==> p <= f <= s.len(),
{
    let n = s.len() as int;
    if has_at(s, p, "export"@) && p + 6 < n && is_space(s[p + 6]) {
        lemma_bscan(s, p + 6, n, |c: char| is_space(c));
    }
    let p1 = if has_at(s, p, "export"@) && p + 6 < n && is_space(s[p + 6]) {
        scan_space(s, p + 6, n)
    } else {
        p
    };
    if let Some(k) = key_at(s, p1, n) {
        lemma_bscan(s, p1, n, |c: char| is_key_char(c));
        lemma_bscan(s, p1 + 1, n, |c: char| is_key_char(c));
        let q = scan_space(s, k, n);
        lemma_bscan(s, k, n, |c: char| is_space(c));
        if 0 <= q < n && s[q] == '=' {
            let r = scan_space(s, q + 1, n);
            lemma_bscan(s, q + 1, n, |c: char| is_space(c));
            if r < n {
                if s[r] == '\'' || s[r] == '`' {
                    lemma_scan_to(s, r + 1, n, s[r]);
                } else if s[r] == '"' {
                    lemma_scan_to(s, r + 1, n, '"');
                    lemma_bscan(s, r, n, |c: char| c != '\n' && c != '\r' && c != '#');
                } else {
                    lemma_bscan(s, r, n, |c: char| c != '\n' && c != '\r' && c != '#');
                }
            }
        }
    }
}

} // verus!
