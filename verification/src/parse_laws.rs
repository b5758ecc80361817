//! Properties of the parsers: what a substitution, a quoted value, an
//! inline comment, line-ending normalisation and a logical line give.

use vstd::prelude::*;
use crate::dotenv::{normalize, replace_cr, replace_crlf, strip_bom};
use crate::laws::{is_plain_char, lemma_quote_fold_stays, law_quote_plain_text, law_quote_single};
use crate::line::{value_result, value_run, value_start, ValueState};
use crate::parse::{
    bscan, comment, fallback, is_key_char, is_key_start, key_at, kv_line, lemma_bscan, parse_step,
    resolve_sub, substitution, value, Parsed, Scope,
};
use crate::text::has_at;
use crate::line::{lemma_scan_while_bounds, scan_while};
use crate::quoted::{
    lemma_quote_fold_add, line_end, quote_fold, quoted_from, quoted_next, strip_newline, LineRead,
    QuoteState,
};
use crate::vars::assoc_get;

verus! {

/// A substitution gives the variable's value when it has a non-empty one:
/// the environment's value first, else the value of an entry resolved
/// before. The fallback (or nothing, without one) comes only when the
/// variable is unset or empty.
pub proof fn law_substitution_value_before_fallback(
    scope: Scope,
    name: Seq<char>,
    fb: Option<Seq<char>>,
)
    ensures
        assoc_get(scope.env, name) is Some && assoc_get(scope.env, name).unwrap().len() > 0
            ==> resolve_sub(scope, name, fb) == assoc_get(scope.env, name).unwrap(),
        assoc_get(scope.env, name) is None && assoc_get(scope.resolved, name) is Some
            && assoc_get(scope.resolved, name).unwrap().len() > 0 ==> resolve_sub(scope, name, fb)
            == assoc_get(scope.resolved, name).unwrap(),
        !(assoc_get(scope.env, name) is Some && assoc_get(scope.env, name).unwrap().len() > 0)
            && !(assoc_get(scope.env, name) is None && assoc_get(scope.resolved, name) is Some
            && assoc_get(scope.resolved, name).unwrap().len() > 0) ==> resolve_sub(scope, name, fb)
            == (match fb {
            Some(f) => f,
            None => Seq::<char>::empty(),
        }),
{
}

/// `\r\n` replacement goes through text without carriage returns unchanged.
proof fn lemma_replace_crlf_prefix(x: Seq<char>, z: Seq<char>)
    requires
        forall|i: int| 0 <= i < x.len() ==> x[i] != '\r',
    ensures
        replace_crlf(x + z) == x + replace_crlf(z),
    decreases x.len(),
{
    if x.len() > 0 {
        assert((x + z).drop_first() =~= x.drop_first() + z);
        lemma_replace_crlf_prefix(x.drop_first(), z);
        assert(seq![x[0]] + (x.drop_first() + replace_crlf(z)) =~= x + replace_crlf(z));
    } else {
        assert(x + z =~= z);
    }
}

/// Each `\r\n` becomes exactly one `\n`: normalising text that starts with
/// a line without carriage returns, ended by `\r\n`, gives that line, one
/// `\n`, and the rest normalised.
pub proof fn law_normalize_crlf(x: Seq<char>, y: Seq<char>)
    requires
        forall|i: int| 0 <= i < x.len() ==> x[i] != '\r',
        x.len() == 0 || x[0] != '\u{feff}',
        y.len() == 0 || y[0] != '\u{feff}',
    ensures
        normalize(x + seq!['\r', '\n'] + y) == x + seq!['\n'] + normalize(y),
        normalize(x + seq!['\r', '\n'] + y).len() == x.len() + 1 + normalize(y).len(),
{
    let t = x + seq!['\r', '\n'] + y;
    assert(strip_bom(t) == t);
    assert(strip_bom(y) == y);
    let z = seq!['\r', '\n'] + y;
    assert(t =~= x + z);
    lemma_replace_crlf_prefix(x, z);
    assert(z.skip(2) =~= y);
    assert(replace_crlf(z) == seq!['\n'] + replace_crlf(y));
    assert(x + (seq!['\n'] + replace_crlf(y)) =~= x + seq!['\n'] + replace_crlf(y));
    assert(replace_cr(x + seq!['\n'] + replace_crlf(y)) =~= x + seq!['\n'] + replace_cr(
        replace_crlf(y),
    ));
}

/// A carriage return not followed by a line feed becomes one `\n`.
pub proof fn law_normalize_lone_cr(x: Seq<char>, y: Seq<char>)
    requires
        forall|i: int| 0 <= i < x.len() ==> x[i] != '\r',
        x.len() == 0 || x[0] != '\u{feff}',
        y.len() == 0 || (y[0] != '\u{feff}' && y[0] != '\n'),
    ensures
        normalize(x + seq!['\r'] + y) == x + seq!['\n'] + normalize(y),
{
    let t = x + seq!['\r'] + y;
    assert(strip_bom(t) == t);
    assert(strip_bom(y) == y);
    let z = seq!['\r'] + y;
    assert(t =~= x + z);
    lemma_replace_crlf_prefix(x, z);
    assert(z.drop_first() =~= y);
    assert(replace_crlf(z) == seq!['\r'] + replace_crlf(y));
    assert(replace_cr(x + (seq!['\r'] + replace_crlf(y))) =~= x + seq!['\n'] + replace_cr(
        replace_crlf(y),
    ));
}

/// Reading plain characters keeps them.
proof fn lemma_plain_prefix_run(
    env: Seq<(Seq<char>, Seq<char>)>,
    ctx: Seq<(Seq<char>, Option<Seq<char>>)>,
    s: Seq<char>,
    v: Seq<char>,
    i: int,
)
    requires
        0 <= i <= v.len() <= s.len(),
        forall|j: int| 0 <= j < v.len() ==> s[j] == v[j] && is_plain_char(#[trigger] v[j]),
    ensures
        value_run(env, ctx, s, i, ValueState { output: v.take(i), ..value_start() }) == value_run(
            env,
            ctx,
            s,
            v.len() as int,
            ValueState { output: v, ..value_start() },
        ),
    decreases v.len() - i,
{
    if i == v.len() {
        assert(v.take(i) =~= v);
    } else {
        assert(is_plain_char(v[i]));
        assert(v.take(i + 1) =~= v.take(i).push(s[i]));
        lemma_plain_prefix_run(env, ctx, s, v, i + 1);
    }
}

/// Blanks after the value are skipped up to the `#` of the comment.
proof fn lemma_blanks_then_comment(
    env: Seq<(Seq<char>, Seq<char>)>,
    ctx: Seq<(Seq<char>, Option<Seq<char>>)>,
    s: Seq<char>,
    i: int,
    m: int,
    st: ValueState,
)
    requires
        0 <= i <= m < s.len(),
        s[m] == '#',
        forall|j: int| i <= j < m ==> s[j] == ' ' || s[j] == '\t',
        st.expecting_end,
    ensures
        value_run(env, ctx, s, i, st) == Ok::<ValueState, int>(st),
    decreases m - i,
{
    if i < m {
        lemma_blanks_then_comment(env, ctx, s, i + 1, m, st);
    }
}

/// A plain value followed by blanks and an inline comment is the value:
/// any number of spaces and tabs may stand before the `#`.
pub proof fn law_value_blanks_before_comment(
    env: Seq<(Seq<char>, Seq<char>)>,
    ctx: Seq<(Seq<char>, Option<Seq<char>>)>,
    v: Seq<char>,
    w: Seq<char>,
    c: Seq<char>,
)
    requires
        forall|j: int| 0 <= j < v.len() ==> is_plain_char(#[trigger] v[j]),
        w.len() > 0,
        forall|j: int| 0 <= j < w.len() ==> w[j] == ' ' || w[j] == '\t',
        assoc_get(env, Seq::<char>::empty()) is None,
        !(assoc_get(ctx, Seq::<char>::empty()) matches Some(Some(_))),
    ensures
        value_result(env, ctx, v + w + seq!['#'] + c) == Ok::<Seq<char>, int>(v),
{
    let s = v + w + seq!['#'] + c;
    let n = v.len() as int;
    let m = n + w.len();
    assert forall|j: int| 0 <= j < v.len() implies s[j] == v[j] && is_plain_char(
        #[trigger] v[j],
    ) by {}
    assert(v.take(0) =~= Seq::<char>::empty());
    lemma_plain_prefix_run(env, ctx, s, v, 0);
    let st0 = ValueState { output: v, ..value_start() };
    let st1 = ValueState { output: v, expecting_end: true, ..value_start() };
    assert(s[n] == w[0]);
    assert(s[m] == '#');
    assert forall|j: int| n + 1 <= j < m implies s[j] == ' ' || s[j] == '\t' by {
        assert(s[j] == w[j - n]);
    }
    lemma_blanks_then_comment(env, ctx, s, n + 1, m, st1);
    assert(value_run(env, ctx, s, n, st0) == value_run(env, ctx, s, n + 1, st1));
    assert(v + Seq::<char>::empty() =~= v);
}

/// A run that ends at `m` ends there.
proof fn lemma_bscan_exact(s: Seq<char>, i: int, m: int, e: int, p: spec_fn(char) -> bool)
    requires
        0 <= i <= m <= e <= s.len(),
        forall|j: int| i <= j < m ==> p(#[trigger] s[j]),
        m == e || !p(s[m]),
    ensures
        bscan(s, i, e, p) == m,
{
    lemma_bscan(s, i, e, p);
    let b = bscan(s, i, e, p);
    if b < m {
        assert(p(s[b]));
    }
}

/// A single-quoted or backtick-quoted value is every character between the
/// quotes, whitespace included, and it ends after the closing quote.
pub proof fn law_quoted_value_literal(scope: Scope, s: Seq<char>, i: int, m: int)
    requires
        0 <= i < m < s.len(),
        s[i] == '\'' || s[i] == '`',
        s[m] == s[i],
        forall|j: int| i < j < m ==> s[j] != s[i],
    ensures
        value(scope, s, i) == Ok::<(Seq<char>, int), int>((s.subrange(i + 1, m), m + 1)),
{
    lemma_scan_to_exact(s, i + 1, m, s.len() as int, s[i]);
}

/// `scan_to` stops at the first `q`.
proof fn lemma_scan_to_exact(s: Seq<char>, i: int, m: int, e: int, q: char)
    requires
        0 <= i <= m < e <= s.len(),
        forall|j: int| i <= j < m ==> s[j] != q,
        s[m] == q,
    ensures
        crate::parse::scan_to(s, i, e, q) == m,
    decreases m - i,
{
    if i < m {
        lemma_scan_to_exact(s, i + 1, m, e, q);
    }
}

/// The entry of the line `KEY='x'` (or with backticks) has the key `KEY`
/// and the value `x`, every character between the quotes.
pub proof fn law_quoted_entry_literal(scope: Scope, key: Seq<char>, q: char, x: Seq<char>)
    requires
        key.len() > 0,
        is_key_start(key[0]),
        forall|j: int| 0 <= j < key.len() ==> is_key_char(#[trigger] key[j]),
        q == '\'' || q == '`',
        forall|j: int| 0 <= j < x.len() ==> x[j] != q,
    ensures
        parse_step(scope, key + seq!['=', q] + x + seq![q], 0) == Parsed::Entry(
            0,
            key.len() as int,
            x,
            (key.len() + x.len() + 3) as int,
        ),
{
    reveal_strlit("export");
    let s = key + seq!['=', q] + x + seq![q];
    let n = s.len() as int;
    let k = key.len() as int;
    assert(s[0] == key[0]);
    assert(s[k] == '=');
    assert(s[k + 1] == q);
    assert(s[n - 1] == q);
    lemma_bscan_exact(s, 0, 0, n, |c: char| crate::parse::is_multispace(c));
    assert(comment(s, 0) is None);
    // no `export ` prefix: position 6 is never a blank
    if has_at(s, 0, "export"@) && 6 < n {
        assert(s.subrange(0, 6) == "export"@);
        if k < 6 {
            assert(s.subrange(0, 6)[k] == s[k]);
            assert("export"@[k] != '=');
        } else {
            if k == 6 {
                assert(s[6] == '=');
            } else {
                assert(s[6] == key[6]);
                assert(is_key_char(key[6]));
            }
        }
    }
    assert forall|j: int| 0 <= j < k implies is_key_char(#[trigger] s[j]) by {
        assert(s[j] == key[j]);
    }
    lemma_bscan_exact(s, 0, k, n, |c: char| is_key_char(c));
    lemma_bscan_exact(s, k, k, n, |c: char| crate::parse::is_space(c));
    lemma_bscan_exact(s, k + 1, k + 1, n, |c: char| crate::parse::is_space(c));
    assert forall|j: int| k + 1 < j < n - 1 implies #[trigger] s[j] != s[k + 1] by {
        assert(s[j] == x[j - k - 2]);
    }
    law_quoted_value_literal(scope, s, k + 1, n - 1);
    assert(s.subrange(k + 2, n - 1) =~= x);
    assert(kv_line(scope, s, 0) == Ok::<(int, int, Seq<char>, int), int>((0, k, x, n)));
    lemma_bscan_exact(s, n, n, n, |c: char| crate::parse::is_multispace(c));
}

/// Reading on from `i` keeps the quote state of the text read so far.
proof fn lemma_quoted_from_close(t: Seq<char>, start: int, i: int, st: QuoteState)
    requires
        0 <= start <= i <= t.len(),
        st == quote_fold(QuoteState::Close, t.subrange(start, i)),
        forall|e: int|
            start < e <= i && t[e - 1] == '\n' ==> quote_fold(
                QuoteState::Close,
                #[trigger] t.subrange(start, e),
            ) != QuoteState::Close,
    ensures
        quoted_from(t, start, i, st).0 matches LineRead::Line(l) ==> {
            let q = quoted_from(t, start, i, st).1;
            &&& start < q <= t.len()
            &&& l == strip_newline(t.subrange(start, q))
            &&& quote_fold(QuoteState::Close, t.subrange(start, q)) == QuoteState::Close
            &&& (q == t.len() || t[q - 1] == '\n')
            &&& forall|e: int|
                start < e < q && t[e - 1] == '\n' ==> quote_fold(
                    QuoteState::Close,
                    #[trigger] t.subrange(start, e),
                ) != QuoteState::Close
        },
    decreases t.len() - i,
{
    if i < t.len() {
        lemma_scan_while_bounds(t, i, |c: char| c != '\n');
        let e = line_end(t, i);
        let st2 = quote_fold(st, t.subrange(i, e));
        assert(t.subrange(start, e) =~= t.subrange(start, i) + t.subrange(i, e));
        lemma_quote_fold_add(QuoteState::Close, t.subrange(start, i), t.subrange(i, e));
        assert forall|e2: int|
            start < e2 <= e && t[e2 - 1] == '\n' && e2 != e implies quote_fold(
            QuoteState::Close,
            #[trigger] t.subrange(start, e2),
        ) != QuoteState::Close by {
            if e2 > i {
                assert(t[e2 - 1] != '\n');
            }
        }
        if st2 != QuoteState::Close {
            lemma_quoted_from_close(t, start, e, st2);
        }
    }
}

/// A logical line ends only where the quote state is back to `Close`:
/// the line read from `p` is the text up to the first line end after which
/// no quote is left open (or up to the end of the text), without its line
/// break; at every earlier line end a quote is still open.
pub proof fn law_logical_line_ends_outside_quotes(t: Seq<char>, p: int)
    requires
        0 <= p <= t.len(),
    ensures
        quoted_next(t, p).0 matches LineRead::Line(l) ==> {
            let q = quoted_next(t, p).1;
            &&& p < q <= t.len()
            &&& l == strip_newline(t.subrange(p, q))
            &&& quote_fold(QuoteState::Close, t.subrange(p, q)) == QuoteState::Close
            &&& (q == t.len() || t[q - 1] == '\n')
            &&& forall|e: int|
                p < e < q && t[e - 1] == '\n' ==> quote_fold(
                    QuoteState::Close,
                    #[trigger] t.subrange(p, e),
                ) != QuoteState::Close
        },
{
    assert(t.subrange(p, p) =~= Seq::<char>::empty());
    lemma_quoted_from_close(t, p, p, QuoteState::Close);
}

/// The first line feed at or after `i` is at `m`.
proof fn lemma_first_newline(t: Seq<char>, i: int, m: int)
    requires
        0 <= i <= m < t.len(),
        forall|j: int| i <= j < m ==> t[j] != '\n',
        t[m] == '\n',
    ensures
        line_end(t, i) == m + 1,
{
    lemma_scan_while_bounds(t, i, |c: char| c != '\n');
    let j = scan_while(t, i, |c: char| c != '\n');
    if j < m {
        assert(t[j] != '\n');
    }
}

/// The first line of `K='x` ends inside the single quote.
proof fn lemma_open_single_line(k: Seq<char>, x: Seq<char>)
    requires
        forall|j: int|
            0 <= j < k.len() ==> k[j] != '"' && k[j] != '\'' && k[j] != '\\' && k[j] != '\n',
        forall|j: int| 0 <= j < x.len() ==> x[j] != '\'' && x[j] != '\\' && x[j] != '\n',
    ensures
        quote_fold(QuoteState::Close, k + seq!['=', '\''] + x + seq!['\n'])
            == QuoteState::StrongOpen,
{
    let a = k + seq!['='];
    let x1 = x + seq!['\n'];
    assert forall|j: int| 0 <= j < a.len() implies a[j] != '"' && a[j] != '\'' && a[j] != '\\' by {
        if j < k.len() {
            assert(a[j] == k[j]);
        }
    }
    law_quote_plain_text(a);
    assert forall|j: int| 0 <= j < x1.len() implies x1[j] != '\'' && x1[j] != '\\' by {
        if j < x.len() {
            assert(x1[j] == x[j]);
        }
    }
    law_quote_single(x1);
    assert(k + seq!['=', '\''] + x + seq!['\n'] =~= a + (seq!['\''] + x1));
    lemma_quote_fold_add(QuoteState::Close, a, seq!['\''] + x1);
}

/// The line `y'` closes an open single quote.
proof fn lemma_close_single_line(y: Seq<char>)
    requires
        forall|j: int| 0 <= j < y.len() ==> y[j] != '\'' && y[j] != '\\' && y[j] != '\n',
    ensures
        quote_fold(QuoteState::StrongOpen, y + seq!['\'', '\n']) == QuoteState::Close,
{
    assert forall|i: int| 0 <= i < y.len() implies crate::quoted::quote_step(
        QuoteState::StrongOpen,
        #[trigger] y[i],
    ) == QuoteState::StrongOpen by {}
    lemma_quote_fold_stays(QuoteState::StrongOpen, y);
    let q = seq!['\'', '\n'];
    assert(q.drop_first() =~= seq!['\n']);
    assert(seq!['\n'].drop_first() =~= Seq::<char>::empty());
    assert(seq!['\n'][0] == '\n');
    assert(q[0] == '\'');
    assert(quote_fold(QuoteState::Close, Seq::<char>::empty()) == QuoteState::Close);
    assert(quote_fold(QuoteState::Close, seq!['\n']) == QuoteState::Close);
    assert(quote_fold(QuoteState::StrongOpen, q) == QuoteState::Close);
    lemma_quote_fold_add(QuoteState::StrongOpen, y, q);
}

/// Two physical lines, the first ending inside a single quote and the
/// second closing it, are read as one logical line.
proof fn lemma_two_physical_lines(t: Seq<char>, e1: int)
    requires
        0 < e1 < t.len(),
        t[e1 - 1] == '\n',
        t[t.len() - 1] == '\n',
        forall|j: int| 0 <= j < e1 - 1 ==> t[j] != '\n',
        forall|j: int| e1 <= j < t.len() - 1 ==> t[j] != '\n',
        quote_fold(QuoteState::Close, t.subrange(0, e1)) == QuoteState::StrongOpen,
        quote_fold(QuoteState::StrongOpen, t.subrange(e1, t.len() as int)) == QuoteState::Close,
    ensures
        quoted_next(t, 0) == (LineRead::Line(strip_newline(t)), t.len() as int),
{
    let n = t.len() as int;
    lemma_first_newline(t, 0, e1 - 1);
    lemma_first_newline(t, e1, n - 1);
    assert(quoted_from(t, 0, e1, QuoteState::StrongOpen) == (
        LineRead::Line(strip_newline(t.subrange(0, n))),
        n,
    ));
    assert(t.subrange(0, n) =~= t);
}

/// A single quote left open at a line break carries the value on: the
/// text `K='x` `\n` `y'` `\n` is read as one logical line, `K='x\ny'`.
pub proof fn law_single_quote_spans_lines(k: Seq<char>, x: Seq<char>, y: Seq<char>)
    requires
        forall|j: int|
            0 <= j < k.len() ==> k[j] != '"' && k[j] != '\'' && k[j] != '\\' && k[j] != '\n',
        forall|j: int| 0 <= j < x.len() ==> x[j] != '\'' && x[j] != '\\' && x[j] != '\n',
        forall|j: int| 0 <= j < y.len() ==> y[j] != '\'' && y[j] != '\\' && y[j] != '\n',
    ensures
        quoted_next(k + seq!['=', '\''] + x + seq!['\n'] + y + seq!['\'', '\n'], 0) == (
            LineRead::Line(k + seq!['=', '\''] + x + seq!['\n'] + y + seq!['\'']),
            (k.len() + x.len() + y.len() + 5) as int,
        ),
{
    let first = k + seq!['=', '\''] + x + seq!['\n'];
    let second = y + seq!['\'', '\n'];
    let t = first + second;
    let n = t.len() as int;
    let e1 = first.len() as int;
    assert forall|j: int| 0 <= j < e1 - 1 implies t[j] != '\n' by {
        assert(t[j] == first[j]);
        if j < k.len() {
            assert(first[j] == k[j]);
        } else if j >= k.len() + 2 {
            assert(first[j] == x[j - k.len() - 2]);
        }
    }
    assert forall|j: int| e1 <= j < n - 1 implies t[j] != '\n' by {
        assert(t[j] == second[j - e1]);
        if j < e1 + y.len() {
            assert(second[j - e1] == y[j - e1]);
        }
    }
    assert(t[e1 - 1] == first[e1 - 1]);
    assert(t[n - 1] == second[second.len() - 1]);
    assert(t.subrange(0, e1) =~= first);
    assert(t.subrange(e1, n) =~= second);
    lemma_open_single_line(k, x);
    lemma_close_single_line(y);
    lemma_two_physical_lines(t, e1);
    assert(t =~= k + seq!['=', '\''] + x + seq!['\n'] + y + seq!['\'', '\n']);
    assert(t.drop_last() =~= k + seq!['=', '\''] + x + seq!['\n'] + y + seq!['\'']);
    assert(t.drop_last().last() == '\'');
    assert(strip_newline(t) == t.drop_last());
}

/// The fallback text of `${NAME:-text}`, without `$` and `}`, is read up
/// to the `}`.
proof fn lemma_plain_fallback(scope: Scope, s: Seq<char>, i: int, m: int)
    requires
        0 <= i <= m < s.len(),
        s[m] == '}',
        forall|j: int| i <= j < m ==> s[j] != '$' && s[j] != '}',
    ensures
        fallback(scope, s, i, s.len() as int) == (s.subrange(i, m), m),
{
    reveal_strlit("${");
    let n = s.len() as int;
    if has_at(s, m, "${"@) {
        assert(s.subrange(m, m + 2)[0] == s[m]);
    }
    assert(substitution(scope, s, m, n) is None);
    lemma_bscan_exact(s, m, m, n, |c: char| c != '$' && c != '}');
    assert(fallback(scope, s, m, n) == (Seq::<char>::empty(), m));
    if i < m {
        if has_at(s, i, "${"@) {
            assert(s.subrange(i, i + 2)[0] == s[i]);
        }
        assert(substitution(scope, s, i, n) is None);
        lemma_bscan_exact(s, i, m, n, |c: char| c != '$' && c != '}');
        assert(s.subrange(i, m) + Seq::<char>::empty() =~= s.subrange(i, m));
    } else {
        assert(s.subrange(i, m) =~= Seq::<char>::empty());
    }
}

/// `${NAME:-text}` with a plain fallback text gives the variable's
/// non-empty value when it has one (the environment first), and the
/// fallback text only when the variable is unset or empty.
pub proof fn law_braced_fallback(scope: Scope, name: Seq<char>, f: Seq<char>)
    requires
        name.len() > 0,
        is_key_start(name[0]),
        forall|j: int| 0 <= j < name.len() ==> is_key_char(#[trigger] name[j]),
        forall|j: int| 0 <= j < f.len() ==> f[j] != '$' && f[j] != '}',
    ensures
        ({
            let s = seq!['$', '{'] + name + seq![':', '-'] + f + seq!['}'];
            let r = substitution(scope, s, 0, s.len() as int);
            &&& r is Some && r.unwrap().1 == s.len()
            &&& assoc_get(scope.env, name) is Some && assoc_get(scope.env, name).unwrap().len() > 0
                ==> r.unwrap().0 == assoc_get(scope.env, name).unwrap()
            &&& assoc_get(scope.env, name) is None && assoc_get(scope.resolved, name) is Some
                && assoc_get(scope.resolved, name).unwrap().len() > 0 ==> r.unwrap().0
                == assoc_get(scope.resolved, name).unwrap()
            &&& (assoc_get(scope.env, name) is Some ==> assoc_get(scope.env, name).unwrap().len()
                == 0) && (assoc_get(scope.env, name) is None ==> !(assoc_get(
                scope.resolved,
                name,
            ) is Some && assoc_get(scope.resolved, name).unwrap().len() > 0)) ==> r.unwrap().0
                == f
        }),
{
    reveal_strlit("${");
    reveal_strlit(":-");
    let s = seq!['$', '{'] + name + seq![':', '-'] + f + seq!['}'];
    let n = s.len() as int;
    let j = (2 + name.len()) as int;
    let m = n - 1;
    assert(s.subrange(0, 2) =~= "${"@);
    assert(has_at(s, 0, "${"@));
    assert forall|i: int| 2 <= i < j implies is_key_char(#[trigger] s[i]) by {
        assert(s[i] == name[i - 2]);
    }
    assert(s[2] == name[0]);
    assert(s[j] == ':');
    lemma_bscan_exact(s, 2, j, n, |c: char| is_key_char(c));
    assert(key_at(s, 2, n) == Some(j));
    assert(s.subrange(j, j + 2) =~= ":-"@);
    assert(has_at(s, j, ":-"@));
    assert forall|i: int| j + 2 <= i < m implies s[i] != '$' && s[i] != '}' by {
        assert(s[i] == f[i - j - 2]);
    }
    assert(s[m] == '}');
    lemma_plain_fallback(scope, s, j + 2, m);
    assert(s.subrange(j + 2, m) =~= f);
    assert(s.subrange(2, j) =~= name);
    assert(substitution(scope, s, 0, n) == Some((resolve_sub(scope, name, Some(f)), n)));
    law_substitution_value_before_fallback(scope, name, Some(f));
}

} // verus!
