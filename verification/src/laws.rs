//! Properties of the library as a whole.

use vstd::prelude::*;
use crate::dotenv::{iter_next, normalize, replace_cr, replace_crlf, set_run, strip_bom};
use crate::quoted::{lemma_quote_fold_add, quote_fold, quote_step, QuoteState};
use crate::line::{
    is_key_char, is_key_start, key_and_equal, key_end, lemma_scan_while_bounds, line_outcome,
    skip_ws, substitute, trim_end, value_result, value_run, value_start, LineOutcome, ValueState,
};
use crate::parse::{
    is_key_char as grammar_key_char, is_key_start as grammar_key_start, lemma_bscan, parse_step,
    Parsed, Scope,
};
use crate::reader::{load_run, read_next, ReadItem};
use crate::vars::assoc_get;

verus! {

/// The assignment just made is the one a lookup finds.
pub proof fn law_lookup_after_assign<V>(s: Seq<(Seq<char>, V)>, k: Seq<char>, v: V)
    ensures
        assoc_get(s.push((k, v)), k) == Some(v),
{
    assert(s.push((k, v)).drop_last() =~= s);
}

/// Assigning one name leaves the others as they were.
pub proof fn law_lookup_other<V>(s: Seq<(Seq<char>, V)>, k: Seq<char>, v: V, other: Seq<char>)
    requires
        other != k,
    ensures
        assoc_get(s.push((k, v)), other) == assoc_get(s, other),
{
    assert(s.push((k, v)).drop_last() =~= s);
}

/// After normalisation no carriage return is left.
pub proof fn law_normalize_no_cr(s: Seq<char>)
    ensures
        forall|i: int| 0 <= i < normalize(s).len() ==> normalize(s)[i] != '\r',
{
}

/// `replace_crlf` leaves text without carriage returns as it is.
proof fn lemma_replace_crlf_plain(s: Seq<char>)
    requires
        forall|i: int| 0 <= i < s.len() ==> s[i] != '\r',
    ensures
        replace_crlf(s) == s,
    decreases s.len(),
{
    if s.len() > 0 {
        lemma_replace_crlf_plain(s.drop_first());
        assert(seq![s[0]] + s.drop_first() =~= s);
    }
}

/// Text without carriage returns and without a leading byte order mark is
/// read as it is.
pub proof fn law_normalize_plain(s: Seq<char>)
    requires
        forall|i: int| 0 <= i < s.len() ==> s[i] != '\r',
        s.len() == 0 || s[0] != '\u{feff}',
    ensures
        normalize(s) == s,
{
    lemma_replace_crlf_plain(s);
    assert(replace_cr(s) =~= s);
}

/// A key of the line parser starts with an ASCII letter or `_` and goes on
/// with ASCII letters, digits, `_` and `.`.
pub proof fn law_line_key_shape(
    env: Seq<(Seq<char>, Seq<char>)>,
    ctx: Seq<(Seq<char>, Option<Seq<char>>)>,
    line: Seq<char>,
)
    ensures
        line_outcome(env, ctx, line) matches LineOutcome::Entry { key, value, recorded } ==> key.len()
            > 0 && is_key_start(key[0]) && forall|i: int| 0 <= i < key.len() ==> is_key_char(
            #[trigger] key[i],
        ),
{
    let l = trim_end(line);
    lemma_scan_while_bounds(l, 0, |c: char| crate::text::is_whitespace(c));
    let i0 = skip_ws(l, 0);
    if i0 < l.len() && l[i0] != '#' && crate::line::key_starts(l, i0) {
        lemma_scan_while_bounds(l, i0, |c: char| is_key_char(c));
        lemma_scan_while_bounds(l, i0 + 1, |c: char| is_key_char(c));
        let k1 = key_end(l, i0);
        lemma_scan_while_bounds(l, k1, |c: char| crate::text::is_whitespace(c));
        let j1 = skip_ws(l, k1);
        if j1 <= l.len() && crate::line::key_starts(l, j1) {
            lemma_scan_while_bounds(l, j1, |c: char| is_key_char(c));
            lemma_scan_while_bounds(l, j1 + 1, |c: char| is_key_char(c));
        }
        if let Ok((key, j)) = key_and_equal(l, i0) {
            assert(forall|i: int| 0 <= i < key.len() ==> is_key_char(#[trigger] key[i]));
        }
    }
}

/// What the context records for an entry is its value, or nothing for an
/// entry whose value is empty; later lines then see that record.
pub proof fn law_line_records_value(
    env: Seq<(Seq<char>, Seq<char>)>,
    ctx: Seq<(Seq<char>, Option<Seq<char>>)>,
    line: Seq<char>,
)
    ensures
        line_outcome(env, ctx, line) matches LineOutcome::Entry { key, value, recorded } ==> {
            &&& recorded is None ==> value.len() == 0
            &&& recorded matches Some(v) ==> v == value
            &&& assoc_get(ctx.push((key, recorded)), key) == Some(recorded)
        },
{
    if let LineOutcome::Entry { key, value, recorded } = line_outcome(env, ctx, line) {
        law_lookup_after_assign(ctx, key, recorded);
    }
}

/// Inside single quotes every character but `'` is kept as it is.
proof fn lemma_strong_run(
    env: Seq<(Seq<char>, Seq<char>)>,
    ctx: Seq<(Seq<char>, Option<Seq<char>>)>,
    s: Seq<char>,
    i: int,
    out: Seq<char>,
    x: Seq<char>,
)
    requires
        1 <= i <= s.len() - 1,
        s.len() == x.len() + 2,
        s[s.len() - 1] == '\'',
        forall|j: int| 1 <= j < s.len() - 1 ==> s[j] == x[j - 1] && x[j - 1] != '\'',
        out == x.take(i - 1),
    ensures
        value_run(
            env,
            ctx,
            s,
            i,
            ValueState { strong_quote: true, output: out, ..value_start() },
        ) == Ok::<ValueState, int>(ValueState { output: x, ..value_start() }),
    decreases s.len() - i,
{
    if i == s.len() - 1 {
        assert(x.take(i - 1) =~= x);
        let st2 = ValueState { output: x, ..value_start() };
        assert(value_run(env, ctx, s, i + 1, st2) == Ok::<ValueState, int>(st2));
    } else {
        assert(x.take(i) =~= x.take(i - 1).push(s[i]));
        lemma_strong_run(env, ctx, s, i + 1, out.push(s[i]), x);
    }
}

/// A single-quoted value is taken literally: no substitution, no escape.
pub proof fn law_single_quotes_literal(
    env: Seq<(Seq<char>, Seq<char>)>,
    ctx: Seq<(Seq<char>, Option<Seq<char>>)>,
    x: Seq<char>,
)
    requires
        forall|j: int| 0 <= j < x.len() ==> x[j] != '\'',
        assoc_get(env, Seq::<char>::empty()) is None,
        !(assoc_get(ctx, Seq::<char>::empty()) matches Some(Some(_))),
    ensures
        value_result(env, ctx, seq!['\''] + x + seq!['\'']) == Ok::<Seq<char>, int>(x),
{
    let s = seq!['\''] + x + seq!['\''];
    assert forall|j: int| 1 <= j < s.len() - 1 implies s[j] == x[j - 1] && x[j - 1] != '\'' by {
    }
    assert(x.take(0) =~= Seq::<char>::empty());
    lemma_strong_run(env, ctx, s, 1, Seq::empty(), x);
    assert(x + Seq::<char>::empty() =~= x);
}

/// Inside double quotes every character but `"`, `\` and `$` is kept as it
/// is.
proof fn lemma_weak_run(
    env: Seq<(Seq<char>, Seq<char>)>,
    ctx: Seq<(Seq<char>, Option<Seq<char>>)>,
    s: Seq<char>,
    i: int,
    out: Seq<char>,
    x: Seq<char>,
)
    requires
        1 <= i <= s.len() - 1,
        s.len() == x.len() + 2,
        s[s.len() - 1] == '"',
        forall|j: int|
            1 <= j < s.len() - 1 ==> s[j] == x[j - 1] && x[j - 1] != '"' && x[j - 1] != '\\'
                && x[j - 1] != '$',
        out == x.take(i - 1),
    ensures
        value_run(
            env,
            ctx,
            s,
            i,
            ValueState { weak_quote: true, output: out, ..value_start() },
        ) == Ok::<ValueState, int>(ValueState { output: x, ..value_start() }),
    decreases s.len() - i,
{
    if i == s.len() - 1 {
        assert(x.take(i - 1) =~= x);
        let st2 = ValueState { output: x, ..value_start() };
        assert(value_run(env, ctx, s, i + 1, st2) == Ok::<ValueState, int>(st2));
    } else {
        assert(x.take(i) =~= x.take(i - 1).push(s[i]));
        lemma_weak_run(env, ctx, s, i + 1, out.push(s[i]), x);
    }
}

/// A double-quoted value without `"`, `\` and `$` inside is the text
/// between the quotes.
pub proof fn law_double_quotes_plain(
    env: Seq<(Seq<char>, Seq<char>)>,
    ctx: Seq<(Seq<char>, Option<Seq<char>>)>,
    x: Seq<char>,
)
    requires
        forall|j: int| 0 <= j < x.len() ==> x[j] != '"' && x[j] != '\\' && x[j] != '$',
        assoc_get(env, Seq::<char>::empty()) is None,
        !(assoc_get(ctx, Seq::<char>::empty()) matches Some(Some(_))),
    ensures
        value_result(env, ctx, seq!['"'] + x + seq!['"']) == Ok::<Seq<char>, int>(x),
{
    let s = seq!['"'] + x + seq!['"'];
    assert forall|j: int| 1 <= j < s.len() - 1 implies s[j] == x[j - 1] && x[j - 1] != '"' && x[j
        - 1] != '\\' && x[j - 1] != '$' by {}
    assert(x.take(0) =~= Seq::<char>::empty());
    lemma_weak_run(env, ctx, s, 1, Seq::empty(), x);
    assert(x + Seq::<char>::empty() =~= x);
}

/// A character that a value keeps as it is outside quotes.
pub open spec fn is_plain_char(c: char) -> bool {
    c != '\'' && c != '"' && c != '\\' && c != '$' && c != ' ' && c != '\t' && c != '#'
}

proof fn lemma_plain_run(
    env: Seq<(Seq<char>, Seq<char>)>,
    ctx: Seq<(Seq<char>, Option<Seq<char>>)>,
    s: Seq<char>,
    i: int,
)
    requires
        0 <= i <= s.len(),
        forall|j: int| 0 <= j < s.len() ==> is_plain_char(#[trigger] s[j]),
    ensures
        value_run(env, ctx, s, i, ValueState { output: s.take(i), ..value_start() }) == Ok::<
            ValueState,
            int,
        >(ValueState { output: s, ..value_start() }),
    decreases s.len() - i,
{
    if i == s.len() {
        assert(s.take(i) =~= s);
    } else {
        assert(is_plain_char(s[i]));
        assert(s.take(i + 1) =~= s.take(i).push(s[i]));
        lemma_plain_run(env, ctx, s, i + 1);
    }
}

/// A value without quotes, backslashes, `$`, blanks and `#` is itself.
pub proof fn law_plain_value(
    env: Seq<(Seq<char>, Seq<char>)>,
    ctx: Seq<(Seq<char>, Option<Seq<char>>)>,
    s: Seq<char>,
)
    requires
        forall|j: int| 0 <= j < s.len() ==> is_plain_char(#[trigger] s[j]),
        assoc_get(env, Seq::<char>::empty()) is None,
        !(assoc_get(ctx, Seq::<char>::empty()) matches Some(Some(_))),
    ensures
        value_result(env, ctx, s) == Ok::<Seq<char>, int>(s),
{
    assert(s.take(0) =~= Seq::<char>::empty());
    lemma_plain_run(env, ctx, s, 0);
    assert(s + Seq::<char>::empty() =~= s);
}

/// Loading a text line by line never changes a variable that is already
/// set.
pub proof fn law_reader_load_keeps_existing(
    env: Seq<(Seq<char>, Seq<char>)>,
    t: Seq<char>,
    p: int,
    ctx: Seq<(Seq<char>, Option<Seq<char>>)>,
    k: Seq<char>,
)
    requires
        assoc_get(env, k) is Some,
    ensures
        assoc_get(load_run(env, t, p, ctx).0, k) == assoc_get(env, k),
    decreases t.len() - p,
{
    let (item, q, ctx2) = read_next(env, t, p, ctx);
    if let Some(ReadItem::Pair(key, v)) = item {
        let env2 = if assoc_get(env, key) is None {
            env.push((key, v))
        } else {
            env
        };
        if assoc_get(env, key) is None {
            law_lookup_other(env, key, v, k);
        }
        if p < q <= t.len() {
            law_reader_load_keeps_existing(env2, t, q, ctx2, k);
        }
    }
}

/// Loading parsed content without overriding never changes a variable that
/// is already set.
pub proof fn law_load_keeps_existing(
    env: Seq<(Seq<char>, Seq<char>)>,
    s: Seq<char>,
    pos: int,
    resolved: Seq<(Seq<char>, Seq<char>)>,
    k: Seq<char>,
)
    requires
        assoc_get(env, k) is Some,
    ensures
        assoc_get(set_run(env, s, pos, resolved, false), k) == assoc_get(env, k),
    decreases s.len() - pos,
{
    let (item, q, r2) = iter_next(env, s, pos, resolved);
    if let Some((ks, ke, t)) = item {
        let key = s.subrange(ks, ke);
        let env2 = if assoc_get(env, key) is None {
            env.push((key, t))
        } else {
            env
        };
        if assoc_get(env, key) is None {
            law_lookup_other(env, key, t, k);
        }
        if pos < q <= s.len() {
            law_load_keeps_existing(env2, s, q, r2, k);
        }
    }
}

/// The entries that loading with `override_env` sets, in order.
pub open spec fn loaded_entries(
    env: Seq<(Seq<char>, Seq<char>)>,
    s: Seq<char>,
    pos: int,
    resolved: Seq<(Seq<char>, Seq<char>)>,
    override_env: bool,
) -> Seq<(Seq<char>, Seq<char>)>
    decreases s.len() - pos,
{
    let (item, q, r2) = iter_next(env, s, pos, resolved);
    match item {
        None => Seq::empty(),
        Some((ks, ke, t)) => {
            let key = s.subrange(ks, ke);
            let set = override_env || assoc_get(env, key) is None;
            let env2 = if set {
                env.push((key, t))
            } else {
                env
            };
            let rest = if pos < q <= s.len() {
                loaded_entries(env2, s, q, r2, override_env)
            } else {
                Seq::empty()
            };
            if set {
                seq![(key, t)] + rest
            } else {
                rest
            }
        },
    }
}

/// Loading only ever adds assignments: the environment after loading is
/// the environment before it followed by the entries that were set.
pub proof fn law_load_appends(
    env: Seq<(Seq<char>, Seq<char>)>,
    s: Seq<char>,
    pos: int,
    resolved: Seq<(Seq<char>, Seq<char>)>,
    override_env: bool,
)
    ensures
        set_run(env, s, pos, resolved, override_env) == env + loaded_entries(
            env,
            s,
            pos,
            resolved,
            override_env,
        ),
    decreases s.len() - pos,
{
    let (item, q, r2) = iter_next(env, s, pos, resolved);
    match item {
        None => {
            assert(env + Seq::<(Seq<char>, Seq<char>)>::empty() =~= env);
        },
        Some((ks, ke, t)) => {
            let key = s.subrange(ks, ke);
            let set = override_env || assoc_get(env, key) is None;
            let env2 = if set {
                env.push((key, t))
            } else {
                env
            };
            if pos < q <= s.len() {
                law_load_appends(env2, s, q, r2, override_env);
                if set {
                    assert(env.push((key, t)) + loaded_entries(env2, s, q, r2, override_env) =~= env
                        + (seq![(key, t)] + loaded_entries(env2, s, q, r2, override_env)));
                }
            } else {
                if set {
                    assert(env.push((key, t)) =~= env + (seq![(key, t)] + Seq::<
                        (Seq<char>, Seq<char>),
                    >::empty()));
                } else {
                    assert(env + Seq::<(Seq<char>, Seq<char>)>::empty() =~= env);
                }
            }
        },
    }
}

/// A lookup in a table extended by `b` finds the assignment in `b` when
/// there is one, and the one in `a` otherwise.
pub proof fn law_lookup_concat<V>(a: Seq<(Seq<char>, V)>, b: Seq<(Seq<char>, V)>, k: Seq<char>)
    ensures
        assoc_get(a + b, k) == (match assoc_get(b, k) {
            Some(v) => Some(v),
            None => assoc_get(a, k),
        }),
    decreases b.len(),
{
    if b.len() == 0 {
        assert(a + b =~= a);
    } else {
        assert((a + b).drop_last() =~= a + b.drop_last());
        law_lookup_concat(a, b.drop_last(), k);
    }
}

/// After loading with override, a variable that an entry sets has the
/// value of the last such entry; the others keep their values.
pub proof fn law_override_last_entry_wins(
    env: Seq<(Seq<char>, Seq<char>)>,
    s: Seq<char>,
    k: Seq<char>,
)
    ensures
        assoc_get(set_run(env, s, 0, Seq::empty(), true), k) == (match assoc_get(
            loaded_entries(env, s, 0, Seq::empty(), true),
            k,
        ) {
            Some(v) => Some(v),
            None => assoc_get(env, k),
        }),
{
    law_load_appends(env, s, 0, Seq::empty(), true);
    law_lookup_concat(env, loaded_entries(env, s, 0, Seq::empty(), true), k);
}

/// A key that the iterator yields starts with an ASCII letter or `_` and
/// goes on with ASCII letters, digits and `_`.
pub proof fn law_iter_key_shape(
    env: Seq<(Seq<char>, Seq<char>)>,
    s: Seq<char>,
    pos: int,
    resolved: Seq<(Seq<char>, Seq<char>)>,
)
    requires
        0 <= pos <= s.len(),
    ensures
        iter_next(env, s, pos, resolved).0 matches Some((ks, ke, t)) ==> {
            &&& 0 <= ks < ke <= s.len()
            &&& grammar_key_start(s[ks])
            &&& forall|i: int| ks <= i < ke ==> grammar_key_char(#[trigger] s[i])
        },
    decreases s.len() - pos,
{
    if pos < s.len() {
        crate::dotenv::lemma_parse_step_bounds(Scope { env, resolved }, s, pos);
        match parse_step(Scope { env, resolved }, s, pos) {
            Parsed::Comment(j) => {
                law_iter_key_shape(env, s, j, resolved);
            },
            Parsed::Entry(ks, ke, t, j) => {
                lemma_entry_key(Scope { env, resolved }, s, pos);
            },
            Parsed::Fail(f) => {},
        }
    }
}

/// The key of an entry is a key.
proof fn lemma_entry_key(scope: Scope, s: Seq<char>, i: int)
    requires
        0 <= i < s.len(),
    ensures
        parse_step(scope, s, i) matches Parsed::Entry(ks, ke, t, j) ==> {
            &&& 0 <= ks < ke <= s.len()
            &&& grammar_key_start(s[ks])
            &&& forall|m: int| ks <= m < ke ==> grammar_key_char(#[trigger] s[m])
        },
{
    let n = s.len() as int;
    lemma_bscan(s, i, n, |c: char| crate::parse::is_multispace(c));
    let p0 = crate::parse::scan_multispace(s, i, n);
    crate::parse::lemma_kv_line_bounds(scope, s, p0);
    let p1 = if crate::text::has_at(s, p0, "export"@) && p0 + 6 < n && crate::parse::is_space(
        s[p0 + 6],
    ) {
        crate::parse::scan_space(s, p0 + 6, n)
    } else {
        p0
    };
    if crate::text::has_at(s, p0, "export"@) && p0 + 6 < n && crate::parse::is_space(s[p0 + 6]) {
        lemma_bscan(s, p0 + 6, n, |c: char| crate::parse::is_space(c));
    }
    if 0 <= p1 < n {
        lemma_bscan(s, p1, n, |c: char| grammar_key_char(c));
    }
}

/// What the iterator yields is recorded for the substitutions of later
/// entries.
pub proof fn law_iter_records_entry(
    env: Seq<(Seq<char>, Seq<char>)>,
    s: Seq<char>,
    pos: int,
    resolved: Seq<(Seq<char>, Seq<char>)>,
)
    ensures
        iter_next(env, s, pos, resolved).0 matches Some((ks, ke, t)) ==> assoc_get(
            iter_next(env, s, pos, resolved).2,
            s.subrange(ks, ke),
        ) == Some(t),
    decreases s.len() - pos,
{
    if 0 <= pos < s.len() {
        match parse_step(Scope { env, resolved }, s, pos) {
            Parsed::Comment(j) => {
                if pos < j <= s.len() {
                    law_iter_records_entry(env, s, j, resolved);
                }
            },
            Parsed::Entry(ks, ke, t, j) => {
                law_lookup_after_assign(resolved, s.subrange(ks, ke), t);
            },
            Parsed::Fail(f) => {},
        }
    }
}

/// An environment variable takes precedence over a value of the same
/// name from the file in a substitution of the line parser.
pub proof fn law_environment_first(
    env: Seq<(Seq<char>, Seq<char>)>,
    ctx: Seq<(Seq<char>, Option<Seq<char>>)>,
    name: Seq<char>,
    v: Seq<char>,
)
    requires
        assoc_get(env, name) == Some(v),
    ensures
        substitute(env, ctx, name) == v,
{
}


/// The value of the first assignment of `k` in `s`, if there is one.
pub open spec fn assoc_first<V>(s: Seq<(Seq<char>, V)>, k: Seq<char>) -> Option<V>
    decreases s.len(),
{
    if s.len() == 0 {
        None
    } else if s[0].0 == k {
        Some(s[0].1)
    } else {
        assoc_first(s.drop_first(), k)
    }
}

/// The entries that the iterator yields while loading runs, in order, set
/// or not; each is parsed with the environment as loading has left it.
pub open spec fn load_pairs(
    env: Seq<(Seq<char>, Seq<char>)>,
    s: Seq<char>,
    pos: int,
    resolved: Seq<(Seq<char>, Seq<char>)>,
    override_env: bool,
) -> Seq<(Seq<char>, Seq<char>)>
    decreases s.len() - pos,
{
    let (item, q, r2) = iter_next(env, s, pos, resolved);
    match item {
        None => Seq::empty(),
        Some((ks, ke, t)) => {
            let key = s.subrange(ks, ke);
            let env2 = if override_env || assoc_get(env, key) is None {
                env.push((key, t))
            } else {
                env
            };
            if pos < q <= s.len() {
                seq![(key, t)] + load_pairs(env2, s, q, r2, override_env)
            } else {
                seq![(key, t)]
            }
        },
    }
}

/// Loading without override: a variable that was set keeps its value; one
/// that was not takes the value of the first entry for it, and stays unset
/// when no entry names it.
pub proof fn law_load_first_entry_wins(
    env: Seq<(Seq<char>, Seq<char>)>,
    s: Seq<char>,
    pos: int,
    resolved: Seq<(Seq<char>, Seq<char>)>,
    k: Seq<char>,
)
    ensures
        assoc_get(set_run(env, s, pos, resolved, false), k) == (match assoc_get(env, k) {
            Some(v) => Some(v),
            None => assoc_first(load_pairs(env, s, pos, resolved, false), k),
        }),
    decreases s.len() - pos,
{
    let (item, q, r2) = iter_next(env, s, pos, resolved);
    if let Some((ks, ke, t)) = item {
        let key = s.subrange(ks, ke);
        let env2 = if assoc_get(env, key) is None {
            env.push((key, t))
        } else {
            env
        };
        if assoc_get(env, key) is None {
            law_lookup_after_assign(env, key, t);
            if key != k {
                law_lookup_other(env, key, t, k);
            }
        }
        let pairs = load_pairs(env, s, pos, resolved, false);
        let rest = if pos < q <= s.len() {
            load_pairs(env2, s, q, r2, false)
        } else {
            Seq::empty()
        };
        if pos < q <= s.len() {
            assert(pairs == seq![(key, t)] + rest);
            assert(set_run(env, s, pos, resolved, false) == set_run(env2, s, q, r2, false));
            law_load_first_entry_wins(env2, s, q, r2, k);
        } else {
            assert(pairs =~= seq![(key, t)] + rest);
            assert(set_run(env, s, pos, resolved, false) == env2);
            assert(assoc_first(rest, k) is None);
        }
        assert(pairs.drop_first() =~= rest);
        assert(pairs[0] == (key, t));
        if assoc_get(env, k) is None {
            if key == k {
                assert(assoc_first(pairs, k) == Some(t));
            } else {
                assert(assoc_first(pairs, k) == assoc_first(rest, k));
            }
        }
    } else {
        assert(set_run(env, s, pos, resolved, false) == env);
        assert(load_pairs(env, s, pos, resolved, false) == Seq::<(Seq<char>, Seq<char>)>::empty());
    }
}

/// The entries that loading a text line by line reads before it ends or
/// fails, in order, set or not.
pub open spec fn read_pairs(
    env: Seq<(Seq<char>, Seq<char>)>,
    t: Seq<char>,
    p: int,
    ctx: Seq<(Seq<char>, Option<Seq<char>>)>,
) -> Seq<(Seq<char>, Seq<char>)>
    decreases t.len() - p,
{
    let (item, q, ctx2) = read_next(env, t, p, ctx);
    match item {
        Some(ReadItem::Pair(k, v)) => {
            let env2 = if assoc_get(env, k) is None {
                env.push((k, v))
            } else {
                env
            };
            if p < q <= t.len() {
                seq![(k, v)] + read_pairs(env2, t, q, ctx2)
            } else {
                seq![(k, v)]
            }
        },
        _ => Seq::empty(),
    }
}

/// Loading a text line by line: a variable that was set keeps its value;
/// one that was not takes the value of the first entry read for it before
/// loading ends or fails, and stays unset when no such entry names it.
pub proof fn law_reader_load_first_entry_wins(
    env: Seq<(Seq<char>, Seq<char>)>,
    t: Seq<char>,
    p: int,
    ctx: Seq<(Seq<char>, Option<Seq<char>>)>,
    k: Seq<char>,
)
    ensures
        assoc_get(load_run(env, t, p, ctx).0, k) == (match assoc_get(env, k) {
            Some(v) => Some(v),
            None => assoc_first(read_pairs(env, t, p, ctx), k),
        }),
    decreases t.len() - p,
{
    let (item, q, ctx2) = read_next(env, t, p, ctx);
    if let Some(ReadItem::Pair(key, v)) = item {
        let env2 = if assoc_get(env, key) is None {
            env.push((key, v))
        } else {
            env
        };
        if assoc_get(env, key) is None {
            law_lookup_after_assign(env, key, v);
            if key != k {
                law_lookup_other(env, key, v, k);
            }
        }
        let pairs = read_pairs(env, t, p, ctx);
        let rest = if p < q <= t.len() {
            read_pairs(env2, t, q, ctx2)
        } else {
            Seq::empty()
        };
        if p < q <= t.len() {
            assert(pairs == seq![(key, v)] + rest);
            assert(load_run(env, t, p, ctx) == load_run(env2, t, q, ctx2));
            law_reader_load_first_entry_wins(env2, t, q, ctx2, k);
        } else {
            assert(pairs =~= seq![(key, v)] + rest);
            assert(load_run(env, t, p, ctx).0 == env2);
            assert(assoc_first(rest, k) is None);
        }
        assert(pairs.drop_first() =~= rest);
        assert(pairs[0] == (key, v));
        if assoc_get(env, k) is None {
            if key == k {
                assert(assoc_first(pairs, k) == Some(v));
            } else {
                assert(assoc_first(pairs, k) == assoc_first(rest, k));
            }
        }
    } else {
        assert(load_run(env, t, p, ctx).0 == env);
        assert(read_pairs(env, t, p, ctx) == Seq::<(Seq<char>, Seq<char>)>::empty());
    }
}

/// The first character after `\r\n` replacement is `\n` or the first
/// character before it.
proof fn lemma_replace_crlf_first(s: Seq<char>)
    ensures
        replace_crlf(s).len() == 0 <==> s.len() == 0,
        s.len() > 0 ==> replace_crlf(s)[0] == '\n' || replace_crlf(s)[0] == s[0],
{
}

/// Normalising twice is normalising once, for text that does not start
/// with two byte order marks.
pub proof fn law_normalize_idempotent(s: Seq<char>)
    requires
        !(s.len() >= 2 && s[0] == '\u{feff}' && s[1] == '\u{feff}'),
    ensures
        normalize(normalize(s)) == normalize(s),
{
    let x = strip_bom(s);
    lemma_replace_crlf_first(x);
    law_normalize_no_cr(s);
    law_normalize_plain(normalize(s));
}

/// Reading characters that do not move the state leaves it where it is.
pub proof fn lemma_quote_fold_stays(st: QuoteState, s: Seq<char>)
    requires
        forall|i: int| 0 <= i < s.len() ==> quote_step(st, #[trigger] s[i]) == st,
    ensures
        quote_fold(st, s) == st,
    decreases s.len(),
{
    if s.len() > 0 {
        assert forall|i: int| 0 <= i < s.drop_first().len() implies quote_step(
            st,
            #[trigger] s.drop_first()[i],
        ) == st by {
            assert(s.drop_first()[i] == s[i + 1]);
        }
        lemma_quote_fold_stays(st, s.drop_first());
    }
}

/// Text without quotes and backslashes leaves a line outside quotes.
pub proof fn law_quote_plain_text(s: Seq<char>)
    requires
        forall|i: int| 0 <= i < s.len() ==> s[i] != '"' && s[i] != '\'' && s[i] != '\\',
    ensures
        quote_fold(QuoteState::Close, s) == QuoteState::Close,
{
    lemma_quote_fold_stays(QuoteState::Close, s);
}

/// A double quote opened and closed again around text without `"` and `\`
/// leaves the line outside quotes; left open, it carries the line on.
pub proof fn law_quote_double(x: Seq<char>)
    requires
        forall|i: int| 0 <= i < x.len() ==> x[i] != '"' && x[i] != '\\',
    ensures
        quote_fold(QuoteState::Close, seq!['"'] + x) == QuoteState::WeakOpen,
        quote_fold(QuoteState::Close, seq!['"'] + x + seq!['"']) == QuoteState::Close,
{
    let q = seq!['"'];
    assert forall|i: int| 0 <= i < x.len() implies quote_step(QuoteState::WeakOpen, #[trigger] x[i])
        == QuoteState::WeakOpen by {}
    lemma_quote_fold_stays(QuoteState::WeakOpen, x);
    assert(q.drop_first() =~= Seq::<char>::empty());
    reveal_with_fuel(quote_fold, 2);
    assert(quote_fold(QuoteState::Close, q) == QuoteState::WeakOpen);
    assert(quote_fold(QuoteState::WeakOpen, q) == QuoteState::Close);
    lemma_quote_fold_add(QuoteState::Close, q, x);
    lemma_quote_fold_add(QuoteState::Close, q + x, q);
}

/// A single quote opened and closed again around text without `'` and `\`
/// leaves the line outside quotes; left open, it carries the line on.
pub proof fn law_quote_single(x: Seq<char>)
    requires
        forall|i: int| 0 <= i < x.len() ==> x[i] != '\'' && x[i] != '\\',
    ensures
        quote_fold(QuoteState::Close, seq!['\''] + x) == QuoteState::StrongOpen,
        quote_fold(QuoteState::Close, seq!['\''] + x + seq!['\'']) == QuoteState::Close,
{
    let q = seq!['\''];
    assert forall|i: int| 0 <= i < x.len() implies quote_step(QuoteState::StrongOpen, #[trigger] x[i])
        == QuoteState::StrongOpen by {}
    lemma_quote_fold_stays(QuoteState::StrongOpen, x);
    assert(q.drop_first() =~= Seq::<char>::empty());
    reveal_with_fuel(quote_fold, 2);
    assert(quote_fold(QuoteState::Close, q) == QuoteState::StrongOpen);
    assert(quote_fold(QuoteState::StrongOpen, q) == QuoteState::Close);
    lemma_quote_fold_add(QuoteState::Close, q, x);
    lemma_quote_fold_add(QuoteState::Close, q + x, q);
}

/// `trim_end(s)` is the prefix of `s` before its trailing whitespace.
proof fn lemma_trim_end(s: Seq<char>) -> (n: int)
    ensures
        0 <= n <= s.len(),
        trim_end(s) == s.take(n),
        forall|j: int| n <= j < s.len() ==> crate::text::is_whitespace(#[trigger] s[j]),
        n == 0 || !crate::text::is_whitespace(s[n - 1]),
    decreases s.len(),
{
    if s.len() > 0 && crate::text::is_whitespace(s.last()) {
        let n = lemma_trim_end(s.drop_last());
        assert(s.drop_last().take(n) =~= s.take(n));
        assert forall|j: int| n <= j < s.len() implies crate::text::is_whitespace(
            #[trigger] s[j],
        ) by {
            if j < s.len() - 1 {
                assert(s.drop_last()[j] == s[j]);
            }
        }
        n
    } else {
        assert(s.take(s.len() as int) =~= s);
        s.len() as int
    }
}

/// A line that is blank, or whose first character that is not whitespace
/// is `#`.
pub open spec fn blank_or_comment(line: Seq<char>) -> bool {
    exists|i: int|
        0 <= i <= line.len() && (i == line.len() || line[i] == '#') && #[trigger] blank_before(
            line,
            i,
        )
}

/// The characters of `line` before `i` are whitespace.
pub open spec fn blank_before(line: Seq<char>, i: int) -> bool {
    forall|j: int| 0 <= j < i ==> crate::text::is_whitespace(#[trigger] line[j])
}

/// The line parser skips exactly the blank lines and the comment lines.
pub proof fn law_line_skip(
    env: Seq<(Seq<char>, Seq<char>)>,
    ctx: Seq<(Seq<char>, Option<Seq<char>>)>,
    line: Seq<char>,
)
    ensures
        (line_outcome(env, ctx, line) is Skip) <==> blank_or_comment(line),
{
    let n = lemma_trim_end(line);
    let l = trim_end(line);
    lemma_scan_while_bounds(l, 0, |c: char| crate::text::is_whitespace(c));
    let i0 = skip_ws(l, 0);
    if i0 == l.len() || l[i0] == '#' {
        if i0 == l.len() {
            assert forall|j: int| 0 <= j < line.len() implies crate::text::is_whitespace(
                #[trigger] line[j],
            ) by {
                if j < n {
                    assert(l[j] == line[j]);
                }
            }
            assert(blank_before(line, line.len() as int));
        } else {
            assert forall|j: int| 0 <= j < i0 implies crate::text::is_whitespace(
                #[trigger] line[j],
            ) by {
                assert(l[j] == line[j]);
            }
            assert(line[i0] == '#');
            assert(blank_before(line, i0));
        }
    } else {
        if blank_or_comment(line) {
            let i = choose|i: int|
                0 <= i <= line.len() && (i == line.len() || line[i] == '#') && #[trigger] blank_before(
                    line,
                    i,
                );
            assert(l[i0] == line[i0]);
            assert(!crate::text::is_whitespace(l[i0]));
            if i0 < i {
                assert(crate::text::is_whitespace(line[i0]));
            } else {
                assert(l[i] == line[i]);
                if i < i0 {
                    assert(crate::text::is_whitespace(l[i]));
                }
            }
        }
    }
}

/// An entry changes what the context says of its own key only.
pub proof fn law_line_context_other_keys(
    env: Seq<(Seq<char>, Seq<char>)>,
    ctx: Seq<(Seq<char>, Option<Seq<char>>)>,
    line: Seq<char>,
)
    ensures
        line_outcome(env, ctx, line) matches LineOutcome::Entry { key, value, recorded } ==> forall|
            other: Seq<char>,
        |
            other != key ==> #[trigger] assoc_get(ctx.push((key, recorded)), other) == assoc_get(
                ctx,
                other,
            ),
{
    if let LineOutcome::Entry { key, value, recorded } = line_outcome(env, ctx, line) {
        assert forall|other: Seq<char>| other != key implies #[trigger] assoc_get(
            ctx.push((key, recorded)),
            other,
        ) == assoc_get(ctx, other) by {
            law_lookup_other(ctx, key, recorded, other);
        }
    }
}

} // verus!
