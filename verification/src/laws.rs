//! Laws of the tokenizer, proved against its model: the whitespace law, the
//! round trip through re-serialization, and what the error results hold of
//! unmatched and mismatched delimiters.

use vstd::prelude::*;
use crate::model::{
    close_char, close_for, find_quote, ident_end, init_stack, is_blank, is_close, is_digit,
    is_ident_cont, is_ident_start, is_open, is_punct, kind_of, lemma_find_quote_bounds,
    lemma_ident_end_bounds, lemma_num_scan_bounds, lemma_scan_at_bounds, lex_from, num_scan,
    open_char, push_tok, scan_at, spec_tokenize, NumScan, Scope, Step,
};
use crate::serial::{ser_tok, ser_toks};
use crate::token::{Bracket, LexError, Tok};

verus! {

/// A token the tokenizer itself could have produced: its text obeys the
/// character classes of its kind, so that re-serializing it reads back as
/// the same token.
pub open spec fn wf_tok(t: Tok) -> bool
    decreases t,
{
    match t {
        Tok::Ident(w) => w.len() >= 1 && is_ident_start(w[0]) && (forall|k: int|
            0 <= k < w.len() ==> is_ident_cont(#[trigger] w[k])) && w != "true"@ && w
            != "false"@,
        Tok::Num(w) => w.len() >= 1 && is_digit(w[0]) && (forall|k: int|
            0 <= k < w.len() ==> is_digit(#[trigger] w[k]) || w[k] == '.') && (forall|
            k1: int,
            k2: int,
        |
            0 <= k1 < k2 < w.len() && w[k1] == '.' ==> w[k2] != '.'),
        Tok::Str(w) => forall|k: int| 0 <= k < w.len() ==> #[trigger] w[k] != '"',
        Tok::Bool(_) => true,
        Tok::Punct(c) => is_punct(c),
        Tok::Group(_, ts) => wf_toks(ts),
    }
}

/// Every token of the sequence is well formed.
pub open spec fn wf_toks(ts: Seq<Tok>) -> bool
    decreases ts,
{
    forall|i: int| 0 <= i < ts.len() ==> wf_tok(#[trigger] ts[i])
}

/// Scanning over a run of whitespace changes nothing.
proof fn lemma_blank_run(s: Seq<char>, i: int, st: Seq<Scope>)
    requires
        0 <= i <= s.len(),
        st.len() >= 1,
        forall|m: int| i <= m < s.len() ==> is_blank(#[trigger] s[m]),
    ensures
        lex_from(s, i, st) == lex_from(s, s.len() as int, st),
    decreases s.len() - i,
{
    if i < s.len() {
        assert(scan_at(s, i) == Step::Blank(i + 1));
        lemma_blank_run(s, i + 1, st);
    }
}

/// An input of whitespace alone tokenizes to the empty top-level sequence.
pub proof fn law_whitespace_empty(s: Seq<char>)
    requires
        forall|m: int| 0 <= m < s.len() ==> is_blank(#[trigger] s[m]),
    ensures
        spec_tokenize(s) == Ok::<Seq<Tok>, LexError>(Seq::empty()),
{
    lemma_blank_run(s, 0, init_stack());
}

/// A quote at `k`, with none before it, is the one `find_quote` finds.
proof fn lemma_find_quote_exact(s: Seq<char>, a: int, k: int)
    requires
        0 <= a <= k < s.len(),
        s[k] == '"',
        forall|m: int| a <= m < k ==> s[m] != '"',
    ensures
        find_quote(s, a) == Some(k),
    decreases k - a,
{
    if a < k {
        lemma_find_quote_exact(s, a + 1, k);
    }
}

/// A run of identifier characters ended by a non-identifier character (or
/// by the end of input) is exactly what `ident_end` consumes.
proof fn lemma_ident_run(s: Seq<char>, a: int, e: int)
    requires
        0 <= a <= e <= s.len(),
        forall|m: int| a <= m < e ==> is_ident_cont(#[trigger] s[m]),
        e < s.len() ==> !is_ident_cont(s[e]),
    ensures
        ident_end(s, a) == e,
    decreases e - a,
{
    if a < e {
        lemma_ident_run(s, a + 1, e);
    }
}

/// A run of digits and at most one dot, ended by a character that is
/// neither, is exactly what `num_scan` consumes.
proof fn lemma_num_run(s: Seq<char>, a: int, j: int, seen_dot: bool)
    requires
        0 <= a <= j < s.len(),
        forall|m: int| a <= m < j ==> is_digit(#[trigger] s[m]) || s[m] == '.',
        forall|m1: int, m2: int| a <= m1 < m2 < j && s[m1] == '.' ==> s[m2] != '.',
        seen_dot ==> forall|m: int| a <= m < j ==> s[m] != '.',
        !is_digit(s[j]),
        s[j] != '.',
    ensures
        num_scan(s, a, seen_dot) == NumScan::End(j),
    decreases j - a,
{
    if a < j {
        if s[a] == '.' {
            lemma_num_run(s, a + 1, j, true);
        } else {
            lemma_num_run(s, a + 1, j, seen_dot);
        }
    }
}

/// The scope stack after the tokens `ts` have all been appended to the
/// innermost open scope.
pub open spec fn push_all(st: Seq<Scope>, ts: Seq<Tok>) -> Seq<Scope>
    recommends st.len() >= 1,
{
    st.update(st.len() - 1, (st.last().0, st.last().1 + ts))
}

/// A single space is skipped.
proof fn lemma_space_step(s: Seq<char>, p: int, st: Seq<Scope>)
    requires
        0 <= p < s.len(),
        s[p] == ' ',
        st.len() >= 1,
    ensures
        lex_from(s, p, st) == lex_from(s, p + 1, st),
{
    assert(scan_at(s, p) == Step::Blank(p + 1));
}

/// Scanning the serialization of one well-formed token from `i` appends
/// exactly that token to the innermost scope.
proof fn lemma_lex_tok(s: Seq<char>, i: int, st: Seq<Scope>, t: Tok)
    requires
        st.len() >= 1,
        wf_tok(t),
        0 <= i,
        i + ser_tok(t).len() <= s.len(),
        s.subrange(i, i + ser_tok(t).len() as int) == ser_tok(t),
    ensures
        lex_from(s, i, st) == lex_from(s, i + ser_tok(t).len(), push_tok(st, t)),
    decreases t,
{
    let ser = ser_tok(t);
    let l = ser.len() as int;
    assert forall|m: int| 0 <= m < l implies s[i + m] == ser[m] by {
        assert(s.subrange(i, i + l)[m] == s[i + m]);
    }
    match t {
        Tok::Ident(w) => {
            let e = i + w.len() as int;
            assert(s[i] == ser[0]) by {
                assert(s.subrange(i, i + l)[0] == s[i]);
            }
            assert(s[i] == w[0]);
            assert forall|m: int| i + 1 <= m < e implies is_ident_cont(#[trigger] s[m]) by {
                assert(s.subrange(i, i + l)[m - i] == s[m]);
                assert(ser[m - i] == w[m - i]);
            }
            assert(s[e] == ser[e - i]) by {
                assert(s.subrange(i, i + l)[e - i] == s[e]);
            }
            assert(s[e] == ' ');
            lemma_ident_run(s, i + 1, e);
            assert(s.subrange(i, e) =~= w);
            assert(scan_at(s, i) == Step::Emit(Tok::Ident(w), e));
            lemma_space_step(s, e, push_tok(st, t));
        }
        Tok::Num(w) => {
            let e = i + w.len() as int;
            assert(s[i] == ser[0]) by {
                assert(s.subrange(i, i + l)[0] == s[i]);
            }
            assert(s[i] == w[0]);
            assert forall|m: int| i + 1 <= m < e implies is_digit(#[trigger] s[m]) || s[m]
                == '.' by {
                assert(s.subrange(i, i + l)[m - i] == s[m]);
                assert(ser[m - i] == w[m - i]);
            }
            assert forall|m1: int, m2: int|
                i + 1 <= m1 < m2 < e && s[m1] == '.' implies s[m2] != '.' by {
                assert(s.subrange(i, i + l)[m1 - i] == s[m1]);
                assert(s.subrange(i, i + l)[m2 - i] == s[m2]);
                assert(ser[m1 - i] == w[m1 - i]);
                assert(ser[m2 - i] == w[m2 - i]);
            }
            assert(s[e] == ser[e - i]) by {
                assert(s.subrange(i, i + l)[e - i] == s[e]);
            }
            assert(s[e] == ' ');
            lemma_num_run(s, i + 1, e, false);
            assert(s.subrange(i, e) =~= w);
            assert(scan_at(s, i) == Step::Emit(Tok::Num(w), e));
            lemma_space_step(s, e, push_tok(st, t));
        }
        Tok::Str(w) => {
            let k = i + 1 + w.len() as int;
            assert(s[i] == ser[0]) by {
                assert(s.subrange(i, i + l)[0] == s[i]);
            }
            assert(s[i] == '"');
            assert forall|m: int| i + 1 <= m < k implies s[m] != '"' by {
                assert(s.subrange(i, i + l)[m - i] == s[m]);
                assert(ser[m - i] == w[m - i - 1]);
            }
            assert(s[k] == ser[k - i]) by {
                assert(s.subrange(i, i + l)[k - i] == s[k]);
            }
            assert(s[k] == '"');
            assert(s[k + 1] == ser[k + 1 - i]) by {
                assert(s.subrange(i, i + l)[k + 1 - i] == s[k + 1]);
            }
            assert(s[k + 1] == ' ');
            lemma_find_quote_exact(s, i + 1, k);
            assert forall|m: int| 0 <= m < w.len() implies s.subrange(i + 1, k)[m] == w[m] by {
                assert(s.subrange(i + 1, k)[m] == s[i + 1 + m]);
                assert(s.subrange(i, i + l)[1 + m] == s[i + 1 + m]);
                assert(ser[1 + m] == w[m]);
            }
            assert(s.subrange(i + 1, k) =~= w);
            assert(scan_at(s, i) == Step::Emit(Tok::Str(w), k + 1));
            lemma_space_step(s, k + 1, push_tok(st, t));
        }
        Tok::Bool(b) => {
            let w = if b { "true"@ } else { "false"@ };
            reveal_strlit("true");
            reveal_strlit("false");
            let e = i + w.len() as int;
            assert(s[i] == ser[0]) by {
                assert(s.subrange(i, i + l)[0] == s[i]);
            }
            assert(s[i] == w[0]);
            assert forall|m: int| i + 1 <= m < e implies is_ident_cont(#[trigger] s[m]) by {
                assert(s.subrange(i, i + l)[m - i] == s[m]);
                assert(ser[m - i] == w[m - i]);
            }
            assert(s[e] == ser[e - i]) by {
                assert(s.subrange(i, i + l)[e - i] == s[e]);
            }
            assert(s[e] == ' ');
            lemma_ident_run(s, i + 1, e);
            assert(s.subrange(i, e) =~= w);
            assert(scan_at(s, i) == Step::Emit(Tok::Bool(b), e));
            lemma_space_step(s, e, push_tok(st, t));
        }
        Tok::Punct(c) => {
            assert(s[i] == ser[0]) by {
                assert(s.subrange(i, i + l)[0] == s[i]);
            }
            assert(s[i] == c);
            assert(s[i + 1] == ser[1]) by {
                assert(s.subrange(i, i + l)[1] == s[i + 1]);
            }
            assert(s[i + 1] == ' ');
            assert(scan_at(s, i) == Step::Emit(Tok::Punct(c), i + 1));
            lemma_space_step(s, i + 1, push_tok(st, t));
        }
        Tok::Group(k, ch) => {
            let sc = ser_toks(ch);
            let p = i + 1 + sc.len() as int;
            assert(s[i] == ser[0]) by {
                assert(s.subrange(i, i + l)[0] == s[i]);
            }
            assert(s[i] == open_char(k));
            assert(is_open(open_char(k)));
            assert(scan_at(s, i) == Step::Open(open_char(k), i + 1));
            let st1 = st.push((open_char(k), Seq::empty()));
            assert forall|m: int| 0 <= m < sc.len() implies s[i + 1 + m] == sc[m] by {
                assert(s.subrange(i, i + l)[1 + m] == s[i + 1 + m]);
                assert(ser[1 + m] == sc[m]);
            }
            assert(s.subrange(i + 1, p) =~= sc);
            lemma_lex_toks(s, i + 1, st1, ch);
            let st2 = push_all(st1, ch);
            assert(Seq::<Tok>::empty() + ch =~= ch);
            assert(st2 =~= st.push((open_char(k), ch)));
            assert(s[p] == ser[p - i]) by {
                assert(s.subrange(i, i + l)[p - i] == s[p]);
            }
            assert(s[p] == close_char(k));
            assert(s[p + 1] == ser[p + 1 - i]) by {
                assert(s.subrange(i, i + l)[p + 1 - i] == s[p + 1]);
            }
            assert(s[p + 1] == ' ');
            assert(scan_at(s, p) == Step::Close(close_char(k), p + 1));
            assert(st2.len() >= 2);
            assert(st2.last() == (open_char(k), ch));
            assert(close_for(open_char(k)) == close_char(k));
            assert(kind_of(open_char(k)) == k);
            assert(st2.drop_last() =~= st);
            assert(lex_from(s, p, st2) == lex_from(s, p + 1, push_tok(st, t)));
            lemma_space_step(s, p + 1, push_tok(st, t));
        }
    }
}

/// Scanning the serialization of a well-formed token sequence from `i`
/// appends exactly those tokens to the innermost scope.
proof fn lemma_lex_toks(s: Seq<char>, i: int, st: Seq<Scope>, ts: Seq<Tok>)
    requires
        st.len() >= 1,
        wf_toks(ts),
        0 <= i,
        i + ser_toks(ts).len() <= s.len(),
        s.subrange(i, i + ser_toks(ts).len() as int) == ser_toks(ts),
    ensures
        lex_from(s, i, st) == lex_from(s, i + ser_toks(ts).len(), push_all(st, ts)),
    decreases ts,
{
    if ts.len() == 0 {
        assert(st.last().1 + ts =~= st.last().1);
        assert(push_all(st, ts) =~= st);
    } else {
        let t0 = ts[0];
        let rest = ts.drop_first();
        let sc0 = ser_tok(t0);
        let scr = ser_toks(rest);
        assert(ser_toks(ts) == sc0 + scr);
        assert forall|m: int| 0 <= m < ser_toks(ts).len() implies s[i + m] == ser_toks(ts)[m] by {
            assert(s.subrange(i, i + ser_toks(ts).len() as int)[m] == s[i + m]);
        }
        assert(s.subrange(i, i + sc0.len() as int) =~= sc0);
        lemma_lex_tok(s, i, st, t0);
        let st1 = push_tok(st, t0);
        let j = i + sc0.len() as int;
        assert forall|m: int| 0 <= m < scr.len() implies s.subrange(j, j + scr.len() as int)[m]
            == scr[m] by {
            assert(s[i + (sc0.len() + m)] == ser_toks(ts)[sc0.len() + m]);
            assert(s.subrange(j, j + scr.len() as int)[m] == s[j + m]);
        }
        assert(s.subrange(j, j + scr.len() as int) =~= scr);
        assert(wf_toks(rest)) by {
            assert(forall|m: int| 0 <= m < rest.len() ==> rest[m] == ts[m + 1]);
        }
        lemma_lex_toks(s, j, st1, rest);
        assert(st.last().1.push(t0) + rest =~= st.last().1 + ts);
        assert(push_all(st1, rest) =~= push_all(st, ts));
    }
}

/// Every scope of the stack holds only well-formed tokens.
pub open spec fn stack_wf(st: Seq<Scope>) -> bool {
    forall|e: int| 0 <= e < st.len() ==> wf_toks((#[trigger] st[e]).1)
}

/// Every token that one dispatch emits is well formed.
proof fn lemma_scan_at_wf(s: Seq<char>, i: int)
    requires
        0 <= i < s.len(),
    ensures
        scan_at(s, i) matches Step::Emit(t, _) ==> wf_tok(t),
{
    lemma_find_quote_bounds(s, i + 1);
    lemma_num_scan_bounds(s, i + 1, false);
    lemma_ident_end_bounds(s, i + 1);
    let c = s[i];
    if c == '"' {
        match find_quote(s, i + 1) {
            Some(k) => {
                let w = s.subrange(i + 1, k);
                assert forall|m: int| 0 <= m < w.len() implies #[trigger] w[m] != '"' by {
                    assert(w[m] == s[i + 1 + m]);
                }
            }
            None => {}
        }
    } else if is_digit(c) {
        match num_scan(s, i + 1, false) {
            NumScan::End(j) => {
                let w = s.subrange(i, j);
                assert(w[0] == s[i]);
                assert forall|m: int| 0 <= m < w.len() implies is_digit(#[trigger] w[m]) || w[m]
                    == '.' by {
                    assert(w[m] == s[i + m]);
                }
                assert forall|k1: int, k2: int|
                    0 <= k1 < k2 < w.len() && w[k1] == '.' implies w[k2] != '.' by {
                    assert(w[k1] == s[i + k1]);
                    assert(w[k2] == s[i + k2]);
                    assert(!is_digit('.'));
                }
            }
            _ => {}
        }
    } else if is_ident_start(c) {
        let j = ident_end(s, i + 1);
        let w = s.subrange(i, j);
        assert(w[0] == s[i]);
        assert forall|m: int| 0 <= m < w.len() implies is_ident_cont(#[trigger] w[m]) by {
            assert(w[m] == s[i + m]);
        }
    }
}

/// A scan from a stack of well-formed scopes yields well-formed tokens.
proof fn lemma_lex_from_wf(s: Seq<char>, i: int, st: Seq<Scope>)
    requires
        0 <= i <= s.len(),
        st.len() >= 1,
        stack_wf(st),
    ensures
        lex_from(s, i, st) matches Ok(ts) ==> wf_toks(ts),
    decreases s.len() - i,
{
    if i < s.len() {
        lemma_scan_at_bounds(s, i);
        lemma_scan_at_wf(s, i);
        match scan_at(s, i) {
            Step::Emit(t, j) => {
                assert(stack_wf(push_tok(st, t))) by {
                    assert(forall|m: int|
                        0 <= m < st.last().1.len() ==> #[trigger] st.last().1.push(t)[m]
                            == st.last().1[m]);
                }
                lemma_lex_from_wf(s, j, push_tok(st, t));
            }
            Step::Open(c, j) => {
                assert(stack_wf(st.push((c, Seq::empty()))));
                lemma_lex_from_wf(s, j, st.push((c, Seq::empty())));
            }
            Step::Close(c, j) => {
                if st.len() > 1 && c == close_for(st.last().0) {
                    let g = Tok::Group(kind_of(st.last().0), st.last().1);
                    assert(wf_tok(g));
                    let st1 = push_tok(st.drop_last(), g);
                    assert(stack_wf(st1)) by {
                        let base = st.drop_last();
                        assert(forall|m: int|
                            0 <= m < base.last().1.len() ==> #[trigger] base.last().1.push(g)[m]
                                == base.last().1[m]);
                    }
                    lemma_lex_from_wf(s, j, st1);
                }
            }
            Step::Blank(j) => {
                lemma_lex_from_wf(s, j, st);
            }
            Step::Fail(_) => {}
        }
    }
}

/// Whatever the tokenizer returns successfully is well formed.
pub proof fn law_tokenize_wf(s: Seq<char>)
    ensures
        spec_tokenize(s) matches Ok(ts) ==> wf_toks(ts),
{
    lemma_lex_from_wf(s, 0, init_stack());
}

/// Re-tokenizing the re-serialization of a well-formed token sequence
/// yields exactly that sequence.
pub proof fn law_round_trip(ts: Seq<Tok>)
    requires
        wf_toks(ts),
    ensures
        spec_tokenize(ser_toks(ts)) == Ok::<Seq<Tok>, LexError>(ts),
{
    let s = ser_toks(ts);
    assert(s.subrange(0, s.len() as int) =~= s);
    lemma_lex_toks(s, 0, init_stack(), ts);
    let stf = push_all(init_stack(), ts);
    assert(stf.len() == 1);
    assert(stf[0].0 == ' ');
    assert(stf[0].1 =~= ts);
}

/// The round trip from any successfully tokenized input: re-serializing
/// the result and tokenizing again returns a structurally equal tree.
pub proof fn law_tokenize_round_trip(s: Seq<char>)
    ensures
        spec_tokenize(s) matches Ok(ts) ==> spec_tokenize(ser_toks(ts)) == Ok::<
            Seq<Tok>,
            LexError,
        >(ts),
{
    law_tokenize_wf(s);
    match spec_tokenize(s) {
        Ok(ts) => {
            law_round_trip(ts);
        }
        Err(_) => {}
    }
}

/// A closing delimiter right after any well-bracketed prefix is an
/// unmatched close, whatever follows it.
pub proof fn law_unmatched_close(ts: Seq<Tok>, c: char, rest: Seq<char>)
    requires
        wf_toks(ts),
        is_close(c),
    ensures
        spec_tokenize(ser_toks(ts) + seq![c] + rest) == Err::<Seq<Tok>, LexError>(
            LexError::UnmatchedClose { found: c },
        ),
{
    let pre = ser_toks(ts);
    let s = pre + seq![c] + rest;
    let ll = pre.len() as int;
    assert forall|m: int| 0 <= m < ll implies s.subrange(0, ll)[m] == pre[m] by {
        assert(s[m] == (pre + seq![c])[m]);
    }
    assert(s.subrange(0, ll) =~= pre);
    lemma_lex_toks(s, 0, init_stack(), ts);
    assert(s[ll] == (pre + seq![c])[ll]);
    assert(s[ll] == c);
    assert(scan_at(s, ll) == Step::Close(c, ll + 1));
    assert(push_all(init_stack(), ts).len() == 1);
}

/// A closing delimiter that does not match the innermost open delimiter is
/// a mismatched bracket, whatever follows it.
pub proof fn law_mismatched_bracket(
    ts: Seq<Tok>,
    k: Bracket,
    inner: Seq<Tok>,
    c: char,
    rest: Seq<char>,
)
    requires
        wf_toks(ts),
        wf_toks(inner),
        is_close(c),
        c != close_char(k),
    ensures
        spec_tokenize(ser_toks(ts) + seq![open_char(k)] + ser_toks(inner) + seq![c] + rest)
            == Err::<Seq<Tok>, LexError>(
            LexError::MismatchedBracket { found: c, expected: close_char(k) },
        ),
{
    let pre = ser_toks(ts);
    let sin = ser_toks(inner);
    let a = pre + seq![open_char(k)];
    let b = a + sin;
    let d = b + seq![c];
    let s = d + rest;
    let l0 = pre.len() as int;
    let p = l0 + 1 + sin.len() as int;
    assert forall|m: int| 0 <= m < l0 implies s.subrange(0, l0)[m] == pre[m] by {
        assert(s[m] == d[m]);
        assert(d[m] == b[m]);
        assert(b[m] == a[m]);
        assert(a[m] == pre[m]);
    }
    assert(s.subrange(0, l0) =~= pre);
    lemma_lex_toks(s, 0, init_stack(), ts);
    let st0 = push_all(init_stack(), ts);
    assert(st0.len() == 1);
    assert(s[l0] == d[l0]);
    assert(d[l0] == b[l0]);
    assert(b[l0] == a[l0]);
    assert(a[l0] == open_char(k));
    assert(is_open(open_char(k)));
    assert(scan_at(s, l0) == Step::Open(open_char(k), l0 + 1));
    let st1 = st0.push((open_char(k), Seq::empty()));
    assert forall|m: int| 0 <= m < sin.len() implies s.subrange(l0 + 1, p)[m] == sin[m] by {
        assert(s.subrange(l0 + 1, p)[m] == s[l0 + 1 + m]);
        assert(s[l0 + 1 + m] == d[l0 + 1 + m]);
        assert(d[l0 + 1 + m] == b[l0 + 1 + m]);
        assert(b[l0 + 1 + m] == sin[m]);
    }
    assert(s.subrange(l0 + 1, p) =~= sin);
    lemma_lex_toks(s, l0 + 1, st1, inner);
    let st2 = push_all(st1, inner);
    assert(st2.len() == 2);
    assert(st2.last().0 == open_char(k));
    assert(s[p] == d[p]);
    assert(d[p] == c);
    assert(scan_at(s, p) == Step::Close(c, p + 1));
    assert(close_for(st2.last().0) == close_char(k));
}

/// The number of `Group` tokens at the top level of a token sequence.
pub open spec fn top_group_count(ts: Seq<Tok>) -> nat
    decreases ts,
{
    if ts.len() == 0 {
        0nat
    } else {
        (if ts[0] is Group { 1nat } else { 0nat }) + top_group_count(ts.drop_first())
    }
}

/// The number of matched delimiter pairs at the top level of a source
/// text, read from position `i` at nesting depth `depth`, skipping string
/// literals: a closing delimiter that brings the depth back to zero closes
/// one top-level pair.
pub open spec fn pair_count(s: Seq<char>, i: int, depth: int) -> nat
    decreases s.len() - i,
    via pair_count_dec
{
    if i < 0 || i >= s.len() {
        0nat
    } else if s[i] == '"' {
        match find_quote(s, i + 1) {
            Some(k) => pair_count(s, k + 1, depth),
            None => 0nat,
        }
    } else if is_open(s[i]) {
        pair_count(s, i + 1, depth + 1)
    } else if is_close(s[i]) {
        (if depth == 1 { 1nat } else { 0nat }) + pair_count(s, i + 1, depth - 1)
    } else {
        pair_count(s, i + 1, depth)
    }
}

#[via_fn]
proof fn pair_count_dec(s: Seq<char>, i: int, depth: int) {
    if 0 <= i < s.len() && s[i] == '"' {
        lemma_find_quote_bounds(s, i + 1);
    }
}

/// A character that neither opens a string nor moves the bracket depth.
pub open spec fn is_neutral(c: char) -> bool {
    c != '"' && !is_open(c) && !is_close(c)
}

/// A run of neutral characters leaves the pair count alone.
proof fn lemma_pc_neutral(s: Seq<char>, i: int, e: int, d: int)
    requires
        0 <= i <= e <= s.len(),
        forall|m: int| i <= m < e ==> is_neutral(#[trigger] s[m]),
    ensures
        pair_count(s, i, d) == pair_count(s, e, d),
    decreases e - i,
{
    if i < e {
        lemma_pc_neutral(s, i + 1, e, d);
    }
}

/// The serialization of one well-formed token contributes one top-level
/// pair when it is a group read at depth zero, and none otherwise.
proof fn lemma_pc_tok(s: Seq<char>, i: int, d: int, t: Tok)
    requires
        wf_tok(t),
        0 <= i,
        0 <= d,
        i + ser_tok(t).len() <= s.len(),
        s.subrange(i, i + ser_tok(t).len() as int) == ser_tok(t),
    ensures
        pair_count(s, i, d) == (if t is Group && d == 0 { 1nat } else { 0nat }) + pair_count(
            s,
            i + ser_tok(t).len(),
            d,
        ),
    decreases t,
{
    let ser = ser_tok(t);
    let l = ser.len() as int;
    assert forall|m: int| 0 <= m < l implies s[i + m] == ser[m] by {
        assert(s.subrange(i, i + l)[m] == s[i + m]);
    }
    match t {
        Tok::Ident(w) => {
            assert forall|m: int| i <= m < i + l implies is_neutral(#[trigger] s[m]) by {
                assert(s.subrange(i, i + l)[m - i] == s[m]);
            }
            lemma_pc_neutral(s, i, i + l, d);
        }
        Tok::Num(w) => {
            assert forall|m: int| i <= m < i + l implies is_neutral(#[trigger] s[m]) by {
                assert(s.subrange(i, i + l)[m - i] == s[m]);
            }
            lemma_pc_neutral(s, i, i + l, d);
        }
        Tok::Bool(b) => {
            reveal_strlit("true");
            reveal_strlit("false");
            assert forall|m: int| i <= m < i + l implies is_neutral(#[trigger] s[m]) by {
                assert(s.subrange(i, i + l)[m - i] == s[m]);
            }
            lemma_pc_neutral(s, i, i + l, d);
        }
        Tok::Punct(c) => {
            assert forall|m: int| i <= m < i + l implies is_neutral(#[trigger] s[m]) by {
                assert(s.subrange(i, i + l)[m - i] == s[m]);
            }
            lemma_pc_neutral(s, i, i + l, d);
        }
        Tok::Str(w) => {
            let k = i + 1 + w.len() as int;
            assert(s[i] == ser[0]) by {
                assert(s.subrange(i, i + l)[0] == s[i]);
            }
            assert forall|m: int| i + 1 <= m < k implies s[m] != '"' by {
                assert(s.subrange(i, i + l)[m - i] == s[m]);
                assert(ser[m - i] == w[m - i - 1]);
            }
            assert(s[k] == ser[k - i]) by {
                assert(s.subrange(i, i + l)[k - i] == s[k]);
            }
            assert(s[k + 1] == ser[k + 1 - i]) by {
                assert(s.subrange(i, i + l)[k + 1 - i] == s[k + 1]);
            }
            lemma_find_quote_exact(s, i + 1, k);
            assert(pair_count(s, i, d) == pair_count(s, k + 1, d));
            assert forall|m: int| k + 1 <= m < i + l implies is_neutral(#[trigger] s[m]) by {
                assert(s.subrange(i, i + l)[m - i] == s[m]);
            }
            lemma_pc_neutral(s, k + 1, i + l, d);
        }
        Tok::Group(k, ch) => {
            let sc = ser_toks(ch);
            let p = i + 1 + sc.len() as int;
            assert(s[i] == ser[0]) by {
                assert(s.subrange(i, i + l)[0] == s[i]);
            }
            assert(s[i] == open_char(k));
            assert(is_open(open_char(k)));
            assert(pair_count(s, i, d) == pair_count(s, i + 1, d + 1));
            assert forall|m: int| 0 <= m < sc.len() implies s.subrange(i + 1, p)[m] == sc[m] by {
                assert(s.subrange(i + 1, p)[m] == s[i + 1 + m]);
                assert(s.subrange(i, i + l)[1 + m] == s[i + 1 + m]);
                assert(ser[1 + m] == sc[m]);
            }
            assert(s.subrange(i + 1, p) =~= sc);
            lemma_pc_toks(s, i + 1, d + 1, ch);
            assert(s[p] == ser[p - i]) by {
                assert(s.subrange(i, i + l)[p - i] == s[p]);
            }
            assert(s[p] == close_char(k));
            assert(is_close(close_char(k)));
            assert(pair_count(s, p, d + 1) == (if d + 1 == 1 { 1nat } else { 0nat })
                + pair_count(s, p + 1, d));
            assert(s[p + 1] == ser[p + 1 - i]) by {
                assert(s.subrange(i, i + l)[p + 1 - i] == s[p + 1]);
            }
            assert(s[p + 1] == ' ');
            assert(pair_count(s, p + 1, d) == pair_count(s, p + 2, d));
        }
    }
}

/// The serialization of a well-formed token sequence read at depth zero
/// contributes exactly its top-level groups to the pair count, and nothing
/// at a deeper nesting.
proof fn lemma_pc_toks(s: Seq<char>, i: int, d: int, ts: Seq<Tok>)
    requires
        wf_toks(ts),
        0 <= i,
        0 <= d,
        i + ser_toks(ts).len() <= s.len(),
        s.subrange(i, i + ser_toks(ts).len() as int) == ser_toks(ts),
    ensures
        pair_count(s, i, d) == (if d == 0 { top_group_count(ts) } else { 0nat }) + pair_count(
            s,
            i + ser_toks(ts).len(),
            d,
        ),
    decreases ts,
{
    if ts.len() > 0 {
        let t0 = ts[0];
        let rest = ts.drop_first();
        let sc0 = ser_tok(t0);
        let scr = ser_toks(rest);
        assert(ser_toks(ts) == sc0 + scr);
        assert forall|m: int| 0 <= m < ser_toks(ts).len() implies s[i + m] == ser_toks(ts)[m] by {
            assert(s.subrange(i, i + ser_toks(ts).len() as int)[m] == s[i + m]);
        }
        assert(s.subrange(i, i + sc0.len() as int) =~= sc0);
        lemma_pc_tok(s, i, d, t0);
        let j = i + sc0.len() as int;
        assert forall|m: int| 0 <= m < scr.len() implies s.subrange(j, j + scr.len() as int)[m]
            == scr[m] by {
            assert(s[i + (sc0.len() + m)] == ser_toks(ts)[sc0.len() + m]);
            assert(s.subrange(j, j + scr.len() as int)[m] == s[j + m]);
        }
        assert(s.subrange(j, j + scr.len() as int) =~= scr);
        assert(wf_toks(rest)) by {
            assert(forall|m: int| 0 <= m < rest.len() ==> rest[m] == ts[m + 1]);
        }
        lemma_pc_toks(s, j, d, rest);
    }
}

/// For every well-bracketed input (the serialization of a well-formed
/// tree), the number of matched delimiter pairs at the top level equals
/// the number of `Group` tokens at the top level; applied to a group's
/// children, the same holds at every nesting level. Which delimiter each
/// group records is pinned by `law_round_trip`.
pub proof fn law_group_count(ts: Seq<Tok>)
    requires
        wf_toks(ts),
    ensures
        pair_count(ser_toks(ts), 0, 0) == top_group_count(ts),
{
    let s = ser_toks(ts);
    assert(s.subrange(0, s.len() as int) =~= s);
    lemma_pc_toks(s, 0, 0, ts);
}

/// The kinds of the `Group` tokens at the top level of a token sequence,
/// in order.
pub open spec fn top_group_kinds(ts: Seq<Tok>) -> Seq<Bracket>
    decreases ts,
{
    if ts.len() == 0 {
        Seq::empty()
    } else {
        (match ts[0] {
            Tok::Group(k, _) => seq![k],
            _ => Seq::empty(),
        }) + top_group_kinds(ts.drop_first())
    }
}

/// The kinds of the delimiter pairs opened at the top level of a source
/// text, read from position `i` at nesting depth `depth`, skipping string
/// literals, in order.
pub open spec fn top_pair_kinds(s: Seq<char>, i: int, depth: int) -> Seq<Bracket>
    decreases s.len() - i,
    via top_pair_kinds_dec
{
    if i < 0 || i >= s.len() {
        Seq::empty()
    } else if s[i] == '"' {
        match find_quote(s, i + 1) {
            Some(k) => top_pair_kinds(s, k + 1, depth),
            None => Seq::empty(),
        }
    } else if is_open(s[i]) {
        (if depth == 0 { seq![kind_of(s[i])] } else { Seq::empty() }) + top_pair_kinds(
            s,
            i + 1,
            depth + 1,
        )
    } else if is_close(s[i]) {
        top_pair_kinds(s, i + 1, depth - 1)
    } else {
        top_pair_kinds(s, i + 1, depth)
    }
}

#[via_fn]
proof fn top_pair_kinds_dec(s: Seq<char>, i: int, depth: int) {
    if 0 <= i < s.len() && s[i] == '"' {
        lemma_find_quote_bounds(s, i + 1);
    }
}

/// A run of neutral characters records no pair kinds.
proof fn lemma_pk_neutral(s: Seq<char>, i: int, e: int, d: int)
    requires
        0 <= i <= e <= s.len(),
        forall|m: int| i <= m < e ==> is_neutral(#[trigger] s[m]),
    ensures
        top_pair_kinds(s, i, d) == top_pair_kinds(s, e, d),
    decreases e - i,
{
    if i < e {
        lemma_pk_neutral(s, i + 1, e, d);
    }
}

/// The serialization of one well-formed token records its kind when it is
/// a group read at depth zero, and nothing otherwise.
proof fn lemma_pk_tok(s: Seq<char>, i: int, d: int, t: Tok)
    requires
        wf_tok(t),
        0 <= i,
        0 <= d,
        i + ser_tok(t).len() <= s.len(),
        s.subrange(i, i + ser_tok(t).len() as int) == ser_tok(t),
    ensures
        top_pair_kinds(s, i, d) == (match t {
            Tok::Group(k, _) => if d == 0 { seq![k] } else { Seq::empty() },
            _ => Seq::empty(),
        }) + top_pair_kinds(s, i + ser_tok(t).len(), d),
    decreases t,
{
    let ser = ser_tok(t);
    let l = ser.len() as int;
    assert forall|m: int| 0 <= m < l implies s[i + m] == ser[m] by {
        assert(s.subrange(i, i + l)[m] == s[i + m]);
    }
    match t {
        Tok::Ident(w) => {
            assert forall|m: int| i <= m < i + l implies is_neutral(#[trigger] s[m]) by {
                assert(s.subrange(i, i + l)[m - i] == s[m]);
            }
            lemma_pk_neutral(s, i, i + l, d);
            assert(top_pair_kinds(s, i, d) =~= top_pair_kinds(s, i + l, d));
        }
        Tok::Num(w) => {
            assert forall|m: int| i <= m < i + l implies is_neutral(#[trigger] s[m]) by {
                assert(s.subrange(i, i + l)[m - i] == s[m]);
            }
            lemma_pk_neutral(s, i, i + l, d);
            assert(top_pair_kinds(s, i, d) =~= top_pair_kinds(s, i + l, d));
        }
        Tok::Bool(b) => {
            reveal_strlit("true");
            reveal_strlit("false");
            assert forall|m: int| i <= m < i + l implies is_neutral(#[trigger] s[m]) by {
                assert(s.subrange(i, i + l)[m - i] == s[m]);
            }
            lemma_pk_neutral(s, i, i + l, d);
            assert(top_pair_kinds(s, i, d) =~= top_pair_kinds(s, i + l, d));
        }
        Tok::Punct(c) => {
            assert forall|m: int| i <= m < i + l implies is_neutral(#[trigger] s[m]) by {
                assert(s.subrange(i, i + l)[m - i] == s[m]);
            }
            lemma_pk_neutral(s, i, i + l, d);
            assert(top_pair_kinds(s, i, d) =~= top_pair_kinds(s, i + l, d));
        }
        Tok::Str(w) => {
            let k = i + 1 + w.len() as int;
            assert(s[i] == ser[0]) by {
                assert(s.subrange(i, i + l)[0] == s[i]);
            }
            assert forall|m: int| i + 1 <= m < k implies s[m] != '"' by {
                assert(s.subrange(i, i + l)[m - i] == s[m]);
                assert(ser[m - i] == w[m - i - 1]);
            }
            assert(s[k] == ser[k - i]) by {
                assert(s.subrange(i, i + l)[k - i] == s[k]);
            }
            assert(s[k + 1] == ser[k + 1 - i]) by {
                assert(s.subrange(i, i + l)[k + 1 - i] == s[k + 1]);
            }
            lemma_find_quote_exact(s, i + 1, k);
            assert(top_pair_kinds(s, i, d) == top_pair_kinds(s, k + 1, d));
            assert forall|m: int| k + 1 <= m < i + l implies is_neutral(#[trigger] s[m]) by {
                assert(s.subrange(i, i + l)[m - i] == s[m]);
            }
            lemma_pk_neutral(s, k + 1, i + l, d);
            assert(top_pair_kinds(s, i, d) =~= top_pair_kinds(s, i + l, d));
        }
        Tok::Group(k, ch) => {
            let sc = ser_toks(ch);
            let p = i + 1 + sc.len() as int;
            assert(s[i] == ser[0]) by {
                assert(s.subrange(i, i + l)[0] == s[i]);
            }
            assert(s[i] == open_char(k));
            assert(is_open(open_char(k)));
            assert(kind_of(open_char(k)) == k);
            assert forall|m: int| 0 <= m < sc.len() implies s.subrange(i + 1, p)[m] == sc[m] by {
                assert(s.subrange(i + 1, p)[m] == s[i + 1 + m]);
                assert(s.subrange(i, i + l)[1 + m] == s[i + 1 + m]);
                assert(ser[1 + m] == sc[m]);
            }
            assert(s.subrange(i + 1, p) =~= sc);
            lemma_pk_toks(s, i + 1, d + 1, ch);
            assert(s[p] == ser[p - i]) by {
                assert(s.subrange(i, i + l)[p - i] == s[p]);
            }
            assert(s[p] == close_char(k));
            assert(is_close(close_char(k)));
            assert(top_pair_kinds(s, p, d + 1) == top_pair_kinds(s, p + 1, d));
            assert(s[p + 1] == ser[p + 1 - i]) by {
                assert(s.subrange(i, i + l)[p + 1 - i] == s[p + 1]);
            }
            assert(s[p + 1] == ' ');
            assert(top_pair_kinds(s, p + 1, d) == top_pair_kinds(s, p + 2, d));
            assert(top_pair_kinds(s, i, d) =~= (if d == 0 { seq![k] } else { Seq::empty() })
                + top_pair_kinds(s, i + l, d));
        }
    }
}

/// The serialization of a well-formed token sequence read at depth zero
/// records exactly the kinds of its top-level groups, in order, and
/// nothing at a deeper nesting.
proof fn lemma_pk_toks(s: Seq<char>, i: int, d: int, ts: Seq<Tok>)
    requires
        wf_toks(ts),
        0 <= i,
        0 <= d,
        i + ser_toks(ts).len() <= s.len(),
        s.subrange(i, i + ser_toks(ts).len() as int) == ser_toks(ts),
    ensures
        top_pair_kinds(s, i, d) == (if d == 0 { top_group_kinds(ts) } else { Seq::empty() })
            + top_pair_kinds(s, i + ser_toks(ts).len(), d),
    decreases ts,
{
    if ts.len() == 0 {
        assert(top_pair_kinds(s, i, d) =~= (if d == 0 {
            top_group_kinds(ts)
        } else {
            Seq::empty()
        }) + top_pair_kinds(s, i, d));
    } else {
        let t0 = ts[0];
        let rest = ts.drop_first();
        let sc0 = ser_tok(t0);
        let scr = ser_toks(rest);
        assert(ser_toks(ts) == sc0 + scr);
        assert forall|m: int| 0 <= m < ser_toks(ts).len() implies s[i + m] == ser_toks(ts)[m] by {
            assert(s.subrange(i, i + ser_toks(ts).len() as int)[m] == s[i + m]);
        }
        assert(s.subrange(i, i + sc0.len() as int) =~= sc0);
        lemma_pk_tok(s, i, d, t0);
        let j = i + sc0.len() as int;
        assert forall|m: int| 0 <= m < scr.len() implies s.subrange(j, j + scr.len() as int)[m]
            == scr[m] by {
            assert(s[i + (sc0.len() + m)] == ser_toks(ts)[sc0.len() + m]);
            assert(s.subrange(j, j + scr.len() as int)[m] == s[j + m]);
        }
        assert(s.subrange(j, j + scr.len() as int) =~= scr);
        assert(wf_toks(rest)) by {
            assert(forall|m: int| 0 <= m < rest.len() ==> rest[m] == ts[m + 1]);
        }
        lemma_pk_toks(s, j, d, rest);
        assert(top_pair_kinds(s, i, d) =~= (if d == 0 {
            top_group_kinds(ts)
        } else {
            Seq::<Bracket>::empty()
        }) + top_pair_kinds(s, i + ser_toks(ts).len(), d));
    }
}

/// For every well-bracketed input, the delimiter pairs opened at the top
/// level correspond one to one, in order and in kind, to the `Group`
/// tokens at the top level of the result; applied to a group's children,
/// the same holds at every nesting level.
pub proof fn law_group_kinds(ts: Seq<Tok>)
    requires
        wf_toks(ts),
    ensures
        top_pair_kinds(ser_toks(ts), 0, 0) == top_group_kinds(ts),
{
    let s = ser_toks(ts);
    assert(s.subrange(0, s.len() as int) =~= s);
    lemma_pk_toks(s, 0, 0, ts);
    assert(top_group_kinds(ts) + top_pair_kinds(s, s.len() as int, 0) =~= top_group_kinds(ts));
}

} // verus!
