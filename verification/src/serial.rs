//! Re-serialization of token trees back to source text: identifiers and
//! numbers as their text, strings re-quoted, punctuators as their character,
//! groups with their bracket pair, every token followed by one space.

use vstd::prelude::*;
use vstd::string::StrSliceExecFns;
use vstd::string::StringExecFns;
use crate::model::{close_char, open_char};
use crate::token::{tokens_model, Bracket, Ident, Lit, Punct, Tok, TokenTree};

verus! {

broadcast use crate::token::lemma_tokens_model, vstd::std_specs::vec::group_vec_axioms;

/// The serialization of one token, with its trailing space.
pub open spec fn ser_tok(t: Tok) -> Seq<char>
    decreases t,
{
    match t {
        Tok::Ident(w) => w + seq![' '],
        Tok::Num(w) => w + seq![' '],
        Tok::Str(w) => seq!['"'] + w + seq!['"', ' '],
        Tok::Bool(b) => (if b { "true"@ } else { "false"@ }) + seq![' '],
        Tok::Punct(c) => seq![c, ' '],
        Tok::Group(k, ts) => seq![open_char(k)] + ser_toks(ts) + seq![close_char(k), ' '],
    }
}

/// The serialization of a token sequence: each token in order.
pub open spec fn ser_toks(ts: Seq<Tok>) -> Seq<char>
    decreases ts,
{
    if ts.len() == 0 {
        Seq::empty()
    } else {
        ser_tok(ts[0]) + ser_toks(ts.drop_first())
    }
}

/// Serializing one more token appends its serialization.
pub proof fn lemma_ser_toks_push(ts: Seq<Tok>, t: Tok)
    ensures
        ser_toks(ts.push(t)) == ser_toks(ts) + ser_tok(t),
    decreases ts,
{
    if ts.len() == 0 {
        assert(ts.push(t).drop_first() =~= Seq::<Tok>::empty());
        assert(ser_toks(Seq::<Tok>::empty()) == Seq::<char>::empty());
        assert(ser_toks(ts.push(t)) =~= ser_toks(ts) + ser_tok(t));
    } else {
        assert(ts.push(t).drop_first() =~= ts.drop_first().push(t));
        lemma_ser_toks_push(ts.drop_first(), t);
        assert(ser_toks(ts.push(t)) =~= ser_toks(ts) + ser_tok(t));
    }
}

/// Appends one character. Relies on `String::push`: it appends the given
/// character to the end of the string.
#[verifier::external_body]
fn push_char(out: &mut String, c: char)
    ensures
        final(out)@ == old(out)@.push(c),
{
    out.push(c);
}

/// The opening delimiter of a bracket kind.
fn opening_delim_of(k: Bracket) -> (c: char)
    ensures
        c == open_char(k),
{
    match k {
        Bracket::Paren => '(',
        Bracket::Bracket => '[',
        Bracket::Brace => '{',
    }
}

/// The closing delimiter of a bracket kind.
fn closing_delim_of(k: Bracket) -> (c: char)
    ensures
        c == close_char(k),
{
    match k {
        Bracket::Paren => ')',
        Bracket::Bracket => ']',
        Bracket::Brace => '}',
    }
}

/// Appends the serialization of one token to `out`.
#[verifier::loop_isolation(false)]
fn write_token(out: &mut String, t: &TokenTree)
    ensures
        final(out)@ == old(out)@ + ser_tok(t.model()),
    decreases t,
{
    match t {
        TokenTree::Ident(Ident(w)) => {
            out.append(w.as_str());
            push_char(out, ' ');
            proof {
                assert(final(out)@ =~= old(out)@ + ser_tok(t.model()));
            }
        }
        TokenTree::Literal(Lit::Num(w)) => {
            out.append(w.as_str());
            push_char(out, ' ');
            proof {
                assert(final(out)@ =~= old(out)@ + ser_tok(t.model()));
            }
        }
        TokenTree::Literal(Lit::Str(w)) => {
            push_char(out, '"');
            out.append(w.as_str());
            push_char(out, '"');
            push_char(out, ' ');
            proof {
                assert(final(out)@ =~= old(out)@ + ser_tok(t.model()));
            }
        }
        TokenTree::Literal(Lit::Bool(b)) => {
            if *b {
                out.append("true");
            } else {
                out.append("false");
            }
            push_char(out, ' ');
            proof {
                assert(final(out)@ =~= old(out)@ + ser_tok(t.model()));
            }
        }
        TokenTree::Punct(Punct(c)) => {
            push_char(out, *c);
            push_char(out, ' ');
            proof {
                assert(final(out)@ =~= old(out)@ + ser_tok(t.model()));
            }
        }
        TokenTree::Group(k, ts) => {
            push_char(out, opening_delim_of(*k));
            let ghost mid0 = out@;
            let mut idx: usize = 0;
            while idx < ts.len()
                invariant
                    *t == TokenTree::Group(*k, *ts),
                    idx <= ts@.len(),
                    out@ == mid0 + ser_toks(tokens_model(ts@.take(idx as int))),
                decreases ts@.len() - idx,
            {
                write_token(out, &ts[idx]);
                proof {
                    assert(tokens_model(ts@.take(idx as int + 1)) =~= tokens_model(
                        ts@.take(idx as int),
                    ).push(ts@[idx as int].model()));
                    lemma_ser_toks_push(
                        tokens_model(ts@.take(idx as int)),
                        ts@[idx as int].model(),
                    );
                    assert(out@ =~= mid0 + ser_toks(tokens_model(ts@.take(idx as int + 1))));
                }
                idx = idx + 1;
            }
            push_char(out, closing_delim_of(*k));
            push_char(out, ' ');
            proof {
                assert(ts@.take(ts@.len() as int) =~= ts@);
                assert(final(out)@ =~= old(out)@ + ser_tok(t.model()));
            }
        }
    }
}

/// Re-serializes a token sequence to source text: identifiers, numbers and
/// punctuators as their text, strings re-quoted, groups with their bracket
/// pair, one space after every token.
pub fn to_source(tokens: &Vec<TokenTree>) -> (s: String)
    ensures
        s@ == ser_toks(tokens_model(tokens@)),
{
    let mut out = String::new();
    let mut idx: usize = 0;
    while idx < tokens.len()
        invariant
            idx <= tokens@.len(),
            out@ == ser_toks(tokens_model(tokens@.take(idx as int))),
        decreases tokens@.len() - idx,
    {
        write_token(&mut out, &tokens[idx]);
        proof {
            assert(tokens_model(tokens@.take(idx as int + 1)) =~= tokens_model(
                tokens@.take(idx as int),
            ).push(tokens@[idx as int].model()));
            lemma_ser_toks_push(tokens_model(tokens@.take(idx as int)), tokens@[idx as int].model());
        }
        idx = idx + 1;
    }
    proof {
        assert(tokens@.take(tokens@.len() as int) =~= tokens@);
    }
    out
}

} // verus!
