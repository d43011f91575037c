//! Token types produced by the tokenizer, the errors it can report, and the
//! mathematical model (`Tok`) that the contracts speak of.

use vstd::prelude::*;

verus! {

broadcast use vstd::std_specs::vec::group_vec_axioms;

/// The kind of a matched bracket pair.
#[derive(Debug, Clone, Copy, PartialEq, Eq, Structural)]
pub enum Bracket {
    /// `{}`
    Brace,
    /// `[]`
    Bracket,
    /// `()`
    Paren,
}

/// An identifier: ASCII letters, digits and `_`, not starting with a digit,
/// and not one of the reserved words `true` / `false`.
#[derive(Debug, PartialEq, Eq)]
pub struct Ident(pub String);

/// A single-character punctuator.
#[derive(Debug, Clone, Copy, PartialEq, Eq, Structural)]
pub struct Punct(pub char);

/// A literal token.
#[derive(Debug, PartialEq)]
pub enum Lit {
    /// A numeric literal, kept as the exact text that was consumed:
    /// digits with at most one `.`, starting with a digit. The caller decides
    /// what numeric type to parse it into; the tokenizer never loses digits.
    Num(String),
    /// A string literal: the contents between the two `"` delimiters,
    /// delimiters excluded, no escape handling.
    Str(String),
    /// One of the reserved words `true` / `false`.
    Bool(bool),
}

/// One lexical unit: an identifier, a literal, a punctuator, or a bracketed
/// group holding the tokens lexed strictly between its matched delimiters.
#[derive(Debug, PartialEq)]
pub enum TokenTree {
    Ident(Ident),
    Literal(Lit),
    Punct(Punct),
    Group(Bracket, Vec<TokenTree>),
}

/// The first malformed construct found; tokenization aborts on it.
#[derive(Debug, Clone, Copy, PartialEq, Eq, Structural)]
pub enum LexError {
    /// A `"` was opened but the input ended before the closing `"`.
    UnterminatedString,
    /// A second `.` appeared inside a numeric literal.
    MalformedNumber,
    /// The consumed numeric text could not be parsed. The tokenizer keeps
    /// numeric text verbatim, so it never reports this itself; it is part of
    /// the error taxonomy for callers that parse the text further.
    NumberParseFailure,
    /// The input ended while a numeric literal was still being accumulated.
    UnexpectedEof,
    /// A closing delimiter does not match the innermost open delimiter.
    MismatchedBracket { found: char, expected: char },
    /// A closing delimiter appeared with no open delimiter pending.
    UnmatchedClose { found: char },
    /// The input ended with this delimiter still open.
    UnclosedGroup { open: char },
}

/// The mathematical model of one token: what a `TokenTree` is, over
/// sequences of characters.
#[verifier::ext_equal]
pub enum Tok {
    Ident(Seq<char>),
    Num(Seq<char>),
    Str(Seq<char>),
    Bool(bool),
    Punct(char),
    Group(Bracket, Seq<Tok>),
}

impl TokenTree {
    /// The model of this token.
    pub open spec fn model(&self) -> Tok
        decreases self,
    {
        match self {
            TokenTree::Ident(id) => Tok::Ident(id.0@),
            TokenTree::Literal(Lit::Num(s)) => Tok::Num(s@),
            TokenTree::Literal(Lit::Str(s)) => Tok::Str(s@),
            TokenTree::Literal(Lit::Bool(b)) => Tok::Bool(*b),
            TokenTree::Punct(p) => Tok::Punct(p.0),
            TokenTree::Group(k, ts) => Tok::Group(*k, tokens_model(ts@)),
        }
    }
}

/// The model of a token sequence: each token's model, in order.
pub open spec fn tokens_model(v: Seq<TokenTree>) -> Seq<Tok>
    decreases v,
{
    if v.len() == 0 {
        Seq::empty()
    } else {
        tokens_model(v.drop_last()).push(v.last().model())
    }
}

/// `tokens_model` is the pointwise model.
pub broadcast proof fn lemma_tokens_model(v: Seq<TokenTree>)
    ensures
        (#[trigger] tokens_model(v)).len() == v.len(),
        forall|i: int| 0 <= i < v.len() ==> tokens_model(v)[i] == v[i].model(),
    decreases v,
{
    if v.len() > 0 {
        lemma_tokens_model(v.drop_last());
    }
}

} // verus!

