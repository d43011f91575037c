//! The mathematical model of the tokenizer: character classification, the
//! sub-scans for string, number and identifier literals, and the stack-based
//! scan `lex_from` that `to_tokens` is proved against.

use vstd::prelude::*;
use crate::token::{Bracket, LexError, Tok};

verus! {

/// An ASCII decimal digit.
pub open spec fn is_digit(c: char) -> bool {
    '0' as u32 <= c as u32 && c as u32 <= '9' as u32
}

/// A character that may start an identifier: an ASCII letter or `_`.
pub open spec fn is_ident_start(c: char) -> bool {
    ('a' as u32 <= c as u32 && c as u32 <= 'z' as u32)
    || ('A' as u32 <= c as u32 && c as u32 <= 'Z' as u32)
    || c == '_'
}

/// A character that may continue an identifier: a letter, a digit, or `_`.
pub open spec fn is_ident_cont(c: char) -> bool {
    is_ident_start(c) || is_digit(c)
}

/// An opening delimiter.
pub open spec fn is_open(c: char) -> bool {
    c == '(' || c == '[' || c == '{'
}

/// A closing delimiter.
pub open spec fn is_close(c: char) -> bool {
    c == ')' || c == ']' || c == '}'
}

/// Whitespace that the tokenizer skips.
pub open spec fn is_blank(c: char) -> bool {
    c == ' ' || c == '\n'
}

/// A character that becomes a single-character `Punct` token: anything not
/// classified as quote, digit, identifier, delimiter or whitespace.
pub open spec fn is_punct(c: char) -> bool {
    !(c == '"' || is_digit(c) || is_ident_start(c) || is_open(c) || is_close(c) || is_blank(c))
}

/// The closing delimiter that matches an opening one (`' '` for a
/// character that is no opening delimiter).
pub open spec fn close_for(open: char) -> char {
    if open == '(' { ')' } else if open == '[' { ']' } else if open == '{' { '}' } else { ' ' }
}

/// The bracket kind of an opening delimiter.
pub open spec fn kind_of(open: char) -> Bracket {
    if open == '(' { Bracket::Paren } else if open == '[' { Bracket::Bracket } else { Bracket::Brace }
}

/// The opening delimiter of a bracket kind.
pub open spec fn open_char(k: Bracket) -> char {
    match k {
        Bracket::Paren => '(',
        Bracket::Bracket => '[',
        Bracket::Brace => '{',
    }
}

/// The closing delimiter of a bracket kind.
pub open spec fn close_char(k: Bracket) -> char {
    match k {
        Bracket::Paren => ')',
        Bracket::Bracket => ']',
        Bracket::Brace => '}',
    }
}

/// The position of the first `"` at or after `j`, if any.
pub open spec fn find_quote(s: Seq<char>, j: int) -> Option<int>
    decreases s.len() - j,
{
    if j < 0 || j >= s.len() {
        None
    } else if s[j] == '"' {
        Some(j)
    } else {
        find_quote(s, j + 1)
    }
}

/// How a number sub-scan that starts at some position ends.
pub enum NumScan {
    /// The first position that is neither a digit nor the first `.`.
    End(int),
    /// A second `.` appeared.
    SecondDot,
    /// The input ended while the number was still being accumulated.
    Eof,
}

/// Scans a numeric literal from `j` on: digits and at most one `.`;
/// `seen_dot` says whether a `.` was already consumed.
pub open spec fn num_scan(s: Seq<char>, j: int, seen_dot: bool) -> NumScan
    decreases s.len() - j,
{
    if j < 0 || j >= s.len() {
        NumScan::Eof
    } else if is_digit(s[j]) {
        num_scan(s, j + 1, seen_dot)
    } else if s[j] == '.' && !seen_dot {
        num_scan(s, j + 1, true)
    } else if s[j] == '.' {
        NumScan::SecondDot
    } else {
        NumScan::End(j)
    }
}

/// The first position at or after `j` that does not continue an identifier
/// (the input's length when the identifier runs to the end).
pub open spec fn ident_end(s: Seq<char>, j: int) -> int
    decreases s.len() - j,
{
    if 0 <= j < s.len() && is_ident_cont(s[j]) {
        ident_end(s, j + 1)
    } else {
        j
    }
}

/// What one dispatch of the scan loop does at position `i`.
pub enum Step {
    /// Emit this token and continue at this position.
    Emit(Tok, int),
    /// Push a new open group for this delimiter; continue at this position.
    Open(char, int),
    /// Close the innermost group with this delimiter; continue at this position.
    Close(char, int),
    /// Skip whitespace; continue at this position.
    Blank(int),
    /// Abort with this error.
    Fail(LexError),
}

/// The per-character dispatch at position `i`: which token, delimiter action
/// or error one step of the scan produces, and where the scan continues.
pub open spec fn scan_at(s: Seq<char>, i: int) -> Step
    recommends 0 <= i < s.len(),
{
    let c = s[i];
    if c == '"' {
        match find_quote(s, i + 1) {
            Some(k) => Step::Emit(Tok::Str(s.subrange(i + 1, k)), k + 1),
            None => Step::Fail(LexError::UnterminatedString),
        }
    } else if is_digit(c) {
        match num_scan(s, i + 1, false) {
            NumScan::End(j) => Step::Emit(Tok::Num(s.subrange(i, j)), j),
            NumScan::SecondDot => Step::Fail(LexError::MalformedNumber),
            NumScan::Eof => Step::Fail(LexError::UnexpectedEof),
        }
    } else if is_ident_start(c) {
        let j = ident_end(s, i + 1);
        let w = s.subrange(i, j);
        if w == "true"@ {
            Step::Emit(Tok::Bool(true), j)
        } else if w == "false"@ {
            Step::Emit(Tok::Bool(false), j)
        } else {
            Step::Emit(Tok::Ident(w), j)
        }
    } else if is_open(c) {
        Step::Open(c, i + 1)
    } else if is_close(c) {
        Step::Close(c, i + 1)
    } else if is_blank(c) {
        Step::Blank(i + 1)
    } else {
        Step::Emit(Tok::Punct(c), i + 1)
    }
}

/// One entry of the scope stack: the opening delimiter (`' '` is the
/// sentinel of the implicit top-level scope) and the tokens accumulated so
/// far inside it.
pub type Scope = (char, Seq<Tok>);

/// Appends a token to the innermost open scope.
pub open spec fn push_tok(st: Seq<Scope>, t: Tok) -> Seq<Scope>
    recommends st.len() >= 1,
{
    st.update(st.len() - 1, (st.last().0, st.last().1.push(t)))
}

/// The scope stack at the start of a scan: only the top-level sentinel.
pub open spec fn init_stack() -> Seq<Scope> {
    seq![(' ', Seq::empty())]
}

/// Runs the scan from position `i` with scope stack `st` to completion:
/// the top-level token sequence, or the first error.
pub open spec fn lex_from(s: Seq<char>, i: int, st: Seq<Scope>) -> Result<Seq<Tok>, LexError>
    recommends 0 <= i <= s.len(), st.len() >= 1,
    decreases s.len() - i,
    via lex_from_dec
{
    if i < 0 || i >= s.len() {
        if st.len() == 1 && st[0].0 == ' ' {
            Ok(st[0].1)
        } else {
            Err(LexError::UnclosedGroup { open: st.last().0 })
        }
    } else {
        match scan_at(s, i) {
            Step::Emit(t, j) => lex_from(s, j, push_tok(st, t)),
            Step::Open(c, j) => lex_from(s, j, st.push((c, Seq::empty()))),
            Step::Close(c, j) => {
                if st.len() == 1 {
                    Err(LexError::UnmatchedClose { found: c })
                } else if c == close_for(st.last().0) {
                    lex_from(s, j, push_tok(st.drop_last(), Tok::Group(kind_of(st.last().0), st.last().1)))
                } else {
                    Err(LexError::MismatchedBracket { found: c, expected: close_for(st.last().0) })
                }
            }
            Step::Blank(j) => lex_from(s, j, st),
            Step::Fail(e) => Err(e),
        }
    }
}

#[via_fn]
proof fn lex_from_dec(s: Seq<char>, i: int, st: Seq<Scope>) {
    if 0 <= i < s.len() {
        lemma_scan_at_bounds(s, i);
    }
}

/// The whole tokenization of `s`: the top-level token sequence, or the
/// first error.
pub open spec fn spec_tokenize(s: Seq<char>) -> Result<Seq<Tok>, LexError> {
    lex_from(s, 0, init_stack())
}

/// `find_quote` stays within bounds, lands on the first quote, and finds
/// none only when none remains.
pub proof fn lemma_find_quote_bounds(s: Seq<char>, j: int)
    requires j >= 0,
    ensures
        match find_quote(s, j) {
            Some(k) => j <= k < s.len() && s[k] == '"' && (forall|m: int|
                j <= m < k ==> s[m] != '"'),
            None => forall|m: int| j <= m < s.len() ==> s[m] != '"',
        },
    decreases s.len() - j,
{
    if 0 <= j < s.len() && s[j] != '"' {
        lemma_find_quote_bounds(s, j + 1);
    }
}

/// `num_scan` ends within bounds, after digits and at most one `.`.
pub proof fn lemma_num_scan_bounds(s: Seq<char>, j: int, seen_dot: bool)
    requires j >= 0,
    ensures
        match num_scan(s, j, seen_dot) {
            NumScan::End(e) => j <= e < s.len() && (forall|m: int|
                j <= m < e ==> is_digit(#[trigger] s[m]) || s[m] == '.') && (forall|m1: int, m2: int|
                j <= m1 < m2 < e && s[m1] == '.' ==> s[m2] != '.') && (seen_dot ==> forall|m: int|
                j <= m < e ==> s[m] != '.'),
            _ => true,
        },
    decreases s.len() - j,
{
    if 0 <= j < s.len() && (is_digit(s[j]) || (s[j] == '.' && !seen_dot)) {
        lemma_num_scan_bounds(s, j + 1, if s[j] == '.' { true } else { seen_dot });
    }
}

/// `ident_end` ends within bounds, after identifier characters only.
pub proof fn lemma_ident_end_bounds(s: Seq<char>, j: int)
    requires 0 <= j <= s.len(),
    ensures
        j <= ident_end(s, j) <= s.len(),
        forall|m: int| j <= m < ident_end(s, j) ==> is_ident_cont(#[trigger] s[m]),
        ident_end(s, j) < s.len() ==> !is_ident_cont(s[ident_end(s, j)]),
    decreases s.len() - j,
{
    if j < s.len() && is_ident_cont(s[j]) {
        lemma_ident_end_bounds(s, j + 1);
    }
}

/// Every step of the dispatch advances the scan position.
pub proof fn lemma_scan_at_bounds(s: Seq<char>, i: int)
    requires 0 <= i < s.len(),
    ensures
        match scan_at(s, i) {
            Step::Emit(_, j) => i < j <= s.len(),
            Step::Open(_, j) => j == i + 1,
            Step::Close(_, j) => j == i + 1,
            Step::Blank(j) => j == i + 1,
            Step::Fail(_) => true,
        },
{
    lemma_find_quote_bounds(s, i + 1);
    lemma_num_scan_bounds(s, i + 1, false);
    lemma_ident_end_bounds(s, i + 1);
}

} // verus!

