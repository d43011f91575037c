//! The lexing/grouping engine: the scan loop, the literal sub-scanners, and
//! the bracket-balance stack that folds matched delimiters into `Group`
//! tokens. `to_tokens` is proved to return exactly `spec_tokenize`.

use vstd::prelude::*;
use vstd::string::StrSliceExecFns;
use crate::model::{
    close_for, find_quote, ident_end, init_stack, is_close, is_digit, is_ident_cont,
    is_ident_start, is_open, kind_of, lemma_scan_at_bounds, lex_from, num_scan, push_tok, scan_at,
    spec_tokenize, NumScan, Scope, Step,
};
use crate::stream::Stream;
use crate::token::{tokens_model, Bracket, Ident, LexError, Lit, Punct, Tok, TokenTree};

verus! {

broadcast use crate::token::lemma_tokens_model;

/// Classifies an ASCII decimal digit.
pub fn digit(c: char) -> (b: bool)
    ensures
        b == is_digit(c),
{
    '0' as u32 <= c as u32 && c as u32 <= '9' as u32
}

/// Classifies a character that may start an identifier.
pub fn ident_start(c: char) -> (b: bool)
    ensures
        b == is_ident_start(c),
{
    ('a' as u32 <= c as u32 && c as u32 <= 'z' as u32) || ('A' as u32 <= c as u32 && c as u32
        <= 'Z' as u32) || c == '_'
}

/// Classifies a character that may continue an identifier.
pub fn ident_cont(c: char) -> (b: bool)
    ensures
        b == is_ident_cont(c),
{
    ident_start(c) || digit(c)
}

/// Classifies an opening delimiter.
pub fn open_delim(c: char) -> (b: bool)
    ensures
        b == is_open(c),
{
    c == '(' || c == '[' || c == '{'
}

/// Classifies a closing delimiter.
pub fn close_delim(c: char) -> (b: bool)
    ensures
        b == is_close(c),
{
    c == ')' || c == ']' || c == '}'
}

/// The closing delimiter that matches an opening one.
fn closing_of(open: char) -> (c: char)
    ensures
        c == close_for(open),
{
    if open == '(' { ')' } else if open == '[' { ']' } else if open == '{' { '}' } else { ' ' }
}

/// The bracket kind of an opening delimiter.
fn bracket_kind(open: char) -> (k: Bracket)
    ensures
        k == kind_of(open),
{
    if open == '(' { Bracket::Paren } else if open == '[' { Bracket::Bracket } else { Bracket::Brace }
}

/// Character-by-character equality of two string slices.
fn str_is(a: &str, b: &str) -> (r: bool)
    ensures
        r == (a@ == b@),
{
    let alen = a.unicode_len();
    let blen = b.unicode_len();
    if alen != blen {
        return false;
    }
    let mut i: usize = 0;
    while i < alen
        invariant
            alen == a@.len(),
            blen == b@.len(),
            alen == blen,
            i <= alen,
            forall|j: int| 0 <= j < i ==> a@[j] == b@[j],
        decreases alen - i,
    {
        if a.get_char(i) != b.get_char(i) {
            return false;
        }
        i = i + 1;
    }
    proof {
        assert(a@ =~= b@);
    }
    true
}

/// Unfolds the model of a bare punctuator token.
proof fn lemma_punct_model(c: char)
    ensures
        TokenTree::Punct(Punct(c)).model() == Tok::Punct(c),
{
}

/// The model of the scope stack: each entry's delimiter and the model of
/// its accumulated tokens.
pub open spec fn stack_model(st: Seq<(char, Vec<TokenTree>)>) -> Seq<Scope> {
    Seq::new(st.len(), |i: int| (st[i].0, tokens_model(st[i].1@)))
}

/// Appends a token to the innermost open scope.
fn push_token(stack: &mut Vec<(char, Vec<TokenTree>)>, t: TokenTree)
    requires
        old(stack)@.len() >= 1,
    ensures
        final(stack)@.len() == old(stack)@.len(),
        stack_model(final(stack)@) == push_tok(stack_model(old(stack)@), t.model()),
{
    let mut top = stack.pop().unwrap();
    top.1.push(t);
    stack.push(top);
    proof {
        assert(tokens_model(final(stack)@.last().1@) =~= tokens_model(
            old(stack)@.last().1@,
        ).push(t.model()));
        assert(stack_model(final(stack)@) =~= push_tok(stack_model(old(stack)@), t.model()));
    }
}

/// Scans a string literal. The cursor stands just after the opening `"`;
/// consumes through the closing `"` and returns the contents between them,
/// or reports that the input ended first.
fn scan_string(st: &mut Stream) -> (r: Result<String, LexError>)
    requires
        old(st).wf(),
    ensures
        final(st).chars() == old(st).chars(),
        final(st).wf(),
        match find_quote(old(st).chars(), old(st).pos()) {
            Some(k) => r matches Ok(text) && text@ == old(st).chars().subrange(old(st).pos(), k)
                && final(st).pos() == k + 1,
            None => r matches Err(e) && e == LexError::UnterminatedString,
        },
{
    let ghost s = old(st).chars();
    let start = st.position();
    loop
        invariant
            st.wf(),
            st.chars() == s,
            s == old(st).chars(),
            start as int == old(st).pos(),
            start as int <= st.pos() <= s.len(),
            find_quote(s, start as int) == find_quote(s, st.pos()),
        decreases s.len() - st.pos(),
    {
        let ghost p = st.pos();
        match st.next() {
            None => {
                return Err(LexError::UnterminatedString);
            }
            Some(c) => {
                if c == '"' {
                    let here = st.position();
                    assert(find_quote(s, start as int) == Some(p));
                    return Ok(st.extract(start, here - 1));
                }
            }
        }
    }
}

/// Scans a numeric literal. `start` is the position of the leading digit,
/// which the cursor has already consumed; consumes digits and at most one
/// `.`, stops before the first other character, and returns the consumed
/// text, or the error the sub-scan ran into.
fn scan_number(st: &mut Stream, start: usize) -> (r: Result<String, LexError>)
    requires
        old(st).wf(),
        start as int + 1 == old(st).pos(),
    ensures
        final(st).chars() == old(st).chars(),
        final(st).wf(),
        match num_scan(old(st).chars(), old(st).pos(), false) {
            NumScan::End(j) => r matches Ok(text) && text@ == old(st).chars().subrange(
                start as int,
                j,
            ) && final(st).pos() == j,
            NumScan::SecondDot => r matches Err(e) && e == LexError::MalformedNumber,
            NumScan::Eof => r matches Err(e) && e == LexError::UnexpectedEof,
        },
{
    let ghost s = old(st).chars();
    let mut seen_dot = false;
    loop
        invariant
            st.wf(),
            st.chars() == s,
            s == old(st).chars(),
            start as int + 1 == old(st).pos(),
            start as int + 1 <= st.pos() <= s.len(),
            num_scan(s, old(st).pos(), false) == num_scan(s, st.pos(), seen_dot),
        decreases s.len() - st.pos(),
    {
        match st.peek() {
            None => {
                return Err(LexError::UnexpectedEof);
            }
            Some(c) => {
                if digit(c) {
                    st.next();
                } else if c == '.' && !seen_dot {
                    st.next();
                    seen_dot = true;
                } else if c == '.' {
                    return Err(LexError::MalformedNumber);
                } else {
                    let here = st.position();
                    return Ok(st.extract(start, here));
                }
            }
        }
    }
}

/// Scans an identifier. `start` is the position of its first character,
/// which the cursor has already consumed; consumes letters, digits and `_`
/// and returns the consumed text. Running out of input ends the identifier
/// successfully.
fn scan_ident(st: &mut Stream, start: usize) -> (text: String)
    requires
        old(st).wf(),
        start as int + 1 == old(st).pos(),
    ensures
        final(st).chars() == old(st).chars(),
        final(st).wf(),
        final(st).pos() == ident_end(old(st).chars(), old(st).pos()),
        text@ == old(st).chars().subrange(start as int, final(st).pos()),
{
    let ghost s = old(st).chars();
    loop
        invariant
            st.wf(),
            st.chars() == s,
            s == old(st).chars(),
            start as int + 1 == old(st).pos(),
            start as int + 1 <= st.pos() <= s.len(),
            ident_end(s, old(st).pos()) == ident_end(s, st.pos()),
        decreases s.len() - st.pos(),
    {
        match st.peek() {
            None => {
                let here = st.position();
                return st.extract(start, here);
            }
            Some(c) => {
                if ident_cont(c) {
                    st.next();
                } else {
                    let here = st.position();
                    return st.extract(start, here);
                }
            }
        }
    }
}

/// Tokenizes `code`: the top-level token sequence, with matched bracket
/// pairs folded into `Group` tokens, or the first error encountered.
pub fn to_tokens(code: String) -> (r: Result<Vec<TokenTree>, LexError>)
    ensures
        match r {
            Ok(tokens) => spec_tokenize(code@) matches Ok(m) && m == tokens_model(tokens@),
            Err(e) => spec_tokenize(code@) matches Err(me) && me == e,
        },
{
    let ghost s = code@;
    let mut chars = Stream::new(code);
    let mut group_stack: Vec<(char, Vec<TokenTree>)> = Vec::new();
    group_stack.push((' ', Vec::new()));
    proof {
        assert(stack_model(group_stack@) =~= init_stack());
        assert(tokens_model(Seq::<TokenTree>::empty()) =~= Seq::<Tok>::empty());
    }
    while chars.has_more()
        invariant
            chars.wf(),
            chars.chars() == s,
            s == code@,
            group_stack@.len() >= 1,
            lex_from(s, chars.pos(), stack_model(group_stack@)) == spec_tokenize(s),
        decreases s.len() - chars.pos(),
    {
        let ghost i = chars.pos();
        let ghost st0 = stack_model(group_stack@);
        let c = chars.next().unwrap();
        if c == '"' {
            match scan_string(&mut chars) {
                Ok(text) => {
                    proof {
                        lemma_scan_at_bounds(s, i);
                        assert(scan_at(s, i) matches Step::Emit(t, j) && t == Tok::Str(text@)
                            && j == chars.pos());
                    }
                    push_token(&mut group_stack, TokenTree::Literal(Lit::Str(text)));
                    proof {
                        assert(stack_model(group_stack@) == push_tok(st0, Tok::Str(text@)));
                        assert(lex_from(s, chars.pos(), stack_model(group_stack@)) == lex_from(
                            s,
                            i,
                            st0,
                        ));
                    }
                }
                Err(e) => {
                    proof {
                        assert(scan_at(s, i) == Step::Fail(LexError::UnterminatedString));
                        assert(lex_from(s, i, st0) == Err::<Seq<Tok>, LexError>(
                            LexError::UnterminatedString,
                        ));
                    }
                    return Err(e);
                }
            }
        } else if digit(c) {
            let start = chars.position() - 1;
            match scan_number(&mut chars, start) {
                Ok(text) => {
                    proof {
                        lemma_scan_at_bounds(s, i);
                        assert(scan_at(s, i) matches Step::Emit(t, j) && t == Tok::Num(text@)
                            && j == chars.pos());
                    }
                    push_token(&mut group_stack, TokenTree::Literal(Lit::Num(text)));
                    proof {
                        assert(stack_model(group_stack@) == push_tok(st0, Tok::Num(text@)));
                        assert(lex_from(s, chars.pos(), stack_model(group_stack@)) == lex_from(
                            s,
                            i,
                            st0,
                        ));
                    }
                }
                Err(e) => {
                    return Err(e);
                }
            }
        } else if ident_start(c) {
            let start = chars.position() - 1;
            let text = scan_ident(&mut chars, start);
            proof {
                lemma_scan_at_bounds(s, i);
            }
            if str_is(text.as_str(), "true") {
                proof {
                    assert(scan_at(s, i) matches Step::Emit(t, j) && t == Tok::Bool(true)
                        && j == chars.pos());
                }
                push_token(&mut group_stack, TokenTree::Literal(Lit::Bool(true)));
                proof {
                    assert(stack_model(group_stack@) == push_tok(st0, Tok::Bool(true)));
                    assert(lex_from(s, chars.pos(), stack_model(group_stack@)) == lex_from(
                        s,
                        i,
                        st0,
                    ));
                }
            } else if str_is(text.as_str(), "false") {
                proof {
                    assert(scan_at(s, i) matches Step::Emit(t, j) && t == Tok::Bool(false)
                        && j == chars.pos());
                }
                push_token(&mut group_stack, TokenTree::Literal(Lit::Bool(false)));
                proof {
                    assert(stack_model(group_stack@) == push_tok(st0, Tok::Bool(false)));
                    assert(lex_from(s, chars.pos(), stack_model(group_stack@)) == lex_from(
                        s,
                        i,
                        st0,
                    ));
                }
            } else {
                proof {
                    assert(scan_at(s, i) matches Step::Emit(t, j) && t == Tok::Ident(text@)
                        && j == chars.pos());
                }
                push_token(&mut group_stack, TokenTree::Ident(Ident(text)));
                proof {
                    assert(stack_model(group_stack@) == push_tok(st0, Tok::Ident(text@)));
                    assert(lex_from(s, chars.pos(), stack_model(group_stack@)) == lex_from(
                        s,
                        i,
                        st0,
                    ));
                }
            }
        } else if open_delim(c) {
            group_stack.push((c, Vec::new()));
            proof {
                assert(tokens_model(Seq::<TokenTree>::empty()) =~= Seq::<Tok>::empty());
                assert(stack_model(group_stack@) =~= st0.push((c, Seq::empty())));
            }
        } else if close_delim(c) {
            if group_stack.len() == 1 {
                return Err(LexError::UnmatchedClose { found: c });
            }
            let popped = group_stack.pop().unwrap();
            let open = popped.0;
            let inner_tokens = popped.1;
            proof {
                assert(stack_model(group_stack@) =~= st0.drop_last());
                assert(st0.last() == (open, tokens_model(inner_tokens@)));
            }
            let expected = closing_of(open);
            if c == expected {
                let kind = bracket_kind(open);
                push_token(&mut group_stack, TokenTree::Group(kind, inner_tokens));
                proof {
                    assert(scan_at(s, i) == Step::Close(c, i + 1));
                    assert(stack_model(group_stack@) == push_tok(
                        st0.drop_last(),
                        Tok::Group(kind_of(st0.last().0), st0.last().1),
                    ));
                    assert(lex_from(s, chars.pos(), stack_model(group_stack@)) == lex_from(
                        s,
                        i,
                        st0,
                    ));
                }
            } else {
                return Err(LexError::MismatchedBracket { found: c, expected });
            }
        } else if c == ' ' || c == '\n' {
            proof {
                assert(scan_at(s, i) == Step::Blank(i + 1));
            }
        } else {
            proof {
                lemma_punct_model(c);
                assert(scan_at(s, i) matches Step::Emit(t, j) && t == Tok::Punct(c) && j == i
                    + 1);
            }
            push_token(&mut group_stack, TokenTree::Punct(Punct(c)));
            proof {
                assert(stack_model(group_stack@) == push_tok(st0, Tok::Punct(c)));
                assert(lex_from(s, chars.pos(), stack_model(group_stack@)) == lex_from(
                    s,
                    i,
                    st0,
                ));
            }
        }
    }
    let last = group_stack.pop().unwrap();
    if group_stack.len() == 0 && last.0 == ' ' {
        Ok(last.1)
    } else {
        Err(LexError::UnclosedGroup { open: last.0 })
    }
}

} // verus!
