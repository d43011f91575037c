use toktree::lexer::to_tokens;
use toktree::serial::to_source;
use toktree::token::{Bracket, Ident, LexError, Lit, Punct, TokenTree};

fn ident(s: &str) -> TokenTree {
    TokenTree::Ident(Ident(String::from(s)))
}

fn num(s: &str) -> TokenTree {
    TokenTree::Literal(Lit::Num(String::from(s)))
}

fn string(s: &str) -> TokenTree {
    TokenTree::Literal(Lit::Str(String::from(s)))
}

fn boolean(b: bool) -> TokenTree {
    TokenTree::Literal(Lit::Bool(b))
}

fn punct(c: char) -> TokenTree {
    TokenTree::Punct(Punct(c))
}

#[test]
fn call_with_group() {
    let got = to_tokens(String::from("foo(1, \"bar\", true)")).unwrap();
    let expected = vec![
        ident("foo"),
        TokenTree::Group(
            Bracket::Paren,
            vec![num("1"), punct(','), string("bar"), punct(','), boolean(true)],
        ),
    ];
    assert_eq!(got, expected);
}

#[test]
fn assignment_with_float() {
    let got = to_tokens(String::from("x = 3.14;")).unwrap();
    let expected = vec![ident("x"), punct('='), num("3.14"), punct(';')];
    assert_eq!(got, expected);
    match &got[2] {
        TokenTree::Literal(Lit::Num(text)) => {
            let value: f32 = text.parse().unwrap();
            assert_eq!(value, 3.14f32);
        }
        other => panic!("expected a number, got {:?}", other),
    }
}

#[test]
fn unclosed_brace() {
    assert_eq!(
        to_tokens(String::from("{")),
        Err(LexError::UnclosedGroup { open: '{' })
    );
}

#[test]
fn unmatched_close_paren() {
    assert_eq!(
        to_tokens(String::from(")")),
        Err(LexError::UnmatchedClose { found: ')' })
    );
}

#[test]
fn crossed_brackets_mismatch() {
    assert_eq!(
        to_tokens(String::from("([)]")),
        Err(LexError::MismatchedBracket { found: ')', expected: ']' })
    );
}

#[test]
fn unterminated_string() {
    assert_eq!(
        to_tokens(String::from("\"abc")),
        Err(LexError::UnterminatedString)
    );
}

#[test]
fn whitespace_only_is_empty() {
    assert_eq!(to_tokens(String::from("  \n \n ")), Ok(vec![]));
}

#[test]
fn empty_input_is_empty() {
    assert_eq!(to_tokens(String::new()), Ok(vec![]));
}

#[test]
fn number_at_end_of_input_is_rejected() {
    assert_eq!(
        to_tokens(String::from("42")),
        Err(LexError::UnexpectedEof)
    );
}

#[test]
fn second_dot_is_malformed() {
    assert_eq!(
        to_tokens(String::from("1.2.3")),
        Err(LexError::MalformedNumber)
    );
}

#[test]
fn trailing_dot_number() {
    assert_eq!(to_tokens(String::from("1. ")), Ok(vec![num("1.")]));
}

#[test]
fn identifier_at_end_of_input_is_accepted() {
    assert_eq!(to_tokens(String::from("true")), Ok(vec![boolean(true)]));
    assert_eq!(to_tokens(String::from("false")), Ok(vec![boolean(false)]));
    assert_eq!(to_tokens(String::from("truex")), Ok(vec![ident("truex")]));
    assert_eq!(to_tokens(String::from("_a1")), Ok(vec![ident("_a1")]));
}

#[test]
fn reserved_words_only_whole() {
    assert_eq!(
        to_tokens(String::from("truex ")),
        Ok(vec![ident("truex")])
    );
}

#[test]
fn nested_groups() {
    let got = to_tokens(String::from("{[()]}")).unwrap();
    let expected = vec![TokenTree::Group(
        Bracket::Brace,
        vec![TokenTree::Group(
            Bracket::Bracket,
            vec![TokenTree::Group(Bracket::Paren, vec![])],
        )],
    )];
    assert_eq!(got, expected);
}

#[test]
fn backslash_does_not_escape_quote() {
    let got = to_tokens(String::from("\"a\\\"")).unwrap();
    assert_eq!(got, vec![string("a\\")]);
}

#[test]
fn punctuators_split_expression() {
    let got = to_tokens(String::from("a+b;")).unwrap();
    assert_eq!(got, vec![ident("a"), punct('+'), ident("b"), punct(';')]);
}

#[test]
fn negative_number_is_punct_then_number() {
    let got = to_tokens(String::from("-7 ")).unwrap();
    assert_eq!(got, vec![punct('-'), num("7")]);
}

#[test]
fn unmatched_close_after_balanced_prefix() {
    assert_eq!(
        to_tokens(String::from("() )")),
        Err(LexError::UnmatchedClose { found: ')' })
    );
}

#[test]
fn mismatch_names_expected_closer() {
    assert_eq!(
        to_tokens(String::from("(]")),
        Err(LexError::MismatchedBracket { found: ']', expected: ')' })
    );
}

#[test]
fn group_then_sibling_token() {
    let got = to_tokens(String::from("( a ) b")).unwrap();
    let expected = vec![
        TokenTree::Group(Bracket::Paren, vec![ident("a")]),
        ident("b"),
    ];
    assert_eq!(got, expected);
}

#[test]
fn newline_separates_tokens() {
    let got = to_tokens(String::from("a\nb ")).unwrap();
    assert_eq!(got, vec![ident("a"), ident("b")]);
}

#[test]
fn serialize_tokens_exactly() {
    let tokens = to_tokens(String::from("foo(1, \"bar\", true)")).unwrap();
    let source = to_source(&tokens);
    assert_eq!(source, "foo (1 , \"bar\" , true ) ");
}

#[test]
fn round_trip_preserves_tree() {
    let inputs = [
        "foo(1, \"bar\", true)",
        "x = 3.14;",
        "{[( a 1. \"s\" )]}",
        "  \n ",
        "a+b;",
    ];
    for input in inputs {
        let tokens = to_tokens(String::from(input)).unwrap();
        let source = to_source(&tokens);
        let again = to_tokens(source).unwrap();
        assert_eq!(tokens, again);
    }
}

#[test]
fn deep_nesting_round_trip() {
    let tokens = to_tokens(String::from("f(g[h{1 ;}])")).unwrap();
    let again = to_tokens(to_source(&tokens)).unwrap();
    assert_eq!(tokens, again);
}

#[test]
fn top_level_groups_match_pairs() {
    let got = to_tokens(String::from("a(b)[c] {d(e)}")).unwrap();
    let top_groups: Vec<&TokenTree> = got
        .iter()
        .filter(|t| matches!(t, TokenTree::Group(_, _)))
        .collect();
    assert_eq!(top_groups.len(), 3);
    match &got[1] {
        TokenTree::Group(Bracket::Paren, children) => assert_eq!(children.len(), 1),
        other => panic!("expected a paren group, got {:?}", other),
    }
    match &got[2] {
        TokenTree::Group(Bracket::Bracket, children) => assert_eq!(children.len(), 1),
        other => panic!("expected a bracket group, got {:?}", other),
    }
    match &got[3] {
        TokenTree::Group(Bracket::Brace, children) => {
            assert_eq!(children.len(), 2);
            assert!(matches!(children[1], TokenTree::Group(Bracket::Paren, _)));
        }
        other => panic!("expected a brace group, got {:?}", other),
    }
}
