use generic_lexer::{BufferedInput, Lexer, MatchError, MatchResult, Matcher, Token};

#[derive(Debug, Clone, Copy, PartialEq, Eq)]
enum TokenKind {
    Int,
    Float,
    Name,
    Plus,
    Minus,
    Star,
    Slash,
    Semicolon,
    Equals,
    DoubleEquals,
}

struct Calc;

fn lex_int(input: &mut BufferedInput) -> TokenKind {
    input.accept_while(|c: &char| c.is_ascii_digit());
    if let Some(_) = input.accept_if(|c: &char| *c == '.') {
        return lex_float(input);
    }
    TokenKind::Int
}

fn lex_float(input: &mut BufferedInput) -> TokenKind {
    input.accept_while(|c: &char| c.is_ascii_digit());
    TokenKind::Float
}

fn lex_name(input: &mut BufferedInput) -> TokenKind {
    input.accept_while(|c: &char| *c == '_' || c.is_ascii_alphabetic());
    TokenKind::Name
}

impl Matcher<TokenKind> for Calc {
    fn try_match(&self, first_char: char, input: &mut BufferedInput) -> MatchResult<TokenKind> {
        let kind = match first_char {
            '+' => TokenKind::Plus,
            '-' => TokenKind::Minus,
            '*' => TokenKind::Star,
            '/' => TokenKind::Slash,
            ';' => TokenKind::Semicolon,
            '=' => input.accept_or(|c: &char| *c == '=', TokenKind::DoubleEquals, TokenKind::Equals),
            c if c.is_ascii_digit() => lex_int(input),
            c if c.is_ascii_alphabetic() => lex_name(input),
            c => return Err(MatchError::Unexpected(c)),
        };
        Ok(kind)
    }
}

/// Rejects everything with a message of its own.
struct Refuse;

impl Matcher<TokenKind> for Refuse {
    fn try_match(&self, _first_char: char, _input: &mut BufferedInput) -> MatchResult<TokenKind> {
        Err(MatchError::Custom(String::from("no tokens here")))
    }
}

fn pairs(tokens: &[MatchResult<Token<TokenKind>>]) -> Vec<(TokenKind, String)> {
    tokens
        .iter()
        .map(|t| match t {
            Ok(tok) => (*tok.kind(), tok.text().clone()),
            Err(e) => panic!("unexpected failure: {:?}", e),
        })
        .collect()
}

#[test]
fn worked_scenario_calc_expression() {
    let mut lexer = Lexer::new("a = 420 + 69 * 3.14;", Calc, true);
    let tokens = lexer.tokens();
    let expected = vec![
        (TokenKind::Name, "a".to_string()),
        (TokenKind::Equals, "=".to_string()),
        (TokenKind::Int, "420".to_string()),
        (TokenKind::Plus, "+".to_string()),
        (TokenKind::Int, "69".to_string()),
        (TokenKind::Star, "*".to_string()),
        (TokenKind::Float, "3.14".to_string()),
        (TokenKind::Semicolon, ";".to_string()),
    ];
    assert_eq!(pairs(&tokens), expected);
}

#[test]
fn worked_scenario_two_dots() {
    let mut lexer = Lexer::new("12.34.56", Calc, true);
    match lexer.next() {
        Some(Ok(tok)) => {
            assert_eq!(*tok.kind(), TokenKind::Float);
            assert_eq!(tok.text(), "12.34");
        }
        other => panic!("expected a float, got {:?}", other),
    }
    match lexer.next() {
        Some(Err(MatchError::Unexpected(c))) => assert_eq!(c, '.'),
        other => panic!("expected a failure on '.', got {:?}", other),
    }
}

#[test]
fn worked_scenario_whitespace_only() {
    let mut lexer = Lexer::new("  ", Calc, true);
    assert!(lexer.next().is_none());
    let mut again = Lexer::new("  ", Calc, true);
    assert!(again.tokens().is_empty());
}

#[test]
fn empty_input_ends_at_once() {
    let mut lexer = Lexer::new("", Calc, true);
    assert!(lexer.next().is_none());
    let mut plain = Lexer::new("", Calc, false);
    assert!(plain.next().is_none());
}

#[test]
fn single_recognized_character() {
    let mut lexer = Lexer::new("+", Calc, false);
    match lexer.next() {
        Some(Ok(tok)) => {
            assert_eq!(*tok.kind(), TokenKind::Plus);
            assert_eq!(tok.into_text(), "+");
        }
        other => panic!("expected a token, got {:?}", other),
    }
    assert!(lexer.next().is_none());
}

#[test]
fn single_unrecognized_character() {
    let mut lexer = Lexer::new("?", Calc, true);
    match lexer.next() {
        Some(Err(MatchError::Unexpected(c))) => assert_eq!(c, '?'),
        other => panic!("expected a failure, got {:?}", other),
    }
    assert!(lexer.next().is_none());
}

#[test]
fn end_stays_final() {
    let mut lexer = Lexer::new("x", Calc, true);
    assert!(matches!(lexer.next(), Some(Ok(_))));
    assert!(lexer.next().is_none());
    assert!(lexer.next().is_none());
    assert!(lexer.next().is_none());
}

#[test]
fn trailing_whitespace_terminates() {
    let mut lexer = Lexer::new("a   \t\n", Calc, true);
    let tokens = lexer.tokens();
    assert_eq!(pairs(&tokens), vec![(TokenKind::Name, "a".to_string())]);
}

#[test]
fn reconstruction_without_skipping() {
    let source = "x=1+22;y==3.5";
    let mut lexer = Lexer::new(source, Calc, false);
    let joined: String = pairs(&lexer.tokens()).into_iter().map(|(_, t)| t).collect();
    assert_eq!(joined, source);
}

#[test]
fn reconstruction_with_skipping() {
    let source = "a = 420 + 69 * 3.14;";
    let mut lexer = Lexer::new(source, Calc, true);
    let joined: String = pairs(&lexer.tokens()).into_iter().map(|(_, t)| t).collect();
    let without_ws: String = source.chars().filter(|c| !c.is_ascii_whitespace()).collect();
    assert_eq!(joined, without_ws);
}

#[test]
fn rerun_gives_same_sequence() {
    let source = "foo = 1 + bar_baz * 2.5 / 7;";
    let first = pairs(&Lexer::new(source, Calc, true).tokens());
    let second = pairs(&Lexer::new(source, Calc, true).tokens());
    assert_eq!(first, second);
    assert_eq!(first.len(), 10);
}

#[test]
fn whitespace_not_skipped_is_offered_to_matcher() {
    let mut lexer = Lexer::new(" a", Calc, false);
    match lexer.next() {
        Some(Err(MatchError::Unexpected(c))) => assert_eq!(c, ' '),
        other => panic!("expected a failure on the space, got {:?}", other),
    }
    match lexer.next() {
        Some(Ok(tok)) => assert_eq!(tok.text(), "a"),
        other => panic!("expected a name, got {:?}", other),
    }
}

#[test]
fn failure_drops_consumed_characters() {
    let mut lexer = Lexer::new("1 ? 2", Calc, true);
    let out = lexer.tokens();
    assert_eq!(out.len(), 3);
    assert!(matches!(&out[1], Err(MatchError::Unexpected('?'))));
    match &out[2] {
        Ok(tok) => assert_eq!(tok.text(), "2"),
        other => panic!("expected a number, got {:?}", other),
    }
}

#[test]
fn double_equals_takes_two_characters() {
    let mut lexer = Lexer::new("a==b=c", Calc, true);
    let kinds: Vec<TokenKind> = pairs(&lexer.tokens()).into_iter().map(|(k, _)| k).collect();
    assert_eq!(
        kinds,
        vec![
            TokenKind::Name,
            TokenKind::DoubleEquals,
            TokenKind::Name,
            TokenKind::Equals,
            TokenKind::Name
        ]
    );
}

#[test]
fn custom_failure_is_passed_through() {
    let mut lexer = Lexer::new("ab", Refuse, false);
    let out = lexer.tokens();
    assert_eq!(out.len(), 2);
    for r in &out {
        match r {
            Err(MatchError::Custom(msg)) => assert_eq!(msg, "no tokens here"),
            other => panic!("expected a custom failure, got {:?}", other),
        }
    }
}

#[test]
fn error_messages() {
    assert_eq!(MatchError::Unexpected('%').message(), "Unexpected '%'\n");
    assert_eq!(MatchError::Custom("bad escape".to_string()).message(), "bad escape");
}

#[test]
fn token_accessors() {
    let tok = Token::new(TokenKind::Name, "abc".to_string());
    assert_eq!(*tok.kind(), TokenKind::Name);
    assert_eq!(tok.text(), "abc");
    assert_eq!(tok.into_text(), "abc");
}

#[test]
fn non_ascii_source_is_lexed_by_character() {
    let mut lexer = Lexer::new("é", Calc, true);
    match lexer.next() {
        Some(Err(MatchError::Unexpected(c))) => assert_eq!(c, 'é'),
        other => panic!("expected a failure, got {:?}", other),
    }
    assert!(lexer.next().is_none());
}
