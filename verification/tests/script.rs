use storygraph::lex::{LexError, Lexer};
use storygraph::parse::parse;
use storygraph::tokens::Token;

#[test]
fn simple_parse() {
    let input = "Steve";

    parse(input);
}

#[test]
fn parse_starts_at_the_beginning() {
    let mut lexer = parse("Steve");
    assert_eq!(lexer.position(), 0);
    assert_eq!(lexer.consume_slice_exact(Token::Name), Ok("Steve".to_string()));
    assert_eq!(lexer.position(), 5);
}

#[test]
fn names_commas_and_newlines() {
    let mut lexer = Lexer::new("  Ann,\tBob \n");
    assert_eq!(lexer.consume_slice_exact(Token::Name), Ok("Ann".to_string()));
    assert_eq!(lexer.consume_exact(Token::Comma), Ok(()));
    assert_eq!(lexer.consume_slice_exact(Token::Name), Ok("Bob".to_string()));
    assert_eq!(lexer.consume_slice_exact(Token::Newline), Ok("\n".to_string()));
    assert_eq!(lexer.consume_exact(Token::Name), Err(LexError::EndOfInput { expected: Token::Name }));
    assert_eq!(lexer.position(), 12);
}

#[test]
fn another_token_is_consumed_and_reported() {
    let mut lexer = Lexer::new("Ann,Bob");
    assert_eq!(
        lexer.consume_exact(Token::Comma),
        Err(LexError::Unexpected { expected: Token::Comma, found: Token::Name })
    );
    assert_eq!(lexer.position(), 3);
    assert_eq!(
        lexer.consume_slice_exact(Token::Name),
        Err(LexError::Unexpected { expected: Token::Name, found: Token::Comma })
    );
    assert_eq!(lexer.consume_slice_exact(Token::Name), Ok("Bob".to_string()));
}

#[test]
fn an_invalid_character_is_passed_over_whole() {
    let mut lexer = Lexer::new("é7x");
    assert_eq!(lexer.consume_exact(Token::Name), Err(LexError::InvalidToken { expected: Token::Name }));
    assert_eq!(lexer.position(), 2);
    assert_eq!(lexer.consume_exact(Token::Name), Err(LexError::InvalidToken { expected: Token::Name }));
    assert_eq!(lexer.position(), 3);
    assert_eq!(lexer.consume_slice_exact(Token::Name), Ok("x".to_string()));
}

#[test]
fn blank_input_has_no_token() {
    let mut lexer = Lexer::new(" \t ");
    assert_eq!(lexer.consume_slice_exact(Token::Comma), Err(LexError::EndOfInput { expected: Token::Comma }));
    assert_eq!(lexer.position(), 3);
}
