use bfvm::lexer::Lexer;
use bfvm::lexer::Token;

#[test]
fn test_basic_tokens() {
    let mut lexer = Lexer::new("+-<>[].,");
    let tokens = lexer.tokenize();
    assert_eq!(
        tokens,
        vec![
            Token::Increment,
            Token::Decrement,
            Token::DecrementPtr,
            Token::IncrementPtr,
            Token::LoopStart,
            Token::LoopEnd,
            Token::Output,
            Token::Input,
        ]
    );
}

#[test]
fn test_with_comments() {
    let mut lexer = Lexer::new("Hello + World - This is a comment! >");
    let tokens = lexer.tokenize();
    assert_eq!(tokens, vec![Token::Increment, Token::Decrement, Token::IncrementPtr]);
}

#[test]
fn test_empty_input() {
    let mut lexer = Lexer::new("");
    let tokens = lexer.tokenize();
    assert_eq!(tokens.len(), 0);
}

#[test]
fn next_token_skips_comments_and_stops_at_the_end() {
    let mut lexer = Lexer::new("ab+c-");
    assert_eq!(lexer.next_token(), Some(Token::Increment));
    assert_eq!(lexer.next_token(), Some(Token::Decrement));
    assert_eq!(lexer.next_token(), None);
    assert_eq!(lexer.next_token(), None);
}

#[test]
fn bytes_of_other_scripts_are_comments() {
    let mut lexer = Lexer::new("é+日本語[ß]");
    let tokens = lexer.tokenize();
    assert_eq!(tokens, vec![Token::Increment, Token::LoopStart, Token::LoopEnd]);
}

#[test]
fn tokenize_after_next_token_gives_the_rest() {
    let mut lexer = Lexer::new(">>.");
    assert_eq!(lexer.next_token(), Some(Token::IncrementPtr));
    assert_eq!(lexer.tokenize(), vec![Token::IncrementPtr, Token::Output]);
}
