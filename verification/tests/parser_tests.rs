use bfvm::lexer::Lexer;
use bfvm::lexer::Token;
use bfvm::parser::parse;
use bfvm::parser::AstNode;
use bfvm::parser::Parser;

#[test]
fn test_basic_loop() {
    let input = "+[-]";
    let mut lexer = Lexer::new(input);
    let tokens = lexer.tokenize();
    let mut parser = Parser::new(tokens);

    let ast = parser.parse().unwrap();
    assert!(matches!(ast, AstNode::Program(_)));
    if let AstNode::Program(instructions) = ast {
        assert_eq!(instructions.len(), 2);
        assert_eq!(instructions[0], AstNode::Increment);
        assert!(matches!(instructions[1], AstNode::Loop(_)));
        if let AstNode::Loop(loop_body) = &instructions[1] {
            assert_eq!(loop_body.len(), 1);
            assert_eq!(loop_body[0], AstNode::Decrement);
        }
    }
}

#[test]
fn test_nested_loops() {
    let input = "+[[-]]";
    let mut lexer = Lexer::new(input);
    let tokens = lexer.tokenize();
    let mut parser = Parser::new(tokens);

    let ast = parser.parse().unwrap();
    assert!(matches!(ast, AstNode::Program(_)));
    if let AstNode::Program(instructions) = ast {
        assert_eq!(instructions.len(), 2);
        assert_eq!(instructions[0], AstNode::Increment);
        assert!(matches!(instructions[1], AstNode::Loop(_)));
        if let AstNode::Loop(outer_loop) = &instructions[1] {
            assert_eq!(outer_loop.len(), 1);
            assert!(matches!(outer_loop[0], AstNode::Loop(_)));
            if let AstNode::Loop(inner_loop) = &outer_loop[0] {
                assert_eq!(inner_loop.len(), 1);
                assert_eq!(inner_loop[0], AstNode::Decrement);
            }
        }
    }
}

#[test]
fn test_unmatched_brackets() {
    let input = "+[[-]";
    let mut lexer = Lexer::new(input);
    let tokens = lexer.tokenize();
    let mut parser = Parser::new(tokens);

    let result = parser.parse();
    assert!(result.is_err());
}

#[test]
fn test_empty_program() {
    let input = "";
    let mut lexer = Lexer::new(input);
    let tokens = lexer.tokenize();
    let mut parser = Parser::new(tokens);

    let ast = parser.parse().unwrap();
    if let AstNode::Program(instructions) = ast {
        assert_eq!(instructions.len(), 0);
    }
}

#[test]
fn test_multiple_instructions() {
    let input = "+-><.,";
    let mut lexer = Lexer::new(input);
    let tokens = lexer.tokenize();
    let mut parser = Parser::new(tokens);

    let ast = parser.parse().unwrap();
    if let AstNode::Program(instructions) = ast {
        assert_eq!(instructions.len(), 6);
        assert_eq!(instructions[0], AstNode::Increment);
        assert_eq!(instructions[1], AstNode::Decrement);
        assert_eq!(instructions[2], AstNode::MoveRight);
        assert_eq!(instructions[3], AstNode::MoveLeft);
        assert_eq!(instructions[4], AstNode::Output);
        assert_eq!(instructions[5], AstNode::Input);
    }
}

#[test]
fn unclosed_loop_gives_the_message() {
    let result = parse(vec![Token::LoopStart, Token::Increment]);
    assert_eq!(result, Err("Unclosed loop - missing ]".to_string()));
}

#[test]
fn parse_function_builds_the_whole_tree() {
    let tokens = vec![
        Token::Increment,
        Token::LoopStart,
        Token::IncrementPtr,
        Token::LoopStart,
        Token::Output,
        Token::LoopEnd,
        Token::DecrementPtr,
        Token::LoopEnd,
        Token::Input,
    ];
    let expected = AstNode::Program(vec![
        AstNode::Increment,
        AstNode::Loop(vec![
            AstNode::MoveRight,
            AstNode::Loop(vec![AstNode::Output]),
            AstNode::MoveLeft,
        ]),
        AstNode::Input,
    ]);
    assert_eq!(parse(tokens), Ok(expected));
}

#[test]
fn closing_bracket_outside_a_loop_ends_the_program() {
    let tokens = vec![Token::Increment, Token::LoopEnd, Token::Decrement];
    let mut parser = Parser::new(tokens);
    assert_eq!(parser.parse(), Ok(AstNode::Program(vec![AstNode::Increment])));
    assert_eq!(parser.parse(), Ok(AstNode::Program(vec![AstNode::Decrement])));
    assert_eq!(parser.parse(), Ok(AstNode::Program(vec![])));
}

#[test]
fn empty_loop_is_parsed() {
    let tokens = vec![Token::LoopStart, Token::LoopEnd];
    assert_eq!(parse(tokens), Ok(AstNode::Program(vec![AstNode::Loop(vec![])])));
}

#[test]
fn clone_copies_the_tree() {
    let tree = AstNode::Program(vec![
        AstNode::Add(3),
        AstNode::Loop(vec![AstNode::Sub(2), AstNode::Loop(vec![])]),
    ]);
    assert_eq!(tree.clone(), tree);
}
