use llvm_compiler::lexer::AsciiLexer;
use llvm_compiler::parse::parser::Parser;
use llvm_compiler::parsed_to_str;
use llvm_compiler::token::Token;

#[test]
fn plus_is_operator() {
    let token = Token::from(0, "+");
    assert!(token.is_operator());
}

#[test]
fn lexer_handle_buffer() {
    let mut lexer = AsciiLexer::new();
    let buf = String::from("1 + 2;");

    let tokens = lexer.tokenize(&buf);

    let target = [
        Token::from(0, "1"),
        Token::from(2, "+"),
        Token::from(4, "2"),
        Token::from(5, ";"),
    ];

    let matching = tokens
        .iter()
        .zip(&target)
        .all(|(a, b)| a.as_str() == b.as_str());

    assert!(matching);
}

#[test]
fn lexer_handle_unknowns() {
    let mut lexer = AsciiLexer::new();
    let buf = String::from("1 + test;");

    let tokens = lexer.tokenize(&buf);

    let target = [
        Token::from(0, "1"),
        Token::from(2, "+"),
        Token::from(4, "test"),
        Token::from(8, ";"),
    ];

    assert!(matches!(tokens[0], Token::NumericLiteral(_)));
    assert!(matches!(tokens[2], Token::Identifier(_)));

    let matching = tokens
        .iter()
        .zip(&target)
        .all(|(a, b)| a.as_str() == b.as_str());

    assert!(matching);
}

#[test]
fn parser_addition() {
    let mut lexer = AsciiLexer::new();
    let buf = String::from("1 + 2;");

    let tokens: Vec<Token<'_>> = lexer.tokenize(&buf);

    let parser = Parser::new(0, &tokens);
    let parsed = parser.parse().unwrap();

    let target = [tokens[0], tokens[2], tokens[1], tokens[3]];

    let matching = parsed
        .iter()
        .zip(&target)
        .all(|(a, b)| a.as_str() == b.as_str());

    assert!(matching);
}

#[test]
fn parser_nested_addition() {
    let mut lexer = AsciiLexer::new();
    let buf = String::from("1 + (2 + 3);");

    let tokens: Vec<Token<'_>> = lexer.tokenize(&buf);

    let parser = Parser::new(0, &tokens);
    let parsed = parser.parse().unwrap();

    let _ = parsed_to_str(&parsed);

    let target_buf = String::from("1 ( 2 3 + ) + ;");
    let target = lexer.tokenize(&target_buf);

    let matching = parsed
        .iter()
        .zip(&target)
        .all(|(a, b)| a.as_str() == b.as_str());
    assert!(matching);
    assert!(tokens.len() == target.len());
}

#[test]
fn parser_addition_before_multiplication() {
    let mut lexer = AsciiLexer::new();
    let buf = String::from("1 * 2 + 3;");

    let tokens: Vec<Token<'_>> = lexer.tokenize(&buf);

    let parser = Parser::new(0, &tokens);
    let parsed = parser.parse().unwrap();

    let _ = parsed_to_str(&parsed);

    let target_buf = String::from("1 2 * 3 +;");
    let target = lexer.tokenize(&target_buf);

    let matching = parsed
        .iter()
        .zip(&target)
        .all(|(a, b)| a.as_str() == b.as_str());
    assert!(matching);
    assert!(tokens.len() == target.len());
}

#[test]
fn parser_addition_after_multiplication() {
    let mut lexer = AsciiLexer::new();
    let buf = String::from("1 + 2 * 3;");

    let tokens: Vec<Token<'_>> = lexer.tokenize(&buf);

    let parser = Parser::new(0, &tokens);
    let parsed = parser.parse().unwrap();

    let _ = parsed_to_str(&parsed);

    let target_buf = String::from("1 2 3 * +;");
    let target = lexer.tokenize(&target_buf);

    let matching = parsed
        .iter()
        .zip(&target)
        .all(|(a, b)| a.as_str() == b.as_str());
    assert!(matching);
    assert!(tokens.len() == target.len());
}

#[test]
fn parser_mixed_addition_multiplication_parentheses() {
    let mut lexer = AsciiLexer::new();
    let buf = String::from("A * (B + C * D) + E;");

    let tokens: Vec<Token<'_>> = lexer.tokenize(&buf);

    let parser = Parser::new(0, &tokens);
    let parsed = parser.parse().unwrap();

    let _ = parsed_to_str(&parsed);

    let target_buf = String::from("A ( B C D * + ) * E +;");
    let target = lexer.tokenize(&target_buf);

    let matching = parsed
        .iter()
        .zip(&target)
        .all(|(a, b)| a.as_str() == b.as_str());
    assert!(matching);
    assert!(tokens.len() == target.len());
}
