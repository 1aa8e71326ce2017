use llvm_compiler::lexer::{is_word_boundary, AsciiLexer};
use llvm_compiler::parsed_to_str;
use llvm_compiler::token::{Inner, Token};

fn texts<'a>(tokens: &[Token<'a>]) -> Vec<&'a str> {
    tokens.iter().map(|t| t.as_str()).collect()
}

fn locs(tokens: &[Token]) -> Vec<usize> {
    tokens.iter().map(|t| t.loc()).collect()
}

#[test]
fn lexer_drops_spaces_and_newlines() {
    let mut lexer = AsciiLexer::new();
    let buf = String::from("a +\nb;");
    let tokens = lexer.tokenize(&buf);
    assert_eq!(texts(&tokens), vec!["a", "+", "b", ";"]);
    assert_eq!(locs(&tokens), vec![0, 2, 4, 5]);
    assert!(tokens.iter().all(|t| !matches!(t, Token::Space(_) | Token::Newline(_))));
}

#[test]
fn lexer_keeps_trailing_word_out() {
    let mut lexer = AsciiLexer::new();
    let buf = String::from("x + y");
    let tokens = lexer.tokenize(&buf);
    assert_eq!(texts(&tokens), vec!["x", "+"]);
}

#[test]
fn lexer_empty_buffer() {
    let mut lexer = AsciiLexer::default();
    let buf = String::new();
    let tokens = lexer.tokenize(&buf);
    assert!(tokens.is_empty());
}

#[test]
fn lexer_arrow() {
    let mut lexer = AsciiLexer::new();
    let buf = String::from("a->b;");
    let tokens = lexer.tokenize(&buf);
    assert_eq!(texts(&tokens), vec!["a", "->", "b", ";"]);
    assert!(matches!(tokens[1], Token::Arrow(_)));
    assert_eq!(tokens[1].loc(), 1);
}

#[test]
fn lexer_arrow_needs_adjacent_minus() {
    // A word between `-` and `>` keeps them apart.
    let mut lexer = AsciiLexer::new();
    let buf = String::from("-a>;");
    let tokens = lexer.tokenize(&buf);
    assert_eq!(texts(&tokens), vec!["-", "a", ">", ";"]);
    assert_eq!(locs(&tokens), vec![0, 1, 2, 3]);
    assert!(matches!(tokens[2], Token::GreaterThan(_)));
}

#[test]
fn lexer_keeps_lone_greater_than() {
    let mut lexer = AsciiLexer::new();
    let buf = String::from("a>b;");
    let tokens = lexer.tokenize(&buf);
    assert_eq!(texts(&tokens), vec!["a", ">", "b", ";"]);
    assert_eq!(locs(&tokens), vec![0, 1, 2, 3]);
    assert!(matches!(tokens[1], Token::GreaterThan(_)));
}

#[test]
fn lexer_minus_space_greater_is_not_arrow() {
    let mut lexer = AsciiLexer::new();
    let buf = String::from("- >;");
    let tokens = lexer.tokenize(&buf);
    assert_eq!(texts(&tokens), vec!["-", ">", ";"]);
}

#[test]
fn lexer_double_minus_arrow() {
    let mut lexer = AsciiLexer::new();
    let buf = String::from("-->>;");
    let tokens = lexer.tokenize(&buf);
    assert_eq!(texts(&tokens), vec!["-", "->", ">", ";"]);
    assert_eq!(locs(&tokens), vec![0, 1, 3, 4]);
}

#[test]
fn lexer_keywords_and_words() {
    let mut lexer = AsciiLexer::new();
    let buf = String::from("fn main(var, 42x, _a){}");
    let tokens = lexer.tokenize(&buf);
    assert_eq!(
        texts(&tokens),
        vec!["fn", "main", "(", "var", ",", "42x", ",", "_a", ")", "{", "}"]
    );
    assert!(matches!(tokens[0], Token::FunctionDeclaration(_)));
    assert!(matches!(tokens[1], Token::Identifier(_)));
    assert!(matches!(tokens[2], Token::OpenBracket(_)));
    assert!(matches!(tokens[3], Token::VariableDeclaration(_)));
    assert!(matches!(tokens[4], Token::Comma(_)));
    assert!(matches!(tokens[5], Token::NumericLiteral(_)));
    assert!(matches!(tokens[7], Token::Identifier(_)));
    assert!(matches!(tokens[9], Token::OpenCurly(_)));
    assert!(matches!(tokens[10], Token::CloseCurly(_)));
}

#[test]
fn lexer_unknown_boundaries() {
    let mut lexer = AsciiLexer::new();
    let buf = String::from("a.b#");
    let tokens = lexer.tokenize(&buf);
    assert_eq!(texts(&tokens), vec!["a", ".", "b", "#"]);
    assert!(matches!(tokens[1], Token::Unknown(_)));
    assert!(matches!(tokens[3], Token::Unknown(_)));
}

#[test]
fn lexer_non_ascii_words_and_byte_offsets() {
    let mut lexer = AsciiLexer::new();
    let buf = String::from("é + ü;");
    let tokens = lexer.tokenize(&buf);
    assert_eq!(texts(&tokens), vec!["é", "+", "ü", ";"]);
    assert_eq!(locs(&tokens), vec![0, 3, 5, 7]);
}

#[test]
fn lexer_locations_strictly_increase() {
    let mut lexer = AsciiLexer::new();
    let buf = String::from("fn f(a: i32, b) -> x { a - > b; c->d = 1 * (2 + 3); }\n");
    let tokens = lexer.tokenize(&buf);
    for pair in tokens.windows(2) {
        assert!(pair[0].loc() + pair[0].as_str().len() <= pair[1].loc());
    }
    for t in &tokens {
        assert_eq!(&buf[t.loc()..t.loc() + t.as_str().len()], t.as_str());
    }
}

#[test]
fn lexer_loses_no_byte() {
    let mut lexer = AsciiLexer::new();
    let buf = String::from("fn f(a: i32, b) -> x { a - > b; c->d = 1 * (2 + 3); }\n");
    let tokens = lexer.tokenize(&buf);
    let joined: String = tokens.iter().map(|t| t.as_str()).collect();
    let blanks_removed: String = buf.chars().filter(|c| *c != ' ' && *c != '\n').collect();
    assert_eq!(joined, blanks_removed);

    // A word after the last boundary is not taken in.
    let buf = String::from("a+b;c");
    let tokens = lexer.tokenize(&buf);
    let joined: String = tokens.iter().map(|t| t.as_str()).collect();
    assert_eq!(joined, "a+b;");
}

#[test]
fn word_boundaries() {
    for c in ['\n', ' ', '"', '#', '%', '&', '\'', '(', ')', '*', '+', ',', '-', '.', '/', ':', ';', '<', '=', '>', '?', '`', '{', '}'] {
        assert!(is_word_boundary(c));
    }
    for c in ['a', 'Z', '0', '_', '\t', '!', '[', '|', 'é'] {
        assert!(!is_word_boundary(c));
    }
}

#[test]
fn token_from_reserved_words() {
    assert!(matches!(Token::from(3, "->"), Token::Arrow(_)));
    assert!(matches!(Token::from(3, "fn"), Token::FunctionDeclaration(_)));
    assert!(matches!(Token::from(3, "var"), Token::VariableDeclaration(_)));
    assert!(matches!(Token::from(3, " "), Token::Space(_)));
    assert!(matches!(Token::from(3, "\n"), Token::Newline(_)));
    assert!(matches!(Token::from(3, "x"), Token::Unknown(_)));
    assert!(matches!(Token::from(3, "1"), Token::Unknown(_)));
    assert_eq!(Token::from(3, "->").loc(), 3);
    assert_eq!(Token::from(3, "->").as_str(), "->");
}

#[test]
fn token_from_word_classifies() {
    assert!(matches!(Token::from_word(0, "12"), Token::NumericLiteral(_)));
    assert!(matches!(Token::from_word(0, "ab"), Token::Identifier(_)));
    assert!(matches!(Token::from_word(0, "fn"), Token::FunctionDeclaration(_)));
    assert!(matches!(Token::from_word(0, ""), Token::Identifier(_)));
}

#[test]
fn token_kinds() {
    let plus = Token::from(0, "+");
    assert!(plus.is_operator() && !plus.is_initial() && !plus.is_terminal());
    let open = Token::from(0, "(");
    assert!(open.is_initial() && !open.is_operator());
    let semi = Token::from(0, ";");
    assert!(semi.is_terminal());
    assert!(Token::from(0, "fn").is_initial());
    assert!(Token::from(0, "}").is_terminal());
}

#[test]
fn token_precedence() {
    assert_eq!(Token::from(0, "+").precedence(), (3, 4));
    assert_eq!(Token::from(0, "-").precedence(), (3, 4));
    assert_eq!(Token::from(0, "*").precedence(), (5, 6));
    assert_eq!(Token::from(0, "=").precedence(), (3, 4));
    assert_eq!(Token::from(0, "{").precedence(), (3, 4));
    assert_eq!(Token::from(0, ":").precedence(), (5, 6));
    assert_eq!(Token::from(0, "(").precedence(), (0, 0));
    assert_eq!(Token::from(0, ";").precedence(), (0, 0));
}

#[test]
fn token_default_and_text() {
    let t = Token::default();
    assert!(matches!(t, Token::Unknown(_)));
    assert_eq!(t.loc(), 0);
    assert_eq!(t.to_string(), "default");
    assert_eq!(t.inner().slice, "default");
}

#[test]
fn token_inner_mut() {
    let mut t = Token::from(4, "+");
    t.inner_mut().loc = 9;
    assert_eq!(t.loc(), 9);
    assert!(matches!(t, Token::Plus(_)));
    let inner = Inner::new(2, "q");
    assert_eq!(inner.loc, 2);
    assert_eq!(inner.slice, "q");
}

#[test]
fn token_order_is_by_location() {
    let a = Token::from(1, "+");
    let b = Token::from(1, "x");
    let c = Token::from(5, "+");
    assert!(a == b);
    assert!(a != c);
    assert!(a < c);
    assert!(c > b);
    assert_eq!(a.partial_cmp(&b), Some(std::cmp::Ordering::Equal));
}

#[test]
fn parsed_to_str_joins_texts() {
    let tokens = [Token::from(0, "1"), Token::from(1, "+"), Token::from(2, "2")];
    assert_eq!(parsed_to_str(&tokens), "1+2");
    let none: [Token; 0] = [];
    assert_eq!(parsed_to_str(&none), "[]");
}
