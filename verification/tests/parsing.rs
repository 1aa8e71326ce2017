use llvm_compiler::lexer::AsciiLexer;
use llvm_compiler::parse::parser::Parser;
use llvm_compiler::token::Token;

fn postfix(src: &str) -> Vec<String> {
    let mut lexer = AsciiLexer::new();
    let buf = String::from(src);
    let tokens = lexer.tokenize(&buf);
    let parsed = Parser::new(0, &tokens).parse().unwrap();
    parsed.iter().map(|t| t.as_str().to_string()).collect()
}

#[test]
fn parse_subtraction_chain() {
    // Every operator that binds at least as tightly is written before the next one.
    assert_eq!(postfix("1 - 2 * 3 + 4;"), vec!["1", "2", "3", "*", "-", "4", "+", ";"]);
    assert_eq!(postfix("1 - 2 * 3 - 4;"), vec!["1", "2", "3", "*", "-", "4", "-", ";"]);
    assert_eq!(postfix("a - b - c;"), vec!["a", "b", "-", "c", "-", ";"]);
}

/// Evaluates a postfix sequence of decimal numbers, `+`, `-` and `*`,
/// passing over brackets and `;`.
fn evaluate(postfix: &[String]) -> i64 {
    let mut values: Vec<i64> = Vec::new();
    for t in postfix {
        match t.as_str() {
            "+" | "-" | "*" => {
                let b = values.pop().unwrap();
                let a = values.pop().unwrap();
                values.push(match t.as_str() {
                    "+" => a + b,
                    "-" => a - b,
                    _ => a * b,
                });
            }
            "(" | ")" | ";" => {}
            n => values.push(n.parse().unwrap()),
        }
    }
    assert_eq!(values.len(), 1);
    values[0]
}

#[test]
fn parse_postfix_evaluates_like_infix() {
    assert_eq!(evaluate(&postfix("1 - 2 * 3 - 4;")), -9);
    assert_eq!(evaluate(&postfix("2 * 3 + 4 * 5 - 6;")), 20);
    assert_eq!(evaluate(&postfix("2 * (3 + 4) * 5 - 6;")), 64);
    assert_eq!(evaluate(&postfix("10 - (4 - 3) - 2;")), 7);
    assert_eq!(evaluate(&postfix("(1 + 2) * (3 - 5) * 2 - 1;")), -13);
}

#[test]
fn parse_stops_after_semicolon() {
    assert_eq!(postfix("a + b; c + d;"), vec!["a", "b", "+", ";"]);
}

#[test]
fn parse_without_semicolon_keeps_the_stack() {
    // Without a `;` the operators left on the stack are not written.
    assert_eq!(postfix("a + b * c)"), vec!["a", "b", "c", "*", "+", ")"]);
}

#[test]
fn parse_unmatched_open_bracket_is_written_twice() {
    assert_eq!(postfix("(a;"), vec!["(", "a", "(", ";"]);
}

#[test]
fn parse_keeps_operand_order() {
    let out = postfix("A * (B + C * D) - E * F;");
    let operands: Vec<&String> = out
        .iter()
        .filter(|s| s.chars().all(|c| c.is_ascii_alphanumeric()))
        .collect();
    assert_eq!(operands, vec!["A", "B", "C", "D", "E", "F"]);
    assert_eq!(out.last().unwrap(), ";");
}

#[test]
fn parse_from_an_index() {
    let mut lexer = AsciiLexer::new();
    let buf = String::from("x; 1 + 2;");
    let tokens = lexer.tokenize(&buf);
    let parsed = Parser::new(2, &tokens).parse().unwrap();
    let texts: Vec<&str> = parsed.iter().map(|t| t.as_str()).collect();
    assert_eq!(texts, vec!["1", "2", "+", ";"]);
}

#[test]
fn parse_needs_a_token() {
    let empty: [Token; 0] = [];
    let err = Parser::new(0, &empty).parse().unwrap_err();
    assert_eq!(err.message, "Expected token");
    assert!(err.labels.is_empty());

    let blank = [Token::from(0, " "), Token::from(1, "\n")];
    assert!(Parser::new(0, &blank).parse().is_err());
    assert!(Parser::new(2, &blank).parse().is_err());
}

#[test]
fn parse_reads_the_last_token() {
    let tokens = [Token::from(0, ";")];
    let parsed = Parser::new(0, &tokens).parse().unwrap();
    let texts: Vec<&str> = parsed.iter().map(|t| t.as_str()).collect();
    assert_eq!(texts, vec![";"]);

    let spaced = [Token::from(0, " "), Token::from(1, "\n"), Token::from_word(2, "a")];
    let parsed = Parser::new(0, &spaced).parse().unwrap();
    let texts: Vec<&str> = parsed.iter().map(|t| t.as_str()).collect();
    assert_eq!(texts, vec!["a"]);
}

#[test]
fn parser_pop_undoes_push() {
    let tokens = [Token::from_word(0, "a")];
    let mut parser = Parser::new(0, &tokens);
    assert!(parser.pop().is_none());
    parser.push(Token::from(1, "+"));
    parser.push(Token::from(2, "*"));
    assert_eq!(parser.pop().unwrap().as_str(), "*");
    assert_eq!(parser.pop().unwrap().as_str(), "+");
    assert!(parser.pop().is_none());
    let parsed = parser.parse().unwrap();
    assert_eq!(parsed.len(), 1);
}

#[test]
fn parse_skips_whitespace_tokens() {
    let tokens = [
        Token::from(0, " "),
        Token::from_word(1, "a"),
        Token::from(2, " "),
        Token::from(3, "+"),
        Token::from(4, "\n"),
        Token::from_word(5, "b"),
        Token::from(6, ";"),
    ];
    let parsed = Parser::new(0, &tokens).parse().unwrap();
    let texts: Vec<&str> = parsed.iter().map(|t| t.as_str()).collect();
    assert_eq!(texts, vec!["a", "b", "+", ";"]);
}

#[test]
fn parse_output_is_a_reordering_of_the_input() {
    let src = "A * (B + C * D) - E * F;";
    let mut out = postfix(src);
    let mut input: Vec<String> = src.split(' ').flat_map(|w| {
        let mut parts = Vec::new();
        let mut cur = String::new();
        for c in w.chars() {
            if c == '(' || c == ')' || c == ';' {
                if !cur.is_empty() {
                    parts.push(cur.clone());
                    cur.clear();
                }
                parts.push(c.to_string());
            } else {
                cur.push(c);
            }
        }
        if !cur.is_empty() {
            parts.push(cur);
        }
        parts
    }).collect();
    assert_eq!(out.len(), 14);
    out.sort();
    input.sort();
    assert_eq!(out, input);
}
