use llvm_compiler::line::lexer::LineLexer;
use llvm_compiler::parse::context::{FunctionCtx, ModifierCtx, ParseCtx};
use llvm_compiler::parse::error::LabeledSpan;
use llvm_compiler::parse::function::{FunctionArguments, Function};
use llvm_compiler::parse::identifier::Identifier;
use llvm_compiler::parse::info::identifier::IdentifierInfo;
use llvm_compiler::parse::keyword::Keyword;
use llvm_compiler::parse::list::List;
use llvm_compiler::parse::source::Source;
use llvm_compiler::parse::state::{ExpressionState, ParseState};
use llvm_compiler::parse::ty::Type;
use llvm_compiler::parse::{Parse, SyntaxError};
use llvm_compiler::span::Span;
use llvm_compiler::token::Token;
use llvm_compiler::token_err::TokenizationError;
use packed_struct::PackingError;

fn source(text: &str) -> Source {
    Source::new(text.as_bytes().to_vec())
}

#[test]
fn span_new_after_extend() {
    let s = Span::new(3, 4);
    assert_eq!((s.start, s.size), (3, 4));
    let a = Span::after(s);
    assert_eq!((a.start, a.size), (7, 0));
    let mut e = Span::new(1, 1);
    let copy = e.extend(5);
    assert_eq!((e.start, e.size), (1, 6));
    assert_eq!((copy.start, copy.size), (1, 6));
    let d = Span::default();
    assert_eq!((d.start, d.size), (0, 0));
}

#[test]
fn line_lexer_parts() {
    let line = String::from("f(a b) c");
    let mut lexer = LineLexer::new(&line);
    let mut parts = Vec::new();
    while let Some(p) = lexer.next() {
        parts.push(p);
    }
    assert_eq!(parts, vec!["f", "a", "b", "", "c"]);
    assert_eq!(lexer.next(), None);
}

#[test]
fn line_lexer_empty_line_has_one_part() {
    let line = String::new();
    let mut lexer = LineLexer::new(&line);
    assert_eq!(lexer.next(), Some(""));
    assert_eq!(lexer.next(), None);
}

#[test]
fn identifier_new_measures_bytes() {
    let id = Identifier::new("naïve", Span::new(2, 0));
    assert_eq!(id.ident, "naïve");
    assert_eq!((id.span.start, id.span.size), (2, 6));
    assert_eq!(id.to_string(), "naïve");
}

#[test]
fn identifier_parse_stops_before_bracket() {
    let mut reader = source("main(x)");
    let id = Identifier::parse(&mut reader, Span::new(10, 99)).unwrap();
    assert_eq!(id.ident, "main");
    assert_eq!((id.span.start, id.span.size), (10, 4));
    assert_eq!(reader.offset(), 4);
}

#[test]
fn identifier_parse_stops_at_space_or_curly() {
    let mut reader = source("ab cd");
    assert_eq!(Identifier::parse(&mut reader, Span::default()).unwrap().ident, "ab");
    let mut reader = source("x{");
    assert_eq!(Identifier::parse(&mut reader, Span::default()).unwrap().ident, "x");
    let mut reader = source(" y");
    let id = Identifier::parse(&mut reader, Span::default()).unwrap();
    assert_eq!(id.ident, "");
    assert_eq!(id.span.size, 0);
    assert_eq!(reader.offset(), 0);
}

#[test]
fn type_from_text() {
    assert!(matches!(Type::from("", Span::default()), Type::Inferred));
    match Type::from("  i32 \t", Span::new(4, 0)) {
        Type::Explicit(id, span) => {
            assert_eq!(id.ident, "i32");
            assert_eq!((span.start, span.size), (4, 3));
        }
        Type::Inferred => panic!("expected an explicit type"),
    }
    match Type::from("\u{a0}u8\u{3000}", Span::new(0, 0)) {
        Type::Explicit(id, _) => assert_eq!(id.ident, "u8"),
        Type::Inferred => panic!("expected an explicit type"),
    }
}

#[test]
fn type_parse_reads_to_curly() {
    let mut reader = source(" Vec<u8> {body");
    match Type::parse(&mut reader, Span::new(5, 2)).unwrap() {
        Type::Explicit(id, span) => {
            assert_eq!(id.ident, "Vec<u8>");
            assert_eq!((id.span.start, id.span.size), (7, 7));
            assert_eq!((span.start, span.size), (5, 9));
        }
        Type::Inferred => panic!("expected an explicit type"),
    }
    assert_eq!(reader.offset(), 9);
}

#[test]
fn list_parse_items_and_nesting() {
    let mut reader = source("a, f(b, c), <d, e>) rest");
    let list = List::parse(&mut reader, Span::new(1, 0)).unwrap();
    assert_eq!(list.items, vec!["a", " f(b, c)", " <d, e>"]);
    assert_eq!((list.span.start, list.span.size), (1, 19));
    assert_eq!(reader.offset(), 19);
    assert_eq!(list.to_string(), "a,  f(b, c),  <d, e>");
}

#[test]
fn list_parse_empty_list() {
    let mut reader = source(")");
    let list = List::parse(&mut reader, Span::default()).unwrap();
    assert_eq!(list.items, vec![""]);
    assert_eq!(list.span.size, 1);
}

#[test]
fn function_arguments_parse() {
    let mut reader = source("(a: i32, b:, c: T)");
    let args = FunctionArguments::parse(&mut reader, Span::new(10, 4)).unwrap();
    assert_eq!(args.arguments.len(), 3);
    assert_eq!(args.arguments[0].identifier.ident, "a");
    assert!(matches!(&args.arguments[0].ty, Type::Explicit(t, _) if t.ident == "i32"));
    assert_eq!(args.arguments[1].identifier.ident, " b");
    assert!(matches!(args.arguments[1].ty, Type::Inferred));
    assert_eq!(args.arguments[2].identifier.ident, " c");
    for arg in &args.arguments {
        assert_eq!(arg.span.start, 14);
        assert_eq!(arg.identifier.span.start, 14);
    }
    assert_eq!(args.arguments[0].span.size, 6);
    assert_eq!(args.arguments[2].span.size, 5);
    assert_eq!((args.span.start, args.span.size), (10, 19));
    assert_eq!(reader.offset(), 18);
    assert_eq!(args.arguments[0].to_string(), "a: i32");
    assert_eq!(args.arguments[1].to_string(), " b");
    assert_eq!(args.to_string(), "a: i32, b, c: T,");
}

#[test]
fn function_parse_and_display() {
    let mut reader = source("main(x: u8, y: u8) {}");
    let f = Function::parse(&mut reader, Span::new(4, 1)).unwrap();
    assert_eq!(f.identifier.ident, "main");
    assert_eq!((f.identifier.span.start, f.identifier.span.size), (4, 4));
    assert!(matches!(f.return_type, Type::Inferred));
    let args = f.arguments.as_ref().unwrap();
    assert_eq!(args.arguments.len(), 2);
    assert_eq!((args.span.start, args.span.size), (8, 14));
    assert_eq!((f.span.start, f.span.size), (5, 17));
    assert_eq!(reader.offset(), 18);
    assert_eq!(f.to_string(), "main(x: u8, y: u8,)");
}

#[test]
fn keyword_parse_reads_a_function() {
    let mut reader = source("fun add(a: i32, b: i32) {}");
    match Keyword::parse(&mut reader, Span::new(0, 4)).unwrap() {
        Keyword::Function(f) => {
            assert_eq!(f.identifier.ident, "add");
            assert_eq!(f.arguments.unwrap().arguments.len(), 2);
        }
    }
    assert_eq!(reader.offset(), 23);
}

#[test]
fn source_reading() {
    let mut reader = source("ab cd");
    let mut buf = 0u8;
    assert_eq!(reader.read(&mut buf), 1);
    assert_eq!(buf, b'a');
    reader.unread();
    assert_eq!(reader.offset(), 0);
    let mut word = Vec::new();
    assert_eq!(reader.read_until(b' ', &mut word), 3);
    assert_eq!(word, b"ab ".to_vec());
    let mut rest = Vec::new();
    assert_eq!(reader.read_until(b' ', &mut rest), 2);
    assert_eq!(rest, b"cd".to_vec());
    assert_eq!(reader.read(&mut buf), 0);
    assert_eq!(buf, b'a');
}

#[test]
fn small_records() {
    let err = SyntaxError::new("bad", Span::new(1, 2));
    assert_eq!(err.description, "bad");
    assert_eq!((err.valid_until.start, err.valid_until.size), (1, 2));
    assert_eq!(err.to_string(), "Failed to parse token.");

    let info = IdentifierInfo::new(7, || String::from("x"));
    assert_eq!(info.token_idx, 7);

    let ctx: ParseCtx<u32> = FunctionCtx::new();
    assert!(matches!(ctx, ParseCtx::FunctionCtx(_)));
    let m = ModifierCtx { placeholder_idx: 3 };
    assert_eq!(m.placeholder_idx, 3);

    let span = LabeledSpan::new(None, 4, 2);
    assert_eq!((span.offset, span.len), (4, 2));

    let state = ExpressionState::new(Token::from(3, "("));
    assert_eq!(state.initiator.loc(), 3);
    let parse_state: ParseState = state.into();
    assert!(matches!(parse_state, ParseState::Expression(_)));
}

#[test]
fn tokenization_error_messages_and_source() {
    let e = TokenizationError::from(PackingError::InvalidValue);
    assert_eq!(e.to_string(), "Could not pack token");
    assert!(matches!(e.source(), Some(PackingError::InvalidValue)));
    let n = TokenizationError::NoMatch;
    assert_eq!(n.to_string(), "Found no matching token");
    assert!(n.source().is_none());
}
