# llvm_compiler

The front end of a small compiler, written in Verus: a lexer that splits
source text into tokens, a parser that turns an infix expression into postfix
order, and readers for function declarations. Every function in `src/` is
verified against its contract, with two trusted items whose contracts are
taken on trust rather than proved:

- `text::from_utf8` (src/text.rs) wraps `std::str::from_utf8`; its contract
  says that it succeeds exactly on valid UTF-8 and gives back a string with
  those bytes.
- `ExPackingError` (src/token_err.rs) declares the error type
  `packed_struct::PackingError` so that `TokenizationError` can hold it; it
  is a declaration only, with no contract.

Modules:

- `token`: the tokens, their kinds, precedences and texts; `token_order`
  compares tokens by where they start.
- `lexer`: `AsciiLexer::tokenize`, specified by `lex_prefix`; each token's
  text is the source at its location, the tokens come out in order without
  overlapping, and up to the end of the last boundary every byte but the
  spaces and newlines is in exactly one token. A `-` directly followed by
  `>` makes an arrow.
- `parse::parser`: `Parser::parse`, specified by `expr_scan`; operands keep
  their order, an expression ends at its first `;`, its output is a
  reordering of the tokens it read, and a pop undoes a push.
- `parse::infix`: the grammar of expressions over `+`, `-`, `*` and round
  brackets, and the law that the postfix output evaluates like the infix
  input.
- `parse::{identifier, ty, list, function, keyword}`: readers of declarations
  over a `parse::source::Source`.
- `line::lexer`: splits a line at spaces and round brackets.
- `app/`: the command line program.
