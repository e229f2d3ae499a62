# jlox

A tree-walking front end for the Lox language, with its scanner, parser,
syntax-tree printer and variable scopes verified by Verus.

- `src/scanner.rs`: turns source text into tokens (ending with `EOF`) and
  scanning problems; the result is stated as a function of the text.
- `src/char_stream.rs`: the character stream the scanner reads, an
  `itertools::PeekNth` over the text's characters.
- `src/number.rs`: which texts `f64` parsing accepts.
- `src/ast.rs`: literal values, expressions and statements, and their models.
- `src/parser.rs`: the recursive-descent parser, stated against a grammar
  written as spec functions over the token list.
- `src/visitor.rs`: the visitor walk over expressions and the printer built
  on it, with the law that printing an expression appends its text.
- `src/environment.rs`: nested variable scopes and their laws.
- `app/`: the command-line program: reading files and lines, printing, and
  evaluating expressions on `f64` numbers.
