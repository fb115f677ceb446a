# minilang

A small expression and statement language: a lexer, a precedence-climbing
parser, values with integer and binary64 arithmetic, compile-time scopes, and
the byte encoding of machine instructions.

- `src/` is the library, verified with Verus. `parser::grammar` holds the
  lexer and the expression parser with their specifications;
  `parser::precedence` proves that the parser reads the grammar of sums,
  products and parenthesized atoms: `* /` bind more tightly than `+ -`, both
  associate to the left, and parentheses group. `types` holds values and their
  arithmetic; a float is a `FloatTerm` that says how the binary64 number is
  computed.
- `app/` is the program: it reads number literals as `f64`, computes float
  terms, and gives the errors their messages.
- `tests/` runs the library.
