# Predicate path engine

A predicate is a boolean expression over paths that another reader answers:
comparisons (`=`, `!=`, `<`, `<=`, `>`, `>=`), `exists('path')`,
`starts-with('path', "text")`, `contains('path', "text")`, and `and`, `or`,
`not` with parentheses. The engine parses the predicate and evaluates it by
asking the reader it is handed for the value of each path operand.

Layout:

- `src/text.rs` — characters and strings: classes, UTF-8 widths, numbers
  written in decimal, and the string operations the rest builds on.
- `src/order.rs` — less, equal, greater, and lexicographic orders.
- `src/decimal.rs` — exact decimal numbers, their syntax, order and text.
- `src/value.rs` — the scalars a reader answers with, errors, readers and
  writers.
- `src/lexer.rs` — tokens, with the lexer stated as a function over the
  characters of the predicate.
- `src/expression.rs` — the expression tree and its grammar, with the
  parser proved to follow it.
- `src/eval.rs` — evaluation, stated over a sequence of answers, the paths
  that the evaluation asks for with them, and the relation by which each
  reader says which answers it may give for a path.
- `src/laws.rs` — tokens, precedence, comparisons and null handling,
  reads over one reader, and failures.
- `src/lib.rs` — the engine: read, write (refused), cost.
- `app/lib.rs` — conversions between `f64` and the library's decimals.

Numbers with a point are held as exact decimals, never rounded to a binary
float, and compared by value; an integer beside a decimal is promoted to
the decimal of the same value.
