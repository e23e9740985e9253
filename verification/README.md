# A small compiler, verified

An interactive compiler for a small language of assignments, `print` and
`if`/`else` over numbers and comparisons. The library in `src/` is verified
with Verus; `app/` is the interactive loop around it.

- `text` — character classes (Unicode; numeric and alphabetic by the standard
  library, whitespace as its 25 code points), decimal notation.
- `lexer` — source text to tokens with line and column.
- `literal` — which number literals are accepted.
- `ast` — the syntax tree and its printed form.
- `parser` — recursive descent over the tokens.
- `semantic` — symbol table and type checks.
- `codegen` — three-address code, its listing, and where a running program jumps.
- `session` — one input line at a time against everything accepted before.
- `laws` — what a checked program guarantees about its code.

The program runs its code on `f64` values in `app/machine.rs`; the library
decides the control flow.
