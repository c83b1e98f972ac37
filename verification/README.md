# mini_linear

A verified type checker for a small linear-typed language inspired by the formal
core of Linear Dafny (Li et al., OOPSLA 2022). It reads a `.lin` source and
produces either a typing verdict (`well-typed: <type>`) or an error pointing at
a line and column. No execution, no runtime — pure static analysis.

`src/` is the library, written in Verus; every function in it is proved against
its contract and nothing in it is assumed.

- `ast` — the syntax tree, and the mathematical views of its types.
- `lexical`, `reading` — what stands at a position of a source: the expression
  that is read there, or the error that is reported.
- `grammar` — the language as a grammar, and the proof that the parser accepts
  exactly it.
- `shifting`, `composing` — what a source reads as after leading trivia, in
  parentheses, bound by a `let`, or joined to another one by `;` or `+`.
- `parser` — the recursive-descent parser.
- `typing` — the typing rules: what every expression yields, or which error.
- `typeck` — the type checker.
- `linearity` — what the rules guarantee: linear variables are consumed exactly
  once, what one part of a sequence or binding consumes is not used by the part
  that follows, ordinary values hold no linear ones. (The one use that escapes is a
  borrow in the value of a linear `let` that binds the borrowed name anew.)
- `scoping` — what checking depends on and puts on record: unused variables do not
  matter, recorded uses are lookups, shared values come from borrowing.
- `diagnostics` — what holds of parsed programs: which forms they have, that names
  and numbers are those of the source, and where errors point.
- `error` — diagnostics and their printed form.
- `names`, `text` — maps from names, and texts.
- `report` — the verdict on a source.

`app/` is the command line program around the library. It takes one argument, the
path of a `.lin` file, and exits with

- `0` if the file is well-typed,
- `1` on a parse or type error,
- `2` on a usage error (wrong arguments, file unreadable).
