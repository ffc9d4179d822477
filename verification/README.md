# puppy

A small expression language with a verified front end and evaluator.

- `src/lexer.rs` reads source text into nested tokens (bracket groups are
  single tokens, with error recovery for groups that cannot be read);
  `src/parser.rs` parses tokens with ten precedence levels, prefix operators,
  application by juxtaposition, `;` sequences and `let` definitions.
  Both are specified by recursive spec functions (`lex`, `parse`) and proved
  to compute exactly them; the grammar counts characters, and the lexer hands
  out spans that count bytes of the UTF-8 text (`lexed`).
- `src/interpreter/` evaluates a parsed program; `eval` is its
  specification, with dynamic scoping for calls and `print` as the one
  builtin. Printed values are collected in the result.
- `src/diagnostics.rs` turns each problem into a message and labelled spans;
  `src/ir/pretty_print.rs` gives the labels and children of the syntax tree.
- `src/typecheck.rs` types literal programs; `src/compile.rs` chains the
  stages for one source file.
- Integers are unbounded (`num-bigint`) and names are interned (`lasso`);
  both are reached through small trusted wrappers.
- `app/` is the command-line driver: it reads files, prints the tree with
  `ptree`, prints what the program printed and renders diagnostics with
  `codespan-reporting`.
