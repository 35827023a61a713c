# bomp

A compiler front end for BOOF, a small functional language of words and packs,
written in Verus: every function of the library carries a contract and is proved
against it.

## Layout

- `src/token.rs`, `src/lexer.rs`: tokens, and the lexer over the lines of a source
  file (comments cut, lines trimmed, one stream of characters).
- `src/ast.rs`, `src/parser.rs`: the syntax tree, and a recursive-descent parser
  with precedence climbing and an interner of names.
- `src/constructs.rs`: constructs (the widths of values) and the width check.
- `src/global_cycle.rs`: the dependency graph between globals, held in a
  `petgraph` `DiGraphMap`.
- `src/bir.rs`, `src/ast_lower.rs`: the BIR and the lowering of the syntax tree to
  it (globals folded to constants in topological order, functions compiled to
  blocks).
- `src/err.rs`, `src/show.rs`: the errors of each phase and how values and errors
  are shown.
- `app/main.rs`: the command-line program: reads a file, and hands it to the
  library to lex, parse, check for cyclic globals and check widths.
- `tests/`: tests of each phase on concrete inputs.

The meaning of each phase is given by spec functions (`sp_*` and the like), and
the public proof functions named `law_*` state properties that span functions:
that resolving a name gives what interning it gave, in each namespace apart;
that each token taken consumes input; that an operator binds more tightly than a
weaker one and equal ones associate to the left; that the environment of the
width check behaves as a map and is left as it was found, whatever the outcome;
that each global names its references in the dependency graph; and that lowered
globals are words, folded after the globals they name, and lowered functions
single blocks ending in a return, with each register written once.
