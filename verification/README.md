# lib

A compiler for a small indentation-based language, verified with Verus:
lexer, parser, AST optimizer, type checker, three-address IR (shared
subexpressions, strength reduction, loop-invariant code motion), liveness
analysis with slot reuse, bytecode generation and a peephole optimizer.

- `src/` is the verified library. Each pass is stated as a spec function
  over mathematical models (`SExpr`, `SStmt`, `SToken`, `SIrStmt`, byte
  sequences), and the executable code is proved to compute it. Laws that
  relate passes or hold of every input are public proof functions named
  `law_*`.
- `tests/` runs the library on concrete programs.
- `app/` is the command-line driver: it reads a source file and prints its
  tokens and syntax tree.

Maps keyed by names use `namemap::NameMap`, a vector of entries whose keys
are distinct, instead of `std::collections::HashMap<String, _>`: Verus gives
no usable specification to a hash map keyed by `String`, so nothing could be
proved about its lookups, while `NameMap`'s view is a `Map` that every
contract can speak of.
