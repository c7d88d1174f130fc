# compiler2

A compiler for the slang language, in Rust, with its passes verified by Verus.

The library (`src/`) holds the passes and states what each of them does:

- `lexing`: raw tokens to parser tokens, with `Indent` and `Dedent` tokens for
  the indentation of lines.
- `semantics::pass3`: object initializers to tuple literals in the order of the
  struct's fields, with the errors of a wrong initializer.
- `semantics::typechecker`: types for every expression, `int` values converted
  where a `float` is wanted, and the errors of an ill-typed program.
- `semantics::phase5_desugar`: lets and assignments to locals as stores.
- `tast::printer`: the text dump of a typed program.
- `ir_gen`: typed programs to stack bytecode.
- `llvm_backend`: bytecode to LLVM text.
- `compilation`: the order in which modules are compiled, from their imports.

`app/` is the command line program around it: it reads a source file, scans it
into raw tokens and lexes them.
