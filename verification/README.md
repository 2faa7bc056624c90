# newimpcore

A compiler front end for Impcore with a few extensions (arrays, bitwise
operators, macros, file and library imports), written in Verus.

## Layout

- `src/` — the verified library.
  - `lexer.rs`, `parser.rs`, `parser/`, `parse.rs`: the grammar as a function
    on characters, with specifications of every rule and exact error messages.
  - `ast.rs`, `display.rs`: the syntax tree, its mathematical model and the
    text it prints as.
  - `env.rs`: interned names (`Tokens`) and the type environment.
  - `types.rs`: the type rules for definitions and calls.
  - `lazygraph.rs`: definitions that wait for what they use, released in
    dependency order once everything they name is known.
  - `preprocessor.rs`: macro expansion with a nesting limit.
  - `imports.rs`: pasting imported files into the program text, each file once,
    with the caller reading and finding the files.
  - `implib.rs`, `compiler.rs`, `cli.rs`: library listings, test reports and
    command line flags.
- `tests/` — tests run against the compiled library.
- `app/` — the program around it: reading and finding files, LLVM code
  generation through `inkwell`, and running the result.
