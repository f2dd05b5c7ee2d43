# jitvm

A toy language with a bytecode interpreter and an x86-64 code generator,
written in Verus: the library in `src/` states what each stage does in
`requires`/`ensures` contracts over mathematical models, and Verus proves
the code against them.

## Layout

- `src/lexer.rs`: source bytes to tokens (`spec_tokenize`).
- `src/parser.rs`: tokens to the AST (`spec_parse`), statements by
  recursive descent, expressions by precedence climbing.
- `src/ir.rs`: the stack bytecode and the lowering (`spec_lower`).
- `src/lowered.rs`: what lowering guarantees: well-formed bytecode and a
  string pool without duplicates.
- `src/value.rs`: tagged 64-bit values (low bit 0: i63 integer, 1: heap
  address).
- `src/heap.rs`: the string arena and its copying collector.
- `src/interp.rs`: the abstract semantics of the bytecode (`spec_step`,
  `spec_run`) and the interpreter, proved to follow it step by step.
- `src/x86.rs`, `src/jit.rs`: instruction encodings and the template code
  generator; the code of a module is stated byte for byte (`module_code`),
  with its layout (`fn_start`, `op_off`).
- `src/repl.rs`: the decisions of the interactive loop.
- `src/lib.rs`: errors and `Engine` (source text to a loaded program).
- `app/`: the command-line program: file and terminal I/O, mapping the
  generated code executable and calling into it.
- `tests/`: tests run against the compiled library.
