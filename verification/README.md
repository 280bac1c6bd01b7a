# minimal_c_compiler

A compiler for C-Lite (`int`, `bool`, `if`/`else`, `while`, `return`,
functions with recursion, and a `printInt` primitive) that emits x86-64
assembly in Intel syntax for the System V calling convention. Every phase is
written in Verus and proved against a mathematical model of what it computes.

## Layout

- `src/lexer.rs` — the scanner. `lex_token` states which token comes next and
  where the cursor ends; a lexer's line and column are always those of its index
  in the input, and errors carry the position of the offending character.
- `src/parser.rs` — recursive descent with precedence climbing. The `sp_*`
  spec functions give the grammar, the result and the number of items read;
  looking ahead never drops a lexical error, so every one is reported.
- `src/semantic_analyzer.rs` — scoped symbol tables and type checking, modelled
  by `check_expr`, `check_stmt`, `check_function` and `analyze_program`. A
  `return` without a value is reported as a missing return value of the
  function it stands in. Each error type has a `message` with its text.
- `src/codegen.rs` — code generation. `gen_program` gives the exact assembly
  text; every declaration takes a frame slot of its own and names resolve
  through the scopes, so a shadowing variable never overwrites the one it
  hides. `CodeGenerator::can_generate` decides whether a program can be
  compiled from a generator's state.
- `src/codegen_laws.rs` — what the generated code keeps: balanced temporaries,
  16-byte aligned calls, label numbering, and distinct frame slots.
- `src/ast.rs`, `src/assoc.rs`, `src/text.rs` — syntax trees and their models,
  name-keyed lists, and the character and number formatting the phases share.
- `app/` — the command-line driver: reads a `.clite` file, runs the phases,
  prints errors, and writes `<stem>.s`.
