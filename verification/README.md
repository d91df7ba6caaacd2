# c_compiler

A minimal C compiler: it compiles a subset of C (`int` variables, arithmetic,
comparison and logical operators, `if`/`else`, `while`, `for`, functions and
calls, `//` and `/* */` comments) to x86-64 assembly in Intel syntax
(Linux System V ABI).

The library under `src/` is written in Verus and verified:

- `lexer` — the token language as spec functions (`scan`, `spec_lex`) and a
  lexer (`lex`, `LalrpopLexer`) proved to follow them, with error positions as
  UTF-8 byte offsets;
- `parser` — the grammar as spec functions (`parse_expr` … `parse_program`)
  and a recursive-descent parser proved to follow it token by token;
- `codegen` — the emitted text as spec functions (`expr_code`, `stmt_code`,
  `fn_code`, `program_code`) and an emitter proved to write exactly that text,
  with lemmas on the frame layout (every variable has its own slot) and on
  label numbering;
- `machine` — the expression code read as instructions and run on a model
  of the registers and memory it uses, with any callee that keeps the
  System V convention: it computes what C gives the expression
  (`lemma_expr_code_computes`);
- `ast`, `text` — the syntax tree with its model, and decimal rendering.

`app/main.rs` is the command-line driver: `c_compiler input.c [--tokens]`
writes `input.s`.
