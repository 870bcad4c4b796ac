# sitplc

A compiler for SITPL, a small indentation-structured language, to the binary
format of a register VM. Every stage is a verified Rust library (Verus):

- `lexer` — source text to tokens; indentation becomes `Indent`/`Dedent`.
- `parser` — tokens to a syntax tree (recursive descent, precedence climbing).
- `semantic` — scopes, name resolution, a light type check, register allocation.
- `codegen` — the syntax tree to VM assembly text.
- `assembler` — assembly text to the VM binary (header, data and code sections).
- `vm_format` — section markers and the opcode table.
- `text` — character and text helpers shared by the stages.

Each stage states its result as a mathematical function (`lex`, `parse`,
`check_program_in`, `generate_in`, `assemble_in`) and its executable code is
proved to compute exactly that. Proof functions named `law_*` state properties
across calls:

- lexing: balanced indentation (in every prefix and in all), one final `Eof`;
- parsing: a lexed source is read to its final `Eof`;
- names: read-after-write, refused redeclaration, scopes that give back the
  outer names when closed (for any nesting), `if`/`while` blocks that leave
  the scopes as they were, registers that are never shared;
- code generation: append-only, labels that never collide, and a listing for
  every program whose names are all known;
- assembly: header counts and code words that follow the text line by line,
  unique labels, operand ranges, and the packing of each data type;
- the opcode table names each mnemonic once.

`app/main.rs` is the command-line driver: it reads the source file, runs the
stages and writes `output.bin`. Floating-point values (literal formatting and
the bits of `float` data) are handled there and handed to the library.
