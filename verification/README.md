# serotonin

A compiler from Serotonin, a small concatenative language, to Brainfuck, verified
with Verus.

## Layout

- `src/` — the verified library.
  - `compiler/grammar.rs`: the grammar of source text as spec functions;
    `compiler/parse.rs` is proved to compute exactly what it describes. The
    compiler parses source text directly into modules and definitions; there
    is no separate parser over the token stream, and no separate semantic
    analyser: `compiler/semantic.rs` (`apply_semantics`) does that work for the
    same language.
  - `compiler/ast.rs`, `compiler/source.rs`, `compiler/text.rs`: the syntax tree,
    source text with byte offsets, and printing.
  - `compiler/semantic.rs`: duplicate definitions, name resolution and
    qualification of calls.
  - `compiler/pattern.rs`: stack patterns, matching and substitution.
  - `compiler/gen.rs`: code generation as a state machine; `step_s` states each
    transition. Running the Brainfuck programs of compositions is left to the
    driver, which hands back what they printed.
  - `compiler/resolved.rs`: in a program that passed the analysis, every call
    the generator meets is found, step after step.
  - `compiler/progress.rs`: what holds over a whole run of the generator: no
    definition is left marked as being built when `main` is done.
  - `compiler/program.rs`: loading modules and their imports, and starting a
    compilation.
  - `solver/union.rs`: the check that a new definition is unreachable is proved
    to decide set inclusion: every stack state the new constraint admits is
    admitted by an earlier one.
  - `tokens.rs`: the token grammar (longest match, ties by a fixed order) and
    the lexer `tokenize`, which splits a text into tokens and reads each with
    `lexer::token_data`.
  - `report.rs`: what the diagnostic of a tokenizer error shows.
  - `solver*`, `typ.rs`, `stdlib.rs`, `lexer.rs`, `diagnostics.rs`, `config.rs`,
    `span.rs`, `ut.rs`: constraint sets of stack states, stack effects, constant
    tables, token values and errors, and small supporting types.
- `tests/` — tests of the library, including end-to-end compilations run by a
  reference Brainfuck interpreter.
- `app/` — the command-line program: argument handling, file input, interning
  of token texts, diagnostics, and the loop that runs the generator.
