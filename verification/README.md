# lib

A small Lisp: a lexer and syntax parser, a reader and parser with macros, a
lowering of syntax trees, and an evaluator, written in Verus and verified.

## Layout

- `src/lexing`, `src/parsing`: tokens, the lexer and the syntax parser, with
  the grammar as spec functions (`scan`, `parse_all`).
- `src/frontend`: events read from text (`StringReader`) or from values
  (`ValueReader`), and the parser that builds expressions in a `Session`,
  taking macro expansions from an `Expansions` list in the order of the calls
  and asking for the next one when it runs out (`ExpansionNeeded`).
- `src/lowering`: from syntax trees to expression trees.
- `src/runtime`: the session, scopes (`Environment`), values and their heap,
  the builtins that need no `f64` arithmetic, and the evaluator as a step
  machine (`machine::eval_step`): each step is given by `eval_step_spec`, and
  asks the host to run a builtin or read a number with a fraction.
- `app/`: the program. It prints the syntax tree of its argument, then
  evaluates it, running the machine's steps, the `f64` arithmetic and `print`,
  and expanding macros by evaluation.
- `tests/`: tests of the library, run against the compiled crate.
