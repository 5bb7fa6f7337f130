# rlox

A tree-walking interpreter for a small dialect of Lox, written in Verus.

- `src/` is the verified library: the scanner, the parser, the resolver, the
  environment of nested scopes and the interpreter. Each public function
  carries a contract over plain mathematical values (`Seq`, `Map`, views of
  tokens, expressions and statements). `src/semantics.rs` states what running
  code means, as derivations of machine states; `src/facts.rs` proves laws
  that hold of every run.
- Numbers are IEEE-754 doubles carried as their bits. Their arithmetic and
  their text are asked of a `Host`, which the caller supplies; each such
  operation is named by a spec function of the host, and the contracts say
  which operation gets which operands. The native function `clock` is the
  library's own and reads the host's time; any other native function is
  the host's, tied by a predicate to its name and arguments.
- Output and error lines are collected in the interpreter and handed back to
  the caller.
- `app/` is the command-line program: it reads a file or a prompt, runs the
  interpreter with a host built on `f64` and the system clock, and writes what
  the run printed and reported.
- `tests/` runs the library on concrete programs.
