# k_compiler

A compiler for K, a small low-level language inspired by C, written in Verus.
Every stage of the pipeline is an executable function whose contract states
what it computes, and Verus proves each body against its contract.

## Layout

- `src/lexer.rs`: bytes to tokens with byte spans; `scan` states the token
  at each position, `tokenize` is proved to follow it to the end, and
  `Lexer::items` gives the whole stream, proved to end once with the
  end-of-input token and to cover the source in order.
- `src/grammar.rs` and `src/parser.rs`: the grammar of K over token
  sequences, and a recursive-descent parser proved to return a tree the
  tokens read as, and to fail only when they read as none.
- `src/reading.rs`: the grammar is unambiguous; tokens read as at most one
  tree.
- `src/syntax_error.rs`: where the parser stops on tokens the grammar does
  not accept, and the error it reports there (`expected X, found Y` at the
  stopping token).
- `src/typing.rs` and `src/sema.rs`: K's typing rules as spec functions, and
  the checker proved to report exactly their diagnostics.
- `src/fold.rs`: constant folding on the syntax tree.
- `src/ir.rs`: lowering to a typed stack IR, with struct layouts and the code
  of every statement and expression stated.
- `src/optimize.rs`: constant folding on the IR and pruning of unreachable
  blocks; volatile accesses are proved to survive both, folding to keep the
  stack effect and to be idempotent, and pruning to leave every block
  reachable.
- `src/control_flow.rs`: lowering keeps each function's name, types and
  parameters, and every lowered function has numbered blocks, branches and
  jumps only at block ends and to existing blocks, and no unreachable block.
- `src/codegen.rs`: x86-64 assembly text, stated instruction by instruction.
- `src/driver.rs`: compiling one or several source buffers for a target.
- `app/main.rs`: the command-line program (`lex`, `parse`, `check`, `emit`,
  `compile`), which reads and writes files.

`tests/` holds the examples, run against the compiled library.
