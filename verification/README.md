# bril

A flattened representation of Bril programs, with control-flow graphs,
strongly connected components and bitset dataflow analyses, verified with
Verus.

## Layout

- `src/ir.rs`: the flattened program: one instruction buffer, and tables of
  functions, strings and labels.
- `src/builder.rs`: builds programs block by block; jumps, branches and calls
  name their targets and are resolved when a function or the program is
  finished.
- `src/source.rs`, `src/shim.rs`: programs as written, with named variables
  and labels, and their translation into the flattened form.
- `src/ast.rs`, `src/ast_to_ir.rs`: structured programs (instructions,
  branches, sequences) and their lowering into one function.
- `src/printer.rs`: the textual form of a flattened program.
- `src/cfg.rs`, `src/cfg_build.rs`: the control-flow graph of a function.
- `src/analysis/`: postorder traversal, the worklist dataflow solver,
  liveness and reaching definitions, and Tarjan's strongly connected
  components with the condensed graph.
- `src/layout.rs`, `src/fuzz.rs`: what the random draws of the program
  generator mean: how a budget of blocks is spent on blocks, if/else nodes
  and loops nested to a bounded depth, and which instruction a draw picks.
- `src/bitsets.rs`: the bitsets of the `hibitset` and `fixedbitset` crates
  that the analyses work on.
- `tests/`: tests on concrete programs.
- `app/`: the command-line tools: flatten and print a program read as JSON,
  run the analyses, or generate random structured programs.

Every function of `src/` states its behaviour in `requires` / `ensures`
clauses that Verus proves, except the wrappers in `src/bitsets.rs` around
the `hibitset` and `fixedbitset` calls (`hibitset_new`, `hibitset_add`,
`hibitset_contains`, `hibitset_union_with`, `hibitset_difference_with`,
`hibitset_contains_set`, `hibitset_clone`, and the `fixedbitset_*`
functions): their contracts describe the outside crates and are trusted.

The arenas of programs, graphs and analysis results are vectors indexed by
newtypes of `usize`, where the original kept them in `slotmap` maps. The
original's keys are declared with `slotmap::new_key_type!`, a macro of that
crate, which the verified library cannot use, and every arena here only
grows, so an index is never reused and a vector holds exactly what the map
held.
