# union_find_rust

Union-find (dynamic connectivity) over the sites `0 .. n`, with three algorithms —
quick-find, quick-union and weighted quick-union — verified with Verus, and a small
desktop playground that steps through a file of pairs.

## Layout

- `src/forest.rs` — the model: a parent array is a forest; `root`, `depth`,
  `same_tree`, the number of trees and the size of each tree, and the lemmas about
  hanging one tree below another.
- `src/count.rs` — counting the sites below a bound that satisfy a predicate.
- `src/union_find.rs` — `Sites`, the `UnionFindAlgo` trait, `UnionFindChoice`, the run
  over a file's lines (`UnionFind`) and `read_usize_pair`.
- `src/quick.rs`, `src/weighted_quick.rs` — the three algorithms.
- `src/text.rs` — reading decimal numbers and pair lines from bytes, and the proof
  that a pair written in decimal reads back as itself.
- `src/paths.rs`, `src/laws.rs` — chains of pairs, and the laws: union joins exactly
  two components, the result does not depend on the algorithm, after a run two
  sites are connected exactly when a chain of the pairs links them, and the number
  of components is the number of classes that the pairs generate.
- `tests/` — tests on concrete values.
- `app/` — the egui playground: file picking, reading lines, drawing.

## Input format

The first line holds `n`; every further line holds a pair `p q` of sites to join.
