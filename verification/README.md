# wml_comparer

A verified library for comparing two WordprocessingML bodies and producing the
marked-up result. The code under `src/` is written in Verus: each public
function carries a `requires`/`ensures` contract over mathematical models of
the XML arena, the comparison units and the correlated sequences, and Verus
proves the code against it.

## Layout

- `src/xml.rs` — the node arena (`Dom`), names, attributes and traversals.
- `src/tree.rs` — trees of the arena read as values; facts for building new
  trees node by node.
- `src/text.rs`, `src/namespaces.rs`, `src/unid.rs`, `src/comparison_log.rs` —
  text helpers, namespace names, identity minting and the diagnostic log.
- `src/comparer/` — the comparison engine:
  - `atoms`, `units` — comparison atoms, words and their nesting into groups;
  - `lcs`, `lcs_score`, `lcs_table` — correlation of unit sequences
    (common runs, common ends, projection hashes, tables);
  - `block_clone`, `preprocess` — block clones for hashing and the
    preprocessing before it;
  - `ancestry`, `coalesce`, `produce`, `grid` — ancestor identities, the
    reassembly of the marked-up tree and the element-level edits it makes;
  - `moves`, `residuals`, `para_text`, `lists`, `revisions`, `parts`,
    `tables` — supporting passes.
- `tests/` — tests of the library on concrete values.
- `app/` — settings and the floating-point similarity measures around the
  library.

The crate uses no outside crates.
