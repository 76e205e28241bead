# dynamic_sets

Verified sets of integer keys, with their contracts proved by Verus.

- `src/avl_drevo.rs`: an AVL tree of `usize` keys (search-tree order,
  stored heights and balance are its invariant; its height is logarithmic).
- `src/hash_tabela.rs`: a static two-level perfect hash set of `u64` keys
  (universal hashing, `n` buckets, collision-free bucket tables, at most `4n`
  slots in all).
- `src/bentley_saxe.rs`: the Bentley-Saxe transformation, which turns the
  static hash set into a dynamic one (level `i` is empty or holds `2^i` keys).
- `src/generiraj_csv.rs`, `src/primerjava.rs`: timing and key generation for
  the benchmark.
- `src/nakljucno.rs`: the calls into the `rand` crate.
- `app/`: the benchmark program (printing, files, floating-point ratios).
