# palpath

Breeding calculations for pals: which child two parents give, which pairs of
pals give a wanted child, which breeding trees lead from a set of parents to a
target, and a greedy choice of parent pairs that together breed many kinds.

- `src/table.rs` — name-keyed tables (insertion order, each key once).
- `src/data.rs` — the database and the breeding rule (`Data::combine`), with
  the laws of the rule as proof functions, and `Data::pattern`.
- `src/calc.rs` — breeding trees, their Graphviz text, the path search, and
  repeated breeding with a fixed parent (`Data::dig`).
- `src/compact.rs` — the greedy choice of parent pairs (`Data::find_compact`),
  and a test of whether the breeding from every pair comes to an end
  (`Data::closures_end`).
- `app/main.rs` — the command-line program: reads the CSV files, calls the
  library, prints.

The ordinary child is the pal nearest to the parents' mean with its fraction
dropped (rounded toward zero), ties going to the smaller tie-break rank.
