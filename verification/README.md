# satsolver

A small SAT toolkit written in Verus: a CDCL solver (two watched literals,
simplification, learned-clause deletion, Luby restarts, phase saving, a
VSIDS-like decision order), a DPLL solver with counter-based propagation,
and CNF encodings of the Sudoku and Tents puzzles.

Layout:

- `src/` — the verified library.
  - `text.rs`, `dimacs.rs`: lines, words, numbers and DIMACS reading.
  - `cnf.rs`: writing clauses as DIMACS text, reading a solver's assignment.
  - `cdcl/`: the CDCL solver, as a step function driven from outside.
  - `dpll.rs`: the DPLL solver.
  - `sodoku.rs`, `tents.rs`: the puzzle encodings.
  - `laws.rs`: what the clauses mean (resolution, subsumption, the
    exactly-one and exactly-n encodings, the subsets enumeration).
  - `bench.rs`, `sort.rs`: benchmark bookkeeping and sorting.
- `app/main.rs` — the command line: file and directory handling, timing,
  the external solver, and the benchmark plot.
- `tests/` — tests of the library on concrete inputs.
