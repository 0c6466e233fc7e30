# periodic_table

Properties of the 118 chemical elements and a small reaction engine, written
in Verus: every function in `src/` is verified, and nearly all of them carry
a `requires`/`ensures` contract that Verus proves.

- `src/` — the verified library: electron configurations (Aufbau fill with
  the anomaly table), group/period/block/category/class, oxidation states,
  valence parsing, the element index, compositions, species and reactants,
  reaction classification and product prediction, the linear-algebra
  equation balancer, redox analysis, and the text rendering helpers.
  Modules named `laws_*` hold proof functions for properties that span
  several functions (a neutral atom holds `z` electrons; configurations keep
  Madelung order and subshell capacities; assigned oxidation states balance
  to zero; the balance is the smallest solution).
- `tests/` — ordinary Rust tests of the library.
- `app/` — the command-line program and the web bindings: file loading,
  serialization, floating-point masses and amounts, and output.

Verify with `verus` on `src/lib.rs`; the tests run with `cargo test`.
