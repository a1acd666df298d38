# snark_testcs

A rank-one constraint system for testing circuits over the scalar field Fr of
BLS12-377, verified with Verus, together with the comparison gadget of the
integer circuit types.

- `src/field.rs`: field elements held as canonical limbs; the arithmetic is
  done by `snarkvm-fields` and `snarkvm-curves`.
- `src/indexed.rs`: the `indexmap` collections (hashed with `fxhash`) that the
  system interns names, values and objects in, described by sequences.
- `src/r1cs.rs`: variables, linear combinations, lookup tables, errors.
- `src/test_constraint_system.rs`: the system itself: allocation, constraints,
  lookup constraints, namespaces, paths, reading and writing values, and
  satisfaction.
- `src/circuit.rs`, `src/compare.rs`: integer circuit values and their
  comparison, with the counts and output types the comparison declares.
- `src/laws.rs`: properties that relate several operations.
- `app/`: console reports and closure-based entry points that check each
  precondition before calling the library.
