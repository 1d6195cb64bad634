# extension_table

Extension tables of a STARK prover, verified with Verus. A table has constraints on the rows of an
execution trace. The library takes the values of these constraints, divides them by the zerofiers of
the rows on which they must hold, and bounds the degrees of the resulting quotients.

- `src/extension_table.rs`: the traits `ExtensionTable`, `Evaluable`, `Quotientable` and
  `QuotientableExtensionTable`. A table that implements `StoresConstraints` evaluates the constraints
  that it holds; any other implements `Evaluable` itself.
- `src/quotients.rs`, `src/degree_bounds.rs`, `src/degree_with_origin.rs`: what these traits compute.
- `src/field_model.rs`, `src/prime.rs`, `src/univariate.rs`, `src/interpolation.rs`,
  `src/composition.rs`: the mathematics that the contracts and the laws speak of.
- `src/laws.rs`, `src/valid_trace.rs`: what holds of several functions together. In particular, on a
  trace that satisfies all constraints every quotient keeps to the degree bound at its index.
- `app/`: conversions to and from the types of `twenty_first`, checks that panic, and text output.

Field arithmetic, polynomial evaluation and interpolation come from `twenty_first`; rows are handed
out to threads by `rayon`. Both are trusted, by the contracts of the functions that call them.
