# symmetrica

A small symbolic-computation kernel written in Verus: every function in `src/` carries
a contract that Verus proves.

- `expr_core`, `canonical`: a hash-consed expression store with canonical sums, products
  and powers, deterministic digests, and the laws that construction order does not matter.
- `arith`: exact `i64` rationals with overflow-checked operations.
- `calculus`: constant evaluation and folding, Maclaurin series, limits, bounds of
  definite integrals and substitution, calculus-aware rewrites (`√4 → 2`,
  `ln(eˣ) → x`, `sin²x + cos²x → 1`, `2 sin x cos x → sin 2x`), the shape checks of
  first-order ODE right-hand sides, and the recognition of exponential and logarithmic
  extensions that Risch integration starts from.
- `algebraic`, `number_theory`, `matrix`, `grobner`, `polysolve`: algebraic numbers,
  modular arithmetic and factoring, exact linear algebra, Gröbner bases, and a small
  polynomial-system solver.
- `io`: LaTeX, JSON and S-expression writers and readers.
- `assumptions`: tri-valued properties of symbols.

`tests/` holds the test suite; `app/` is the command-line front end (argument handling,
printing, floating-point evaluation), which Verus does not check.

Differentiation, general integration, ODE solving, the general simplifier and plotting
are not included: they rely on crates of the wider workspace that are not available here.
