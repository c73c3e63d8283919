# curve_math

Verified arithmetic of CryptoSwap pools: the solvers of the invariant and the full exchange, with every
update of the pool's state, for pools of two and three coins of both generations. Amounts are exact to
the last unit.

## Layout

- `src/uint.rs`, `src/signed.rs`: 256-bit words. Their view is a number; `alloy_primitives` calculates.
- `src/roots.rs`, `src/exponential.rs`, `src/cubic.rs`: roots, logarithms, `e^x`, signed divisions.
- `src/newton.rs`, `src/bounds.rs`: the Newton iterations and where they stay.
- `src/solvers/`: `D` and the balance of one coin, for two and for three coins.
- `src/fees.rs`, `src/marginal.rs`, `src/pricing.rs`, `src/coins.rs`: the rules that pools share.
- `src/exchange*.rs`: the four pools and their operations.
- `src/callbacks.rs`: solvers of other invariants, which the caller passes in.
- `src/growth.rs`: how `D` grows with the balances.
- `src/rounding.rs`, `src/swap.rs`: what is left of the cubic at its rounded root, and how one balance falls as
  the others grow.
- `app/`: the states as `serde` reads and writes them, and an exchange that reports what it did.

## How it is stated

Every calculation has a model, a spec function over `int` that says what comes out for every input,
including sums and products that leave the words and inputs on which nothing can come out. The functions
named `try_..` are total and return a `Fault` on the latter; the ones without the prefix require that
there is none.

Proof functions named `law_..` state what holds of the models: what an operation leaves unchanged, how a
result depends on the order of the coins, between which bounds it lies.

## What is not proved

The functions named `alloy_..` in `src/uint.rs` and `src/signed.rs` call `alloy_primitives`. Verus takes
their contracts as given; each says what it claims.

The solvers that a caller passes in (`src/callbacks.rs`) are not proved either. The pools that use them ask
two things of them: that they accept every input, and that they give the same answer to the same input each
time. What a pool does with the answers is proved for every such solver.
