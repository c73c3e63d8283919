//! Solvers that the caller passes in.
//!
//! The pools of the first generation and the stable pools are priced by invariants that this library
//! does not solve: their functions take the solvers as arguments. A solver has to accept every
//! input and to give the same answer to the same input. What the pool does with the answers is
//! stated over the function from numbers to numbers that such a solver computes.
use crate::coins::{pair, triple};
use crate::newton::number;
use crate::uint::{lemma_of_view, U256};
use vstd::prelude::*;

verus! {

/// A function from `ann`, `gamma` and two balances to `D`.
pub type SolveD = spec_fn(int, int, (int, int)) -> Option<int>;

/// A function from `ann`, `gamma`, two balances, `D`, a coin and the variant of the pool to the
/// balance of that coin.
pub type SolveY = spec_fn(int, int, (int, int), int, int, bool) -> Option<int>;

/// Whether a solver for `D` of two coins, called with `ann`, `gamma` and the balances, accepts every
/// input and gives the same answer to the same input.
pub open spec fn pure_d<F: Fn(U256, U256, [U256; 2]) -> Option<U256>>(f: F) -> bool {
    &&& forall|a: U256, g: U256, x: [U256; 2]| #[trigger] call_requires(f, (a, g, x))
    &&& forall|a: U256, g: U256, x: [U256; 2], r: Option<U256>, q: Option<U256>|
        #![trigger call_ensures(f, (a, g, x), r), call_ensures(f, (a, g, x), q)]
        call_ensures(f, (a, g, x), r) && call_ensures(f, (a, g, x), q) ==> r == q
}

/// The answer of a solver for `D` of two coins.
pub open spec fn answer_d<F: Fn(U256, U256, [U256; 2]) -> Option<U256>>(
    f: F,
    a: U256,
    g: U256,
    x: [U256; 2],
) -> Option<U256> {
    choose|r: Option<U256>| call_ensures(f, (a, g, x), r)
}

/// The function that a solver for `D` of two coins computes.
pub open spec fn d_of<F: Fn(U256, U256, [U256; 2]) -> Option<U256>>(f: F) -> SolveD {
    |a: int, g: int, x: (int, int)|
        number(answer_d(f, U256::of(a), U256::of(g), [U256::of(x.0), U256::of(x.1)]))
}

/// Calls a solver for `D` of two coins.
pub fn ask_d<F: Fn(U256, U256, [U256; 2]) -> Option<U256>>(
    f: &F,
    ann: U256,
    gamma: U256,
    x: [U256; 2],
) -> (r: Option<U256>)
    requires
        pure_d(*f),
    ensures
        number(r) == d_of(*f)(ann@, gamma@, pair(x)),
{
    let r = f(ann, gamma, x);
    proof {
        lemma_of_view(ann);
        lemma_of_view(gamma);
        lemma_of_view(x[0]);
        lemma_of_view(x[1]);
        assert([U256::of(x[0]@), U256::of(x[1]@)] =~= x);
    }
    r
}

/// Whether a solver for the balance of one of two coins, called with `ann`, `gamma`, the balances,
/// `D`, the coin and the variant of the pool, accepts every input and gives the same answer to the
/// same input.
pub open spec fn pure_y<F: Fn(U256, U256, [U256; 2], U256, usize, bool) -> Option<U256>>(
    f: F,
) -> bool {
    &&& forall|a: U256, g: U256, x: [U256; 2], d: U256, i: usize, v: bool| #[trigger]
        call_requires(f, (a, g, x, d, i, v))
    &&& forall|
        a: U256,
        g: U256,
        x: [U256; 2],
        d: U256,
        i: usize,
        v: bool,
        r: Option<U256>,
        q: Option<U256>,
    |
        #![trigger call_ensures(f, (a, g, x, d, i, v), r), call_ensures(f, (a, g, x, d, i, v), q)]
        call_ensures(f, (a, g, x, d, i, v), r) && call_ensures(f, (a, g, x, d, i, v), q) ==> r == q
}

/// The answer of a solver for the balance of one of two coins.
pub open spec fn answer_y<F: Fn(U256, U256, [U256; 2], U256, usize, bool) -> Option<U256>>(
    f: F,
    a: U256,
    g: U256,
    x: [U256; 2],
    d: U256,
    i: usize,
    v: bool,
) -> Option<U256> {
    choose|r: Option<U256>| call_ensures(f, (a, g, x, d, i, v), r)
}

/// The function that a solver for the balance of one of two coins computes.
pub open spec fn y_of<F: Fn(U256, U256, [U256; 2], U256, usize, bool) -> Option<U256>>(
    f: F,
) -> SolveY {
    |a: int, g: int, x: (int, int), d: int, i: int, v: bool|
        number(
            answer_y(
                f,
                U256::of(a),
                U256::of(g),
                [U256::of(x.0), U256::of(x.1)],
                U256::of(d),
                i as usize,
                v,
            ),
        )
}

/// Calls a solver for the balance of one of two coins.
pub fn ask_y<F: Fn(U256, U256, [U256; 2], U256, usize, bool) -> Option<U256>>(
    f: &F,
    ann: U256,
    gamma: U256,
    x: [U256; 2],
    d: U256,
    i: usize,
    v: bool,
) -> (r: Option<U256>)
    requires
        pure_y(*f),
    ensures
        number(r) == y_of(*f)(ann@, gamma@, pair(x), d@, i as int, v),
{
    let r = f(ann, gamma, x, d, i, v);
    proof {
        lemma_of_view(ann);
        lemma_of_view(gamma);
        lemma_of_view(d);
        lemma_of_view(x[0]);
        lemma_of_view(x[1]);
        assert([U256::of(x[0]@), U256::of(x[1]@)] =~= x);
    }
    r
}

/// A function from `ann`, `gamma`, three balances, `D` and a coin to the balance of that coin.
pub type SolveY3 = spec_fn(int, int, (int, int, int), int, int) -> Option<int>;

/// Whether a solver for the balance of one of three coins, called with `ann`, `gamma`, the balances,
/// `D` and the coin, accepts every input and gives the same answer to the same input.
pub open spec fn pure_y3<F: Fn(U256, U256, [U256; 3], U256, usize) -> Option<U256>>(f: F) -> bool {
    &&& forall|a: U256, g: U256, x: [U256; 3], d: U256, i: usize| #[trigger]
        call_requires(f, (a, g, x, d, i))
    &&& forall|
        a: U256,
        g: U256,
        x: [U256; 3],
        d: U256,
        i: usize,
        r: Option<U256>,
        q: Option<U256>,
    |
        #![trigger call_ensures(f, (a, g, x, d, i), r), call_ensures(f, (a, g, x, d, i), q)]
        call_ensures(f, (a, g, x, d, i), r) && call_ensures(f, (a, g, x, d, i), q) ==> r == q
}

/// The answer of a solver for the balance of one of three coins.
pub open spec fn answer_y3<F: Fn(U256, U256, [U256; 3], U256, usize) -> Option<U256>>(
    f: F,
    a: U256,
    g: U256,
    x: [U256; 3],
    d: U256,
    i: usize,
) -> Option<U256> {
    choose|r: Option<U256>| call_ensures(f, (a, g, x, d, i), r)
}

/// The function that a solver for the balance of one of three coins computes.
pub open spec fn y3_of<F: Fn(U256, U256, [U256; 3], U256, usize) -> Option<U256>>(f: F) -> SolveY3 {
    |a: int, g: int, x: (int, int, int), d: int, i: int|
        number(
            answer_y3(
                f,
                U256::of(a),
                U256::of(g),
                [U256::of(x.0), U256::of(x.1), U256::of(x.2)],
                U256::of(d),
                i as usize,
            ),
        )
}

/// Calls a solver for the balance of one of three coins.
pub fn ask_y3<F: Fn(U256, U256, [U256; 3], U256, usize) -> Option<U256>>(
    f: &F,
    ann: U256,
    gamma: U256,
    x: [U256; 3],
    d: U256,
    i: usize,
) -> (r: Option<U256>)
    requires
        pure_y3(*f),
    ensures
        number(r) == y3_of(*f)(ann@, gamma@, triple(x), d@, i as int),
{
    let r = f(ann, gamma, x, d, i);
    proof {
        lemma_of_view(ann);
        lemma_of_view(gamma);
        lemma_of_view(d);
        lemma_of_view(x[0]);
        lemma_of_view(x[1]);
        lemma_of_view(x[2]);
        assert([U256::of(x[0]@), U256::of(x[1]@), U256::of(x[2]@)] =~= x);
    }
    r
}

/// A function from two balances and the amplification coefficient to `D` of a stable pool.
pub type SolveStableD = spec_fn((int, int), int) -> Option<int>;

/// A function from the coin that comes in, the coin that goes out, the new balance of the first, the
/// balances, `D` and the amplification coefficient to the balance of the second in a stable pool.
pub type SolveStableY = spec_fn(int, int, int, (int, int), int, int) -> Option<int>;

/// Whether a solver for `D` of a stable pool accepts every input and gives the same answer to the same
/// input.
pub open spec fn pure_stable_d<F: Fn([U256; 2], U256) -> Option<U256>>(f: F) -> bool {
    &&& forall|x: [U256; 2], a: U256| #[trigger] call_requires(f, (x, a))
    &&& forall|x: [U256; 2], a: U256, r: Option<U256>, q: Option<U256>|
        #![trigger call_ensures(f, (x, a), r), call_ensures(f, (x, a), q)]
        call_ensures(f, (x, a), r) && call_ensures(f, (x, a), q) ==> r == q
}

/// The answer of a solver for `D` of a stable pool.
pub open spec fn answer_stable_d<F: Fn([U256; 2], U256) -> Option<U256>>(
    f: F,
    x: [U256; 2],
    a: U256,
) -> Option<U256> {
    choose|r: Option<U256>| call_ensures(f, (x, a), r)
}

/// The function that a solver for `D` of a stable pool computes.
pub open spec fn stable_d_of<F: Fn([U256; 2], U256) -> Option<U256>>(f: F) -> SolveStableD {
    |x: (int, int), a: int|
        number(answer_stable_d(f, [U256::of(x.0), U256::of(x.1)], U256::of(a)))
}

/// Calls a solver for `D` of a stable pool.
pub fn ask_stable_d<F: Fn([U256; 2], U256) -> Option<U256>>(f: &F, x: [U256; 2], a: U256) -> (r:
    Option<U256>)
    requires
        pure_stable_d(*f),
    ensures
        number(r) == stable_d_of(*f)(pair(x), a@),
{
    let r = f(x, a);
    proof {
        lemma_of_view(a);
        lemma_of_view(x[0]);
        lemma_of_view(x[1]);
        assert([U256::of(x[0]@), U256::of(x[1]@)] =~= x);
    }
    r
}

/// Whether a solver for a balance of a stable pool accepts every input and gives the same answer to the
/// same input.
pub open spec fn pure_stable_y<
    F: Fn(usize, usize, U256, [U256; 2], U256, U256) -> Option<U256>,
>(f: F) -> bool {
    &&& forall|i: usize, j: usize, v: U256, x: [U256; 2], d: U256, a: U256| #[trigger]
        call_requires(f, (i, j, v, x, d, a))
    &&& forall|
        i: usize,
        j: usize,
        v: U256,
        x: [U256; 2],
        d: U256,
        a: U256,
        r: Option<U256>,
        q: Option<U256>,
    |
        #![trigger call_ensures(f, (i, j, v, x, d, a), r), call_ensures(f, (i, j, v, x, d, a), q)]
        call_ensures(f, (i, j, v, x, d, a), r) && call_ensures(f, (i, j, v, x, d, a), q) ==> r == q
}

/// The answer of a solver for a balance of a stable pool.
pub open spec fn answer_stable_y<
    F: Fn(usize, usize, U256, [U256; 2], U256, U256) -> Option<U256>,
>(f: F, i: usize, j: usize, v: U256, x: [U256; 2], d: U256, a: U256) -> Option<U256> {
    choose|r: Option<U256>| call_ensures(f, (i, j, v, x, d, a), r)
}

/// The function that a solver for a balance of a stable pool computes.
pub open spec fn stable_y_of<F: Fn(usize, usize, U256, [U256; 2], U256, U256) -> Option<U256>>(
    f: F,
) -> SolveStableY {
    |i: int, j: int, v: int, x: (int, int), d: int, a: int|
        number(
            answer_stable_y(
                f,
                i as usize,
                j as usize,
                U256::of(v),
                [U256::of(x.0), U256::of(x.1)],
                U256::of(d),
                U256::of(a),
            ),
        )
}

/// Calls a solver for a balance of a stable pool.
pub fn ask_stable_y<F: Fn(usize, usize, U256, [U256; 2], U256, U256) -> Option<U256>>(
    f: &F,
    i: usize,
    j: usize,
    v: U256,
    x: [U256; 2],
    d: U256,
    a: U256,
) -> (r: Option<U256>)
    requires
        pure_stable_y(*f),
    ensures
        number(r) == stable_y_of(*f)(i as int, j as int, v@, pair(x), d@, a@),
{
    let r = f(i, j, v, x, d, a);
    proof {
        lemma_of_view(v);
        lemma_of_view(d);
        lemma_of_view(a);
        lemma_of_view(x[0]);
        lemma_of_view(x[1]);
        assert([U256::of(x[0]@), U256::of(x[1]@)] =~= x);
    }
    r
}

} // verus!
