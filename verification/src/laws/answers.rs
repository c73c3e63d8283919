//! What is said of the function of a solver holds of the answers that the solver gives.
use crate::callbacks::{
    d_of, pure_d, pure_stable_d, pure_stable_y, pure_y, pure_y3, stable_d_of, stable_y_of, y3_of, y_of,
};
use crate::coins::{pair, triple};
use crate::newton::number;
use crate::uint::{lemma_of_view, U256};
use vstd::prelude::*;

verus! {

/// Two words are determined by their numbers.
proof fn lemma_pair(x: [U256; 2])
    ensures
        [U256::of(x[0]@), U256::of(x[1]@)] == x,
{
    lemma_of_view(x[0]);
    lemma_of_view(x[1]);
    assert([U256::of(x[0]@), U256::of(x[1]@)] =~= x);
}

/// Three words are determined by their numbers.
proof fn lemma_triple(x: [U256; 3])
    ensures
        [U256::of(x[0]@), U256::of(x[1]@), U256::of(x[2]@)] == x,
{
    lemma_of_view(x[0]);
    lemma_of_view(x[1]);
    lemma_of_view(x[2]);
    assert([U256::of(x[0]@), U256::of(x[1]@), U256::of(x[2]@)] =~= x);
}

/// The function of a solver for `D` of two coins gives the number of the answer to a call with `ann`, `gamma` and
/// the balances.
pub proof fn law_answer_d<F: Fn(U256, U256, [U256; 2]) -> Option<U256>>(
    f: F,
    ann: U256,
    gamma: U256,
    x: [U256; 2],
    r: Option<U256>,
)
    requires
        pure_d(f),
        call_ensures(f, (ann, gamma, x), r),
    ensures
        d_of(f)(ann@, gamma@, pair(x)) == number(r),
{
    lemma_of_view(ann);
    lemma_of_view(gamma);
    lemma_pair(x);
}

/// The function of a solver for a balance of two coins gives the number of the answer to a call with `ann`,
/// `gamma`, the balances, `D`, the coin and the variant.
pub proof fn law_answer_y<F: Fn(U256, U256, [U256; 2], U256, usize, bool) -> Option<U256>>(
    f: F,
    ann: U256,
    gamma: U256,
    x: [U256; 2],
    d: U256,
    i: usize,
    variant: bool,
    r: Option<U256>,
)
    requires
        pure_y(f),
        call_ensures(f, (ann, gamma, x, d, i, variant), r),
    ensures
        y_of(f)(ann@, gamma@, pair(x), d@, i as int, variant) == number(r),
{
    lemma_of_view(ann);
    lemma_of_view(gamma);
    lemma_of_view(d);
    lemma_pair(x);
}

/// The function of a solver for a balance of three coins gives the number of the answer to a call with `ann`,
/// `gamma`, the balances, `D` and the coin.
pub proof fn law_answer_y3<F: Fn(U256, U256, [U256; 3], U256, usize) -> Option<U256>>(
    f: F,
    ann: U256,
    gamma: U256,
    x: [U256; 3],
    d: U256,
    i: usize,
    r: Option<U256>,
)
    requires
        pure_y3(f),
        call_ensures(f, (ann, gamma, x, d, i), r),
    ensures
        y3_of(f)(ann@, gamma@, triple(x), d@, i as int) == number(r),
{
    lemma_of_view(ann);
    lemma_of_view(gamma);
    lemma_of_view(d);
    lemma_triple(x);
}

/// The function of a solver for `D` of a stable pool gives the number of the answer to a call with the balances
/// and the amplification coefficient.
pub proof fn law_answer_stable_d<F: Fn([U256; 2], U256) -> Option<U256>>(
    f: F,
    x: [U256; 2],
    ann: U256,
    r: Option<U256>,
)
    requires
        pure_stable_d(f),
        call_ensures(f, (x, ann), r),
    ensures
        stable_d_of(f)(pair(x), ann@) == number(r),
{
    lemma_of_view(ann);
    lemma_pair(x);
}

/// The function of a solver for a balance of a stable pool gives the number of the answer to a call with the coin
/// that comes in, the coin that goes out, the new balance of the first, the balances, `D` and the
/// amplification coefficient.
pub proof fn law_answer_stable_y<F: Fn(usize, usize, U256, [U256; 2], U256, U256) -> Option<U256>>(
    f: F,
    i: usize,
    j: usize,
    v: U256,
    x: [U256; 2],
    d: U256,
    ann: U256,
    r: Option<U256>,
)
    requires
        pure_stable_y(f),
        call_ensures(f, (i, j, v, x, d, ann), r),
    ensures
        stable_y_of(f)(i as int, j as int, v@, pair(x), d@, ann@) == number(r),
{
    lemma_of_view(v);
    lemma_of_view(d);
    lemma_of_view(ann);
    lemma_pair(x);
}

} // verus!
