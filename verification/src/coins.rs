//! Numbers that belong to the coins of a pool.
use crate::uint::U256;
use vstd::multiset::Multiset;
use vstd::prelude::*;

verus! {

/// The numbers of two coins.
pub open spec fn pair(x: [U256; 2]) -> (int, int) {
    (x[0]@, x[1]@)
}

/// The number of coin `i` out of two.
pub open spec fn get2(x: (int, int), i: int) -> int {
    if i == 0 {
        x.0
    } else {
        x.1
    }
}

/// The numbers of two coins with that of coin `i` replaced.
pub open spec fn set2(x: (int, int), i: int, v: int) -> (int, int) {
    if i == 0 {
        (v, x.1)
    } else {
        (x.0, v)
    }
}

/// Two numbers, the larger one first.
pub open spec fn sorted2(x: (int, int)) -> (int, int) {
    if x.0 < x.1 {
        (x.1, x.0)
    } else {
        x
    }
}

/// The numbers of three coins.
pub open spec fn triple(x: [U256; 3]) -> (int, int, int) {
    (x[0]@, x[1]@, x[2]@)
}

/// The number of coin `i` out of three.
pub open spec fn get3(x: (int, int, int), i: int) -> int {
    if i == 0 {
        x.0
    } else if i == 1 {
        x.1
    } else {
        x.2
    }
}

/// The numbers of three coins with that of coin `i` replaced.
pub open spec fn set3(x: (int, int, int), i: int, v: int) -> (int, int, int) {
    if i == 0 {
        (v, x.1, x.2)
    } else if i == 1 {
        (x.0, v, x.2)
    } else {
        (x.0, x.1, v)
    }
}

/// Three numbers, from the largest to the smallest.
pub open spec fn sorted3(x: (int, int, int)) -> (int, int, int) {
    let (a, b) = sorted2((x.0, x.1));
    let (m, c) = sorted2((b, x.2));
    let (top, mid) = sorted2((a, m));
    (top, mid, c)
}

/// Sorting orders the numbers, keeps each of them, and does not depend on the order they come in.
pub proof fn law_sorted3(x: int, y: int, z: int)
    ensures
        ({
            let s = sorted3((x, y, z));
            s.0 >= s.1 >= s.2
        }),
        ({
            let s = sorted3((x, y, z));
            seq![s.0, s.1, s.2].to_multiset() =~= seq![x, y, z].to_multiset()
        }),
        sorted3((x, y, z)) == sorted3((y, x, z)),
        sorted3((x, y, z)) == sorted3((x, z, y)),
        sorted3((x, y, z)) == sorted3((z, y, x)),
{
    let s = sorted3((x, y, z));
    lemma_three(x, y, z);
    lemma_three(s.0, s.1, s.2);
}

/// The multiset of three numbers.
pub proof fn lemma_three(x: int, y: int, z: int)
    ensures
        seq![x, y, z].to_multiset() =~= Multiset::singleton(x).insert(y).insert(z),
{
    broadcast use vstd::seq_lib::group_to_multiset_ensures;

    assert(seq![x, y, z] =~= Seq::<int>::empty().push(x).push(y).push(z));
}

/// Three words, from the largest to the smallest.
pub fn sort3_desc(x: [U256; 3]) -> (r: [U256; 3])
    ensures
        triple(r) == sorted3(triple(x)),
{
    let (a, b) = if x[0] < x[1] {
        (x[1], x[0])
    } else {
        (x[0], x[1])
    };
    let (m, c) = if b < x[2] {
        (x[2], b)
    } else {
        (b, x[2])
    };
    if a < m {
        [m, a, c]
    } else {
        [a, m, c]
    }
}

/// The word of coin `i` out of two replaced.
pub fn put2(x: [U256; 2], i: usize, v: U256) -> (r: [U256; 2])
    requires
        i < 2,
    ensures
        pair(r) == set2(pair(x), i as int, v@),
{
    if i == 0 {
        [v, x[1]]
    } else {
        [x[0], v]
    }
}

/// The word of coin `i` out of three replaced.
pub fn put3(x: [U256; 3], i: usize, v: U256) -> (r: [U256; 3])
    requires
        i < 3,
    ensures
        triple(r) == set3(triple(x), i as int, v@),
{
    if i == 0 {
        [v, x[1], x[2]]
    } else if i == 1 {
        [x[0], v, x[2]]
    } else {
        [x[0], x[1], v]
    }
}

} // verus!
