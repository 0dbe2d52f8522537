//! Tables of distances, measured by a function of the caller's.

use vstd::prelude::*;

use crate::ieee::Real32;

verus! {

/// `row` holds the distances of `value` from the values of `to`.
pub open spec fn is_row<C: Fn(Real32, Real32) -> Real32>(between: C, value: Real32, to: Seq<Real32>, row: Seq<Real32>) -> bool {
    &&& row.len() == to.len()
    &&& forall|j: int| 0 <= j < to.len() ==> call_ensures(between, (value, to[j]), #[trigger] row[j])
}

/// `table` holds the distances of every value of `from` from every value of `to`, row by
/// row.
pub open spec fn is_table<C: Fn(Real32, Real32) -> Real32>(
    between: C,
    from: Seq<Real32>,
    to: Seq<Real32>,
    table: Seq<Vec<Real32>>,
) -> bool {
    &&& table.len() == from.len()
    &&& forall|i: int| 0 <= i < from.len() ==> is_row(between, from[i], to, (#[trigger] table[i])@)
}

/// The distances of a value from some others.
pub fn row<C: Fn(Real32, Real32) -> Real32>(between: &C, value: Real32, to: &Vec<Real32>) -> (r: Vec<Real32>)
    requires
        forall|a: Real32, b: Real32| call_requires(*between, (a, b)),
    ensures
        is_row(*between, value, to@, r@),
{
    let mut r: Vec<Real32> = Vec::new();
    let mut j: usize = 0;
    while j < to.len()
        invariant
            j <= to.len(),
            r.len() == j,
            forall|a: Real32, b: Real32| call_requires(*between, (a, b)),
            forall|k: int| 0 <= k < j ==> call_ensures(*between, (value, to[k]), #[trigger] r[k]),
        decreases to.len() - j,
    {
        let c: Real32 = between(value, to[j]);
        r.push(c);
        j = j + 1;
    }
    r
}

/// The distances of some values from some others.
pub fn table<C: Fn(Real32, Real32) -> Real32>(between: &C, from: &Vec<Real32>, to: &Vec<Real32>) -> (t: Vec<Vec<Real32>>)
    requires
        forall|a: Real32, b: Real32| call_requires(*between, (a, b)),
    ensures
        is_table(*between, from@, to@, t@),
{
    let mut t: Vec<Vec<Real32>> = Vec::new();
    let mut i: usize = 0;
    while i < from.len()
        invariant
            i <= from.len(),
            t.len() == i,
            forall|a: Real32, b: Real32| call_requires(*between, (a, b)),
            forall|k: int| 0 <= k < i ==> is_row(*between, from[k], to@, (#[trigger] t[k])@),
        decreases from.len() - i,
    {
        t.push(row(between, from[i], to));
        i = i + 1;
    }
    t
}

} // verus!
