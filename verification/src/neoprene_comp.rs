//! The comparison of two expressions: their intervals are computed with
//! growing effort until they no longer overlap, or the effort allowed is
//! used up.

use crate::bignat::{big_add, big_from_u64, big_lt, big_mul, nat_of};
use crate::byzantine::ByzNode;
use crate::expr::Expr;
use crate::neoprene::{eval, try_neoprene_byznode};
use crate::rational_range::{Interval, RationalRange};
use num_bigint::BigUint;
use std::cmp::Ordering;
use vstd::pervasive::unreached;
use vstd::prelude::*;

verus! {

/// Why a comparison gave no order.
#[derive(Clone, Copy, PartialEq, Eq, Structural, Debug)]
pub enum NeopreneCompError {
    /// The intervals still overlapped when the effort allowed was used up.
    FailedToConverge,
}

/// The effort of the first attempt.
pub const FIRST_ITERATIONS: u64 = 3;

/// The denominator of the first attempt.
pub const FIRST_LIMIT_DENOM: u64 = 6091;

/// The factor by which the denominator grows from one attempt to the next.
pub const LIMIT_DENOM_GROWTH: u64 = 3;

/// How two intervals lie to each other: `1` where all of `a` is above `b`,
/// `-1` where all of `a` is below `b`, `0` where they overlap.
pub open spec fn separation(a: Interval, b: Interval) -> int {
    if b.hi.lt(a.lo) {
        1
    } else if a.hi.lt(b.lo) {
        -1
    } else {
        0
    }
}

/// The outcome of comparing `a` with `b` from the effort `iter` and the
/// denominator `cap` on: the separation of the first pair of intervals that
/// do not overlap; `0` where they overlap up to and including the first
/// effort above `max_iter`; `None` where an expression has no interval at
/// an effort that is reached.
pub open spec fn compare_from(a: Expr, b: Expr, iter: nat, cap: nat, max_iter: nat) -> Option<int>
    decreases max_iter + 1 - iter,
{
    match (eval(a, iter, cap), eval(b, iter, cap)) {
        (Some(x), Some(y)) => {
            if separation(x, y) != 0 {
                Some(separation(x, y))
            } else if iter > max_iter {
                Some(0)
            } else {
                compare_from(a, b, iter + 1, cap * (LIMIT_DENOM_GROWTH as nat), max_iter)
            }
        },
        _ => None,
    }
}

/// The outcome of comparing `a` with `b` within the effort `max_iter`.
pub open spec fn compare(a: Expr, b: Expr, max_iter: nat) -> Option<int> {
    compare_from(a, b, FIRST_ITERATIONS as nat, FIRST_LIMIT_DENOM as nat, max_iter)
}

/// The denominator of the attempt with the effort `iter`: it starts at
/// `FIRST_LIMIT_DENOM` and grows by `LIMIT_DENOM_GROWTH` with every attempt,
/// so without bound.
pub open spec fn limit_denom_at(iter: nat) -> nat
    decreases iter,
{
    if iter <= FIRST_ITERATIONS {
        FIRST_LIMIT_DENOM as nat
    } else {
        limit_denom_at((iter - 1) as nat) * (LIMIT_DENOM_GROWTH as nat)
    }
}

/// A comparison finds an order as soon as the intervals are apart: where
/// both expressions have intervals at every effort up to `n`, and those at
/// the effort `n` do not overlap, a comparison that may reach the effort
/// `n` does not fail to converge.
pub proof fn lemma_compare_resolves(a: Expr, b: Expr, k: nat, n: nat, max_iter: nat)
    requires
        FIRST_ITERATIONS <= k <= n <= max_iter + 1,
        forall|i: nat|
            k <= i <= n ==> (#[trigger] eval(a, i, limit_denom_at(i))) is Some && eval(
                b,
                i,
                limit_denom_at(i),
            ) is Some,
        separation(eval(a, n, limit_denom_at(n))->0, eval(b, n, limit_denom_at(n))->0) != 0,
    ensures
        compare_from(a, b, k, limit_denom_at(k), max_iter) is Some,
        compare_from(a, b, k, limit_denom_at(k), max_iter)->0 != 0,
        k == FIRST_ITERATIONS ==> compare(a, b, max_iter) is Some && compare(a, b, max_iter)->0
            != 0,
    decreases n - k,
{
    assert(eval(a, k, limit_denom_at(k)) is Some);
    let x = eval(a, k, limit_denom_at(k))->0;
    let y = eval(b, k, limit_denom_at(k))->0;
    if separation(x, y) == 0 {
        assert(k < n);
        lemma_compare_resolves(a, b, k + 1, n, max_iter);
    }
}

/// How two ranges lie to each other, as a sign.
pub fn separate(a: &RationalRange, b: &RationalRange) -> (r: i8)
    requires
        a.wf(),
        b.wf(),
    ensures
        r == separation(a@, b@),
{
    if b.max.lt(&a.min) {
        1
    } else if a.max.lt(&b.min) {
        -1
    } else {
        0
    }
}

/// The outcome of the comparison as a sign, or `None` where an expression
/// has no interval at an effort that is reached.
pub fn compare_signs(a: &ByzNode, b: &ByzNode, max_iterations: &BigUint) -> (r: Option<i8>)
    requires
        a.wf(),
        b.wf(),
    ensures
        match r {
            Some(s) => compare(a@, b@, nat_of(*max_iterations)) == Some(s as int),
            None => compare(a@, b@, nat_of(*max_iterations)) is None,
        },
{
    let mut current_iterations = big_from_u64(FIRST_ITERATIONS);
    let mut current_limit_denom = big_from_u64(FIRST_LIMIT_DENOM);
    let one = big_from_u64(1);
    let growth = big_from_u64(LIMIT_DENOM_GROWTH);
    loop
        invariant
            a.wf(),
            b.wf(),
            nat_of(one) == 1,
            nat_of(growth) == 3,
            compare(a@, b@, nat_of(*max_iterations)) == compare_from(
                a@,
                b@,
                nat_of(current_iterations),
                nat_of(current_limit_denom),
                nat_of(*max_iterations),
            ),
        decreases nat_of(*max_iterations) + 1 - nat_of(current_iterations),
    {
        let a_range = try_neoprene_byznode(a, &current_iterations, &current_limit_denom);
        let b_range = try_neoprene_byznode(b, &current_iterations, &current_limit_denom);
        match (a_range, b_range) {
            (Some(x), Some(y)) => {
                let s = separate(&x, &y);
                if s != 0 {
                    return Some(s);
                }
                if big_lt(max_iterations, &current_iterations) {
                    return Some(0);
                }
                current_iterations = big_add(&current_iterations, &one);
                current_limit_denom = big_mul(&current_limit_denom, &growth);
            },
            _ => {
                return None;
            },
        }
    }
}

/// The comparison of `a` with `b`, or `None` where an expression has no
/// interval at an effort that is reached. `Ok(Equal)` is never returned:
/// expressions of equal value fail to converge.
pub fn try_neoprene_comp(a: &ByzNode, b: &ByzNode, max_iterations: &BigUint) -> (r: Option<
    Result<Ordering, NeopreneCompError>,
>)
    requires
        a.wf(),
        b.wf(),
    ensures
        match compare(a@, b@, nat_of(*max_iterations)) {
            Some(s) => r == Some(comparison_result(s)),
            None => r is None,
        },
{
    match compare_signs(a, b, max_iterations) {
        Some(s) => {
            if s > 0 {
                Some(Ok(Ordering::Greater))
            } else if s < 0 {
                Some(Ok(Ordering::Less))
            } else {
                Some(Err(NeopreneCompError::FailedToConverge))
            }
        },
        None => None,
    }
}

/// The result that stands for a separation: `Greater` for a positive one,
/// `Less` for a negative one, a failure to converge for none.
pub open spec fn comparison_result(s: int) -> Result<Ordering, NeopreneCompError> {
    if s > 0 {
        Ok(Ordering::Greater)
    } else if s < 0 {
        Ok(Ordering::Less)
    } else {
        Err(NeopreneCompError::FailedToConverge)
    }
}

/// The comparison of two expressions that have intervals at every effort
/// that is reached: `Ok(Less)` or `Ok(Greater)` once their intervals no
/// longer overlap, `Err(FailedToConverge)` where they still overlap at the
/// first effort above `max_iterations`.
pub fn neoprene_comp(a: &ByzNode, b: &ByzNode, max_iterations: &BigUint) -> (r: Result<
    Ordering,
    NeopreneCompError,
>)
    requires
        a.wf(),
        b.wf(),
        compare(a@, b@, nat_of(*max_iterations)) is Some,
    ensures
        r == comparison_result(compare(a@, b@, nat_of(*max_iterations))->0),
        r != Ok::<Ordering, NeopreneCompError>(Ordering::Equal),
{
    match try_neoprene_comp(a, b, max_iterations) {
        Some(r) => r,
        None => unreached(),
    }
}

} // verus!
