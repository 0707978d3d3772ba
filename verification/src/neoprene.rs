//! The evaluator: an interval with rational endpoints for every expression,
//! computed from the intervals of its parts.

use crate::bignat::{big_is_zero, biguint_to_u32, nat_of};
use crate::byzantine::{node_view, terms_view, ByzNode, TransitiveConsts};
use crate::byznode_sorted_vec::{vec_wf, ByzNodeCoefficientAddVec, ByzNodePowerMulVec};
use crate::expr::{lemma_canonical_parts, terms_comparable, Expr};
use crate::fraction::{lemma_value_order, Fraction};
use crate::neoprene_taylor::{
    compute_euler, compute_pi, euler_interval, interval_pow, pi_interval, pow_defined,
    pow_is_defined, rational_range_pow,
};
use crate::rational::Rational;
use crate::rational_range::{Interval, RationalRange};
use num_bigint::BigUint;
use std::rc::Rc;
use vstd::pervasive::unreached;
use vstd::prelude::*;

verus! {

/// The effort and the denominator can be worked with: the effort leaves
/// room for the two extra terms of the series for e, and the denominator is
/// not zero.
pub open spec fn params_valid(iter: nat, cap: nat) -> bool {
    iter + 2 <= u32::MAX && cap > 0
}

/// The interval of a named constant.
pub open spec fn eval_const(c: TransitiveConsts, iter: nat, cap: nat) -> Interval {
    match c {
        TransitiveConsts::Pi => pi_interval(iter, cap),
        TransitiveConsts::Euler => euler_interval(iter, cap),
    }
}

/// The interval of an expression for the effort `iter`, every step widened
/// to endpoints with the denominator `cap`; `None` where a power in the
/// expression is not defined on the interval of its base, or the effort or
/// the denominator cannot be worked with.
pub open spec fn eval(e: Expr, iter: nat, cap: nat) -> Option<Interval>
    decreases e, 0int,
{
    if !params_valid(iter, cap) {
        None
    } else {
        match e {
            Expr::Rat(q) => Some(Interval::point(q)),
            Expr::Const(c) => Some(eval_const(c, iter, cap)),
            Expr::Sum(r, terms) => eval_widen(
                eval_sum(terms, 0, Interval::point(r), iter, cap),
                cap,
            ),
            Expr::Prod(r, terms) => eval_widen(
                eval_prod(terms, 0, Interval::point(r), iter, cap),
                cap,
            ),
            Expr::Pow(base, x) => eval_widen(eval_pow(eval(*base, iter, cap), x, iter, cap), cap),
        }
    }
}

/// An interval, if there is one, widened to the denominator `cap`.
pub open spec fn eval_widen(i: Option<Interval>, cap: nat) -> Option<Interval> {
    match i {
        Some(v) => Some(v.coarsen(cap as int)),
        None => None,
    }
}

/// The interval of `base ^ x`, where it is defined.
pub open spec fn eval_pow(base: Option<Interval>, x: Fraction, iter: nat, cap: nat) -> Option<
    Interval,
> {
    match base {
        Some(b) => if pow_defined(b, x) {
            Some(interval_pow(b, x, iter, cap as int))
        } else {
            None
        },
        None => None,
    }
}

/// The interval `acc` plus the intervals of the terms from position `i` on,
/// each multiplied by its coefficient.
pub open spec fn eval_sum(
    terms: Seq<(Fraction, Expr)>,
    i: nat,
    acc: Interval,
    iter: nat,
    cap: nat,
) -> Option<Interval>
    decreases terms, terms.len() - i,
{
    if i >= terms.len() {
        Some(acc)
    } else {
        match eval(terms[i as int].1, iter, cap) {
            Some(v) => eval_sum(terms, i + 1, acc.add(v.scale(terms[i as int].0)), iter, cap),
            None => None,
        }
    }
}

/// The interval `acc` times the intervals of the terms from position `i` on,
/// each raised to its exponent.
pub open spec fn eval_prod(
    terms: Seq<(Fraction, Expr)>,
    i: nat,
    acc: Interval,
    iter: nat,
    cap: nat,
) -> Option<Interval>
    decreases terms, terms.len() - i,
{
    if i >= terms.len() {
        Some(acc)
    } else {
        match eval_pow(eval(terms[i as int].1, iter, cap), terms[i as int].0, iter, cap) {
            Some(v) => eval_prod(terms, i + 1, acc.mul(v), iter, cap),
            None => None,
        }
    }
}

/// What an attempt to evaluate returns: the interval of the model, well
/// formed, or nothing where the model has none.
pub open spec fn matches_model(r: Option<RationalRange>, model: Option<Interval>) -> bool {
    match r {
        Some(x) => model == Some(x@) && x.wf(),
        None => model is None,
    }
}

/// Whether the effort and the denominator can be worked with.
pub fn params_are_valid(approximation_iterations: &BigUint, limit_denom: &BigUint) -> (r: bool)
    ensures
        r == params_valid(nat_of(*approximation_iterations), nat_of(*limit_denom)),
{
    if big_is_zero(limit_denom) {
        return false;
    }
    match biguint_to_u32(approximation_iterations) {
        Some(i) => i <= u32::MAX - 2,
        None => false,
    }
}

/// The interval of a named constant.
pub fn neoprene_transitive(
    transitive_const: TransitiveConsts,
    approximation_iterations: &BigUint,
    limit_denom: &BigUint,
) -> (r: RationalRange)
    requires
        params_valid(nat_of(*approximation_iterations), nat_of(*limit_denom)),
    ensures
        r@ == eval_const(
            transitive_const,
            nat_of(*approximation_iterations),
            nat_of(*limit_denom),
        ),
        r.wf(),
{
    match transitive_const {
        TransitiveConsts::Pi => compute_pi(approximation_iterations, limit_denom),
        TransitiveConsts::Euler => compute_euler(approximation_iterations, limit_denom),
    }
}

/// An interval widened to the denominator `limit_denom`, if there is one.
fn widened(range: Option<RationalRange>, limit_denom: &BigUint) -> (r: Option<RationalRange>)
    requires
        nat_of(*limit_denom) > 0,
        range matches Some(x) ==> x.wf(),
    ensures
        match range {
            Some(x) => r matches Some(y) && y@ == x@.coarsen(nat_of(*limit_denom) as int)
                && y.wf(),
            None => r is None,
        },
{
    match range {
        Some(x) => {
            let mut y = x;
            y.to_with_denominator(limit_denom);
            Some(y)
        },
        None => None,
    }
}

/// The interval of a node, or `None` where the node has none for this
/// effort and denominator.
pub fn try_neoprene_byznode(
    byznode: &ByzNode,
    approximation_iterations: &BigUint,
    limit_denom: &BigUint,
) -> (r: Option<RationalRange>)
    requires
        byznode.wf(),
    ensures
        matches_model(
            r,
            eval(byznode@, nat_of(*approximation_iterations), nat_of(*limit_denom)),
        ),
    decreases byznode, 0int,
{
    if !params_are_valid(approximation_iterations, limit_denom) {
        return None;
    }
    proof {
        lemma_canonical_parts(byznode@);
    }
    match byznode {
        ByzNode::Rational { rational } => {
            proof {
                lemma_value_order(rational@, rational@);
            }
            Some(RationalRange::from((rational.clone(), rational.clone())))
        },
        ByzNode::TransitiveConst { transitive_const } => Some(
            neoprene_transitive(*transitive_const, approximation_iterations, limit_denom),
        ),
        ByzNode::Add { addends } => try_neoprene_add(
            addends,
            approximation_iterations,
            limit_denom,
        ),
        ByzNode::Mul { products } => try_neoprene_mul(
            products,
            approximation_iterations,
            limit_denom,
        ),
        ByzNode::Pow { base, exp } => try_neoprene_pow(
            base,
            exp,
            approximation_iterations,
            limit_denom,
        ),
    }
}

/// The interval of a sum, or `None` where one of its terms has none.
pub fn try_neoprene_add(
    addends: &ByzNodeCoefficientAddVec,
    approximation_iterations: &BigUint,
    limit_denom: &BigUint,
) -> (r: Option<RationalRange>)
    requires
        vec_wf(addends),
        params_valid(nat_of(*approximation_iterations), nat_of(*limit_denom)),
    ensures
        matches_model(
            r,
            eval_widen(
                eval_sum(
                    terms_view(addends.vec@),
                    0,
                    Interval::point(addends.rational_part@),
                    nat_of(*approximation_iterations),
                    nat_of(*limit_denom),
                ),
                nat_of(*limit_denom),
            ),
        ),
    decreases addends, 0int,
{
    proof {
        lemma_value_order(addends.rational_part@, addends.rational_part@);
    }
    let start = RationalRange::from((addends.rational_part.clone(), addends.rational_part.clone()));
    let sum = sum_terms(&addends.vec, 0, start, approximation_iterations, limit_denom);
    widened(sum, limit_denom)
}

/// The interval `acc` plus the intervals of the terms from position `i` on.
fn sum_terms(
    terms: &Vec<(Rational, Rc<ByzNode>)>,
    i: usize,
    acc: RationalRange,
    approximation_iterations: &BigUint,
    limit_denom: &BigUint,
) -> (r: Option<RationalRange>)
    requires
        terms_comparable(terms_view(terms@)),
        acc.wf(),
        params_valid(nat_of(*approximation_iterations), nat_of(*limit_denom)),
    ensures
        matches_model(
            r,
            eval_sum(
                terms_view(terms@),
                i as nat,
                acc@,
                nat_of(*approximation_iterations),
                nat_of(*limit_denom),
            ),
        ),
    decreases terms, terms.len() - i,
{
    if i >= terms.len() {
        return Some(acc);
    }
    proof {
        let k = i as int;
        assert(terms_view(terms@)[k] == (terms@[k].0@, node_view(*terms@[k].1)));
    }
    match try_neoprene_byznode(&terms[i].1, approximation_iterations, limit_denom) {
        Some(value) => {
            let mut scaled = value;
            scaled.scale(&terms[i].0);
            let mut total = acc;
            total.add_assign(&scaled);
            sum_terms(terms, i + 1, total, approximation_iterations, limit_denom)
        },
        None => None,
    }
}

/// The interval of a product, or `None` where one of its factors has none.
pub fn try_neoprene_mul(
    products: &ByzNodePowerMulVec,
    approximation_iterations: &BigUint,
    limit_denom: &BigUint,
) -> (r: Option<RationalRange>)
    requires
        vec_wf(products),
        params_valid(nat_of(*approximation_iterations), nat_of(*limit_denom)),
    ensures
        matches_model(
            r,
            eval_widen(
                eval_prod(
                    terms_view(products.vec@),
                    0,
                    Interval::point(products.rational_part@),
                    nat_of(*approximation_iterations),
                    nat_of(*limit_denom),
                ),
                nat_of(*limit_denom),
            ),
        ),
    decreases products, 0int,
{
    proof {
        lemma_value_order(products.rational_part@, products.rational_part@);
    }
    let start = RationalRange::from(
        (products.rational_part.clone(), products.rational_part.clone()),
    );
    let product = product_terms(&products.vec, 0, start, approximation_iterations, limit_denom);
    widened(product, limit_denom)
}

/// The interval `acc` times the intervals of the factors from position `i`
/// on.
fn product_terms(
    terms: &Vec<(Rational, Rc<ByzNode>)>,
    i: usize,
    acc: RationalRange,
    approximation_iterations: &BigUint,
    limit_denom: &BigUint,
) -> (r: Option<RationalRange>)
    requires
        terms_comparable(terms_view(terms@)),
        acc.wf(),
        params_valid(nat_of(*approximation_iterations), nat_of(*limit_denom)),
    ensures
        matches_model(
            r,
            eval_prod(
                terms_view(terms@),
                i as nat,
                acc@,
                nat_of(*approximation_iterations),
                nat_of(*limit_denom),
            ),
        ),
    decreases terms, terms.len() - i,
{
    if i >= terms.len() {
        return Some(acc);
    }
    proof {
        let k = i as int;
        assert(terms_view(terms@)[k] == (terms@[k].0@, node_view(*terms@[k].1)));
    }
    let value = try_neoprene_byznode(&terms[i].1, approximation_iterations, limit_denom);
    match raised(value, &terms[i].0, approximation_iterations, limit_denom) {
        Some(factor) => {
            let mut total = acc;
            total.mul_assign(&factor);
            product_terms(terms, i + 1, total, approximation_iterations, limit_denom)
        },
        None => None,
    }
}

/// An interval raised to the exponent `exp`, where that is defined.
fn raised(
    base: Option<RationalRange>,
    exp: &Rational,
    approximation_iterations: &BigUint,
    limit_denom: &BigUint,
) -> (r: Option<RationalRange>)
    requires
        base matches Some(b) ==> b.wf(),
        exp.wf(),
        params_valid(nat_of(*approximation_iterations), nat_of(*limit_denom)),
    ensures
        matches_model(
            r,
            eval_pow(
                match base {
                    Some(b) => Some(b@),
                    None => None,
                },
                exp@,
                nat_of(*approximation_iterations),
                nat_of(*limit_denom),
            ),
        ),
{
    match base {
        Some(b) => {
            if pow_is_defined(&b, exp) {
                Some(rational_range_pow(&b, exp, approximation_iterations, limit_denom))
            } else {
                None
            }
        },
        None => None,
    }
}

/// The interval of `byznode ^ exp`, or `None` where the base has none or the
/// power is not defined on it.
pub fn try_neoprene_pow(
    byznode: &ByzNode,
    exp: &Rational,
    approximation_iterations: &BigUint,
    limit_denom: &BigUint,
) -> (r: Option<RationalRange>)
    requires
        byznode.wf(),
        exp.wf(),
        params_valid(nat_of(*approximation_iterations), nat_of(*limit_denom)),
    ensures
        matches_model(
            r,
            eval_widen(
                eval_pow(
                    eval(byznode@, nat_of(*approximation_iterations), nat_of(*limit_denom)),
                    exp@,
                    nat_of(*approximation_iterations),
                    nat_of(*limit_denom),
                ),
                nat_of(*limit_denom),
            ),
        ),
    decreases byznode, 1int,
{
    let base = try_neoprene_byznode(byznode, approximation_iterations, limit_denom);
    let power = raised(base, exp, approximation_iterations, limit_denom);
    widened(power, limit_denom)
}

/// The interval of a node that has one.
pub fn neoprene_byznode(
    byznode: &ByzNode,
    approximation_iterations: &BigUint,
    limit_denom: &BigUint,
) -> (r: RationalRange)
    requires
        byznode.wf(),
        eval(byznode@, nat_of(*approximation_iterations), nat_of(*limit_denom)) is Some,
    ensures
        Some(r@) == eval(byznode@, nat_of(*approximation_iterations), nat_of(*limit_denom)),
        r.wf(),
{
    match try_neoprene_byznode(byznode, approximation_iterations, limit_denom) {
        Some(r) => r,
        None => unreached(),
    }
}

/// The interval of a sum all of whose terms have one.
pub fn neoprene_add(
    addends: &ByzNodeCoefficientAddVec,
    approximation_iterations: &BigUint,
    limit_denom: &BigUint,
) -> (r: RationalRange)
    requires
        vec_wf(addends),
        params_valid(nat_of(*approximation_iterations), nat_of(*limit_denom)),
        eval_sum(
            terms_view(addends.vec@),
            0,
            Interval::point(addends.rational_part@),
            nat_of(*approximation_iterations),
            nat_of(*limit_denom),
        ) is Some,
    ensures
        Some(r@) == eval_widen(
            eval_sum(
                terms_view(addends.vec@),
                0,
                Interval::point(addends.rational_part@),
                nat_of(*approximation_iterations),
                nat_of(*limit_denom),
            ),
            nat_of(*limit_denom),
        ),
        r.wf(),
{
    match try_neoprene_add(addends, approximation_iterations, limit_denom) {
        Some(r) => r,
        None => unreached(),
    }
}

/// The interval of a product all of whose factors have one.
pub fn neoprene_mul(
    products: &ByzNodePowerMulVec,
    approximation_iterations: &BigUint,
    limit_denom: &BigUint,
) -> (r: RationalRange)
    requires
        vec_wf(products),
        params_valid(nat_of(*approximation_iterations), nat_of(*limit_denom)),
        eval_prod(
            terms_view(products.vec@),
            0,
            Interval::point(products.rational_part@),
            nat_of(*approximation_iterations),
            nat_of(*limit_denom),
        ) is Some,
    ensures
        Some(r@) == eval_widen(
            eval_prod(
                terms_view(products.vec@),
                0,
                Interval::point(products.rational_part@),
                nat_of(*approximation_iterations),
                nat_of(*limit_denom),
            ),
            nat_of(*limit_denom),
        ),
        r.wf(),
{
    match try_neoprene_mul(products, approximation_iterations, limit_denom) {
        Some(r) => r,
        None => unreached(),
    }
}

/// The interval of `byznode ^ exp` where the base has an interval on which
/// the power is defined.
pub fn neoprene_pow(
    byznode: &ByzNode,
    exp: &Rational,
    approximation_iterations: &BigUint,
    limit_denom: &BigUint,
) -> (r: RationalRange)
    requires
        byznode.wf(),
        exp.wf(),
        params_valid(nat_of(*approximation_iterations), nat_of(*limit_denom)),
        eval_pow(
            eval(byznode@, nat_of(*approximation_iterations), nat_of(*limit_denom)),
            exp@,
            nat_of(*approximation_iterations),
            nat_of(*limit_denom),
        ) is Some,
    ensures
        Some(r@) == eval_widen(
            eval_pow(
                eval(byznode@, nat_of(*approximation_iterations), nat_of(*limit_denom)),
                exp@,
                nat_of(*approximation_iterations),
                nat_of(*limit_denom),
            ),
            nat_of(*limit_denom),
        ),
        r.wf(),
{
    match try_neoprene_pow(byznode, exp, approximation_iterations, limit_denom) {
        Some(r) => r,
        None => unreached(),
    }
}

} // verus!
