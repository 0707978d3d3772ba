//! The builders of canonical expression trees. Every node comes out of one
//! of these functions in canonical form, so that equal notations give equal
//! trees.

use crate::byzantine::{ByzNode, TransitiveConsts};
use crate::byznode_sorted_vec::{vec_wf, ByzNodeCoefficientAddVec, ByzNodePowerMulVec, ByzNodeVec};
use crate::expr::{lemma_canonical_parts, Expr};
use crate::fraction::{
    lemma_from_int_reduced, lemma_from_int_value, lemma_value_add, lemma_value_mul,
    lemma_value_unique, Fraction,
};
use crate::normal_form::{
    build_pow, build_prod, build_sum, lemma_build_pow_canonical, lemma_prod_collect_canonical,
    lemma_sum_collect_canonical, prod_collect, sum_collect,
};
use crate::rational::Rational;
use std::rc::Rc;
use vstd::prelude::*;

verus! {

/// The weight of a contribution: one where none is given.
pub open spec fn weight_view(w: Option<Rational>) -> Fraction {
    match w {
        Some(r) => r@,
        None => Fraction::from_int(1),
    }
}

/// The model of a list of contributions.
pub open spec fn contributions_view(v: Seq<(Option<Rational>, ByzNode)>) -> Seq<(Fraction, Expr)> {
    Seq::new(v.len(), |i: int| (weight_view(v[i].0), v[i].1@))
}

/// Every weight is in lowest terms and every node canonical.
pub open spec fn contributions_wf(v: Seq<(Option<Rational>, ByzNode)>) -> bool {
    forall|i: int|
        0 <= i < v.len() ==> weight_view((#[trigger] v[i]).0).reduced() && v[i].1@.canonical()
}

/// The node for a rational number.
pub fn rational(rat: Rational) -> (r: ByzNode)
    requires
        rat.wf(),
    ensures
        r@ == Expr::Rat(rat@.reduce()),
        r.wf(),
{
    let mut q = rat;
    q.simplify();
    ByzNode::Rational { rational: q }
}

/// The node for one of the named constants.
pub fn transitive(transitive_const: TransitiveConsts) -> (r: ByzNode)
    ensures
        r@ == Expr::Const(transitive_const),
        r.wf(),
{
    ByzNode::TransitiveConst { transitive_const }
}

/// The canonical node for `a ^ b`.
pub fn pow(a: ByzNode, b: Rational) -> (r: ByzNode)
    requires
        a.wf(),
        b@.reduced(),
    ensures
        r@ == build_pow(a@, b@),
        r.wf(),
{
    proof {
        lemma_build_pow_canonical(a@, b@);
        lemma_canonical_parts(a@);
        lemma_from_int_reduced(1);
    }
    if b.is_zero() {
        return ByzNode::Rational { rational: Rational::one() };
    }
    let one = Rational::one();
    if b.eq(&one) {
        proof {
            crate::fraction::lemma_reduced_unique(b@, one@);
        }
        return a;
    }
    proof {
        if b@ == Fraction::from_int(1) {
            assert(b@.eqv(one@));
        }
    }
    match a {
        ByzNode::Pow { base, exp } => {
            if exp.is_int_assume_simplified() && b.is_int_assume_simplified() {
                let mut product = exp;
                product.mul_assign(&b);
                proof {
                    lemma_value_mul(exp@, b@);
                    if product@.eqv(one@) {
                        crate::fraction::lemma_reduced_unique(product@, one@);
                    }
                }
                if product.eq(&one) {
                    let inner: &ByzNode = &base;
                    inner.clone()
                } else {
                    ByzNode::Pow { base, exp: product }
                }
            } else {
                ByzNode::Pow { base: Rc::new(ByzNode::Pow { base, exp }), exp: b }
            }
        },
        other => ByzNode::Pow { base: Rc::new(other), exp: b },
    }
}

/// The canonical node for `rat + sum of weight * node`, a missing weight
/// counting as one.
pub fn add(rat: Rational, vec: Vec<(Option<Rational>, ByzNode)>) -> (r: ByzNode)
    requires
        rat@.reduced(),
        contributions_wf(vec@),
    ensures
        r@ == build_sum(rat@, contributions_view(vec@)),
        r.wf(),
{
    let ghost items = vec@;
    let ghost all = contributions_view(items);
    let mut c = ByzNodeCoefficientAddVec::new();
    proof {
        lemma_from_int_reduced(0);
        lemma_value_add(Fraction::from_int(0), rat@);
        lemma_from_int_value(0);
        lemma_value_unique(Fraction::from_int(0).add(rat@), rat@);
    }
    c.insert_rational(rat);
    let n = vec.len();
    let mut rest = vec;
    let mut k: usize = 0;
    while k < n
        invariant
            0 <= k <= n,
            n == items.len(),
            all == contributions_view(items),
            contributions_wf(items),
            rest@ == items.subrange(k as int, n as int),
            vec_wf(&c),
            rat@.reduced(),
            c.combination() == sum_collect(rat@, all, k as nat),
        decreases n - k,
    {
        let (weight, node) = rest.remove(0);
        proof {
            assert(rest@ =~= items.subrange(k + 1, n as int));
            assert((weight, node) == items[k as int]);
            lemma_from_int_reduced(1);
        }
        let w = match weight {
            Some(w) => w,
            None => Rational::one(),
        };
        c.insert((w, node));
        k = k + 1;
    }
    proof {
        lemma_sum_collect_canonical(rat@, all, n as nat);
    }
    if c.vec.len() == 0 {
        ByzNode::Rational { rational: c.rational_part }
    } else {
        ByzNode::Add { addends: c }
    }
}

/// The canonical node for `rat * product of node ^ weight`, a missing
/// rational or weight counting as one.
pub fn mul(rat: Option<Rational>, vec: Vec<(Option<Rational>, ByzNode)>) -> (r: ByzNode)
    requires
        weight_view(rat).reduced(),
        contributions_wf(vec@),
    ensures
        r@ == build_prod(weight_view(rat), contributions_view(vec@)),
        r.wf(),
{
    let ghost items = vec@;
    let ghost all = contributions_view(items);
    let ghost tail = weight_view(rat);
    let mut c = ByzNodePowerMulVec::new();
    proof {
        lemma_from_int_reduced(1);
        lemma_value_mul(Fraction::from_int(1), tail);
        lemma_from_int_value(1);
        let x = tail.value();
        assert(1real * x == x) by (nonlinear_arith);
        lemma_value_unique(Fraction::from_int(1).mul(tail), tail);
    }
    match rat {
        Some(q) => {
            c.insert_rational(q);
        },
        None => {},
    }
    let n = vec.len();
    let mut rest = vec;
    let mut k: usize = 0;
    while k < n
        invariant
            0 <= k <= n,
            n == items.len(),
            all == contributions_view(items),
            contributions_wf(items),
            rest@ == items.subrange(k as int, n as int),
            vec_wf(&c),
            tail.reduced(),
            c.combination() == prod_collect(tail, all, k as nat),
        decreases n - k,
    {
        let (weight, node) = rest.remove(0);
        proof {
            assert(rest@ =~= items.subrange(k + 1, n as int));
            assert((weight, node) == items[k as int]);
            lemma_from_int_reduced(1);
        }
        let w = match weight {
            Some(w) => w,
            None => Rational::one(),
        };
        c.insert((w, node));
        k = k + 1;
    }
    proof {
        lemma_prod_collect_canonical(tail, all, n as nat);
    }
    if c.vec.len() == 0 {
        ByzNode::Rational { rational: c.rational_part }
    } else {
        ByzNode::Mul { products: c }
    }
}

} // verus!
