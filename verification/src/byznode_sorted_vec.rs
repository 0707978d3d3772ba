//! The sorted lists of weighted terms that sums and products are made of,
//! and the merging of contributions into them.

use crate::bignat::{biguint_to_u32, nat_of};
use crate::byzantine::{
    node_order, node_view, ordering_from_sign, ordering_sign, terms_order, terms_view, ByzNode,
};
use crate::expr::{
    lemma_canonical_parts, lemma_order_antisymmetric, lemma_order_reflexive,
    lemma_order_transitive, lemma_order_zero, terms_canonical, terms_order_from, Expr,
};
use crate::fraction::{lemma_from_int_reduced, lemma_value_add, lemma_value_mul, Fraction};
use crate::normal_form::{
    can_fold_power, insert_scaled, insert_term, integer_power, lemma_count_below,
    lemma_insert_scaled_canonical, lemma_insert_term_canonical, lemma_integer_power_reduced,
    lemma_prod_absorb_canonical, lemma_sum_absorb_canonical, prod_absorb, sum_absorb, Combination,
};
use crate::rational::{Rational, Sign};
use std::cmp::Ordering;
use std::rc::Rc;
use vstd::prelude::*;

verus! {

/// The model of a term list with one more term at position `i`.
pub proof fn lemma_terms_view_insert(
    v: Seq<(Rational, Rc<ByzNode>)>,
    i: int,
    x: (Rational, Rc<ByzNode>),
)
    requires
        0 <= i <= v.len(),
    ensures
        terms_view(v.insert(i, x)) == terms_view(v).insert(i, (x.0@, node_view(*x.1))),
{
    assert(terms_view(v.insert(i, x)) =~= terms_view(v).insert(i, (x.0@, node_view(*x.1))));
}

/// The model of a term list without the term at position `i`.
pub proof fn lemma_terms_view_remove(v: Seq<(Rational, Rc<ByzNode>)>, i: int)
    requires
        0 <= i < v.len(),
    ensures
        terms_view(v.remove(i)) == terms_view(v).remove(i),
{
    assert(terms_view(v.remove(i)) =~= terms_view(v).remove(i));
}

/// Merges the contribution of `node` with the weight `weight` into a sorted
/// term list: a binary search finds the place of the node; where the node is
/// present the weights are added and the term leaves when they cancel.
pub(crate) fn insert_sorted(
    vec: &mut Vec<(Rational, Rc<ByzNode>)>,
    weight: Rational,
    node: Rc<ByzNode>,
    Ghost(of_sum): Ghost<bool>,
)
    requires
        terms_canonical(terms_view(old(vec)@), of_sum),
        weight@.reduced(),
        node@.canonical(),
        if of_sum {
            node@.is_sum_term()
        } else {
            node@.is_prod_term()
        },
    ensures
        terms_view(final(vec)@) == insert_term(terms_view(old(vec)@), weight@, node@),
        terms_canonical(terms_view(final(vec)@), of_sum),
{
    let ghost terms = terms_view(vec@);
    let ghost t = node@;
    proof {
        lemma_insert_term_canonical(terms, weight@, t, of_sum);
    }
    if weight.is_zero() {
        return ;
    }
    let mut lo: usize = 0;
    let mut hi: usize = vec.len();
    let mut found: Option<usize> = None;
    while lo < hi && found.is_none()
        invariant
            0 <= lo <= hi <= vec.len(),
            terms == terms_view(vec@),
            terms_canonical(terms, of_sum),
            t == node@,
            t.canonical(),
            forall|i: int| 0 <= i < lo ==> (#[trigger] terms[i]).1.order(t) < 0,
            forall|i: int| hi <= i < terms.len() ==> (#[trigger] terms[i]).1.order(t) > 0,
            found matches Some(m) ==> m < vec.len() && terms[m as int].1 == t,
        decreases (hi - lo) + (if found.is_none() { 1int } else { 0int }),
    {
        let mid = lo + (hi - lo) / 2;
        proof {
            assert(terms[mid as int] == (vec@[mid as int].0@, node_view(*vec@[mid as int].1)));
        }
        let o = node_order(&vec[mid].1, &node);
        if o < 0 {
            proof {
                assert forall|i: int| 0 <= i < mid + 1 implies (#[trigger] terms[i]).1.order(t)
                    < 0 by {
                    if i < mid {
                        lemma_order_transitive(terms[i].1, terms[mid as int].1, t);
                    }
                }
            }
            lo = mid + 1;
        } else if o > 0 {
            proof {
                assert forall|i: int| mid <= i < terms.len() implies (#[trigger] terms[i]).1.order(
                    t,
                ) > 0 by {
                    if i > mid {
                        lemma_order_antisymmetric(terms[i].1, t);
                        lemma_order_antisymmetric(terms[mid as int].1, t);
                        lemma_order_antisymmetric(terms[mid as int].1, terms[i].1);
                        lemma_order_transitive(t, terms[mid as int].1, terms[i].1);
                    }
                }
            }
            hi = mid;
        } else {
            proof {
                lemma_order_zero(terms[mid as int].1, t);
            }
            found = Some(mid);
        }
    }
    match found {
        Some(m) => {
            proof {
                assert forall|i: int| 0 <= i < m implies (#[trigger] terms[i]).1.order(t) < 0 by {
                    assert(terms[i].1.order(terms[m as int].1) < 0);
                }
                assert forall|i: int| m <= i < terms.len() implies (#[trigger] terms[i]).1.order(
                    t,
                ) >= 0 by {
                    if i == m {
                        lemma_order_reflexive(t);
                    } else {
                        assert(terms[m as int].1.order(terms[i].1) < 0);
                        lemma_order_antisymmetric(terms[m as int].1, terms[i].1);
                    }
                }
                lemma_count_below(terms, t, m as int);
                lemma_terms_view_remove(vec@, m as int);
                assert(terms[m as int] == (vec@[m as int].0@, node_view(*vec@[m as int].1)));
            }
            let (mut total, present) = vec.remove(m);
            total.add_assign(&weight);
            if !total.is_zero() {
                proof {
                    lemma_terms_view_insert(vec@, m as int, (total, present));
                    assert(terms.remove(m as int).insert(m as int, (total@, t)) =~= terms.update(
                        m as int,
                        (total@, t),
                    ));
                }
                vec.insert(m, (total, present));
            }
        },
        None => {
            proof {
                lemma_count_below(terms, t, lo as int);
                if lo < terms.len() {
                    lemma_order_reflexive(t);
                }
                lemma_terms_view_insert(vec@, lo as int, (weight, node));
            }
            vec.insert(lo, (weight, node));
        },
    }
}

/// Merges every term of `ts`, its weight multiplied by `w`, into a sorted
/// term list.
pub(crate) fn insert_all_scaled(
    vec: &mut Vec<(Rational, Rc<ByzNode>)>,
    w: &Rational,
    ts: Vec<(Rational, Rc<ByzNode>)>,
    Ghost(of_sum): Ghost<bool>,
)
    requires
        terms_canonical(terms_view(old(vec)@), of_sum),
        terms_canonical(terms_view(ts@), of_sum),
        w@.reduced(),
    ensures
        terms_view(final(vec)@) == insert_scaled(
            terms_view(old(vec)@),
            w@,
            terms_view(ts@),
            ts@.len(),
        ),
        terms_canonical(terms_view(final(vec)@), of_sum),
{
    let ghost start = terms_view(vec@);
    let ghost all = terms_view(ts@);
    let ghost items = ts@;
    let n = ts.len();
    let mut rest = ts;
    let mut k: usize = 0;
    while k < n
        invariant
            0 <= k <= n,
            n == items.len(),
            all == terms_view(items),
            rest@ == items.subrange(k as int, n as int),
            terms_canonical(start, of_sum),
            terms_canonical(all, of_sum),
            w@.reduced(),
            terms_view(vec@) == insert_scaled(start, w@, all, k as nat),
            terms_canonical(terms_view(vec@), of_sum),
        decreases n - k,
    {
        let (c, node) = rest.remove(0);
        proof {
            assert(rest@ =~= items.subrange(k + 1, n as int));
            assert(all[k as int] == (items[k as int].0@, node_view(*items[k as int].1)));
            assert((c, node) == items[k as int]);
            lemma_value_mul(w@, c@);
            lemma_insert_scaled_canonical(start, w@, all, (k + 1) as nat, of_sum);
        }
        let mut scaled = w.clone();
        scaled.mul_assign(&c);
        insert_sorted(vec, scaled, node, Ghost(of_sum));
        k = k + 1;
    }
}

/// A sorted list of weighted terms beside a rational part: what a sum and a
/// product have in common.
pub trait ByzNodeVec: Sized {
    /// The rational part and the terms.
    spec fn combination(&self) -> Combination;

    /// Whether the terms are those of a sum.
    spec fn of_sum() -> bool;

    /// The rational part after `q` has been taken in.
    spec fn with_rational(tail: Fraction, q: Fraction) -> Fraction;

    /// The list after a contribution has been taken in.
    spec fn absorb(c: Combination, w: Fraction, t: Expr) -> Combination;

    /// The terms.
    fn get_vec(&self) -> (r: &Vec<(Rational, Rc<ByzNode>)>)
        ensures
            terms_view(r@) == self.combination().terms,
    ;

    /// The rational part.
    fn get_rational_part(&self) -> (r: &Rational)
        ensures
            r@ == self.combination().tail,
    ;

    /// Takes a rational in: a summand of a sum, a factor of a product.
    fn insert_rational(&mut self, rational: Rational)
        requires
            old(self).combination().tail.reduced(),
            terms_canonical(old(self).combination().terms, Self::of_sum()),
            rational@.reduced(),
        ensures
            final(self).combination().tail.reduced(),
            terms_canonical(final(self).combination().terms, Self::of_sum()),
            final(self).combination().tail == Self::with_rational(
                old(self).combination().tail,
                rational@,
            ),
            final(self).combination().terms == old(self).combination().terms,
    ;

    /// Takes a weighted contribution in, keeping the list canonical.
    fn insert(&mut self, item: (Rational, ByzNode))
        requires
            old(self).combination().tail.reduced(),
            terms_canonical(old(self).combination().terms, Self::of_sum()),
            item.0@.reduced(),
            item.1@.canonical(),
        ensures
            final(self).combination().tail.reduced(),
            terms_canonical(final(self).combination().terms, Self::of_sum()),
            final(self).combination() == Self::absorb(
                old(self).combination(),
                item.0@,
                item.1@,
            ),
    ;

    /// Takes a contribution with the weight one in.
    fn insert_single(&mut self, item: ByzNode)
        requires
            old(self).combination().tail.reduced(),
            terms_canonical(old(self).combination().terms, Self::of_sum()),
            item@.canonical(),
        ensures
            final(self).combination().tail.reduced(),
            terms_canonical(final(self).combination().terms, Self::of_sum()),
            final(self).combination() == Self::absorb(
                old(self).combination(),
                Fraction::from_int(1),
                item@,
            ),
    ;
}

/// The rational part is in lowest terms and the terms are canonical.
pub open spec fn vec_wf<T: ByzNodeVec>(v: &T) -> bool {
    v.combination().tail.reduced() && terms_canonical(v.combination().terms, T::of_sum())
}

/// Whether two lists have the same rational part and the same terms.
pub fn util_eq<T: ByzNodeVec>(a: &T, b: &T) -> (r: bool)
    requires
        vec_wf(a),
        vec_wf(b),
    ensures
        r == (a.combination() == b.combination()),
{
    util_order(a, b) == 0
}

/// The order of two lists as a sign: by their terms first, by their
/// rational parts second.
pub fn util_order<T: ByzNodeVec>(a: &T, b: &T) -> (r: i8)
    requires
        vec_wf(a),
        vec_wf(b),
    ensures
        -1 <= r <= 1,
        r == combination_order(a.combination(), b.combination()),
        r == 0 <==> a.combination() == b.combination(),
{
    let s = a.get_vec();
    let t = b.get_vec();
    proof {
        let x = a.combination();
        let y = b.combination();
        crate::expr::lemma_fraction_order(x.tail, y.tail);
        crate::expr::lemma_terms_order_reflexive(x.terms, 0);
        if terms_order_from(x.terms, y.terms, 0) == 0 {
            crate::expr::lemma_terms_order_zero(x.terms, y.terms, 0, T::of_sum());
            assert(x.terms =~= y.terms);
        }
    }
    let o = terms_order(s, t, 0);
    if o != 0 {
        o
    } else {
        a.get_rational_part().order(b.get_rational_part())
    }
}

/// The order of two lists: by their terms first, by their rational parts
/// second.
pub fn util_cmp<T: ByzNodeVec>(a: &T, b: &T) -> (r: Ordering)
    requires
        vec_wf(a),
        vec_wf(b),
    ensures
        ordering_sign(r) == combination_order(a.combination(), b.combination()),
        r == Ordering::Equal <==> a.combination() == b.combination(),
{
    ordering_from_sign(util_order(a, b))
}

/// The order of two lists: `-1`, `0` or `1`.
pub open spec fn combination_order(a: Combination, b: Combination) -> int {
    let o = terms_order_from(a.terms, b.terms, 0);
    if o != 0 {
        o
    } else {
        crate::expr::fraction_order(a.tail, b.tail)
    }
}

/// `rational_part + a * f_a + b * f_b + ...`: a rational and terms weighted
/// by coefficients.
pub struct ByzNodeCoefficientAddVec {
    pub rational_part: Rational,
    pub vec: Vec<(Rational, Rc<ByzNode>)>,
}

/// `rational_part * f_a ^ a * f_b ^ b * ...`: a rational and terms raised to
/// exponents.
pub struct ByzNodePowerMulVec {
    pub rational_part: Rational,
    pub vec: Vec<(Rational, Rc<ByzNode>)>,
}

impl ByzNodeCoefficientAddVec {
    /// The empty sum: zero.
    pub fn new() -> (r: ByzNodeCoefficientAddVec)
        ensures
            vec_wf(&r),
            r.combination() == (Combination { tail: Fraction::from_int(0), terms: Seq::empty() }),
    {
        let r = ByzNodeCoefficientAddVec { rational_part: Rational::zero(), vec: Vec::new() };
        proof {
            assert(terms_view(r.vec@) =~= Seq::empty());
        }
        r
    }

    /// Whether two sums have the same rational part and the same terms.
    pub fn eq(&self, other: &ByzNodeCoefficientAddVec) -> (r: bool)
        requires
            vec_wf(self),
            vec_wf(other),
        ensures
            r == (self.combination() == other.combination()),
    {
        util_eq(self, other)
    }

    /// The order of two sums: by their terms first, by their rational parts
    /// second.
    pub fn cmp(&self, other: &ByzNodeCoefficientAddVec) -> (r: Ordering)
        requires
            vec_wf(self),
            vec_wf(other),
        ensures
            ordering_sign(r) == combination_order(self.combination(), other.combination()),
            r == Ordering::Equal <==> self.combination() == other.combination(),
    {
        util_cmp(self, other)
    }

    /// The order of two sums; never `None`.
    pub fn partial_cmp(&self, other: &ByzNodeCoefficientAddVec) -> (r: Option<Ordering>)
        requires
            vec_wf(self),
            vec_wf(other),
        ensures
            r is Some,
            ordering_sign(r->0) == combination_order(self.combination(), other.combination()),
    {
        Some(util_cmp(self, other))
    }
}

impl ByzNodePowerMulVec {
    /// The empty product: one.
    pub fn new() -> (r: ByzNodePowerMulVec)
        ensures
            vec_wf(&r),
            r.combination() == (Combination { tail: Fraction::from_int(1), terms: Seq::empty() }),
    {
        let r = ByzNodePowerMulVec { rational_part: Rational::one(), vec: Vec::new() };
        proof {
            assert(terms_view(r.vec@) =~= Seq::empty());
        }
        r
    }

    /// Whether two products have the same rational part and the same terms.
    pub fn eq(&self, other: &ByzNodePowerMulVec) -> (r: bool)
        requires
            vec_wf(self),
            vec_wf(other),
        ensures
            r == (self.combination() == other.combination()),
    {
        util_eq(self, other)
    }

    /// The order of two products: by their terms first, by their rational parts
    /// second.
    pub fn cmp(&self, other: &ByzNodePowerMulVec) -> (r: Ordering)
        requires
            vec_wf(self),
            vec_wf(other),
        ensures
            ordering_sign(r) == combination_order(self.combination(), other.combination()),
            r == Ordering::Equal <==> self.combination() == other.combination(),
    {
        util_cmp(self, other)
    }

    /// The order of two products; never `None`.
    pub fn partial_cmp(&self, other: &ByzNodePowerMulVec) -> (r: Option<Ordering>)
        requires
            vec_wf(self),
            vec_wf(other),
        ensures
            r is Some,
            ordering_sign(r->0) == combination_order(self.combination(), other.combination()),
    {
        Some(util_cmp(self, other))
    }
}

impl ByzNodeVec for ByzNodeCoefficientAddVec {
    open spec fn combination(&self) -> Combination {
        Combination { tail: self.rational_part@, terms: terms_view(self.vec@) }
    }

    open spec fn of_sum() -> bool {
        true
    }

    open spec fn with_rational(tail: Fraction, q: Fraction) -> Fraction {
        tail.add(q)
    }

    open spec fn absorb(c: Combination, w: Fraction, t: Expr) -> Combination {
        sum_absorb(c, w, t)
    }

    fn get_vec(&self) -> (r: &Vec<(Rational, Rc<ByzNode>)>) {
        &self.vec
    }

    fn get_rational_part(&self) -> (r: &Rational) {
        &self.rational_part
    }

    fn insert_rational(&mut self, rational: Rational) {
        proof {
            lemma_value_add(self.rational_part@, rational@);
        }
        self.rational_part.add_assign(&rational);
    }

    fn insert(&mut self, item: (Rational, ByzNode)) {
        let (w, node) = item;
        proof {
            lemma_sum_absorb_canonical(self.combination(), w@, node@);
            lemma_canonical_parts(node@);
        }
        match node {
            ByzNode::Rational { rational } => {
                let mut scaled = w;
                scaled.mul_assign(&rational);
                self.rational_part.add_assign(&scaled);
            },
            ByzNode::Add { addends } => {
                let ByzNodeCoefficientAddVec { rational_part, vec } = addends;
                let mut scaled = w.clone();
                scaled.mul_assign(&rational_part);
                self.rational_part.add_assign(&scaled);
                insert_all_scaled(&mut self.vec, &w, vec, Ghost(true));
            },
            other => {
                insert_sorted(&mut self.vec, w, Rc::new(other), Ghost(true));
            },
        }
    }

    fn insert_single(&mut self, item: ByzNode) {
        proof {
            lemma_from_int_reduced(1);
        }
        self.insert((Rational::one(), item));
    }
}

/// Whether `q ^ e` is folded into a rational, and the exponent's magnitude
/// if so.
pub fn fold_exponent(q: &Rational, e: &Rational) -> (r: Option<u32>)
    requires
        q.wf(),
        e.wf(),
    ensures
        r is Some == can_fold_power(q@, e@),
        r matches Some(k) ==> k == nat_of(e.numer) && k <= 12,
{
    if !e.is_int_assume_simplified() {
        return None;
    }
    match biguint_to_u32(&e.numer) {
        Some(k) => {
            if k <= 12 && (!q.is_zero() || (k > 0 && e.sign == Sign::Pos)) {
                Some(k)
            } else {
                None
            }
        },
        None => None,
    }
}

/// `q ^ e` for a whole exponent `e` of magnitude at most twelve.
pub fn integer_power_of(q: Rational, e: &Rational) -> (r: Rational)
    requires
        q@.reduced(),
        e.wf(),
        can_fold_power(q@, e@),
    ensures
        r@ == integer_power(q@, e@),
        r@.reduced(),
{
    proof {
        lemma_integer_power_reduced(q@, e@);
    }
    let mut p = q;
    if e.is_negative() {
        p.invert();
    }
    p.powi(&e.numer);
    p
}

impl ByzNodeVec for ByzNodePowerMulVec {
    open spec fn combination(&self) -> Combination {
        Combination { tail: self.rational_part@, terms: terms_view(self.vec@) }
    }

    open spec fn of_sum() -> bool {
        false
    }

    open spec fn with_rational(tail: Fraction, q: Fraction) -> Fraction {
        tail.mul(q)
    }

    open spec fn absorb(c: Combination, w: Fraction, t: Expr) -> Combination {
        prod_absorb(c, w, t)
    }

    fn get_vec(&self) -> (r: &Vec<(Rational, Rc<ByzNode>)>) {
        &self.vec
    }

    fn get_rational_part(&self) -> (r: &Rational) {
        &self.rational_part
    }

    fn insert_rational(&mut self, rational: Rational) {
        proof {
            lemma_value_mul(self.rational_part@, rational@);
        }
        self.rational_part.mul_assign(&rational);
    }

    fn insert(&mut self, item: (Rational, ByzNode)) {
        let (e, node) = item;
        proof {
            lemma_prod_absorb_canonical(self.combination(), e@, node@);
            lemma_canonical_parts(node@);
            lemma_from_int_reduced(1);
        }
        if e.is_zero() {
            return ;
        }
        match node {
            ByzNode::Rational { rational } => {
                match fold_exponent(&rational, &e) {
                    Some(_) => {
                        let p = integer_power_of(rational, &e);
                        self.rational_part.mul_assign(&p);
                    },
                    None => {
                        let base = ByzNode::Rational { rational };
                        let power = ByzNode::Pow { base: Rc::new(base), exp: e };
                        insert_sorted(&mut self.vec, Rational::one(), Rc::new(power), Ghost(false));
                    },
                }
            },
            ByzNode::Mul { products } => {
                match fold_exponent(&products.rational_part, &e) {
                    Some(_) => {
                        let ByzNodePowerMulVec { rational_part, vec } = products;
                        let p = integer_power_of(rational_part, &e);
                        self.rational_part.mul_assign(&p);
                        insert_all_scaled(&mut self.vec, &e, vec, Ghost(false));
                    },
                    None => {
                        let base = ByzNode::Mul { products };
                        let power = ByzNode::Pow { base: Rc::new(base), exp: e };
                        insert_sorted(&mut self.vec, Rational::one(), Rc::new(power), Ghost(false));
                    },
                }
            },
            other => {
                insert_sorted(&mut self.vec, e, Rc::new(other), Ghost(false));
            },
        }
    }

    fn insert_single(&mut self, item: ByzNode) {
        proof {
            lemma_from_int_reduced(1);
        }
        self.insert((Rational::one(), item));
    }
}

} // verus!
