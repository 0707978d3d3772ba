//! The canonical form of a sum or product does not depend on the order in
//! which its contributions are given: a term list is determined by the
//! weight that it gives to every expression, and every contribution adds
//! to those weights what depends on the contribution alone.

use crate::expr::{
    lemma_canonical_parts, lemma_order_antisymmetric, lemma_order_reflexive, sorted,
    terms_canonical, Expr,
};
use crate::fraction::{
    lemma_from_int_reduced, lemma_value_add, lemma_value_mul, lemma_value_unique, Fraction,
};
use crate::normal_form::{
    build_prod, build_sum, can_fold_power, count_below, insert_scaled, insert_term,
    integer_power, lemma_insert_scaled_canonical, lemma_insert_term_canonical,
    lemma_integer_power_reduced, lemma_prod_absorb_canonical, lemma_sorted_split,
    lemma_sum_absorb_canonical, prod_absorb, prod_collect, sum_absorb, sum_collect, Combination,
};
use crate::rational_range::lemma_sign_of_value;
use vstd::prelude::*;
use vstd::seq_lib::{commutative_foldl, lemma_fold_left_permutation};

verus! {

/// The weight that a term list gives to the expression `u`: zero where `u`
/// is not among its terms.
pub open spec fn weight_in(terms: Seq<(Fraction, Expr)>, u: Expr) -> Fraction
    decreases terms.len(),
{
    if terms.len() == 0 {
        Fraction::from_int(0)
    } else if terms.last().1 == u {
        terms.last().0
    } else {
        weight_in(terms.drop_last(), u)
    }
}

/// An expression that is not among the terms has the weight zero.
pub proof fn lemma_weight_absent(terms: Seq<(Fraction, Expr)>, u: Expr)
    requires
        forall|i: int| 0 <= i < terms.len() ==> (#[trigger] terms[i]).1 != u,
    ensures
        weight_in(terms, u) == Fraction::from_int(0),
        weight_in(terms, u).value() == 0real,
    decreases terms.len(),
{
    crate::fraction::lemma_from_int_value(0);
    if terms.len() > 0 {
        let rest = terms.drop_last();
        assert(terms.last() == terms[terms.len() - 1]);
        assert(forall|i: int| 0 <= i < rest.len() ==> rest[i] == terms[i]);
        lemma_weight_absent(rest, u);
    }
}

/// The terms of a sorted list are all different.
pub proof fn lemma_sorted_distinct(terms: Seq<(Fraction, Expr)>, i: int, j: int)
    requires
        sorted(terms),
        0 <= i < terms.len(),
        0 <= j < terms.len(),
        terms[i].1 == terms[j].1,
    ensures
        i == j,
{
    lemma_order_reflexive(terms[i].1);
}

/// The term at a position of a sorted list has the weight that stands
/// there.
pub proof fn lemma_weight_present(terms: Seq<(Fraction, Expr)>, i: int)
    requires
        sorted(terms),
        0 <= i < terms.len(),
    ensures
        weight_in(terms, terms[i].1) == terms[i].0,
    decreases terms.len(),
{
    let n = terms.len() as int;
    assert(terms.last() == terms[n - 1]);
    if terms[n - 1].1 == terms[i].1 {
        lemma_sorted_distinct(terms, i, n - 1);
    } else {
        let rest = terms.drop_last();
        assert(forall|k: int| 0 <= k < rest.len() ==> rest[k] == terms[k]);
        lemma_weight_present(rest, i);
    }
}

/// The weights of a canonical term list are in lowest terms, and zero only
/// for the expressions that are not among the terms.
pub proof fn lemma_weight_reduced(terms: Seq<(Fraction, Expr)>, u: Expr, of_sum: bool)
    requires
        terms_canonical(terms, of_sum),
    ensures
        weight_in(terms, u).reduced(),
        weight_in(terms, u).num != 0 <==> exists|i: int|
            0 <= i < terms.len() && (#[trigger] terms[i]).1 == u,
{
    lemma_from_int_reduced(0);
    if exists|i: int| 0 <= i < terms.len() && (#[trigger] terms[i]).1 == u {
        let i = choose|i: int| 0 <= i < terms.len() && (#[trigger] terms[i]).1 == u;
        lemma_weight_present(terms, i);
    } else {
        lemma_weight_absent(terms, u);
    }
}

/// Two canonical term lists that give every expression the same weight are
/// the same list.
pub proof fn lemma_terms_extensional(
    a: Seq<(Fraction, Expr)>,
    b: Seq<(Fraction, Expr)>,
    of_sum: bool,
)
    requires
        terms_canonical(a, of_sum),
        terms_canonical(b, of_sum),
        forall|u: Expr| weight_in(a, u).value() == #[trigger] weight_in(b, u).value(),
    ensures
        a == b,
    decreases a.len(),
{
    if a.len() == 0 {
        if b.len() > 0 {
            let t = b[0].1;
            lemma_weight_present(b, 0);
            lemma_weight_absent(a, t);
            lemma_sign_of_value(b[0].0);
            assert(weight_in(a, t).value() == weight_in(b, t).value());
        }
        assert(a =~= b);
    } else {
        let n = a.len() as int;
        let ta = a[n - 1].1;
        lemma_weight_present(a, n - 1);
        lemma_sign_of_value(a[n - 1].0);
        assert(weight_in(a, ta).value() == weight_in(b, ta).value());
        lemma_weight_reduced(b, ta, of_sum);
        lemma_sign_of_value(weight_in(b, ta));
        let jb = choose|j: int| 0 <= j < b.len() && (#[trigger] b[j]).1 == ta;
        let m = b.len() as int;
        let tb = b[m - 1].1;
        lemma_weight_present(b, m - 1);
        lemma_sign_of_value(b[m - 1].0);
        assert(weight_in(a, tb).value() == weight_in(b, tb).value());
        lemma_weight_reduced(a, tb, of_sum);
        lemma_sign_of_value(weight_in(a, tb));
        let ja = choose|j: int| 0 <= j < a.len() && (#[trigger] a[j]).1 == tb;
        // the last terms are the greatest, and each is among the other list's terms
        if jb < m - 1 {
            assert(b[jb].1.order(b[m - 1].1) < 0);
            if ja < n - 1 {
                assert(a[ja].1.order(a[n - 1].1) < 0);
                lemma_order_antisymmetric(ta, tb);
            } else {
                lemma_order_reflexive(ta);
            }
        }
        assert(jb == m - 1);
        lemma_weight_present(b, jb);
        lemma_value_unique(a[n - 1].0, b[m - 1].0);
        assert(a[n - 1] == b[m - 1]);
        let ra = a.drop_last();
        let rb = b.drop_last();
        assert(forall|k: int| 0 <= k < ra.len() ==> ra[k] == a[k]);
        assert(forall|k: int| 0 <= k < rb.len() ==> rb[k] == b[k]);
        assert(a.last() == a[n - 1] && b.last() == b[m - 1]);
        assert forall|u: Expr| weight_in(ra, u).value() == #[trigger] weight_in(rb, u).value() by {
            if u == ta {
                assert forall|k: int| 0 <= k < ra.len() implies (#[trigger] ra[k]).1 != u by {
                    if ra[k].1 == u {
                        lemma_sorted_distinct(a, k, n - 1);
                    }
                }
                assert forall|k: int| 0 <= k < rb.len() implies (#[trigger] rb[k]).1 != u by {
                    if rb[k].1 == u {
                        lemma_sorted_distinct(b, k, m - 1);
                    }
                }
                lemma_weight_absent(ra, u);
                lemma_weight_absent(rb, u);
            } else {
                assert(weight_in(a, u).value() == weight_in(b, u).value());
            }
        }
        lemma_terms_extensional(ra, rb, of_sum);
        assert(a =~= ra.push(a[n - 1]));
        assert(b =~= rb.push(b[m - 1]));
    }
}

/// What a merged contribution adds to the weight of `u`: its weight for
/// the expression itself, nothing for any other.
pub open spec fn own_weight(w: Fraction, t: Expr, u: Expr) -> real {
    if u == t {
        w.value()
    } else {
        0real
    }
}

/// Merging a term adds its weight to the weight of its expression and
/// leaves the other weights as they are.
pub proof fn lemma_insert_term_weights(
    terms: Seq<(Fraction, Expr)>,
    w: Fraction,
    t: Expr,
    of_sum: bool,
    u: Expr,
)
    requires
        terms_canonical(terms, of_sum),
        w.reduced(),
        t.canonical(),
        if of_sum {
            t.is_sum_term()
        } else {
            t.is_prod_term()
        },
    ensures
        terms_canonical(insert_term(terms, w, t), of_sum),
        weight_in(insert_term(terms, w, t), u).value() == weight_in(terms, u).value() + own_weight(
            w,
            t,
            u,
        ),
{
    let r = insert_term(terms, w, t);
    lemma_insert_term_canonical(terms, w, t, of_sum);
    lemma_sorted_split(terms, t, of_sum);
    lemma_sign_of_value(w);
    crate::fraction::lemma_from_int_value(0);
    let k = count_below(terms, t) as int;
    let found = k < terms.len() && terms[k].1 == t;
    if w.num == 0 {
    } else {
        // where `t` stands in the two lists, if at all
        if found {
            lemma_weight_present(terms, k);
            lemma_value_add(terms[k].0, w);
            lemma_sign_of_value(terms[k].0.add(w));
        } else {
            assert forall|i: int| 0 <= i < terms.len() implies (#[trigger] terms[i]).1 != t by {
                if terms[i].1 == t {
                    lemma_order_reflexive(t);
                }
            }
            lemma_weight_absent(terms, t);
        }
        let gone = found && terms[k].0.add(w).num == 0;
        if u == t {
            if gone {
                assert forall|i: int| 0 <= i < r.len() implies (#[trigger] r[i]).1 != t by {
                    let i0 = if i < k {
                        i
                    } else {
                        i + 1
                    };
                    assert(r[i] == terms[i0]);
                    if terms[i0].1 == t {
                        lemma_sorted_distinct(terms, i0, k);
                    }
                }
                lemma_weight_absent(r, t);
            } else {
                assert(r[k].1 == t);
                lemma_weight_present(r, k);
            }
        } else if exists|i: int| 0 <= i < terms.len() && (#[trigger] terms[i]).1 == u {
            let i = choose|i: int| 0 <= i < terms.len() && (#[trigger] terms[i]).1 == u;
            lemma_weight_present(terms, i);
            let j = if found {
                if gone && i > k {
                    i - 1
                } else {
                    i
                }
            } else if i >= k {
                i + 1
            } else {
                i
            };
            assert(r[j] == terms[i]);
            lemma_weight_present(r, j);
        } else {
            lemma_weight_absent(terms, u);
            assert forall|j: int| 0 <= j < r.len() implies (#[trigger] r[j]).1 != u by {
                if found {
                    if gone {
                        let j0 = if j < k {
                            j
                        } else {
                            j + 1
                        };
                        assert(r[j] == terms[j0]);
                    } else {
                        assert(r[j].1 == terms[j].1);
                    }
                } else if j < k {
                    assert(r[j] == terms[j]);
                } else if j > k {
                    assert(r[j] == terms[j - 1]);
                }
            }
            lemma_weight_absent(r, u);
        }
    }
}

/// Merging the scaled terms of a list adds to every weight the scaled
/// weight that the list gives.
pub proof fn lemma_insert_scaled_weights(
    terms: Seq<(Fraction, Expr)>,
    w: Fraction,
    ts: Seq<(Fraction, Expr)>,
    n: nat,
    of_sum: bool,
    u: Expr,
)
    requires
        terms_canonical(terms, of_sum),
        terms_canonical(ts, of_sum),
        w.reduced(),
        n <= ts.len(),
    ensures
        terms_canonical(insert_scaled(terms, w, ts, n), of_sum),
        weight_in(insert_scaled(terms, w, ts, n), u).value() == weight_in(terms, u).value()
            + w.value() * weight_in(ts.take(n as int), u).value(),
    decreases n,
{
    crate::fraction::lemma_from_int_value(0);
    lemma_insert_scaled_canonical(terms, w, ts, n, of_sum);
    let x = w.value();
    if n == 0 {
        assert(ts.take(0).len() == 0);
        assert(x * 0real == 0real) by (nonlinear_arith);
    } else {
        let j = (n - 1) as nat;
        let prev = insert_scaled(terms, w, ts, j);
        lemma_insert_scaled_weights(terms, w, ts, j, of_sum, u);
        lemma_value_mul(w, ts[n - 1].0);
        lemma_insert_term_weights(prev, w.mul(ts[n - 1].0), ts[n - 1].1, of_sum, u);
        let head = ts.take(n as int);
        let before = ts.take(j as int);
        assert(head.last() == ts[n - 1]);
        assert(head.drop_last() =~= before);
        if ts[n - 1].1 == u {
            assert forall|i: int| 0 <= i < before.len() implies (#[trigger] before[i]).1 != u by {
                assert(before[i] == ts[i]);
                if ts[i].1 == u {
                    lemma_sorted_distinct(ts, i, n - 1);
                }
            }
            lemma_weight_absent(before, u);
            assert(x * 0real == 0real) by (nonlinear_arith);
        }
    }
}

/// What a contribution to a sum adds to the rational tail.
pub open spec fn sum_tail_shift(w: Fraction, t: Expr) -> real {
    match t {
        Expr::Rat(q) => w.value() * q.value(),
        Expr::Sum(r, _) => w.value() * r.value(),
        _ => 0real,
    }
}

/// What a contribution to a sum adds to the weight of `u`.
pub open spec fn sum_weight_shift(w: Fraction, t: Expr, u: Expr) -> real {
    match t {
        Expr::Rat(_) => 0real,
        Expr::Sum(_, ts) => w.value() * weight_in(ts, u).value(),
        _ => own_weight(w, t, u),
    }
}

/// A contribution to a sum adds to the tail and to every weight an amount
/// that depends on the contribution alone.
pub proof fn lemma_sum_absorb_effect(c: Combination, w: Fraction, t: Expr, u: Expr)
    requires
        c.tail.reduced(),
        terms_canonical(c.terms, true),
        w.reduced(),
        t.canonical(),
    ensures
        sum_absorb(c, w, t).tail.reduced(),
        terms_canonical(sum_absorb(c, w, t).terms, true),
        sum_absorb(c, w, t).tail.value() == c.tail.value() + sum_tail_shift(w, t),
        weight_in(sum_absorb(c, w, t).terms, u).value() == weight_in(c.terms, u).value()
            + sum_weight_shift(w, t, u),
{
    lemma_sum_absorb_canonical(c, w, t);
    lemma_canonical_parts(t);
    match t {
        Expr::Rat(q) => {
            lemma_value_mul(w, q);
            lemma_value_add(c.tail, w.mul(q));
        },
        Expr::Sum(r, ts) => {
            lemma_value_mul(w, r);
            lemma_value_add(c.tail, w.mul(r));
            lemma_insert_scaled_weights(c.terms, w, ts, ts.len(), true, u);
            assert(ts.take(ts.len() as int) =~= ts);
        },
        _ => {
            lemma_insert_term_weights(c.terms, w, t, true, u);
        },
    }
}

/// Two contributions to a sum can be taken in either order.
pub proof fn lemma_sum_absorb_commutes(
    c: Combination,
    w1: Fraction,
    t1: Expr,
    w2: Fraction,
    t2: Expr,
)
    requires
        c.tail.reduced(),
        terms_canonical(c.terms, true),
        w1.reduced(),
        t1.canonical(),
        w2.reduced(),
        t2.canonical(),
    ensures
        sum_absorb(sum_absorb(c, w1, t1), w2, t2) == sum_absorb(sum_absorb(c, w2, t2), w1, t1),
{
    let a = sum_absorb(c, w1, t1);
    let b = sum_absorb(c, w2, t2);
    let ab = sum_absorb(a, w2, t2);
    let ba = sum_absorb(b, w1, t1);
    let any = Expr::Rat(Fraction::from_int(0));
    lemma_sum_absorb_effect(c, w1, t1, any);
    lemma_sum_absorb_effect(c, w2, t2, any);
    lemma_sum_absorb_effect(a, w2, t2, any);
    lemma_sum_absorb_effect(b, w1, t1, any);
    lemma_value_unique(ab.tail, ba.tail);
    assert forall|u: Expr| weight_in(ab.terms, u).value() == #[trigger] weight_in(
        ba.terms,
        u,
    ).value() by {
        lemma_sum_absorb_effect(c, w1, t1, u);
        lemma_sum_absorb_effect(c, w2, t2, u);
        lemma_sum_absorb_effect(a, w2, t2, u);
        lemma_sum_absorb_effect(b, w1, t1, u);
    }
    lemma_terms_extensional(ab.terms, ba.terms, true);
}

/// The factor by which a contribution to a product multiplies the rational
/// tail.
pub open spec fn prod_tail_factor(e: Fraction, t: Expr) -> real {
    if e.num == 0 {
        1real
    } else {
        match t {
            Expr::Rat(q) => if can_fold_power(q, e) {
                integer_power(q, e).value()
            } else {
                1real
            },
            Expr::Prod(r, _) => if can_fold_power(r, e) {
                integer_power(r, e).value()
            } else {
                1real
            },
            _ => 1real,
        }
    }
}

/// What a contribution to a product adds to the weight of `u`.
pub open spec fn prod_weight_shift(e: Fraction, t: Expr, u: Expr) -> real {
    if e.num == 0 {
        0real
    } else {
        match t {
            Expr::Rat(q) => if can_fold_power(q, e) {
                0real
            } else {
                own_weight(Fraction::from_int(1), Expr::Pow(Box::new(t), e), u)
            },
            Expr::Prod(r, ts) => if can_fold_power(r, e) {
                e.value() * weight_in(ts, u).value()
            } else {
                own_weight(Fraction::from_int(1), Expr::Pow(Box::new(t), e), u)
            },
            _ => own_weight(e, t, u),
        }
    }
}

/// A contribution to a product multiplies the tail by a factor and adds to
/// every weight an amount that depend on the contribution alone.
pub proof fn lemma_prod_absorb_effect(c: Combination, e: Fraction, t: Expr, u: Expr)
    requires
        c.tail.reduced(),
        terms_canonical(c.terms, false),
        e.reduced(),
        t.canonical(),
    ensures
        prod_absorb(c, e, t).tail.reduced(),
        terms_canonical(prod_absorb(c, e, t).terms, false),
        prod_absorb(c, e, t).tail.value() == c.tail.value() * prod_tail_factor(e, t),
        weight_in(prod_absorb(c, e, t).terms, u).value() == weight_in(c.terms, u).value()
            + prod_weight_shift(e, t, u),
{
    lemma_prod_absorb_canonical(c, e, t);
    lemma_canonical_parts(t);
    lemma_from_int_reduced(1);
    let one = Fraction::from_int(1);
    let x = c.tail.value();
    assert(x * 1real == x) by (nonlinear_arith);
    if e.num != 0 {
        match t {
            Expr::Rat(q) => {
                if can_fold_power(q, e) {
                    lemma_integer_power_reduced(q, e);
                    lemma_value_mul(c.tail, integer_power(q, e));
                } else {
                    lemma_insert_term_weights(c.terms, one, Expr::Pow(Box::new(t), e), false, u);
                }
            },
            Expr::Prod(r, ts) => {
                if can_fold_power(r, e) {
                    lemma_integer_power_reduced(r, e);
                    lemma_value_mul(c.tail, integer_power(r, e));
                    lemma_insert_scaled_weights(c.terms, e, ts, ts.len(), false, u);
                    assert(ts.take(ts.len() as int) =~= ts);
                } else {
                    lemma_insert_term_weights(c.terms, one, Expr::Pow(Box::new(t), e), false, u);
                }
            },
            _ => {
                lemma_insert_term_weights(c.terms, e, t, false, u);
            },
        }
    }
}

/// Two contributions to a product can be taken in either order.
pub proof fn lemma_prod_absorb_commutes(
    c: Combination,
    e1: Fraction,
    t1: Expr,
    e2: Fraction,
    t2: Expr,
)
    requires
        c.tail.reduced(),
        terms_canonical(c.terms, false),
        e1.reduced(),
        t1.canonical(),
        e2.reduced(),
        t2.canonical(),
    ensures
        prod_absorb(prod_absorb(c, e1, t1), e2, t2) == prod_absorb(prod_absorb(c, e2, t2), e1, t1),
{
    let a = prod_absorb(c, e1, t1);
    let b = prod_absorb(c, e2, t2);
    let ab = prod_absorb(a, e2, t2);
    let ba = prod_absorb(b, e1, t1);
    let any = Expr::Rat(Fraction::from_int(0));
    lemma_prod_absorb_effect(c, e1, t1, any);
    lemma_prod_absorb_effect(c, e2, t2, any);
    lemma_prod_absorb_effect(a, e2, t2, any);
    lemma_prod_absorb_effect(b, e1, t1, any);
    let x = c.tail.value();
    let f1 = prod_tail_factor(e1, t1);
    let f2 = prod_tail_factor(e2, t2);
    assert((x * f1) * f2 == (x * f2) * f1) by (nonlinear_arith);
    lemma_value_unique(ab.tail, ba.tail);
    assert forall|u: Expr| weight_in(ab.terms, u).value() == #[trigger] weight_in(
        ba.terms,
        u,
    ).value() by {
        lemma_prod_absorb_effect(c, e1, t1, u);
        lemma_prod_absorb_effect(c, e2, t2, u);
        lemma_prod_absorb_effect(a, e2, t2, u);
        lemma_prod_absorb_effect(b, e1, t1, u);
    }
    lemma_terms_extensional(ab.terms, ba.terms, false);
}

/// What the first `n` contributions to a sum add to the rational tail.
pub open spec fn sum_tail_total(s: Seq<(Fraction, Expr)>, n: nat) -> real
    decreases n,
{
    if n == 0 {
        0real
    } else {
        sum_tail_total(s, (n - 1) as nat) + sum_tail_shift(s[n - 1].0, s[n - 1].1)
    }
}

/// What the first `n` contributions to a sum add to the weight of `u`.
pub open spec fn sum_weight_total(s: Seq<(Fraction, Expr)>, n: nat, u: Expr) -> real
    decreases n,
{
    if n == 0 {
        0real
    } else {
        sum_weight_total(s, (n - 1) as nat, u) + sum_weight_shift(s[n - 1].0, s[n - 1].1, u)
    }
}

/// What a collected sum is: its rational tail is the given tail plus what
/// the contributions add to it, and the weight of every expression is what
/// the contributions add to it.
pub proof fn lemma_sum_collect_totals(tail: Fraction, s: Seq<(Fraction, Expr)>, n: nat, u: Expr)
    requires
        tail.reduced(),
        n <= s.len(),
        forall|i: int| 0 <= i < s.len() ==> contribution_canonical(#[trigger] s[i]),
    ensures
        combination_canonical(sum_collect(tail, s, n), true),
        sum_collect(tail, s, n).tail.value() == tail.value() + sum_tail_total(s, n),
        weight_in(sum_collect(tail, s, n).terms, u).value() == sum_weight_total(s, n, u),
    decreases n,
{
    if n == 0 {
        lemma_weight_absent(Seq::<(Fraction, Expr)>::empty(), u);
    } else {
        lemma_sum_collect_totals(tail, s, (n - 1) as nat, u);
        lemma_sum_absorb_effect(sum_collect(tail, s, (n - 1) as nat), s[n - 1].0, s[n - 1].1, u);
    }
}

/// The factor by which the first `n` contributions to a product multiply
/// the rational tail.
pub open spec fn prod_tail_total(s: Seq<(Fraction, Expr)>, n: nat) -> real
    decreases n,
{
    if n == 0 {
        1real
    } else {
        prod_tail_total(s, (n - 1) as nat) * prod_tail_factor(s[n - 1].0, s[n - 1].1)
    }
}

/// What the first `n` contributions to a product add to the weight of `u`.
pub open spec fn prod_weight_total(s: Seq<(Fraction, Expr)>, n: nat, u: Expr) -> real
    decreases n,
{
    if n == 0 {
        0real
    } else {
        prod_weight_total(s, (n - 1) as nat, u) + prod_weight_shift(s[n - 1].0, s[n - 1].1, u)
    }
}

/// What a collected product is: its rational tail is the given tail times
/// the factors of the contributions, and the weight of every expression is
/// what the contributions add to it.
pub proof fn lemma_prod_collect_totals(tail: Fraction, s: Seq<(Fraction, Expr)>, n: nat, u: Expr)
    requires
        tail.reduced(),
        n <= s.len(),
        forall|i: int| 0 <= i < s.len() ==> contribution_canonical(#[trigger] s[i]),
    ensures
        combination_canonical(prod_collect(tail, s, n), false),
        prod_collect(tail, s, n).tail.value() == tail.value() * prod_tail_total(s, n),
        weight_in(prod_collect(tail, s, n).terms, u).value() == prod_weight_total(s, n, u),
    decreases n,
{
    let x = tail.value();
    if n == 0 {
        lemma_weight_absent(Seq::<(Fraction, Expr)>::empty(), u);
        assert(x * 1real == x) by (nonlinear_arith);
    } else {
        lemma_prod_collect_totals(tail, s, (n - 1) as nat, u);
        lemma_prod_absorb_effect(
            prod_collect(tail, s, (n - 1) as nat),
            s[n - 1].0,
            s[n - 1].1,
            u,
        );
        let t = prod_tail_total(s, (n - 1) as nat);
        let f = prod_tail_factor(s[n - 1].0, s[n - 1].1);
        assert((x * t) * f == x * (t * f)) by (nonlinear_arith);
    }
}

/// A list under construction is canonical.
pub open spec fn combination_canonical(c: Combination, of_sum: bool) -> bool {
    c.tail.reduced() && terms_canonical(c.terms, of_sum)
}

/// A contribution has a weight in lowest terms and a canonical expression.
pub open spec fn contribution_canonical(x: (Fraction, Expr)) -> bool {
    x.0.reduced() && x.1.canonical()
}

/// The step of collecting a sum, which leaves alone what is not canonical.
pub open spec fn sum_step(c: Combination, x: (Fraction, Expr)) -> Combination {
    if combination_canonical(c, true) && contribution_canonical(x) {
        sum_absorb(c, x.0, x.1)
    } else {
        c
    }
}

/// The step of collecting a product, which leaves alone what is not
/// canonical.
pub open spec fn prod_step(c: Combination, x: (Fraction, Expr)) -> Combination {
    if combination_canonical(c, false) && contribution_canonical(x) {
        prod_absorb(c, x.0, x.1)
    } else {
        c
    }
}

/// Collecting canonical contributions is folding the step over them.
pub proof fn lemma_sum_collect_is_fold(tail: Fraction, s: Seq<(Fraction, Expr)>, n: nat)
    requires
        tail.reduced(),
        n <= s.len(),
        forall|i: int| 0 <= i < s.len() ==> contribution_canonical(#[trigger] s[i]),
    ensures
        sum_collect(tail, s, n) == s.take(n as int).fold_left(
            (Combination { tail, terms: Seq::empty() }),
            |c: Combination, x: (Fraction, Expr)| sum_step(c, x),
        ),
        combination_canonical(sum_collect(tail, s, n), true),
    decreases n,
{
    let f = |c: Combination, x: (Fraction, Expr)| sum_step(c, x);
    let start = Combination { tail, terms: Seq::empty() };
    if n == 0 {
        assert(s.take(0).len() == 0);
    } else {
        let j = (n - 1) as nat;
        lemma_sum_collect_is_fold(tail, s, j);
        let head = s.take(n as int);
        assert(head.drop_last() =~= s.take(j as int));
        assert(head.last() == s[n - 1]);
        lemma_sum_absorb_canonical(sum_collect(tail, s, j), s[n - 1].0, s[n - 1].1);
    }
}

/// Collecting canonical contributions is folding the step over them.
pub proof fn lemma_prod_collect_is_fold(tail: Fraction, s: Seq<(Fraction, Expr)>, n: nat)
    requires
        tail.reduced(),
        n <= s.len(),
        forall|i: int| 0 <= i < s.len() ==> contribution_canonical(#[trigger] s[i]),
    ensures
        prod_collect(tail, s, n) == s.take(n as int).fold_left(
            (Combination { tail, terms: Seq::empty() }),
            |c: Combination, x: (Fraction, Expr)| prod_step(c, x),
        ),
        combination_canonical(prod_collect(tail, s, n), false),
    decreases n,
{
    if n == 0 {
        assert(s.take(0).len() == 0);
    } else {
        let j = (n - 1) as nat;
        lemma_prod_collect_is_fold(tail, s, j);
        let head = s.take(n as int);
        assert(head.drop_last() =~= s.take(j as int));
        assert(head.last() == s[n - 1]);
        lemma_prod_absorb_canonical(prod_collect(tail, s, j), s[n - 1].0, s[n - 1].1);
    }
}

/// Canonical equality is structural identity for sums: two lists of
/// canonical contributions that hold the same contributions the same number
/// of times, in whatever order, build the same canonical sum.
pub proof fn lemma_build_sum_any_order(
    tail: Fraction,
    s1: Seq<(Fraction, Expr)>,
    s2: Seq<(Fraction, Expr)>,
)
    requires
        tail.reduced(),
        forall|i: int| 0 <= i < s1.len() ==> contribution_canonical(#[trigger] s1[i]),
        forall|i: int| 0 <= i < s2.len() ==> contribution_canonical(#[trigger] s2[i]),
        s1.to_multiset() == s2.to_multiset(),
    ensures
        build_sum(tail, s1) == build_sum(tail, s2),
        build_sum(tail, s1).order(build_sum(tail, s2)) == 0,
{
    let f = |c: Combination, x: (Fraction, Expr)| sum_step(c, x);
    let start = Combination { tail, terms: Seq::empty() };
    assert(commutative_foldl(f)) by {
        assert forall|x: (Fraction, Expr), y: (Fraction, Expr), v: Combination| #[trigger]
            f(f(v, x), y) == f(f(v, y), x) by {
            if combination_canonical(v, true) {
                if contribution_canonical(x) {
                    lemma_sum_absorb_canonical(v, x.0, x.1);
                }
                if contribution_canonical(y) {
                    lemma_sum_absorb_canonical(v, y.0, y.1);
                }
                if contribution_canonical(x) && contribution_canonical(y) {
                    lemma_sum_absorb_commutes(v, x.0, x.1, y.0, y.1);
                }
            }
        }
    }
    lemma_fold_left_permutation(s1, s2, f, start);
    lemma_sum_collect_is_fold(tail, s1, s1.len());
    lemma_sum_collect_is_fold(tail, s2, s2.len());
    assert(s1.take(s1.len() as int) =~= s1);
    assert(s2.take(s2.len() as int) =~= s2);
    lemma_order_reflexive(build_sum(tail, s1));
}

/// Canonical equality is structural identity for products: two lists of
/// canonical contributions that hold the same contributions the same number
/// of times, in whatever order, build the same canonical product.
pub proof fn lemma_build_prod_any_order(
    tail: Fraction,
    s1: Seq<(Fraction, Expr)>,
    s2: Seq<(Fraction, Expr)>,
)
    requires
        tail.reduced(),
        forall|i: int| 0 <= i < s1.len() ==> contribution_canonical(#[trigger] s1[i]),
        forall|i: int| 0 <= i < s2.len() ==> contribution_canonical(#[trigger] s2[i]),
        s1.to_multiset() == s2.to_multiset(),
    ensures
        build_prod(tail, s1) == build_prod(tail, s2),
        build_prod(tail, s1).order(build_prod(tail, s2)) == 0,
{
    let f = |c: Combination, x: (Fraction, Expr)| prod_step(c, x);
    let start = Combination { tail, terms: Seq::empty() };
    assert(commutative_foldl(f)) by {
        assert forall|x: (Fraction, Expr), y: (Fraction, Expr), v: Combination| #[trigger]
            f(f(v, x), y) == f(f(v, y), x) by {
            if combination_canonical(v, false) {
                if contribution_canonical(x) {
                    lemma_prod_absorb_canonical(v, x.0, x.1);
                }
                if contribution_canonical(y) {
                    lemma_prod_absorb_canonical(v, y.0, y.1);
                }
                if contribution_canonical(x) && contribution_canonical(y) {
                    lemma_prod_absorb_commutes(v, x.0, x.1, y.0, y.1);
                }
            }
        }
    }
    lemma_fold_left_permutation(s1, s2, f, start);
    lemma_prod_collect_is_fold(tail, s1, s1.len());
    lemma_prod_collect_is_fold(tail, s2, s2.len());
    assert(s1.take(s1.len() as int) =~= s1);
    assert(s2.take(s2.len() as int) =~= s2);
    lemma_order_reflexive(build_prod(tail, s1));
}

} // verus!
