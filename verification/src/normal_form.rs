//! How sums, products and powers are brought into canonical form: the
//! merge of a weighted term into a sorted term list, the folding of
//! rationals into the rational tail, and the flattening of nested sums and
//! products.

use crate::expr::{
    lemma_order_antisymmetric, lemma_order_transitive, lemma_order_zero, terms_canonical, Expr,
};
use crate::fraction::{
    lemma_from_int_reduced, lemma_pow_reduced, lemma_value_add, lemma_value_inv, lemma_value_mul,
    Fraction,
};
use crate::rational_range::lemma_sign_of_value;
use vstd::prelude::*;

verus! {

/// The number of terms whose expression comes before `t`. In a sorted list
/// this is the position at which `t` stands or would be inserted.
pub open spec fn count_below(terms: Seq<(Fraction, Expr)>, t: Expr) -> nat
    decreases terms.len(),
{
    if terms.len() == 0 {
        0
    } else {
        count_below(terms.drop_last(), t) + (if terms.last().1.order(t) < 0 {
            1nat
        } else {
            0nat
        })
    }
}

/// The term list after the contribution `w * t` (for a sum) or `t ^ w` (for
/// a product) has been merged in. A zero weight changes nothing. Where `t`
/// is already present the weights are added, and the term leaves the list
/// when they cancel; otherwise the term is inserted where the order puts it.
pub open spec fn insert_term(terms: Seq<(Fraction, Expr)>, w: Fraction, t: Expr) -> Seq<
    (Fraction, Expr),
> {
    if w.num == 0 {
        terms
    } else {
        let i = count_below(terms, t) as int;
        if i < terms.len() && terms[i].1 == t {
            let sum = terms[i].0.add(w);
            if sum.num == 0 {
                terms.remove(i)
            } else {
                terms.update(i, (sum, t))
            }
        } else {
            terms.insert(i, (w, t))
        }
    }
}

/// The term list after the first `n` terms of `ts`, each weight multiplied
/// by `w`, have been merged in one after the other.
pub open spec fn insert_scaled(
    terms: Seq<(Fraction, Expr)>,
    w: Fraction,
    ts: Seq<(Fraction, Expr)>,
    n: nat,
) -> Seq<(Fraction, Expr)>
    decreases n,
{
    if n == 0 {
        terms
    } else {
        insert_term(
            insert_scaled(terms, w, ts, (n - 1) as nat),
            w.mul(ts[n - 1].0),
            ts[n - 1].1,
        )
    }
}

/// A sum or product under construction: the rational tail and the sorted
/// terms collected so far.
pub struct Combination {
    pub tail: Fraction,
    pub terms: Seq<(Fraction, Expr)>,
}

/// A sum after the contribution `w * t`: a rational goes into the tail, a
/// nested sum is taken apart with `w` distributed over it, anything else is
/// merged into the terms.
pub open spec fn sum_absorb(c: Combination, w: Fraction, t: Expr) -> Combination {
    match t {
        Expr::Rat(q) => Combination { tail: c.tail.add(w.mul(q)), terms: c.terms },
        Expr::Sum(r, ts) => Combination {
            tail: c.tail.add(w.mul(r)),
            terms: insert_scaled(c.terms, w, ts, ts.len()),
        },
        _ => Combination { tail: c.tail, terms: insert_term(c.terms, w, t) },
    }
}

/// The sum collected from a rational tail and the first `n` contributions.
pub open spec fn sum_collect(
    tail: Fraction,
    contributions: Seq<(Fraction, Expr)>,
    n: nat,
) -> Combination
    decreases n,
{
    if n == 0 {
        Combination { tail, terms: Seq::empty() }
    } else {
        sum_absorb(
            sum_collect(tail, contributions, (n - 1) as nat),
            contributions[n - 1].0,
            contributions[n - 1].1,
        )
    }
}

/// The expression for a collected sum: the tail alone when no term is left.
pub open spec fn sum_node(c: Combination) -> Expr {
    if c.terms.len() == 0 {
        Expr::Rat(c.tail)
    } else {
        Expr::Sum(c.tail, c.terms)
    }
}

/// The canonical sum of a rational tail and weighted contributions.
pub open spec fn build_sum(tail: Fraction, contributions: Seq<(Fraction, Expr)>) -> Expr {
    sum_node(sum_collect(tail, contributions, contributions.len()))
}

/// An exponent by which a rational is raised exactly: a whole number of
/// magnitude at most twelve.
pub open spec fn is_small_integer(e: Fraction) -> bool {
    e.den == 1 && -12 <= e.num <= 12
}

/// Whether `q ^ e` is folded into a rational: the exponent is a small whole
/// number, and not negative or zero when `q` is zero.
pub open spec fn can_fold_power(q: Fraction, e: Fraction) -> bool {
    is_small_integer(e) && (q.num != 0 || e.num > 0)
}

/// `q ^ e` for a whole exponent `e`.
pub open spec fn integer_power(q: Fraction, e: Fraction) -> Fraction {
    if e.num >= 0 {
        q.pow(e.num as nat)
    } else {
        q.inv().pow((-e.num) as nat)
    }
}

/// A product after the contribution `t ^ e`. A zero exponent contributes
/// nothing. A rational raised to a small whole exponent goes into the tail;
/// a nested product raised to such an exponent is taken apart with the
/// exponent distributed over it; a rational or a product with any other
/// exponent is kept as a power, which enters with the weight one. Anything
/// else is merged into the terms.
pub open spec fn prod_absorb(c: Combination, e: Fraction, t: Expr) -> Combination {
    if e.num == 0 {
        c
    } else {
        match t {
            Expr::Rat(q) => if can_fold_power(q, e) {
                Combination { tail: c.tail.mul(integer_power(q, e)), terms: c.terms }
            } else {
                Combination {
                    tail: c.tail,
                    terms: insert_term(c.terms, Fraction::from_int(1), Expr::Pow(Box::new(t), e)),
                }
            },
            Expr::Prod(r, ts) => if can_fold_power(r, e) {
                Combination {
                    tail: c.tail.mul(integer_power(r, e)),
                    terms: insert_scaled(c.terms, e, ts, ts.len()),
                }
            } else {
                Combination {
                    tail: c.tail,
                    terms: insert_term(c.terms, Fraction::from_int(1), Expr::Pow(Box::new(t), e)),
                }
            },
            _ => Combination { tail: c.tail, terms: insert_term(c.terms, e, t) },
        }
    }
}

/// The product collected from a rational tail and the first `n`
/// contributions.
pub open spec fn prod_collect(
    tail: Fraction,
    contributions: Seq<(Fraction, Expr)>,
    n: nat,
) -> Combination
    decreases n,
{
    if n == 0 {
        Combination { tail, terms: Seq::empty() }
    } else {
        prod_absorb(
            prod_collect(tail, contributions, (n - 1) as nat),
            contributions[n - 1].0,
            contributions[n - 1].1,
        )
    }
}

/// The expression for a collected product: the tail alone when no term is
/// left.
pub open spec fn prod_node(c: Combination) -> Expr {
    if c.terms.len() == 0 {
        Expr::Rat(c.tail)
    } else {
        Expr::Prod(c.tail, c.terms)
    }
}

/// The canonical product of a rational tail and contributions raised to
/// exponents.
pub open spec fn build_prod(tail: Fraction, contributions: Seq<(Fraction, Expr)>) -> Expr {
    prod_node(prod_collect(tail, contributions, contributions.len()))
}

/// The canonical form of `base ^ e`: one for the exponent zero, the base
/// for the exponent one, a single power where a power is raised to a power
/// and both exponents are whole numbers.
pub open spec fn build_pow(base: Expr, e: Fraction) -> Expr {
    if e.num == 0 {
        Expr::Rat(Fraction::from_int(1))
    } else if e == Fraction::from_int(1) {
        base
    } else {
        match base {
            Expr::Pow(inner, a) => if a.den == 1 && e.den == 1 {
                if a.mul(e) == Fraction::from_int(1) {
                    *inner
                } else {
                    Expr::Pow(inner, a.mul(e))
                }
            } else {
                Expr::Pow(Box::new(base), e)
            },
            _ => Expr::Pow(Box::new(base), e),
        }
    }
}

/// A position that splits a list into the terms before `t` and the rest is
/// the count of the terms before `t`.
pub proof fn lemma_count_below(terms: Seq<(Fraction, Expr)>, t: Expr, k: int)
    requires
        0 <= k <= terms.len(),
        forall|i: int| 0 <= i < k ==> (#[trigger] terms[i]).1.order(t) < 0,
        forall|i: int| k <= i < terms.len() ==> (#[trigger] terms[i]).1.order(t) >= 0,
    ensures
        count_below(terms, t) == k,
    decreases terms.len(),
{
    if terms.len() > 0 {
        let rest = terms.drop_last();
        assert(forall|i: int| 0 <= i < rest.len() ==> rest[i] == terms[i]);
        if k == terms.len() {
            assert(terms.last() == terms[k - 1]);
            lemma_count_below(rest, t, k - 1);
        } else {
            assert(terms.last() == terms[terms.len() - 1]);
            lemma_count_below(rest, t, k);
        }
    }
}

/// In a canonical term list the terms before `t` are exactly those at the
/// positions below `count_below(terms, t)`.
pub proof fn lemma_sorted_split(terms: Seq<(Fraction, Expr)>, t: Expr, of_sum: bool)
    requires
        terms_canonical(terms, of_sum),
        t.canonical(),
    ensures
        count_below(terms, t) <= terms.len(),
        forall|i: int|
            0 <= i < count_below(terms, t) ==> (#[trigger] terms[i]).1.order(t) < 0,
        forall|i: int|
            count_below(terms, t) <= i < terms.len() ==> (#[trigger] terms[i]).1.order(t) >= 0,
        forall|i: int|
            count_below(terms, t) < i < terms.len() ==> (#[trigger] terms[i]).1.order(t) > 0,
    decreases terms.len(),
{
    if terms.len() > 0 {
        let n = terms.len() as int;
        let rest = terms.drop_last();
        assert(forall|i: int| 0 <= i < rest.len() ==> rest[i] == terms[i]);
        assert(terms.last() == terms[n - 1]);
        assert(terms_canonical(rest, of_sum));
        lemma_sorted_split(rest, t, of_sum);
        let k = count_below(terms, t) as int;
        if terms[n - 1].1.order(t) < 0 {
            assert forall|i: int| 0 <= i < n implies (#[trigger] terms[i]).1.order(t) < 0 by {
                if i < n - 1 {
                    lemma_order_transitive(terms[i].1, terms[n - 1].1, t);
                }
            }
            lemma_count_below(terms, t, n);
        } else {
            assert forall|i: int| k < i < n implies (#[trigger] terms[i]).1.order(t) > 0 by {
                // terms[k] does not come before t, and terms[i] comes after terms[k]
                if terms[i].1.order(t) <= 0 {
                    lemma_order_antisymmetric(terms[i].1, t);
                    lemma_order_antisymmetric(terms[k].1, t);
                    if terms[i].1.order(t) == 0 {
                        lemma_order_zero(terms[i].1, t);
                    } else if terms[k].1.order(t) == 0 {
                        lemma_order_zero(terms[k].1, t);
                        lemma_order_antisymmetric(terms[k].1, terms[i].1);
                    } else {
                        lemma_order_antisymmetric(terms[k].1, terms[i].1);
                        lemma_order_transitive(terms[k].1, terms[i].1, t);
                    }
                }
            }
        }
    }
}

/// Merging a canonical term into a canonical term list leaves a canonical
/// term list: its terms stay strictly increasing, with nonzero weights in
/// lowest terms.
pub proof fn lemma_insert_term_canonical(
    terms: Seq<(Fraction, Expr)>,
    w: Fraction,
    t: Expr,
    of_sum: bool,
)
    requires
        terms_canonical(terms, of_sum),
        w.reduced(),
        t.canonical(),
        if of_sum {
            t.is_sum_term()
        } else {
            t.is_prod_term()
        },
    ensures
        terms_canonical(insert_term(terms, w, t), of_sum),
{
    let r = insert_term(terms, w, t);
    lemma_sorted_split(terms, t, of_sum);
    let k = count_below(terms, t) as int;
    if w.num == 0 {
    } else if k < terms.len() && terms[k].1 == t {
        lemma_value_add(terms[k].0, w);
        assert forall|i: int, j: int| 0 <= i < j < r.len() implies (#[trigger] r[i]).1.order(
            (#[trigger] r[j]).1,
        ) < 0 by {
            if terms[k].0.add(w).num == 0 {
                let i0 = if i < k {
                    i
                } else {
                    i + 1
                };
                let j0 = if j < k {
                    j
                } else {
                    j + 1
                };
                assert(r[i] == terms[i0] && r[j] == terms[j0]);
            } else {
                assert(r[i].1 == terms[i].1 && r[j].1 == terms[j].1);
            }
        }
        assert forall|i: int| 0 <= i < r.len() implies {
            &&& (#[trigger] r[i]).0.reduced()
            &&& r[i].0.num != 0
            &&& r[i].1.canonical()
            &&& if of_sum {
                r[i].1.is_sum_term()
            } else {
                r[i].1.is_prod_term()
            }
        } by {
            if terms[k].0.add(w).num == 0 {
                let i0 = if i < k {
                    i
                } else {
                    i + 1
                };
                assert(r[i] == terms[i0]);
            } else if i != k {
                assert(r[i] == terms[i]);
            }
        }
    } else {
        assert forall|i: int, j: int| 0 <= i < j < r.len() implies (#[trigger] r[i]).1.order(
            (#[trigger] r[j]).1,
        ) < 0 by {
            let i0 = if i < k {
                i
            } else {
                i - 1
            };
            let j0 = if j < k {
                j
            } else {
                j - 1
            };
            if i == k {
                assert(r[j] == terms[j0]);
                lemma_order_antisymmetric(terms[j0].1, t);
                if terms[j0].1.order(t) == 0 {
                    lemma_order_zero(terms[j0].1, t);
                    if j0 > k {
                        assert(terms[k].1.order(terms[j0].1) < 0);
                    }
                }
            } else if j == k {
                assert(r[i] == terms[i0]);
            } else {
                assert(r[i] == terms[i0] && r[j] == terms[j0]);
            }
        }
        assert forall|i: int| 0 <= i < r.len() implies {
            &&& (#[trigger] r[i]).0.reduced()
            &&& r[i].0.num != 0
            &&& r[i].1.canonical()
            &&& if of_sum {
                r[i].1.is_sum_term()
            } else {
                r[i].1.is_prod_term()
            }
        } by {
            if i < k {
                assert(r[i] == terms[i]);
            } else if i > k {
                assert(r[i] == terms[i - 1]);
            }
        }
    }
}

/// Merging the scaled terms of a canonical list into a canonical list
/// leaves a canonical list.
pub proof fn lemma_insert_scaled_canonical(
    terms: Seq<(Fraction, Expr)>,
    w: Fraction,
    ts: Seq<(Fraction, Expr)>,
    n: nat,
    of_sum: bool,
)
    requires
        terms_canonical(terms, of_sum),
        terms_canonical(ts, of_sum),
        w.reduced(),
        n <= ts.len(),
    ensures
        terms_canonical(insert_scaled(terms, w, ts, n), of_sum),
    decreases n,
{
    if n > 0 {
        lemma_insert_scaled_canonical(terms, w, ts, (n - 1) as nat, of_sum);
        lemma_value_mul(w, ts[n - 1].0);
        lemma_insert_term_canonical(
            insert_scaled(terms, w, ts, (n - 1) as nat),
            w.mul(ts[n - 1].0),
            ts[n - 1].1,
            of_sum,
        );
    }
}

/// A contribution to a sum keeps the collected sum canonical.
pub proof fn lemma_sum_absorb_canonical(c: Combination, w: Fraction, t: Expr)
    requires
        c.tail.reduced(),
        terms_canonical(c.terms, true),
        w.reduced(),
        t.canonical(),
    ensures
        sum_absorb(c, w, t).tail.reduced(),
        terms_canonical(sum_absorb(c, w, t).terms, true),
{
    match t {
        Expr::Rat(q) => {
            lemma_value_mul(w, q);
            lemma_value_add(c.tail, w.mul(q));
        },
        Expr::Sum(r, ts) => {
            lemma_value_mul(w, r);
            lemma_value_add(c.tail, w.mul(r));
            lemma_insert_scaled_canonical(c.terms, w, ts, ts.len(), true);
        },
        _ => {
            lemma_insert_term_canonical(c.terms, w, t, true);
        },
    }
}

/// A whole power of a fraction in lowest terms is in lowest terms.
pub proof fn lemma_integer_power_reduced(q: Fraction, e: Fraction)
    requires
        q.reduced(),
        q.num != 0 || e.num > 0,
    ensures
        integer_power(q, e).reduced(),
{
    if e.num >= 0 {
        lemma_pow_reduced(q, e.num as nat);
    } else {
        lemma_value_inv(q);
        lemma_pow_reduced(q.inv(), (-e.num) as nat);
    }
}

/// A contribution to a product keeps the collected product canonical.
pub proof fn lemma_prod_absorb_canonical(c: Combination, e: Fraction, t: Expr)
    requires
        c.tail.reduced(),
        terms_canonical(c.terms, false),
        e.reduced(),
        t.canonical(),
    ensures
        prod_absorb(c, e, t).tail.reduced(),
        terms_canonical(prod_absorb(c, e, t).terms, false),
{
    let one = Fraction::from_int(1);
    lemma_from_int_reduced(1);
    if e.num == 0 {
    } else {
        match t {
            Expr::Rat(q) => {
                if can_fold_power(q, e) {
                    lemma_integer_power_reduced(q, e);
                    lemma_value_mul(c.tail, integer_power(q, e));
                } else {
                    lemma_insert_term_canonical(c.terms, one, Expr::Pow(Box::new(t), e), false);
                }
            },
            Expr::Prod(r, ts) => {
                if can_fold_power(r, e) {
                    lemma_integer_power_reduced(r, e);
                    lemma_value_mul(c.tail, integer_power(r, e));
                    lemma_insert_scaled_canonical(c.terms, e, ts, ts.len(), false);
                } else {
                    lemma_insert_term_canonical(c.terms, one, Expr::Pow(Box::new(t), e), false);
                }
            },
            _ => {
                lemma_insert_term_canonical(c.terms, e, t, false);
            },
        }
    }
}

/// Every collected sum is canonical.
pub proof fn lemma_sum_collect_canonical(
    tail: Fraction,
    contributions: Seq<(Fraction, Expr)>,
    n: nat,
)
    requires
        tail.reduced(),
        n <= contributions.len(),
        forall|i: int|
            0 <= i < contributions.len() ==> (#[trigger] contributions[i]).0.reduced()
                && contributions[i].1.canonical(),
    ensures
        sum_collect(tail, contributions, n).tail.reduced(),
        terms_canonical(sum_collect(tail, contributions, n).terms, true),
        sum_node(sum_collect(tail, contributions, n)).canonical(),
    decreases n,
{
    if n > 0 {
        lemma_sum_collect_canonical(tail, contributions, (n - 1) as nat);
        lemma_sum_absorb_canonical(
            sum_collect(tail, contributions, (n - 1) as nat),
            contributions[n - 1].0,
            contributions[n - 1].1,
        );
    }
}

/// Every collected product is canonical.
pub proof fn lemma_prod_collect_canonical(
    tail: Fraction,
    contributions: Seq<(Fraction, Expr)>,
    n: nat,
)
    requires
        tail.reduced(),
        n <= contributions.len(),
        forall|i: int|
            0 <= i < contributions.len() ==> (#[trigger] contributions[i]).0.reduced()
                && contributions[i].1.canonical(),
    ensures
        prod_collect(tail, contributions, n).tail.reduced(),
        terms_canonical(prod_collect(tail, contributions, n).terms, false),
        prod_node(prod_collect(tail, contributions, n)).canonical(),
    decreases n,
{
    if n > 0 {
        lemma_prod_collect_canonical(tail, contributions, (n - 1) as nat);
        lemma_prod_absorb_canonical(
            prod_collect(tail, contributions, (n - 1) as nat),
            contributions[n - 1].0,
            contributions[n - 1].1,
        );
    }
}

/// The canonical form of a power of a canonical expression is canonical.
pub proof fn lemma_build_pow_canonical(base: Expr, e: Fraction)
    requires
        base.canonical(),
        e.reduced(),
    ensures
        build_pow(base, e).canonical(),
{
    lemma_from_int_reduced(1);
    if e.num != 0 && e != Fraction::from_int(1) {
        match base {
            Expr::Pow(inner, a) => {
                if a.den == 1 && e.den == 1 {
                    lemma_value_mul(a, e);
                    lemma_sign_of_value(a);
                    lemma_sign_of_value(e);
                    lemma_sign_of_value(a.mul(e));
                    let x = a.value();
                    let y = e.value();
                    assert(x * y != 0real) by (nonlinear_arith)
                        requires
                            x != 0real,
                            y != 0real,
                    ;
                }
            },
            _ => {},
        }
    }
}

} // verus!
