//! The mathematical model of an expression tree, the total order on
//! expressions, and what it means for an expression to be in canonical form.

use crate::byzantine::TransitiveConsts;
use crate::fraction::{lemma_reduced_unique, lemma_value_order, Fraction};
use vstd::prelude::*;

verus! {

/// An expression over rationals, named constants, sums, products and powers.
pub enum Expr {
    /// A rational number.
    Rat(Fraction),
    /// A named constant.
    Const(TransitiveConsts),
    /// `tail + sum of weight * term`.
    Sum(Fraction, Seq<(Fraction, Expr)>),
    /// `tail * product of term ^ weight`.
    Prod(Fraction, Seq<(Fraction, Expr)>),
    /// `base ^ exponent`.
    Pow(Box<Expr>, Fraction),
}

/// `-1`, `0` or `1` as `x` is negative, zero or positive.
pub open spec fn sign_of(x: int) -> int {
    if x < 0 {
        -1
    } else if x == 0 {
        0
    } else {
        1
    }
}

/// The order of two fractions by value: `-1`, `0` or `1`.
pub open spec fn fraction_order(a: Fraction, b: Fraction) -> int {
    if a.lt(b) {
        -1
    } else if a.eqv(b) {
        0
    } else {
        1
    }
}

/// The position of a constant in the order of constants.
pub open spec fn const_rank(c: TransitiveConsts) -> int {
    match c {
        TransitiveConsts::Pi => 0,
        TransitiveConsts::Euler => 1,
    }
}

impl Expr {
    /// The number that identifies the kind of the expression; expressions
    /// of different kinds are ordered by it.
    pub open spec fn rank(self) -> int {
        match self {
            Expr::Const(_) => 0,
            Expr::Sum(_, _) => 1,
            Expr::Prod(_, _) => 2,
            Expr::Pow(_, _) => 3,
            Expr::Rat(_) => 4,
        }
    }

    /// The total order on expressions: `-1`, `0` or `1` as `self` comes
    /// before, equals or comes after `other`. Kinds are compared first;
    /// within a kind, rationals go by value, constants by name, sums and
    /// products by their term lists and then their rational tails, powers by
    /// base and then exponent.
    pub open spec fn order(self, other: Expr) -> int
        decreases self, 0int,
    {
        match (self, other) {
            (Expr::Rat(p), Expr::Rat(q)) => fraction_order(p, q),
            (Expr::Const(c), Expr::Const(d)) => sign_of(const_rank(c) - const_rank(d)),
            (Expr::Sum(r, s), Expr::Sum(q, t)) => {
                let o = terms_order_from(s, t, 0);
                if o != 0 {
                    o
                } else {
                    fraction_order(r, q)
                }
            },
            (Expr::Prod(r, s), Expr::Prod(q, t)) => {
                let o = terms_order_from(s, t, 0);
                if o != 0 {
                    o
                } else {
                    fraction_order(r, q)
                }
            },
            (Expr::Pow(b, e), Expr::Pow(c, f)) => {
                let o = b.order(*c);
                if o != 0 {
                    o
                } else {
                    fraction_order(e, f)
                }
            },
            _ => sign_of(self.rank() - other.rank()),
        }
    }

    /// The expression may stand as a term of a sum: it is neither a rational
    /// nor itself a sum.
    pub open spec fn is_sum_term(self) -> bool {
        !(self is Rat) && !(self is Sum)
    }

    /// The expression may stand as a term of a product: it is neither a
    /// rational nor itself a product.
    pub open spec fn is_prod_term(self) -> bool {
        !(self is Rat) && !(self is Prod)
    }

    /// The expression is in canonical form: every rational is in lowest
    /// terms; sums and products have a nonempty list of terms with nonzero
    /// weights, strictly increasing in the order on expressions, none a
    /// rational or of the same kind as its parent; no power has the exponent
    /// zero or one.
    pub open spec fn canonical(self) -> bool
        decreases self, 0int,
    {
        match self {
            Expr::Rat(q) => q.reduced(),
            Expr::Const(_) => true,
            Expr::Sum(r, terms) => r.reduced() && terms.len() > 0 && terms_canonical(terms, true),
            Expr::Prod(r, terms) => r.reduced() && terms.len() > 0 && terms_canonical(terms, false),
            Expr::Pow(base, e) => base.canonical() && e.reduced() && e.num != 0 && e
                != Fraction::from_int(1),
        }
    }
}

/// The order of two term lists from position `i` on: term by term, weight
/// before expression, and the shorter list first when one is a prefix of
/// the other.
pub open spec fn terms_order_from(
    s: Seq<(Fraction, Expr)>,
    t: Seq<(Fraction, Expr)>,
    i: nat,
) -> int
    decreases s, s.len() - i,
{
    if i >= s.len() {
        if i >= t.len() {
            0
        } else {
            -1
        }
    } else if i >= t.len() {
        1
    } else {
        let o = fraction_order(s[i as int].0, t[i as int].0);
        if o != 0 {
            o
        } else {
            let n = s[i as int].1.order(t[i as int].1);
            if n != 0 {
                n
            } else {
                terms_order_from(s, t, i + 1)
            }
        }
    }
}

/// The expressions of the terms are strictly increasing.
pub open spec fn sorted(terms: Seq<(Fraction, Expr)>) -> bool {
    forall|i: int, j: int|
        0 <= i < j < terms.len() ==> (#[trigger] terms[i]).1.order((#[trigger] terms[j]).1) < 0
}

/// The term list of a sum (`of_sum`) or of a product in canonical form,
/// which may be empty.
pub open spec fn terms_canonical(terms: Seq<(Fraction, Expr)>, of_sum: bool) -> bool
    decreases terms, 1int,
{
    &&& forall|i: int|
        0 <= i < terms.len() ==> {
            &&& (#[trigger] terms[i]).0.reduced()
            &&& terms[i].0.num != 0
            &&& terms[i].1.canonical()
            &&& if of_sum {
                terms[i].1.is_sum_term()
            } else {
                terms[i].1.is_prod_term()
            }
        }
    &&& sorted(terms)
}

/// Every weight is in lowest terms and every expression canonical, which is
/// what comparing two term lists takes.
pub open spec fn terms_comparable(terms: Seq<(Fraction, Expr)>) -> bool {
    forall|i: int|
        0 <= i < terms.len() ==> (#[trigger] terms[i]).0.reduced() && terms[i].1.canonical()
}

/// What canonical form says of the parts of an expression.
pub proof fn lemma_canonical_parts(e: Expr)
    requires
        e.canonical(),
    ensures
        match e {
            Expr::Rat(q) => q.reduced(),
            Expr::Const(_) => true,
            Expr::Sum(r, ts) => r.reduced() && ts.len() > 0 && terms_canonical(ts, true)
                && terms_comparable(ts),
            Expr::Prod(r, ts) => r.reduced() && ts.len() > 0 && terms_canonical(ts, false)
                && terms_comparable(ts),
            Expr::Pow(b, x) => b.canonical() && x.reduced() && x.num != 0 && x
                != Fraction::from_int(1),
        },
{
}

/// The order of two fractions is the order of their values.
pub proof fn lemma_fraction_order(a: Fraction, b: Fraction)
    requires
        a.wf(),
        b.wf(),
    ensures
        fraction_order(a, b) < 0 <==> a.value() < b.value(),
        fraction_order(a, b) == 0 <==> a.value() == b.value(),
        fraction_order(a, b) > 0 <==> a.value() > b.value(),
        a.reduced() && b.reduced() && fraction_order(a, b) == 0 ==> a == b,
{
    lemma_value_order(a, b);
    if a.reduced() && b.reduced() && a.eqv(b) {
        lemma_reduced_unique(a, b);
    }
}

/// Every expression equals itself in the order.
pub proof fn lemma_order_reflexive(a: Expr)
    ensures
        a.order(a) == 0,
    decreases a, 0int,
{
    match a {
        Expr::Rat(_) => {},
        Expr::Const(_) => {},
        Expr::Sum(_, s) => {
            lemma_terms_order_reflexive(s, 0);
        },
        Expr::Prod(_, s) => {
            lemma_terms_order_reflexive(s, 0);
        },
        Expr::Pow(b, _) => {
            lemma_order_reflexive(*b);
        },
    }
}

/// Every term list equals itself in the order.
pub proof fn lemma_terms_order_reflexive(s: Seq<(Fraction, Expr)>, i: nat)
    ensures
        terms_order_from(s, s, i) == 0,
    decreases s, s.len() - i,
{
    if i < s.len() {
        lemma_order_reflexive(s[i as int].1);
        lemma_terms_order_reflexive(s, i + 1);
    }
}

/// Swapping the two sides reverses the order.
pub proof fn lemma_order_antisymmetric(a: Expr, b: Expr)
    ensures
        a.order(b) == -b.order(a),
    decreases a, 0int,
{
    match (a, b) {
        (Expr::Sum(_, s), Expr::Sum(_, t)) => {
            lemma_terms_order_antisymmetric(s, t, 0);
        },
        (Expr::Prod(_, s), Expr::Prod(_, t)) => {
            lemma_terms_order_antisymmetric(s, t, 0);
        },
        (Expr::Pow(x, _), Expr::Pow(y, _)) => {
            lemma_order_antisymmetric(*x, *y);
        },
        _ => {},
    }
}

/// Swapping two term lists reverses their order.
pub proof fn lemma_terms_order_antisymmetric(
    s: Seq<(Fraction, Expr)>,
    t: Seq<(Fraction, Expr)>,
    i: nat,
)
    ensures
        terms_order_from(s, t, i) == -terms_order_from(t, s, i),
    decreases s, s.len() - i,
{
    if i < s.len() && i < t.len() {
        lemma_order_antisymmetric(s[i as int].1, t[i as int].1);
        lemma_terms_order_antisymmetric(s, t, i + 1);
    }
}

/// Two canonical expressions that the order does not tell apart are the
/// same expression.
pub proof fn lemma_order_zero(a: Expr, b: Expr)
    requires
        a.canonical(),
        b.canonical(),
        a.order(b) == 0,
    ensures
        a == b,
    decreases a, 0int,
{
    match (a, b) {
        (Expr::Rat(p), Expr::Rat(q)) => {
            lemma_fraction_order(p, q);
        },
        (Expr::Const(_), Expr::Const(_)) => {},
        (Expr::Sum(r, s), Expr::Sum(q, t)) => {
            lemma_terms_order_zero(s, t, 0, true);
            lemma_fraction_order(r, q);
            assert(s =~= t);
        },
        (Expr::Prod(r, s), Expr::Prod(q, t)) => {
            lemma_terms_order_zero(s, t, 0, false);
            lemma_fraction_order(r, q);
            assert(s =~= t);
        },
        (Expr::Pow(x, e), Expr::Pow(y, f)) => {
            lemma_order_zero(*x, *y);
            lemma_fraction_order(e, f);
        },
        _ => {},
    }
}

/// Two canonical term lists that the order does not tell apart from
/// position `i` on agree from there on.
pub proof fn lemma_terms_order_zero(
    s: Seq<(Fraction, Expr)>,
    t: Seq<(Fraction, Expr)>,
    i: nat,
    of_sum: bool,
)
    requires
        terms_canonical(s, of_sum),
        terms_canonical(t, of_sum),
        i <= s.len(),
        i <= t.len(),
        terms_order_from(s, t, i) == 0,
    ensures
        s.len() == t.len(),
        forall|j: int| i <= j < s.len() ==> s[j] == t[j],
    decreases s, s.len() - i,
{
    if i < s.len() && i < t.len() {
        lemma_fraction_order(s[i as int].0, t[i as int].0);
        lemma_order_zero(s[i as int].1, t[i as int].1);
        lemma_terms_order_zero(s, t, i + 1, of_sum);
    }
}

/// The order on canonical expressions is transitive.
pub proof fn lemma_order_transitive(a: Expr, b: Expr, c: Expr)
    requires
        a.canonical(),
        b.canonical(),
        c.canonical(),
        a.order(b) < 0,
        b.order(c) < 0,
    ensures
        a.order(c) < 0,
    decreases a, 0int,
{
    match (a, b, c) {
        (Expr::Rat(p), Expr::Rat(q), Expr::Rat(r)) => {
            lemma_fraction_order(p, q);
            lemma_fraction_order(q, r);
            lemma_fraction_order(p, r);
        },
        (Expr::Sum(r1, s), Expr::Sum(r2, t), Expr::Sum(r3, u)) => {
            lemma_tailed_order_transitive(r1, s, r2, t, r3, u, true);
        },
        (Expr::Prod(r1, s), Expr::Prod(r2, t), Expr::Prod(r3, u)) => {
            lemma_tailed_order_transitive(r1, s, r2, t, r3, u, false);
        },
        (Expr::Pow(x, e), Expr::Pow(y, f), Expr::Pow(z, g)) => {
            lemma_fraction_order(e, f);
            lemma_fraction_order(f, g);
            lemma_fraction_order(e, g);
            let o1 = x.order(*y);
            let o2 = y.order(*z);
            if o1 == 0 {
                lemma_order_zero(*x, *y);
            }
            if o2 == 0 {
                lemma_order_zero(*y, *z);
            }
            if o1 < 0 && o2 < 0 {
                lemma_order_transitive(*x, *y, *z);
            }
            if o1 == 0 && o2 == 0 {
                lemma_order_reflexive(*x);
            }
        },
        _ => {},
    }
}

/// Transitivity for two sums or two products: term lists first, rational
/// tails second.
pub proof fn lemma_tailed_order_transitive(
    r1: Fraction,
    s: Seq<(Fraction, Expr)>,
    r2: Fraction,
    t: Seq<(Fraction, Expr)>,
    r3: Fraction,
    u: Seq<(Fraction, Expr)>,
    of_sum: bool,
)
    requires
        r1.reduced(),
        r2.reduced(),
        r3.reduced(),
        terms_canonical(s, of_sum),
        terms_canonical(t, of_sum),
        terms_canonical(u, of_sum),
        terms_order_from(s, t, 0) < 0 || (terms_order_from(s, t, 0) == 0 && fraction_order(r1, r2)
            < 0),
        terms_order_from(t, u, 0) < 0 || (terms_order_from(t, u, 0) == 0 && fraction_order(r2, r3)
            < 0),
    ensures
        terms_order_from(s, u, 0) < 0 || (terms_order_from(s, u, 0) == 0 && fraction_order(r1, r3)
            < 0),
    decreases s, s.len() + 1,
{
    lemma_fraction_order(r1, r2);
    lemma_fraction_order(r2, r3);
    lemma_fraction_order(r1, r3);
    let o1 = terms_order_from(s, t, 0);
    let o2 = terms_order_from(t, u, 0);
    if o1 == 0 {
        lemma_terms_order_zero(s, t, 0, of_sum);
        assert(s =~= t);
    }
    if o2 == 0 {
        lemma_terms_order_zero(t, u, 0, of_sum);
        assert(t =~= u);
    }
    if o1 < 0 && o2 < 0 {
        lemma_terms_order_transitive(s, t, u, 0, of_sum);
    }
    if o1 == 0 && o2 == 0 {
        lemma_terms_order_reflexive(s, 0);
    }
}

/// The order on canonical term lists is transitive.
pub proof fn lemma_terms_order_transitive(
    s: Seq<(Fraction, Expr)>,
    t: Seq<(Fraction, Expr)>,
    u: Seq<(Fraction, Expr)>,
    i: nat,
    of_sum: bool,
)
    requires
        terms_canonical(s, of_sum),
        terms_canonical(t, of_sum),
        terms_canonical(u, of_sum),
        terms_order_from(s, t, i) < 0,
        terms_order_from(t, u, i) < 0,
    ensures
        terms_order_from(s, u, i) < 0,
    decreases s, s.len() - i,
{
    if i < s.len() {
        let k = i as int;
        lemma_fraction_order(s[k].0, t[k].0);
        lemma_fraction_order(t[k].0, u[k].0);
        lemma_fraction_order(s[k].0, u[k].0);
        let f1 = fraction_order(s[k].0, t[k].0);
        let f2 = fraction_order(t[k].0, u[k].0);
        if f1 == 0 && f2 == 0 {
            let g1 = s[k].1.order(t[k].1);
            let g2 = t[k].1.order(u[k].1);
            if g1 == 0 {
                lemma_order_zero(s[k].1, t[k].1);
            }
            if g2 == 0 {
                lemma_order_zero(t[k].1, u[k].1);
            }
            if g1 < 0 && g2 < 0 {
                lemma_order_transitive(s[k].1, t[k].1, u[k].1);
            }
            if g1 == 0 && g2 == 0 {
                lemma_order_reflexive(s[k].1);
                lemma_terms_order_transitive(s, t, u, i + 1, of_sum);
            }
        }
    }
}

} // verus!
