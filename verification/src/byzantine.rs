//! Expression trees over rationals, the constants pi and e, sums, products
//! and rational powers.

use crate::byznode_sorted_vec::{ByzNodeCoefficientAddVec, ByzNodePowerMulVec};
use crate::expr::{
    lemma_canonical_parts, lemma_order_reflexive, lemma_order_zero, terms_comparable,
    terms_order_from, Expr,
};
use crate::fraction::Fraction;
use crate::rational::Rational;
use std::cmp::Ordering;
use std::rc::Rc;
use vstd::prelude::*;

verus! {

/// The transcendental constants that an expression can name.
#[derive(PartialEq, Eq, PartialOrd, Ord, Debug, Clone, Copy, Structural)]
pub enum TransitiveConsts {
    Pi,
    Euler,
}

/// A node of an expression tree.
pub enum ByzNode {
    /// A rational number.
    Rational { rational: Rational },
    /// One of the named constants.
    TransitiveConst { transitive_const: TransitiveConsts },
    /// A rational plus a sum of weighted terms.
    Add { addends: ByzNodeCoefficientAddVec },
    /// A rational times a product of terms raised to rational exponents.
    Mul { products: ByzNodePowerMulVec },
    /// A node raised to a rational exponent.
    Pow { base: Rc<ByzNode>, exp: Rational },
}

/// The model of a list of weighted terms.
pub open spec fn terms_view(terms: Seq<(Rational, Rc<ByzNode>)>) -> Seq<(Fraction, Expr)>
    decreases terms, 0int,
{
    Seq::new(
        terms.len(),
        |i: int|
            if 0 <= i < terms.len() {
                (terms[i].0@, node_view(*terms[i].1))
            } else {
                arbitrary()
            },
    )
}

/// The model of a node.
pub open spec fn node_view(node: ByzNode) -> Expr
    decreases node, 1int,
{
    match node {
        ByzNode::Rational { rational } => Expr::Rat(rational@),
        ByzNode::TransitiveConst { transitive_const } => Expr::Const(transitive_const),
        ByzNode::Add { addends } => Expr::Sum(addends.rational_part@, terms_view(addends.vec@)),
        ByzNode::Mul { products } => Expr::Prod(products.rational_part@, terms_view(products.vec@)),
        ByzNode::Pow { base, exp } => Expr::Pow(Box::new(node_view(*base)), exp@),
    }
}

impl View for ByzNode {
    type V = Expr;

    /// The expression that the node stands for.
    open spec fn view(&self) -> Expr {
        node_view(*self)
    }
}

/// `-1`, `0` or `1` for `Less`, `Equal` or `Greater`.
pub open spec fn ordering_sign(o: Ordering) -> int {
    match o {
        Ordering::Less => -1,
        Ordering::Equal => 0,
        Ordering::Greater => 1,
    }
}

/// The `Ordering` for a sign.
pub fn ordering_from_sign(sign: i8) -> (r: Ordering)
    requires
        -1 <= sign <= 1,
    ensures
        ordering_sign(r) == sign,
{
    if sign < 0 {
        Ordering::Less
    } else if sign == 0 {
        Ordering::Equal
    } else {
        Ordering::Greater
    }
}

/// The order of two canonical nodes as a sign: negative, zero or positive
/// as `a` comes before, equals or comes after `b`.
pub fn node_order(a: &ByzNode, b: &ByzNode) -> (r: i8)
    requires
        a@.canonical(),
        b@.canonical(),
    ensures
        r == a@.order(b@),
        -1 <= r <= 1,
    decreases a, 0int,
{
    proof {
        lemma_canonical_parts(a@);
        lemma_canonical_parts(b@);
    }
    match (a, b) {
        (ByzNode::Rational { rational: p }, ByzNode::Rational { rational: q }) => { p.order(q) },
        (
            ByzNode::TransitiveConst { transitive_const: c },
            ByzNode::TransitiveConst { transitive_const: d },
        ) => {
            match (c, d) {
                (TransitiveConsts::Pi, TransitiveConsts::Euler) => -1,
                (TransitiveConsts::Euler, TransitiveConsts::Pi) => 1,
                _ => 0,
            }
        },
        (ByzNode::Add { addends: x }, ByzNode::Add { addends: y }) => {
            let o = terms_order(&x.vec, &y.vec, 0);
            if o != 0 {
                o
            } else {
                x.rational_part.order(&y.rational_part)
            }
        },
        (ByzNode::Mul { products: x }, ByzNode::Mul { products: y }) => {
            let o = terms_order(&x.vec, &y.vec, 0);
            if o != 0 {
                o
            } else {
                x.rational_part.order(&y.rational_part)
            }
        },
        (ByzNode::Pow { base: x, exp: e }, ByzNode::Pow { base: y, exp: f }) => {
            let o = node_order(x, y);
            if o != 0 {
                o
            } else {
                e.order(f)
            }
        },
        _ => {
            let i = a.to_identifying_type_int();
            let j = b.to_identifying_type_int();
            if i < j {
                -1
            } else if i == j {
                0
            } else {
                1
            }
        },
    }
}

/// The order of two term lists from position `i` on, as a sign.
pub fn terms_order(
    s: &Vec<(Rational, Rc<ByzNode>)>,
    t: &Vec<(Rational, Rc<ByzNode>)>,
    i: usize,
) -> (r: i8)
    requires
        terms_comparable(terms_view(s@)),
        terms_comparable(terms_view(t@)),
    ensures
        r == terms_order_from(terms_view(s@), terms_view(t@), i as nat),
        -1 <= r <= 1,
    decreases s, s.len() - i,
{
    if i >= s.len() {
        if i >= t.len() {
            0
        } else {
            -1
        }
    } else if i >= t.len() {
        1
    } else {
        proof {
            let k = i as int;
            assert(terms_view(s@)[k] == (s@[k].0@, node_view(*s@[k].1)));
            assert(terms_view(t@)[k] == (t@[k].0@, node_view(*t@[k].1)));
        }
        let o = s[i].0.order(&t[i].0);
        if o != 0 {
            o
        } else {
            let n = node_order(&s[i].1, &t[i].1);
            if n != 0 {
                n
            } else {
                terms_order(s, t, i + 1)
            }
        }
    }
}

/// `Rc::clone`: another handle to the same value.
#[verifier::external_body]
pub(crate) fn rc_clone<T>(x: &Rc<T>) -> (r: Rc<T>)
    ensures
        *r == **x,
{
    Rc::clone(x)
}

/// A copy of a term list that shares the nodes of the terms.
pub fn clone_terms(v: &Vec<(Rational, Rc<ByzNode>)>) -> (r: Vec<(Rational, Rc<ByzNode>)>)
    ensures
        terms_view(r@) == terms_view(v@),
{
    let mut r: Vec<(Rational, Rc<ByzNode>)> = Vec::new();
    let mut i: usize = 0;
    while i < v.len()
        invariant
            0 <= i <= v.len(),
            r.len() == i,
            forall|j: int|
                0 <= j < i ==> (#[trigger] r@[j]).0@ == v@[j].0@ && node_view(*r@[j].1)
                    == node_view(*v@[j].1),
        decreases v.len() - i,
    {
        r.push((v[i].0.clone(), rc_clone(&v[i].1)));
        i = i + 1;
    }
    proof {
        assert(terms_view(r@) =~= terms_view(v@));
    }
    r
}

impl Clone for ByzNode {
    /// A copy of the node that shares the nodes below it.
    fn clone(&self) -> (r: ByzNode)
        ensures
            r@ == self@,
    {
        match self {
            ByzNode::Rational { rational } => ByzNode::Rational { rational: rational.clone() },
            ByzNode::TransitiveConst { transitive_const } => ByzNode::TransitiveConst {
                transitive_const: *transitive_const,
            },
            ByzNode::Add { addends } => ByzNode::Add {
                addends: ByzNodeCoefficientAddVec {
                    rational_part: addends.rational_part.clone(),
                    vec: clone_terms(&addends.vec),
                },
            },
            ByzNode::Mul { products } => ByzNode::Mul {
                products: ByzNodePowerMulVec {
                    rational_part: products.rational_part.clone(),
                    vec: clone_terms(&products.vec),
                },
            },
            ByzNode::Pow { base, exp } => ByzNode::Pow { base: rc_clone(base), exp: exp.clone() },
        }
    }
}

impl ByzNode {
    /// The node is in canonical form.
    pub open spec fn wf(&self) -> bool {
        self@.canonical()
    }

    /// The number that identifies the kind of the node.
    pub fn to_identifying_type_int(&self) -> (r: usize)
        ensures
            r == self@.rank(),
    {
        match self {
            ByzNode::TransitiveConst { .. } => 0,
            ByzNode::Add { .. } => 1,
            ByzNode::Mul { .. } => 2,
            ByzNode::Pow { .. } => 3,
            ByzNode::Rational { .. } => 4,
        }
    }

    /// Whether both nodes are of the same kind.
    pub fn basic_type_eq(&self, other: &ByzNode) -> (r: bool)
        ensures
            r == (self@.rank() == other@.rank()),
    {
        self.to_identifying_type_int() == other.to_identifying_type_int()
    }

    /// The total order on canonical nodes.
    pub fn cmp(&self, other: &ByzNode) -> (r: Ordering)
        requires
            self.wf(),
            other.wf(),
        ensures
            ordering_sign(r) == self@.order(other@),
            r == Ordering::Equal <==> self@ == other@,
    {
        proof {
            if self@.order(other@) == 0 {
                lemma_order_zero(self@, other@);
            }
            lemma_order_reflexive(self@);
        }
        ordering_from_sign(node_order(self, other))
    }

    /// The total order on canonical nodes; never `None`.
    pub fn partial_cmp(&self, other: &ByzNode) -> (r: Option<Ordering>)
        requires
            self.wf(),
            other.wf(),
        ensures
            r is Some,
            ordering_sign(r->0) == self@.order(other@),
    {
        Some(self.cmp(other))
    }

    /// Whether two canonical nodes are the same expression.
    pub fn eq(&self, other: &ByzNode) -> (r: bool)
        requires
            self.wf(),
            other.wf(),
        ensures
            r == (self@ == other@),
    {
        match self.cmp(other) {
            Ordering::Equal => true,
            _ => false,
        }
    }
}

} // verus!
