use byzantine::byzantine::{ByzNode, TransitiveConsts};
use byzantine::byznode_sorted_vec::{ByzNodeCoefficientAddVec, ByzNodePowerMulVec, ByzNodeVec};
use byzantine::generate_byznode_utils;
use byzantine::rational::Rational;
use std::cmp::Ordering;

fn rat(n: isize, d: isize) -> Rational {
    Rational::from_ratio(n, d)
}

fn pi() -> ByzNode {
    generate_byznode_utils::transitive(TransitiveConsts::Pi)
}

fn euler() -> ByzNode {
    generate_byznode_utils::transitive(TransitiveConsts::Euler)
}

fn number(n: isize, d: isize) -> ByzNode {
    generate_byznode_utils::rational(rat(n, d))
}

fn sqrt_two() -> ByzNode {
    generate_byznode_utils::pow(number(2, 1), rat(1, 2))
}

fn same(a: &Rational, n: isize, d: isize) -> bool {
    a.eq(&rat(n, d))
}

#[test]
fn kinds_are_told_apart() {
    assert_eq!(pi().to_identifying_type_int(), 0);
    assert_eq!(generate_byznode_utils::add(rat(1, 1), vec![(None, pi())]).to_identifying_type_int(), 1);
    assert_eq!(generate_byznode_utils::mul(None, vec![(Some(rat(2, 1)), pi())]).to_identifying_type_int(), 2);
    assert_eq!(sqrt_two().to_identifying_type_int(), 3);
    assert_eq!(number(1, 2).to_identifying_type_int(), 4);
    assert!(pi().basic_type_eq(&euler()));
    assert!(!pi().basic_type_eq(&number(1, 2)));
}

#[test]
fn the_order_is_total() {
    let nodes = vec![
        pi(),
        euler(),
        generate_byznode_utils::add(rat(1, 1), vec![(None, pi())]),
        generate_byznode_utils::add(rat(2, 1), vec![(None, pi())]),
        generate_byznode_utils::add(rat(1, 1), vec![(None, pi()), (None, euler())]),
        generate_byznode_utils::mul(None, vec![(Some(rat(2, 1)), pi())]),
        sqrt_two(),
        generate_byznode_utils::pow(pi(), rat(1, 2)),
        number(1, 2),
        number(-1, 2),
    ];
    for a in nodes.iter() {
        assert!(matches!(a.cmp(a), Ordering::Equal));
        assert!(a.eq(a));
        for b in nodes.iter() {
            let ab = a.cmp(b);
            let ba = b.cmp(a);
            assert_eq!(ab, ba.reverse());
            assert_eq!(a.eq(b), ab == Ordering::Equal);
            assert_eq!(a.partial_cmp(b), Some(ab));
            for c in nodes.iter() {
                if ab == Ordering::Less && b.cmp(c) == Ordering::Less {
                    assert_eq!(a.cmp(c), Ordering::Less);
                }
            }
        }
    }
    assert!(matches!(pi().cmp(&euler()), Ordering::Less));
    assert!(matches!(pi().cmp(&number(1, 2)), Ordering::Less));
    assert!(matches!(number(1, 3).cmp(&number(1, 2)), Ordering::Less));
}

#[test]
fn a_sum_folds_rationals_into_its_tail() {
    let s = generate_byznode_utils::add(
        rat(1, 2),
        vec![(Some(rat(2, 1)), number(1, 3)), (None, pi()), (Some(rat(-1, 1)), number(1, 6))],
    );
    match s {
        ByzNode::Add { addends } => {
            assert!(same(&addends.rational_part, 1, 1));
            assert_eq!(addends.vec.len(), 1);
            assert!(same(&addends.vec[0].0, 1, 1));
            assert!(addends.vec[0].1.eq(&pi()));
        },
        _ => panic!("a sum was expected"),
    }
}

#[test]
fn a_sum_without_terms_is_a_rational() {
    let s = generate_byznode_utils::add(rat(1, 2), vec![(None, number(1, 3))]);
    assert!(s.eq(&number(5, 6)));
    let s = generate_byznode_utils::add(rat(1, 2), vec![]);
    assert!(s.eq(&number(1, 2)));
    let s = generate_byznode_utils::add(
        rat(1, 2),
        vec![(Some(rat(3, 1)), pi()), (Some(rat(-3, 1)), pi())],
    );
    assert!(s.eq(&number(1, 2)));
}

#[test]
fn equal_terms_are_merged() {
    let s = generate_byznode_utils::add(
        rat(0, 1),
        vec![(Some(rat(1, 2)), pi()), (None, euler()), (Some(rat(1, 3)), pi())],
    );
    match s {
        ByzNode::Add { addends } => {
            assert_eq!(addends.vec.len(), 2);
            assert!(addends.vec[0].1.eq(&pi()));
            assert!(same(&addends.vec[0].0, 5, 6));
            assert!(addends.vec[1].1.eq(&euler()));
            assert!(same(&addends.vec[1].0, 1, 1));
        },
        _ => panic!("a sum was expected"),
    }
}

#[test]
fn a_zero_weight_adds_nothing() {
    let s = generate_byznode_utils::add(rat(1, 1), vec![(Some(rat(0, 1)), pi()), (None, euler())]);
    let t = generate_byznode_utils::add(rat(1, 1), vec![(None, euler())]);
    assert!(s.eq(&t));
    let p = generate_byznode_utils::mul(None, vec![(Some(rat(0, 1)), pi()), (None, euler())]);
    let q = generate_byznode_utils::mul(None, vec![(None, euler())]);
    assert!(p.eq(&q));
}

#[test]
fn the_order_of_contributions_does_not_matter() {
    let a = generate_byznode_utils::add(
        rat(1, 2),
        vec![
            (None, sqrt_two()),
            (Some(rat(2, 1)), pi()),
            (None, number(3, 1)),
            (Some(rat(1, 2)), euler()),
            (None, pi()),
        ],
    );
    let b = generate_byznode_utils::add(
        rat(1, 2),
        vec![
            (None, pi()),
            (Some(rat(1, 2)), euler()),
            (None, number(3, 1)),
            (None, sqrt_two()),
            (Some(rat(2, 1)), pi()),
        ],
    );
    assert!(a.eq(&b));
    assert!(matches!(a.cmp(&b), Ordering::Equal));
    match a {
        ByzNode::Add { addends } => {
            assert!(same(&addends.rational_part, 7, 2));
            assert_eq!(addends.vec.len(), 3);
            for i in 1..addends.vec.len() {
                assert!(matches!(addends.vec[i - 1].1.cmp(&addends.vec[i].1), Ordering::Less));
            }
        },
        _ => panic!("a sum was expected"),
    }
    let p = generate_byznode_utils::mul(
        Some(rat(2, 1)),
        vec![(None, pi()), (Some(rat(1, 2)), euler()), (Some(rat(3, 1)), sqrt_two())],
    );
    let q = generate_byznode_utils::mul(
        Some(rat(2, 1)),
        vec![(Some(rat(3, 1)), sqrt_two()), (Some(rat(1, 2)), euler()), (None, pi())],
    );
    assert!(p.eq(&q));
}

#[test]
fn nested_sums_are_flattened() {
    let inner = generate_byznode_utils::add(rat(1, 1), vec![(Some(rat(2, 1)), pi()), (None, euler())]);
    let outer = generate_byznode_utils::add(rat(1, 2), vec![(Some(rat(3, 1)), inner), (None, pi())]);
    let flat = generate_byznode_utils::add(
        rat(7, 2),
        vec![(Some(rat(7, 1)), pi()), (Some(rat(3, 1)), euler())],
    );
    assert!(outer.eq(&flat));
}

#[test]
fn nested_products_are_flattened() {
    let inner = generate_byznode_utils::mul(Some(rat(2, 1)), vec![(Some(rat(2, 1)), pi()), (None, euler())]);
    let outer = generate_byznode_utils::mul(Some(rat(1, 2)), vec![(Some(rat(3, 1)), inner), (None, pi())]);
    let flat = generate_byznode_utils::mul(
        Some(rat(4, 1)),
        vec![(Some(rat(7, 1)), pi()), (Some(rat(3, 1)), euler())],
    );
    assert!(outer.eq(&flat));
}

#[test]
fn a_product_folds_whole_powers_of_rationals() {
    let p = generate_byznode_utils::mul(
        Some(rat(3, 1)),
        vec![(Some(rat(2, 1)), number(2, 3)), (Some(rat(-1, 1)), number(4, 1)), (None, pi())],
    );
    match p {
        ByzNode::Mul { products } => {
            assert!(same(&products.rational_part, 1, 3));
            assert_eq!(products.vec.len(), 1);
            assert!(products.vec[0].1.eq(&pi()));
        },
        _ => panic!("a product was expected"),
    }
}

#[test]
fn a_product_keeps_other_powers_of_rationals() {
    let p = generate_byznode_utils::mul(Some(rat(3, 1)), vec![(Some(rat(1, 2)), number(2, 1))]);
    match p {
        ByzNode::Mul { products } => {
            assert!(same(&products.rational_part, 3, 1));
            assert_eq!(products.vec.len(), 1);
            assert!(same(&products.vec[0].0, 1, 1));
            assert!(products.vec[0].1.eq(&sqrt_two()));
        },
        _ => panic!("a product was expected"),
    }
    // zero to a negative power is not a rational
    let q = generate_byznode_utils::mul(None, vec![(Some(rat(-1, 1)), number(0, 1))]);
    assert_eq!(q.to_identifying_type_int(), 2);
    // an exponent above twelve is not folded
    let r = generate_byznode_utils::mul(None, vec![(Some(rat(13, 1)), number(2, 1))]);
    assert_eq!(r.to_identifying_type_int(), 2);
    let s = generate_byznode_utils::mul(None, vec![(Some(rat(12, 1)), number(2, 1))]);
    assert!(s.eq(&number(4096, 1)));
}

#[test]
fn powers_are_normalized() {
    assert!(generate_byznode_utils::pow(pi(), rat(0, 1)).eq(&number(1, 1)));
    assert!(generate_byznode_utils::pow(pi(), rat(1, 1)).eq(&pi()));
    let squared = generate_byznode_utils::pow(pi(), rat(2, 1));
    let sixth = generate_byznode_utils::pow(squared, rat(3, 1));
    assert!(sixth.eq(&generate_byznode_utils::pow(pi(), rat(6, 1))));
    let inverse = generate_byznode_utils::pow(pi(), rat(-1, 1));
    assert!(generate_byznode_utils::pow(inverse, rat(-1, 1)).eq(&pi()));
    // a root of a square is left alone
    let squared = generate_byznode_utils::pow(pi(), rat(2, 1));
    let root = generate_byznode_utils::pow(squared, rat(1, 2));
    match root {
        ByzNode::Pow { base, exp } => {
            assert!(same(&exp, 1, 2));
            assert!(base.eq(&generate_byznode_utils::pow(pi(), rat(2, 1))));
        },
        _ => panic!("a power was expected"),
    }
}

#[test]
fn lists_take_contributions() {
    let mut sum = ByzNodeCoefficientAddVec::new();
    sum.insert_rational(rat(1, 2));
    sum.insert_single(pi());
    sum.insert((rat(2, 1), pi()));
    sum.insert((rat(1, 1), number(1, 2)));
    assert!(same(sum.get_rational_part(), 1, 1));
    assert_eq!(sum.get_vec().len(), 1);
    assert!(same(&sum.get_vec()[0].0, 3, 1));
    let mut other = ByzNodeCoefficientAddVec::new();
    other.insert((rat(3, 1), pi()));
    other.insert_rational(rat(1, 1));
    assert!(sum.eq(&other));
    other.insert_single(euler());
    assert!(!sum.eq(&other));

    let mut product = ByzNodePowerMulVec::new();
    product.insert_rational(rat(3, 1));
    product.insert_single(pi());
    product.insert((rat(-1, 1), pi()));
    assert!(same(product.get_rational_part(), 3, 1));
    assert_eq!(product.get_vec().len(), 0);
    let mut same_product = ByzNodePowerMulVec::new();
    same_product.insert((rat(1, 1), number(3, 1)));
    assert!(product.eq(&same_product));
}

#[test]
fn a_copy_is_the_same_expression() {
    let e = generate_byznode_utils::add(
        rat(1, 2),
        vec![(None, sqrt_two()), (Some(rat(2, 1)), pi())],
    );
    let c = e.clone();
    assert!(e.eq(&c));
}

#[test]
fn lists_are_ordered() {
    let mut a = ByzNodeCoefficientAddVec::new();
    a.insert_single(pi());
    let mut b = ByzNodeCoefficientAddVec::new();
    b.insert_single(pi());
    b.insert_rational(rat(1, 1));
    let mut c = ByzNodeCoefficientAddVec::new();
    c.insert_single(euler());
    assert_eq!(a.cmp(&a), Ordering::Equal);
    assert_eq!(a.cmp(&b), Ordering::Less);
    assert_eq!(b.cmp(&a), Ordering::Greater);
    assert_eq!(a.cmp(&c), Ordering::Less);
    assert_eq!(b.cmp(&c), Ordering::Less);
    assert_eq!(a.partial_cmp(&c), Some(Ordering::Less));
    let mut p = ByzNodePowerMulVec::new();
    p.insert((rat(2, 1), pi()));
    let mut q = ByzNodePowerMulVec::new();
    q.insert((rat(3, 1), pi()));
    assert_eq!(p.cmp(&q), Ordering::Less);
    assert_eq!(q.partial_cmp(&p), Some(Ordering::Greater));
    assert_eq!(p.cmp(&p), Ordering::Equal);
}
