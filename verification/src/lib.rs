//! Ordering of closed-form real expressions.
//!
//! An expression is built from rational numbers, the constants pi and e,
//! sums, products and rational powers. Two expressions are compared by
//! enclosing each in an interval with rational endpoints and narrowing the
//! intervals with growing effort until they no longer overlap.
//!
//! - `bignat`: the big integers of `num_bigint`, by contract.
//! - `numtheory`, `fraction`: greatest common divisors and the model of a
//!   rational number, with the laws of its arithmetic.
//! - `rational`, `rational_range`: exact rationals and intervals over them.
//! - `expr`, `normal_form`, `contribution_order`: the model of an
//!   expression, its total order and its canonical form.
//! - `byzantine`, `byznode_sorted_vec`, `generate_byznode_utils`: expression
//!   trees and their builders.
//! - `neoprene_taylor`, `neoprene`, `neoprene_comp`: the enclosures of
//!   constants, roots and powers, the evaluator and the comparison.
//! - `enclosure`, `refinement`: why the intervals contain what they stand
//!   for, and why more effort narrows them.

pub mod bignat;
pub mod byzantine;
pub mod byznode_sorted_vec;
pub mod contribution_order;
pub mod enclosure;
pub mod expr;
pub mod fraction;
pub mod generate_byznode_utils;
pub mod neoprene;
pub mod neoprene_comp;
pub mod neoprene_taylor;
pub mod normal_form;
pub mod numtheory;
pub mod rational;
pub mod rational_range;
pub mod refinement;
