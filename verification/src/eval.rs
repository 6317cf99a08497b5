//! Evaluator: computes the exact rational value of an expression tree.
//!
//! A leaf yields its literal over denominator one; an inner node evaluates
//! both children (left before right) and combines the two rationals with its
//! operator, without reducing fractions. Division by a sub-expression whose
//! value is zero is reported as an error, and an intermediate numerator or
//! denominator outside the `i64` range as an overflow, so evaluation never
//! panics and never divides by zero.

use crate::parser::{Node, Operator};
use vstd::prelude::*;

verus! {

/// How evaluation can fail.
#[derive(Debug, Copy, Clone, PartialEq, Eq, Structural)]
pub enum EvalError {
    /// The right operand of a division evaluated to zero.
    DivisionByZero,
    /// An intermediate numerator or denominator left the `i64` range.
    Overflow,
}

/// An unreduced fraction `num / den`.
#[derive(Debug, Copy, Clone, PartialEq, Eq, Structural)]
pub struct Rational {
    pub num: i64,
    pub den: i64,
}

pub open spec fn in_i64(x: int) -> bool {
    i64::MIN <= x <= i64::MAX
}

/// The exact rational value of a tree, unreduced and unbounded: `None` means
/// a division by zero occurs somewhere in the tree.
pub open spec fn spec_eval(n: Node) -> Option<(int, int)>
    decreases n,
{
    match n {
        Node::Num(v) => Some((v as int, 1)),
        Node::Op(op, l, r) => match (spec_eval(*l), spec_eval(*r)) {
            (Some(a), Some(b)) => match op {
                Operator::Plus => Some((a.0 * b.1 + b.0 * a.1, a.1 * b.1)),
                Operator::Minus => Some((a.0 * b.1 - b.0 * a.1, a.1 * b.1)),
                Operator::Multiply => Some((a.0 * b.0, a.1 * b.1)),
                Operator::Divide => if b.0 == 0 {
                    None
                } else {
                    Some((a.0 * b.1, a.1 * b.0))
                },
            },
            _ => None,
        },
    }
}

pub open spec fn rat_add(a: (int, int), b: (int, int)) -> Result<(int, int), EvalError> {
    if !in_i64(a.0 * b.1) || !in_i64(b.0 * a.1) || !in_i64(a.0 * b.1 + b.0 * a.1) || !in_i64(
        a.1 * b.1,
    ) {
        Err(EvalError::Overflow)
    } else {
        Ok((a.0 * b.1 + b.0 * a.1, a.1 * b.1))
    }
}

pub open spec fn rat_sub(a: (int, int), b: (int, int)) -> Result<(int, int), EvalError> {
    if !in_i64(a.0 * b.1) || !in_i64(b.0 * a.1) || !in_i64(a.0 * b.1 - b.0 * a.1) || !in_i64(
        a.1 * b.1,
    ) {
        Err(EvalError::Overflow)
    } else {
        Ok((a.0 * b.1 - b.0 * a.1, a.1 * b.1))
    }
}

pub open spec fn rat_mul(a: (int, int), b: (int, int)) -> Result<(int, int), EvalError> {
    if !in_i64(a.0 * b.0) || !in_i64(a.1 * b.1) {
        Err(EvalError::Overflow)
    } else {
        Ok((a.0 * b.0, a.1 * b.1))
    }
}

pub open spec fn rat_div(a: (int, int), b: (int, int)) -> Result<(int, int), EvalError> {
    if b.0 == 0 {
        Err(EvalError::DivisionByZero)
    } else if !in_i64(a.0 * b.1) || !in_i64(a.1 * b.0) {
        Err(EvalError::Overflow)
    } else {
        Ok((a.0 * b.1, a.1 * b.0))
    }
}

/// The value `evaluate` computes: the exact rational value, except that a
/// division by zero or an intermediate outside the `i64` range stops the
/// evaluation with the matching error (left subtree first).
pub open spec fn spec_eval_checked(n: Node) -> Result<(int, int), EvalError>
    decreases n,
{
    match n {
        Node::Num(v) => Ok((v as int, 1)),
        Node::Op(op, l, r) => match spec_eval_checked(*l) {
            Err(e) => Err(e),
            Ok(a) => match spec_eval_checked(*r) {
                Err(e) => Err(e),
                Ok(b) => match op {
                    Operator::Plus => rat_add(a, b),
                    Operator::Minus => rat_sub(a, b),
                    Operator::Multiply => rat_mul(a, b),
                    Operator::Divide => rat_div(a, b),
                },
            },
        },
    }
}

fn mul64(a: i64, b: i64) -> (r: Option<i64>)
    ensures
        match r {
            Some(v) => v as int == a as int * b as int,
            None => !in_i64(a as int * b as int),
        },
{
    proof {
        assert((i128::MIN as int) <= (a as int) * (b as int) <= (i128::MAX as int))
            by (nonlinear_arith)
            requires
                i64::MIN as int <= a as int <= i64::MAX as int,
                i64::MIN as int <= b as int <= i64::MAX as int,
        ;
    }
    let p: i128 = (a as i128) * (b as i128);
    if p > i64::MAX as i128 || p < i64::MIN as i128 {
        None
    } else {
        Some(p as i64)
    }
}

fn add64(a: i64, b: i64) -> (r: Option<i64>)
    ensures
        match r {
            Some(v) => v as int == a as int + b as int,
            None => !in_i64(a as int + b as int),
        },
{
    let p: i128 = (a as i128) + (b as i128);
    if p > i64::MAX as i128 || p < i64::MIN as i128 {
        None
    } else {
        Some(p as i64)
    }
}

fn sub64(a: i64, b: i64) -> (r: Option<i64>)
    ensures
        match r {
            Some(v) => v as int == a as int - b as int,
            None => !in_i64(a as int - b as int),
        },
{
    let p: i128 = (a as i128) - (b as i128);
    if p > i64::MAX as i128 || p < i64::MIN as i128 {
        None
    } else {
        Some(p as i64)
    }
}

/// Evaluates a tree to its exact rational value, or reports a division by
/// zero or an `i64` overflow.
pub fn evaluate(node: &Node) -> (r: Result<Rational, EvalError>)
    ensures
        match spec_eval_checked(*node) {
            Ok(v) => r is Ok && r->Ok_0.num as int == v.0 && r->Ok_0.den as int == v.1,
            Err(e) => r == Err::<Rational, EvalError>(e),
        },
    decreases *node,
{
    match node {
        Node::Num(v) => Ok(Rational { num: *v as i64, den: 1 }),
        Node::Op(op, l, r) => {
            let a = match evaluate(&**l) {
                Ok(a) => a,
                Err(e) => {
                    return Err(e);
                },
            };
            let b = match evaluate(&**r) {
                Ok(b) => b,
                Err(e) => {
                    return Err(e);
                },
            };
            match op {
                Operator::Plus => {
                    let n1 = match mul64(a.num, b.den) {
                        Some(x) => x,
                        None => {
                            return Err(EvalError::Overflow);
                        },
                    };
                    let n2 = match mul64(b.num, a.den) {
                        Some(x) => x,
                        None => {
                            return Err(EvalError::Overflow);
                        },
                    };
                    let num = match add64(n1, n2) {
                        Some(x) => x,
                        None => {
                            return Err(EvalError::Overflow);
                        },
                    };
                    let den = match mul64(a.den, b.den) {
                        Some(x) => x,
                        None => {
                            return Err(EvalError::Overflow);
                        },
                    };
                    Ok(Rational { num, den })
                },
                Operator::Minus => {
                    let n1 = match mul64(a.num, b.den) {
                        Some(x) => x,
                        None => {
                            return Err(EvalError::Overflow);
                        },
                    };
                    let n2 = match mul64(b.num, a.den) {
                        Some(x) => x,
                        None => {
                            return Err(EvalError::Overflow);
                        },
                    };
                    let num = match sub64(n1, n2) {
                        Some(x) => x,
                        None => {
                            return Err(EvalError::Overflow);
                        },
                    };
                    let den = match mul64(a.den, b.den) {
                        Some(x) => x,
                        None => {
                            return Err(EvalError::Overflow);
                        },
                    };
                    Ok(Rational { num, den })
                },
                Operator::Multiply => {
                    let num = match mul64(a.num, b.num) {
                        Some(x) => x,
                        None => {
                            return Err(EvalError::Overflow);
                        },
                    };
                    let den = match mul64(a.den, b.den) {
                        Some(x) => x,
                        None => {
                            return Err(EvalError::Overflow);
                        },
                    };
                    Ok(Rational { num, den })
                },
                Operator::Divide => {
                    if b.num == 0 {
                        return Err(EvalError::DivisionByZero);
                    }
                    let num = match mul64(a.num, b.den) {
                        Some(x) => x,
                        None => {
                            return Err(EvalError::Overflow);
                        },
                    };
                    let den = match mul64(a.den, b.num) {
                        Some(x) => x,
                        None => {
                            return Err(EvalError::Overflow);
                        },
                    };
                    Ok(Rational { num, den })
                },
            }
        },
    }
}

/// When checked evaluation succeeds it computes the exact rational value of
/// the tree, and that value's denominator is not zero.
pub proof fn lemma_eval_checked_exact(n: Node)
    requires
        spec_eval_checked(n) is Ok,
    ensures
        spec_eval(n) == Some(spec_eval_checked(n)->Ok_0),
        spec_eval_checked(n)->Ok_0.1 != 0,
    decreases n,
{
    match n {
        Node::Num(_) => {},
        Node::Op(op, l, r) => {
            lemma_eval_checked_exact(*l);
            lemma_eval_checked_exact(*r);
            let a = spec_eval_checked(*l)->Ok_0;
            let b = spec_eval_checked(*r)->Ok_0;
            assert(a.1 != 0 && b.1 != 0 ==> a.1 * b.1 != 0) by (nonlinear_arith);
            if op is Divide {
                let bn = b.0;
                assert(a.1 != 0 && bn != 0 ==> a.1 * bn != 0) by (nonlinear_arith);
            }
        },
    }
}

} // verus!
