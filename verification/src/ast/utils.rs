use vstd::prelude::*;

use super::exp::{bool_int, in_i32, binary_value, unary_value, BinaryOp, UnaryOp};

verus! {

/// Logical and.
pub fn lnd(x: i32, y: i32) -> (r: i32)
    ensures
        r == bool_int(x != 0 && y != 0),
{
    if x != 0 && y != 0 { 1 } else { 0 }
}

/// Logical or.
pub fn lor(x: i32, y: i32) -> (r: i32)
    ensures
        r == bool_int(x != 0 || y != 0),
{
    if x != 0 || y != 0 { 1 } else { 0 }
}

pub fn is_zero(i: i32) -> (r: i32)
    ensures
        r == bool_int(i == 0),
{
    if i == 0 { 1 } else { 0 }
}

pub fn not_zero(i: i32) -> (r: i32)
    ensures
        r == bool_int(i != 0),
{
    if i != 0 { 1 } else { 0 }
}

pub fn positive(x: i32) -> (r: i32)
    ensures
        r == bool_int(x > 0),
{
    if x > 0 { 1 } else { 0 }
}

pub fn non_negative(x: i32) -> (r: i32)
    ensures
        r == bool_int(x >= 0),
{
    if x < 0 { 0 } else { 1 }
}

/// Whether `eval_binary` computes `lhs op rhs` without overflow or division by
/// zero; it compares two values through their difference, which must fit in `i32`.
pub open spec fn diff_binary_defined(op: BinaryOp, lhs: i32, rhs: i32) -> bool {
    match op {
        BinaryOp::Div | BinaryOp::Mod => rhs != 0 && !(lhs == i32::MIN && rhs == -1),
        BinaryOp::And | BinaryOp::Or => true,
        BinaryOp::Eq | BinaryOp::Neq | BinaryOp::Gt | BinaryOp::Ge => in_i32(lhs - rhs),
        BinaryOp::Lt | BinaryOp::Le => in_i32(rhs - lhs),
        _ => in_i32(binary_value(op, lhs as int, rhs as int)),
    }
}

/// Evaluates a binary operator on constants, comparing through differences.
pub fn eval_binary(op: BinaryOp, lhs: i32, rhs: i32) -> (r: i32)
    requires
        diff_binary_defined(op, lhs, rhs),
    ensures
        r == binary_value(op, lhs as int, rhs as int),
{
    match op {
        BinaryOp::Add => lhs + rhs,
        BinaryOp::Sub => lhs - rhs,
        BinaryOp::Mul => lhs * rhs,
        BinaryOp::Div => {
            proof { super::exp::lemma_trunc_div_rem_in_range(lhs as int, rhs as int); }
            lhs.checked_div(rhs).unwrap()
        },
        BinaryOp::Mod => {
            proof { super::exp::lemma_trunc_div_rem_in_range(lhs as int, rhs as int); }
            lhs.checked_rem(rhs).unwrap()
        },
        BinaryOp::And => lnd(lhs, rhs),
        BinaryOp::Or => lor(lhs, rhs),
        BinaryOp::Eq => is_zero(lhs - rhs),
        BinaryOp::Neq => not_zero(lhs - rhs),
        BinaryOp::Lt => positive(rhs - lhs),
        BinaryOp::Le => non_negative(rhs - lhs),
        BinaryOp::Gt => positive(lhs - rhs),
        BinaryOp::Ge => non_negative(lhs - rhs),
    }
}

/// Evaluates a unary operator on a constant.
pub fn eval_unary(op: UnaryOp, rhs: i32) -> (r: i32)
    requires
        in_i32(unary_value(op, rhs as int)),
    ensures
        r == unary_value(op, rhs as int),
{
    match op {
        UnaryOp::Nop => rhs,
        UnaryOp::Neg => -rhs,
        UnaryOp::Not => is_zero(rhs),
    }
}

} // verus!
