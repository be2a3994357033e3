use vstd::prelude::*;

use super::exp::{binary_defined, binary_value, unary_defined, unary_value, BinaryOp, UnaryOp};

verus! {

/// Evaluates a binary operator on constants.
pub fn eval_binary(op: BinaryOp, lhs: i32, rhs: i32) -> (r: i32)
    requires
        binary_defined(op, lhs, rhs),
    ensures
        r == binary_value(op, lhs as int, rhs as int),
{
    match op {
        BinaryOp::Add => lhs + rhs,
        BinaryOp::Sub => lhs - rhs,
        BinaryOp::Mul => lhs * rhs,
        BinaryOp::And => if lhs != 0 && rhs != 0 { 1 } else { 0 },
        BinaryOp::Or => if lhs != 0 || rhs != 0 { 1 } else { 0 },
        BinaryOp::Eq => if lhs == rhs { 1 } else { 0 },
        BinaryOp::Neq => if lhs != rhs { 1 } else { 0 },
        BinaryOp::Lt => if lhs < rhs { 1 } else { 0 },
        BinaryOp::Le => if lhs <= rhs { 1 } else { 0 },
        BinaryOp::Gt => if lhs > rhs { 1 } else { 0 },
        BinaryOp::Ge => if lhs >= rhs { 1 } else { 0 },
        BinaryOp::Div => {
            proof { super::exp::lemma_trunc_div_rem_in_range(lhs as int, rhs as int); }
            lhs.checked_div(rhs).unwrap()
        },
        BinaryOp::Mod => {
            proof { super::exp::lemma_trunc_div_rem_in_range(lhs as int, rhs as int); }
            lhs.checked_rem(rhs).unwrap()
        },
    }
}

/// Evaluates a unary operator on a constant.
pub fn eval_unary(op: UnaryOp, rhs: i32) -> (r: i32)
    requires
        unary_defined(op, rhs),
    ensures
        r == unary_value(op, rhs as int),
{
    match op {
        UnaryOp::Nop => rhs,
        UnaryOp::Neg => -rhs,
        UnaryOp::Not => if rhs == 0 { 1 } else { 0 },
    }
}

} // verus!
