use vstd::prelude::*;

verus! {

/// An expression of the source language.
#[derive(Debug)]
pub enum Expr {
    Unary(UnaryExpr),
    Binary(BinaryExpr),
    Integer(i32),
    LVal(LVal),
    /// Left by the parser where it recovered from a syntax error.
    Error,
}

#[derive(Debug)]
pub struct BinaryExpr {
    pub op: BinaryOp,
    pub lhs: Box<Expr>,
    pub rhs: Box<Expr>,
}

#[derive(Debug)]
pub enum UnaryExpr {
    Unary(UnaryOp, Box<Expr>),
    Call(Call),
}

/// A call of a function with its arguments.
#[derive(Debug)]
pub struct Call {
    pub ident: String,
    pub args: Vec<Expr>,
}

/// A variable, or an element of an array with its indices.
#[derive(Debug)]
pub struct LVal {
    pub ident: String,
    pub dims: Vec<Expr>,
}

/// An initializer: one expression, or a braced list of initializers.
#[derive(Debug)]
pub enum InitVal {
    Expr(Expr),
    List(Vec<InitVal>),
}

#[derive(Debug, Clone, Copy, PartialEq, Eq, Structural)]
pub enum BinaryOp {
    Add,
    Sub,
    Mul,
    Div,
    Mod,
    And,
    Or,
    Eq,
    Neq,
    Lt,
    Le,
    Gt,
    Ge,
}

#[derive(Debug, Clone, Copy, PartialEq, Eq, Structural)]
pub enum UnaryOp {
    Nop,
    Neg,
    Not,
}

/// `1` for true and `0` for false.
pub open spec fn bool_int(b: bool) -> int {
    if b {
        1
    } else {
        0
    }
}

/// Division rounding toward zero, as `i32` division computes it.
pub open spec fn trunc_div(x: int, d: int) -> int {
    if x == 0 {
        0
    } else if x > 0 && d > 0 {
        x / d
    } else if x < 0 && d < 0 {
        (x * -1) / (d * -1)
    } else if x < 0 {
        ((x * -1) / d) * -1
    } else {
        (x / (d * -1)) * -1
    }
}

/// The remainder that goes with `trunc_div`: it has the sign of `x`.
pub open spec fn trunc_rem(x: int, d: int) -> int {
    if x == 0 {
        0
    } else if x > 0 && d > 0 {
        x % d
    } else if x < 0 && d < 0 {
        ((x * -1) % (d * -1)) * -1
    } else if x < 0 {
        ((x * -1) % d) * -1
    } else {
        x % (d * -1)
    }
}

/// Division and remainder of `i32` values stay within `i32`, but for `MIN / -1`.
pub proof fn lemma_trunc_div_rem_in_range(x: int, d: int)
    requires
        in_i32(x),
        in_i32(d),
        d != 0,
        !(x == i32::MIN && d == -1),
    ensures
        in_i32(trunc_div(x, d)),
        in_i32(trunc_rem(x, d)),
{
    if x > 0 && d > 0 {
        assert(0 <= x / d <= x) by (nonlinear_arith) requires x > 0 && d > 0;
        assert(0 <= x % d < d) by (nonlinear_arith) requires x > 0 && d > 0;
    } else if x < 0 && d < 0 {
        let a = x * -1;
        let b = d * -1;
        assert(0 <= a / b <= a) by (nonlinear_arith) requires a > 0 && b > 0;
        assert(b >= 2 ==> a / b <= a / 2) by (nonlinear_arith) requires a > 0 && b > 0;
        assert(0 <= a % b < b) by (nonlinear_arith) requires a > 0 && b > 0;
    } else if x < 0 && d > 0 {
        let a = x * -1;
        assert(0 <= a / d <= a) by (nonlinear_arith) requires a > 0 && d > 0;
        assert(0 <= a % d < d) by (nonlinear_arith) requires a > 0 && d > 0;
    } else if x > 0 && d < 0 {
        let b = d * -1;
        assert(0 <= x / b <= x) by (nonlinear_arith) requires x > 0 && b > 0;
        assert(0 <= x % b < b) by (nonlinear_arith) requires x > 0 && b > 0;
    }
}

/// Whether `x` is a value of `i32`.
pub open spec fn in_i32(x: int) -> bool {
    i32::MIN <= x <= i32::MAX
}

/// The value of `lhs op rhs` over the integers.
pub open spec fn binary_value(op: BinaryOp, lhs: int, rhs: int) -> int {
    match op {
        BinaryOp::Add => lhs + rhs,
        BinaryOp::Sub => lhs - rhs,
        BinaryOp::Mul => lhs * rhs,
        BinaryOp::Div => trunc_div(lhs, rhs),
        BinaryOp::Mod => trunc_rem(lhs, rhs),
        BinaryOp::And => bool_int(lhs != 0 && rhs != 0),
        BinaryOp::Or => bool_int(lhs != 0 || rhs != 0),
        BinaryOp::Eq => bool_int(lhs == rhs),
        BinaryOp::Neq => bool_int(lhs != rhs),
        BinaryOp::Lt => bool_int(lhs < rhs),
        BinaryOp::Le => bool_int(lhs <= rhs),
        BinaryOp::Gt => bool_int(lhs > rhs),
        BinaryOp::Ge => bool_int(lhs >= rhs),
    }
}

/// Whether `lhs op rhs` can be computed in `i32`: no division by zero, no overflow.
pub open spec fn binary_defined(op: BinaryOp, lhs: i32, rhs: i32) -> bool {
    match op {
        BinaryOp::Div | BinaryOp::Mod => rhs != 0 && !(lhs == i32::MIN && rhs == -1),
        _ => in_i32(binary_value(op, lhs as int, rhs as int)),
    }
}

/// The value of `op opr` over the integers.
pub open spec fn unary_value(op: UnaryOp, opr: int) -> int {
    match op {
        UnaryOp::Nop => opr,
        UnaryOp::Neg => -opr,
        UnaryOp::Not => bool_int(opr == 0),
    }
}

/// Whether `op opr` can be computed in `i32`.
pub open spec fn unary_defined(op: UnaryOp, opr: i32) -> bool {
    in_i32(unary_value(op, opr as int))
}

/// Evaluates a binary operator on constants.
pub fn eval_binary(op: BinaryOp, lhs: i32, rhs: i32) -> (r: i32)
    requires
        binary_defined(op, lhs, rhs),
    ensures
        r == binary_value(op, lhs as int, rhs as int),
{
    match op {
        BinaryOp::Add => lhs + rhs,
        BinaryOp::Sub => lhs - rhs,
        BinaryOp::Mul => lhs * rhs,
        BinaryOp::And => if lhs != 0 && rhs != 0 { 1 } else { 0 },
        BinaryOp::Or => if lhs != 0 || rhs != 0 { 1 } else { 0 },
        BinaryOp::Eq => if lhs == rhs { 1 } else { 0 },
        BinaryOp::Neq => if lhs != rhs { 1 } else { 0 },
        BinaryOp::Lt => if lhs < rhs { 1 } else { 0 },
        BinaryOp::Le => if lhs <= rhs { 1 } else { 0 },
        BinaryOp::Gt => if lhs > rhs { 1 } else { 0 },
        BinaryOp::Ge => if lhs >= rhs { 1 } else { 0 },
        BinaryOp::Div => {
            proof { lemma_trunc_div_rem_in_range(lhs as int, rhs as int); }
            lhs.checked_div(rhs).unwrap()
        },
        BinaryOp::Mod => {
            proof { lemma_trunc_div_rem_in_range(lhs as int, rhs as int); }
            lhs.checked_rem(rhs).unwrap()
        },
    }
}

/// Evaluates a unary operator on a constant.
pub fn eval_unary(op: UnaryOp, opr: i32) -> (r: i32)
    requires
        unary_defined(op, opr),
    ensures
        r == unary_value(op, opr as int),
{
    match op {
        UnaryOp::Nop => opr,
        UnaryOp::Neg => -opr,
        UnaryOp::Not => if opr == 0 { 1 } else { 0 },
    }
}

} // verus!
