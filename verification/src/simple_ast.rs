use std::collections::HashMap;

use vstd::prelude::*;

use crate::ast::exp::{bool_int, in_i32};

verus! {

/// A program of one function.
#[derive(Debug)]
pub struct CompUnit {
    pub func_def: FuncDef,
}

#[derive(Debug)]
pub struct FuncDef {
    pub func_type: FuncType,
    pub ident: String,
    pub block: Block,
}

#[derive(Debug)]
pub struct FuncType(pub String);

#[derive(Debug)]
pub enum AstValue {
    Return(Exp),
    /// `;` is the end of a line
    End,
}

#[derive(Debug)]
pub enum Exp {
    Uxp(UnaryExp),
    Bxp(BinaryExp),
    Integer(i32),
}

#[derive(Debug)]
pub struct Symbol {
    pub name: String,
    pub ty: SymbolType,
}

/// Symbols, keyed by their identifiers.
#[derive(Debug)]
pub struct SymbolTable {
    pub symbols: HashMap<u32, Symbol>,
}

#[derive(Debug, Clone, Copy, PartialEq, Eq, Structural)]
pub enum SymbolType {
    Var,
    Fun,
}

#[derive(Debug)]
pub struct BinaryExp {
    pub op: BinaryOp,
    pub left: Box<Exp>,
    pub right: Box<Exp>,
}

#[derive(Debug)]
pub struct UnaryExp {
    pub op: UnaryOp,
    pub right: Box<Exp>,
}

#[derive(Debug, Clone, Copy, PartialEq, Eq, Structural)]
pub enum BinaryOp {
    Add,
    Sub,
    Mul,
    Div,
    Mod,
    And,
    Or,
    Eq,
    Neq,
    Lt,
    Lte,
    Gt,
    Gte,
}

#[derive(Debug, Clone, Copy, PartialEq, Eq, Structural)]
pub enum UnaryOp {
    Nop,
    Neg,
    Not,
}

#[derive(Debug)]
pub struct Block {
    pub values: Vec<AstValue>,
}

impl Clone for Exp {
    fn clone(&self) -> (r: Self)
        ensures
            r == *self,
        decreases self,
    {
        match self {
            Exp::Uxp(u) => Exp::Uxp(UnaryExp { op: u.op, right: Box::new((*u.right).clone()) }),
            Exp::Bxp(b) => Exp::Bxp(
                BinaryExp { op: b.op, left: Box::new((*b.left).clone()), right: Box::new((*b.right).clone()) },
            ),
            Exp::Integer(i) => Exp::Integer(*i),
        }
    }
}

impl Clone for UnaryExp {
    fn clone(&self) -> (r: Self)
        ensures
            r == *self,
    {
        UnaryExp { op: self.op, right: Box::new((*self.right).clone()) }
    }
}

impl Clone for BinaryExp {
    fn clone(&self) -> (r: Self)
        ensures
            r == *self,
    {
        BinaryExp { op: self.op, left: Box::new((*self.left).clone()), right: Box::new((*self.right).clone()) }
    }
}

impl Clone for AstValue {
    fn clone(&self) -> (r: Self)
        ensures
            r == *self,
    {
        match self {
            AstValue::Return(e) => AstValue::Return(e.clone()),
            AstValue::End => AstValue::End,
        }
    }
}

/// The value of a binary operator as the evaluator computes it: comparisons
/// go through the difference of the operands.
pub open spec fn binary_value(op: BinaryOp, l: int, r: int) -> int {
    match op {
        BinaryOp::Add => l + r,
        BinaryOp::Sub => l - r,
        BinaryOp::Mul => l * r,
        BinaryOp::Div => crate::ast::exp::trunc_div(l, r),
        BinaryOp::Mod => crate::ast::exp::trunc_rem(l, r),
        BinaryOp::And => bool_int(l != 0 && r != 0),
        BinaryOp::Or => bool_int(l != 0 || r != 0),
        BinaryOp::Eq => bool_int(l == r),
        BinaryOp::Neq => bool_int(l != r),
        BinaryOp::Lt => bool_int(l < r),
        BinaryOp::Lte => bool_int(l <= r),
        BinaryOp::Gt => bool_int(l > r),
        BinaryOp::Gte => bool_int(l >= r),
    }
}

/// Whether the evaluator computes `l op r` in `i32` without overflow or division by zero.
/// Comparisons subtract their operands, so the difference must fit too.
pub open spec fn binary_defined(op: BinaryOp, l: int, r: int) -> bool {

    match op {
        BinaryOp::Div | BinaryOp::Mod => r != 0 && !(l == i32::MIN && r == -1),
        BinaryOp::And | BinaryOp::Or => true,
        BinaryOp::Eq | BinaryOp::Neq | BinaryOp::Gt | BinaryOp::Gte => in_i32(l - r),
        BinaryOp::Lt | BinaryOp::Lte => in_i32(r - l),
        _ => in_i32(binary_value(op, l, r)),
    }
}

/// The value of an expression over the integers.
pub open spec fn exp_value(e: Exp) -> int
    decreases e,
{
    match e {
        Exp::Integer(i) => i as int,
        Exp::Uxp(u) => {
            let v = exp_value(*u.right);
            match u.op {
                UnaryOp::Nop => v,
                UnaryOp::Neg => -v,
                UnaryOp::Not => bool_int(v == 0),
            }
        },
        Exp::Bxp(b) => binary_value(b.op, exp_value(*b.left), exp_value(*b.right)),
    }
}

/// Whether evaluating the expression in `i32` never overflows nor divides by zero.
pub open spec fn exp_defined(e: Exp) -> bool
    decreases e,
{
    match e {
        Exp::Integer(_) => true,
        Exp::Uxp(u) => exp_defined(*u.right) && (u.op == UnaryOp::Neg ==> exp_value(*u.right) != i32::MIN),
        Exp::Bxp(b) => exp_defined(*b.left) && exp_defined(*b.right) && binary_defined(
            b.op,
            exp_value(*b.left),
            exp_value(*b.right),
        ),
    }
}

pub proof fn lemma_exp_value_in_range(e: Exp)
    requires
        exp_defined(e),
    ensures
        crate::ast::exp::in_i32(exp_value(e)),
    decreases e,
{
    match e {
        Exp::Integer(_) => {},
        Exp::Uxp(u) => {
            lemma_exp_value_in_range(*u.right);
        },
        Exp::Bxp(b) => {
            lemma_exp_value_in_range(*b.left);
            lemma_exp_value_in_range(*b.right);
            let l = exp_value(*b.left);
            let r = exp_value(*b.right);
            if b.op == BinaryOp::Div || b.op == BinaryOp::Mod {
                crate::ast::exp::lemma_trunc_div_rem_in_range(l, r);
            }
        },
    }
}

impl Block {
    pub fn new() -> (r: Self)
        ensures
            r.values@ == Seq::<AstValue>::empty(),
    {
        Block { values: Vec::new() }
    }

    pub fn new_with_vec(values: &Vec<AstValue>) -> (r: Self)
        ensures
            r.values@ == values@,
    {
        let v = values.clone();
        assert(v@ =~= values@);
        Block { values: v }
    }

    pub fn add(&mut self, value: AstValue)
        ensures
            final(self).values@ == old(self).values@.push(value),
    {
        self.values.push(value);
    }
}

impl Exp {
    /// Evaluates the expression.
    pub fn parse(&self) -> (r: i32)
        requires
            exp_defined(*self),
        ensures
            r == exp_value(*self),
        decreases self,
    {
        proof { lemma_exp_value_in_range(*self); }
        match self {
            Exp::Integer(i) => *i,
            Exp::Uxp(uxp) => {
                let v = uxp.right.parse();
                match uxp.op {
                    UnaryOp::Nop => v,
                    UnaryOp::Neg => -v,
                    UnaryOp::Not => is_zero(v),
                }
            },
            Exp::Bxp(bxp) => {
                let l = bxp.left.parse();
                let r = bxp.right.parse();
                match bxp.op {
                    BinaryOp::Add => l + r,
                    BinaryOp::Sub => l - r,
                    BinaryOp::Mul => l * r,
                    BinaryOp::Div => l.checked_div(r).unwrap(),
                    BinaryOp::Mod => l.checked_rem(r).unwrap(),
                    BinaryOp::And => lnd(l, r),
                    BinaryOp::Or => lor(l, r),
                    BinaryOp::Eq => is_zero(l - r),
                    BinaryOp::Neq => not_zero(l - r),
                    BinaryOp::Lt => positive(r - l),
                    BinaryOp::Lte => non_negative(r - l),
                    BinaryOp::Gt => positive(l - r),
                    BinaryOp::Gte => non_negative(l - r),
                }
            },
        }
    }
}

/// Logical and.
pub fn lnd(x: i32, y: i32) -> (r: i32)
    ensures
        r == bool_int(x != 0 && y != 0),
{
    if x != 0 && y != 0 { 1 } else { 0 }
}

/// Logical or.
pub fn lor(x: i32, y: i32) -> (r: i32)
    ensures
        r == bool_int(x != 0 || y != 0),
{
    if x != 0 || y != 0 { 1 } else { 0 }
}

pub fn is_zero(i: i32) -> (r: i32)
    ensures
        r == bool_int(i == 0),
{
    if i == 0 { 1 } else { 0 }
}

pub fn not_zero(i: i32) -> (r: i32)
    ensures
        r == bool_int(i != 0),
{
    if i != 0 { 1 } else { 0 }
}

pub fn positive(x: i32) -> (r: i32)
    ensures
        r == bool_int(x > 0),
{
    if x > 0 { 1 } else { 0 }
}

pub fn non_negative(x: i32) -> (r: i32)
    ensures
        r == bool_int(x >= 0),
{
    if x < 0 { 0 } else { 1 }
}

} // verus!
