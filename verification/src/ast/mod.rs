pub mod block;
pub mod eval;
pub mod exp;
pub mod ty;
pub mod utils;
pub mod visit;

use vstd::prelude::*;

use exp::{Expr, InitVal, LVal};
use visit::MutVisitor;

verus! {

/// A translation unit: global declarations and function definitions.
#[derive(Debug)]
pub struct CompUnit {
    pub items: Vec<GlobalItem>,
}

#[derive(Debug)]
pub enum GlobalItem {
    Decl(Decl),
    Func(FuncDef),
}

#[derive(Debug)]
pub struct FuncDef {
    pub ret_kind: ExprKind,
    pub ident: String,
    pub params: Vec<FuncParam>,
    pub block: Block,
}

#[derive(Debug)]
pub struct FuncParam {
    pub kind: ExprKind,
    pub ident: String,
    pub dims: Vec<Expr>,
}

#[derive(Debug)]
pub struct Block {
    pub items: Vec<BlockItem>,
}

#[derive(Debug)]
pub enum BlockItem {
    Decl(Decl),
    Stmt(Stmt),
}

#[derive(Debug)]
pub enum Decl {
    VarDecl(Vec<VarDecl>),
    ConstDecl(Vec<ConstDecl>),
}

#[derive(Debug)]
pub enum Stmt {
    Assign(Assign),
    Block(Block),
    Branch(Branch),
    Break(Break),
    Continue(Continue),
    Expr(Option<Expr>),
    While(While),
    Return(Return),
}

#[derive(Debug)]
pub struct Return {
    pub ret_val: Option<Expr>,
}

#[derive(Debug)]
pub struct Continue;

#[derive(Debug)]
pub struct Break;

#[derive(Debug)]
pub struct While {
    pub cond: Expr,
    pub stmt: Box<Stmt>,
}

#[derive(Debug)]
pub struct Branch {
    pub cond: Expr,
    pub if_stmt: Box<Stmt>,
    pub el_stmt: Option<Box<Stmt>>,
}

/// Assignment
#[derive(Debug)]
pub struct Assign {
    pub lval: LVal,
    pub val: Expr,
}

#[derive(Debug)]
pub struct ConstDecl {
    pub lval: LVal,
    pub init: InitVal,
    pub kind: ExprKind,
}

#[derive(Debug)]
pub struct VarDecl {
    pub lval: LVal,
    pub init: Option<InitVal>,
    pub kind: ExprKind,
}

#[derive(Debug, Clone, Copy, PartialEq, Eq, Structural)]
pub enum ExprKind {
    Array,
    Int,
    Void,
}

impl Block {
    pub fn new_with_vec(items: Vec<BlockItem>) -> (r: Self)
        ensures
            r.items == items,
    {
        Self { items }
    }
}

impl VarDecl {
    /// A variable is an array exactly when it has dimensions.
    pub fn new(lval: LVal, init: Option<InitVal>) -> (r: Self)
        ensures
            r.lval == lval,
            r.init == init,
            r.kind == if lval.dims@.len() > 0 { ExprKind::Array } else { ExprKind::Int },
    {
        let kind = if lval.dims.len() > 0 {
            ExprKind::Array
        } else {
            ExprKind::Int
        };
        Self { lval, init, kind }
    }
}

impl ConstDecl {
    /// A constant is an array exactly when it is initialized by a list.
    pub fn new(lval: LVal, init: InitVal) -> (r: Self)
        ensures
            r.lval == lval,
            r.init == init,
            r.kind == if init is List { ExprKind::Array } else { ExprKind::Int },
    {
        let kind = if matches!(init, InitVal::List(_)) {
            ExprKind::Array
        } else {
            ExprKind::Int
        };
        Self { lval, init, kind }
    }
}

impl CompUnit {
    /// Lets the visitor visit the whole translation unit: one visit of the
    /// unit by `v`, and nothing else.
    pub fn accept<V: MutVisitor>(&mut self, v: &mut V)
        requires
            old(v).inv(),
        ensures
            final(v).inv(),
            old(v).comp_unit_visited(*old(self), *final(v), *final(self)),
    {
        v.visit_comp_unit(self);
    }
}

} // verus!
