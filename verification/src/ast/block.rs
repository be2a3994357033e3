use vstd::prelude::*;

use crate::simple_ast::Exp;

verus! {

/// A block of statements, of the language whose expressions are `simple_ast::Exp`.
#[derive(Debug)]
pub struct Block {
    pub items: Vec<BlockItem>,
}

#[derive(Debug)]
pub enum BlockItem {
    Decl(Decl),
    Stmt(Stmt),
}

#[derive(Debug)]
pub enum Decl {
    VarDecl(Vec<VarDecl>),
    ConstDecl(Vec<ConstDecl>),
}

#[derive(Debug)]
pub enum Stmt {
    Assign(Assign),
    Block(Box<Block>),
    Branch(Branch),
    Break(Break),
    Continue(Continue),
    Exp(Option<Box<Exp>>),
    While(While),
    Return(Return),
}

#[derive(Debug)]
pub struct Return {
    pub ret_val: Option<Box<Exp>>,
}

#[derive(Debug)]
pub struct Continue;

#[derive(Debug)]
pub struct Break;

#[derive(Debug)]
pub struct While {
    pub cond: Box<Exp>,
    pub stmt: Box<Stmt>,
}

#[derive(Debug)]
pub struct Branch {
    pub cond: Box<Exp>,
    pub if_stmt: Box<Stmt>,
    pub el_stmt: Option<Box<Stmt>>,
}

/// Assignment
#[derive(Debug)]
pub struct Assign {
    pub name: String,
    pub val: Box<Exp>,
}

#[derive(Debug)]
pub struct ConstDecl {
    pub name: String,
    pub init: Box<Exp>,
}

#[derive(Debug)]
pub struct VarDecl {
    pub name: String,
    pub init: Option<Box<Exp>>,
}

impl VarDecl {
    pub fn new_with_init(name: String, init: Box<Exp>) -> (r: Self)
        ensures
            r.name == name,
            r.init == Some(init),
    {
        Self { name, init: Some(init) }
    }

    pub fn new_without_init(name: String) -> (r: Self)
        ensures
            r.name == name,
            r.init is None,
    {
        Self { name, init: None }
    }
}

impl Default for Block {
    fn default() -> (r: Self)
        ensures
            r.items@ == Seq::<BlockItem>::empty(),
    {
        Self::new()
    }
}

impl Block {
    pub fn new() -> (r: Self)
        ensures
            r.items@ == Seq::<BlockItem>::empty(),
    {
        Self { items: Vec::new() }
    }

    pub fn new_with_vec(items: Vec<BlockItem>) -> (r: Self)
        ensures
            r.items == items,
    {
        Self { items }
    }
}

} // verus!
