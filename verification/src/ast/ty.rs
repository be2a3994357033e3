use vstd::prelude::*;

use crate::ir::IrType;

verus! {

/// The type of a value of the source language.
#[derive(Debug)]
pub enum Type {
    Pointer(Box<Type>),
    Int,
    Void,
}

impl Clone for Type {
    fn clone(&self) -> (r: Self)
        ensures
            r == *self,
        decreases self,
    {
        match self {
            Type::Pointer(t) => Type::Pointer(Box::new((**t).clone())),
            Type::Int => Type::Int,
            Type::Void => Type::Void,
        }
    }
}

impl Type {
    /// The type of the intermediate representation for an `int` or `void`.
    pub fn into_ty(&self) -> (r: IrType)
        requires
            !(*self is Pointer),
        ensures
            r == (if *self is Int {
                IrType::Int32
            } else {
                IrType::Unit
            }),
    {
        match self {
            Type::Int => IrType::Int32,
            _ => IrType::Unit,
        }
    }
}

} // verus!
