use vstd::prelude::*;

use crate::ir::IrType;

verus! {

/// A type of the source language after analysis.
#[derive(Debug)]
pub struct Type(pub Box<TypeKind>);

#[derive(Debug)]
pub enum TypeKind {
    Void,
    Integer,
    Array(Type, usize),
    Pointer(Type),
    Func(Type, Vec<Type>),
}

impl Type {
    /// The kind of the type.
    pub open spec fn spec_kind(self) -> TypeKind {
        *self.0
    }
}

/// Whether no function type occurs in the type.
pub open spec fn func_free(t: Type) -> bool
    decreases t,
{
    match *t.0 {
        TypeKind::Array(base, _) => func_free(base),
        TypeKind::Pointer(base) => func_free(base),
        TypeKind::Func(_, _) => false,
        _ => true,
    }
}

/// Whether `a` and `b` are equal, up to the identity of the vectors of parameter types.
pub open spec fn same_type(a: Type, b: Type) -> bool
    decreases a,
{
    match (*a.0, *b.0) {
        (TypeKind::Array(x, n), TypeKind::Array(y, m)) => n == m && same_type(x, y),
        (TypeKind::Pointer(x), TypeKind::Pointer(y)) => same_type(x, y),
        (TypeKind::Func(x, ps), TypeKind::Func(y, qs)) => same_type(x, y) && ps@.len() == qs@.len()
            && forall|i: int| 0 <= i < ps@.len() ==> same_type(#[trigger] ps@[i], qs@[i]),
        (TypeKind::Void, TypeKind::Void) => true,
        (TypeKind::Integer, TypeKind::Integer) => true,
        _ => false,
    }
}

impl Clone for Type {
    fn clone(&self) -> (r: Self)
        ensures
            same_type(r, *self),
            func_free(*self) ==> r == *self,
    {
        clone_type(self)
    }
}

fn clone_type(t: &Type) -> (r: Type)
    ensures
        same_type(r, *t),
        func_free(*t) ==> r == *t,
    decreases *t,
{
    let k: &TypeKind = &t.0;
    let c = match k {
        TypeKind::Void => TypeKind::Void,
        TypeKind::Integer => TypeKind::Integer,
        TypeKind::Array(b, len) => TypeKind::Array(clone_type(b), *len),
        TypeKind::Pointer(b) => TypeKind::Pointer(clone_type(b)),
        TypeKind::Func(r, ps) => TypeKind::Func(clone_type(r), clone_types(ps)),
    };
    Type(Box::new(c))
}

fn clone_types(ps: &Vec<Type>) -> (r: Vec<Type>)
    ensures
        r@.len() == ps@.len(),
        forall|i: int| 0 <= i < ps@.len() ==> same_type(#[trigger] r@[i], ps@[i]),
    decreases *ps,
{
    let mut v: Vec<Type> = Vec::new();
    let mut i: usize = 0;
    while i < ps.len()
        invariant
            i <= ps@.len(),
            v@.len() == i,
            forall|j: int| 0 <= j < i ==> same_type(#[trigger] v@[j], ps@[j]),
        decreases ps@.len() - i,
    {
        proof {
            assert(decreases_to!(*ps => ps@[i as int]));
        }
        v.push(clone_type(&ps[i]));
        i = i + 1;
    }
    v
}

pub proof fn lemma_same_type_dims(a: Type, b: Type)
    requires
        same_type(a, b),
    ensures
        dims_of(a) == dims_of(b),
    decreases a,
{
    match (*a.0, *b.0) {
        (TypeKind::Array(x, _), TypeKind::Array(y, _)) => lemma_same_type_dims(x, y),
        _ => {},
    }
}

/// The dimensions of an integer or an array of integers, outermost first;
/// `None` for any other type.
pub open spec fn dims_of(t: Type) -> Option<Seq<usize>>
    decreases t,
{
    match *t.0 {
        TypeKind::Integer => Some(Seq::empty()),
        TypeKind::Array(base, len) => match dims_of(base) {
            Some(d) => Some(seq![len].add(d)),
            None => None,
        },
        _ => None,
    }
}

/// A type with dimensions is an integer or an array of integers.
pub proof fn lemma_dims_func_free(t: Type)
    requires
        dims_of(t) is Some,
    ensures
        func_free(t),
    decreases t,
{
    if let TypeKind::Array(base, _) = *t.0 {
        lemma_dims_func_free(base);
    }
}

/// Whether the number of integers in each sub-array fits in `usize`.
pub open spec fn dims_fit(dims: Seq<usize>) -> bool
    decreases dims.len(),
{
    dims.len() == 0 || (size_of_dims(dims) <= usize::MAX && dims_fit(dims.drop_first()))
}

/// The number of integers in a value of the type.
pub open spec fn size_of_dims(dims: Seq<usize>) -> int
    decreases dims.len(),
{
    if dims.len() == 0 {
        1
    } else {
        dims[0] * size_of_dims(dims.drop_first())
    }
}

/// The type of the intermediate representation that stands for `t`.
pub open spec fn ir_ty_of(t: Type) -> IrType
    decreases t,
{
    match *t.0 {
        TypeKind::Integer => IrType::Int32,
        TypeKind::Array(base, len) => IrType::Array(Box::new(ir_ty_of(base)), len),
        TypeKind::Pointer(base) => IrType::Pointer(Box::new(ir_ty_of(base))),
        _ => IrType::Unit,
    }
}

impl Type {
    /// The type of the intermediate representation that stands for this type,
    /// which holds no function type.
    pub fn get_ir_ty(&self) -> (r: IrType)
        requires
            func_free(*self),
        ensures
            r == ir_ty_of(*self),
        decreases self,
    {
        match self.kind() {
            TypeKind::Integer => IrType::Int32,
            TypeKind::Array(base_ty, len) => IrType::Array(Box::new(base_ty.get_ir_ty()), *len),
            TypeKind::Void => IrType::Unit,
            TypeKind::Pointer(base_ty) => IrType::Pointer(Box::new(base_ty.get_ir_ty())),
            TypeKind::Func(_, _) => {
                proof { assert(false); }
                IrType::Unit
            },
        }
    }
}

impl Type {
    pub fn get(kind: TypeKind) -> (r: Type)
        ensures
            r.spec_kind() == kind,
    {
        Type(Box::new(kind))
    }

    pub fn get_void() -> (r: Type)
        ensures
            r.spec_kind() == TypeKind::Void,
    {
        Self::get(TypeKind::Void)
    }

    pub fn get_int() -> (r: Type)
        ensures
            r.spec_kind() == TypeKind::Integer,
    {
        Self::get(TypeKind::Integer)
    }

    pub fn get_array(base_ty: Type, len: usize) -> (r: Type)
        ensures
            r.spec_kind() == TypeKind::Array(base_ty, len),
    {
        Self::get(TypeKind::Array(base_ty, len))
    }

    pub fn get_pointer(base_ty: Type) -> (r: Type)
        ensures
            r.spec_kind() == TypeKind::Pointer(base_ty),
    {
        Self::get(TypeKind::Pointer(base_ty))
    }

    pub fn get_func(ret_ty: Type, param_tys: Vec<Type>) -> (r: Type)
        ensures
            r.spec_kind() == TypeKind::Func(ret_ty, param_tys),
    {
        Self::get(TypeKind::Func(ret_ty, param_tys))
    }

    pub fn kind(&self) -> (r: &TypeKind)
        ensures
            *r == self.spec_kind(),
    {
        &self.0
    }

    /// The number of integers that a value of the type holds.
    pub fn size(&self) -> (r: usize)
        requires
            dims_of(*self) is Some,
            dims_fit(dims_of(*self)->0),
        ensures
            r == size_of_dims(dims_of(*self)->0),
        decreases self,
    {
        match self.kind() {
            TypeKind::Integer => 1,
            TypeKind::Array(base_ty, len) => {
                proof {
                    let d = dims_of(*base_ty)->0;
                    assert(seq![*len].add(d).drop_first() =~= d);
                    lemma_size_of_dims_bound(*len, d);
                }
                *len * base_ty.size()
            },
            _ => {
                proof { assert(false); }
                0
            },
        }
    }

    /// The type of an integer array with the given dimensions, or `int` for none.
    pub fn infer_from_dims(dims: &[usize]) -> (r: Self)
        ensures
            dims_of(r) == Some(dims@),
    {
        let mut ty = Self::get_int();
        let mut i = dims.len();
        while i > 0
            invariant
                i <= dims@.len(),
                dims_of(ty) == Some(dims@.subrange(i as int, dims@.len() as int)),
            decreases i,
        {
            i = i - 1;
            let next = Self::get_array(ty, dims[i]);
            proof {
                assert(dims@.subrange(i as int, dims@.len() as int) =~= seq![dims@[i as int]].add(
                    dims@.subrange(i + 1, dims@.len() as int),
                ));
            }
            ty = next;
        }
        assert(dims@.subrange(0, dims@.len() as int) =~= dims@);
        ty
    }

    /// Appends the dimensions of an integer array type, outermost first.
    pub fn get_dims(&self, dims: &mut Vec<usize>)
        requires
            dims_of(*self) is Some,
        ensures
            final(dims)@ == old(dims)@ + dims_of(*self)->0,
        decreases self,
    {
        match self.kind() {
            TypeKind::Array(base_ty, len) => {
                dims.push(*len);
                base_ty.get_dims(dims);
                proof {
                    assert(old(dims)@ + dims_of(*self)->0 =~= old(dims)@.push(*len) + dims_of(*base_ty)->0);
                }
            },
            TypeKind::Integer => {
                assert(old(dims)@ + dims_of(*self)->0 =~= old(dims)@);
            },
            _ => {
                proof { assert(false); }
            },
        }
    }
}

proof fn lemma_size_of_dims_bound(len: usize, d: Seq<usize>)
    requires
        size_of_dims(seq![len].add(d)) <= usize::MAX,
    ensures
        len * size_of_dims(d) <= usize::MAX,
        size_of_dims(seq![len].add(d)) == len * size_of_dims(d),
        len > 0 ==> size_of_dims(d) <= usize::MAX,
{
    assert(seq![len].add(d).drop_first() =~= d);
    lemma_size_of_dims_nonneg(d);
    if len > 0 {
        assert(size_of_dims(d) <= len * size_of_dims(d)) by (nonlinear_arith)
            requires
                len > 0,
                size_of_dims(d) >= 0,
        ;
    }
}

pub proof fn lemma_size_of_dims_nonneg(d: Seq<usize>)
    ensures
        size_of_dims(d) >= 0,
    decreases d.len(),
{
    if d.len() > 0 {
        lemma_size_of_dims_nonneg(d.drop_first());
        assert(d[0] * size_of_dims(d.drop_first()) >= 0) by (nonlinear_arith)
            requires
                d[0] >= 0,
                size_of_dims(d.drop_first()) >= 0,
        ;
    }
}

} // verus!
