use vstd::prelude::*;

use crate::ast::exp::{Expr, InitVal};
use crate::codegen::program::IrBinaryOp;
use crate::ir::{elem_ty, pointee, IrType, ValueData, ValueKind};
use crate::irgen::gen::{detached_value, emit, gen_step, lemma_gen_step_refl, lemma_gen_step_trans, shape_ok};
use crate::irgen::record::{blocks_pushed, ProgramRecorder};
use crate::ir::Program;
use crate::sema::ty::{dims_fit, dims_of, ir_ty_of, lemma_size_of_dims_nonneg, size_of_dims, Type, TypeKind};

verus! {

/// Where the scan of the boundaries from the outermost one down stops: the
/// largest boundary (sub-array size) that `pos` is a multiple of.
/// `None` where a zero boundary or no boundary is met first.
pub open spec fn stride_index(bds: Seq<usize>, pos: int, j: int) -> Option<int>
    decreases j + 1,
{
    if j < 0 || j >= bds.len() {
        None
    } else if bds[j] == 0 {
        None
    } else if pos % (bds[j] as int) == 0 {
        Some(j)
    } else {
        stride_index(bds, pos, j - 1)
    }
}

/// `elems` with `v` stored at `pos`: zeros fill any gap up to `pos`.
pub open spec fn push_at(elems: Seq<i32>, pos: int, v: i32) -> Seq<i32> {
    if pos > elems.len() {
        (elems + Seq::new((pos - elems.len()) as nat, |k: int| 0i32)).push(v)
    } else {
        elems.push(v)
    }
}

/// Places the initializers `init[i..]` from position `pos` on, inside a
/// sub-array whose own sub-arrays have the sizes `sub`. Gives the position
/// after the last one and the elements, or `None` where the initializer does
/// not fit the type.
pub open spec fn fill_items(init: Seq<InitVal>, i: int, sub: Seq<usize>, pos: int, elems: Seq<i32>) -> Option<(int, Seq<i32>)>
    decreases init, init.len() - i,
{
    if i < 0 || i >= init.len() {
        Some((pos, elems))
    } else {
        match init[i] {
            InitVal::Expr(e) => match e {
                Expr::Integer(v) => if pos + 1 <= usize::MAX {
                    fill_items(init, i + 1, sub, pos + 1, push_at(elems, pos, v))
                } else {
                    None
                },
                _ => None,
            },
            InitVal::List(list) => match fill_list(list@, sub, pos, elems) {
                Some((p, el)) => fill_items(init, i + 1, sub, p, el),
                None => None,
            },
        }
    }
}

/// Places a braced list that starts at `pos`: it fills the largest sub-array
/// (among the sizes `bds`) that begins at `pos`. Gives the position after that
/// sub-array and the elements, or `None`.
pub open spec fn fill_list(init: Seq<InitVal>, bds: Seq<usize>, pos: int, elems: Seq<i32>) -> Option<(int, Seq<i32>)>
    decreases init, init.len() + 1,
{
    match stride_index(bds, pos, bds.len() - 1) {
        Some(j) => if pos + bds[j] <= usize::MAX {
            match fill_items(init, 0, bds.subrange(0, j), pos, elems) {
                Some((_, el)) => Some((pos + bds[j], el)),
                None => None,
            }
        } else {
            None
        },
        None => None,
    }
}

/// The sizes of the sub-arrays of an array with the given dimensions,
/// innermost first: entry `k` is the size of the last `k + 1` dimensions.
pub open spec fn boundaries(dims: Seq<usize>) -> Seq<usize> {
    Seq::new(dims.len(), |k: int| size_of_dims(dims.subrange(dims.len() - 1 - k, dims.len() as int)) as usize)
}

/// The elements of an array of type `ty` initialized by `init`, in row-major
/// order; elements past the last initialized one are left out.
pub open spec fn array_elems(init: InitVal, ty: Type) -> Option<Seq<i32>> {
    match init {
        InitVal::List(list) => match dims_of(ty) {
            Some(d) => match fill_list(list@, boundaries(d), 0, Seq::empty()) {
                Some((_, el)) => Some(el),
                None => None,
            },
            None => None,
        },
        _ => None,
    }
}

proof fn lemma_suffix_fits(d: Seq<usize>, m: int)
    requires
        dims_fit(d),
        0 <= m <= d.len(),
    ensures
        size_of_dims(d.subrange(m, d.len() as int)) <= usize::MAX,
        size_of_dims(d.subrange(m, d.len() as int)) >= 0,
    decreases m,
{
    crate::sema::ty::lemma_size_of_dims_nonneg(d.subrange(m, d.len() as int));
    if m == 0 {
        assert(d.subrange(0, d.len() as int) =~= d);
        if d.len() == 0 {
            assert(size_of_dims(d) == 1);
        }
    } else {
        lemma_suffix_fits(d.drop_first(), m - 1);
        assert(d.drop_first().subrange(m - 1, d.drop_first().len() as int) =~= d.subrange(m, d.len() as int));
    }
}

/// Computes the sub-array sizes of `dims`, innermost first.
fn compute_boundaries(dims: &Vec<usize>) -> (r: Vec<usize>)
    requires
        dims_fit(dims@),
    ensures
        r@ == boundaries(dims@),
{
    let n = dims.len();
    let mut acc: usize = 1;
    let mut bds: Vec<usize> = Vec::new();
    let mut k: usize = 0;
    assert(dims@.subrange(n as int, n as int) =~= Seq::<usize>::empty());
    while k < n
        invariant
            n == dims@.len(),
            k <= n,
            dims_fit(dims@),
            acc == size_of_dims(dims@.subrange(n - k, n as int)),
            bds@.len() == k,
            forall|j: int| 0 <= j < k ==> bds@[j] == boundaries(dims@)[j],
        decreases n - k,
    {
        let d = dims[n - 1 - k];
        proof {
            lemma_suffix_fits(dims@, n - 1 - k);
            let s = dims@.subrange(n - 1 - k, n as int);
            assert(s.drop_first() =~= dims@.subrange(n - k, n as int));
            assert(s[0] == d);
            assert(size_of_dims(s) == d * acc);
            assert(acc * d == d * acc) by (nonlinear_arith);
        }
        acc = acc * d;
        bds.push(acc);
        k = k + 1;
    }
    assert(bds@ =~= boundaries(dims@));
    bds
}

/// Stores `v` at `pos`, padding with zeros up to `pos`.
fn push_elem(elems: &mut Vec<i32>, pos: usize, v: i32)
    ensures
        final(elems)@ == push_at(old(elems)@, pos as int, v),
{
    if pos > elems.len() {
        let ghost start = elems@;
        while elems.len() < pos
            invariant
                start.len() <= elems@.len() <= pos,
                elems@ == start + Seq::new((elems@.len() - start.len()) as nat, |k: int| 0i32),
            decreases pos - elems@.len(),
        {
            elems.push(0);
            assert(elems@ =~= start + Seq::new((elems@.len() - start.len()) as nat, |k: int| 0i32));
        }
    }
    elems.push(v);
}

/// Places the initializers of a braced list, as `fill_list` describes.
fn fill_array(init: &Vec<InitVal>, bds: &Vec<usize>, nbd: usize, pos: usize, elems: &mut Vec<i32>) -> (next: usize)
    requires
        nbd <= bds@.len(),
        fill_list(init@, bds@.subrange(0, nbd as int), pos as int, old(elems)@) is Some,
    ensures
        fill_list(init@, bds@.subrange(0, nbd as int), pos as int, old(elems)@) == Some(
            (next as int, final(elems)@),
        ),
    decreases init@, init@.len() + 1,
{
    let ghost b = bds@.subrange(0, nbd as int);
    // the largest boundary that `pos` is a multiple of
    let mut j = nbd;
    let mut found: usize = 0;
    let mut ok = false;
    let mut stop = false;
    while j > 0 && !stop
        invariant
            j <= nbd,
            nbd <= bds@.len(),
            b == bds@.subrange(0, nbd as int),
            !stop ==> !ok && stride_index(b, pos as int, nbd - 1) == stride_index(b, pos as int, j - 1),
            stop && ok ==> found < nbd && stride_index(b, pos as int, nbd - 1) == Some(found as int),
            stop && !ok ==> stride_index(b, pos as int, nbd - 1) is None,
        decreases 2 * j + if stop { 0int } else { 1int },
    {
        let d = bds[j - 1];
        assert(b[j - 1] == d);
        if d == 0 {
            stop = true;
        } else if pos % d == 0 {
            assert(b.len() == nbd);
            assert((pos as int) % (b[j - 1] as int) == 0);
            assert(stride_index(b, pos as int, j - 1) == Some((j - 1) as int));
            found = j - 1;
            ok = true;
            stop = true;
        } else {
            j = j - 1;
        }
    }
    assert(ok && found < nbd && stride_index(b, pos as int, nbd - 1) == Some(found as int));
    let stride = bds[found];
    let next_pos = pos + stride;
    let next_bd = found;
    assert(bds@.subrange(0, next_bd as int) =~= b.subrange(0, found as int));

    let mut p = pos;
    let mut i: usize = 0;
    while i < init.len()
        invariant
            i <= init@.len(),
            next_bd <= bds@.len(),
            fill_items(init@, 0, bds@.subrange(0, next_bd as int), pos as int, old(elems)@)
                == fill_items(init@, i as int, bds@.subrange(0, next_bd as int), p as int, elems@),
            fill_items(init@, i as int, bds@.subrange(0, next_bd as int), p as int, elems@) is Some,
        decreases init@.len() - i,
    {
        match &init[i] {
            InitVal::Expr(e) => {
                let v = e.get_i32();
                push_elem(elems, p, v);
                p = p + 1;
            },
            InitVal::List(list) => {
                proof {
                    assert(decreases_to!(init@ => init@[i as int]));
                }
                p = fill_array(list, bds, next_bd, p, elems);
            },
        }
        i = i + 1;
    }
    next_pos
}

/// The elements of an array of type `ty` initialized by `init`, in row-major
/// order: each braced list fills the largest sub-array that begins where it
/// starts; the gaps that lists leave before later elements are zero, and
/// nothing follows the last element given.
pub fn eval_array(init: &InitVal, ty: &Type) -> (r: Vec<i32>)
    requires
        dims_of(*ty) is Some,
        dims_fit(dims_of(*ty)->0),
        array_elems(*init, *ty) is Some,
    ensures
        r@ == array_elems(*init, *ty)->0,
{
    let mut elems: Vec<i32> = Vec::new();
    let mut dims: Vec<usize> = Vec::new();
    ty.get_dims(&mut dims);
    assert(dims@ =~= dims_of(*ty)->0);
    let boundaries = compute_boundaries(&dims);
    if let InitVal::List(list) = init {
        assert(boundaries@.subrange(0, boundaries@.len() as int) =~= boundaries@);
        fill_array(list, &boundaries, boundaries.len(), 0, &mut elems);
    } else {
        proof { assert(false); }
    }
    elems
}

/// Allocates a local variable of type `ty` in the entry block.
pub fn local_alloc(r: &mut ProgramRecorder, ty: IrType, name: Option<String>) -> (v: usize)
    requires
        shape_ok(*old(r)),
    ensures
        shape_ok(*final(r)),
        gen_step(*old(r), *final(r)),
        final(r).same_ctx(old(r)),
        v == old(r).program.values@.len(),
        final(r).program.values@ == old(r).program.values@.push(
            ValueData { ty: IrType::Pointer(Box::new(ty)), name, kind: ValueKind::Alloc },
        ),
        blocks_pushed(old(r).program.blocks@, final(r).program.blocks@, old(r).cur().entry_bb, v),
        final(r).program.funcs@ == old(r).program.funcs@,
        final(r).program.inst_layout@ == old(r).program.inst_layout@,
{
    let entry = r.func().entry_bb;
    crate::irgen::gen::emit_into(r, entry, IrType::Pointer(Box::new(ty)), name, ValueKind::Alloc)
}

/// The value of `lhs op rhs`, appended to the current block.
pub fn binary(r: &mut ProgramRecorder, op: IrBinaryOp, lhs: usize, rhs: usize) -> (v: usize)
    requires
        shape_ok(*old(r)),
        lhs < old(r).program.values@.len(),
        rhs < old(r).program.values@.len(),
    ensures
        shape_ok(*final(r)),
        gen_step(*old(r), *final(r)),
        final(r).same_ctx(old(r)),
        v == old(r).program.values@.len(),
        final(r).program.values@ == old(r).program.values@.push(
            ValueData { ty: IrType::Int32, name: None, kind: ValueKind::Binary(op, lhs, rhs) },
        ),
        blocks_pushed(old(r).program.blocks@, final(r).program.blocks@, old(r).cur().cur_bb, v),
        final(r).program.funcs@ == old(r).program.funcs@,
        final(r).program.inst_layout@ == old(r).program.inst_layout@,
{
    emit(r, IrType::Int32, ValueKind::Binary(op, lhs, rhs))
}

/// `0 - opr`: the constant zero, then the subtraction appended to the current block.
pub fn negative(r: &mut ProgramRecorder, opr: usize) -> (v: usize)
    requires
        shape_ok(*old(r)),
        opr < old(r).program.values@.len(),
    ensures
        shape_ok(*final(r)),
        gen_step(*old(r), *final(r)),
        final(r).same_ctx(old(r)),
        v == old(r).program.values@.len() + 1,
        final(r).program.values@ == old(r).program.values@.push(
            ValueData { ty: IrType::Int32, name: None, kind: ValueKind::Integer(0) },
        ).push(
            ValueData {
                ty: IrType::Int32,
                name: None,
                kind: ValueKind::Binary(IrBinaryOp::Sub, old(r).program.values@.len() as usize, opr),
            },
        ),
        blocks_pushed(old(r).program.blocks@, final(r).program.blocks@, old(r).cur().cur_bb, v),
        final(r).program.funcs@ == old(r).program.funcs@,
        final(r).program.inst_layout@ == old(r).program.inst_layout@,
{
    let ghost o = *r;
    let zero = detached_value(r, IrType::Int32, ValueKind::Integer(0));
    let ghost m = *r;
    let v = emit(r, IrType::Int32, ValueKind::Binary(IrBinaryOp::Sub, zero, opr));
    proof {
        lemma_gen_step_trans(o, m, *r);
    }
    v
}

/// `opr == 0`: the constant zero, then the comparison appended to the current block.
pub fn logical_not(r: &mut ProgramRecorder, opr: usize) -> (v: usize)
    requires
        shape_ok(*old(r)),
        opr < old(r).program.values@.len(),
    ensures
        shape_ok(*final(r)),
        gen_step(*old(r), *final(r)),
        final(r).same_ctx(old(r)),
        v == old(r).program.values@.len() + 1,
        final(r).program.values@ == old(r).program.values@.push(
            ValueData { ty: IrType::Int32, name: None, kind: ValueKind::Integer(0) },
        ).push(
            ValueData {
                ty: IrType::Int32,
                name: None,
                kind: ValueKind::Binary(IrBinaryOp::Eq, opr, old(r).program.values@.len() as usize),
            },
        ),
        blocks_pushed(old(r).program.blocks@, final(r).program.blocks@, old(r).cur().cur_bb, v),
        final(r).program.funcs@ == old(r).program.funcs@,
        final(r).program.inst_layout@ == old(r).program.inst_layout@,
{
    let ghost o = *r;
    let zero = detached_value(r, IrType::Int32, ValueKind::Integer(0));
    let ghost m = *r;
    let v = emit(r, IrType::Int32, ValueKind::Binary(IrBinaryOp::Eq, opr, zero));
    proof {
        lemma_gen_step_trans(o, m, *r);
    }
    v
}

/// The type of the pointer to an element of the array that a pointer of type `t` points to.
pub open spec fn elem_ptr_ty(t: IrType) -> IrType {
    IrType::Pointer(Box::new(elem_ty(pointee(t))))
}

/// A pointer to the first element of the array that `val` points to.
pub fn into_ptr(r: &mut ProgramRecorder, val: usize) -> (v: usize)
    requires
        shape_ok(*old(r)),
        val < old(r).program.values@.len(),
    ensures
        shape_ok(*final(r)),
        gen_step(*old(r), *final(r)),
        final(r).same_ctx(old(r)),
        v == old(r).program.values@.len() + 1,
        final(r).program.values@ == old(r).program.values@.push(
            ValueData { ty: IrType::Int32, name: None, kind: ValueKind::Integer(0) },
        ).push(
            ValueData {
                ty: elem_ptr_ty(old(r).program.values@[val as int].ty),
                name: None,
                kind: ValueKind::GetElemPtr(val, old(r).program.values@.len() as usize),
            },
        ),
        blocks_pushed(old(r).program.blocks@, final(r).program.blocks@, old(r).cur().cur_bb, v),
        final(r).program.funcs@ == old(r).program.funcs@,
        final(r).program.inst_layout@ == old(r).program.inst_layout@,
{
    let ghost o = *r;
    let ty = r.program.values[val].ty.pointee().elem_ty();
    let index = detached_value(r, IrType::Int32, ValueKind::Integer(0));
    let ghost m = *r;
    let v = emit(r, IrType::Pointer(Box::new(ty)), ValueKind::GetElemPtr(val, index));
    proof {
        lemma_gen_step_trans(o, m, *r);
    }
    v
}

/// Follows `src` through one element pointer per index of `dims`, each
/// appended to the current block; gives the last pointer, or `src` for no index.
pub fn get_elem_ptr(r: &mut ProgramRecorder, src: usize, dims: &[usize]) -> (v: usize)
    requires
        shape_ok(*old(r)),
        src < old(r).program.values@.len(),
        forall|i: int| 0 <= i < dims@.len() ==> (#[trigger] dims@[i]) < old(r).program.values@.len(),
    ensures
        shape_ok(*final(r)),
        gen_step(*old(r), *final(r)),
        final(r).same_ctx(old(r)),
        final(r).program.values@.len() == old(r).program.values@.len() + dims@.len(),
        final(r).program.values@.subrange(0, old(r).program.values@.len() as int) == old(r).program.values@,
        dims@.len() == 0 ==> v == src,
        dims@.len() > 0 ==> v == final(r).program.values@.len() - 1,
        forall|i: int|
            0 <= i < dims@.len() ==> #[trigger] final(r).program.values@[old(r).program.values@.len() + i]
                == (ValueData {
                ty: elem_ptr_ty(final(r).program.values@[elem_ptr_src(src, old(r).program.values@.len() as int, i)].ty),
                name: None,
                kind: ValueKind::GetElemPtr(
                    elem_ptr_src(src, old(r).program.values@.len() as int, i) as usize,
                    dims@[i],
                ),
            }),
        final(r).program.blocks@[old(r).cur().cur_bb as int].insts@ == old(r).program.blocks@[old(r).cur().cur_bb as int].insts@
            + Seq::new(dims@.len(), |i: int| (old(r).program.values@.len() + i) as usize),
        final(r).program.funcs@ == old(r).program.funcs@,
        final(r).program.inst_layout@ == old(r).program.inst_layout@,
{
    let ghost o = *r;
    let ghost nv = r.program.values@.len() as int;
    let ghost cur = r.cur().cur_bb;
    let mut dst_ptr = src;
    let mut i: usize = 0;
    proof {
        lemma_gen_step_refl(o);
        assert(o.program.blocks@[cur as int].insts@ =~= o.program.blocks@[cur as int].insts@ + Seq::new(0, |i: int| (nv + i) as usize));
    }
    while i < dims.len()
        invariant
            shape_ok(*r),
            shape_ok(o),
            gen_step(o, *r),
            r.same_ctx(&o),
            src < nv,
            i <= dims@.len(),
            r.cur().cur_bb == cur,
            r.program.values@.len() == nv + i,
            r.program.values@.subrange(0, nv) == o.program.values@,
            dst_ptr == elem_ptr_src(src, nv, i as int),
            dst_ptr < r.program.values@.len(),
            forall|j: int| 0 <= j < dims@.len() ==> (#[trigger] dims@[j]) < nv,
            forall|j: int|
                0 <= j < i ==> #[trigger] r.program.values@[nv + j] == (ValueData {
                    ty: elem_ptr_ty(r.program.values@[elem_ptr_src(src, nv, j)].ty),
                    name: None,
                    kind: ValueKind::GetElemPtr(elem_ptr_src(src, nv, j) as usize, dims@[j]),
                }),
            r.program.blocks@[cur as int].insts@ == o.program.blocks@[cur as int].insts@ + Seq::new(i as nat, |j: int| (nv + j) as usize),
            r.program.funcs@ == o.program.funcs@,
            r.program.inst_layout@ == o.program.inst_layout@,
        decreases dims@.len() - i,
    {
        let ghost m = *r;
        let ty = r.program.values[dst_ptr].ty.pointee().elem_ty();
        let ptr = emit(r, IrType::Pointer(Box::new(ty)), ValueKind::GetElemPtr(dst_ptr, dims[i]));
        proof {
            lemma_gen_step_trans(o, m, *r);
            assert(r.program.values@.subrange(0, nv) =~= o.program.values@);
            assert(r.program.blocks@[cur as int].insts@ =~= o.program.blocks@[cur as int].insts@ + Seq::new((i + 1) as nat, |j: int| (nv + j) as usize));
            assert forall|j: int|
                0 <= j < i + 1 implies #[trigger] r.program.values@[nv + j] == (ValueData {
                    ty: elem_ptr_ty(r.program.values@[elem_ptr_src(src, nv, j)].ty),
                    name: None,
                    kind: ValueKind::GetElemPtr(elem_ptr_src(src, nv, j) as usize, dims@[j]),
                }) by {
                if j < i {
                    assert(r.program.values@[nv + j] == m.program.values@[nv + j]);
                    assert(elem_ptr_src(src, nv, j) < nv + i);
                    assert(r.program.values@[elem_ptr_src(src, nv, j)] == m.program.values@[elem_ptr_src(src, nv, j)]);
                }
            }
        }
        dst_ptr = ptr;
        i = i + 1;
    }
    dst_ptr
}

/// The value that the `i`-th element pointer of a chain that starts at `src`
/// follows: `src` for the first, else the one made before it.
pub open spec fn elem_ptr_src(src: usize, nv: int, i: int) -> int {
    if i == 0 {
        src as int
    } else {
        nv + i - 1
    }
}

/// The number of integers in a value of type `t`.
pub open spec fn elem_count(t: Type) -> int {
    size_of_dims(dims_of(t)->0)
}

/// The initial value at position `k`: the given one, or zero past the end.
pub open spec fn init_at(init: Seq<i32>, k: int) -> i32 {
    if 0 <= k < init.len() {
        init[k]
    } else {
        0
    }
}

/// Whether value `v` of `p` is the global initializer of type `ty` for the
/// elements `init[pos..]`: zero where no element is left, else an aggregate
/// of one entry per element of the outermost dimension.
pub open spec fn global_init(p: Program, v: usize, ty: Type, init: Seq<i32>, pos: int) -> bool
    decreases ty,
{
    &&& v < p.values@.len()
    &&& p.values@[v as int].ty == ir_ty_of(ty)
    &&& if pos >= init.len() {
        p.values@[v as int].kind is ZeroInit
    } else {
        match *ty.0 {
            TypeKind::Array(base, len) => p.values@[v as int].kind matches ValueKind::Aggregate(es) && es@.len()
                == len && forall|i: int|
                0 <= i < len ==> if base.spec_kind() is Integer {
                    &&& (#[trigger] es@[i]) < p.values@.len()
                    &&& p.values@[es@[i] as int].ty == IrType::Int32
                    &&& p.values@[es@[i] as int].kind == ValueKind::Integer(init_at(init, pos + i))
                } else {
                    global_init(p, es@[i], base, init, pos + i * elem_count(base))
                },
            _ => false,
        }
    }
}

/// A global initializer stays one while values are appended.
pub proof fn lemma_global_init_stable(p: Program, q: Program, v: usize, ty: Type, init: Seq<i32>, pos: int)
    requires
        global_init(p, v, ty, init, pos),
        p.values@.len() <= q.values@.len(),
        forall|i: int| 0 <= i < p.values@.len() ==> q.values@[i] == #[trigger] p.values@[i],
    ensures
        global_init(q, v, ty, init, pos),
    decreases ty,
{
    if pos < init.len() {
        if let TypeKind::Array(base, len) = *ty.0 {
            if let ValueKind::Aggregate(es) = p.values@[v as int].kind {
                assert forall|i: int| 0 <= i < len implies if base.spec_kind() is Integer {
                    &&& (#[trigger] es@[i]) < q.values@.len()
                    &&& q.values@[es@[i] as int].ty == IrType::Int32
                    &&& q.values@[es@[i] as int].kind == ValueKind::Integer(init_at(init, pos + i))
                } else {
                    global_init(q, es@[i], base, init, pos + i * elem_count(base))
                } by {
                    if !(base.spec_kind() is Integer) {
                        lemma_global_init_stable(p, q, es@[i], base, init, pos + i * elem_count(base));
                    }
                }
            }
        }
    }
}

/// The global initializer of an array of type `ty` whose elements are `init`
/// from position `pos` on; elements past the end of `init` are zero.
pub fn init_global_array_recur(r: &mut ProgramRecorder, ty: &Type, init: &[i32], pos: usize) -> (v: usize)
    requires
        old(r).inv(),
        dims_of(*ty) is Some,
        dims_fit(dims_of(*ty)->0),
        pos + elem_count(*ty) <= usize::MAX,
        ty.spec_kind() is Array,
    ensures
        final(r).inv(),
        final(r).same_ctx(old(r)),
        final(r).program.values@.len() > old(r).program.values@.len(),
        final(r).program.values@.subrange(0, old(r).program.values@.len() as int) == old(r).program.values@,
        final(r).program.blocks@ == old(r).program.blocks@,
        final(r).program.funcs@ == old(r).program.funcs@,
        final(r).program.inst_layout@ == old(r).program.inst_layout@,
        global_init(final(r).program, v, *ty, init@, pos as int),
    decreases ty,
{
    let ghost o = *r;
    proof {
        crate::sema::ty::lemma_dims_func_free(*ty);
    }
    if pos >= init.len() {
        let v = r.new_global_value(ty.get_ir_ty(), ValueKind::ZeroInit);
        proof {
            assert(r.program.values@.subrange(0, o.program.values@.len() as int) =~= o.program.values@);
        }
        return v;
    }
    match ty.kind() {
        TypeKind::Array(base_ty, len) => {
            let ghost d = dims_of(*base_ty)->0;
            proof {
                assert(dims_of(*ty)->0 == seq![*len].add(d));
                assert(seq![*len].add(d).drop_first() =~= d);
                crate::sema::ty::lemma_size_of_dims_nonneg(d);
                lemma_size_mul(*len, d);
            }
            let stride = if matches!(base_ty.kind(), TypeKind::Integer) { 1 } else { base_ty.size() };
            let mut elems: Vec<usize> = Vec::new();
            let mut i: usize = 0;
            while i < *len
                invariant
                    r.inv(),
                    r.same_ctx(&o),
                    i <= *len,
                    elems@.len() == i,
                    r.program.values@.len() >= o.program.values@.len(),
                    r.program.values@.subrange(0, o.program.values@.len() as int) == o.program.values@,
                    r.program.blocks@ == o.program.blocks@,
                    r.program.funcs@ == o.program.funcs@,
                    r.program.inst_layout@ == o.program.inst_layout@,
                    dims_of(*base_ty) == Some(d),
                    *ty.0 == TypeKind::Array(*base_ty, *len),
                    dims_fit(d),
                    stride == elem_count(*base_ty),
                    pos + *len * stride <= usize::MAX,
                    forall|j: int| 0 <= j < i ==> if base_ty.spec_kind() is Integer {
                        &&& (#[trigger] elems@[j]) < r.program.values@.len()
                        &&& r.program.values@[elems@[j] as int].ty == IrType::Int32
                        &&& r.program.values@[elems@[j] as int].kind == ValueKind::Integer(init_at(init@, pos + j))
                    } else {
                        global_init(r.program, elems@[j], *base_ty, init@, pos + j * elem_count(*base_ty))
                    },
                decreases *len - i,
            {
                let ghost m = *r;
                proof {
                    assert(i * stride + stride <= *len * stride) by (nonlinear_arith)
                        requires
                            i < *len,
                            stride >= 0,
                    ;
                    assert(i * stride >= 0) by (nonlinear_arith)
                        requires
                            stride >= 0,
                    ;
                }
                let e = if matches!(base_ty.kind(), TypeKind::Integer) {
                    let k = pos + i;
                    let x = if k < init.len() {
                        init[k]
                    } else {
                        0
                    };
                    r.new_global_value(IrType::Int32, ValueKind::Integer(x))
                } else {
                    proof {
                        assert(decreases_to!(*ty => ty.0));
                        assert(decreases_to!(*ty.0 => (*ty.0)->Array_0));
                        assert(decreases_to!(*ty => *base_ty));
                    }
                    init_global_array_recur(r, base_ty, init, pos + i * stride)
                };
                elems.push(e);
                proof {
                    assert(r.program.values@.subrange(0, o.program.values@.len() as int) =~= o.program.values@) by {
                        assert(m.program.values@.subrange(0, o.program.values@.len() as int) == o.program.values@);
                    }
                    assert forall|j: int| 0 <= j < i + 1 implies if base_ty.spec_kind() is Integer {
                        &&& (#[trigger] elems@[j]) < r.program.values@.len()
                        &&& r.program.values@[elems@[j] as int].ty == IrType::Int32
                        &&& r.program.values@[elems@[j] as int].kind == ValueKind::Integer(init_at(init@, pos + j))
                    } else {
                        global_init(r.program, elems@[j], *base_ty, init@, pos + j * elem_count(*base_ty))
                    } by {
                        if j < i {
                            if base_ty.spec_kind() is Integer {
                                assert(r.program.values@[elems@[j] as int] == m.program.values@[elems@[j] as int]);
                            } else {
                                lemma_global_init_stable(m.program, r.program, elems@[j], *base_ty, init@,
                                    pos + j * elem_count(*base_ty));
                            }
                        }
                    }
                }
                i = i + 1;
            }
            let ghost m = *r;
            let v = r.new_global_value(ty.get_ir_ty(), ValueKind::Aggregate(elems));
            proof {
                assert(r.program.values@.subrange(0, o.program.values@.len() as int) =~= o.program.values@) by {
                    assert(m.program.values@.subrange(0, o.program.values@.len() as int) == o.program.values@);
                }
                assert forall|j: int| 0 <= j < *len implies if base_ty.spec_kind() is Integer {
                    &&& (#[trigger] elems@[j]) < r.program.values@.len()
                    &&& r.program.values@[elems@[j] as int].ty == IrType::Int32
                    &&& r.program.values@[elems@[j] as int].kind == ValueKind::Integer(init_at(init@, pos + j))
                } else {
                    global_init(r.program, elems@[j], *base_ty, init@, pos + j * elem_count(*base_ty))
                } by {
                    if base_ty.spec_kind() is Integer {
                        assert(r.program.values@[elems@[j] as int] == m.program.values@[elems@[j] as int]);
                    } else {
                        lemma_global_init_stable(m.program, r.program, elems@[j], *base_ty, init@,
                            pos + j * elem_count(*base_ty));
                    }
                }
            }
            v
        },
        _ => {
            proof { assert(false); }
            0
        },
    }
}

/// `len` times the size of `d` is the size of `[len] + d`, and both fit.
pub proof fn lemma_size_mul(len: usize, d: Seq<usize>)
    requires
        dims_fit(seq![len].add(d)),
    ensures
        size_of_dims(seq![len].add(d)) == len * size_of_dims(d),
        len * size_of_dims(d) <= usize::MAX,
        dims_fit(d),
        size_of_dims(d) >= 0,
{
    assert(seq![len].add(d).drop_first() =~= d);
    lemma_size_of_dims_nonneg(d);
}

/// The global initializer of an array of type `ty` with the elements `init`.
pub fn init_global_array(r: &mut ProgramRecorder, ty: &Type, init: &[i32]) -> (v: usize)
    requires
        old(r).inv(),
        dims_of(*ty) is Some,
        dims_fit(dims_of(*ty)->0),
        ty.spec_kind() is Array,
    ensures
        final(r).inv(),
        final(r).same_ctx(old(r)),
        final(r).program.values@.len() > old(r).program.values@.len(),
        final(r).program.values@.subrange(0, old(r).program.values@.len() as int) == old(r).program.values@,
        final(r).program.blocks@ == old(r).program.blocks@,
        final(r).program.funcs@ == old(r).program.funcs@,
        final(r).program.inst_layout@ == old(r).program.inst_layout@,
        global_init(final(r).program, v, *ty, init@, 0),
{
    proof {
        lemma_size_of_dims_nonneg(dims_of(*ty)->0);
        let k = ty.spec_kind();
        if let TypeKind::Array(base, len) = k {
            lemma_size_mul(len, dims_of(base)->0);
        }
    }
    init_global_array_recur(r, ty, init, 0)
}

/// The integer that value `v` of `vals` stores, where it is a store of an
/// integer literal made before it.
pub open spec fn stored_int(vals: Seq<ValueData>, v: int) -> Option<i32> {
    match vals[v].kind {
        ValueKind::Store(src, _) => if src < v {
            match vals[src as int].kind {
                ValueKind::Integer(x) => Some(x),
                _ => None,
            }
        } else {
            None
        },
        _ => None,
    }
}

/// The integers that the values `vals[from..to]` store, in order.
pub open spec fn stored_ints(vals: Seq<ValueData>, from: int, to: int) -> Seq<i32>
    decreases to - from,
{
    if to <= from {
        Seq::empty()
    } else {
        let rest = stored_ints(vals, from, to - 1);
        match stored_int(vals, to - 1) {
            Some(x) => rest.push(x),
            None => rest,
        }
    }
}

/// The `n` initial values from position `pos` on.
pub open spec fn init_run(init: Seq<i32>, pos: int, n: int) -> Seq<i32> {
    Seq::new(n as nat, |k: int| init_at(init, pos + k))
}

pub proof fn lemma_stored_split(vals: Seq<ValueData>, a: int, b: int, c: int)
    requires
        a <= b <= c,
    ensures
        stored_ints(vals, a, c) == stored_ints(vals, a, b) + stored_ints(vals, b, c),
    decreases c - b,
{
    if c == b {
        assert(stored_ints(vals, a, b) + stored_ints(vals, b, c) =~= stored_ints(vals, a, b));
    } else {
        lemma_stored_split(vals, a, b, c - 1);
        assert(stored_ints(vals, a, c) =~= stored_ints(vals, a, b) + stored_ints(vals, b, c));
    }
}

pub proof fn lemma_stored_prefix(v1: Seq<ValueData>, v2: Seq<ValueData>, a: int, b: int)
    requires
        0 <= a,
        b <= v1.len() <= v2.len(),
        forall|i: int| 0 <= i < v1.len() ==> v2[i] == #[trigger] v1[i],
    ensures
        stored_ints(v2, a, b) == stored_ints(v1, a, b),
    decreases b - a,
{
    if b > a {
        lemma_stored_prefix(v1, v2, a, b - 1);
        assert(v2[b - 1] == v1[b - 1]);
    }
}

/// Stores the elements `init[pos..]` of an array of type `ty` into the
/// memory that `dst` points to, one store per integer, zero past the end of
/// `init`; element pointers lead to each sub-array.
pub fn init_array_recur(r: &mut ProgramRecorder, dst: usize, ty: &Type, init: &[i32], pos: usize)
    requires
        shape_ok(*old(r)),
        dst < old(r).program.values@.len(),
        dims_of(*ty) is Some,
        dims_fit(dims_of(*ty)->0),
        pos + elem_count(*ty) <= usize::MAX,
    ensures
        shape_ok(*final(r)),
        gen_step(*old(r), *final(r)),
        final(r).same_ctx(old(r)),
        stored_ints(final(r).program.values@, old(r).program.values@.len() as int, final(r).program.values@.len() as int)
            == init_run(init@, pos as int, elem_count(*ty)),
    decreases ty,
{
    let ghost o = *r;
    proof {
        lemma_gen_step_refl(o);
    }
    match ty.kind() {
        TypeKind::Integer => {
            let x = if pos < init.len() {
                init[pos]
            } else {
                0
            };
            let value = detached_value(r, IrType::Int32, ValueKind::Integer(x));
            let ghost m = *r;
            emit(r, IrType::Unit, ValueKind::Store(value, dst));
            proof {
                lemma_gen_step_trans(o, m, *r);
                let vals = r.program.values@;
                let n0 = o.program.values@.len() as int;
                assert(dims_of(*ty) == Some(Seq::<usize>::empty()));
                assert(elem_count(*ty) == 1);
                assert(stored_int(vals, n0) is None);
                assert(stored_int(vals, n0 + 1) == Some(x));
                assert(stored_ints(vals, n0, n0) =~= Seq::<i32>::empty());
                assert(stored_ints(vals, n0, n0 + 1) =~= Seq::<i32>::empty());
                assert(stored_ints(vals, n0, n0 + 2) =~= init_run(init@, pos as int, 1));
            }
        },
        TypeKind::Array(base_ty, len) => {
            let ghost d = dims_of(*base_ty)->0;
            proof {
                assert(dims_of(*ty)->0 == seq![*len].add(d));
                lemma_size_mul(*len, d);
            }
            let stride = if matches!(base_ty.kind(), TypeKind::Integer) { 1 } else { base_ty.size() };
            let mut i: usize = 0;
            while i < *len
                invariant
                    shape_ok(*r),
                    shape_ok(o),
                    gen_step(o, *r),
                    r.same_ctx(&o),
                    r.cur() == o.cur(),
                    i <= *len,
                    dst < o.program.values@.len(),
                    dims_of(*base_ty) == Some(d),
                    *ty.0 == TypeKind::Array(*base_ty, *len),
                    dims_fit(d),
                    stride == elem_count(*base_ty),
                    pos + *len * stride <= usize::MAX,
                    stored_ints(r.program.values@, o.program.values@.len() as int, r.program.values@.len() as int)
                        == init_run(init@, pos as int, i * stride),
                    elem_count(*ty) == *len * stride,
                decreases *len - i,
            {
                let ghost m = *r;
                proof {
                    assert(i * stride + stride <= *len * stride) by (nonlinear_arith)
                        requires
                            i < *len,
                            stride >= 0,
                    ;
                    assert(i * stride >= 0) by (nonlinear_arith)
                        requires
                            stride >= 0,
                    ;
                }
                let next_pos = pos + i * stride;
                let index = detached_value(r, IrType::Int32, ValueKind::Integer(i as i32));
                let ghost m1 = *r;
                let idx = vec![index];
                let elem = get_elem_ptr(r, dst, idx.as_slice());
                let ghost m2 = *r;
                proof {
                    assert(decreases_to!(*ty => ty.0));
                    assert(decreases_to!(*ty.0 => (*ty.0)->Array_0));
                    assert(decreases_to!(*ty => *base_ty));
                }
                init_array_recur(r, elem, base_ty, init, next_pos);
                proof {
                    lemma_gen_step_trans(m, m1, m2);
                    lemma_gen_step_trans(m, m2, *r);
                    lemma_gen_step_trans(o, m, *r);
                    let n0 = o.program.values@.len() as int;
                    let na = m.program.values@.len() as int;
                    let nb = m2.program.values@.len() as int;
                    let nc = r.program.values@.len() as int;
                    let vals = r.program.values@;
                    lemma_stored_split(vals, n0, na, nc);
                    lemma_stored_split(vals, na, nb, nc);
                    lemma_stored_prefix(m.program.values@, vals, n0, na);
                    lemma_stored_prefix(m2.program.values@, vals, na, nb);
                    assert(m1.program.values@.len() == na + 1);
                    assert(nb == na + 2);
                    assert(m2.program.values@.subrange(0, na + 1)[na] == m1.program.values@[na]);
                    assert(m2.program.values@[na] == m1.program.values@[na]);
                    assert(m2.program.values@[na].kind is Integer);
                    assert(idx@.len() == 1);
                    assert(m2.program.values@[m1.program.values@.len() + 0int].kind is GetElemPtr);
                    assert(m2.program.values@[na + 1].kind is GetElemPtr);
                    assert(stored_int(m2.program.values@, na) is None);
                    assert(stored_int(m2.program.values@, na + 1) is None);
                    assert(stored_ints(m2.program.values@, na, na) =~= Seq::<i32>::empty());
                    assert(stored_ints(m2.program.values@, na, na + 1) =~= Seq::<i32>::empty());
                    assert(stored_ints(m2.program.values@, na, nb) =~= Seq::<i32>::empty());
                    assert((i + 1) * stride == i * stride + stride) by (nonlinear_arith);
                    assert(init_run(init@, pos as int, i * stride) + init_run(init@, next_pos as int, elem_count(*base_ty))
                        =~= init_run(init@, pos as int, (i + 1) * stride));
                }
                i = i + 1;
            }
        },
        _ => {
            proof { assert(false); }
        },
    }
}

/// Stores the elements `init` of an array of type `ty` into the memory that `dst` points to.
pub fn init_array(r: &mut ProgramRecorder, dst: usize, ty: &Type, init: &[i32])
    requires
        shape_ok(*old(r)),
        dst < old(r).program.values@.len(),
        dims_of(*ty) is Some,
        dims_fit(dims_of(*ty)->0),
    ensures
        shape_ok(*final(r)),
        gen_step(*old(r), *final(r)),
        final(r).same_ctx(old(r)),
        stored_ints(final(r).program.values@, old(r).program.values@.len() as int, final(r).program.values@.len() as int)
            == init_run(init@, 0, elem_count(*ty)),
{
    proof {
        lemma_size_of_dims_nonneg(dims_of(*ty)->0);
        if dims_of(*ty)->0.len() > 0 {
            assert(size_of_dims(dims_of(*ty)->0) <= usize::MAX);
        }
    }
    init_array_recur(r, dst, ty, init, 0);
}

} // verus!
