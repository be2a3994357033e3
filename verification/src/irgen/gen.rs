use vstd::prelude::*;

use crate::ast::exp::{BinaryExpr, BinaryOp, Call, Expr, InitVal, LVal, UnaryExpr, UnaryOp};
use crate::ast::{
    Assign, Block, BlockItem, Branch, Break, CompUnit, ConstDecl, Continue, Decl, ExprKind, FuncDef, FuncParam,
    GlobalItem, Return, Stmt, VarDecl, While,
};
use crate::codegen::program::IrBinaryOp;
use crate::ir::{assoc_map, is_term, kind_ok, pointee, IrType, Program, ValueData, ValueKind};
use crate::irgen::record::{blocks_pushed, entered_func, func_sig_ok, lemma_assoc_below, layout_pushed, FunctionInfo, ProgramRecorder};
use crate::irgen::utils::{
    array_elems, binary, eval_array, get_elem_ptr, global_init, init_array, init_global_array, into_ptr, local_alloc,
    logical_not, negative,
};
use crate::sema::ty::{dims_fit, dims_of, ir_ty_of, Type, TypeKind};

verus! {

/// Whether block `b` has been created but is neither laid out nor filled.
pub open spec fn pending(r: ProgramRecorder, b: usize) -> bool {
    let lay = r.program.funcs@[r.cur().func as int].layout@;
    &&& b < r.program.blocks@.len()
    &&& !lay.contains(b)
    &&& r.program.blocks@[b as int].insts@.len() == 0
}

/// The shape of the current function while its body is generated: the
/// entry block comes first; the entry block and the current block hold no
/// terminator; every other laid-out block ends with its only terminator; the
/// end block and the exits of the enclosing loops wait to be laid out.
pub open spec fn shape_ok(r: ProgramRecorder) -> bool {
    let fi = r.cur();
    let p = r.program;
    let lay = p.funcs@[fi.func as int].layout@;
    &&& r.inv()
    &&& r.cur_func is Some
    &&& lay.len() > 0
    &&& lay[0] == fi.entry_bb
    &&& lay.contains(fi.cur_bb)
    &&& p.is_open(fi.cur_bb)
    &&& p.is_open(fi.entry_bb)
    &&& forall|i: int|
        0 <= i < lay.len() && lay[i] != fi.cur_bb && lay[i] != fi.entry_bb ==> p.is_closed(#[trigger] lay[i])
    &&& pending(r, fi.end_bb)
    &&& forall|i: int| 0 <= i < r.loops@.len() ==> pending(r, (#[trigger] r.loops@[i]).exit)
}

/// Whether `new` follows `old` by generating code inside the current
/// function: what existed stays, but for instructions appended to the entry
/// block and the current block, and blocks appended to the layout, all of
/// them new; the current block is the old one or a new one.
pub open spec fn gen_step(old: ProgramRecorder, new: ProgramRecorder) -> bool {
    let fi = old.cur();
    let ni = new.cur();
    let f = fi.func as int;
    &&& new.cur_func is Some
    &&& new.symbols == old.symbols
    &&& new.funcs@ == old.funcs@
    &&& new.loops@ == old.loops@
    &&& ni.func == fi.func
    &&& ni.entry_bb == fi.entry_bb
    &&& ni.end_bb == fi.end_bb
    &&& ni.ret_val == fi.ret_val
    &&& (ni.cur_bb == fi.cur_bb || ni.cur_bb >= old.program.blocks@.len())
    &&& old.values@.is_prefix_of(new.values@)
    &&& old.program.grows_to(new.program, set![fi.entry_bb, fi.cur_bb], set![fi.func])
    &&& new.program.inst_layout@ == old.program.inst_layout@
    &&& new.program.funcs@.len() == old.program.funcs@.len()
    &&& forall|i: int|
        old.program.funcs@[f].layout@.len() <= i < new.program.funcs@[f].layout@.len()
            ==> #[trigger] new.program.funcs@[f].layout@[i] >= old.program.blocks@.len()
}

pub proof fn lemma_gen_step_refl(r: ProgramRecorder)
    requires
        r.cur_func is Some,
        r.inv(),
    ensures
        gen_step(r, r),
{
    assert(r.values@.is_prefix_of(r.values@));
    assert(r.program.inst_layout@.is_prefix_of(r.program.inst_layout@));
    assert forall|b: int| 0 <= b < r.program.blocks@.len() implies r.program.blocks@[b].insts@.is_prefix_of(
        (#[trigger] r.program.blocks@[b]).insts@,
    ) by {}
    assert forall|g: int| 0 <= g < r.program.funcs@.len() implies r.program.funcs@[g].layout@.is_prefix_of(
        (#[trigger] r.program.funcs@[g]).layout@,
    ) by {}
}

pub proof fn lemma_gen_step_trans(a: ProgramRecorder, b: ProgramRecorder, c: ProgramRecorder)
    requires
        a.cur_func is Some,
        a.inv(),
        b.inv(),
        a.cur().func < a.program.funcs@.len(),
        gen_step(a, b),
        gen_step(b, c),
    ensures
        gen_step(a, c),
{
    let fi = a.cur();
    let f = fi.func as int;
    let pa = a.program;
    let pb = b.program;
    let pc = c.program;
    assert forall|x: int| 0 <= x < pa.blocks@.len() implies {
        &&& pc.blocks@[x].name == (#[trigger] pa.blocks@[x]).name
        &&& pc.blocks@[x].params@ == pa.blocks@[x].params@
        &&& if set![fi.entry_bb, fi.cur_bb].contains(x as usize) {
            pa.blocks@[x].insts@.is_prefix_of(pc.blocks@[x].insts@)
        } else {
            pc.blocks@[x].insts@ == pa.blocks@[x].insts@
        }
    } by {
        assert(pb.blocks@[x] == pb.blocks@[x]);
        if set![fi.entry_bb, fi.cur_bb].contains(x as usize) {
            assert(pa.blocks@[x].insts@.is_prefix_of(pb.blocks@[x].insts@));
            if set![b.cur().entry_bb, b.cur().cur_bb].contains(x as usize) {
                assert(pb.blocks@[x].insts@.is_prefix_of(pc.blocks@[x].insts@));
            }
        } else {
            assert(pb.blocks@[x].insts@ == pa.blocks@[x].insts@);
            assert(!set![b.cur().entry_bb, b.cur().cur_bb].contains(x as usize));
        }
    }
    assert forall|g: int| 0 <= g < pa.funcs@.len() implies {
        &&& pc.funcs@[g].name == (#[trigger] pa.funcs@[g]).name
        &&& pc.funcs@[g].params@ == pa.funcs@[g].params@
        &&& pc.funcs@[g].param_tys@ == pa.funcs@[g].param_tys@
        &&& pc.funcs@[g].ret_ty == pa.funcs@[g].ret_ty
        &&& if set![fi.func].contains(g as usize) {
            pa.funcs@[g].layout@.is_prefix_of(pc.funcs@[g].layout@)
        } else {
            pc.funcs@[g].layout@ == pa.funcs@[g].layout@
        }
    } by {
        assert(pb.funcs@[g] == pb.funcs@[g]);
    }
    assert forall|i: int| 0 <= i < pa.values@.len() implies pc.values@[i] == #[trigger] pa.values@[i] by {
        assert(pb.values@[i] == pa.values@[i]);
    }
    assert forall|i: int|
        pa.funcs@[f].layout@.len() <= i < pc.funcs@[f].layout@.len() implies #[trigger] pc.funcs@[f].layout@[i]
        >= pa.blocks@.len() by {
        if i < pb.funcs@[f].layout@.len() {
            assert(pb.funcs@[f].layout@.is_prefix_of(pc.funcs@[f].layout@));
            assert(pc.funcs@[f].layout@[i] == pb.funcs@[f].layout@[i]);
        }
    }
}

/// Whether the body of the current function is being generated: the shape
/// holds and the current block is not the entry block.
pub open spec fn body_ok(r: ProgramRecorder) -> bool {
    &&& shape_ok(r)
    &&& r.cur().cur_bb != r.cur().entry_bb
}

/// A block keeps its shape while its instructions and their values stay.
pub proof fn lemma_block_stable(p: Program, q: Program, b: usize)
    requires
        p.wf(),
        b < p.blocks@.len(),
        b < q.blocks@.len(),
        p.values@.len() <= q.values@.len(),
        forall|i: int| 0 <= i < p.values@.len() ==> q.values@[i] == #[trigger] p.values@[i],
        q.blocks@[b as int].insts@ == p.blocks@[b as int].insts@,
    ensures
        p.is_closed(b) ==> q.is_closed(b),
        p.is_open(b) ==> q.is_open(b),
{
    let insts = p.blocks@[b as int].insts@;
    assert(crate::ir::all_below(insts, p.values@.len() as int));
    if insts.len() > 0 {
        assert(q.values@[insts.last() as int] == p.values@[insts.last() as int]);
    }
    assert forall|i: int| 0 <= i < insts.len() implies #[trigger] q.values@[insts[i] as int] == p.values@[insts[i] as int] by {
        assert(insts[i] < p.values@.len());
    }
}

/// Appending a value that is no terminator to block `b` keeps it open.
pub proof fn lemma_open_push(p: Program, q: Program, b: usize, v: usize)
    requires
        p.wf(),
        b < p.blocks@.len(),
        p.is_open(b),
        p.values@.len() <= q.values@.len(),
        forall|i: int| 0 <= i < p.values@.len() ==> q.values@[i] == #[trigger] p.values@[i],
        q.blocks@[b as int].insts@ == p.blocks@[b as int].insts@.push(v),
        v < q.values@.len(),
        !is_term(q.values@[v as int].kind),
    ensures
        q.is_open(b),
{
    let insts = p.blocks@[b as int].insts@;
    assert(crate::ir::all_below(insts, p.values@.len() as int));
    let qi = q.blocks@[b as int].insts@;
    assert forall|i: int| 0 <= i < qi.len() implies !is_term(#[trigger] q.values@[qi[i] as int].kind) by {
        if i < insts.len() {
            assert(qi[i] == insts[i]);
            assert(insts[i] < p.values@.len());
            assert(q.values@[insts[i] as int] == p.values@[insts[i] as int]);
        }
    }
}

/// Appending a terminator to an open block closes it.
pub proof fn lemma_close_push(p: Program, q: Program, b: usize, v: usize)
    requires
        p.wf(),
        b < p.blocks@.len(),
        p.is_open(b),
        p.values@.len() <= q.values@.len(),
        forall|i: int| 0 <= i < p.values@.len() ==> q.values@[i] == #[trigger] p.values@[i],
        q.blocks@[b as int].insts@ == p.blocks@[b as int].insts@.push(v),
        v < q.values@.len(),
        is_term(q.values@[v as int].kind),
    ensures
        q.is_closed(b),
{
    let insts = p.blocks@[b as int].insts@;
    assert(crate::ir::all_below(insts, p.values@.len() as int));
    let qi = q.blocks@[b as int].insts@;
    assert forall|i: int| 0 <= i < qi.len() - 1 implies !is_term(#[trigger] q.values@[qi[i] as int].kind) by {
        assert(qi[i] == insts[i]);
        assert(insts[i] < p.values@.len());
        assert(q.values@[insts[i] as int] == p.values@[insts[i] as int]);
    }
}

/// Appends a new value that is no terminator to block `bb`, which is the
/// current block or the entry block.
pub(crate) fn emit_into(r: &mut ProgramRecorder, bb: usize, ty: IrType, name: Option<String>, kind: ValueKind) -> (v: usize)
    requires
        shape_ok(*old(r)),
        bb == old(r).cur().cur_bb || bb == old(r).cur().entry_bb,
        kind_ok(kind, old(r).program.values@.len() as int, old(r).program.blocks@.len() as int,
            old(r).program.funcs@.len() as int),
        !is_term(kind),
    ensures
        shape_ok(*final(r)),
        gen_step(*old(r), *final(r)),
        final(r).same_ctx(old(r)),
        v == old(r).program.values@.len(),
        final(r).program.values@ == old(r).program.values@.push(ValueData { ty, name, kind }),
        blocks_pushed(old(r).program.blocks@, final(r).program.blocks@, bb, v),
        final(r).program.funcs@ == old(r).program.funcs@,
        final(r).program.inst_layout@ == old(r).program.inst_layout@,
{
    let ghost o = *r;
    let v = r.new_named_value(ty, name, kind);
    let ghost m = *r;
    r.push_inst_to(bb, v);
    proof {
        let p = o.program;
        let q = r.program;
        let fi = o.cur();
        let lay = p.funcs@[fi.func as int].layout@;
        assert(q.funcs@[fi.func as int].layout@ == lay);
        lemma_open_push(p, q, bb, v);
        if bb == fi.cur_bb {
            if fi.entry_bb != fi.cur_bb {
                lemma_block_stable(p, q, fi.entry_bb);
            }
        } else {
            if fi.entry_bb != fi.cur_bb {
                lemma_block_stable(p, q, fi.cur_bb);
            }
        }
        assert forall|i: int|
            0 <= i < lay.len() && lay[i] != fi.cur_bb && lay[i] != fi.entry_bb implies q.is_closed(
            #[trigger] lay[i],
        ) by {
            assert(p.is_closed(lay[i]));
            assert(lay[i] < p.blocks@.len());
            lemma_block_stable(p, q, lay[i]);
        }
        assert(q.blocks@[fi.end_bb as int] == p.blocks@[fi.end_bb as int]);
        assert forall|i: int| 0 <= i < r.loops@.len() implies pending(*r, (#[trigger] r.loops@[i]).exit) by {
            assert(pending(o, o.loops@[i].exit));
            assert(q.blocks@[o.loops@[i].exit as int] == p.blocks@[o.loops@[i].exit as int]);
        }
        assert(o.values@.is_prefix_of(r.values@));
        assert(p.inst_layout@.is_prefix_of(q.inst_layout@));
        assert forall|x: int| 0 <= x < p.blocks@.len() implies {
            &&& q.blocks@[x].name == (#[trigger] p.blocks@[x]).name
            &&& q.blocks@[x].params@ == p.blocks@[x].params@
            &&& if set![fi.entry_bb, fi.cur_bb].contains(x as usize) {
                p.blocks@[x].insts@.is_prefix_of(q.blocks@[x].insts@)
            } else {
                q.blocks@[x].insts@ == p.blocks@[x].insts@
            }
        } by {
            if x != bb {
                assert(q.blocks@[x] == p.blocks@[x]);
            }
        }
        assert forall|g: int| 0 <= g < p.funcs@.len() implies p.funcs@[g].layout@.is_prefix_of(
            (#[trigger] q.funcs@[g]).layout@,
        ) by {}
    }
    v
}

/// Appends a new value that is no terminator to the current block.
pub fn emit(r: &mut ProgramRecorder, ty: IrType, kind: ValueKind) -> (v: usize)
    requires
        shape_ok(*old(r)),
        kind_ok(kind, old(r).program.values@.len() as int, old(r).program.blocks@.len() as int,
            old(r).program.funcs@.len() as int),
        !is_term(kind),
    ensures
        shape_ok(*final(r)),
        gen_step(*old(r), *final(r)),
        final(r).same_ctx(old(r)),
        v == old(r).program.values@.len(),
        final(r).program.values@ == old(r).program.values@.push(ValueData { ty, name: None, kind }),
        blocks_pushed(old(r).program.blocks@, final(r).program.blocks@, old(r).cur().cur_bb, v),
        final(r).program.funcs@ == old(r).program.funcs@,
        final(r).program.inst_layout@ == old(r).program.inst_layout@,
{
    let bb = r.func().cur_bb;
    emit_into(r, bb, ty, None, kind)
}

/// Appends a terminator to the current block and continues in block `next`,
/// which waits to be laid out.
pub fn terminate(r: &mut ProgramRecorder, kind: ValueKind, next: usize)
    requires
        body_ok(*old(r)),
        kind_ok(kind, old(r).program.values@.len() as int, old(r).program.blocks@.len() as int,
            old(r).program.funcs@.len() as int),
        is_term(kind),
        pending(*old(r), next),
        next != old(r).cur().end_bb,
        forall|i: int| 0 <= i < old(r).loops@.len() ==> next != (#[trigger] old(r).loops@[i]).exit,
    ensures
        body_ok(*final(r)),
        final(r).symbols == old(r).symbols,
        final(r).values@ == old(r).values@,
        final(r).funcs@ == old(r).funcs@,
        final(r).loops@ == old(r).loops@,
        final(r).cur_func == Some(FunctionInfo { cur_bb: next, ..old(r).cur() }),
        final(r).program.values@ == old(r).program.values@.push(
            ValueData { ty: IrType::Unit, name: None, kind },
        ),
        blocks_pushed(old(r).program.blocks@, final(r).program.blocks@, old(r).cur().cur_bb,
            old(r).program.values@.len() as usize),
        layout_pushed(old(r).program.funcs@, final(r).program.funcs@, old(r).cur().func, next),
        final(r).program.inst_layout@ == old(r).program.inst_layout@,
        old(r).program.is_closed(old(r).cur().cur_bb) == false,
        final(r).program.is_closed(old(r).cur().cur_bb),
{
    let ghost o = *r;
    let v = r.new_value(IrType::Unit, kind);
    r.push_inst(v);
    r.push_bb(next);
    proof {
        let p = o.program;
        let q = r.program;
        let fi = o.cur();
        let lay = p.funcs@[fi.func as int].layout@;
        let lay2 = q.funcs@[fi.func as int].layout@;
        assert(lay2 == lay.push(next));
        lemma_close_push(p, q, fi.cur_bb, v);
        lemma_block_stable(p, q, fi.entry_bb);
        lemma_block_stable(p, q, next);
        assert(q.is_open(next));
        assert(lay2[0] == fi.entry_bb);
        assert(lay2.contains(next)) by {
            assert(lay2[lay.len() as int] == next);
        }
        assert forall|i: int|
            0 <= i < lay2.len() && lay2[i] != next && lay2[i] != fi.entry_bb implies q.is_closed(
            #[trigger] lay2[i],
        ) by {
            if i < lay.len() {
                assert(lay2[i] == lay[i]);
                if lay[i] != fi.cur_bb {
                    assert(p.is_closed(lay[i]));
                    lemma_block_stable(p, q, lay[i]);
                }
            }
        }
        if p.is_closed(fi.cur_bb) {
            let insts = p.blocks@[fi.cur_bb as int].insts@;
            assert(insts.len() > 0);
            assert(!is_term(p.values@[insts[insts.len() - 1] as int].kind));
        }
        assert(!lay.contains(fi.end_bb));
        assert(!lay2.contains(fi.end_bb)) by {
            if lay2.contains(fi.end_bb) {
                let k = choose|k: int| 0 <= k < lay2.len() && lay2[k] == fi.end_bb;
                if k < lay.len() {
                    assert(lay[k] == fi.end_bb);
                }
            }
        }
        assert(q.blocks@[fi.end_bb as int] == p.blocks@[fi.end_bb as int]) by {
            assert(fi.end_bb != fi.cur_bb) by {
                assert(lay.contains(fi.cur_bb));
            }
        }
        assert forall|i: int| 0 <= i < r.loops@.len() implies pending(*r, (#[trigger] r.loops@[i]).exit) by {
            let e = o.loops@[i].exit;
            assert(pending(o, e));
            assert(e != fi.cur_bb) by {
                assert(lay.contains(fi.cur_bb));
            }
            assert(q.blocks@[e as int] == p.blocks@[e as int]);
            if lay2.contains(e) {
                let k = choose|k: int| 0 <= k < lay2.len() && lay2[k] == e;
                if k < lay.len() {
                    assert(lay[k] == e);
                }
            }
        }
    }
}

/// A new value that no block holds, such as an integer constant.
pub fn detached_value(r: &mut ProgramRecorder, ty: IrType, kind: ValueKind) -> (v: usize)
    requires
        shape_ok(*old(r)),
        kind_ok(kind, old(r).program.values@.len() as int, old(r).program.blocks@.len() as int,
            old(r).program.funcs@.len() as int),
    ensures
        shape_ok(*final(r)),
        gen_step(*old(r), *final(r)),
        final(r).same_ctx(old(r)),
        v == old(r).program.values@.len(),
        final(r).program.values@ == old(r).program.values@.push(ValueData { ty, name: None, kind }),
        final(r).program.blocks@ == old(r).program.blocks@,
        final(r).program.funcs@ == old(r).program.funcs@,
        final(r).program.inst_layout@ == old(r).program.inst_layout@,
{
    let ghost o = *r;
    let v = r.new_value(ty, kind);
    proof {
        let p = o.program;
        let q = r.program;
        let fi = o.cur();
        let lay = p.funcs@[fi.func as int].layout@;
        lemma_block_stable(p, q, fi.entry_bb);
        lemma_block_stable(p, q, fi.cur_bb);
        assert forall|i: int|
            0 <= i < lay.len() && lay[i] != fi.cur_bb && lay[i] != fi.entry_bb implies q.is_closed(
            #[trigger] lay[i],
        ) by {
            assert(p.is_closed(lay[i]));
            lemma_block_stable(p, q, lay[i]);
        }
        assert forall|i: int| 0 <= i < r.loops@.len() implies pending(*r, (#[trigger] r.loops@[i]).exit) by {
            assert(pending(o, o.loops@[i].exit));
        }
        lemma_gen_step_refl(o);
        assert(o.values@.is_prefix_of(r.values@));
    }
    v
}

/// A block that waits to be laid out keeps waiting while code is generated elsewhere.
pub proof fn lemma_pending_stable(a: ProgramRecorder, b: ProgramRecorder, x: usize)
    requires
        shape_ok(a),
        gen_step(a, b),
        pending(a, x),
    ensures
        pending(b, x),
{
    let fi = a.cur();
    let f = fi.func as int;
    let lay = a.program.funcs@[f].layout@;
    let lay2 = b.program.funcs@[f].layout@;
    assert(x != fi.cur_bb && x != fi.entry_bb) by {
        assert(lay.contains(fi.cur_bb));
        assert(lay[0] == fi.entry_bb);
    }
    assert(b.program.blocks@[x as int].insts@ == a.program.blocks@[x as int].insts@);
    assert(lay.is_prefix_of(lay2));
    if lay2.contains(x) {
        let k = choose|k: int| 0 <= k < lay2.len() && lay2[k] == x;
        if k < lay.len() {
            assert(lay[k] == x);
        }
    }
}

/// Whether the variable `l` names a value of integer, array or pointer type.
pub open spec fn lval_named(l: LVal, names: Set<Seq<char>>, types: Map<Seq<char>, Type>) -> bool {
    &&& names.contains(l.ident@)
    &&& types.contains_key(l.ident@)
    &&& (types[l.ident@].spec_kind() is Integer || types[l.ident@].spec_kind() is Array
        || types[l.ident@].spec_kind() is Pointer)
}

/// The parameter types of a function type.
pub open spec fn param_types(t: Type) -> Seq<Type> {
    match t.spec_kind() {
        TypeKind::Func(_, ps) => ps@,
        _ => Seq::empty(),
    }
}

/// Whether code can be generated for `e`: every variable lives in a value
/// and has a type, every function called is known and has a function type,
/// and no part of it was left by error recovery.
pub open spec fn expr_ready(e: Expr, names: Set<Seq<char>>, types: Map<Seq<char>, Type>, fnames: Set<Seq<char>>) -> bool
    decreases e, 0int,
{
    match e {
        Expr::Integer(_) => true,
        Expr::Error => false,
        Expr::LVal(l) => lval_named(l, names, types) && exprs_ready(l.dims@, 0, names, types, fnames),
        Expr::Binary(b) => expr_ready(*b.lhs, names, types, fnames) && expr_ready(*b.rhs, names, types, fnames),
        Expr::Unary(UnaryExpr::Unary(_, x)) => expr_ready(*x, names, types, fnames),
        Expr::Unary(UnaryExpr::Call(c)) => {
            &&& fnames.contains(c.ident@)
            &&& types.contains_key(c.ident@)
            &&& types[c.ident@].spec_kind() is Func
            &&& args_ready(c.args@, param_types(types[c.ident@]), 0, names, types, fnames)
        },
    }
}

/// Whether code can be generated for `es[i..]`.
pub open spec fn exprs_ready(es: Seq<Expr>, i: int, names: Set<Seq<char>>, types: Map<Seq<char>, Type>, fnames: Set<Seq<char>>) -> bool
    decreases es, es.len() - i,
{
    if i < 0 || i >= es.len() {
        true
    } else {
        expr_ready(es[i], names, types, fnames) && exprs_ready(es, i + 1, names, types, fnames)
    }
}

/// Whether code can be generated for the arguments `args[i..]` of a call of
/// a function with parameter types `ps`: an argument passed for a pointer
/// parameter that is a variable is passed by address.
pub open spec fn args_ready(args: Seq<Expr>, ps: Seq<Type>, i: int, names: Set<Seq<char>>, types: Map<Seq<char>, Type>, fnames: Set<Seq<char>>) -> bool
    decreases args, args.len() - i,
{
    if i < 0 || i >= args.len() || i >= ps.len() {
        true
    } else {
        &&& match args[i] {
            Expr::LVal(l) => if ps[i].spec_kind() is Pointer {
                lval_named(l, names, types) && exprs_ready(l.dims@, 0, names, types, fnames)
            } else {
                lval_named(l, names, types) && exprs_ready(l.dims@, 0, names, types, fnames)
            },
            _ => expr_ready(args[i], names, types, fnames),
        }
        &&& args_ready(args, ps, i + 1, names, types, fnames)
    }
}

/// Whether `e` can be generated in the state `r`.
pub open spec fn ready_in(e: Expr, r: ProgramRecorder) -> bool {
    expr_ready(e, r.bound().dom(), r.symbols@, r.func_ids().dom())
}

/// What generating an address promises: the body keeps its shape, the step
/// is a generation step that declares nothing, and the result is a value.
pub open spec fn addr_done(old: ProgramRecorder, new: ProgramRecorder, v: usize) -> bool {
    &&& body_ok(new)
    &&& gen_step(old, new)
    &&& new.values@ == old.values@
    &&& v < new.program.values@.len()
}

/// What expression generation promises: the body keeps its shape, the step
/// is a generation step that declares nothing, and the result is a value
/// made by this step.
pub open spec fn expr_done(old: ProgramRecorder, new: ProgramRecorder, v: usize) -> bool {
    &&& body_ok(new)
    &&& gen_step(old, new)
    &&& new.values@ == old.values@
    &&& old.program.values@.len() <= v < new.program.values@.len()
}

/// The operator of the intermediate representation for an arithmetic or
/// comparison operator of the source.
pub fn into_ir_op(op: BinaryOp) -> (r: IrBinaryOp)
    requires
        op != BinaryOp::And,
        op != BinaryOp::Or,
    ensures
        r == ir_op(op),
{
    match op {
        BinaryOp::Add => IrBinaryOp::Add,
        BinaryOp::Sub => IrBinaryOp::Sub,
        BinaryOp::Mul => IrBinaryOp::Mul,
        BinaryOp::Div => IrBinaryOp::Div,
        BinaryOp::Mod => IrBinaryOp::Mod,
        BinaryOp::Eq => IrBinaryOp::Eq,
        BinaryOp::Neq => IrBinaryOp::NotEq,
        BinaryOp::Lt => IrBinaryOp::Lt,
        BinaryOp::Le => IrBinaryOp::Le,
        BinaryOp::Gt => IrBinaryOp::Gt,
        BinaryOp::Ge => IrBinaryOp::Ge,
        _ => IrBinaryOp::Add,
    }
}

/// The operator of the intermediate representation chosen for an
/// arithmetic or comparison operator of the source computes what the source
/// operator computes, on any operands.
pub proof fn lemma_ir_op_computes(op: BinaryOp, lhs: int, rhs: int)
    requires
        op != BinaryOp::And,
        op != BinaryOp::Or,
    ensures
        crate::opt::sccp::fold_value(ir_op(op), lhs, rhs) == crate::ast::exp::binary_value(op, lhs, rhs),
{
}

pub open spec fn ir_op(op: BinaryOp) -> IrBinaryOp {
    match op {
        BinaryOp::Add => IrBinaryOp::Add,
        BinaryOp::Sub => IrBinaryOp::Sub,
        BinaryOp::Mul => IrBinaryOp::Mul,
        BinaryOp::Div => IrBinaryOp::Div,
        BinaryOp::Mod => IrBinaryOp::Mod,
        BinaryOp::Eq => IrBinaryOp::Eq,
        BinaryOp::Neq => IrBinaryOp::NotEq,
        BinaryOp::Lt => IrBinaryOp::Lt,
        BinaryOp::Le => IrBinaryOp::Le,
        BinaryOp::Gt => IrBinaryOp::Gt,
        _ => IrBinaryOp::Ge,
    }
}

impl Expr {
    /// Generates the code that computes the expression; gives the value that holds the result.
    pub fn generate_ir(&self, recorder: &mut ProgramRecorder) -> (r: Result<usize, String>)
        requires
            body_ok(*old(recorder)),
            ready_in(*self, *old(recorder)),
        ensures
            r matches Ok(v) && expr_generated(*self, *old(recorder), *final(recorder), v),
            *self matches Expr::Integer(i) ==> r == Ok::<usize, String>(old(recorder).program.values@.len() as usize)
                && final(recorder).program.values@ == old(recorder).program.values@.push(
                ValueData { ty: IrType::Int32, name: None, kind: ValueKind::Integer(i) },
            ) && final(recorder).program.blocks@ == old(recorder).program.blocks@,
        decreases self, 3int,
    {
        match self {
            Expr::Integer(i) => {
                let v = detached_value(recorder, IrType::Int32, ValueKind::Integer(*i));
                Ok(v)
            },
            Expr::Unary(uxp) => uxp.generate_ir(recorder),
            Expr::Binary(bxp) => bxp.generate_ir(recorder),
            Expr::LVal(lval) => Ok(load_lval(recorder, lval)),
            Expr::Error => {
                proof { assert(false); }
                Ok(0)
            },
        }
    }
}

impl BinaryExpr {
    pub fn generate_ir(&self, recorder: &mut ProgramRecorder) -> (r: Result<usize, String>)
        requires
            body_ok(*old(recorder)),
            ready_in(Expr::Binary(*self), *old(recorder)),
        ensures
            r matches Ok(v) && expr_generated(Expr::Binary(*self), *old(recorder), *final(recorder), v),
        decreases self, 2int,
    {
        let ghost o = *recorder;
        if self.op == BinaryOp::And || self.op == BinaryOp::Or {
            let result = short_circuit(recorder, self)?;
            let ghost m2 = *recorder;
            let ty = recorder.program.values[result].ty.pointee();
            let ld = emit(recorder, ty, ValueKind::Load(result));
            proof {
                lemma_gen_step_trans(o, m2, *recorder);
                let q = recorder.program;
                let (lv, lc, st1, br, rv, rc, st2, jm) = choose|
                    lv: usize,
                    lc: usize,
                    st1: usize,
                    br: usize,
                    rv: usize,
                    rc: usize,
                    st2: usize,
                    jm: usize,
                |
                    #[trigger] short_circuit_at(
                        m2.program,
                        self.op,
                        result,
                        o.program.blocks@.len() as usize,
                        (o.program.blocks@.len() + 1) as usize,
                        lv,
                        lc,
                        st1,
                        br,
                        rv,
                        rc,
                        st2,
                        jm,
                    ) && expr_value(*self.lhs, o.program.values@.len() as int, m2.program, lv) && lv < lc && expr_value(
                        *self.rhs,
                        br + 1,
                        m2.program,
                        rv,
                    ) && rv < rc;
                let end = o.program.blocks@.len() as usize;
                let check = (o.program.blocks@.len() + 1) as usize;
                lemma_short_circuit_kept(m2.program, q, self.op, result, end, check, lv, lc, st1, br, rv, rc, st2, jm);
                lemma_expr_value_kept(*self.lhs, o.program.values@.len() as int, o.program.values@.len() as int, m2.program, q, lv);
                lemma_expr_value_kept(*self.rhs, br + 1, br + 1, m2.program, q, rv);
                assert(q.values@[result as int] == m2.program.values@[result as int]);
                assert(short_circuit_at(q, self.op, result, end, check, lv, lc, st1, br, rv, rc, st2, jm));
                assert(expr_done(o, *recorder, ld));
                assert(expr_generated(Expr::Binary(*self), o, *recorder, ld));
            }
            Ok(ld)
        } else {
            let ghost o = *recorder;
            let lhs = self.lhs.generate_ir(recorder)?;
            let ghost m = *recorder;
            let rhs = self.rhs.generate_ir(recorder)?;
            let ghost m2 = *recorder;
            let v = binary(recorder, into_ir_op(self.op), lhs, rhs);
            proof {
                lemma_gen_step_trans(o, m, m2);
                lemma_gen_step_trans(o, m2, *recorder);
                let q = recorder.program;
                assert(expr_generated(*self.lhs, o, m, lhs));
                assert(expr_generated(*self.rhs, m, m2, rhs));
                lemma_expr_value_kept(*self.lhs, o.program.values@.len() as int, o.program.values@.len() as int, m.program, q, lhs);
                lemma_expr_value_kept(*self.rhs, m.program.values@.len() as int, lhs + 1, m2.program, q, rhs);
                assert(m2.program.values@.len() <= v);
                assert(expr_done(o, *recorder, v));
                assert(expr_generated(Expr::Binary(*self), o, *recorder, v));
            }
            Ok(v)
        }
    }
}

/// Creating a block keeps the shape, and is a step of generation.
pub proof fn lemma_new_bb_step(o: ProgramRecorder, m: ProgramRecorder, bb: usize)
    requires
        bb == o.program.blocks@.len(),
        body_ok(o),
        m.inv(),
        m.same_ctx(&o),
        m.program.values@ == o.program.values@,
        m.program.blocks@.len() == o.program.blocks@.len() + 1,
        m.program.blocks@.subrange(0, o.program.blocks@.len() as int) == o.program.blocks@,
        m.program.blocks@[o.program.blocks@.len() as int].insts@.len() == 0,
        m.program.funcs@ == o.program.funcs@,
        m.program.inst_layout@ == o.program.inst_layout@,
    ensures
        body_ok(m),
        gen_step(o, m),
        pending(m, bb),
{
    let p = o.program;
    let q = m.program;
    let nb = p.blocks@.len() as int;
    assert forall|x: int| 0 <= x < nb implies q.blocks@[x] == #[trigger] p.blocks@[x] by {
        assert(q.blocks@.subrange(0, nb)[x] == q.blocks@[x]);
    }
    let fi = o.cur();
    let lay = p.funcs@[fi.func as int].layout@;
    lemma_block_stable(p, q, fi.entry_bb);
    lemma_block_stable(p, q, fi.cur_bb);
    assert forall|i: int|
        0 <= i < lay.len() && lay[i] != fi.cur_bb && lay[i] != fi.entry_bb implies q.is_closed(#[trigger] lay[i]) by {
        assert(p.is_closed(lay[i]));
        lemma_block_stable(p, q, lay[i]);
    }
    assert forall|i: int| 0 <= i < m.loops@.len() implies pending(m, (#[trigger] m.loops@[i]).exit) by {
        assert(pending(o, o.loops@[i].exit));
    }
    lemma_gen_step_refl(o);
    assert(!lay.contains(bb)) by {
        if lay.contains(bb) {
            let k = choose|k: int| 0 <= k < lay.len() && lay[k] == bb;
            assert(crate::ir::all_below(lay, nb));
        }
    }
}

/// Whether the values `lc`, `st1`, `br`, `rc`, `st2`, `jm` of `p` make a
/// short-circuit `op` into the variable `slot`: `lc` is `lv != 0`, where
/// `lv` holds `lhs`, and `rc` is `rv != 0`, where `rv` holds `rhs`; `lc` is stored
/// to `slot` by `st1`; the branch `br` on `lc` goes to `check` (where `rhs`
/// is evaluated) when `lhs` does not decide, that is when it is nonzero for
/// `&&` and zero for `||`, and to `end` otherwise; `rc` is `rhs != 0`,
/// stored to `slot` by `st2`, and `jm` jumps to `end`.
pub open spec fn short_circuit_at(
    p: Program,
    op: BinaryOp,
    slot: usize,
    end: usize,
    check: usize,
    lv: usize,
    lc: usize,
    st1: usize,
    br: usize,
    rv: usize,
    rc: usize,
    st2: usize,
    jm: usize,
) -> bool {
    &&& lc < p.values@.len() && st1 < p.values@.len() && br < p.values@.len()
    &&& rc < p.values@.len() && st2 < p.values@.len() && jm < p.values@.len() && slot < p.values@.len()
    &&& p.values@[lc as int].kind matches ValueKind::Binary(IrBinaryOp::NotEq, x, z) && x == lv && z < p.values@.len()
        && p.values@[z as int].kind == ValueKind::Integer(0)
    &&& p.values@[st1 as int].kind == ValueKind::Store(lc, slot)
    &&& p.values@[br as int].kind matches ValueKind::Branch(c, t, ta, f, fa) && c == lc && ta@.len() == 0 && fa@.len()
        == 0 && (if op == BinaryOp::And {
        t == check && f == end
    } else {
        t == end && f == check
    })
    &&& p.values@[rc as int].kind matches ValueKind::Binary(IrBinaryOp::NotEq, x, z) && x == rv && z < p.values@.len()
        && p.values@[z as int].kind == ValueKind::Integer(0)
    &&& p.values@[st2 as int].kind == ValueKind::Store(rc, slot)
    &&& p.values@[jm as int].kind matches ValueKind::Jump(t, a) && t == end && a@.len() == 0
}

proof fn lemma_short_circuit_kept(
    p: Program,
    q: Program,
    op: BinaryOp,
    slot: usize,
    end: usize,
    check: usize,
    lv: usize,
    lc: usize,
    st1: usize,
    br: usize,
    rv: usize,
    rc: usize,
    st2: usize,
    jm: usize,
)
    requires
        short_circuit_at(p, op, slot, end, check, lv, lc, st1, br, rv, rc, st2, jm),
        p.values@.len() <= q.values@.len(),
        forall|i: int| 0 <= i < p.values@.len() ==> q.values@[i] == #[trigger] p.values@[i],
    ensures
        short_circuit_at(q, op, slot, end, check, lv, lc, st1, br, rv, rc, st2, jm),
{
    let z1 = p.values@[lc as int].kind->Binary_2;
    let z2 = p.values@[rc as int].kind->Binary_2;
    assert(q.values@[z1 as int] == p.values@[z1 as int]);
    assert(q.values@[z2 as int] == p.values@[z2 as int]);
    assert(q.values@[lc as int] == p.values@[lc as int]);
    assert(q.values@[rc as int] == p.values@[rc as int]);
    assert(q.values@[st1 as int] == p.values@[st1 as int]);
    assert(q.values@[st2 as int] == p.values@[st2 as int]);
    assert(q.values@[br as int] == p.values@[br as int]);
    assert(q.values@[jm as int] == p.values@[jm as int]);
}

/// Whether `v`, at or after value `lo`, is what code of `p` computes for
/// the expression `e`: a literal for a literal, a load for a variable; for
/// `&&` and `||`, a load of a local variable that a short circuit fills from
/// a value computed for `lhs` and, after the branch, one computed for `rhs`;
/// for another operator, that operator applied to a value computed for the
/// left operand and a later one computed for the right operand.
pub open spec fn expr_value(e: Expr, lo: int, p: Program, v: usize) -> bool
    decreases e,
{
    &&& lo <= v < p.values@.len()
    &&& match e {
        Expr::Integer(i) => p.values@[v as int].kind == ValueKind::Integer(i),
        Expr::LVal(_) => p.values@[v as int].kind is Load,
        Expr::Binary(b) => if b.op == BinaryOp::And || b.op == BinaryOp::Or {
            &&& p.values@[v as int].kind matches ValueKind::Load(slot) && slot < p.values@.len() && p.values@[
                slot as int].kind is Alloc && exists|
                end: usize,
                check: usize,
                lv: usize,
                lc: usize,
                st1: usize,
                br: usize,
                rv: usize,
                rc: usize,
                st2: usize,
                jm: usize,
            |
                #[trigger] short_circuit_at(p, b.op, slot, end, check, lv, lc, st1, br, rv, rc, st2, jm) && expr_value(
                    *b.lhs,
                    lo,
                    p,
                    lv,
                ) && lv < lc && expr_value(*b.rhs, br + 1, p, rv) && rv < rc
        } else {
            p.values@[v as int].kind matches ValueKind::Binary(op2, l, r) && op2 == ir_op(b.op) && expr_value(
                *b.lhs,
                lo,
                p,
                l,
            ) && expr_value(*b.rhs, l + 1, p, r) && r < v
        },
        _ => true,
    }
}

/// What `expr_value` says stays true with a lower bound that is not
/// higher, and of a program that only adds values after those of `p`.
pub proof fn lemma_expr_value_kept(e: Expr, lo: int, lo2: int, p: Program, q: Program, v: usize)
    requires
        expr_value(e, lo, p, v),
        lo2 <= lo,
        p.values@.len() <= q.values@.len(),
        forall|i: int| 0 <= i < p.values@.len() ==> q.values@[i] == #[trigger] p.values@[i],
    ensures
        expr_value(e, lo2, q, v),
    decreases e,
{
    assert(q.values@[v as int] == p.values@[v as int]);
    match e {
        Expr::Binary(b) => {
            if b.op == BinaryOp::And || b.op == BinaryOp::Or {
                let slot = p.values@[v as int].kind->Load_0;
                assert(q.values@[slot as int] == p.values@[slot as int]);
                let (end, check, lv, lc, st1, br, rv, rc, st2, jm) = choose|
                    end: usize,
                    check: usize,
                    lv: usize,
                    lc: usize,
                    st1: usize,
                    br: usize,
                    rv: usize,
                    rc: usize,
                    st2: usize,
                    jm: usize,
                |
                    #[trigger] short_circuit_at(p, b.op, slot, end, check, lv, lc, st1, br, rv, rc, st2, jm) && expr_value(
                        *b.lhs,
                        lo,
                        p,
                        lv,
                    ) && lv < lc && expr_value(*b.rhs, br + 1, p, rv) && rv < rc;
                lemma_short_circuit_kept(p, q, b.op, slot, end, check, lv, lc, st1, br, rv, rc, st2, jm);
                lemma_expr_value_kept(*b.lhs, lo, lo2, p, q, lv);
                lemma_expr_value_kept(*b.rhs, br + 1, br + 1, p, q, rv);
                assert(short_circuit_at(q, b.op, slot, end, check, lv, lc, st1, br, rv, rc, st2, jm));
            } else {
                let l = p.values@[v as int].kind->Binary_1;
                let r = p.values@[v as int].kind->Binary_2;
                lemma_expr_value_kept(*b.lhs, lo, lo2, p, q, l);
                lemma_expr_value_kept(*b.rhs, l + 1, l + 1, p, q, r);
            }
        },
        _ => {},
    }
}

/// Whether the code made from `o` to `n` for `lhs && rhs` or `lhs || rhs`
/// (the expression `b`) fills the local variable `slot`, in the two blocks
/// made first: the code made for `lhs` computes `lv`, and the code made for
/// `rhs` after the branch computes `rv` (see `short_circuit_at`).
pub open spec fn short_circuit_made(b: BinaryExpr, o: ProgramRecorder, n: ProgramRecorder, slot: usize) -> bool {
    &&& slot < n.program.values@.len()
    &&& n.program.values@[slot as int].kind is Alloc
    &&& exists|lv: usize, lc: usize, st1: usize, br: usize, rv: usize, rc: usize, st2: usize, jm: usize|
        #[trigger] short_circuit_at(
            n.program,
            b.op,
            slot,
            o.program.blocks@.len() as usize,
            (o.program.blocks@.len() + 1) as usize,
            lv,
            lc,
            st1,
            br,
            rv,
            rc,
            st2,
            jm,
        ) && expr_value(*b.lhs, o.program.values@.len() as int, n.program, lv) && lv < lc && expr_value(
            *b.rhs,
            br + 1,
            n.program,
            rv,
        ) && rv < rc
}

/// Whether `v` is the value that the code made from `o` to `n` for the
/// expression `e` gives (see `expr_value`).
pub open spec fn expr_generated(e: Expr, o: ProgramRecorder, n: ProgramRecorder, v: usize) -> bool {
    &&& expr_done(o, n, v)
    &&& expr_value(e, o.program.values@.len() as int, n.program, v)
}

/// Generates `lhs && rhs` or `lhs || rhs` so that `rhs` is evaluated only
/// where `lhs` does not decide: a local variable receives `lhs != 0`; where
/// that does not decide, a block overwrites it with `rhs != 0`; both paths
/// meet in a new block, which becomes the current block. Gives the variable.
#[verifier::spinoff_prover]
#[verifier::rlimit(60)]
pub fn short_circuit(recorder: &mut ProgramRecorder, cond: &BinaryExpr) -> (r: Result<usize, String>)
    requires
        body_ok(*old(recorder)),
        ready_in(Expr::Binary(*cond), *old(recorder)),
        cond.op == BinaryOp::And || cond.op == BinaryOp::Or,
    ensures
        r matches Ok(v) && expr_done(*old(recorder), *final(recorder), v),
        final(recorder).cur().cur_bb == old(recorder).program.blocks@.len(),
        r matches Ok(slot) && short_circuit_made(*cond, *old(recorder), *final(recorder), slot),
    decreases cond, 1int,
{
    let ghost o = *recorder;
    let end_bb = recorder.new_anonymous_bb();
    let ghost m0 = *recorder;
    proof {
        lemma_new_bb_step(o, m0, end_bb);
    }
    let result = local_alloc(recorder, IrType::Int32, None);
    let ghost m1 = *recorder;
    let check_rhs = recorder.new_anonymous_bb();
    let ghost m2 = *recorder;
    proof {
        lemma_new_bb_step(m1, m2, check_rhs);
        lemma_gen_step_trans(o, m0, m1);
        lemma_gen_step_trans(o, m1, m2);
        lemma_pending_stable(m0, m1, end_bb);
        lemma_pending_stable(m1, m2, end_bb);
    }
    let lhs = cond.lhs.generate_ir(recorder)?;
    let ghost m3 = *recorder;
    proof {
        lemma_pending_stable(m2, m3, end_bb);
        lemma_pending_stable(m2, m3, check_rhs);
        lemma_gen_step_trans(o, m2, m3);
    }
    let zero = detached_value(recorder, IrType::Int32, ValueKind::Integer(0));
    let ghost z1 = zero;
    let lhs_checked = emit(recorder, IrType::Int32, ValueKind::Binary(IrBinaryOp::NotEq, lhs, zero));
    let st = emit(recorder, IrType::Unit, ValueKind::Store(lhs_checked, result));
    let ghost lc_g = lhs_checked;
    let ghost st1_g = st;
    let ghost m4 = *recorder;
    proof {
        lemma_pending_stable(m3, m4, end_bb);
        lemma_pending_stable(m3, m4, check_rhs);
        lemma_gen_step_trans(o, m3, m4);
    }
    let ta: Vec<usize> = Vec::new();
    let fa: Vec<usize> = Vec::new();
    assert(ta@.len() == 0 && fa@.len() == 0);
    let br = if cond.op == BinaryOp::And {
        ValueKind::Branch(lhs_checked, check_rhs, ta, end_bb, fa)
    } else {
        ValueKind::Branch(lhs_checked, end_bb, ta, check_rhs, fa)
    };
    let br_g = recorder.program.values.len();
    let ghost brk = br;
    terminate(recorder, br, check_rhs);
    let ghost m5 = *recorder;
    proof {
        lemma_terminate_from(o, m4, m5, check_rhs);
        lemma_terminate_pending(m4, m5, end_bb);
    }
    let rhs = cond.rhs.generate_ir(recorder)?;
    let ghost m6 = *recorder;
    proof {
        lemma_pending_stable(m5, m6, end_bb);
        lemma_gen_step_trans(o, m5, m6);
    }
    let zero = detached_value(recorder, IrType::Int32, ValueKind::Integer(0));
    let rhs_checked = emit(recorder, IrType::Int32, ValueKind::Binary(IrBinaryOp::NotEq, rhs, zero));
    let st = emit(recorder, IrType::Unit, ValueKind::Store(rhs_checked, result));
    let ghost m7 = *recorder;
    proof {
        lemma_pending_stable(m6, m7, end_bb);
        lemma_gen_step_trans(o, m6, m7);
    }
    let jm = recorder.program.values.len();
    let no_args: Vec<usize> = Vec::new();
    assert(no_args@.len() == 0);
    terminate(recorder, ValueKind::Jump(end_bb, no_args), end_bb);
    proof {
        lemma_terminate_from(o, m7, *recorder, end_bb);
        let pf = recorder.program;
        assert(pf.values@[zero as int] == m7.program.values@[zero as int]);
        assert(pf.values@[rhs_checked as int] == m7.program.values@[rhs_checked as int]);
        assert(pf.values@[st as int] == m7.program.values@[st as int]);
        assert(m5.program.values@[br_g as int].kind == brk);
        assert(m5.program.values@[z1 as int] == m4.program.values@[z1 as int]);
        assert(m5.program.values@[lc_g as int] == m4.program.values@[lc_g as int]);
        assert(m5.program.values@[st1_g as int] == m4.program.values@[st1_g as int]);
        assert(m5.program.values@[result as int] == m4.program.values@[result as int]);
        assert(m4.program.values@[result as int] == m3.program.values@[result as int]);
        assert(m3.program.values@[result as int] == m2.program.values@[result as int]);
        assert(m2.program.values@[result as int] == m1.program.values@[result as int]);
        assert(m1.program.values@[result as int].kind is Alloc);
        assert(m6.program.values@[br_g as int] == m5.program.values@[br_g as int]);
        assert(m6.program.values@[z1 as int] == m5.program.values@[z1 as int]);
        assert(m6.program.values@[lc_g as int] == m5.program.values@[lc_g as int]);
        assert(m6.program.values@[st1_g as int] == m5.program.values@[st1_g as int]);
        assert(m6.program.values@[result as int] == m5.program.values@[result as int]);
        assert(pf.values@[br_g as int] == m6.program.values@[br_g as int]);
        assert(pf.values@[z1 as int] == m6.program.values@[z1 as int]);
        assert(pf.values@[lc_g as int] == m6.program.values@[lc_g as int]);
        assert(pf.values@[st1_g as int] == m6.program.values@[st1_g as int]);
        assert(pf.values@[result as int] == m6.program.values@[result as int]);
        assert(pf.values@[jm as int].kind is Jump);
        assert(pf.values@[jm as int].kind->Jump_0 == end_bb);
        assert(pf.values@[jm as int].kind->Jump_1@.len() == 0);
        assert(short_circuit_at(pf, cond.op, result, end_bb, check_rhs, lhs, lc_g, st1_g, br_g, rhs, rhs_checked, st, jm));
        assert(end_bb == o.program.blocks@.len());
        assert(check_rhs == o.program.blocks@.len() + 1);
        assert(end_bb == o.program.blocks@.len() as usize);
        assert(check_rhs == (o.program.blocks@.len() + 1) as usize);
        assert(expr_generated(*cond.lhs, m2, m3, lhs));
        assert(expr_generated(*cond.rhs, m5, m6, rhs));
        assert(o.program.values@.len() <= m2.program.values@.len());
        assert(m3.program.values@.len() <= lc_g);
        assert(br_g < m5.program.values@.len());
        assert(m6.program.values@.len() <= rhs_checked);
        assert forall|i: int| 0 <= i < m3.program.values@.len() implies pf.values@[i] == #[trigger] m3.program.values@[i] by {
            assert(m4.program.values@[i] == m3.program.values@[i]);
            assert(m5.program.values@[i] == m4.program.values@[i]);
            assert(m6.program.values@[i] == m5.program.values@[i]);
            assert(m7.program.values@[i] == m6.program.values@[i]);
        }
        lemma_expr_value_kept(*cond.lhs, m2.program.values@.len() as int, o.program.values@.len() as int, m3.program, pf, lhs);
        lemma_expr_value_kept(*cond.rhs, m5.program.values@.len() as int, br_g + 1, m6.program, pf, rhs);
        assert(short_circuit_made(*cond, o, *recorder, result));
    }
    Ok(result)
}

/// Closing the current block and entering a block made since `o` keeps a
/// step of generation from `o` a step of generation.
pub proof fn lemma_terminate_from(o: ProgramRecorder, a: ProgramRecorder, m: ProgramRecorder, next: usize)
    requires
        shape_ok(o),
        body_ok(a),
        gen_step(o, a),
        next >= o.program.blocks@.len(),
        m.cur_func is Some,
        m.symbols == a.symbols,
        m.values@ == a.values@,
        m.funcs@ == a.funcs@,
        m.loops@ == a.loops@,
        m.cur_func == Some(FunctionInfo { cur_bb: next, ..a.cur() }),
        m.program.values@ == a.program.values@.push(m.program.values@[a.program.values@.len() as int]),
        blocks_pushed(a.program.blocks@, m.program.blocks@, a.cur().cur_bb, a.program.values@.len() as usize),
        layout_pushed(a.program.funcs@, m.program.funcs@, a.cur().func, next),
        m.program.inst_layout@ == a.program.inst_layout@,
    ensures
        gen_step(o, m),
{
    let fi = o.cur();
    let f = fi.func as int;
    let pa = a.program;
    let pm = m.program;
    let po = o.program;
    assert forall|i: int| 0 <= i < po.values@.len() implies pm.values@[i] == #[trigger] po.values@[i] by {
        assert(pa.values@[i] == po.values@[i]);
    }
    assert forall|x: int| 0 <= x < po.blocks@.len() implies {
        &&& pm.blocks@[x].name == (#[trigger] po.blocks@[x]).name
        &&& pm.blocks@[x].params@ == po.blocks@[x].params@
        &&& if set![fi.entry_bb, fi.cur_bb].contains(x as usize) {
            po.blocks@[x].insts@.is_prefix_of(pm.blocks@[x].insts@)
        } else {
            pm.blocks@[x].insts@ == po.blocks@[x].insts@
        }
    } by {
        if x != a.cur().cur_bb {
            assert(pm.blocks@[x] == pa.blocks@[x]);
        } else {
            assert(pa.blocks@[x].insts@.is_prefix_of(pm.blocks@[x].insts@));
        }
    }
    assert forall|g: int| 0 <= g < po.funcs@.len() implies {
        &&& pm.funcs@[g].name == (#[trigger] po.funcs@[g]).name
        &&& pm.funcs@[g].params@ == po.funcs@[g].params@
        &&& pm.funcs@[g].param_tys@ == po.funcs@[g].param_tys@
        &&& pm.funcs@[g].ret_ty == po.funcs@[g].ret_ty
        &&& if set![fi.func].contains(g as usize) {
            po.funcs@[g].layout@.is_prefix_of(pm.funcs@[g].layout@)
        } else {
            pm.funcs@[g].layout@ == po.funcs@[g].layout@
        }
    } by {
        if g != f {
            assert(pm.funcs@[g] == pa.funcs@[g]);
        }
    }
    assert forall|i: int|
        po.funcs@[f].layout@.len() <= i < pm.funcs@[f].layout@.len() implies #[trigger] pm.funcs@[f].layout@[i]
        >= po.blocks@.len() by {
        if i < pa.funcs@[f].layout@.len() {
            assert(pm.funcs@[f].layout@[i] == pa.funcs@[f].layout@[i]);
        }
    }
    assert(o.values@.is_prefix_of(m.values@));
    assert(po.inst_layout@.is_prefix_of(pm.inst_layout@));
}

/// A block that waited to be laid out, other than the one entered, still waits after a terminator.
pub proof fn lemma_terminate_pending(a: ProgramRecorder, m: ProgramRecorder, x: usize)
    requires
        body_ok(a),
        pending(a, x),
        m.cur_func == Some(FunctionInfo { cur_bb: m.cur().cur_bb, ..a.cur() }),
        x != m.cur().cur_bb,
        blocks_pushed(a.program.blocks@, m.program.blocks@, a.cur().cur_bb, a.program.values@.len() as usize),
        layout_pushed(a.program.funcs@, m.program.funcs@, a.cur().func, m.cur().cur_bb),
    ensures
        pending(m, x),
{
    let f = a.cur().func as int;
    let lay = a.program.funcs@[f].layout@;
    let lay2 = m.program.funcs@[f].layout@;
    assert(x != a.cur().cur_bb) by {
        assert(lay.contains(a.cur().cur_bb));
    }
    assert(m.program.blocks@[x as int] == a.program.blocks@[x as int]);
    if lay2.contains(x) {
        let k = choose|k: int| 0 <= k < lay2.len() && lay2[k] == x;
        if k < lay.len() {
            assert(lay[k] == x);
        }
    }
}

impl UnaryExpr {
    pub fn generate_ir(&self, recorder: &mut ProgramRecorder) -> (r: Result<usize, String>)
        requires
            body_ok(*old(recorder)),
            ready_in(Expr::Unary(*self), *old(recorder)),
        ensures
            r matches Ok(v) && expr_done(*old(recorder), *final(recorder), v),
        decreases self, 2int,
    {
        match self {
            UnaryExpr::Unary(op, exp) => {
                let ghost o = *recorder;
                let opr = exp.generate_ir(recorder)?;
                let ghost m = *recorder;
                let val = match op {
                    UnaryOp::Nop => opr,
                    UnaryOp::Neg => negative(recorder, opr),
                    UnaryOp::Not => logical_not(recorder, opr),
                };
                proof {
                    if *op != UnaryOp::Nop {
                        lemma_gen_step_trans(o, m, *recorder);
                    }
                }
                Ok(val)
            },
            UnaryExpr::Call(call) => call.generate_ir(recorder),
        }
    }
}

impl Call {
    /// Generates the arguments, then the call; an argument for a pointer
    /// parameter that is a variable passes its address, and an array is
    /// passed as the pointer to its first element.
    pub fn generate_ir(&self, recorder: &mut ProgramRecorder) -> (r: Result<usize, String>)
        requires
            body_ok(*old(recorder)),
            ready_in(Expr::Unary(UnaryExpr::Call(*self)), *old(recorder)),
        ensures
            r matches Ok(v) && expr_done(*old(recorder), *final(recorder), v),
        decreases self, 1int,
    {
        let ghost o = *recorder;
        let symbols = recorder.symbols;
        let func = recorder.get_func_id(self.ident.as_str());
        proof {
            lemma_assoc_below(recorder.funcs@, recorder.program.funcs@.len() as int);
        }
        let ty = symbols.get(self.ident.as_str());
        let param_tys: &Vec<Type> = match ty.kind() {
            TypeKind::Func(_, ps) => ps,
            _ => {
                proof { assert(false); }
                return Ok(0);
            },
        };
        let mut arg_values: Vec<usize> = Vec::new();
        let mut i: usize = 0;
        proof {
            lemma_gen_step_refl(o);
        }
        while i < self.args.len() && i < param_tys.len()
            invariant
                body_ok(*recorder),
                body_ok(o),
                gen_step(o, *recorder),
                recorder.values@ == o.values@,
                recorder.symbols == symbols,
                func < recorder.program.funcs@.len(),
                param_tys@ == param_types(symbols@[self.ident@]),
                args_ready(self.args@, param_tys@, i as int, o.bound().dom(), o.symbols@, o.func_ids().dom()),
                i <= self.args@.len(),
                arg_values@.len() == i,
                forall|j: int| 0 <= j < i ==> (#[trigger] arg_values@[j]) < recorder.program.values@.len(),
            decreases self.args@.len() - i,
        {
            let ghost m = *recorder;
            proof {
                assert(decreases_to!(*self => self.args@[i as int]));
            }
            let val = match &self.args[i] {
                Expr::LVal(lval) => if matches!(param_tys[i].kind(), TypeKind::Pointer(_)) {
                    proof {
                        assert(decreases_to!(self.args@[i as int] => *lval));
                    }
                    let mut val = get_lval_ptr(recorder, lval);
                    let lty = symbols.get(lval.ident.as_str());
                    if matches!(lty.kind(), TypeKind::Array(_, _)) || lval.dims.len() > 0 {
                        let ghost m2 = *recorder;
                        val = into_ptr(recorder, val);
                        proof {
                            lemma_gen_step_trans(m, m2, *recorder);
                        }
                    }
                    val
                } else {
                    self.args[i].generate_ir(recorder)?
                },
                _ => self.args[i].generate_ir(recorder)?,
            };
            proof {
                lemma_gen_step_trans(o, m, *recorder);
            }
            arg_values.push(val);
            i = i + 1;
        }
        let ret_ty = recorder.program.funcs[func].ret_ty.clone_ty();
        let ghost m = *recorder;
        let call = emit(recorder, ret_ty, ValueKind::Call(func, arg_values));
        proof {
            lemma_gen_step_trans(o, m, *recorder);
        }
        Ok(call)
    }
}

/// Generates the address of the variable or array element `lval`: the
/// indices first; then, for an array, one element pointer per index; for a
/// pointer parameter, a load of the pointer, then a pointer step for the
/// first index and element pointers for the others.
pub fn get_lval_ptr(recorder: &mut ProgramRecorder, lval: &LVal) -> (v: usize)
    requires
        body_ok(*old(recorder)),
        lval_named(*lval, old(recorder).bound().dom(), old(recorder).symbols@),
        exprs_ready(lval.dims@, 0, old(recorder).bound().dom(), old(recorder).symbols@, old(recorder).func_ids().dom()),
    ensures
        addr_done(*old(recorder), *final(recorder), v),
        old(recorder).symbols@[lval.ident@].spec_kind() is Integer ==> v == old(recorder).bound()[lval.ident@],
        old(recorder).symbols@[lval.ident@].spec_kind() is Pointer && lval.dims@.len() == 0
            ==> final(recorder).program.values@[v as int].kind == ValueKind::Load(old(recorder).bound()[lval.ident@]),
    decreases lval, 1int,
{
    let ghost o = *recorder;
    let symbols = recorder.symbols;
    let src = recorder.get_value(lval.ident.as_str());
    proof {
        lemma_assoc_below(recorder.values@, recorder.program.values@.len() as int);
        lemma_gen_step_refl(o);
    }
    let mut dims: Vec<usize> = Vec::new();
    let mut i: usize = 0;
    while i < lval.dims.len()
        invariant
            body_ok(*recorder),
            body_ok(o),
            gen_step(o, *recorder),
            recorder.values@ == o.values@,
            recorder.symbols == symbols,
            exprs_ready(lval.dims@, i as int, o.bound().dom(), o.symbols@, o.func_ids().dom()),
            i <= lval.dims@.len(),
            dims@.len() == i,
            src < o.program.values@.len(),
            forall|j: int| 0 <= j < i ==> (#[trigger] dims@[j]) < recorder.program.values@.len(),
        decreases lval.dims@.len() - i,
    {
        let ghost m = *recorder;
        proof {
            assert(decreases_to!(*lval => lval.dims@[i as int]));
        }
        let d = match lval.dims[i].generate_ir(recorder) {
            Ok(d) => d,
            Err(_) => 0,
        };
        proof {
            lemma_gen_step_trans(o, m, *recorder);
        }
        dims.push(d);
        i = i + 1;
    }
    let ghost m = *recorder;
    let ty = symbols.get(lval.ident.as_str());
    match ty.kind() {
        TypeKind::Integer => src,
        TypeKind::Array(_, _) => {
            let v = get_elem_ptr(recorder, src, dims.as_slice());
            proof {
                lemma_gen_step_trans(o, m, *recorder);
            }
            v
        },
        TypeKind::Pointer(_) => {
            let pty = recorder.program.values[src].ty.pointee();
            let ptr = emit(recorder, pty, ValueKind::Load(src));
            let ghost m2 = *recorder;
            proof {
                lemma_gen_step_trans(o, m, m2);
            }
            if dims.len() > 0 {
                let gty = recorder.program.values[ptr].ty.clone_ty();
                let get_ptr = emit(recorder, gty, ValueKind::GetPtr(ptr, dims[0]));
                let ghost m3 = *recorder;
                let rest = &dims.as_slice()[1..dims.len()];
                let v = get_elem_ptr(recorder, get_ptr, rest);
                proof {
                    lemma_gen_step_trans(o, m2, m3);
                    lemma_gen_step_trans(o, m3, *recorder);
                }
                v
            } else {
                ptr
            }
        },
        _ => {
            proof { assert(false); }
            src
        },
    }
}

/// Loads the value of the variable or array element `lval`.
pub fn load_lval(recorder: &mut ProgramRecorder, lval: &LVal) -> (v: usize)
    requires
        body_ok(*old(recorder)),
        lval_named(*lval, old(recorder).bound().dom(), old(recorder).symbols@),
        exprs_ready(lval.dims@, 0, old(recorder).bound().dom(), old(recorder).symbols@, old(recorder).func_ids().dom()),
    ensures
        expr_done(*old(recorder), *final(recorder), v),
        v == final(recorder).program.values@.len() - 1,
        final(recorder).program.values@[v as int].kind is Load,
        old(recorder).symbols@[lval.ident@].spec_kind() is Integer ==> final(recorder).program.values@[v as int].kind
            == ValueKind::Load(old(recorder).bound()[lval.ident@]),
    decreases lval, 2int,
{
    let ghost o = *recorder;
    let val = get_lval_ptr(recorder, lval);
    let ghost m = *recorder;
    let ty = recorder.program.values[val].ty.pointee();
    let dst = emit(recorder, ty, ValueKind::Load(val));
    proof {
        lemma_gen_step_trans(o, m, *recorder);
    }
    dst
}

/// Whether every `break` and `continue` of `s` lies inside a loop, given
/// whether `s` itself does.
pub open spec fn stmt_jumps_ok(s: Stmt, in_loop: bool) -> bool
    decreases s, 0int,
{
    match s {
        Stmt::Break(_) => in_loop,
        Stmt::Continue(_) => in_loop,
        Stmt::While(w) => stmt_jumps_ok(*w.stmt, true),
        Stmt::Branch(b) => stmt_jumps_ok(*b.if_stmt, in_loop) && match b.el_stmt {
            Some(e) => stmt_jumps_ok(*e, in_loop),
            None => true,
        },
        Stmt::Block(b) => items_jumps_ok(b.items@, 0, in_loop),
        _ => true,
    }
}

/// Whether every `break` and `continue` of `items[i..]` lies inside a loop.
pub open spec fn items_jumps_ok(items: Seq<BlockItem>, i: int, in_loop: bool) -> bool
    decreases items, items.len() - i,
{
    if i < 0 || i >= items.len() {
        true
    } else {
        &&& match items[i] {
            BlockItem::Stmt(st) => stmt_jumps_ok(st, in_loop),
            BlockItem::Decl(_) => true,
        }
        &&& items_jumps_ok(items, i + 1, in_loop)
    }
}

/// The names that live in values after the declarations `ds[i..]`.
pub open spec fn var_decls_names(ds: Seq<VarDecl>, i: int, names: Set<Seq<char>>) -> Set<Seq<char>>
    decreases ds.len() - i,
{
    if i < 0 || i >= ds.len() {
        names
    } else {
        var_decls_names(ds, i + 1, names.insert(ds[i].lval.ident@))
    }
}

/// The names that live in values after the constant declarations `ds[i..]`:
/// integer constants have been folded away and get no value.
pub open spec fn const_decls_names(ds: Seq<ConstDecl>, i: int, names: Set<Seq<char>>) -> Set<Seq<char>>
    decreases ds.len() - i,
{
    if i < 0 || i >= ds.len() {
        names
    } else {
        const_decls_names(
            ds,
            i + 1,
            if ds[i].kind == ExprKind::Int {
                names
            } else {
                names.insert(ds[i].lval.ident@)
            },
        )
    }
}

pub open spec fn decl_names(d: Decl, names: Set<Seq<char>>) -> Set<Seq<char>> {
    match d {
        Decl::VarDecl(ds) => var_decls_names(ds@, 0, names),
        Decl::ConstDecl(ds) => const_decls_names(ds@, 0, names),
    }
}

/// The names that live in values after the statement `s`: those declared in
/// its blocks stay, as names are unique.
pub open spec fn stmt_names(s: Stmt, names: Set<Seq<char>>) -> Set<Seq<char>>
    decreases s, 0int,
{
    match s {
        Stmt::Block(b) => items_names(b.items@, 0, names),
        Stmt::Branch(b) => match b.el_stmt {
            Some(e) => stmt_names(*e, stmt_names(*b.if_stmt, names)),
            None => stmt_names(*b.if_stmt, names),
        },
        Stmt::While(w) => stmt_names(*w.stmt, names),
        _ => names,
    }
}

pub open spec fn items_names(items: Seq<BlockItem>, i: int, names: Set<Seq<char>>) -> Set<Seq<char>>
    decreases items, items.len() - i,
{
    if i < 0 || i >= items.len() {
        names
    } else {
        items_names(
            items,
            i + 1,
            match items[i] {
                BlockItem::Decl(d) => decl_names(d, names),
                BlockItem::Stmt(st) => stmt_names(st, names),
            },
        )
    }
}

/// Whether `t` is an integer array type whose sizes fit.
pub open spec fn array_ty_ok(t: Type) -> bool {
    dims_of(t) is Some && dims_fit(dims_of(t)->0)
}

/// Whether the declaration of a local variable can be generated: its type is
/// known, an integer is initialized by an expression that can be generated
/// (the variable itself being visible in it), an array by a list that fits.
pub open spec fn var_decl_ready(v: VarDecl, names: Set<Seq<char>>, types: Map<Seq<char>, Type>, fnames: Set<Seq<char>>) -> bool {
    let id = v.lval.ident@;
    &&& types.contains_key(id)
    &&& match types[id].spec_kind() {
        TypeKind::Integer => match v.init {
            None => true,
            Some(InitVal::Expr(e)) => expr_ready(e, names.insert(id), types, fnames),
            Some(_) => false,
        },
        TypeKind::Array(_, _) => array_ty_ok(types[id]) && match v.init {
            Some(init) => array_elems(init, types[id]) is Some,
            None => true,
        },
        _ => false,
    }
}

/// Whether the declaration of a global variable can be generated: an integer
/// is initialized by a folded constant.
pub open spec fn global_var_decl_ready(v: VarDecl, types: Map<Seq<char>, Type>) -> bool {
    let id = v.lval.ident@;
    &&& types.contains_key(id)
    &&& match types[id].spec_kind() {
        TypeKind::Integer => match v.init {
            None => true,
            Some(InitVal::Expr(e)) => e is Integer,
            Some(_) => false,
        },
        TypeKind::Array(_, _) => array_ty_ok(types[id]) && match v.init {
            Some(init) => array_elems(init, types[id]) is Some,
            None => true,
        },
        _ => false,
    }
}

/// Whether the declaration of a constant can be generated: integer
/// constants generate nothing; an array needs a list that fits.
pub open spec fn const_decl_ready(c: ConstDecl, types: Map<Seq<char>, Type>) -> bool {
    let id = c.lval.ident@;
    c.kind == ExprKind::Int || {
        &&& types.contains_key(id)
        &&& types[id].spec_kind() is Array
        &&& array_ty_ok(types[id])
        &&& array_elems(c.init, types[id]) is Some
    }
}

pub open spec fn var_decls_ready(ds: Seq<VarDecl>, i: int, names: Set<Seq<char>>, types: Map<Seq<char>, Type>, fnames: Set<Seq<char>>, global: bool) -> bool
    decreases ds.len() - i,
{
    if i < 0 || i >= ds.len() {
        true
    } else {
        &&& if global {
            global_var_decl_ready(ds[i], types)
        } else {
            var_decl_ready(ds[i], names, types, fnames)
        }
        &&& var_decls_ready(ds, i + 1, names.insert(ds[i].lval.ident@), types, fnames, global)
    }
}

pub open spec fn const_decls_ready(ds: Seq<ConstDecl>, i: int, types: Map<Seq<char>, Type>) -> bool
    decreases ds.len() - i,
{
    if i < 0 || i >= ds.len() {
        true
    } else {
        const_decl_ready(ds[i], types) && const_decls_ready(ds, i + 1, types)
    }
}

pub open spec fn decl_ready(d: Decl, names: Set<Seq<char>>, types: Map<Seq<char>, Type>, fnames: Set<Seq<char>>, global: bool) -> bool {
    match d {
        Decl::VarDecl(ds) => var_decls_ready(ds@, 0, names, types, fnames, global),
        Decl::ConstDecl(ds) => const_decls_ready(ds@, 0, types),
    }
}

/// Whether the statement `s` can be generated: its expressions can, and a
/// value is returned only from a function with a return value.
pub open spec fn stmt_ready(s: Stmt, names: Set<Seq<char>>, types: Map<Seq<char>, Type>, fnames: Set<Seq<char>>, has_ret: bool) -> bool
    decreases s, 0int,
{
    match s {
        Stmt::Assign(a) => lval_named(a.lval, names, types) && exprs_ready(a.lval.dims@, 0, names, types, fnames)
            && expr_ready(a.val, names, types, fnames),
        Stmt::Block(b) => items_ready(b.items@, 0, names, types, fnames, has_ret),
        Stmt::Branch(b) => {
            &&& expr_ready(b.cond, names, types, fnames)
            &&& stmt_ready(*b.if_stmt, names, types, fnames, has_ret)
            &&& match b.el_stmt {
                Some(e) => stmt_ready(*e, stmt_names(*b.if_stmt, names), types, fnames, has_ret),
                None => true,
            }
        },
        Stmt::While(w) => expr_ready(w.cond, names, types, fnames) && stmt_ready(*w.stmt, names, types, fnames, has_ret),
        Stmt::Expr(e) => match e {
            Some(x) => expr_ready(x, names, types, fnames),
            None => true,
        },
        Stmt::Return(r) => match r.ret_val {
            Some(x) => has_ret && expr_ready(x, names, types, fnames),
            None => true,
        },
        _ => true,
    }
}

pub open spec fn items_ready(items: Seq<BlockItem>, i: int, names: Set<Seq<char>>, types: Map<Seq<char>, Type>, fnames: Set<Seq<char>>, has_ret: bool) -> bool
    decreases items, items.len() - i,
{
    if i < 0 || i >= items.len() {
        true
    } else {
        &&& match items[i] {
            BlockItem::Decl(d) => decl_ready(d, names, types, fnames, false),
            BlockItem::Stmt(st) => stmt_ready(st, names, types, fnames, has_ret),
        }
        &&& items_ready(
            items,
            i + 1,
            match items[i] {
                BlockItem::Decl(d) => decl_names(d, names),
                BlockItem::Stmt(st) => stmt_names(st, names),
            },
            types,
            fnames,
            has_ret,
        )
    }
}

/// Whether statement `s` can be generated in the state `r`.
pub open spec fn stmt_ready_in(s: Stmt, r: ProgramRecorder) -> bool {
    stmt_ready(s, r.bound().dom(), r.symbols@, r.func_ids().dom(), r.cur().ret_val is Some)
}

/// What the generation of statement `s` promises: it fails exactly where a
/// `break` or `continue` lies outside every loop; where it succeeds, the body
/// keeps its shape, the step is a generation step, and the names declared
/// live in values.
pub open spec fn stmt_done(s: Stmt, old: ProgramRecorder, new: ProgramRecorder, r: Result<(), String>) -> bool {
    &&& (r is Ok) == stmt_jumps_ok(s, old.loops@.len() > 0)
    &&& r is Ok ==> {
        &&& body_ok(new)
        &&& gen_step(old, new)
        &&& new.bound().dom() == stmt_names(s, old.bound().dom())
    }
}

/// Declaring names only adds to what lives in values.
pub proof fn lemma_assoc_push(s: Seq<(String, usize)>, t: Seq<(String, usize)>)
    requires
        t.len() == s.len() + 1,
        t.drop_last() == s,
    ensures
        assoc_map(t).dom() == assoc_map(s).dom().insert(t.last().0@),
{
    assert(assoc_map(t).dom() =~= assoc_map(s).dom().insert(t.last().0@));
}

/// Recording where a variable lives keeps the shape and is a generation step.
pub proof fn lemma_insert_step(o: ProgramRecorder, m: ProgramRecorder)
    requires
        shape_ok(o),
        m.inv(),
        m.program == o.program,
        m.values@.drop_last() == o.values@,
        m.values@.len() == o.values@.len() + 1,
        m.symbols == o.symbols,
        m.funcs@ == o.funcs@,
        m.cur_func == o.cur_func,
        m.loops@ == o.loops@,
    ensures
        shape_ok(m),
        body_ok(o) ==> body_ok(m),
        gen_step(o, m),
{
    lemma_gen_step_refl(o);
    assert(o.values@.is_prefix_of(m.values@)) by {
        assert forall|i: int| 0 <= i < o.values@.len() implies m.values@[i] == o.values@[i] by {
            assert(m.values@.drop_last()[i] == m.values@[i]);
        }
    }
    assert forall|i: int| 0 <= i < m.loops@.len() implies pending(m, (#[trigger] m.loops@[i]).exit) by {
        assert(pending(o, o.loops@[i].exit));
    }
}

/// Whether value `a` of `p` is the global allocation that the declaration
/// `v` of type `ty` makes, with its initial value.
pub open spec fn global_var_ok(p: Program, a: usize, v: VarDecl, ty: Type) -> bool {
    &&& a < p.values@.len()
    &&& p.values@[a as int].ty == IrType::Pointer(Box::new(ir_ty_of(ty)))
    &&& p.values@[a as int].name matches Some(n) && n@ == "@"@ + v.lval.ident@
    &&& p.values@[a as int].kind matches ValueKind::GlobalAlloc(i) && i < p.values@.len() && p.values@[i as int].ty
        == ir_ty_of(ty) && match v.init {
        None => p.values@[i as int].kind is ZeroInit,
        Some(InitVal::Expr(e)) => p.values@[i as int].kind == ValueKind::Integer(e->Integer_0),
        Some(init) => global_init(p, i, ty, array_elems(init, ty)->0, 0),
    }
}

/// Whether `new` follows `old` by global declarations: values and global
/// allocations are appended, nothing else of the program changes.
pub open spec fn global_step(old: ProgramRecorder, new: ProgramRecorder) -> bool {
    &&& new.inv()
    &&& new.cur_func is None
    &&& new.symbols == old.symbols
    &&& new.funcs@ == old.funcs@
    &&& new.loops@ == old.loops@
    &&& old.values@.is_prefix_of(new.values@)
    &&& old.program.values@.is_prefix_of(new.program.values@)
    &&& new.program.blocks@ == old.program.blocks@
    &&& new.program.funcs@ == old.program.funcs@
    &&& old.program.inst_layout@.is_prefix_of(new.program.inst_layout@)
}

impl VarDecl {
    /// Allocates the variable and gives it its initial value: a global
    /// allocation with a constant initializer, or a local allocation in the
    /// entry block followed by the stores of the initializer.
    pub fn generate_ir(&self, recorder: &mut ProgramRecorder) -> (r: Result<(), String>)
        requires
            old(recorder).cur_func is Some ==> body_ok(*old(recorder)) && var_decl_ready(
                *self,
                old(recorder).bound().dom(),
                old(recorder).symbols@,
                old(recorder).func_ids().dom(),
            ),
            old(recorder).cur_func is None ==> old(recorder).inv() && global_var_decl_ready(*self, old(recorder).symbols@),
        ensures
            r is Ok,
            final(recorder).bound().dom() == old(recorder).bound().dom().insert(self.lval.ident@),
            old(recorder).cur_func is Some ==> {
                &&& body_ok(*final(recorder))
                &&& gen_step(*old(recorder), *final(recorder))
                &&& final(recorder).program.values@[final(recorder).bound()[self.lval.ident@] as int].kind is Alloc
                &&& final(recorder).program.values@[final(recorder).bound()[self.lval.ident@] as int].ty == IrType::Pointer(
                    Box::new(ir_ty_of(old(recorder).symbols@[self.lval.ident@])),
                )
                &&& old(recorder).symbols@[self.lval.ident@].spec_kind() is Integer && self.init is Some ==> {
                    &&& final(recorder).program.values@.len() > old(recorder).program.values@.len()
                    &&& final(recorder).program.values@.last().kind matches ValueKind::Store(x, d)
                        && d == final(recorder).bound()[self.lval.ident@] && old(recorder).program.values@.len() < x
                        && (self.init->0 matches InitVal::Expr(e) && expr_value(
                        e,
                        old(recorder).program.values@.len() as int,
                        final(recorder).program,
                        x,
                    ))
                }
                &&& old(recorder).symbols@[self.lval.ident@].spec_kind() is Array && self.init is Some ==> crate::irgen::utils::stored_ints(
                    final(recorder).program.values@,
                    old(recorder).program.values@.len() as int,
                    final(recorder).program.values@.len() as int,
                ) == crate::irgen::utils::init_run(
                    array_elems(self.init->0, old(recorder).symbols@[self.lval.ident@])->0,
                    0,
                    crate::irgen::utils::elem_count(old(recorder).symbols@[self.lval.ident@]),
                )
            },
            old(recorder).cur_func is None ==> {
                &&& global_step(*old(recorder), *final(recorder))
                &&& final(recorder).program.inst_layout@ == old(recorder).program.inst_layout@.push(
                    final(recorder).bound()[self.lval.ident@],
                )
                &&& global_var_ok(final(recorder).program, final(recorder).bound()[self.lval.ident@], *self,
                    old(recorder).symbols@[self.lval.ident@])
            },
    {
        let ghost o = *recorder;
        let symbols = recorder.symbols;
        let id = self.lval.ident.as_str();
        let ty = symbols.get(id);
        let mut name = String::from_str("@");
        name.append(id);
        if recorder.is_global() {
            proof {
                crate::sema::ty::lemma_dims_func_free(*ty);
            }
            let init_val = match ty.kind() {
                TypeKind::Integer => match &self.init {
                    Some(InitVal::Expr(e)) => recorder.new_global_value(IrType::Int32, ValueKind::Integer(e.get_i32())),
                    _ => recorder.new_global_value(IrType::Int32, ValueKind::ZeroInit),
                },
                _ => match &self.init {
                    Some(init) => {
                        let elems = eval_array(init, ty);
                        init_global_array(recorder, ty, elems.as_slice())
                    },
                    None => recorder.new_global_value(ty.get_ir_ty(), ValueKind::ZeroInit),
                },
            };
            let ghost m = *recorder;
            let alloc = recorder.new_named_value(IrType::Pointer(Box::new(ty.get_ir_ty())), Some(name), ValueKind::GlobalAlloc(init_val));
            recorder.push_global(alloc);
            recorder.insert_value(id, alloc);
            proof {
                lemma_assoc_push(o.values@, recorder.values@);
                crate::irgen::record::lemma_assoc_last(recorder.values@, id@);
                assert(recorder.values@.last() == recorder.values@[recorder.values@.len() - 1]);
                assert(o.values@.is_prefix_of(recorder.values@)) by {
                    assert forall|i: int| 0 <= i < o.values@.len() implies recorder.values@[i] == o.values@[i] by {
                        assert(recorder.values@.drop_last()[i] == recorder.values@[i]);
                    }
                }
                assert(o.program.values@.is_prefix_of(recorder.program.values@)) by {
                    assert forall|i: int| 0 <= i < o.program.values@.len() implies recorder.program.values@[i] == o.program.values@[i] by {
                        assert(m.program.values@.subrange(0, o.program.values@.len() as int)[i] == m.program.values@[i]);
                    }
                }
                let gi = self.init;
                if gi is Some && !(gi->0 is Expr) {
                    crate::irgen::utils::lemma_global_init_stable(m.program, recorder.program, init_val, *ty,
                        array_elems(gi->0, *ty)->0, 0);
                }
            }
            Ok(())
        } else {
            proof {
                crate::sema::ty::lemma_dims_func_free(*ty);
            }
            let val = local_alloc(recorder, ty.get_ir_ty(), Some(name));
            let ghost m1 = *recorder;
            recorder.insert_value(id, val);
            let ghost m2 = *recorder;
            proof {
                crate::sema::ty::lemma_dims_func_free(*ty);
                lemma_insert_step(m1, m2);
                lemma_gen_step_trans(o, m1, m2);
                lemma_assoc_push(m1.values@, m2.values@);
            }
            match ty.kind() {
                TypeKind::Integer => match &self.init {
                    Some(InitVal::Expr(e)) => {
                        let init_val = e.generate_ir(recorder)?;
                        let ghost m3 = *recorder;
                        emit(recorder, IrType::Unit, ValueKind::Store(init_val, val));
                        proof {
                            assert(val < m2.program.values@.len());
                        }
                        proof {
                            lemma_gen_step_trans(o, m2, m3);
                            lemma_gen_step_trans(o, m3, *recorder);
                            lemma_expr_value_kept(
                                *e,
                                m2.program.values@.len() as int,
                                o.program.values@.len() as int,
                                m3.program,
                                recorder.program,
                                init_val,
                            );
                        }
                    },
                    _ => {},
                },
                _ => match &self.init {
                    Some(init) => {
                        let elems = eval_array(init, ty);
                        init_array(recorder, val, ty, elems.as_slice());
                        proof {
                            lemma_gen_step_trans(o, m2, *recorder);
                            let vals = recorder.program.values@;
                            let n0 = o.program.values@.len() as int;
                            let n2 = m2.program.values@.len() as int;
                            assert(n2 == n0 + 1);
                            crate::irgen::utils::lemma_stored_split(vals, n0, n2, vals.len() as int);
                            assert(vals[n0] == m2.program.values@[n0]);
                            assert(crate::irgen::utils::stored_int(vals, n0) is None);
                            assert(crate::irgen::utils::stored_ints(vals, n0, n0) =~= Seq::<i32>::empty());
                            assert(crate::irgen::utils::stored_ints(vals, n0, n2) =~= Seq::<i32>::empty());
                            assert(crate::irgen::utils::stored_ints(vals, n0, vals.len() as int)
                                =~= crate::irgen::utils::stored_ints(vals, n2, vals.len() as int));
                        }
                    },
                    None => {},
                },
            }
            proof {
                crate::irgen::record::lemma_assoc_last(recorder.values@, id@);
                crate::irgen::record::lemma_assoc_last(m2.values@, id@);
                assert(m2.values@.last() == m2.values@[m2.values@.len() - 1]);
                assert(recorder.program.values@[val as int] == m2.program.values@[val as int]);
            }
            Ok(())
        }
    }
}

impl ConstDecl {
    /// An integer constant generates nothing; an array constant is allocated
    /// like a variable and initialized by its list.
    pub fn generate_ir(&self, recorder: &mut ProgramRecorder) -> (r: Result<(), String>)
        requires
            old(recorder).cur_func is Some ==> body_ok(*old(recorder)),
            old(recorder).cur_func is None ==> old(recorder).inv(),
            const_decl_ready(*self, old(recorder).symbols@),
        ensures
            r is Ok,
            self.kind == ExprKind::Int ==> *final(recorder) == *old(recorder),
            self.kind != ExprKind::Int ==> final(recorder).bound().dom() == old(recorder).bound().dom().insert(
                self.lval.ident@,
            ),
            old(recorder).cur_func is Some ==> body_ok(*final(recorder)) && gen_step(*old(recorder), *final(recorder)),
            old(recorder).cur_func is None ==> global_step(*old(recorder), *final(recorder)),
            old(recorder).cur_func is None && self.kind != ExprKind::Int ==> {
                let a = final(recorder).bound()[self.lval.ident@];
                let p = final(recorder).program;
                let ty = old(recorder).symbols@[self.lval.ident@];
                &&& p.inst_layout@ == old(recorder).program.inst_layout@.push(a)
                &&& a < p.values@.len()
                &&& p.values@[a as int].ty == IrType::Pointer(Box::new(ir_ty_of(ty)))
                &&& p.values@[a as int].name matches Some(n) && n@ == "@"@ + self.lval.ident@
                &&& p.values@[a as int].kind matches ValueKind::GlobalAlloc(i) && global_init(
                    p,
                    i,
                    ty,
                    array_elems(self.init, ty)->0,
                    0,
                )
            },
    {
        let ghost o = *recorder;
        if self.kind == ExprKind::Int {
            proof {
                if o.cur_func is Some {
                    lemma_gen_step_refl(o);
                } else {
                    assert(o.values@.is_prefix_of(o.values@));
                    assert(o.program.values@.is_prefix_of(o.program.values@));
                    assert(o.program.inst_layout@.is_prefix_of(o.program.inst_layout@));
                }
            }
            return Ok(());
        }
        let symbols = recorder.symbols;
        let id = self.lval.ident.as_str();
        let ty = symbols.get(id);
        proof {
            crate::sema::ty::lemma_dims_func_free(*ty);
        }
        let mut name = String::from_str("@");
        name.append(id);
        let elems = eval_array(&self.init, ty);
        if recorder.is_global() {
            let init_val = init_global_array(recorder, ty, elems.as_slice());
            let ghost m = *recorder;
            let alloc = recorder.new_named_value(IrType::Pointer(Box::new(ty.get_ir_ty())), Some(name), ValueKind::GlobalAlloc(init_val));
            recorder.push_global(alloc);
            recorder.insert_value(id, alloc);
            proof {
                lemma_assoc_push(o.values@, recorder.values@);
                crate::irgen::record::lemma_assoc_last(recorder.values@, id@);
                assert(recorder.values@.last() == recorder.values@[recorder.values@.len() - 1]);
                assert(o.values@.is_prefix_of(recorder.values@)) by {
                    assert forall|i: int| 0 <= i < o.values@.len() implies recorder.values@[i] == o.values@[i] by {
                        assert(recorder.values@.drop_last()[i] == recorder.values@[i]);
                    }
                }
                assert(o.program.values@.is_prefix_of(recorder.program.values@)) by {
                    assert forall|i: int| 0 <= i < o.program.values@.len() implies recorder.program.values@[i] == o.program.values@[i] by {
                        assert(m.program.values@.subrange(0, o.program.values@.len() as int)[i] == m.program.values@[i]);
                    }
                }
                crate::irgen::utils::lemma_global_init_stable(m.program, recorder.program, init_val, *ty,
                    array_elems(self.init, *ty)->0, 0);
            }
            Ok(())
        } else {
            let val = local_alloc(recorder, ty.get_ir_ty(), Some(name));
            let ghost m1 = *recorder;
            recorder.insert_value(id, val);
            let ghost m2 = *recorder;
            proof {
                lemma_insert_step(m1, m2);
                lemma_gen_step_trans(o, m1, m2);
                lemma_assoc_push(m1.values@, m2.values@);
            }
            init_array(recorder, val, ty, elems.as_slice());
            proof {
                lemma_gen_step_trans(o, m2, *recorder);
            }
            Ok(())
        }
    }
}

impl Decl {
    pub fn generate_ir(&self, recorder: &mut ProgramRecorder) -> (r: Result<(), String>)
        requires
            old(recorder).cur_func is Some ==> body_ok(*old(recorder)),
            old(recorder).cur_func is None ==> old(recorder).inv(),
            decl_ready(*self, old(recorder).bound().dom(), old(recorder).symbols@, old(recorder).func_ids().dom(),
                old(recorder).cur_func is None),
        ensures
            r is Ok,
            final(recorder).bound().dom() == decl_names(*self, old(recorder).bound().dom()),
            old(recorder).cur_func is Some ==> body_ok(*final(recorder)) && gen_step(*old(recorder), *final(recorder)),
            old(recorder).cur_func is None ==> global_step(*old(recorder), *final(recorder)),
    {
        let ghost o = *recorder;
        proof {
            if o.cur_func is Some {
                lemma_gen_step_refl(o);
            } else {
                assert(o.values@.is_prefix_of(o.values@));
                assert(o.program.values@.is_prefix_of(o.program.values@));
                assert(o.program.inst_layout@.is_prefix_of(o.program.inst_layout@));
            }
        }
        match self {
            Decl::VarDecl(decls) => {
                let mut i: usize = 0;
                while i < decls.len()
                    invariant
                        i <= decls@.len(),
                        o.cur_func is Some ==> body_ok(o) && body_ok(*recorder) && gen_step(o, *recorder),
                        o.cur_func is None ==> o.inv() && global_step(o, *recorder),
                        recorder.cur_func is Some == o.cur_func is Some,
                        recorder.symbols == o.symbols,
                        recorder.funcs@ == o.funcs@,
                        var_decls_ready(decls@, i as int, recorder.bound().dom(), o.symbols@, o.func_ids().dom(),
                            o.cur_func is None),
                        var_decls_names(decls@, 0, o.bound().dom()) == var_decls_names(decls@, i as int, recorder.bound().dom()),
                    decreases decls@.len() - i,
                {
                    let ghost m = *recorder;
                    let r = decls[i].generate_ir(recorder);
                    proof {
                        if o.cur_func is Some {
                            lemma_gen_step_trans(o, m, *recorder);
                        } else {
                            lemma_global_step_trans(o, m, *recorder);
                        }
                    }
                    i = i + 1;
                }
                Ok(())
            },
            Decl::ConstDecl(decls) => {
                let mut i: usize = 0;
                while i < decls.len()
                    invariant
                        i <= decls@.len(),
                        o.cur_func is Some ==> body_ok(o) && body_ok(*recorder) && gen_step(o, *recorder),
                        o.cur_func is None ==> o.inv() && global_step(o, *recorder),
                        recorder.cur_func is Some == o.cur_func is Some,
                        recorder.symbols == o.symbols,
                        const_decls_ready(decls@, i as int, o.symbols@),
                        const_decls_names(decls@, 0, o.bound().dom()) == const_decls_names(decls@, i as int, recorder.bound().dom()),
                    decreases decls@.len() - i,
                {
                    let ghost m = *recorder;
                    let r = decls[i].generate_ir(recorder);
                    proof {
                        if o.cur_func is Some {
                            if decls@[i as int].kind != ExprKind::Int {
                                lemma_gen_step_trans(o, m, *recorder);
                            }
                        } else {
                            if decls@[i as int].kind != ExprKind::Int {
                                lemma_global_step_trans(o, m, *recorder);
                            }
                        }
                    }
                    i = i + 1;
                }
                Ok(())
            },
        }
    }
}

pub proof fn lemma_global_step_trans(a: ProgramRecorder, b: ProgramRecorder, c: ProgramRecorder)
    requires
        global_step(a, b),
        global_step(b, c),
    ensures
        global_step(a, c),
{
    assert(a.values@.is_prefix_of(c.values@)) by {
        assert forall|i: int| 0 <= i < a.values@.len() implies c.values@[i] == a.values@[i] by {
            assert(b.values@[i] == a.values@[i]);
        }
    }
    assert(a.program.values@.is_prefix_of(c.program.values@)) by {
        assert forall|i: int| 0 <= i < a.program.values@.len() implies c.program.values@[i] == a.program.values@[i] by {
            assert(b.program.values@[i] == a.program.values@[i]);
        }
    }
    assert(a.program.inst_layout@.is_prefix_of(c.program.inst_layout@)) by {
        assert forall|i: int| 0 <= i < a.program.inst_layout@.len() implies c.program.inst_layout@[i] == a.program.inst_layout@[i] by {
            assert(b.program.inst_layout@[i] == a.program.inst_layout@[i]);
        }
    }
}

/// Entering a loop whose exit waits to be laid out keeps the shape.
pub proof fn lemma_loop_enter(a: ProgramRecorder, b: ProgramRecorder, exit: usize)
    requires
        body_ok(a),
        pending(a, exit),
        b.inv(),
        b.program == a.program,
        b.symbols == a.symbols,
        b.values@ == a.values@,
        b.funcs@ == a.funcs@,
        b.cur_func == a.cur_func,
        b.loops@.len() == a.loops@.len() + 1,
        b.loops@.drop_last() == a.loops@,
        b.loops@.last().exit == exit,
    ensures
        body_ok(b),
{
    assert forall|i: int| 0 <= i < b.loops@.len() implies pending(b, (#[trigger] b.loops@[i]).exit) by {
        if i < a.loops@.len() {
            assert(b.loops@.drop_last()[i] == b.loops@[i]);
            assert(pending(a, a.loops@[i].exit));
        }
    }
}

/// Leaving a loop keeps the shape.
pub proof fn lemma_loop_exit(c: ProgramRecorder, d: ProgramRecorder)
    requires
        body_ok(c),
        d.inv(),
        d.program == c.program,
        d.symbols == c.symbols,
        d.values@ == c.values@,
        d.funcs@ == c.funcs@,
        d.cur_func == c.cur_func,
        d.loops@.len() + 1 == c.loops@.len(),
        d.loops@ == c.loops@.drop_last(),
    ensures
        body_ok(d),
        pending(d, c.loops@.last().exit),
{
    assert forall|i: int| 0 <= i < d.loops@.len() implies pending(d, (#[trigger] d.loops@[i]).exit) by {
        assert(c.loops@.drop_last()[i] == c.loops@[i]);
        assert(pending(c, c.loops@[i].exit));
    }
    assert(pending(c, c.loops@[c.loops@.len() - 1].exit));
}

/// A generation step inside a loop is a generation step around it.
pub proof fn lemma_gen_step_loops(a: ProgramRecorder, b: ProgramRecorder, c: ProgramRecorder, d: ProgramRecorder)
    requires
        gen_step(b, c),
        b.program == a.program,
        b.symbols == a.symbols,
        b.values@ == a.values@,
        b.funcs@ == a.funcs@,
        b.cur_func == a.cur_func,
        d.program == c.program,
        d.symbols == c.symbols,
        d.values@ == c.values@,
        d.funcs@ == c.funcs@,
        d.cur_func == c.cur_func,
        d.loops@ == a.loops@,
    ensures
        gen_step(a, d),
{
}

impl Assign {
    /// Stores the value at the address of the variable or array element.
    pub fn generate_ir(&self, recorder: &mut ProgramRecorder) -> (r: Result<(), String>)
        requires
            body_ok(*old(recorder)),
            stmt_ready_in(Stmt::Assign(*self), *old(recorder)),
        ensures
            stmt_done(Stmt::Assign(*self), *old(recorder), *final(recorder), r),
            r is Ok ==> final(recorder).program.values@.last().kind is Store,
            r is Ok && old(recorder).symbols@[self.lval.ident@].spec_kind() is Integer
                ==> final(recorder).program.values@.last().kind->Store_1 == old(recorder).bound()[self.lval.ident@],
    {
        let ghost o = *recorder;
        let dst = get_lval_ptr(recorder, &self.lval);
        let ghost m = *recorder;
        let value = self.val.generate_ir(recorder)?;
        let ghost m2 = *recorder;
        emit(recorder, IrType::Unit, ValueKind::Store(value, dst));
        proof {
            lemma_gen_step_trans(o, m, m2);
            lemma_gen_step_trans(o, m2, *recorder);
        }
        Ok(())
    }
}

impl Break {
    /// Jumps to the exit of the innermost loop and continues in a new block,
    /// which nothing reaches; fails outside every loop.
    pub fn generate_ir(&self, recorder: &mut ProgramRecorder) -> (r: Result<(), String>)
        requires
            body_ok(*old(recorder)),
        ensures
            stmt_done(Stmt::Break(*self), *old(recorder), *final(recorder), r),
    {
        if !recorder.inside_loop() {
            return Err(String::from_str("break outside of loop"));
        }
        let ghost o = *recorder;
        let loop_exit = recorder.loop_exit();
        let next_bb = recorder.new_anonymous_bb();
        let ghost m = *recorder;
        proof {
            lemma_new_bb_step(o, m, next_bb);
            assert(o.loops@.last() == o.loops@[o.loops@.len() - 1]);
        }
        terminate(recorder, ValueKind::Jump(loop_exit, Vec::new()), next_bb);
        proof {
            lemma_terminate_from(o, m, *recorder, next_bb);
        }
        Ok(())
    }
}

impl Continue {
    /// Jumps to the entry of the innermost loop and continues in a new
    /// block, which nothing reaches; fails outside every loop.
    pub fn generate_ir(&self, recorder: &mut ProgramRecorder) -> (r: Result<(), String>)
        requires
            body_ok(*old(recorder)),
        ensures
            stmt_done(Stmt::Continue(*self), *old(recorder), *final(recorder), r),
    {
        if !recorder.inside_loop() {
            return Err(String::from_str("continue outside of loop"));
        }
        let ghost o = *recorder;
        let loop_entry = recorder.loop_entry();
        let next_bb = recorder.new_anonymous_bb();
        let ghost m = *recorder;
        proof {
            lemma_new_bb_step(o, m, next_bb);
            assert(o.loops@.last() == o.loops@[o.loops@.len() - 1]);
        }
        terminate(recorder, ValueKind::Jump(loop_entry, Vec::new()), next_bb);
        proof {
            lemma_terminate_from(o, m, *recorder, next_bb);
        }
        Ok(())
    }
}

impl Return {
    /// Stores the returned value where the function keeps it, jumps to the
    /// end block and continues in a new block, which nothing reaches.
    pub fn generate_ir(&self, recorder: &mut ProgramRecorder) -> (r: Result<(), String>)
        requires
            body_ok(*old(recorder)),
            stmt_ready_in(Stmt::Return(*self), *old(recorder)),
        ensures
            stmt_done(Stmt::Return(*self), *old(recorder), *final(recorder), r),
            r is Ok ==> final(recorder).program.values@.last().kind is Jump
                && final(recorder).program.values@.last().kind->Jump_1@.len() == 0,
            r is Ok && self.ret_val is Some ==> final(recorder).program.values@[final(recorder).program.values@.len() - 2].kind is Store,
    {
        let ghost o = *recorder;
        proof {
            lemma_gen_step_refl(o);
        }
        if let Some(ret_val) = &self.ret_val {
            let v = ret_val.generate_ir(recorder)?;
            let ghost m = *recorder;
            let dst = match recorder.func().ret_val {
                Some(d) => d,
                None => {
                    proof { assert(false); }
                    0
                },
            };
            emit(recorder, IrType::Unit, ValueKind::Store(v, dst));
            proof {
                lemma_gen_step_trans(o, m, *recorder);
            }
        }
        let ghost m1 = *recorder;
        let end_bb = recorder.func().end_bb;
        let next_bb = recorder.new_anonymous_bb();
        let ghost m2 = *recorder;
        proof {
            lemma_new_bb_step(m1, m2, next_bb);
            lemma_gen_step_trans(o, m1, m2);
        }
        terminate(recorder, ValueKind::Jump(end_bb, Vec::new()), next_bb);
        proof {
            lemma_terminate_from(o, m2, *recorder, next_bb);
        }
        Ok(())
    }
}

impl Block {
    /// Generates the items in order; stops at the first failure.
    pub fn generate_ir(&self, recorder: &mut ProgramRecorder) -> (r: Result<(), String>)
        requires
            body_ok(*old(recorder)),
            stmt_ready_in(Stmt::Block(*self), *old(recorder)),
        ensures
            stmt_done(Stmt::Block(*self), *old(recorder), *final(recorder), r),
        decreases self, 1int,
    {
        let ghost o = *recorder;
        let ghost in_loop = o.loops@.len() > 0;
        proof {
            lemma_gen_step_refl(o);
        }
        let mut i: usize = 0;
        while i < self.items.len()
            invariant
                i <= self.items@.len(),
                body_ok(o),
                body_ok(*recorder),
                gen_step(o, *recorder),
                items_ready(self.items@, i as int, recorder.bound().dom(), o.symbols@, o.func_ids().dom(),
                    o.cur().ret_val is Some),
                items_names(self.items@, 0, o.bound().dom()) == items_names(self.items@, i as int, recorder.bound().dom()),
                items_jumps_ok(self.items@, 0, in_loop) == items_jumps_ok(self.items@, i as int, in_loop),
                in_loop == (o.loops@.len() > 0),
                o == *old(recorder),
            decreases self.items@.len() - i,
        {
            let ghost m = *recorder;
            proof {
                assert(decreases_to!(*self => self.items@[i as int]));
            }
            match &self.items[i] {
                BlockItem::Decl(decl) => {
                    decl.generate_ir(recorder)?;
                },
                BlockItem::Stmt(stmt) => {
                    let res = stmt.generate_ir(recorder);
                    if res.is_err() {
                        proof {
                            assert(self.items@[i as int] == BlockItem::Stmt(*stmt));
                            assert(!stmt_jumps_ok(*stmt, in_loop));
                            assert(!items_jumps_ok(self.items@, i as int, in_loop));
                            assert(!items_jumps_ok(self.items@, 0, in_loop));
                            assert(!stmt_jumps_ok(Stmt::Block(*self), in_loop));
                        }
                        return res;
                    }
                },
            }
            proof {
                lemma_gen_step_trans(o, m, *recorder);
            }
            i = i + 1;
        }
        Ok(())
    }
}

impl Stmt {
    pub fn generate_ir(&self, recorder: &mut ProgramRecorder) -> (r: Result<(), String>)
        requires
            body_ok(*old(recorder)),
            stmt_ready_in(*self, *old(recorder)),
        ensures
            stmt_done(*self, *old(recorder), *final(recorder), r),
        decreases self, 2int,
    {
        match self {
            Stmt::Assign(s) => s.generate_ir(recorder),
            Stmt::Block(s) => s.generate_ir(recorder),
            Stmt::Expr(s) => match s {
                Some(exp) => {
                    let ghost o = *recorder;
                    exp.generate_ir(recorder)?;
                    Ok(())
                },
                None => {
                    proof {
                        lemma_gen_step_refl(*recorder);
                    }
                    Ok(())
                },
            },
            Stmt::Return(s) => s.generate_ir(recorder),
            Stmt::Branch(s) => s.generate_ir(recorder),
            Stmt::While(s) => s.generate_ir(recorder),
            Stmt::Break(s) => s.generate_ir(recorder),
            Stmt::Continue(s) => s.generate_ir(recorder),
        }
    }
}

impl Branch {
    /// Branches on the condition to a block for each arm; both arms jump
    /// to a block where generation continues.
    pub fn generate_ir(&self, recorder: &mut ProgramRecorder) -> (r: Result<(), String>)
        requires
            body_ok(*old(recorder)),
            stmt_ready_in(Stmt::Branch(*self), *old(recorder)),
        ensures
            stmt_done(Stmt::Branch(*self), *old(recorder), *final(recorder), r),
        decreases self, 1int,
    {
        let ghost o = *recorder;
        let true_bb = recorder.new_anonymous_bb();
        let ghost m0 = *recorder;
        let false_bb = recorder.new_anonymous_bb();
        let ghost m1 = *recorder;
        let end_bb = recorder.new_anonymous_bb();
        let ghost m2 = *recorder;
        proof {
            lemma_new_bb_step(o, m0, true_bb);
            lemma_new_bb_step(m0, m1, false_bb);
            lemma_new_bb_step(m1, m2, end_bb);
            lemma_gen_step_trans(o, m0, m1);
            lemma_gen_step_trans(o, m1, m2);
            lemma_pending_stable(m0, m1, true_bb);
            lemma_pending_stable(m1, m2, true_bb);
            lemma_pending_stable(m1, m2, false_bb);
        }
        let result = self.cond.generate_ir(recorder)?;
        let ghost m3 = *recorder;
        proof {
            lemma_gen_step_trans(o, m2, m3);
            lemma_pending_stable(m2, m3, true_bb);
            lemma_pending_stable(m2, m3, false_bb);
            lemma_pending_stable(m2, m3, end_bb);
        }
        terminate(recorder, ValueKind::Branch(result, true_bb, Vec::new(), false_bb, Vec::new()), true_bb);
        let ghost m4 = *recorder;
        proof {
            lemma_terminate_from(o, m3, m4, true_bb);
            lemma_terminate_pending(m3, m4, false_bb);
            lemma_terminate_pending(m3, m4, end_bb);
        }
        self.if_stmt.generate_ir(recorder)?;
        let ghost m5 = *recorder;
        proof {
            lemma_gen_step_trans(o, m4, m5);
            lemma_pending_stable(m4, m5, false_bb);
            lemma_pending_stable(m4, m5, end_bb);
        }
        terminate(recorder, ValueKind::Jump(end_bb, Vec::new()), false_bb);
        let ghost m6 = *recorder;
        proof {
            lemma_terminate_from(o, m5, m6, false_bb);
            lemma_terminate_pending(m5, m6, end_bb);
        }
        if let Some(el_stmt) = &self.el_stmt {
            el_stmt.generate_ir(recorder)?;
            proof {
                lemma_gen_step_trans(o, m6, *recorder);
                lemma_pending_stable(m6, *recorder, end_bb);
            }
        }
        let ghost m7 = *recorder;
        terminate(recorder, ValueKind::Jump(end_bb, Vec::new()), end_bb);
        proof {
            lemma_terminate_from(o, m7, *recorder, end_bb);
        }
        Ok(())
    }
}

impl While {
    /// Jumps to a block that branches on the condition to the body or out
    /// of the loop; the body jumps back to the condition.
    pub fn generate_ir(&self, recorder: &mut ProgramRecorder) -> (r: Result<(), String>)
        requires
            body_ok(*old(recorder)),
            stmt_ready_in(Stmt::While(*self), *old(recorder)),
        ensures
            stmt_done(Stmt::While(*self), *old(recorder), *final(recorder), r),
        decreases self, 1int,
    {
        let ghost o = *recorder;
        let loop_entry = recorder.new_anonymous_bb();
        let ghost m0 = *recorder;
        let loop_body = recorder.new_anonymous_bb();
        let ghost m1 = *recorder;
        let loop_exit = recorder.new_anonymous_bb();
        let ghost m2 = *recorder;
        proof {
            lemma_new_bb_step(o, m0, loop_entry);
            lemma_new_bb_step(m0, m1, loop_body);
            lemma_new_bb_step(m1, m2, loop_exit);
            lemma_gen_step_trans(o, m0, m1);
            lemma_gen_step_trans(o, m1, m2);
            lemma_pending_stable(m0, m1, loop_entry);
            lemma_pending_stable(m1, m2, loop_entry);
            lemma_pending_stable(m1, m2, loop_body);
        }
        terminate(recorder, ValueKind::Jump(loop_entry, Vec::new()), loop_entry);
        let ghost m3 = *recorder;
        proof {
            lemma_terminate_from(o, m2, m3, loop_entry);
            lemma_terminate_pending(m2, m3, loop_body);
            lemma_terminate_pending(m2, m3, loop_exit);
        }
        let result = self.cond.generate_ir(recorder)?;
        let ghost m4 = *recorder;
        proof {
            lemma_gen_step_trans(o, m3, m4);
            lemma_pending_stable(m3, m4, loop_body);
            lemma_pending_stable(m3, m4, loop_exit);
        }
        terminate(recorder, ValueKind::Branch(result, loop_body, Vec::new(), loop_exit, Vec::new()), loop_body);
        let ghost m5 = *recorder;
        proof {
            lemma_terminate_from(o, m4, m5, loop_body);
            lemma_terminate_pending(m4, m5, loop_exit);
        }
        recorder.enter_loop(loop_entry, loop_exit);
        let ghost m6 = *recorder;
        proof {
            assert(m6.loops@.drop_last() =~= m5.loops@);
            lemma_loop_enter(m5, m6, loop_exit);
        }
        self.stmt.generate_ir(recorder)?;
        let ghost m7 = *recorder;
        recorder.exit_loop();
        let ghost m8 = *recorder;
        proof {
            assert(m8.loops@ =~= m7.loops@.drop_last());
            assert(m7.loops@.last().exit == loop_exit) by {
                assert(m7.loops@ == m6.loops@);
            }
            lemma_loop_exit(m7, m8);
            lemma_gen_step_loops(m5, m6, m7, m8);
            lemma_gen_step_trans(o, m5, m8);
        }
        terminate(recorder, ValueKind::Jump(loop_entry, Vec::new()), loop_exit);
        proof {
            lemma_terminate_from(o, m8, *recorder, loop_exit);
        }
        Ok(())
    }
}

/// The names that live in values once the first `n` parameters are stored.
pub open spec fn param_names(ps: Seq<FuncParam>, n: int, names: Set<Seq<char>>) -> Set<Seq<char>>
    decreases n,
{
    if n <= 0 {
        names
    } else {
        param_names(ps, n - 1, names).insert(ps[n - 1].ident@)
    }
}

/// The number of parameters of the function `name`.
pub open spec fn num_params(types: Map<Seq<char>, Type>, name: Seq<char>) -> int {
    param_types(types[name]).len() as int
}

/// Whether the function `f` can be generated: its type is known, it has
/// a name for each parameter, and its body can be generated with its
/// parameters and itself visible.
pub open spec fn func_ready(f: FuncDef, names: Set<Seq<char>>, types: Map<Seq<char>, Type>, fnames: Set<Seq<char>>) -> bool {
    &&& func_sig_ok(types, f.ident@)
    &&& num_params(types, f.ident@) <= f.params@.len()
    &&& items_ready(
        f.block.items@,
        0,
        param_names(f.params@, num_params(types, f.ident@), names),
        types,
        fnames.insert(f.ident@),
        f.ret_kind != ExprKind::Void,
    )
}

/// Whether every block of function `f` ends with its only terminator.
pub open spec fn func_closed(p: Program, f: int) -> bool {
    let lay = p.funcs@[f].layout@;
    &&& lay.len() > 0
    &&& forall|i: int| 0 <= i < lay.len() ==> p.is_closed(#[trigger] lay[i])
}

/// Whether `r` keeps every value, block, function and global allocation
/// that `o` had as it was.
pub open spec fn frame_from(o: ProgramRecorder, r: ProgramRecorder) -> bool {
    let p = o.program;
    let q = r.program;
    &&& p.values@.len() <= q.values@.len()
    &&& forall|i: int| 0 <= i < p.values@.len() ==> q.values@[i] == #[trigger] p.values@[i]
    &&& p.blocks@.len() <= q.blocks@.len()
    &&& forall|b: int| 0 <= b < p.blocks@.len() ==> (#[trigger] q.blocks@[b]).insts@ == p.blocks@[b].insts@
    &&& p.funcs@.len() <= q.funcs@.len()
    &&& forall|g: int| 0 <= g < p.funcs@.len() ==> (#[trigger] q.funcs@[g]).layout@ == p.funcs@[g].layout@
    &&& q.inst_layout@ == p.inst_layout@
}

/// A generation step in a function made after `o` keeps what `o` had.
pub proof fn lemma_frame_step(o: ProgramRecorder, a: ProgramRecorder, b: ProgramRecorder)
    requires
        frame_from(o, a),
        gen_step(a, b),
        a.cur().entry_bb >= o.program.blocks@.len(),
        a.cur().cur_bb >= o.program.blocks@.len(),
        a.cur().func >= o.program.funcs@.len(),
    ensures
        frame_from(o, b),
        b.cur().cur_bb >= o.program.blocks@.len(),
{
    let p = o.program;
    let q = b.program;
    assert forall|x: int| 0 <= x < p.blocks@.len() implies (#[trigger] q.blocks@[x]).insts@ == p.blocks@[x].insts@ by {
        assert(a.program.blocks@[x].insts@ == p.blocks@[x].insts@);
        assert(!set![a.cur().entry_bb, a.cur().cur_bb].contains(x as usize));
    }
    assert forall|g: int| 0 <= g < p.funcs@.len() implies (#[trigger] q.funcs@[g]).layout@ == p.funcs@[g].layout@ by {
        assert(a.program.funcs@[g].layout@ == p.funcs@[g].layout@);
        assert(!set![a.cur().func].contains(g as usize));
    }
    assert forall|i: int| 0 <= i < p.values@.len() implies q.values@[i] == #[trigger] p.values@[i] by {
        assert(a.program.values@[i] == p.values@[i]);
    }
}

/// Entering a new block after the preamble of the entry block starts the body.
pub proof fn lemma_enter_body(a: ProgramRecorder, b: ProgramRecorder, bb: usize)
    requires
        shape_ok(a),
        a.cur().cur_bb == a.cur().entry_bb,
        bb == a.program.blocks@.len(),
        b.inv(),
        b.symbols == a.symbols,
        b.values@ == a.values@,
        b.funcs@ == a.funcs@,
        b.loops@ == a.loops@,
        b.cur_func == Some(FunctionInfo { cur_bb: bb, ..a.cur() }),
        b.program.values@ == a.program.values@,
        b.program.blocks@.len() == bb + 1,
        b.program.blocks@.subrange(0, bb as int) == a.program.blocks@,
        b.program.blocks@[bb as int].insts@.len() == 0,
        layout_pushed(a.program.funcs@, b.program.funcs@, a.cur().func, bb),
        b.program.inst_layout@ == a.program.inst_layout@,
    ensures
        body_ok(b),
        gen_step(a, b),
{
    let p = a.program;
    let q = b.program;
    let fi = a.cur();
    let lay = p.funcs@[fi.func as int].layout@;
    let lay2 = q.funcs@[fi.func as int].layout@;
    assert forall|x: int| 0 <= x < p.blocks@.len() implies q.blocks@[x] == #[trigger] p.blocks@[x] by {
        assert(q.blocks@.subrange(0, bb as int)[x] == q.blocks@[x]);
    }
    lemma_block_stable(p, q, fi.entry_bb);
    assert(!lay.contains(bb)) by {
        if lay.contains(bb) {
            let k = choose|k: int| 0 <= k < lay.len() && lay[k] == bb;
            assert(crate::ir::all_below(lay, p.blocks@.len() as int));
        }
    }
    assert(lay2[lay.len() as int] == bb);
    assert forall|i: int| 0 <= i < lay2.len() && lay2[i] != bb && lay2[i] != fi.entry_bb implies q.is_closed(
        #[trigger] lay2[i],
    ) by {
        if i < lay.len() {
            assert(lay2[i] == lay[i]);
            assert(p.is_closed(lay[i]));
            lemma_block_stable(p, q, lay[i]);
        }
    }
    assert(!lay2.contains(fi.end_bb)) by {
        if lay2.contains(fi.end_bb) {
            let k = choose|k: int| 0 <= k < lay2.len() && lay2[k] == fi.end_bb;
            if k < lay.len() {
                assert(lay[k] == fi.end_bb);
            }
        }
    }
    assert forall|i: int| 0 <= i < b.loops@.len() implies pending(b, (#[trigger] b.loops@[i]).exit) by {
        let e = a.loops@[i].exit;
        assert(pending(a, e));
        if lay2.contains(e) {
            let k = choose|k: int| 0 <= k < lay2.len() && lay2[k] == e;
            if k < lay.len() {
                assert(lay[k] == e);
            }
        }
    }
    lemma_gen_step_refl(a);
    assert(lay.is_prefix_of(lay2));
    assert forall|g: int| 0 <= g < p.funcs@.len() implies {
        &&& q.funcs@[g].name == (#[trigger] p.funcs@[g]).name
        &&& q.funcs@[g].params@ == p.funcs@[g].params@
        &&& q.funcs@[g].param_tys@ == p.funcs@[g].param_tys@
        &&& q.funcs@[g].ret_ty == p.funcs@[g].ret_ty
        &&& if set![fi.func].contains(g as usize) {
            p.funcs@[g].layout@.is_prefix_of(q.funcs@[g].layout@)
        } else {
            q.funcs@[g].layout@ == p.funcs@[g].layout@
        }
    } by {
        if g != fi.func {
            assert(q.funcs@[g] == p.funcs@[g]);
        }
    }
}

/// Whether the entry block of function `f` of `p` begins, for each of its
/// parameters in order, with a local allocation and the store of the
/// parameter into that allocation, followed, where `ret`, by the allocation
/// of the return value.
pub open spec fn params_stored(p: Program, f: int, ret: bool) -> bool {
    let ps = p.funcs@[f].params@;
    let es = p.blocks@[p.funcs@[f].layout@[0] as int].insts@;
    &&& p.funcs@[f].layout@.len() > 0
    &&& es.len() >= 2 * ps.len() + (if ret { 1int } else { 0int })
    &&& forall|i: int|
        0 <= i < ps.len() ==> {
            &&& p.values@[es[2 * i] as int].kind is Alloc
            &&& p.values@[es[2 * i + 1] as int].kind == ValueKind::Store(#[trigger] ps[i], es[2 * i])
        }
    &&& ret ==> p.values@[es[2 * ps.len() as int] as int].kind is Alloc
}

/// What `params_stored` says stays true where values and the instructions
/// of the entry block only grow at their ends.
proof fn lemma_params_stored_kept(p: Program, q: Program, f: int, ret: bool)
    requires
        params_stored(p, f, ret),
        q.funcs@[f].params@ == p.funcs@[f].params@,
        q.funcs@[f].layout@.len() > 0,
        q.funcs@[f].layout@[0] == p.funcs@[f].layout@[0],
        p.blocks@[p.funcs@[f].layout@[0] as int].insts@.is_prefix_of(q.blocks@[p.funcs@[f].layout@[0] as int].insts@),
        crate::ir::all_below(p.blocks@[p.funcs@[f].layout@[0] as int].insts@, p.values@.len() as int),
        p.values@.len() <= q.values@.len(),
        forall|i: int| 0 <= i < p.values@.len() ==> q.values@[i] == #[trigger] p.values@[i],
    ensures
        params_stored(q, f, ret),
{
    let ps = p.funcs@[f].params@;
    let e = p.funcs@[f].layout@[0] as int;
    let es = p.blocks@[e].insts@;
    let qs = q.blocks@[e].insts@;
    assert forall|i: int| 0 <= i < ps.len() implies {
        &&& q.values@[qs[2 * i] as int].kind is Alloc
        &&& q.values@[qs[2 * i + 1] as int].kind == ValueKind::Store(#[trigger] ps[i], qs[2 * i])
    } by {
        assert(qs[2 * i] == es[2 * i]);
        assert(qs[2 * i + 1] == es[2 * i + 1]);
        assert(q.values@[es[2 * i] as int] == p.values@[es[2 * i] as int]);
        assert(q.values@[es[2 * i + 1] as int] == p.values@[es[2 * i + 1] as int]);
    }
    if ret {
        assert(qs[2 * ps.len() as int] == es[2 * ps.len() as int]);
        assert(q.values@[es[2 * ps.len() as int] as int] == p.values@[es[2 * ps.len() as int] as int]);
    }
}

impl FuncDef {
    /// Generates the function: an entry block that stores each parameter
    /// into a local variable and allocates the return value, the body, and
    /// an end block that returns the return value. Fails exactly where a
    /// `break` or `continue` of the body lies outside every loop.
    pub fn generate_ir(&self, recorder: &mut ProgramRecorder) -> (r: Result<(), String>)
        requires
            old(recorder).inv(),
            old(recorder).cur_func is None,
            old(recorder).loops@.len() == 0,
            func_ready(*self, old(recorder).bound().dom(), old(recorder).symbols@, old(recorder).func_ids().dom()),
        ensures
            (r is Ok) == items_jumps_ok(self.block.items@, 0, false),
            r is Ok ==> {
                let nf = old(recorder).program.funcs@.len();
                let p = final(recorder).program;
                &&& final(recorder).inv()
                &&& final(recorder).cur_func is None
                &&& final(recorder).loops@.len() == 0
                &&& final(recorder).symbols == old(recorder).symbols
                &&& final(recorder).func_ids() == old(recorder).func_ids().insert(self.ident@, nf as usize)
                &&& final(recorder).bound().dom() == items_names(
                    self.block.items@,
                    0,
                    param_names(self.params@, num_params(old(recorder).symbols@, self.ident@), old(recorder).bound().dom()),
                )
                &&& p.funcs@.len() == nf + 1
                &&& p.funcs@[nf as int].name@ == "@"@ + self.ident@
                &&& func_closed(p, nf as int)
                &&& params_stored(p, nf as int, self.ret_kind != ExprKind::Void)
                &&& p.funcs@[nf as int].params@.len() == param_types(old(recorder).symbols@[self.ident@]).len()
                &&& frame_from(*old(recorder), *final(recorder))
                &&& exists|b0: ProgramRecorder, b1: ProgramRecorder|
                    #![trigger b0.cur(), b1.program]
                    {
                        &&& stmt_done(Stmt::Block(self.block), b0, b1, Ok::<(), String>(()))
                        &&& b0.cur().func == nf
                        &&& p.funcs@[nf as int].layout@.len() > 1
                        &&& b0.cur().cur_bb == p.funcs@[nf as int].layout@[1]
                        &&& b1.program.values@.is_prefix_of(p.values@)
                    }
            },
    {
        let ghost o = *recorder;
        let symbols = recorder.symbols;
        recorder.enter_func(self);
        let ghost m0 = *recorder;
        let fi = recorder.func();
        let f = fi.func;
        recorder.push_bb(fi.entry_bb);
        let ghost m1 = *recorder;
        proof {
            let lay = recorder.program.funcs@[f as int].layout@;
            assert(f == o.program.funcs@.len());
            assert(m0.program.funcs@[f as int].layout@.len() == 0);
            assert(lay == m0.program.funcs@[f as int].layout@.push(fi.entry_bb));
            assert(lay =~= seq![fi.entry_bb]);
            assert(recorder.program.blocks@[fi.entry_bb as int].insts@.len() == 0);
            assert(!lay.contains(fi.end_bb)) by {
                if lay.contains(fi.end_bb) {
                    assert(lay[0] == fi.end_bb);
                }
            }
            assert(lay[0] == fi.entry_bb);
            assert(lay.contains(fi.cur_bb));
            assert(recorder.program.is_open(fi.entry_bb));
            assert(pending(*recorder, fi.end_bb));
            assert(recorder.inv());
            assert(shape_ok(*recorder));
            let p = o.program;
            let q = recorder.program;
            assert forall|x: int| 0 <= x < p.blocks@.len() implies (#[trigger] q.blocks@[x]).insts@ == p.blocks@[x].insts@ by {
                assert(q.blocks@.subrange(0, p.blocks@.len() as int)[x] == q.blocks@[x]);
            }
            assert forall|g: int| 0 <= g < p.funcs@.len() implies (#[trigger] q.funcs@[g]).layout@ == p.funcs@[g].layout@ by {
                assert(m0.program.funcs@.subrange(0, p.funcs@.len() as int)[g] == m0.program.funcs@[g]);
                assert(q.funcs@[g] == m0.program.funcs@[g]);
            }
            assert forall|i: int| 0 <= i < p.values@.len() implies q.values@[i] == #[trigger] p.values@[i] by {
                assert(q.values@.subrange(0, p.values@.len() as int)[i] == q.values@[i]);
            }
            assert(frame_from(o, *recorder));
        }
        let ty = symbols.get(self.ident.as_str());
        let param_tys: &Vec<Type> = match ty.kind() {
            TypeKind::Func(_, ps) => ps,
            _ => {
                proof { assert(false); }
                return Ok(());
            },
        };
        let ret_ty: &Type = match ty.kind() {
            TypeKind::Func(rt, _) => rt,
            _ => {
                proof { assert(false); }
                return Ok(());
            },
        };
        let mut i: usize = 0;
        proof {
            lemma_gen_step_refl(m1);
        }
        while i < param_tys.len()
            invariant
                shape_ok(*recorder),
                shape_ok(m1),
                gen_step(m1, *recorder),
                frame_from(o, m1),
                m1.cur() == fi,
                recorder.cur() == fi,
                fi.cur_bb == fi.entry_bb,
                fi.func == f,
                fi.entry_bb >= o.program.blocks@.len(),
                f >= o.program.funcs@.len(),
                f < recorder.program.funcs@.len(),
                recorder.symbols == symbols,
                recorder.func_ids() == m0.func_ids(),
                i <= param_tys@.len(),
                param_tys@ == param_types(symbols@[self.ident@]),
                param_tys@.len() <= self.params@.len(),
                forall|j: int| 0 <= j < param_tys@.len() ==> crate::sema::ty::func_free(#[trigger] param_tys@[j]),
                recorder.program.funcs@[f as int].params@.len() == param_tys@.len(),
                recorder.bound().dom() == param_names(self.params@, i as int, o.bound().dom()),
                recorder.program.funcs@ == m1.program.funcs@,
                recorder.program.funcs@[f as int].layout@ == seq![fi.entry_bb],
                ({
                    let ps = recorder.program.funcs@[f as int].params@;
                    let es = recorder.program.blocks@[fi.entry_bb as int].insts@;
                    &&& es.len() == 2 * i
                    &&& forall|j: int|
                        0 <= j < i ==> {
                            &&& recorder.program.values@[es[2 * j] as int].kind is Alloc
                            &&& recorder.program.values@[es[2 * j + 1] as int].kind == ValueKind::Store(#[trigger] ps[j], es[2 * j])
                        }
                }),
            decreases param_tys@.len() - i,
        {
            let ghost m = *recorder;
            let pty = param_tys[i].get_ir_ty();
            let value = recorder.program.funcs[f].params[i];
            let mut name = String::from_str("%");
            name.append(self.params[i].ident.as_str());
            let alloc = local_alloc(recorder, pty, Some(name));
            let ghost ma = *recorder;
            emit(recorder, IrType::Unit, ValueKind::Store(value, alloc));
            let ghost mb = *recorder;
            recorder.insert_value(self.params[i].ident.as_str(), alloc);
            proof {
                lemma_insert_step(mb, *recorder);
                lemma_gen_step_trans(m1, m, ma);
                lemma_gen_step_trans(m1, ma, mb);
                lemma_gen_step_trans(m1, mb, *recorder);
                lemma_assoc_push(mb.values@, recorder.values@);
                let ps = recorder.program.funcs@[f as int].params@;
                let es0 = m.program.blocks@[fi.entry_bb as int].insts@;
                let es = recorder.program.blocks@[fi.entry_bb as int].insts@;
                assert(recorder.program.blocks@ == mb.program.blocks@);
                assert(recorder.program.values@ == mb.program.values@);
                assert(es == es0.push(alloc).push((alloc + 1) as usize));
                assert forall|j: int| 0 <= j < i + 1 implies {
                    &&& recorder.program.values@[es[2 * j] as int].kind is Alloc
                    &&& recorder.program.values@[es[2 * j + 1] as int].kind == ValueKind::Store(#[trigger] ps[j], es[2 * j])
                } by {
                    if j < i {
                        assert(es[2 * j] == es0[2 * j]);
                        assert(es[2 * j + 1] == es0[2 * j + 1]);
                        assert(es0[2 * j] < m.program.values@.len());
                        assert(es0[2 * j + 1] < m.program.values@.len());
                    } else {
                        assert(es[2 * j] == alloc);
                        assert(es[2 * j + 1] == alloc + 1);
                    }
                }
            }
            i = i + 1;
        }
        proof {
            lemma_frame_step(o, m1, *recorder);
        }
        if self.ret_kind != ExprKind::Void {
            let ghost m = *recorder;
            let ret_val = local_alloc(recorder, ret_ty.get_ir_ty(), Some(String::from_str("%ret")));
            let ghost ma = *recorder;
            recorder.set_ret_val(ret_val);
            proof {
                lemma_frame_step(o, m, ma);
                assert forall|k: int| 0 <= k < recorder.loops@.len() implies pending(*recorder, (#[trigger] recorder.loops@[k]).exit) by {
                    assert(pending(ma, ma.loops@[k].exit));
                }
                assert(shape_ok(*recorder));
            }
        }
        let ghost m2 = *recorder;
        proof {
            let es = m2.program.blocks@[fi.entry_bb as int].insts@;
            assert(m2.program.funcs@[f as int].layout@[0] == fi.entry_bb);
            assert(crate::ir::all_below(es, m2.program.values@.len() as int)) by {
                assert(m2.program.wf());
            }
            assert(params_stored(m2.program, f as int, self.ret_kind != ExprKind::Void));
        }
        let main_body = recorder.new_anonymous_bb();
        recorder.push_bb(main_body);
        let ghost m3 = *recorder;
        proof {
            lemma_enter_body(m2, m3, main_body);
            let p = o.program;
            let q = m3.program;
            assert forall|x: int| 0 <= x < p.blocks@.len() implies (#[trigger] q.blocks@[x]).insts@ == p.blocks@[x].insts@ by {
                assert(m2.program.blocks@[x].insts@ == p.blocks@[x].insts@);
            }
            assert forall|g: int| 0 <= g < p.funcs@.len() implies (#[trigger] q.funcs@[g]).layout@ == p.funcs@[g].layout@ by {
                assert(m2.program.funcs@[g].layout@ == p.funcs@[g].layout@);
            }
            assert(frame_from(o, m3));
            assert(m3.cur().ret_val is Some == (self.ret_kind != ExprKind::Void));
        }
        proof {
            assert(m3.program.funcs@[f as int].layout@ =~= seq![fi.entry_bb, main_body]);
        }
        let res = self.block.generate_ir(recorder);
        if res.is_err() {
            return res;
        }
        let ghost m4 = *recorder;
        proof {
            assert(m3.program.funcs@[f as int].layout@.is_prefix_of(m4.program.funcs@[f as int].layout@));
            assert(m4.program.funcs@[f as int].layout@[1] == main_body);
        }
        proof {
            lemma_frame_step(o, m3, m4);
        }
        let fi4 = recorder.func();
        let j = recorder.new_value(IrType::Unit, ValueKind::Jump(main_body, Vec::new()));
        recorder.push_inst_to(fi4.entry_bb, j);
        let ghost m5 = *recorder;
        let j2 = recorder.new_value(IrType::Unit, ValueKind::Jump(fi4.end_bb, Vec::new()));
        recorder.push_inst(j2);
        let ghost m6 = *recorder;
        recorder.push_bb(fi4.end_bb);
        let ghost m7 = *recorder;
        if self.ret_kind == ExprKind::Void {
            let ret = recorder.new_value(IrType::Unit, ValueKind::Return(None));
            recorder.push_inst(ret);
        } else {
            let rv = match fi4.ret_val {
                Some(v) => v,
                None => {
                    proof { assert(false); }
                    0
                },
            };
            let lty = recorder.program.values[rv].ty.pointee();
            let ld = recorder.new_value(lty, ValueKind::Load(rv));
            let ret = recorder.new_value(IrType::Unit, ValueKind::Return(Some(ld)));
            recorder.push_inst(ld);
            recorder.push_inst(ret);
        }
        let ghost m8 = *recorder;
        proof {
            lemma_func_tail(o, m4, m5, m6, m7, m8, j, j2);
            assert(m8.program.funcs@[f as int].layout@ == m4.program.funcs@[f as int].layout@.push(fi4.end_bb));
            assert(m8.program.funcs@[f as int].layout@[1] == main_body);
            assert(m4.program.values@.is_prefix_of(m8.program.values@));
        }
        recorder.exit_func();
        proof {
            assert(stmt_done(Stmt::Block(self.block), m3, m4, Ok::<(), String>(())));
            assert(m3.cur().cur_bb == main_body);
            let e = fi.entry_bb as int;
            assert(m3.program.blocks@[e].insts@ == m2.program.blocks@[e].insts@) by {
                assert(m3.program.blocks@[e] == m2.program.blocks@.subrange(0, m2.program.blocks@.len() as int)[e]);
            }
            assert(m3.program.blocks@[e].insts@.is_prefix_of(m4.program.blocks@[e].insts@));
            assert(m4.program.blocks@[e].insts@.is_prefix_of(m8.program.blocks@[e].insts@));
            let q = recorder.program;
            assert(m2.program.blocks@[e].insts@.is_prefix_of(q.blocks@[e].insts@));
            assert forall|i: int| 0 <= i < m2.program.values@.len() implies q.values@[i] == #[trigger] m2.program.values@[i] by {
                assert(m3.program.values@[i] == m2.program.values@[i]);
                assert(m4.program.values@[i] == m3.program.values@[i]);
            }
            lemma_params_stored_kept(m2.program, q, f as int, self.ret_kind != ExprKind::Void);
        }
        Ok(())
    }
}

/// The end of a function closes the entry block, the current block and the end block.
pub proof fn lemma_func_tail(
    o: ProgramRecorder,
    m4: ProgramRecorder,
    m5: ProgramRecorder,
    m6: ProgramRecorder,
    m7: ProgramRecorder,
    m8: ProgramRecorder,
    j: usize,
    j2: usize,
)
    requires
        body_ok(m4),
        frame_from(o, m4),
        m4.cur().entry_bb >= o.program.blocks@.len(),
        m4.cur().cur_bb >= o.program.blocks@.len(),
        m4.cur().end_bb >= o.program.blocks@.len(),
        m4.cur().func >= o.program.funcs@.len(),
        j == m4.program.values@.len(),
        m5.program.values@ == m4.program.values@.push(m5.program.values@[j as int]),
        m5.program.values@[j as int].kind is Jump,
        blocks_pushed(m4.program.blocks@, m5.program.blocks@, m4.cur().entry_bb, j),
        m5.program.funcs@ == m4.program.funcs@,
        m5.program.inst_layout@ == m4.program.inst_layout@,
        j2 == m5.program.values@.len(),
        m6.program.values@ == m5.program.values@.push(m6.program.values@[j2 as int]),
        m6.program.values@[j2 as int].kind is Jump,
        blocks_pushed(m5.program.blocks@, m6.program.blocks@, m4.cur().cur_bb, j2),
        m6.program.funcs@ == m5.program.funcs@,
        m6.program.inst_layout@ == m5.program.inst_layout@,
        m7.program.values@ == m6.program.values@,
        m7.program.blocks@ == m6.program.blocks@,
        layout_pushed(m6.program.funcs@, m7.program.funcs@, m4.cur().func, m4.cur().end_bb),
        m7.program.inst_layout@ == m6.program.inst_layout@,
        m7.program.values@.is_prefix_of(m8.program.values@),
        m8.program.blocks@.len() == m7.program.blocks@.len(),
        forall|b: int| 0 <= b < m7.program.blocks@.len() && b != m4.cur().end_bb ==> #[trigger] m8.program.blocks@[b]
            == m7.program.blocks@[b],
        m8.program.is_closed(m4.cur().end_bb),
        m8.program.funcs@ == m7.program.funcs@,
        m8.program.inst_layout@ == m7.program.inst_layout@,
        m8.inv(),
    ensures
        func_closed(m8.program, m4.cur().func as int),
        frame_from(o, m8),
{
    let fi = m4.cur();
    let f = fi.func as int;
    let p4 = m4.program;
    let p8 = m8.program;
    let lay = p4.funcs@[f].layout@;
    let lay8 = p8.funcs@[f].layout@;
    assert(lay8 == lay.push(fi.end_bb));
    assert(fi.cur_bb != fi.end_bb && fi.entry_bb != fi.end_bb) by {
        assert(lay.contains(fi.cur_bb));
        assert(lay[0] == fi.entry_bb);
    }
    assert forall|i: int| 0 <= i < p4.values@.len() implies p8.values@[i] == #[trigger] p4.values@[i] by {
        assert(m5.program.values@[i] == p4.values@[i]);
        assert(m6.program.values@[i] == m5.program.values@[i]);
        assert(m7.program.values@.is_prefix_of(p8.values@));
    }
    assert(p8.values@[j as int] == m5.program.values@[j as int]) by {
        assert(m6.program.values@[j as int] == m5.program.values@[j as int]);
    }
    assert(p8.values@[j2 as int] == m6.program.values@[j2 as int]);
    assert(p8.blocks@[fi.entry_bb as int].insts@ == p4.blocks@[fi.entry_bb as int].insts@.push(j)) by {
        assert(m6.program.blocks@[fi.entry_bb as int] == m5.program.blocks@[fi.entry_bb as int]);
    }
    assert(p8.blocks@[fi.cur_bb as int].insts@ == p4.blocks@[fi.cur_bb as int].insts@.push(j2)) by {
        assert(m5.program.blocks@[fi.cur_bb as int] == p4.blocks@[fi.cur_bb as int]);
    }
    lemma_close_push(p4, p8, fi.entry_bb, j);
    lemma_close_push(p4, p8, fi.cur_bb, j2);
    assert forall|i: int| 0 <= i < lay8.len() implies p8.is_closed(#[trigger] lay8[i]) by {
        if i < lay.len() {
            assert(lay8[i] == lay[i]);
            let x = lay[i];
            if x != fi.entry_bb && x != fi.cur_bb {
                assert(p4.is_closed(x));
                assert(x != fi.end_bb) by {
                    assert(lay.contains(x));
                }
                assert(p8.blocks@[x as int] == p4.blocks@[x as int]) by {
                    assert(m5.program.blocks@[x as int] == p4.blocks@[x as int]);
                    assert(m6.program.blocks@[x as int] == m5.program.blocks@[x as int]);
                }
                lemma_block_stable(p4, p8, x);
            }
        }
    }
    let po = o.program;
    assert forall|x: int| 0 <= x < po.blocks@.len() implies (#[trigger] p8.blocks@[x]).insts@ == po.blocks@[x].insts@ by {
        assert(p4.blocks@[x].insts@ == po.blocks@[x].insts@);
        assert(m5.program.blocks@[x] == p4.blocks@[x]);
        assert(m6.program.blocks@[x] == m5.program.blocks@[x]);
    }
    assert forall|g: int| 0 <= g < po.funcs@.len() implies (#[trigger] p8.funcs@[g]).layout@ == po.funcs@[g].layout@ by {
        assert(p4.funcs@[g].layout@ == po.funcs@[g].layout@);
        assert(m7.program.funcs@[g] == m6.program.funcs@[g]);
    }
    assert forall|i: int| 0 <= i < po.values@.len() implies p8.values@[i] == #[trigger] po.values@[i] by {
        assert(p4.values@[i] == po.values@[i]);
    }
}

/// Whether every function of `p` that has blocks ends each of them with its only terminator.
pub open spec fn all_closed(p: Program) -> bool {
    forall|g: int| 0 <= g < p.funcs@.len() && (#[trigger] p.funcs@[g]).layout@.len() > 0 ==> func_closed(p, g)
}

/// The functions of `o` keep their shape in a program that keeps what `o` had.
pub proof fn lemma_all_closed_frame(o: ProgramRecorder, n: ProgramRecorder)
    requires
        o.inv(),
        all_closed(o.program),
        frame_from(o, n),
    ensures
        forall|g: int| 0 <= g < o.program.funcs@.len() && (#[trigger] n.program.funcs@[g]).layout@.len() > 0
            ==> func_closed(n.program, g),
{
    let p = o.program;
    let q = n.program;
    assert forall|g: int| 0 <= g < p.funcs@.len() && (#[trigger] q.funcs@[g]).layout@.len() > 0 implies func_closed(q, g) by {
        let lay = p.funcs@[g].layout@;
        assert(q.funcs@[g].layout@ == lay);
        assert(func_closed(p, g));
        assert(crate::ir::all_below(lay, p.blocks@.len() as int));
        assert forall|i: int| 0 <= i < lay.len() implies q.is_closed(#[trigger] lay[i]) by {
            assert(p.is_closed(lay[i]));
            assert(q.blocks@[lay[i] as int].insts@ == p.blocks@[lay[i] as int].insts@);
            lemma_block_stable(p, q, lay[i]);
        }
    }
}

/// The names that live in values after a global item.
pub open spec fn global_item_names(it: GlobalItem, names: Set<Seq<char>>, types: Map<Seq<char>, Type>) -> Set<Seq<char>> {
    match it {
        GlobalItem::Decl(d) => decl_names(d, names),
        GlobalItem::Func(f) => items_names(f.block.items@, 0, param_names(f.params@, num_params(types, f.ident@), names)),
    }
}

/// The functions known after a global item.
pub open spec fn global_item_fnames(it: GlobalItem, fnames: Set<Seq<char>>) -> Set<Seq<char>> {
    match it {
        GlobalItem::Decl(_) => fnames,
        GlobalItem::Func(f) => fnames.insert(f.ident@),
    }
}

pub open spec fn global_item_ready(it: GlobalItem, names: Set<Seq<char>>, types: Map<Seq<char>, Type>, fnames: Set<Seq<char>>) -> bool {
    match it {
        GlobalItem::Decl(d) => decl_ready(d, names, types, fnames, true),
        GlobalItem::Func(f) => func_ready(f, names, types, fnames),
    }
}

pub open spec fn global_item_jumps_ok(it: GlobalItem) -> bool {
    match it {
        GlobalItem::Decl(_) => true,
        GlobalItem::Func(f) => items_jumps_ok(f.block.items@, 0, false),
    }
}

/// Whether the global items `items[i..]` can be generated in order.
pub open spec fn global_items_ready(items: Seq<GlobalItem>, i: int, names: Set<Seq<char>>, types: Map<Seq<char>, Type>, fnames: Set<Seq<char>>) -> bool
    decreases items.len() - i,
{
    if i < 0 || i >= items.len() {
        true
    } else {
        global_item_ready(items[i], names, types, fnames) && global_items_ready(
            items,
            i + 1,
            global_item_names(items[i], names, types),
            types,
            global_item_fnames(items[i], fnames),
        )
    }
}

/// Whether no function of `items[i..]` has a `break` or `continue` outside every loop.
pub open spec fn global_items_jumps_ok(items: Seq<GlobalItem>, i: int) -> bool
    decreases items.len() - i,
{
    if i < 0 || i >= items.len() {
        true
    } else {
        global_item_jumps_ok(items[i]) && global_items_jumps_ok(items, i + 1)
    }
}

/// What the generation of a global item in state `old` promises.
pub open spec fn global_item_done(it: GlobalItem, old: ProgramRecorder, new: ProgramRecorder, r: Result<(), String>) -> bool {
    &&& (r is Ok) == global_item_jumps_ok(it)
    &&& r is Ok ==> {
        &&& new.inv()
        &&& new.cur_func is None
        &&& new.loops@.len() == 0
        &&& new.symbols == old.symbols
        &&& new.bound().dom() == global_item_names(it, old.bound().dom(), old.symbols@)
        &&& new.func_ids().dom() == global_item_fnames(it, old.func_ids().dom())
        &&& all_closed(new.program)
    }
}

impl GlobalItem {
    pub fn generate_ir(&self, recorder: &mut ProgramRecorder) -> (r: Result<(), String>)
        requires
            old(recorder).inv(),
            old(recorder).cur_func is None,
            old(recorder).loops@.len() == 0,
            all_closed(old(recorder).program),
            global_item_ready(*self, old(recorder).bound().dom(), old(recorder).symbols@, old(recorder).func_ids().dom()),
        ensures
            global_item_done(*self, *old(recorder), *final(recorder), r),
    {
        let ghost o = *recorder;
        match self {
            GlobalItem::Decl(i) => {
                let r = i.generate_ir(recorder);
                proof {
                    let p = o.program;
                    let q = recorder.program;
                    assert forall|g: int| 0 <= g < q.funcs@.len() && (#[trigger] q.funcs@[g]).layout@.len() > 0 implies func_closed(q, g) by {
                        assert(q.funcs@[g] == p.funcs@[g]);
                        let lay = p.funcs@[g].layout@;
                        assert(func_closed(p, g));
                        assert(crate::ir::all_below(lay, p.blocks@.len() as int));
                        assert forall|k: int| 0 <= k < lay.len() implies q.is_closed(#[trigger] lay[k]) by {
                            assert(p.is_closed(lay[k]));
                            lemma_block_stable(p, q, lay[k]);
                        }
                    }
                }
                r
            },
            GlobalItem::Func(i) => {
                let r = i.generate_ir(recorder);
                proof {
                    if r is Ok {
                        lemma_all_closed_frame(o, *recorder);
                        let q = recorder.program;
                        assert forall|g: int| 0 <= g < q.funcs@.len() && (#[trigger] q.funcs@[g]).layout@.len() > 0 implies func_closed(q, g) by {
                            if g >= o.program.funcs@.len() {
                                assert(g == o.program.funcs@.len());
                            }
                        }
                    }
                }
                r
            },
        }
    }
}

impl CompUnit {
    /// Generates the program: the declarations of the runtime library, then
    /// each global item in order. Fails exactly where a function has a
    /// `break` or `continue` outside every loop; where it succeeds, every
    /// block of every function ends with its only terminator.
    pub fn generate_ir(&self, recorder: &mut ProgramRecorder) -> (r: Result<(), String>)
        requires
            old(recorder).inv(),
            old(recorder).cur_func is None,
            old(recorder).loops@.len() == 0,
            all_closed(old(recorder).program),
            global_items_ready(
                self.items@,
                0,
                old(recorder).bound().dom(),
                old(recorder).symbols@,
                old(recorder).func_ids().dom() + Set::new(|k: Seq<char>| crate::sema::name::is_lib_name(k)),
            ),
        ensures
            (r is Ok) == global_items_jumps_ok(self.items@, 0),
            r is Ok ==> final(recorder).inv() && all_closed(final(recorder).program),
    {
        let ghost o = *recorder;
        recorder.install_lib();
        proof {
            let p = o.program;
            let q = recorder.program;
            assert forall|g: int| 0 <= g < q.funcs@.len() && (#[trigger] q.funcs@[g]).layout@.len() > 0 implies func_closed(q, g) by {
                assert(g < p.funcs@.len());
                assert(q.funcs@[g] == p.funcs@[g]);
                let lay = p.funcs@[g].layout@;
                assert(func_closed(p, g));
                assert(crate::ir::all_below(lay, p.blocks@.len() as int));
                assert forall|k: int| 0 <= k < lay.len() implies q.is_closed(#[trigger] lay[k]) by {
                    assert(p.is_closed(lay[k]));
                    lemma_block_stable(p, q, lay[k]);
                }
            }
        }
        let mut i: usize = 0;
        while i < self.items.len()
            invariant
                i <= self.items@.len(),
                recorder.inv(),
                recorder.cur_func is None,
                recorder.loops@.len() == 0,
                recorder.symbols == o.symbols,
                all_closed(recorder.program),
                global_items_ready(self.items@, i as int, recorder.bound().dom(), o.symbols@, recorder.func_ids().dom()),
                global_items_jumps_ok(self.items@, 0) == global_items_jumps_ok(self.items@, i as int),
            decreases self.items@.len() - i,
        {
            let res = self.items[i].generate_ir(recorder);
            if res.is_err() {
                return res;
            }
            i = i + 1;
        }
        Ok(())
    }
}

} // verus!
