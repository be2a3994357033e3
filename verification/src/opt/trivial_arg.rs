use vstd::prelude::*;

use crate::ir::{all_below, kind_ok, targets, uses, Program, ValueKind};
use crate::opt::utils::{
    copy_vec, func_wf, in_func, lemma_visited_all, lemma_visited_block, lemma_visited_step, replace_variable,
    used_in_func, value_eq, value_eq_exec, visited_before,
};

verus! {

/// Whether the jump or branch of kind `k` to block `bb` passes an argument
/// at position `idx` for it.
pub open spec fn passes(k: ValueKind, bb: usize, idx: int) -> bool {
    match k {
        ValueKind::Jump(_, a) => idx < a@.len(),
        ValueKind::Branch(_, t, ta, e, fa) => (t == bb ==> idx < ta@.len()) && (e == bb ==> idx < fa@.len()),
        _ => true,
    }
}

/// Whether every instruction of function `f` that jumps or branches to
/// block `bb` passes an argument at position `idx` for it.
pub open spec fn args_reach(p: Program, f: usize, bb: usize, idx: int) -> bool {
    forall|w: usize|
        #[trigger] in_func(p, f, w) && targets(p.values@[w as int].kind, bb) ==> passes(p.values@[w as int].kind, bb, idx)
}

/// Whether `new` is the jump or branch `old` to block `bb` without the
/// argument at position `idx` for `bb`.
pub open spec fn arg_removed(old: ValueKind, new: ValueKind, bb: usize, idx: int) -> bool {
    match old {
        ValueKind::Jump(t, a) => new matches ValueKind::Jump(t2, a2) && t2 == t && a2@ == a@.remove(idx),
        ValueKind::Branch(c, t, ta, e, fa) => new matches ValueKind::Branch(c2, t2, ta2, e2, fa2) && c2 == c && t2 == t
            && e2 == e && ta2@ == (if t == bb {
            ta@.remove(idx)
        } else {
            ta@
        }) && fa2@ == (if e == bb {
            fa@.remove(idx)
        } else {
            fa@
        }),
        _ => new == old,
    }
}

fn arg_removed_kind(k: &ValueKind, bb: usize, idx: usize) -> (r: Option<ValueKind>)
    requires
        passes(*k, bb, idx as int),
    ensures
        match r {
            Some(nk) => (k is Jump || k is Branch) && arg_removed(*k, nk, bb, idx as int),
            None => !(k is Jump || k is Branch),
        },
{
    match k {
        ValueKind::Jump(t, a) => {
            let mut a2 = copy_vec(a);
            a2.remove(idx);
            Some(ValueKind::Jump(*t, a2))
        },
        ValueKind::Branch(c, t, ta, e, fa) => {
            let mut ta2 = copy_vec(ta);
            if *t == bb {
                ta2.remove(idx);
            }
            let mut fa2 = copy_vec(fa);
            if *e == bb {
                fa2.remove(idx);
            }
            Some(ValueKind::Branch(*c, *t, ta2, *e, fa2))
        },
        _ => None,
    }
}

proof fn lemma_arg_removed_ok(k: ValueKind, nk: ValueKind, bb: usize, idx: int, nv: int, nb: int, nf: int)
    requires
        kind_ok(k, nv, nb, nf),
        arg_removed(k, nk, bb, idx),
        passes(k, bb, idx),
        0 <= idx,
    ensures
        kind_ok(nk, nv, nb, nf),
{
    match k {
        ValueKind::Jump(_, a) => {
            lemma_remove_below(a@, idx, nv);
        },
        ValueKind::Branch(_, t, ta, e, fa) => {
            if t == bb {
                lemma_remove_below(ta@, idx, nv);
            }
            if e == bb {
                lemma_remove_below(fa@, idx, nv);
            }
        },
        _ => {},
    }
}

proof fn lemma_remove_below(s: Seq<usize>, idx: int, nv: int)
    requires
        0 <= idx < s.len(),
        all_below(s, nv),
    ensures
        all_below(s.remove(idx), nv),
{
    assert forall|k: int| 0 <= k < s.remove(idx).len() implies (#[trigger] s.remove(idx)[k]) < nv by {
        if k < idx {
            assert(s.remove(idx)[k] == s[k]);
        } else {
            assert(s.remove(idx)[k] == s[k + 1]);
        }
    }
}

/// Takes the parameter at position `idx` out of block `bb`, and its
/// argument out of every jump and branch of function `f` to the block.
/// Gives the parameter.
pub fn remove_arg(p: &mut Program, f: usize, bb: usize, idx: usize) -> (r: usize)
    requires
        func_wf(*old(p), f),
        bb < old(p).blocks@.len(),
        idx < old(p).blocks@[bb as int].params@.len(),
        args_reach(*old(p), f, bb, idx as int),
    ensures
        func_wf(*final(p), f),
        final(p).funcs@ == old(p).funcs@,
        final(p).inst_layout@ == old(p).inst_layout@,
        final(p).blocks@.len() == old(p).blocks@.len(),
        forall|b: int| 0 <= b < old(p).blocks@.len() && b != bb ==> #[trigger] final(p).blocks@[b] == old(p).blocks@[b],
        final(p).blocks@[bb as int].params@ == old(p).blocks@[bb as int].params@.remove(idx as int),
        final(p).blocks@[bb as int].insts@ == old(p).blocks@[bb as int].insts@,
        final(p).blocks@[bb as int].name == old(p).blocks@[bb as int].name,
        r == old(p).blocks@[bb as int].params@[idx as int],
        final(p).values@.len() == old(p).values@.len(),
        forall|v: usize|
            v < old(p).values@.len() ==> {
                &&& (#[trigger] final(p).values@[v as int]).ty == old(p).values@[v as int].ty
                &&& final(p).values@[v as int].name == old(p).values@[v as int].name
                &&& if in_func(*old(p), f, v) && targets(old(p).values@[v as int].kind, bb) {
                    arg_removed(old(p).values@[v as int].kind, final(p).values@[v as int].kind, bb, idx as int)
                } else {
                    final(p).values@[v as int].kind == old(p).values@[v as int].kind
                }
            },
{
    let ghost p0 = *p;
    let nb = p.funcs[f].layout.len();
    let mut bi: usize = 0;
    while bi < nb
        invariant
            func_wf(p0, f),
            bb < p0.blocks@.len(),
            args_reach(p0, f, bb, idx as int),
            nb == p0.funcs@[f as int].layout@.len(),
            bi <= nb,
            p.wf(),
            p.blocks@ == p0.blocks@,
            p.funcs@ == p0.funcs@,
            p.inst_layout@ == p0.inst_layout@,
            p.values@.len() == p0.values@.len(),
            forall|v: usize|
                v < p0.values@.len() ==> {
                    &&& (#[trigger] p.values@[v as int]).ty == p0.values@[v as int].ty
                    &&& p.values@[v as int].name == p0.values@[v as int].name
                    &&& if visited_before(p0, f, bi as int, 0, v) && targets(p0.values@[v as int].kind, bb) {
                        arg_removed(p0.values@[v as int].kind, p.values@[v as int].kind, bb, idx as int)
                    } else {
                        p.values@[v as int].kind == p0.values@[v as int].kind
                    }
                },
        decreases nb - bi,
    {
        let blk = p.funcs[f].layout[bi];
        let n = p.blocks[blk].insts.len();
        proof {
            assert(all_below(p0.funcs@[f as int].layout@, p0.blocks@.len() as int));
            assert(all_below(p0.blocks@[blk as int].insts@, p0.values@.len() as int));
        }
        let mut ii: usize = 0;
        while ii < n
            invariant
                func_wf(p0, f),
                bb < p0.blocks@.len(),
                args_reach(p0, f, bb, idx as int),
                nb == p0.funcs@[f as int].layout@.len(),
                bi < nb,
                blk == p0.funcs@[f as int].layout@[bi as int],
                blk < p0.blocks@.len(),
                n == p0.blocks@[blk as int].insts@.len(),
                all_below(p0.blocks@[blk as int].insts@, p0.values@.len() as int),
                ii <= n,
                p.wf(),
                p.blocks@ == p0.blocks@,
                p.funcs@ == p0.funcs@,
                p.inst_layout@ == p0.inst_layout@,
                p.values@.len() == p0.values@.len(),
                forall|v: usize|
                    v < p0.values@.len() ==> {
                        &&& (#[trigger] p.values@[v as int]).ty == p0.values@[v as int].ty
                        &&& p.values@[v as int].name == p0.values@[v as int].name
                        &&& if visited_before(p0, f, bi as int, ii as int, v) && targets(p0.values@[v as int].kind, bb) {
                            arg_removed(p0.values@[v as int].kind, p.values@[v as int].kind, bb, idx as int)
                        } else {
                            p.values@[v as int].kind == p0.values@[v as int].kind
                        }
                    },
            decreases n - ii,
        {
            let w = p.blocks[blk].insts[ii];
            proof {
                lemma_visited_step(p0, f, bi as int, ii as int);
                assert(p0.blocks@[p0.funcs@[f as int].layout@[bi as int] as int].insts@[ii as int] == w);
                assert(w < p0.values@.len());
                assert(p.values@[w as int].kind == p0.values@[w as int].kind);
                assert(p0.blocks@[p0.funcs@[f as int].layout@[bi as int] as int].insts@.contains(w));
                assert(in_func(p0, f, w));
            }
            if crate::ir::targets_block(&p.values[w].kind, bb) {
                let nk = arg_removed_kind(&p.values[w].kind, bb, idx);
                match nk {
                    Some(k2) => {
                        proof {
                            assert(kind_ok(p0.values@[w as int].kind, p0.values@.len() as int, p0.blocks@.len() as int, p0.funcs@.len() as int));
                            lemma_arg_removed_ok(p0.values@[w as int].kind, k2, bb, idx as int, p0.values@.len() as int, p0.blocks@.len() as int, p0.funcs@.len() as int);
                        }
                        let ghost pv = p.values@;
                        p.values[w].kind = k2;
                        proof {
                            assert forall|i: int| 0 <= i < pv.len() && i != w implies #[trigger] p.values@[i] == pv[i] by {}
                            let nv = p.values@.len() as int;
                            assert forall|i: int| 0 <= i < nv implies kind_ok(
                                #[trigger] p.values@[i].kind,
                                nv,
                                p.blocks@.len() as int,
                                p.funcs@.len() as int,
                            ) by {
                                assert(kind_ok(pv[i].kind, nv, p.blocks@.len() as int, p.funcs@.len() as int));
                            }
                        }
                    },
                    None => {},
                }
            }
            ii = ii + 1;
        }
        proof {
            lemma_visited_block(p0, f, bi as int);
        }
        bi = bi + 1;
    }
    proof {
        lemma_visited_all(p0, f);
        assert(all_below(p0.blocks@[bb as int].params@, p0.values@.len() as int));
    }
    let ghost p1 = *p;
    let r = p.blocks[bb].params.remove(idx);
    proof {
        let nv = p.values@.len() as int;
        let nbk = p.blocks@.len() as int;
        let nf = p.funcs@.len() as int;
        assert forall|b: int| 0 <= b < p1.blocks@.len() && b != bb implies #[trigger] p.blocks@[b] == p1.blocks@[b] by {}
        assert forall|b: int| 0 <= b < nbk implies all_below((#[trigger] p.blocks@[b]).params@, nv) && all_below(
            p.blocks@[b].insts@,
            nv,
        ) by {
            assert(all_below(p1.blocks@[b].params@, nv));
            assert(all_below(p1.blocks@[b].insts@, nv));
            if b == bb {
                assert(all_below(p1.blocks@[b].params@.remove(idx as int), nv));
            }
        }
        let lay = p.funcs@[f as int].layout@;
        assert forall|b: int| 0 <= b < lay.len() implies #[trigger] p.blocks@[lay[b] as int].insts@ == p1.blocks@[lay[b] as int].insts@ by {}
        assert forall|v: usize| #[trigger] in_func(*p, f, v) == in_func(p1, f, v) by {
            if in_func(*p, f, v) {
                let b = choose|b: int| 0 <= b < lay.len() && #[trigger] p.blocks@[lay[b] as int].insts@.contains(v);
                assert(p1.blocks@[lay[b] as int].insts@.contains(v));
            }
            if in_func(p1, f, v) {
                let b = choose|b: int| 0 <= b < lay.len() && #[trigger] p1.blocks@[lay[b] as int].insts@.contains(v);
                assert(p.blocks@[lay[b] as int].insts@.contains(v));
            }
        }
    }
    r
}

/// Whether the parameters of block `bb` are distinct values.
pub open spec fn params_distinct(p: Program, bb: usize) -> bool {
    let ps = p.blocks@[bb as int].params@;
    forall|i: int, j: int| 0 <= i < j < ps.len() ==> ps[i] != ps[j]
}

/// Gives each parameter of block `bb` that stands for a block argument its
/// position among the parameters.
pub fn fix_bb_param_idx(p: &mut Program, bb: usize)
    requires
        old(p).wf(),
        bb < old(p).blocks@.len(),
        params_distinct(*old(p), bb),
    ensures
        final(p).wf(),
        final(p).blocks@ == old(p).blocks@,
        final(p).funcs@ == old(p).funcs@,
        final(p).inst_layout@ == old(p).inst_layout@,
        final(p).values@.len() == old(p).values@.len(),
        forall|v: usize|
            v < old(p).values@.len() && !old(p).blocks@[bb as int].params@.contains(v) ==> #[trigger] final(p).values@[v as int]
                == old(p).values@[v as int],
        forall|i: int|
            0 <= i < old(p).blocks@[bb as int].params@.len() ==> {
                let v = #[trigger] old(p).blocks@[bb as int].params@[i];
                &&& final(p).values@[v as int].ty == old(p).values@[v as int].ty
                &&& final(p).values@[v as int].name == old(p).values@[v as int].name
                &&& final(p).values@[v as int].kind == if old(p).values@[v as int].kind is BlockArgRef {
                    ValueKind::BlockArgRef(i as usize)
                } else {
                    old(p).values@[v as int].kind
                }
            },
{
    let ghost p0 = *p;
    let ghost ps = p0.blocks@[bb as int].params@;
    let n = p.blocks[bb].params.len();
    proof {
        assert(all_below(ps, p0.values@.len() as int));
    }
    let mut i: usize = 0;
    while i < n
        invariant
            p0.wf(),
            bb < p0.blocks@.len(),
            ps == p0.blocks@[bb as int].params@,
            n == ps.len(),
            all_below(ps, p0.values@.len() as int),
            forall|a: int, b: int| 0 <= a < b < ps.len() ==> ps[a] != ps[b],
            i <= n,
            p.wf(),
            p.blocks@ == p0.blocks@,
            p.funcs@ == p0.funcs@,
            p.inst_layout@ == p0.inst_layout@,
            p.values@.len() == p0.values@.len(),
            forall|v: usize|
                v < p0.values@.len() && !ps.subrange(0, i as int).contains(v) ==> #[trigger] p.values@[v as int] == p0.values@[v as int],
            forall|k: int|
                0 <= k < i ==> {
                    let v = #[trigger] ps[k];
                    &&& p.values@[v as int].ty == p0.values@[v as int].ty
                    &&& p.values@[v as int].name == p0.values@[v as int].name
                    &&& p.values@[v as int].kind == if p0.values@[v as int].kind is BlockArgRef {
                        ValueKind::BlockArgRef(k as usize)
                    } else {
                        p0.values@[v as int].kind
                    }
                },
        decreases n - i,
    {
        let v = p.blocks[bb].params[i];
        let ghost pv = p.values@;
        assert(v < p0.values@.len());
        assert(ps[i as int] == v);
        assert(!ps.subrange(0, i as int).contains(v)) by {
            if ps.subrange(0, i as int).contains(v) {
                let x = choose|x: int| 0 <= x < i && ps.subrange(0, i as int)[x] == v;
                assert(ps[x] == v);
            }
        }
        assert(pv[v as int] == p0.values@[v as int]);
        if let ValueKind::BlockArgRef(_) = &p.values[v].kind {
            p.values[v].kind = ValueKind::BlockArgRef(i);
        }
        proof {
            assert forall|u: usize| u < p0.values@.len() && !ps.subrange(0, i + 1).contains(u) implies #[trigger] p.values@[u as int] == p0.values@[u as int] by {
                assert(u != v) by {
                    assert(ps.subrange(0, i + 1)[i as int] == v);
                }
                assert(!ps.subrange(0, i as int).contains(u)) by {
                    if ps.subrange(0, i as int).contains(u) {
                        let x = choose|x: int| 0 <= x < i && ps.subrange(0, i as int)[x] == u;
                        assert(ps.subrange(0, i + 1)[x] == u);
                    }
                }
            }
            assert forall|k: int| 0 <= k < i + 1 implies {
                let w = #[trigger] ps[k];
                &&& p.values@[w as int].ty == p0.values@[w as int].ty
                &&& p.values@[w as int].name == p0.values@[w as int].name
                &&& p.values@[w as int].kind == if p0.values@[w as int].kind is BlockArgRef {
                    ValueKind::BlockArgRef(k as usize)
                } else {
                    p0.values@[w as int].kind
                }
            } by {
                if k < i {
                    assert(ps[k] != v);
                }
            }
            let nv = p.values@.len() as int;
            assert forall|k: int| 0 <= k < nv implies kind_ok(#[trigger] p.values@[k].kind, nv, p.blocks@.len() as int, p.funcs@.len() as int) by {
                assert(kind_ok(pv[k].kind, nv, p.blocks@.len() as int, p.funcs@.len() as int));
            }
        }
        i = i + 1;
    }
    proof {
        assert(ps.subrange(0, n as int) =~= ps);
    }
}

/// Whether the parameters of every block of the layout of function `f` are distinct values.
pub open spec fn layout_params_distinct(p: Program, f: usize) -> bool {
    let lay = p.funcs@[f as int].layout@;
    forall|k: int| 0 <= k < lay.len() ==> params_distinct(p, #[trigger] lay[k])
}

/// Whether no block of the layout of function `f` lists a parameter twice.
pub fn check_layout_params_distinct(p: &Program, f: usize) -> (r: bool)
    requires
        p.wf(),
        f < p.funcs@.len(),
    ensures
        r == layout_params_distinct(*p, f),
{
    let lay = &p.funcs[f].layout;
    let mut k: usize = 0;
    while k < lay.len()
        invariant
            p.wf(),
            f < p.funcs@.len(),
            *lay == p.funcs@[f as int].layout,
            k <= lay@.len(),
            forall|m: int| 0 <= m < k ==> params_distinct(*p, #[trigger] lay@[m]),
        decreases lay@.len() - k,
    {
        assert(lay@[k as int] < p.blocks@.len());
        let ps = &p.blocks[lay[k]].params;
        let mut i: usize = 0;
        while i < ps.len()
            invariant
                i <= ps@.len(),
                k < lay@.len(),
                f < p.funcs@.len(),
                *lay == p.funcs@[f as int].layout,
                *ps == p.blocks@[lay@[k as int] as int].params,
                forall|a: int, b: int| 0 <= a < b < i ==> ps@[a] != ps@[b],
            decreases ps@.len() - i,
        {
            let mut j: usize = 0;
            while j < i
                invariant
                    j <= i < ps@.len(),
                    k < lay@.len(),
                    f < p.funcs@.len(),
                    *lay == p.funcs@[f as int].layout,
                    *ps == p.blocks@[lay@[k as int] as int].params,
                    forall|a: int| 0 <= a < j ==> ps@[a] != ps@[i as int],
                decreases i - j,
            {
                if ps[j] == ps[i] {
                    proof {
                        assert(!params_distinct(*p, lay@[k as int]));
                    }
                    return false;
                }
                j = j + 1;
            }
            i = i + 1;
        }
        proof {
            assert(ps@ == p.blocks@[lay@[k as int] as int].params@);
        }
        k = k + 1;
    }
    true
}

/// The number of parameters of the first `n` blocks of the layout `lay`.
pub open spec fn ptotal(p: Program, lay: Seq<usize>, n: int) -> int
    decreases n,
{
    if n <= 0 {
        0
    } else {
        ptotal(p, lay, n - 1) + p.blocks@[lay[n - 1] as int].params@.len()
    }
}

/// The number of parameters of the blocks of function `f`.
pub open spec fn param_count(p: Program, f: usize) -> int {
    let lay = p.funcs@[f as int].layout@;
    ptotal(p, lay, lay.len() as int)
}

/// Whether some instruction of function `f` uses `v`.
pub open spec fn used(p: Program, f: usize, v: usize) -> bool {
    exists|w: usize| #[trigger] in_func(p, f, w) && uses(p.values@[w as int].kind, v)
}

/// Whether every parameter of every block of function `f` is used.
pub open spec fn params_used(p: Program, f: usize) -> bool {
    let lay = p.funcs@[f as int].layout@;
    forall|k: int, i: int|
        0 <= k < lay.len() && 0 <= i < p.blocks@[lay[k] as int].params@.len() ==> used(
            p,
            f,
            #[trigger] p.blocks@[lay[k] as int].params@[i],
        )
}

proof fn lemma_ptotal_nonneg(p: Program, lay: Seq<usize>, n: int)
    ensures
        ptotal(p, lay, n) >= 0,
    decreases n,
{
    if n > 0 {
        lemma_ptotal_nonneg(p, lay, n - 1);
    }
}

proof fn lemma_ptotal_same(p: Program, q: Program, lay: Seq<usize>, n: int)
    requires
        0 <= n <= lay.len(),
        forall|k: int| 0 <= k < lay.len() ==> q.blocks@[#[trigger] lay[k] as int].params@.len() == p.blocks@[lay[k] as int].params@.len(),
    ensures
        ptotal(q, lay, n) == ptotal(p, lay, n),
    decreases n,
{
    if n > 0 {
        lemma_ptotal_same(p, q, lay, n - 1);
    }
}

proof fn lemma_ptotal_dec(p: Program, q: Program, lay: Seq<usize>, n: int, b: usize)
    requires
        0 <= n <= lay.len(),
        forall|i: int, j: int| 0 <= i < j < lay.len() ==> lay[i] != lay[j],
        forall|k: int| 0 <= k < lay.len() && lay[k] != b ==> q.blocks@[#[trigger] lay[k] as int].params@.len() == p.blocks@[lay[k] as int].params@.len(),
        q.blocks@[b as int].params@.len() + 1 == p.blocks@[b as int].params@.len(),
    ensures
        ptotal(q, lay, n) == ptotal(p, lay, n) - (if lay.subrange(0, n).contains(b) {
            1int
        } else {
            0int
        }),
    decreases n,
{
    if n > 0 {
        lemma_ptotal_dec(p, q, lay, n - 1, b);
        let s1 = lay.subrange(0, n - 1);
        let s2 = lay.subrange(0, n);
        assert(s2 =~= s1.push(lay[n - 1]));
        if s1.contains(b) {
            let x = choose|x: int| 0 <= x < s1.len() && s1[x] == b;
            assert(s2[x] == b);
            assert(lay[n - 1] != b);
        } else if lay[n - 1] == b {
            assert(s2[n - 1] == b);
        } else {
            assert(!s2.contains(b)) by {
                if s2.contains(b) {
                    let x = choose|x: int| 0 <= x < s2.len() && s2[x] == b;
                    if x < n - 1 {
                        assert(s1[x] == b);
                    }
                }
            }
        }
    }
}

/// Whether every instruction of function `f` that jumps or branches to
/// block `bb` passes an argument at position `idx` for it.
pub(crate) fn args_reach_exec(p: &Program, f: usize, bb: usize, idx: usize) -> (r: bool)
    requires
        func_wf(*p, f),
    ensures
        r == args_reach(*p, f, bb, idx as int),
{
    let nb = p.funcs[f].layout.len();
    let mut bi: usize = 0;
    while bi < nb
        invariant
            func_wf(*p, f),
            nb == p.funcs@[f as int].layout@.len(),
            bi <= nb,
            forall|w: usize| #[trigger] visited_before(*p, f, bi as int, 0, w) && targets(p.values@[w as int].kind, bb) ==> passes(p.values@[w as int].kind, bb, idx as int),
        decreases nb - bi,
    {
        let blk = p.funcs[f].layout[bi];
        proof {
            assert(all_below(p.funcs@[f as int].layout@, p.blocks@.len() as int));
            assert(all_below(p.blocks@[blk as int].insts@, p.values@.len() as int));
        }
        let n = p.blocks[blk].insts.len();
        let mut ii: usize = 0;
        while ii < n
            invariant
                func_wf(*p, f),
                nb == p.funcs@[f as int].layout@.len(),
                bi < nb,
                blk == p.funcs@[f as int].layout@[bi as int],
                blk < p.blocks@.len(),
                n == p.blocks@[blk as int].insts@.len(),
                all_below(p.blocks@[blk as int].insts@, p.values@.len() as int),
                ii <= n,
                forall|w: usize| #[trigger] visited_before(*p, f, bi as int, ii as int, w) && targets(p.values@[w as int].kind, bb) ==> passes(p.values@[w as int].kind, bb, idx as int),
            decreases n - ii,
        {
            let w = p.blocks[blk].insts[ii];
            proof {
                lemma_visited_step(*p, f, bi as int, ii as int);
                assert(p.blocks@[p.funcs@[f as int].layout@[bi as int] as int].insts@.contains(w));
                assert(in_func(*p, f, w));
            }
            let ok = match &p.values[w].kind {
                ValueKind::Jump(t, a) => *t != bb || idx < a.len(),
                ValueKind::Branch(_, t, ta, e, fa) => (*t != bb || idx < ta.len()) && (*e != bb || idx < fa.len()),
                _ => true,
            };
            if !ok {
                return false;
            }
            ii = ii + 1;
        }
        proof {
            lemma_visited_block(*p, f, bi as int);
        }
        bi = bi + 1;
    }
    proof {
        lemma_visited_all(*p, f);
        assert forall|w: usize| #[trigger] in_func(*p, f, w) && targets(p.values@[w as int].kind, bb) implies passes(p.values@[w as int].kind, bb, idx as int) by {
            assert(visited_before(*p, f, nb as int, 0, w));
        }
    }
    true
}

/// The argument at position `idx` that the jump or branch of kind `k`
/// passes to block `bb`.
pub open spec fn arg_of(k: ValueKind, bb: usize, idx: int) -> usize {
    match k {
        ValueKind::Jump(_, a) => a@[idx],
        ValueKind::Branch(_, t, ta, _, fa) => if t == bb {
            ta@[idx]
        } else {
            fa@[idx]
        },
        _ => 0,
    }
}

/// The argument at position `idx` that the jump or branch `w` passes to block `bb`.
fn arg_at(p: &Program, w: usize, bb: usize, idx: usize) -> (r: usize)
    requires
        p.wf(),
        w < p.values@.len(),
        passes(p.values@[w as int].kind, bb, idx as int),
        targets(p.values@[w as int].kind, bb),
    ensures
        r < p.values@.len(),
        r == arg_of(p.values@[w as int].kind, bb, idx as int),
{
    assert(kind_ok(p.values@[w as int].kind, p.values@.len() as int, p.blocks@.len() as int, p.funcs@.len() as int));
    match &p.values[w].kind {
        ValueKind::Jump(_, a) => a[idx],
        ValueKind::Branch(_, t, ta, _, fa) => if *t == bb {
            ta[idx]
        } else {
            fa[idx]
        },
        _ => 0,
    }
}

/// The value that every jump and branch of function `f` to block `bb`
/// passes for its parameter at position `idx`, other than the parameter
/// itself, where they all pass equal values and one at least passes one:
/// the first such value, in the order of the layout.
fn is_trivial(p: &Program, f: usize, bb: usize, idx: usize) -> (r: Option<usize>)
    requires
        func_wf(*p, f),
        bb < p.blocks@.len(),
        idx < p.blocks@[bb as int].params@.len(),
        args_reach(*p, f, bb, idx as int),
    ensures
        r matches Some(s) ==> s < p.values@.len() && s != p.blocks@[bb as int].params@[idx as int],
        r matches Some(s) ==> (exists|w: usize| #[trigger] feeds(*p, f, bb, w) && arg_of(p.values@[w as int].kind, bb, idx as int) == s)
            && forall|w: usize| #[trigger] feeds(*p, f, bb, w) ==> arg_of(p.values@[w as int].kind, bb, idx as int)
                == p.blocks@[bb as int].params@[idx as int] || arg_of(p.values@[w as int].kind, bb, idx as int) == s || value_eq(*p, s, arg_of(p.values@[w as int].kind, bb, idx as int)),
        r is None ==> (forall|w: usize| #[trigger] feeds(*p, f, bb, w) ==> arg_of(p.values@[w as int].kind, bb, idx as int)
            == p.blocks@[bb as int].params@[idx as int]) || exists|w1: usize, w2: usize|
            #[trigger] feeds(*p, f, bb, w1) && #[trigger] feeds(*p, f, bb, w2) && arg_of(p.values@[w1 as int].kind, bb, idx as int)
                != p.blocks@[bb as int].params@[idx as int] && arg_of(p.values@[w2 as int].kind, bb, idx as int)
                != p.blocks@[bb as int].params@[idx as int] && !value_eq(
                *p,
                arg_of(p.values@[w1 as int].kind, bb, idx as int),
                arg_of(p.values@[w2 as int].kind, bb, idx as int),
            ),
{
    let param = p.blocks[bb].params[idx];
    let mut same: Option<usize> = None;
    let nb = p.funcs[f].layout.len();
    let mut bi: usize = 0;
    while bi < nb
        invariant
            func_wf(*p, f),
            bb < p.blocks@.len(),
            idx < p.blocks@[bb as int].params@.len(),
            param == p.blocks@[bb as int].params@[idx as int],
            args_reach(*p, f, bb, idx as int),
            nb == p.funcs@[f as int].layout@.len(),
            bi <= nb,
            same matches Some(s) ==> s < p.values@.len() && s != param,
            same is None ==> forall|w: usize| #[trigger] visited_before(*p, f, bi as int, 0, w) && targets(p.values@[w as int].kind, bb)
                ==> arg_of(p.values@[w as int].kind, bb, idx as int) == param,
            same matches Some(s) ==> (exists|w: usize| #[trigger] feeds(*p, f, bb, w) && arg_of(p.values@[w as int].kind, bb, idx as int) == s)
                && forall|w: usize| #[trigger] visited_before(*p, f, bi as int, 0, w) && targets(p.values@[w as int].kind, bb)
                    ==> arg_of(p.values@[w as int].kind, bb, idx as int) == param || arg_of(p.values@[w as int].kind, bb, idx as int) == s || value_eq(*p, s, arg_of(p.values@[w as int].kind, bb, idx as int)),
        decreases nb - bi,
    {
        let blk = p.funcs[f].layout[bi];
        proof {
            assert(all_below(p.funcs@[f as int].layout@, p.blocks@.len() as int));
            assert(all_below(p.blocks@[blk as int].insts@, p.values@.len() as int));
        }
        let n = p.blocks[blk].insts.len();
        let mut ii: usize = 0;
        while ii < n
            invariant
                func_wf(*p, f),
                bb < p.blocks@.len(),
                param == p.blocks@[bb as int].params@[idx as int],
                args_reach(*p, f, bb, idx as int),
                nb == p.funcs@[f as int].layout@.len(),
                bi < nb,
                blk == p.funcs@[f as int].layout@[bi as int],
                blk < p.blocks@.len(),
                n == p.blocks@[blk as int].insts@.len(),
                all_below(p.blocks@[blk as int].insts@, p.values@.len() as int),
                ii <= n,
                same matches Some(s) ==> s < p.values@.len() && s != param,
                same is None ==> forall|w: usize| #[trigger] visited_before(*p, f, bi as int, ii as int, w) && targets(p.values@[w as int].kind, bb)
                    ==> arg_of(p.values@[w as int].kind, bb, idx as int) == param,
                same matches Some(s) ==> (exists|w: usize| #[trigger] feeds(*p, f, bb, w) && arg_of(p.values@[w as int].kind, bb, idx as int) == s)
                    && forall|w: usize| #[trigger] visited_before(*p, f, bi as int, ii as int, w) && targets(p.values@[w as int].kind, bb)
                        ==> arg_of(p.values@[w as int].kind, bb, idx as int) == param || arg_of(p.values@[w as int].kind, bb, idx as int) == s || value_eq(*p, s, arg_of(p.values@[w as int].kind, bb, idx as int)),
            decreases n - ii,
        {
            let w = p.blocks[blk].insts[ii];
            proof {
                lemma_visited_step(*p, f, bi as int, ii as int);
                assert(p.blocks@[p.funcs@[f as int].layout@[bi as int] as int].insts@.contains(w));
                assert(in_func(*p, f, w));
            }
            if crate::ir::targets_block(&p.values[w].kind, bb) {
                let arg = arg_at(p, w, bb, idx);
                if arg != param {
                    match same {
                        Some(s) => {
                            if !value_eq_exec(p, s, arg) {
                                proof {
                                    let w1 = choose|w1: usize| #[trigger] feeds(*p, f, bb, w1) && arg_of(p.values@[w1 as int].kind, bb, idx as int) == s;
                                    assert(feeds(*p, f, bb, w));
                                }
                                return None;
                            }
                        },
                        None => {
                            proof {
                                assert(feeds(*p, f, bb, w));
                            }
                            same = Some(arg);
                        },
                    }
                }
            }
            ii = ii + 1;
        }
        proof {
            lemma_visited_block(*p, f, bi as int);
        }
        bi = bi + 1;
    }
    proof {
        lemma_visited_all(*p, f);
        assert forall|w: usize| #[trigger] feeds(*p, f, bb, w) implies visited_before(*p, f, nb as int, 0, w) by {}
    }
    same
}

/// Whether all the jumps and branches of function `f` to block `bb` pass,
/// for its parameter at position `i`, the parameter itself or one value
/// (or values equal to it), and one at least passes that value.
pub open spec fn trivial_at(p: Program, f: usize, bb: usize, i: int) -> bool {
    exists|s: usize| #[trigger] trivial_with(p, f, bb, i, s)
}

/// What `trivial_at` says, with `s` for the value passed.
pub open spec fn trivial_with(p: Program, f: usize, bb: usize, i: int, s: usize) -> bool {
    let param = p.blocks@[bb as int].params@[i];
    s != param && (exists|w: usize| #[trigger] feeds(p, f, bb, w) && arg_of(p.values@[w as int].kind, bb, i) == s)
        && forall|w: usize| #[trigger] feeds(p, f, bb, w) ==> arg_of(p.values@[w as int].kind, bb, i) == param
            || arg_of(p.values@[w as int].kind, bb, i) == s || value_eq(p, s, arg_of(p.values@[w as int].kind, bb, i))
}

/// Whether some parameter of a block of the layout of function `f` lacks
/// an argument in a jump or branch to it, or takes one value from them all.
pub open spec fn stops_trivial(p: Program, f: usize) -> bool {
    exists|k: int, i: int| #[trigger] stops_at(p, f, k, i)
}

/// What `stops_trivial` says of the parameter at position `i` of block `k` of the layout.
pub open spec fn stops_at(p: Program, f: usize, k: int, i: int) -> bool {
    &&& 0 <= k < p.funcs@[f as int].layout@.len()
    &&& 0 <= i < p.blocks@[p.funcs@[f as int].layout@[k] as int].params@.len()
    &&& (!args_reach(p, f, p.funcs@[f as int].layout@[k], i) || trivial_at(p, f, p.funcs@[f as int].layout@[k], i))
}

proof fn lemma_none_witness(p: Program, f: usize, k: int, i: int)
    requires
        0 <= k < p.funcs@[f as int].layout@.len(),
        0 <= i < p.blocks@[p.funcs@[f as int].layout@[k] as int].params@.len(),
        !args_reach(p, f, p.funcs@[f as int].layout@[k], i) || trivial_at(p, f, p.funcs@[f as int].layout@[k], i),
    ensures
        stops_trivial(p, f),
{
    assert(stops_at(p, f, k, i));
}

/// Whether `w` is a jump or branch of function `f` to block `bb`.
pub open spec fn feeds(p: Program, f: usize, bb: usize, w: usize) -> bool {
    in_func(p, f, w) && targets(p.values@[w as int].kind, bb)
}

/// The removal of block parameters that nothing uses, or that take the
/// same value from every predecessor.
pub struct RemoveTrivialArgs;

impl RemoveTrivialArgs {
    /// Takes every parameter that nothing uses out of its block of function
    /// `f`, with its arguments. `Some` of whether any went; `None` where a
    /// jump or branch lacks the argument to take out.
    pub fn try_remove_unused_args(&self, p: &mut Program, f: usize) -> (r: Option<bool>)
        requires
            func_wf(*old(p), f),
            layout_params_distinct(*old(p), f),
        ensures
            func_wf(*final(p), f),
            layout_params_distinct(*final(p), f),
            final(p).funcs@ == old(p).funcs@,
            final(p).blocks@.len() == old(p).blocks@.len(),
            final(p).values@.len() == old(p).values@.len(),
            r == Some(true) ==> param_count(*final(p), f) < param_count(*old(p), f),
            r == Some(false) ==> *final(p) == *old(p) && params_used(*final(p), f),
            (r == Some(false)) == params_used(*old(p), f),
    {
        let ghost p0 = *p;
        let mut list: Vec<(usize, usize)> = Vec::new();
        let nb = p.funcs[f].layout.len();
        let mut k: usize = 0;
        while k < nb
            invariant
                p0 == *old(p),
                func_wf(*p, f),
                *p == p0,
                nb == p.funcs@[f as int].layout@.len(),
                k <= nb,
                forall|j: int| 0 <= j < list@.len() ==> (#[trigger] list@[j]).0 < p.blocks@.len() && p.funcs@[f as int].layout@.contains(list@[j].0),
                list@.len() == 0 ==> forall|k2: int, i: int|
                    0 <= k2 < k && 0 <= i < p.blocks@[p.funcs@[f as int].layout@[k2] as int].params@.len() ==> used(
                        *p,
                        f,
                        #[trigger] p.blocks@[p.funcs@[f as int].layout@[k2] as int].params@[i],
                    ),
                list@.len() > 0 ==> !params_used(p0, f),
            decreases nb - k,
        {
            let b = p.funcs[f].layout[k];
            proof {
                assert(all_below(p.funcs@[f as int].layout@, p.blocks@.len() as int));
            }
            let np = p.blocks[b].params.len();
            let mut i: usize = 0;
            while i < np
                invariant
                    func_wf(*p, f),
                    *p == p0,
                    nb == p.funcs@[f as int].layout@.len(),
                    k < nb,
                    b == p.funcs@[f as int].layout@[k as int],
                    b < p.blocks@.len(),
                    np == p.blocks@[b as int].params@.len(),
                    i <= np,
                    forall|j: int| 0 <= j < list@.len() ==> (#[trigger] list@[j]).0 < p.blocks@.len() && p.funcs@[f as int].layout@.contains(list@[j].0),
                    list@.len() == 0 ==> forall|k2: int, i2: int|
                        0 <= k2 < k && 0 <= i2 < p.blocks@[p.funcs@[f as int].layout@[k2] as int].params@.len() ==> used(
                            *p,
                            f,
                            #[trigger] p.blocks@[p.funcs@[f as int].layout@[k2] as int].params@[i2],
                        ),
                    list@.len() == 0 ==> forall|i2: int| 0 <= i2 < i ==> used(*p, f, #[trigger] p.blocks@[b as int].params@[i2]),
                    p0 == *old(p),
                    list@.len() > 0 ==> !params_used(p0, f),
                decreases np - i,
            {
                let u = used_in_func(p, f, p.blocks[b].params[i]);
                let ghost l0 = list@;
                if !u {
                    proof {
                        let lay = p.funcs@[f as int].layout@;
                        assert(!used(*p, f, p.blocks@[lay[k as int] as int].params@[i as int]));
                    }
                    list.push((b, i));
                }
                proof {
                    assert(p.funcs@[f as int].layout@[k as int] == b);
                    assert forall|j: int| 0 <= j < list@.len() implies (#[trigger] list@[j]).0 < p.blocks@.len() && p.funcs@[f as int].layout@.contains(list@[j].0) by {
                        if j < l0.len() {
                            assert(list@[j] == l0[j]);
                        }
                    }
                    if u {
                        assert(used(*p, f, p.blocks@[b as int].params@[i as int]));
                    }
                }
                i = i + 1;
            }
            proof {
                if list@.len() == 0 {
                    assert forall|k2: int, i2: int|
                        0 <= k2 < k + 1 && 0 <= i2 < p.blocks@[p.funcs@[f as int].layout@[k2] as int].params@.len() implies used(
                            *p,
                            f,
                            #[trigger] p.blocks@[p.funcs@[f as int].layout@[k2] as int].params@[i2],
                        ) by {
                        if k2 == k {
                            assert(used(*p, f, p.blocks@[b as int].params@[i2]));
                        }
                    }
                }
            }
            k = k + 1;
        }
        if list.len() == 0 {
            return Some(false);
        }
        // from the last, so that positions stay right within a block
        let mut j = list.len();
        let ghost mut removed_any = false;
        while j > 0
            invariant
                p0 == *old(p),
                func_wf(*p, f),
                layout_params_distinct(*p, f),
                p.funcs@ == p0.funcs@,
                p.blocks@.len() == p0.blocks@.len(),
                p.values@.len() == p0.values@.len(),
                forall|q: int| 0 <= q < list@.len() ==> (#[trigger] list@[q]).0 < p.blocks@.len() && p.funcs@[f as int].layout@.contains(list@[q].0),
                j <= list@.len(),
                j < list@.len() ==> param_count(*p, f) < param_count(p0, f),
                j == list@.len() ==> param_count(*p, f) == param_count(p0, f),
                !params_used(p0, f),
            decreases j,
        {
            let (b, i) = list[j - 1];
            if i >= p.blocks[b].params.len() || !args_reach_exec(p, f, b, i) {
                return None;
            }
            let ghost pb = *p;
            remove_arg(p, f, b, i);
            proof {
                let lay = p.funcs@[f as int].layout@;
                assert(list@[j - 1].0 == b);
                assert(lay.contains(b));
                lemma_ptotal_dec(pb, *p, lay, lay.len() as int, b);
                assert(lay.subrange(0, lay.len() as int) =~= lay);
                // the block is in the layout: it came from there
                assert forall|k2: int| 0 <= k2 < lay.len() implies params_distinct(*p, #[trigger] lay[k2]) by {
                    assert(params_distinct(pb, lay[k2]));
                    if lay[k2] == b {
                        let ps = pb.blocks@[b as int].params@;
                        assert forall|x: int, y: int| 0 <= x < y < ps.remove(i as int).len() implies ps.remove(i as int)[x] != ps.remove(i as int)[y] by {
                            let x2 = if x < i { x } else { x + 1 };
                            let y2 = if y < i { y } else { y + 1 };
                            assert(ps.remove(i as int)[x] == ps[x2]);
                            assert(ps.remove(i as int)[y] == ps[y2]);
                        }
                    }
                }
                lemma_ptotal_nonneg(*p, lay, lay.len() as int);
            }
            j = j - 1;
        }
        Some(true)
    }
}

pub(crate) proof fn lemma_remove_distinct(ps: Seq<usize>, i: int)
    requires
        0 <= i < ps.len(),
        forall|x: int, y: int| 0 <= x < y < ps.len() ==> ps[x] != ps[y],
    ensures
        forall|x: int, y: int| 0 <= x < y < ps.remove(i).len() ==> ps.remove(i)[x] != ps.remove(i)[y],
{
    assert forall|x: int, y: int| 0 <= x < y < ps.remove(i).len() implies ps.remove(i)[x] != ps.remove(i)[y] by {
        let x2 = if x < i { x } else { x + 1 };
        let y2 = if y < i { y } else { y + 1 };
        assert(ps.remove(i)[x] == ps[x2]);
        assert(ps.remove(i)[y] == ps[y2]);
    }
}

impl RemoveTrivialArgs {
    /// Takes out of its block of function `f` the first parameter, in the
    /// order of the layout, that takes equal values from all the jumps and
    /// branches to the block, and replaces its uses by the first of them.
    /// `Some` of whether one went; `None` where a jump or branch lacks the
    /// argument, or where the parameter stays used.
    pub fn try_remove_trivial_args(&self, p: &mut Program, f: usize) -> (r: Option<bool>)
        requires
            func_wf(*old(p), f),
            layout_params_distinct(*old(p), f),
        ensures
            func_wf(*final(p), f),
            layout_params_distinct(*final(p), f),
            final(p).funcs@ == old(p).funcs@,
            final(p).blocks@.len() == old(p).blocks@.len(),
            final(p).values@.len() == old(p).values@.len(),
            r == Some(true) ==> param_count(*final(p), f) < param_count(*old(p), f),
            r == Some(false) ==> *final(p) == *old(p),
            r is None ==> stops_trivial(*old(p), f),
            r == Some(true) ==> stops_trivial(*old(p), f),
    {
        let ghost p0 = *p;
        let nb = p.funcs[f].layout.len();
        let mut k: usize = 0;
        while k < nb
            invariant
                p0 == *old(p),
                *p == p0,
                func_wf(*p, f),
                layout_params_distinct(*p, f),
                nb == p.funcs@[f as int].layout@.len(),
                k <= nb,
            decreases nb - k,
        {
            let b = p.funcs[f].layout[k];
            proof {
                assert(all_below(p.funcs@[f as int].layout@, p.blocks@.len() as int));
            }
            let np = p.blocks[b].params.len();
            let mut i: usize = 0;
            while i < np
                invariant
                    p0 == *old(p),
                    *p == p0,
                    func_wf(*p, f),
                    layout_params_distinct(*p, f),
                    nb == p.funcs@[f as int].layout@.len(),
                    k < nb,
                    b == p.funcs@[f as int].layout@[k as int],
                    b < p.blocks@.len(),
                    np == p.blocks@[b as int].params@.len(),
                    i <= np,
                decreases np - i,
            {
                if !args_reach_exec(p, f, b, i) {
                    proof {
                        assert(p0.funcs@[f as int].layout@[k as int] == b);
                        assert(!args_reach(p0, f, p0.funcs@[f as int].layout@[k as int], i as int));
                        assert(0 <= i < p0.blocks@[p0.funcs@[f as int].layout@[k as int] as int].params@.len());
                        lemma_none_witness(p0, f, k as int, i as int);
                    }
                    return None;
                }
                match is_trivial(p, f, b, i) {
                    Some(same) => {
                        proof {
                            assert(p0.funcs@[f as int].layout@[k as int] == b);
                            assert(trivial_with(p0, f, b, i as int, same));
                            assert(trivial_at(p0, f, b, i as int));
                            lemma_none_witness(p0, f, k as int, i as int);
                        }
                        let ghost pb = *p;
                        proof {
                            assert(all_below(pb.blocks@[b as int].params@, pb.values@.len() as int));
                            assert(params_distinct(pb, b));
                        }
                        let param = remove_arg(p, f, b, i);
                        let ghost p1 = *p;
                        proof {
                            let lay = p.funcs@[f as int].layout@;
                            assert(lay[k as int] == b);
                            assert(lay.contains(b));
                            lemma_ptotal_dec(pb, p1, lay, lay.len() as int, b);
                            assert(lay.subrange(0, lay.len() as int) =~= lay);
                            lemma_remove_distinct(pb.blocks@[b as int].params@, i as int);
                        }
                        replace_variable(p, f, param, same);
                        if used_in_func(p, f, param) {
                            return None;
                        }
                        let ghost p2 = *p;
                        fix_bb_param_idx(p, b);
                        proof {
                            let lay = p.funcs@[f as int].layout@;
                            assert forall|k2: int| 0 <= k2 < lay.len() implies p.blocks@[#[trigger] lay[k2] as int].params@.len() == p1.blocks@[lay[k2] as int].params@.len() by {}
                            lemma_ptotal_same(p1, *p, lay, lay.len() as int);
                            assert forall|k2: int| 0 <= k2 < lay.len() implies params_distinct(*p, #[trigger] lay[k2]) by {
                                assert(params_distinct(pb, lay[k2]));
                                if lay[k2] != b {
                                    assert(p.blocks@[lay[k2] as int] == pb.blocks@[lay[k2] as int]);
                                }
                            }
                            lemma_ptotal_nonneg(*p, lay, lay.len() as int);
                        }
                        return Some(true);
                    },
                    None => {},
                }
                i = i + 1;
            }
            k = k + 1;
        }
        Some(false)
    }

    /// Runs the two removals on function `f` until neither takes anything
    /// out. Says `false` where one stops (see each); where it says `true`,
    /// every parameter of every block of the function is used.
    pub fn run_on(&mut self, p: &mut Program, f: usize) -> (r: bool)
        requires
            func_wf(*old(p), f),
            layout_params_distinct(*old(p), f),
        ensures
            func_wf(*final(p), f),
            final(p).funcs@ == old(p).funcs@,
            final(p).blocks@.len() == old(p).blocks@.len(),
            final(p).values@.len() == old(p).values@.len(),
            r ==> params_used(*final(p), f),
            params_used(*old(p), f) && !stops_trivial(*old(p), f) ==> r && *final(p) == *old(p),
    {
        let ghost p0 = *p;
        loop
            invariant
                p0 == *old(p),
                params_used(p0, f) && !stops_trivial(p0, f) ==> *p == p0,
                func_wf(*p, f),
                layout_params_distinct(*p, f),
                p.funcs@ == p0.funcs@,
                p.blocks@.len() == p0.blocks@.len(),
                p.values@.len() == p0.values@.len(),
            decreases param_count(*p, f),
        {
            proof {
                let lay = p.funcs@[f as int].layout@;
                lemma_ptotal_nonneg(*p, lay, lay.len() as int);
            }
            let ghost before = param_count(*p, f);
            let r1 = self.try_remove_unused_args(p, f);
            match r1 {
                None => {
                    return false;
                },
                Some(true) => {
                    assert(param_count(*p, f) < before);
                    proof {
                        let lay = p.funcs@[f as int].layout@;
                        lemma_ptotal_nonneg(*p, lay, lay.len() as int);
                    }
                },
                Some(false) => {
                    let r2 = self.try_remove_trivial_args(p, f);
                    match r2 {
                        None => {
                            return false;
                        },
                        Some(true) => {
                            assert(param_count(*p, f) < before);
                            proof {
                                let lay = p.funcs@[f as int].layout@;
                                lemma_ptotal_nonneg(*p, lay, lay.len() as int);
                            }
                        },
                        Some(false) => {
                            return true;
                        },
                    }
                },
            }
        }
    }
}

} // verus!
