use vstd::prelude::*;

use crate::ir::{all_below, kind_ok, targets, uses, Program, ValueKind};
use crate::opt::unreachable::drop_block;
use crate::opt::utils::{used_elsewhere, 
    copy_vec, func_wf, in_func, lemma_visited_all, lemma_visited_block, lemma_visited_step, replace_bb_with,
    targeted_in_func, used_in_func, used_outside, visited_before,
};

verus! {

/// Whether `new` is what the replacement of the empty block `bb` by
/// `next` makes of the jump or branch `old` to `bb`: a jump goes to `next`
/// with `args` after its arguments; a branch does so for its first target
/// where that is `bb`, and else for its second one.
pub open spec fn empty_replaced(old: ValueKind, new: ValueKind, bb: usize, next: usize, args: Seq<usize>) -> bool {
    match old {
        ValueKind::Jump(_, a) => new matches ValueKind::Jump(t2, a2) && t2 == next && a2@ == a@ + args,
        ValueKind::Branch(c, t, ta, e, fa) => if t == bb {
            new matches ValueKind::Branch(c2, t2, ta2, e2, fa2) && c2 == c && t2 == next && ta2@ == ta@ + args && e2 == e
                && fa2@ == fa@
        } else {
            new matches ValueKind::Branch(c2, t2, ta2, e2, fa2) && c2 == c && t2 == t && ta2@ == ta@ && e2 == next
                && fa2@ == fa@ + args
        },
        _ => new == old,
    }
}

fn append(a: &Vec<usize>, b: &Vec<usize>) -> (r: Vec<usize>)
    ensures
        r@ == a@ + b@,
{
    let mut r = copy_vec(a);
    let mut i: usize = 0;
    while i < b.len()
        invariant
            i <= b@.len(),
            r@ == a@ + b@.subrange(0, i as int),
        decreases b@.len() - i,
    {
        r.push(b[i]);
        proof {
            assert(r@ =~= a@ + b@.subrange(0, i + 1));
        }
        i = i + 1;
    }
    assert(b@.subrange(0, b@.len() as int) =~= b@);
    r
}

fn empty_replaced_kind(k: &ValueKind, bb: usize, next: usize, args: &Vec<usize>) -> (r: Option<ValueKind>)
    ensures
        match r {
            Some(nk) => (k is Jump || k is Branch) && empty_replaced(*k, nk, bb, next, args@),
            None => !(k is Jump || k is Branch),
        },
{
    match k {
        ValueKind::Jump(_, a) => Some(ValueKind::Jump(next, append(a, args))),
        ValueKind::Branch(c, t, ta, e, fa) => if *t == bb {
            Some(ValueKind::Branch(*c, next, append(ta, args), *e, copy_vec(fa)))
        } else {
            Some(ValueKind::Branch(*c, *t, copy_vec(ta), next, append(fa, args)))
        },
        _ => None,
    }
}

/// Makes every jump and branch of function `f` to block `bb` go to `next`
/// instead, passing `args` after its arguments, as `empty_replaced` says.
fn replace_empty_bb(p: &mut Program, f: usize, bb: usize, next: usize, args: &Vec<usize>)
    requires
        func_wf(*old(p), f),
        next < old(p).blocks@.len(),
        all_below(args@, old(p).values@.len() as int),
    ensures
        func_wf(*final(p), f),
        final(p).blocks@ == old(p).blocks@,
        final(p).funcs@ == old(p).funcs@,
        final(p).inst_layout@ == old(p).inst_layout@,
        final(p).values@.len() == old(p).values@.len(),
        forall|v: usize|
            v < old(p).values@.len() ==> {
                &&& (#[trigger] final(p).values@[v as int]).ty == old(p).values@[v as int].ty
                &&& final(p).values@[v as int].name == old(p).values@[v as int].name
                &&& if in_func(*old(p), f, v) && targets(old(p).values@[v as int].kind, bb) {
                    empty_replaced(old(p).values@[v as int].kind, final(p).values@[v as int].kind, bb, next, args@)
                } else {
                    final(p).values@[v as int].kind == old(p).values@[v as int].kind
                }
            },
{
    let ghost p0 = *p;
    let nb = p.funcs[f].layout.len();
    let mut bi: usize = 0;
    while bi < nb
        invariant
            func_wf(p0, f),
            next < p0.blocks@.len(),
            all_below(args@, p0.values@.len() as int),
            nb == p0.funcs@[f as int].layout@.len(),
            bi <= nb,
            p.wf(),
            p.blocks@ == p0.blocks@,
            p.funcs@ == p0.funcs@,
            p.inst_layout@ == p0.inst_layout@,
            p.values@.len() == p0.values@.len(),
            forall|v: usize|
                v < p0.values@.len() ==> {
                    &&& (#[trigger] p.values@[v as int]).ty == p0.values@[v as int].ty
                    &&& p.values@[v as int].name == p0.values@[v as int].name
                    &&& if visited_before(p0, f, bi as int, 0, v) && targets(p0.values@[v as int].kind, bb) {
                        empty_replaced(p0.values@[v as int].kind, p.values@[v as int].kind, bb, next, args@)
                    } else {
                        p.values@[v as int].kind == p0.values@[v as int].kind
                    }
                },
        decreases nb - bi,
    {
        let blk = p.funcs[f].layout[bi];
        let n = p.blocks[blk].insts.len();
        proof {
            assert(all_below(p0.funcs@[f as int].layout@, p0.blocks@.len() as int));
            assert(all_below(p0.blocks@[blk as int].insts@, p0.values@.len() as int));
        }
        let mut ii: usize = 0;
        while ii < n
            invariant
                func_wf(p0, f),
                next < p0.blocks@.len(),
                all_below(args@, p0.values@.len() as int),
                nb == p0.funcs@[f as int].layout@.len(),
                bi < nb,
                blk == p0.funcs@[f as int].layout@[bi as int],
                blk < p0.blocks@.len(),
                n == p0.blocks@[blk as int].insts@.len(),
                all_below(p0.blocks@[blk as int].insts@, p0.values@.len() as int),
                ii <= n,
                p.wf(),
                p.blocks@ == p0.blocks@,
                p.funcs@ == p0.funcs@,
                p.inst_layout@ == p0.inst_layout@,
                p.values@.len() == p0.values@.len(),
                forall|v: usize|
                    v < p0.values@.len() ==> {
                        &&& (#[trigger] p.values@[v as int]).ty == p0.values@[v as int].ty
                        &&& p.values@[v as int].name == p0.values@[v as int].name
                        &&& if visited_before(p0, f, bi as int, ii as int, v) && targets(p0.values@[v as int].kind, bb) {
                            empty_replaced(p0.values@[v as int].kind, p.values@[v as int].kind, bb, next, args@)
                        } else {
                            p.values@[v as int].kind == p0.values@[v as int].kind
                        }
                    },
            decreases n - ii,
        {
            let w = p.blocks[blk].insts[ii];
            proof {
                lemma_visited_step(p0, f, bi as int, ii as int);
                assert(p0.blocks@[p0.funcs@[f as int].layout@[bi as int] as int].insts@[ii as int] == w);
                assert(w < p0.values@.len());
                assert(p.values@[w as int].kind == p0.values@[w as int].kind);
            }
            if crate::ir::targets_block(&p.values[w].kind, bb) {
                match empty_replaced_kind(&p.values[w].kind, bb, next, args) {
                    Some(k2) => {
                        proof {
                            let nv = p0.values@.len() as int;
                            assert(kind_ok(p0.values@[w as int].kind, nv, p0.blocks@.len() as int, p0.funcs@.len() as int));
                            match p0.values@[w as int].kind {
                                ValueKind::Jump(_, a) => {
                                    assert(all_below(a@ + args@, nv));
                                },
                                ValueKind::Branch(_, _, ta, _, fa) => {
                                    assert(all_below(ta@ + args@, nv));
                                    assert(all_below(fa@ + args@, nv));
                                },
                                _ => {},
                            }
                            assert(kind_ok(k2, nv, p0.blocks@.len() as int, p0.funcs@.len() as int));
                        }
                        let ghost pv = p.values@;
                        p.values[w].kind = k2;
                        proof {
                            assert forall|i: int| 0 <= i < pv.len() && i != w implies #[trigger] p.values@[i] == pv[i] by {}
                            let nv = p.values@.len() as int;
                            assert forall|i: int| 0 <= i < nv implies kind_ok(
                                #[trigger] p.values@[i].kind,
                                nv,
                                p.blocks@.len() as int,
                                p.funcs@.len() as int,
                            ) by {
                                assert(kind_ok(pv[i].kind, nv, p.blocks@.len() as int, p.funcs@.len() as int));
                            }
                        }
                    },
                    None => {},
                }
            }
            ii = ii + 1;
        }
        proof {
            lemma_visited_block(p0, f, bi as int);
        }
        bi = bi + 1;
    }
    proof {
        lemma_visited_all(p0, f);
    }
}

/// Whether some instruction of function `f` outside block `bb` jumps or branches to it.
fn targeted_outside(p: &Program, f: usize, bb: usize) -> (r: bool)
    requires
        func_wf(*p, f),
        bb < p.blocks@.len(),
    ensures
        r == exists|w: usize|
            #[trigger] in_func(*p, f, w) && !p.blocks@[bb as int].insts@.contains(w) && targets(p.values@[w as int].kind, bb),
{
    let nb = p.funcs[f].layout.len();
    let mut bi: usize = 0;
    while bi < nb
        invariant
            func_wf(*p, f),
            bb < p.blocks@.len(),
            nb == p.funcs@[f as int].layout@.len(),
            bi <= nb,
            forall|w: usize| #[trigger] visited_before(*p, f, bi as int, 0, w) ==> p.blocks@[bb as int].insts@.contains(w) || !targets(p.values@[w as int].kind, bb),
        decreases nb - bi,
    {
        let blk = p.funcs[f].layout[bi];
        proof {
            assert(all_below(p.funcs@[f as int].layout@, p.blocks@.len() as int));
            assert(all_below(p.blocks@[blk as int].insts@, p.values@.len() as int));
        }
        let n = p.blocks[blk].insts.len();
        let mut ii: usize = 0;
        while ii < n
            invariant
                func_wf(*p, f),
                bb < p.blocks@.len(),
                nb == p.funcs@[f as int].layout@.len(),
                bi < nb,
                blk == p.funcs@[f as int].layout@[bi as int],
                blk < p.blocks@.len(),
                n == p.blocks@[blk as int].insts@.len(),
                all_below(p.blocks@[blk as int].insts@, p.values@.len() as int),
                ii <= n,
                forall|w: usize| #[trigger] visited_before(*p, f, bi as int, ii as int, w) ==> p.blocks@[bb as int].insts@.contains(w) || !targets(p.values@[w as int].kind, bb),
            decreases n - ii,
        {
            let w = p.blocks[blk].insts[ii];
            proof {
                lemma_visited_step(*p, f, bi as int, ii as int);
            }
            if crate::ir::targets_block(&p.values[w].kind, bb) && !crate::ir::vec_contains(&p.blocks[bb].insts, w) {
                proof {
                    let lay = p.funcs@[f as int].layout@;
                    assert(p.blocks@[lay[bi as int] as int].insts@.contains(w));
                    assert(in_func(*p, f, w));
                }
                return true;
            }
            ii = ii + 1;
        }
        proof {
            lemma_visited_block(*p, f, bi as int);
        }
        bi = bi + 1;
    }
    proof {
        lemma_visited_all(*p, f);
        assert forall|w: usize| #[trigger] in_func(*p, f, w) implies p.blocks@[bb as int].insts@.contains(w) || !targets(p.values@[w as int].kind, bb) by {
            assert(visited_before(*p, f, nb as int, 0, w));
        }
    }
    false
}

/// Whether block `b` only passes control on: its first instruction is a
/// jump, and it takes no parameters or passes exactly its parameters on.
pub open spec fn is_empty_bb(p: Program, b: usize) -> bool {
    let insts = p.blocks@[b as int].insts@;
    let params = p.blocks@[b as int].params@;
    &&& insts.len() > 0
    &&& p.values@[insts[0] as int].kind matches ValueKind::Jump(_, a) && (params.len() == 0 || params == a@)
}

/// Whether a block of the layout of function `f` other than the entry has no instruction.
pub open spec fn has_empty_block(p: Program, f: usize) -> bool {
    exists|k: int|
        1 <= k < p.funcs@[f as int].layout@.len() && (#[trigger] p.blocks@[p.funcs@[f as int].layout@[k] as int]).insts@.len() == 0
}

/// Whether no block of function `f` but the entry only passes control on,
/// and every one of them has an instruction.
pub open spec fn no_empty_bb(p: Program, f: usize) -> bool {
    let lay = p.funcs@[f as int].layout@;
    forall|k: int| 1 <= k < lay.len() ==> p.blocks@[#[trigger] lay[k] as int].insts@.len() > 0 && !is_empty_bb(p, lay[k])
}

fn vec_eq(a: &Vec<usize>, b: &Vec<usize>) -> (r: bool)
    ensures
        r == (a@ == b@),
{
    if a.len() != b.len() {
        return false;
    }
    let mut i: usize = 0;
    while i < a.len()
        invariant
            a@.len() == b@.len(),
            i <= a@.len(),
            forall|j: int| 0 <= j < i ==> a@[j] == b@[j],
        decreases a@.len() - i,
    {
        if a[i] != b[i] {
            return false;
        }
        i = i + 1;
    }
    assert(a@ =~= b@);
    true
}

/// Whether an instruction of function `f` outside block `b` uses a parameter of `b`.
fn params_used_outside(p: &Program, f: usize, b: usize) -> (r: bool)
    requires
        func_wf(*p, f),
        b < p.blocks@.len(),
    ensures
        r == exists|i: int|
            0 <= i < p.blocks@[b as int].params@.len() && used_elsewhere(*p, f, #[trigger] p.blocks@[b as int].params@[i], b),
{
    let np = p.blocks[b].params.len();
    let mut i: usize = 0;
    while i < np
        invariant
            func_wf(*p, f),
            b < p.blocks@.len(),
            np == p.blocks@[b as int].params@.len(),
            i <= np,
            forall|i2: int| 0 <= i2 < i ==> !used_elsewhere(*p, f, #[trigger] p.blocks@[b as int].params@[i2], b),
        decreases np - i,
    {
        if used_outside(p, f, p.blocks[b].params[i], b) {
            return true;
        }
        i = i + 1;
    }
    false
}

/// The removal of blocks that only pass control on.
pub struct RemoveEmptyBB;

impl RemoveEmptyBB {
    /// Takes every block of function `f` but the entry that only passes
    /// control on out of the layout, and makes the jumps and branches to it
    /// go where it goes. `Some` of whether any went; `None` where a block
    /// has no instruction, or where a block that goes, or one of its
    /// parameters, stays used.
    pub fn remove_empty_bb(&self, p: &mut Program, f: usize) -> (r: Option<bool>)
        requires
            func_wf(*old(p), f),
        ensures
            func_wf(*final(p), f),
            final(p).funcs@.len() == old(p).funcs@.len(),
            final(p).blocks@.len() == old(p).blocks@.len(),
            final(p).values@.len() == old(p).values@.len(),
            final(p).funcs@[f as int].layout@.len() <= old(p).funcs@[f as int].layout@.len(),
            r == Some(true) ==> final(p).funcs@[f as int].layout@.len() < old(p).funcs@[f as int].layout@.len(),
            r == Some(false) ==> *final(p) == *old(p) && no_empty_bb(*final(p), f),
            (r == Some(false)) == no_empty_bb(*old(p), f),
            has_empty_block(*old(p), f) ==> r is None,
    {
        let ghost p0 = *p;
        let lay = copy_vec(&p.funcs[f].layout);
        let n = lay.len();
        proof {
            assert(all_below(lay@, p.blocks@.len() as int));
        }
        let mut empty: Vec<(usize, usize)> = Vec::new();
        let mut k: usize = 1;
        while k < n
            invariant
                p0 == *old(p),
                *p == p0,
                func_wf(*p, f),
                lay@ == p.funcs@[f as int].layout@,
                all_below(lay@, p.blocks@.len() as int),
                n == lay@.len(),
                1 <= k || n == 0,
                k <= n || n == 0,
                forall|j: int| 0 <= j < empty@.len() ==> 1 <= (#[trigger] empty@[j]).0 && empty@[j].0 < n && empty@[j].1 < p.values@.len(),
                empty@.len() == 0 ==> forall|k2: int| 1 <= k2 < k && k2 < n ==> p.blocks@[#[trigger] lay@[k2] as int].insts@.len() > 0 && !is_empty_bb(*p, lay@[k2]),
                forall|k2: int| 1 <= k2 < k && k2 < n ==> (#[trigger] p.blocks@[lay@[k2] as int]).insts@.len() > 0,
                empty@.len() > 0 ==> !no_empty_bb(p0, f),
            decreases n - k,
        {
            let b = lay[k];
            let insts = &p.blocks[b].insts;
            if insts.len() == 0 {
                proof {
                    assert(p.blocks@[lay@[k as int] as int].insts@.len() == 0);
                    assert(!no_empty_bb(p0, f));
                }
                return None;
            }
            let v = insts[0];
            proof {
                assert(all_below(p.blocks@[b as int].insts@, p.values@.len() as int));
            }
            let params = &p.blocks[b].params;
            let hit = match &p.values[v].kind {
                ValueKind::Jump(_, a) => params.len() == 0 || vec_eq(params, a),
                _ => false,
            };
            if hit {
                proof {
                    assert(is_empty_bb(*p, lay@[k as int]));
                    assert(!no_empty_bb(p0, f));
                }
                empty.push((k, v));
            }
            k = k + 1;
        }
        proof {
            assert forall|k2: int|
                1 <= k2 < p0.funcs@[f as int].layout@.len() implies (#[trigger] p0.blocks@[p0.funcs@[f as int].layout@[k2] as int]).insts@.len() > 0 by {
                assert(p.blocks@[lay@[k2] as int].insts@.len() > 0);
            }
        }
        if empty.len() == 0 {
            proof {
                assert forall|k2: int| 1 <= k2 < lay@.len() implies p.blocks@[#[trigger] lay@[k2] as int].insts@.len() > 0 && !is_empty_bb(*p, lay@[k2]) by {}
            }
            return Some(false);
        }
        proof {
            assert(1 <= empty@[0].0 && empty@[0].0 < n);
        }
        let mut j: usize = 0;
        while j < empty.len()
            invariant
                p0 == *old(p),
                func_wf(p0, f),
                func_wf(*p, f),
                p.funcs@.len() == p0.funcs@.len(),
                p.blocks@.len() == p0.blocks@.len(),
                p.values@.len() == p0.values@.len(),
                all_below(lay@, p.blocks@.len() as int),
                lay@ == p0.funcs@[f as int].layout@,
                n == lay@.len(),
                empty@.len() > 0,
                forall|q: int| 0 <= q < empty@.len() ==> 1 <= (#[trigger] empty@[q]).0 && empty@[q].0 < n && empty@[q].1 < p.values@.len(),
                p.funcs@[f as int].layout@.len() > 0,
                p.funcs@[f as int].layout@[0] == lay@[0],
                forall|c: usize| #[trigger] p.funcs@[f as int].layout@.contains(c) ==> lay@.contains(c),
                j == 0 ==> p.funcs@[f as int].layout@ == lay@,
                j > 0 ==> p.funcs@[f as int].layout@.len() < n,
                !no_empty_bb(p0, f),
                forall|k2: int|
                    1 <= k2 < p0.funcs@[f as int].layout@.len() ==> (#[trigger] p0.blocks@[p0.funcs@[f as int].layout@[k2] as int]).insts@.len() > 0,
            decreases empty@.len() - j,
        {
            let (kb, v) = empty[j];
            let b = lay[kb];
            proof {
                assert(lay@[kb as int] != lay@[0]);
            }
            let (t, a) = match &p.values[v].kind {
                ValueKind::Jump(t, a) => (*t, copy_vec(a)),
                _ => {
                    return None;
                },
            };
            proof {
                assert(kind_ok(p.values@[v as int].kind, p.values@.len() as int, p.blocks@.len() as int, p.funcs@.len() as int));
            }
            let extra = if p.blocks[b].params.len() == 0 {
                a
            } else {
                Vec::new()
            };
            replace_empty_bb(p, f, b, t, &extra);
            if targeted_outside(p, f, b) {
                return None;
            }
            if params_used_outside(p, f, b) {
                return None;
            }
            let ghost pb = *p;
            drop_block(p, f, b);
            proof {
                if j == 0 {
                    assert(pb.funcs@[f as int].layout@ == lay@);
                    assert(lay@.contains(b));
                }
            }
            j = j + 1;
        }
        Some(true)
    }
}

/// The entry of function `f` with the instructions of a block `t` that has
/// left the layout, after its own but its first, keeps the layout well formed.
proof fn lemma_entry_merged(p0: Program, p1: Program, p: Program, f: usize, t: usize)
    requires
        func_wf(p0, f),
        func_wf(p1, f),
        p0.funcs@[f as int].layout@.len() > 0,
        p0.funcs@[f as int].layout@.contains(t),
        t != p0.funcs@[f as int].layout@[0],
        p0.blocks@[p0.funcs@[f as int].layout@[0] as int].insts@.len() > 0,
        p1.values@ == p0.values@,
        p1.blocks@ == p0.blocks@,
        forall|c: usize| #[trigger] p1.funcs@[f as int].layout@.contains(c) <==> p0.funcs@[f as int].layout@.contains(c) && c != t,
        p1.funcs@[f as int].layout@.len() > 0,
        p1.funcs@[f as int].layout@[0] == p0.funcs@[f as int].layout@[0],
        p.values@ == p1.values@,
        p.funcs@ == p1.funcs@,
        p.inst_layout@ == p1.inst_layout@,
        p.blocks@.len() == p1.blocks@.len(),
        forall|b: int| 0 <= b < p1.blocks@.len() && b != p0.funcs@[f as int].layout@[0] ==> #[trigger] p.blocks@[b] == p1.blocks@[b],
        ({
            let e = p0.funcs@[f as int].layout@[0];
            &&& p.blocks@[e as int].params@ == p1.blocks@[e as int].params@
            &&& p.blocks@[e as int].insts@ == p0.blocks@[e as int].insts@.subrange(1, p0.blocks@[e as int].insts@.len() as int)
                + p0.blocks@[t as int].insts@
        }),
    ensures
        func_wf(p, f),
{
    let lay0 = p0.funcs@[f as int].layout@;
    let lay = p.funcs@[f as int].layout@;
    let e = lay0[0];
    let es = p0.blocks@[e as int].insts@;
    let ts = p0.blocks@[t as int].insts@;
    let ns = p.blocks@[e as int].insts@;
    let kt = choose|k: int| 0 <= k < lay0.len() && lay0[k] == t;
    assert(kt != 0);
    // what the entry holds now
    assert forall|x: usize| #[trigger] ns.contains(x) ==> es.contains(x) || ts.contains(x) by {
        if ns.contains(x) {
            let i = choose|i: int| 0 <= i < ns.len() && ns[i] == x;
            if i < es.len() - 1 {
                assert(es[i + 1] == x);
            } else {
                assert(ts[i - (es.len() - 1)] == x);
            }
        }
    }
    let nv = p.values@.len() as int;
    let nbk = p.blocks@.len() as int;
    let nf = p.funcs@.len() as int;
    assert(p1.wf());
    assert forall|i2: int| 0 <= i2 < nv implies kind_ok(#[trigger] p.values@[i2].kind, nv, nbk, nf) by {
        assert(kind_ok(p1.values@[i2].kind, nv, nbk, nf));
    }
    assert forall|b: int| 0 <= b < nbk implies all_below((#[trigger] p.blocks@[b]).params@, nv) && all_below(
        p.blocks@[b].insts@,
        nv,
    ) by {
        assert(all_below(p1.blocks@[b].params@, nv));
        assert(all_below(p1.blocks@[b].insts@, nv));
        if b == e {
            assert(all_below(es, nv));
            assert(all_below(ts, nv));
            assert forall|i: int| 0 <= i < ns.len() implies (#[trigger] ns[i]) < nv by {
                assert(ns.contains(ns[i]));
            }
        }
    }
    assert forall|g: int| 0 <= g < nf implies all_below((#[trigger] p.funcs@[g]).params@, nv) && all_below(
        p.funcs@[g].layout@,
        nbk,
    ) by {
        assert(all_below(p1.funcs@[g].params@, nv));
        assert(all_below(p1.funcs@[g].layout@, nbk));
    }
    assert(all_below(p1.inst_layout@, nv));
    // the entry and `t` held distinct instructions, none shared
    assert forall|i: int, j: int| 0 <= i < j < ns.len() implies ns[i] != ns[j] by {
        let m = es.len() - 1;
        assert(p0.blocks@[lay0[0] as int].insts@ == es);
        assert(p0.blocks@[lay0[kt] as int].insts@ == ts);
        if j < m {
            assert(ns[i] == es[i + 1]);
            assert(ns[j] == es[j + 1]);
        } else if i >= m {
            assert(ns[i] == ts[i - m]);
            assert(ns[j] == ts[j - m]);
        } else {
            assert(ns[i] == es[i + 1]);
            assert(ns[j] == ts[j - m]);
            assert(es.contains(ns[i]));
            assert(ts.contains(ns[j]));
            if ns[i] == ns[j] {
                assert(p0.blocks@[lay0[0] as int].insts@.contains(ns[i]));
                assert(p0.blocks@[lay0[kt] as int].insts@.contains(ns[i]));
            }
        }
    }
    assert forall|b: int| 0 <= b < lay.len() implies {
        let insts = #[trigger] p.blocks@[lay[b] as int].insts@;
        forall|i2: int, j2: int| 0 <= i2 < j2 < insts.len() ==> insts[i2] != insts[j2]
    } by {
        if lay[b] != e {
            assert(p.blocks@[lay[b] as int] == p1.blocks@[lay[b] as int]);
        }
    }
    assert forall|b1: int, b2: int, v: usize|
        0 <= b1 < b2 < lay.len() && #[trigger] p.blocks@[lay[b1] as int].insts@.contains(v)
            implies !#[trigger] p.blocks@[lay[b2] as int].insts@.contains(v) by {
        assert(lay.contains(lay[b1]));
        assert(lay.contains(lay[b2]));
        assert(lay0.contains(lay[b1]));
        assert(lay0.contains(lay[b2]));
        let q1 = choose|q: int| 0 <= q < lay0.len() && lay0[q] == lay[b1];
        let q2 = choose|q: int| 0 <= q < lay0.len() && lay0[q] == lay[b2];
        assert(lay[b1] != lay[b2]);
        assert(q1 != q2);
        // a block other than the entry is as it was
        if lay[b1] == e {
            assert(lay[b2] != t);
            assert(p.blocks@[lay[b2] as int] == p0.blocks@[lay0[q2] as int]);
            if ns.contains(v) && p0.blocks@[lay0[q2] as int].insts@.contains(v) {
                if es.contains(v) {
                    assert(p0.blocks@[lay0[0] as int].insts@.contains(v));
                    if q2 < 0 {} else {
                        assert(!p0.blocks@[lay0[q2] as int].insts@.contains(v));
                    }
                } else {
                    assert(p0.blocks@[lay0[kt] as int].insts@.contains(v));
                    if kt < q2 {
                        assert(!p0.blocks@[lay0[q2] as int].insts@.contains(v));
                    } else {
                        assert(kt != q2);
                        assert(!p0.blocks@[lay0[kt] as int].insts@.contains(v));
                    }
                }
            }
        } else if lay[b2] == e {
            assert(lay[b1] != t);
            assert(p.blocks@[lay[b1] as int] == p0.blocks@[lay0[q1] as int]);
            if ns.contains(v) && p0.blocks@[lay0[q1] as int].insts@.contains(v) {
                if es.contains(v) {
                    assert(p0.blocks@[lay0[0] as int].insts@.contains(v));
                    assert(!p0.blocks@[lay0[q1] as int].insts@.contains(v));
                } else {
                    assert(p0.blocks@[lay0[kt] as int].insts@.contains(v));
                    if kt < q1 {
                        assert(!p0.blocks@[lay0[q1] as int].insts@.contains(v));
                    } else {
                        assert(kt != q1);
                        assert(!p0.blocks@[lay0[kt] as int].insts@.contains(v));
                    }
                }
            }
        } else {
            assert(p.blocks@[lay[b1] as int] == p0.blocks@[lay0[q1] as int]);
            assert(p.blocks@[lay[b2] as int] == p0.blocks@[lay0[q2] as int]);
            if q1 < q2 {
                assert(p0.blocks@[lay0[q1] as int].insts@.contains(v));
            } else {
                assert(p0.blocks@[lay0[q2] as int].insts@.contains(v) ==> !p0.blocks@[lay0[q1] as int].insts@.contains(v));
            }
        }
    }
}

impl RemoveEmptyBB {
    /// Where the entry of function `f` starts with a jump without
    /// arguments, makes the block it jumps to part of the entry: the jumps
    /// and branches to that block go to the entry, and its instructions
    /// follow those of the entry in place of the jump. Fails where the entry
    /// has no instruction or jumps to itself or out of the layout, or where
    /// the block, or one of its parameters, stays used.
    pub fn try_coalesce_entry(&self, p: &mut Program, f: usize) -> (r: bool)
        requires
            func_wf(*old(p), f),
            old(p).funcs@[f as int].layout@.len() > 0,
        ensures
            func_wf(*final(p), f),
            final(p).funcs@.len() == old(p).funcs@.len(),
            final(p).blocks@.len() == old(p).blocks@.len(),
            final(p).values@.len() == old(p).values@.len(),
            ({
                let e = old(p).funcs@[f as int].layout@[0];
                let es = old(p).blocks@[e as int].insts@;
                let k0 = old(p).values@[es[0] as int].kind;
                &&& es.len() == 0 ==> !r && *final(p) == *old(p)
                &&& es.len() > 0 && !(k0 matches ValueKind::Jump(_, a) && a@.len() == 0) ==> r && *final(p) == *old(p)
                &&& es.len() > 0 && (k0 matches ValueKind::Jump(t, a) && a@.len() == 0 && (t == e
                    || !old(p).funcs@[f as int].layout@.contains(t))) ==> !r && *final(p) == *old(p)
                &&& (r && es.len() > 0 && k0 is Jump && k0->Jump_1@.len() == 0) ==> {
                    let t = k0->Jump_0;
                    &&& final(p).blocks@[e as int].insts@ == es.subrange(1, es.len() as int) + old(p).blocks@[t as int].insts@
                    &&& final(p).funcs@[f as int].layout@[0] == e
                    &&& forall|c: usize| #[trigger] final(p).funcs@[f as int].layout@.contains(c) <==> old(
                        p).funcs@[f as int].layout@.contains(c) && c != t
                }
            }),
    {
        let entry = p.funcs[f].layout[0];
        proof {
            assert(all_below(p.funcs@[f as int].layout@, p.blocks@.len() as int));
        }
        let n = p.blocks[entry].insts.len();
        if n == 0 {
            return false;
        }
        let v = p.blocks[entry].insts[0];
        proof {
            assert(all_below(p.blocks@[entry as int].insts@, p.values@.len() as int));
            assert(kind_ok(p.values@[v as int].kind, p.values@.len() as int, p.blocks@.len() as int, p.funcs@.len() as int));
        }
        let t = match &p.values[v].kind {
            ValueKind::Jump(t, a) => {
                if a.len() > 0 {
                    return true;
                }
                *t
            },
            _ => {
                return true;
            },
        };
        if t == entry || !crate::ir::vec_contains(&p.funcs[f].layout, t) {
            return false;
        }
        let ghost p0 = *p;
        replace_bb_with(p, f, t, entry);
        if targeted_in_func(p, f, t) {
            return false;
        }
        let np = p.blocks[t].params.len();
        let mut i: usize = 0;
        while i < np
            invariant
                func_wf(*p, f),
                t < p.blocks@.len(),
                np == p.blocks@[t as int].params@.len(),
                i <= np,
                p.funcs@.len() == p0.funcs@.len(),
                p.blocks@.len() == p0.blocks@.len(),
                p.values@.len() == p0.values@.len(),
                p0 == *old(p),
                ({
                    let e = p0.funcs@[f as int].layout@[0];
                    let es = p0.blocks@[e as int].insts@;
                    &&& es.len() > 0
                    &&& p0.values@[es[0] as int].kind is Jump
                    &&& p0.values@[es[0] as int].kind->Jump_0 == t
                    &&& p0.values@[es[0] as int].kind->Jump_1@.len() == 0
                    &&& t != e
                    &&& p0.funcs@[f as int].layout@.contains(t)
                }),
            decreases np - i,
        {
            if used_in_func(p, f, p.blocks[t].params[i]) {
                return false;
            }
            i = i + 1;
        }
        let ghost pm = *p;
        drop_block(p, f, t);
        let ghost p1 = *p;
        // the entry's instructions but the jump, then those of `t`
        let mut insts: Vec<usize> = Vec::new();
        let mut k: usize = 1;
        while k < n
            invariant
                *p == p1,
                entry < p.blocks@.len(),
                n == p.blocks@[entry as int].insts@.len(),
                1 <= k <= n,
                insts@ == p.blocks@[entry as int].insts@.subrange(1, k as int),
            decreases n - k,
        {
            insts.push(p.blocks[entry].insts[k]);
            proof {
                assert(insts@ =~= p.blocks@[entry as int].insts@.subrange(1, k + 1));
            }
            k = k + 1;
        }
        let merged = append(&insts, &p.blocks[t].insts);
        let ghost pb = p.blocks@;
        p.blocks[entry].insts = merged;
        proof {
            assert forall|b: int| 0 <= b < pb.len() && b != entry implies #[trigger] p.blocks@[b] == p1.blocks@[b] by {}
            lemma_entry_merged(pm, p1, *p, f, t);
            assert(p1.blocks@ == p0.blocks@);
            assert(p.blocks@[entry as int].insts@ == p0.blocks@[entry as int].insts@.subrange(1, n as int) + p0.blocks@[t as int].insts@);
        }
        true
    }

    /// Takes the blocks of function `f` that only pass control on out of
    /// its layout until there is none, then makes the block the entry jumps
    /// to part of the entry. Says `false` where a step stops (see each).
    pub fn run_on(&mut self, p: &mut Program, f: usize) -> (r: bool)
        requires
            func_wf(*old(p), f),
        ensures
            func_wf(*final(p), f),
            final(p).funcs@.len() == old(p).funcs@.len(),
            final(p).blocks@.len() == old(p).blocks@.len(),
            final(p).values@.len() == old(p).values@.len(),
            old(p).funcs@[f as int].layout@.len() == 0 ==> r && *final(p) == *old(p),
            has_empty_block(*old(p), f) ==> !r,
            ({
                let e = old(p).funcs@[f as int].layout@[0];
                let es = old(p).blocks@[e as int].insts@;
                no_empty_bb(*old(p), f) && old(p).funcs@[f as int].layout@.len() > 0 && es.len() > 0
                    && !(old(p).values@[es[0] as int].kind matches ValueKind::Jump(_, a) && a@.len() == 0)
                    ==> r && *final(p) == *old(p)
            }),
    {
        if p.funcs[f].layout.len() == 0 {
            return true;
        }
        let ghost p0 = *p;
        loop
            invariant
                p0 == *old(p),
                (no_empty_bb(p0, f) || has_empty_block(p0, f)) ==> *p == p0,
                func_wf(*p, f),
                p.funcs@.len() == p0.funcs@.len(),
                p.blocks@.len() == p0.blocks@.len(),
                p.values@.len() == p0.values@.len(),
            ensures
                p0 == *old(p),
                (no_empty_bb(p0, f) || has_empty_block(p0, f)) ==> *p == p0,
                func_wf(*p, f),
                p.funcs@.len() == p0.funcs@.len(),
                p.blocks@.len() == p0.blocks@.len(),
                p.values@.len() == p0.values@.len(),
                no_empty_bb(*p, f),
            decreases p.funcs@[f as int].layout@.len(),
        {
            let r1 = self.remove_empty_bb(p, f);
            match r1 {
                None => {
                    return false;
                },
                Some(true) => {},
                Some(false) => {
                    break;
                },
            }
        }
        proof {
            if has_empty_block(p0, f) {
                let k = choose|k: int|
                    1 <= k < p0.funcs@[f as int].layout@.len() && (#[trigger] p0.blocks@[p0.funcs@[f as int].layout@[k] as int]).insts@.len() == 0;
                assert(p.blocks@[p.funcs@[f as int].layout@[k] as int].insts@.len() > 0);
            }
        }
        if p.funcs[f].layout.len() == 0 {
            return true;
        }
        self.try_coalesce_entry(p, f)
    }
}

} // verus!
