use vstd::prelude::*;

use crate::ir::{all_below, targets, Program};
use crate::opt::ssa::{dropped, keep_upto, lemma_keep};
use crate::opt::utils::{used_elsewhere, func_wf, in_func, targeted_in_func, used_outside};

verus! {

/// Whether some instruction of function `f` jumps or branches to block `bb`.
pub open spec fn reached(p: Program, f: usize, bb: usize) -> bool {
    exists|w: usize| #[trigger] in_func(p, f, w) && targets(p.values@[w as int].kind, bb)
}

/// Whether the instruction at position `j` of the block at position `k`
/// of the layout of function `f`, a block other than the entry that nothing
/// jumps or branches to, is used outside that block.
pub open spec fn stuck_pair(p: Program, f: usize, k: int, j: int) -> bool {
    let lay = p.funcs@[f as int].layout@;
    &&& 1 <= k < lay.len()
    &&& !reached(p, f, lay[k])
    &&& 0 <= j < p.blocks@[lay[k] as int].insts@.len()
    &&& used_elsewhere(p, f, p.blocks@[lay[k] as int].insts@[j], lay[k])
}

/// Whether a block that the first round takes out has an instruction used outside it.
pub open spec fn stuck_at_first(p: Program, f: usize) -> bool {
    exists|k: int, j: int| #[trigger] stuck_pair(p, f, k, j)
}

/// Whether every block of the layout of function `f` but the entry is reached.
pub open spec fn all_reached(p: Program, f: usize) -> bool {
    let lay = p.funcs@[f as int].layout@;
    forall|i: int| 1 <= i < lay.len() ==> reached(p, f, #[trigger] lay[i])
}

proof fn lemma_keep_prefix(p: Program, drop: Seq<usize>, s: Seq<usize>, m: int, n: int)
    requires
        0 <= m <= n <= s.len(),
    ensures
        keep_upto(p, drop, false, s, m).len() <= keep_upto(p, drop, false, s, n).len(),
        forall|i: int|
            0 <= i < keep_upto(p, drop, false, s, m).len() ==> #[trigger] keep_upto(p, drop, false, s, m)[i]
                == keep_upto(p, drop, false, s, n)[i],
    decreases n - m,
{
    if m < n {
        lemma_keep_prefix(p, drop, s, m, n - 1);
    }
}

proof fn lemma_keep_len(p: Program, drop: Seq<usize>, s: Seq<usize>, n: int, k: int)
    requires
        0 <= k < n <= s.len(),
        drop.contains(s[k]),
    ensures
        keep_upto(p, drop, false, s, n).len() < n,
    decreases n,
{
    lemma_keep_at_most(p, drop, s, n - 1);
    if k < n - 1 {
        lemma_keep_len(p, drop, s, n - 1, k);
    }
}

proof fn lemma_keep_at_most(p: Program, drop: Seq<usize>, s: Seq<usize>, n: int)
    requires
        0 <= n <= s.len(),
    ensures
        keep_upto(p, drop, false, s, n).len() <= n,
    decreases n,
{
    if n > 0 {
        lemma_keep_at_most(p, drop, s, n - 1);
    }
}

/// The layout of function `f` without the blocks of `removed`, which miss
/// its entry, is well formed, holds blocks of the layout before, and starts
/// with the same entry.
pub proof fn lemma_layout_kept(p1: Program, p: Program, f: usize, removed: Seq<usize>)
    requires
        func_wf(p1, f),
        p1.funcs@[f as int].layout@.len() > 0,
        !removed.contains(p1.funcs@[f as int].layout@[0]),
        p.values@ == p1.values@,
        p.blocks@ == p1.blocks@,
        p.inst_layout@ == p1.inst_layout@,
        p.funcs@.len() == p1.funcs@.len(),
        forall|g: int| 0 <= g < p1.funcs@.len() && g != f ==> #[trigger] p.funcs@[g] == p1.funcs@[g],
        p.funcs@[f as int].params@ == p1.funcs@[f as int].params@,
        p.funcs@[f as int].layout@ == keep_upto(
            p1,
            removed,
            false,
            p1.funcs@[f as int].layout@,
            p1.funcs@[f as int].layout@.len() as int,
        ),
    ensures
        func_wf(p, f),
        forall|b: usize| #[trigger] p.funcs@[f as int].layout@.contains(b) ==> p1.funcs@[f as int].layout@.contains(b),
        p.funcs@[f as int].layout@.len() > 0,
        p.funcs@[f as int].layout@[0] == p1.funcs@[f as int].layout@[0],
{
    let lay = p1.funcs@[f as int].layout@;
    let n = lay.len() as int;
    let nl = p.funcs@[f as int].layout@;
    lemma_keep(p1, removed, false, lay, n);
    assert(lay.subrange(0, n) =~= lay);
    lemma_keep_prefix(p1, removed, lay, 1, n);
    assert(keep_upto(p1, removed, false, lay, 0).len() == 0);
    assert(keep_upto(p1, removed, false, lay, 1).len() == 1);
    assert(keep_upto(p1, removed, false, lay, 1)[0] == lay[0]);
    assert(keep_upto(p1, removed, false, lay, n)[0] == lay[0]);
    assert forall|b: usize| #[trigger] nl.contains(b) implies lay.contains(b) by {
        assert(lay.subrange(0, n).contains(b));
    }
    let nv = p.values@.len() as int;
    let nbk = p.blocks@.len() as int;
    let nf = p.funcs@.len() as int;
    assert(p1.wf());
    assert forall|i2: int| 0 <= i2 < nv implies crate::ir::kind_ok(#[trigger] p.values@[i2].kind, nv, nbk, nf) by {
        assert(crate::ir::kind_ok(p1.values@[i2].kind, nv, nbk, nf));
    }
    assert forall|g: int| 0 <= g < nf implies all_below((#[trigger] p.funcs@[g]).params@, nv) && all_below(
        p.funcs@[g].layout@,
        nbk,
    ) by {
        assert(all_below(p1.funcs@[g].params@, nv));
        assert(all_below(p1.funcs@[g].layout@, nbk));
        if g == f {
            assert forall|q: int| 0 <= q < nl.len() implies (#[trigger] nl[q]) < nbk by {
                assert(nl.contains(nl[q]));
            }
        }
    }
    assert forall|b: int| 0 <= b < nbk implies all_below((#[trigger] p.blocks@[b]).params@, nv) && all_below(
        p.blocks@[b].insts@,
        nv,
    ) by {
        assert(all_below(p1.blocks@[b].params@, nv));
        assert(all_below(p1.blocks@[b].insts@, nv));
    }
    assert(all_below(p1.inst_layout@, nv));
    assert forall|b: int| 0 <= b < nl.len() implies {
        let insts = #[trigger] p.blocks@[nl[b] as int].insts@;
        forall|i2: int, j2: int| 0 <= i2 < j2 < insts.len() ==> insts[i2] != insts[j2]
    } by {
        assert(nl.contains(nl[b]));
        let q = choose|q: int| 0 <= q < lay.len() && lay[q] == nl[b];
        assert(p1.blocks@[lay[q] as int].insts@ == p.blocks@[nl[b] as int].insts@);
    }
    assert forall|b1: int, b2: int, v: usize|
        0 <= b1 < b2 < nl.len() && #[trigger] p.blocks@[nl[b1] as int].insts@.contains(v)
            implies !#[trigger] p.blocks@[nl[b2] as int].insts@.contains(v) by {
        assert(nl.contains(nl[b1]));
        assert(nl.contains(nl[b2]));
        let q1 = choose|q: int| 0 <= q < lay.len() && lay[q] == nl[b1];
        let q2 = choose|q: int| 0 <= q < lay.len() && lay[q] == nl[b2];
        assert(q1 != q2);
        if q1 < q2 {
            assert(p1.blocks@[lay[q1] as int].insts@.contains(v));
        } else {
            assert(p1.blocks@[lay[q2] as int].insts@.contains(v) ==> !p1.blocks@[lay[q1] as int].insts@.contains(v));
        }
    }
}

/// Whether no instruction of a block of `removed` is used outside its block.
fn used_inside_only(p: &Program, f: usize, removed: &Vec<usize>) -> (r: bool)
    requires
        func_wf(*p, f),
        all_below(removed@, p.blocks@.len() as int),
    ensures
        r == forall|j: int, k: int|
            0 <= j < removed@.len() && 0 <= k < p.blocks@[removed@[j] as int].insts@.len() ==> !used_elsewhere(
                *p,
                f,
                #[trigger] p.blocks@[removed@[j] as int].insts@[k],
                removed@[j],
            ),
{
    let mut j: usize = 0;
    while j < removed.len()
        invariant
            func_wf(*p, f),
            all_below(removed@, p.blocks@.len() as int),
            j <= removed@.len(),
            forall|j2: int, k: int|
                0 <= j2 < j && 0 <= k < p.blocks@[removed@[j2] as int].insts@.len() ==> !used_elsewhere(
                    *p,
                    f,
                    #[trigger] p.blocks@[removed@[j2] as int].insts@[k],
                    removed@[j2],
                ),
        decreases removed@.len() - j,
    {
        let b = removed[j];
        let insts = &p.blocks[b].insts;
        let mut k: usize = 0;
        while k < insts.len()
            invariant
                func_wf(*p, f),
                all_below(removed@, p.blocks@.len() as int),
                j < removed@.len(),
                b == removed@[j as int],
                b < p.blocks@.len(),
                *insts == p.blocks@[b as int].insts,
                k <= insts@.len(),
                forall|j2: int, k2: int|
                    0 <= j2 < j && 0 <= k2 < p.blocks@[removed@[j2] as int].insts@.len() ==> !used_elsewhere(
                        *p,
                        f,
                        #[trigger] p.blocks@[removed@[j2] as int].insts@[k2],
                        removed@[j2],
                    ),
                forall|k2: int| 0 <= k2 < k ==> !used_elsewhere(*p, f, #[trigger] insts@[k2], b),
            decreases insts@.len() - k,
        {
            if used_outside(p, f, insts[k], b) {
                return false;
            }
            k = k + 1;
        }
        j = j + 1;
    }
    true
}

/// Whether `d` holds exactly the blocks that a round takes out of the
/// layout of function `f`: those but the entry that nothing reaches.
pub open spec fn round_drop(p: Program, f: usize, d: Seq<usize>) -> bool {
    let lay = p.funcs@[f as int].layout@;
    forall|b: usize| #[trigger] d.contains(b) <==> exists|k: int| 1 <= k < lay.len() && #[trigger] lay[k] == b && !reached(p, f, b)
}

/// One round of `RemoveUnreachable::remove_unreachable_bb` from `old` to
/// `new`: some block is not reached, no block that goes has an instruction
/// used outside it, and `new` is `old` with those blocks out of the layout
/// of function `f`.
pub open spec fn unreachable_round(old: Program, new: Program, f: usize) -> bool {
    let lay = old.funcs@[f as int].layout@;
    &&& !all_reached(old, f)
    &&& !stuck_at_first(old, f)
    &&& new.values@ == old.values@
    &&& new.blocks@ == old.blocks@
    &&& new.inst_layout@ == old.inst_layout@
    &&& new.funcs@.len() == old.funcs@.len()
    &&& forall|g: int| 0 <= g < old.funcs@.len() && g != f ==> #[trigger] new.funcs@[g] == old.funcs@[g]
    &&& new.funcs@[f as int].name == old.funcs@[f as int].name
    &&& new.funcs@[f as int].params@ == old.funcs@[f as int].params@
    &&& new.funcs@[f as int].param_tys@ == old.funcs@[f as int].param_tys@
    &&& new.funcs@[f as int].ret_ty == old.funcs@[f as int].ret_ty
    &&& exists|d: Seq<usize>| #[trigger] round_drop(old, f, d) && new.funcs@[f as int].layout@ == keep_upto(old, d, false, lay, lay.len() as int)
}

/// Whether `chain` is a sequence of programs, each one round after the one before.
pub open spec fn unreachable_rounds(chain: Seq<Program>, f: usize) -> bool {
    &&& chain.len() >= 1
    &&& forall|i: int| 0 <= i < chain.len() - 1 ==> unreachable_round(#[trigger] chain[i], chain[i + 1], f)
}

/// Whether `last` is reached from `first` by rounds of removal.
pub open spec fn unreachable_chain(first: Program, last: Program, f: usize) -> bool {
    exists|chain: Seq<Program>| #[trigger] unreachable_rounds(chain, f) && chain[0] == first && chain.last() == last
}

/// The removal of the blocks that nothing jumps or branches to.
pub struct RemoveUnreachable;

impl RemoveUnreachable {
    /// Takes out of the layout of function `f`, round after round, every
    /// block but the entry that no instruction jumps or branches to, until
    /// there is none. Fails where an instruction of such a block is used
    /// outside it.
    pub fn remove_unreachable_bb(&mut self, p: &mut Program, f: usize) -> (r: bool)
        requires
            func_wf(*old(p), f),
        ensures
            func_wf(*final(p), f),
            final(p).values@ == old(p).values@,
            final(p).blocks@ == old(p).blocks@,
            final(p).inst_layout@ == old(p).inst_layout@,
            final(p).funcs@.len() == old(p).funcs@.len(),
            forall|g: int| 0 <= g < old(p).funcs@.len() && g != f ==> #[trigger] final(p).funcs@[g] == old(p).funcs@[g],
            final(p).funcs@[f as int].name == old(p).funcs@[f as int].name,
            final(p).funcs@[f as int].params@ == old(p).funcs@[f as int].params@,
            forall|b: usize|
                #[trigger] final(p).funcs@[f as int].layout@.contains(b) ==> old(p).funcs@[f as int].layout@.contains(b),
            old(p).funcs@[f as int].layout@.len() > 0 ==> final(p).funcs@[f as int].layout@.len() > 0
                && final(p).funcs@[f as int].layout@[0] == old(p).funcs@[f as int].layout@[0],
            r ==> all_reached(*final(p), f),
            all_reached(*old(p), f) ==> r && *final(p) == *old(p),
            stuck_at_first(*old(p), f) ==> !r,
            unreachable_chain(*old(p), *final(p), f),
            r <==> all_reached(*final(p), f),
            !r ==> stuck_at_first(*final(p), f),
    {
        let ghost p0 = *p;
        let ghost mut chain: Seq<Program> = seq![p0];
        loop
            invariant
                p0 == *old(p),
                unreachable_rounds(chain, f),
                chain[0] == p0,
                chain.last() == *p,
                (all_reached(p0, f) || stuck_at_first(p0, f)) ==> *p == p0,
                func_wf(*p, f),
                p.values@ == p0.values@,
                p.blocks@ == p0.blocks@,
                p.inst_layout@ == p0.inst_layout@,
                p.funcs@.len() == p0.funcs@.len(),
                forall|g: int| 0 <= g < p0.funcs@.len() && g != f ==> #[trigger] p.funcs@[g] == p0.funcs@[g],
                p.funcs@[f as int].name == p0.funcs@[f as int].name,
                p.funcs@[f as int].params@ == p0.funcs@[f as int].params@,
                p.funcs@[f as int].param_tys@ == p0.funcs@[f as int].param_tys@,
                p.funcs@[f as int].ret_ty == p0.funcs@[f as int].ret_ty,
                forall|b: usize| #[trigger] p.funcs@[f as int].layout@.contains(b) ==> p0.funcs@[f as int].layout@.contains(b),
                p0.funcs@[f as int].layout@.len() > 0 ==> p.funcs@[f as int].layout@.len() > 0
                    && p.funcs@[f as int].layout@[0] == p0.funcs@[f as int].layout@[0],
            decreases p.funcs@[f as int].layout@.len(),
        {
            let n = p.funcs[f].layout.len();
            if n == 0 {
                return true;
            }
            let ghost lay = p.funcs@[f as int].layout@;
            proof {
                assert(all_below(lay, p.blocks@.len() as int));
            }
            let mut removed: Vec<usize> = Vec::new();
            let mut i: usize = 1;
            while i < n
                invariant
                    func_wf(*p, f),
                    lay == p.funcs@[f as int].layout@,
                    n == lay.len(),
                    1 <= i <= n,
                    forall|b: usize| #[trigger] removed@.contains(b) <==> exists|k: int| 1 <= k < i && #[trigger] lay[k] == b && !reached(*p, f, b),
                decreases n - i,
            {
                let b = p.funcs[f].layout[i];
                let ghost r0 = removed@;
                if !targeted_in_func(p, f, b) {
                    removed.push(b);
                }
                proof {
                    assert forall|b2: usize| #[trigger] removed@.contains(b2) <==> exists|k: int| 1 <= k < i + 1 && #[trigger] lay[k] == b2 && !reached(*p, f, b2) by {
                        if removed@.contains(b2) && !r0.contains(b2) {
                            let x = choose|x: int| 0 <= x < removed@.len() && removed@[x] == b2;
                            if x < r0.len() {
                                assert(r0[x] == b2);
                            }
                            assert(b2 == b);
                        }
                        if r0.contains(b2) {
                            let x = choose|x: int| 0 <= x < r0.len() && r0[x] == b2;
                            assert(removed@[x] == b2);
                        }
                        if exists|k: int| 1 <= k < i + 1 && #[trigger] lay[k] == b2 && !reached(*p, f, b2) {
                            let k = choose|k: int| 1 <= k < i + 1 && #[trigger] lay[k] == b2 && !reached(*p, f, b2);
                            if k == i {
                                assert(removed@[removed@.len() - 1] == b2);
                            }
                        }
                    }
                }
                i = i + 1;
            }
            proof {
                if stuck_at_first(*p, f) {
                    let (k, j) = choose|k: int, j: int| #[trigger] stuck_pair(*p, f, k, j);
                    let b = lay[k];
                    assert(removed@.contains(b));
                    let q = choose|q: int| 0 <= q < removed@.len() && removed@[q] == b;
                    assert(!used_elsewhere(*p, f, p.blocks@[removed@[q] as int].insts@[j], removed@[q]) ==> false);
                }
            }
            if removed.len() == 0 {
                proof {
                    assert forall|k: int| 1 <= k < lay.len() implies reached(*p, f, #[trigger] lay[k]) by {
                        if !reached(*p, f, lay[k]) {
                            assert(removed@.contains(lay[k]));
                        }
                    }
                }
                return true;
            }
            // the instructions of a block that goes are used only inside it
            proof {
                assert forall|q: int| 0 <= q < removed@.len() implies (#[trigger] removed@[q]) < p.blocks@.len() by {
                    assert(removed@.contains(removed@[q]));
                    let k2 = choose|k2: int| 1 <= k2 < n && #[trigger] lay[k2] == removed@[q] && !reached(*p, f, removed@[q]);
                }
            }
            proof {
                assert(removed@.contains(removed@[0]));
                let k0 = choose|k: int| 1 <= k < n && #[trigger] lay[k] == removed@[0] && !reached(*p, f, removed@[0]);
                assert(!all_reached(*p, f));
            }
            if !used_inside_only(p, f, &removed) {
                proof {
                    let (j, k) = choose|j: int, k: int|
                        0 <= j < removed@.len() && 0 <= k < p.blocks@[removed@[j] as int].insts@.len() && used_elsewhere(
                            *p,
                            f,
                            #[trigger] p.blocks@[removed@[j] as int].insts@[k],
                            removed@[j],
                        );
                    assert(removed@.contains(removed@[j]));
                    let k2 = choose|k2: int| 1 <= k2 < n && #[trigger] lay[k2] == removed@[j] && !reached(*p, f, removed@[j]);
                    assert(stuck_pair(*p, f, k2, k));
                }
                return false;
            }
            let ghost before = *p;
            let ghost drop = removed@;
            // the layout without them
            let mut kept: Vec<usize> = Vec::new();
            let mut k: usize = 0;
            while k < n
                invariant
                    f < p.funcs@.len(),
                    lay == p.funcs@[f as int].layout@,
                    n == lay.len(),
                    k <= n,
                    kept@ == keep_upto(*p, removed@, false, lay, k as int),
                decreases n - k,
            {
                let b = p.funcs[f].layout[k];
                if !crate::ir::vec_contains(&removed, b) {
                    kept.push(b);
                }
                k = k + 1;
            }
            let ghost p1 = *p;
            proof {
                assert(!removed@.contains(lay[0])) by {
                    if removed@.contains(lay[0]) {
                        let k2 = choose|k2: int| 1 <= k2 < n && #[trigger] lay[k2] == lay[0] && !reached(p1, f, lay[0]);
                        assert(false);
                    }
                }
                let x = removed@[0];
                assert(removed@.contains(x));
                let kx = choose|kx: int| 1 <= kx < n && #[trigger] lay[kx] == x && !reached(p1, f, x);
                lemma_keep_len(p1, removed@, lay, n as int, kx);
            }
            p.funcs[f].layout = kept;
            proof {
                lemma_layout_kept(p1, *p, f, removed@);
                assert forall|g: int| 0 <= g < p.funcs@.len() && g != f implies #[trigger] p.funcs@[g] == p1.funcs@[g] by {}
                assert(round_drop(before, f, drop));
                assert(unreachable_round(before, *p, f));
                let c2 = chain.push(*p);
                assert forall|i: int| 0 <= i < c2.len() - 1 implies unreachable_round(#[trigger] c2[i], c2[i + 1], f) by {
                    if i < chain.len() - 1 {
                        assert(c2[i] == chain[i] && c2[i + 1] == chain[i + 1]);
                    } else {
                        assert(c2[i] == before);
                    }
                }
                chain = c2;
            }
        }
    }
}

/// Takes block `b`, which is not the entry, out of the layout of function `f`.
pub fn drop_block(p: &mut Program, f: usize, b: usize)
    requires
        func_wf(*old(p), f),
        old(p).funcs@[f as int].layout@.len() > 0,
        old(p).funcs@[f as int].layout@[0] != b,
    ensures
        func_wf(*final(p), f),
        final(p).values@ == old(p).values@,
        final(p).blocks@ == old(p).blocks@,
        final(p).inst_layout@ == old(p).inst_layout@,
        final(p).funcs@.len() == old(p).funcs@.len(),
        forall|g: int| 0 <= g < old(p).funcs@.len() && g != f ==> #[trigger] final(p).funcs@[g] == old(p).funcs@[g],
        final(p).funcs@[f as int].name == old(p).funcs@[f as int].name,
        final(p).funcs@[f as int].params@ == old(p).funcs@[f as int].params@,
        final(p).funcs@[f as int].layout@.len() <= old(p).funcs@[f as int].layout@.len(),
        old(p).funcs@[f as int].layout@.contains(b) ==> final(p).funcs@[f as int].layout@.len() < old(p).funcs@[
            f as int].layout@.len(),
        final(p).funcs@[f as int].layout@.len() > 0,
        final(p).funcs@[f as int].layout@[0] == old(p).funcs@[f as int].layout@[0],
        forall|c: usize| #[trigger] final(p).funcs@[f as int].layout@.contains(c) <==> old(p).funcs@[
            f as int].layout@.contains(c) && c != b,
{
    let ghost p1 = *p;
    let ghost lay = p1.funcs@[f as int].layout@;
    let ghost drop = seq![b];
    let n = p.funcs[f].layout.len();
    let mut kept: Vec<usize> = Vec::new();
    let mut k: usize = 0;
    while k < n
        invariant
            f < p.funcs@.len(),
            *p == p1,
            lay == p.funcs@[f as int].layout@,
            n == lay.len(),
            k <= n,
            kept@ == keep_upto(p1, drop, false, lay, k as int),
            drop == seq![b],
        decreases n - k,
    {
        let c = p.funcs[f].layout[k];
        if c != b {
            kept.push(c);
        }
        proof {
            assert(drop.contains(c) <==> c == b) by {
                if c == b {
                    assert(drop[0] == b);
                }
            }
        }
        k = k + 1;
    }
    p.funcs[f].layout = kept;
    proof {
        assert(!drop.contains(lay[0])) by {
            if drop.contains(lay[0]) {
                assert(drop[0] == lay[0]);
            }
        }
        lemma_layout_kept(p1, *p, f, drop);
        lemma_keep(p1, drop, false, lay, n as int);
        assert(lay.subrange(0, n as int) =~= lay);
        lemma_keep_at_most(p1, drop, lay, n as int);
        if lay.contains(b) {
            let x = choose|x: int| 0 <= x < lay.len() && lay[x] == b;
            assert(drop.contains(lay[x])) by {
                assert(drop[0] == b);
            }
            lemma_keep_len(p1, drop, lay, n as int, x);
        }
        assert forall|c: usize| #[trigger] p.funcs@[f as int].layout@.contains(c) <==> lay.contains(c) && c != b by {
            assert(drop.contains(c) <==> c == b) by {
                if c == b {
                    assert(drop[0] == b);
                }
            }
            assert(lay.contains(c) <==> lay.subrange(0, n as int).contains(c));
        }
        assert forall|g: int| 0 <= g < p.funcs@.len() && g != f implies #[trigger] p.funcs@[g] == p1.funcs@[g] by {}
    }
}

} // verus!
