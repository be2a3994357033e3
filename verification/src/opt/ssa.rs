use vstd::prelude::*;

use crate::ir::{all_below, kind_ok, targets, targets_block, uses, uses_value, BlockData, IrType, Program, ValueData, ValueKind};
use crate::opt::utils::{first_idx, is_first, lemma_first_idx, 
    copy_vec, func_wf, in_func, lemma_visited_all, lemma_visited_block, lemma_visited_step, replace_bb_with,
    replace_variable, used_in_func, visited_before,
};

verus! {

/// The latest definition of a local variable: a value stored to it, or the
/// parameter of a block that stands for it.
#[derive(Debug, Clone, Copy, PartialEq, Eq, Structural)]
pub enum Def {
    Assign(usize),
    Argument(usize),
}

pub open spec fn def_below(d: Def, nv: int) -> bool {
    match d {
        Def::Assign(v) => v < nv,
        Def::Argument(v) => v < nv,
    }
}

/// The construction of static single assignment form for the local
/// variables of one function (those that hold an integer or a pointer):
/// their loads are replaced by the values last stored, with block parameters
/// where control flow merges. Blocks and variables are identified by number.
pub struct SsaBuilder {
    /// the predecessors of each block
    pub cfg: Vec<Vec<usize>>,
    /// the local variables, in the order they were found
    pub vars: Vec<usize>,
    /// `defs[k][b]`: the latest definition of `vars[k]` in block `b`
    pub defs: Vec<Vec<Option<Def>>>,
    /// each load of a local variable, with its block and the definition that replaces it
    pub replace_with: Vec<(usize, usize, Def)>,
    /// the variables that each block takes as parameters
    pub bb_params: Vec<Vec<usize>>,
    /// the blocks that have been scanned
    pub filled: Vec<bool>,
    /// for each block not yet sealed, the variables waiting for its predecessors
    pub incomplete: Vec<Vec<usize>>,
}

impl SsaBuilder {
    /// Whether the builder speaks of `nb` blocks and values below `nv` only.
    pub open spec fn inv(&self, nb: int, nv: int) -> bool {
        &&& self.cfg@.len() == nb
        &&& self.cfg_ok()
        &&& self.defs@.len() == self.vars@.len()
        &&& all_below(self.vars@, nv)
        &&& forall|k: int|
            0 <= k < self.defs@.len() ==> (#[trigger] self.defs@[k])@.len() == nb && forall|b: int|
                0 <= b < nb ==> (#[trigger] self.defs@[k]@[b] matches Some(d) ==> def_below(d, nv))
        &&& forall|j: int|
            0 <= j < self.replace_with@.len() ==> (#[trigger] self.replace_with@[j]).0 < nv && self.replace_with@[j].1
                < nb && def_below(self.replace_with@[j].2, nv)
        &&& self.bb_params@.len() == nb
        &&& forall|b: int| 0 <= b < nb ==> all_below(#[trigger] self.bb_params@[b]@, nv)
        &&& self.filled@.len() == nb
        &&& self.incomplete@.len() == nb
        &&& forall|b: int| 0 <= b < nb ==> all_below(#[trigger] self.incomplete@[b]@, nv)
        &&& forall|b: int, i: int|
            0 <= b < nb && 0 <= i < self.incomplete@[b]@.len() ==> self.vars@.contains(
                #[trigger] self.incomplete@[b]@[i],
            )
        &&& forall|b: int, i: int|
            0 <= b < nb && 0 <= i < self.bb_params@[b]@.len() ==> self.vars@.contains(
                #[trigger] self.bb_params@[b]@[i],
            )
    }

    /// Whether the predecessors are blocks that the builder knows.
    pub open spec fn cfg_ok(&self) -> bool {
        &&& forall|b: int| 0 <= b < self.cfg@.len() ==> all_below(#[trigger] self.cfg@[b]@, self.cfg@.len() as int)
        &&& self.filled@.len() == self.cfg@.len()
    }

    /// Whether `o` and `self` share the control flow and the variables found.
    pub open spec fn same_frame(&self, o: &SsaBuilder) -> bool {
        &&& self.cfg@ == o.cfg@
        &&& self.vars@ == o.vars@
        &&& self.filled@ == o.filled@
    }

    /// An empty builder for a program of `nb` blocks.
    pub fn new(nb: usize) -> (r: Self)
        ensures
            r.inv(nb as int, 0),
            r.vars@.len() == 0,
            r.replace_with@.len() == 0,
            forall|b: int| 0 <= b < nb ==> (#[trigger] r.cfg@[b])@.len() == 0 && !r.filled@[b] && r.bb_params@[b]@.len()
                == 0 && r.incomplete@[b]@.len() == 0,
    {
        let mut r = SsaBuilder {
            cfg: Vec::new(),
            vars: Vec::new(),
            defs: Vec::new(),
            replace_with: Vec::new(),
            bb_params: Vec::new(),
            filled: Vec::new(),
            incomplete: Vec::new(),
        };
        let mut b: usize = 0;
        while b < nb
            invariant
                b <= nb,
                r.cfg@.len() == b,
                r.bb_params@.len() == b,
                r.filled@.len() == b,
                r.incomplete@.len() == b,
                r.vars@.len() == 0,
                r.defs@.len() == 0,
                r.replace_with@.len() == 0,
                forall|c: int| 0 <= c < b ==> (#[trigger] r.cfg@[c])@.len() == 0,
                forall|c: int| 0 <= c < b ==> !(#[trigger] r.filled@[c]),
                forall|c: int| 0 <= c < b ==> (#[trigger] r.bb_params@[c])@.len() == 0,
                forall|c: int| 0 <= c < b ==> (#[trigger] r.incomplete@[c])@.len() == 0,
            decreases nb - b,
        {
            r.cfg.push(Vec::new());
            r.bb_params.push(Vec::new());
            r.filled.push(false);
            r.incomplete.push(Vec::new());
            b = b + 1;
        }
        proof {
            assert forall|c: int| 0 <= c < nb implies all_below(#[trigger] r.cfg@[c]@, nb as int) && all_below(
                r.bb_params@[c]@,
                0,
            ) && all_below(r.incomplete@[c]@, 0) by {
                assert(r.cfg@[c]@.len() == 0);
                assert(r.bb_params@[c]@.len() == 0);
                assert(r.incomplete@[c]@.len() == 0);
            }
            assert forall|c: int| 0 <= c < nb implies all_below(#[trigger] r.bb_params@[c]@, 0) by {
                assert(r.bb_params@[c]@.len() == 0);
            }
            assert forall|c: int| 0 <= c < nb implies all_below(#[trigger] r.incomplete@[c]@, 0) by {
                assert(r.incomplete@[c]@.len() == 0);
            }
        }
        r
    }
}

/// The blocks of `lay` before position `n` whose instructions jump or branch
/// to `bb`, once for each such instruction, in order.
pub open spec fn preds_upto(p: Program, lay: Seq<usize>, bb: usize, n: int) -> Seq<usize>
    decreases n,
{
    if n <= 0 {
        Seq::empty()
    } else {
        preds_upto(p, lay, bb, n - 1) + hits(p, lay[n - 1], bb, p.blocks@[lay[n - 1] as int].insts@.len() as int)
    }
}

/// Block `b` once for each of its first `m` instructions that jumps or branches to `bb`.
pub open spec fn hits(p: Program, b: usize, bb: usize, m: int) -> Seq<usize>
    decreases m,
{
    if m <= 0 {
        Seq::empty()
    } else if targets(p.values@[p.blocks@[b as int].insts@[m - 1] as int].kind, bb) {
        hits(p, b, bb, m - 1).push(b)
    } else {
        hits(p, b, bb, m - 1)
    }
}

/// The predecessors of `bb` in function `f`.
pub open spec fn preds_of(p: Program, f: usize, bb: usize) -> Seq<usize> {
    let lay = p.funcs@[f as int].layout@;
    preds_upto(p, lay, bb, lay.len() as int)
}

proof fn lemma_hits_below(p: Program, b: usize, bb: usize, m: int, nb: int)
    requires
        b < nb,
    ensures
        all_below(hits(p, b, bb, m), nb),
    decreases m,
{
    if m > 0 {
        lemma_hits_below(p, b, bb, m - 1, nb);
    }
}

proof fn lemma_preds_below(p: Program, lay: Seq<usize>, bb: usize, n: int)
    requires
        0 <= n <= lay.len(),
        all_below(lay, p.blocks@.len() as int),
    ensures
        all_below(preds_upto(p, lay, bb, n), p.blocks@.len() as int),
    decreases n,
{
    if n > 0 {
        lemma_preds_below(p, lay, bb, n - 1);
        lemma_hits_below(p, lay[n - 1], bb, p.blocks@[lay[n - 1] as int].insts@.len() as int, p.blocks@.len() as int);
    }
}

/// The predecessors of `bb` in function `f`.
fn preds_exec(p: &Program, f: usize, bb: usize) -> (r: Vec<usize>)
    requires
        func_wf(*p, f),
    ensures
        r@ == preds_of(*p, f, bb),
        all_below(r@, p.blocks@.len() as int),
{
    let lay = &p.funcs[f].layout;
    proof {
        assert(all_below(lay@, p.blocks@.len() as int));
    }
    let mut r: Vec<usize> = Vec::new();
    let mut i: usize = 0;
    while i < lay.len()
        invariant
            func_wf(*p, f),
            *lay == p.funcs@[f as int].layout,
            all_below(lay@, p.blocks@.len() as int),
            i <= lay@.len(),
            r@ == preds_upto(*p, lay@, bb, i as int),
        decreases lay@.len() - i,
    {
        let b = lay[i];
        let insts = &p.blocks[b].insts;
        proof {
            assert(all_below(insts@, p.values@.len() as int));
        }
        let ghost before = r@;
        let mut j: usize = 0;
        while j < insts.len()
            invariant
                func_wf(*p, f),
                b < p.blocks@.len(),
                *insts == p.blocks@[b as int].insts,
                all_below(insts@, p.values@.len() as int),
                j <= insts@.len(),
                r@ == before + hits(*p, b, bb, j as int),
            decreases insts@.len() - j,
        {
            if targets_block(&p.values[insts[j]].kind, bb) {
                r.push(b);
            }
            proof {
                assert(r@ =~= before + hits(*p, b, bb, j + 1));
            }
            j = j + 1;
        }
        i = i + 1;
    }
    proof {
        lemma_preds_below(*p, lay@, bb, lay@.len() as int);
    }
    r
}

impl SsaBuilder {
    /// Records the predecessors of every block of the layout of function `f`.
    pub fn update_cfg(&mut self, p: &Program, f: usize)
        requires
            func_wf(*p, f),
            old(self).inv(p.blocks@.len() as int, p.values@.len() as int),
        ensures
            final(self).inv(p.blocks@.len() as int, p.values@.len() as int),
            final(self).vars@ == old(self).vars@,
            final(self).filled@ == old(self).filled@,
            final(self).replace_with@ == old(self).replace_with@,
            final(self).bb_params@ == old(self).bb_params@,
            forall|b: int|
                0 <= b < p.blocks@.len() ==> (#[trigger] final(self).cfg@[b])@ == if p.funcs@[f as int].layout@.contains(
                    b as usize,
                ) {
                    preds_of(*p, f, b as usize)
                } else {
                    Seq::empty()
                },
    {
        let nb = p.blocks.len();
        let mut cfg: Vec<Vec<usize>> = Vec::new();
        let mut b: usize = 0;
        while b < nb
            invariant
                func_wf(*p, f),
                nb == p.blocks@.len(),
                b <= nb,
                cfg@.len() == b,
                forall|c: int| 0 <= c < b ==> (#[trigger] cfg@[c])@.len() == 0,
            decreases nb - b,
        {
            cfg.push(Vec::new());
            b = b + 1;
        }
        let lay = &p.funcs[f].layout;
        proof {
            assert(all_below(lay@, nb as int));
        }
        let mut i: usize = 0;
        while i < lay.len()
            invariant
                func_wf(*p, f),
                nb == p.blocks@.len(),
                *lay == p.funcs@[f as int].layout,
                all_below(lay@, nb as int),
                i <= lay@.len(),
                cfg@.len() == nb,
                forall|c: int|
                    0 <= c < nb ==> (#[trigger] cfg@[c])@ == if lay@.subrange(0, i as int).contains(c as usize) {
                        preds_of(*p, f, c as usize)
                    } else {
                        Seq::empty()
                    },
            decreases lay@.len() - i,
        {
            let bb = lay[i];
            let ps = preds_exec(p, f, bb);
            let ghost c0 = cfg@;
            cfg.set(bb, ps);
            proof {
                assert forall|c: int|
                    0 <= c < nb implies (#[trigger] cfg@[c])@ == if lay@.subrange(0, i + 1).contains(c as usize) {
                        preds_of(*p, f, c as usize)
                    } else {
                        Seq::empty()
                    } by {
                    let cu = c as usize;
                    assert(cu as int == c);
                    if c == bb {
                        assert(lay@.subrange(0, i + 1)[i as int] == bb);
                    } else {
                        assert(cfg@[c] == c0[c]);
                        let s1 = lay@.subrange(0, i as int);
                        let s2 = lay@.subrange(0, i + 1);
                        if s2.contains(cu) {
                            let x = choose|x: int| 0 <= x < s2.len() && #[trigger] s2[x] == cu;
                            assert(x < i);
                            assert(s1[x] == cu);
                        }
                        if s1.contains(cu) {
                            let x = choose|x: int| 0 <= x < s1.len() && #[trigger] s1[x] == cu;
                            assert(s2[x] == cu);
                        }
                    }
                }
            }
            i = i + 1;
        }
        proof {
            assert(lay@.subrange(0, lay@.len() as int) =~= lay@);
            assert forall|c: int| 0 <= c < nb implies all_below(#[trigger] cfg@[c]@, nb as int) by {
                if lay@.contains(c as usize) {
                    lemma_preds_below(*p, lay@, c as usize, lay@.len() as int);
                }
            }
        }
        self.cfg = cfg;
    }
}


impl SsaBuilder {
    /// Whether every predecessor of `bb` has been scanned.
    pub open spec fn sealed(&self, bb: int) -> bool {
        forall|i: int| 0 <= i < self.cfg@[bb]@.len() ==> self.filled@[#[trigger] self.cfg@[bb]@[i] as int]
    }

    /// Whether every predecessor of `bb` has been scanned.
    pub fn is_sealed(&self, bb: usize) -> (r: bool)
        requires
            self.cfg_ok(),
            bb < self.cfg@.len(),
        ensures
            r == self.sealed(bb as int),
    {
        let preds = &self.cfg[bb];
        let mut i: usize = 0;
        while i < preds.len()
            invariant
                self.cfg_ok(),
                bb < self.cfg@.len(),
                *preds == self.cfg@[bb as int],
                i <= preds@.len(),
                forall|j: int| 0 <= j < i ==> self.filled@[#[trigger] self.cfg@[bb as int]@[j] as int],
            decreases preds@.len() - i,
        {
            assert(all_below(self.cfg@[bb as int]@, self.cfg@.len() as int));
            if !self.filled[preds[i]] {
                return false;
            }
            i = i + 1;
        }
        true
    }

    /// The position of `v` among the variables.
    pub fn var_index(&self, v: usize) -> (r: Option<usize>)
        ensures
            match r {
                Some(k) => k < self.vars@.len() && self.vars@[k as int] == v,
                None => !self.vars@.contains(v),
            },
    {
        let mut k: usize = 0;
        while k < self.vars.len()
            invariant
                k <= self.vars@.len(),
                forall|j: int| 0 <= j < k ==> self.vars@[j] != v,
            decreases self.vars@.len() - k,
        {
            if self.vars[k] == v {
                return Some(k);
            }
            k = k + 1;
        }
        None
    }
}

impl SsaBuilder {
    proof fn lemma_set_def(old: SsaBuilder, new: SsaBuilder, k: int, bb: int, d: Def, nb: int, nv: int)
        requires
            old.inv(nb, nv),
            0 <= k < old.vars@.len(),
            0 <= bb < nb,
            def_below(d, nv),
            new.defs@ == old.defs@.update(k, new.defs@[k]),
            new.defs@[k]@ == old.defs@[k]@.update(bb, Some(d)),
            new.cfg@ == old.cfg@,
            new.vars@ == old.vars@,
            new.replace_with@ == old.replace_with@,
            new.bb_params@ == old.bb_params@,
            new.filled@ == old.filled@,
            new.incomplete@ == old.incomplete@,
        ensures
            new.inv(nb, nv),
    {
        assert forall|k2: int| 0 <= k2 < new.defs@.len() implies (#[trigger] new.defs@[k2])@.len() == nb && forall|b: int|
            0 <= b < nb ==> (#[trigger] new.defs@[k2]@[b] matches Some(d2) ==> def_below(d2, nv)) by {
            if k2 != k {
                assert(new.defs@[k2] == old.defs@[k2]);
            }
        }
    }

    /// The definition of variable `vars[k]` that reaches the end of block
    /// `bb`: the latest one there, or else the one its predecessors give.
    /// `fuel` bounds how deep predecessors are followed.
    fn read_variable(&mut self, p: &Program, k: usize, bb: usize, fuel: usize) -> (r: Def)
        requires
            old(self).inv(p.blocks@.len() as int, p.values@.len() as int),
            k < old(self).vars@.len(),
            bb < p.blocks@.len(),
        ensures
            final(self).inv(p.blocks@.len() as int, p.values@.len() as int),
            final(self).same_frame(old(self)),
            final(self).replace_with@ == old(self).replace_with@,
            def_below(r, p.values@.len() as int),
            forall|b: int| 0 <= b < p.blocks@.len() && old(self).sealed(b) ==> #[trigger] final(self).incomplete@[b] == old(self).incomplete@[b],
            forall|k2: int| 0 <= k2 < old(self).defs@.len() && k2 != k ==> #[trigger] final(self).defs@[k2] == old(self).defs@[k2],
            old(self).defs@[k as int]@[bb as int] matches Some(d) ==> r == d && *final(self) == *old(self),
        decreases fuel, 1int,
    {
        assert(self.defs@[k as int]@.len() == p.blocks@.len());
        match self.defs[k][bb] {
            Some(d) => d,
            None => self.read_variable_recur(p, k, bb, fuel),
        }
    }

    fn read_variable_recur(&mut self, p: &Program, k: usize, bb: usize, fuel: usize) -> (r: Def)
        requires
            old(self).inv(p.blocks@.len() as int, p.values@.len() as int),
            k < old(self).vars@.len(),
            bb < p.blocks@.len(),
        ensures
            final(self).inv(p.blocks@.len() as int, p.values@.len() as int),
            final(self).same_frame(old(self)),
            final(self).replace_with@ == old(self).replace_with@,
            def_below(r, p.values@.len() as int),
            forall|b: int| 0 <= b < p.blocks@.len() && old(self).sealed(b) ==> #[trigger] final(self).incomplete@[b] == old(self).incomplete@[b],
            forall|k2: int| 0 <= k2 < old(self).defs@.len() && k2 != k ==> #[trigger] final(self).defs@[k2] == old(self).defs@[k2],
        decreases fuel, 0int,
    {
        let ghost nb = p.blocks@.len() as int;
        let ghost nv = p.values@.len() as int;
        let ghost o = *self;
        let var = self.vars[k];
        assert(var < nv);
        let preds = copy_vec(&self.cfg[bb]);
        assert(all_below(preds@, nb));
        let def = if !self.is_sealed(bb) {
            let ghost s0 = *self;
            self.incomplete[bb].push(var);
            self.bb_params[bb].push(var);
            proof {
                assert forall|b: int| 0 <= b < nb implies all_below(#[trigger] self.incomplete@[b]@, nv) by {
                    if b != bb {
                        assert(self.incomplete@[b] == s0.incomplete@[b]);
                    }
                }
                assert forall|b: int| 0 <= b < nb implies all_below(#[trigger] self.bb_params@[b]@, nv) by {
                    if b != bb {
                        assert(self.bb_params@[b] == s0.bb_params@[b]);
                    }
                }
                assert forall|b: int, i: int|
                    0 <= b < nb && 0 <= i < self.incomplete@[b]@.len() implies self.vars@.contains(
                        #[trigger] self.incomplete@[b]@[i],
                    ) by {
                    if b != bb {
                        assert(self.incomplete@[b] == s0.incomplete@[b]);
                    } else if i < s0.incomplete@[b]@.len() {
                        assert(self.incomplete@[b]@[i] == s0.incomplete@[b]@[i]);
                    } else {
                        assert(self.vars@[k as int] == var);
                    }
                }
                assert forall|b: int, i: int|
                    0 <= b < nb && 0 <= i < self.bb_params@[b]@.len() implies self.vars@.contains(
                        #[trigger] self.bb_params@[b]@[i],
                    ) by {
                    if b != bb {
                        assert(self.bb_params@[b] == s0.bb_params@[b]);
                    } else if i < s0.bb_params@[b]@.len() {
                        assert(self.bb_params@[b]@[i] == s0.bb_params@[b]@[i]);
                    } else {
                        assert(self.vars@[k as int] == var);
                    }
                }
            }
            Def::Argument(var)
        } else if preds.len() == 1 {
            if fuel == 0 {
                Def::Argument(var)
            } else {
                self.read_variable(p, k, preds[0], fuel - 1)
            }
        } else {
            let ghost s0 = *self;
            self.bb_params[bb].push(var);
            proof {
                assert forall|b: int| 0 <= b < nb implies all_below(#[trigger] self.bb_params@[b]@, nv) by {
                    if b != bb {
                        assert(self.bb_params@[b] == s0.bb_params@[b]);
                    }
                }
                assert forall|b: int, i: int|
                    0 <= b < nb && 0 <= i < self.bb_params@[b]@.len() implies self.vars@.contains(
                        #[trigger] self.bb_params@[b]@[i],
                    ) by {
                    if b != bb {
                        assert(self.bb_params@[b] == s0.bb_params@[b]);
                    } else if i < s0.bb_params@[b]@.len() {
                        assert(self.bb_params@[b]@[i] == s0.bb_params@[b]@[i]);
                    } else {
                        assert(self.vars@[k as int] == var);
                    }
                }
            }
            let ghost s1 = *self;
            self.defs[k].set(bb, Some(Def::Argument(var)));
            proof {
                Self::lemma_set_def(s1, *self, k as int, bb as int, Def::Argument(var), nb, nv);
            }
            let mut i: usize = 0;
            while i < preds.len()
                invariant
                    self.inv(nb, nv),
                    nb == p.blocks@.len(),
                    nv == p.values@.len(),
                    self.same_frame(&o),
                    self.replace_with@ == o.replace_with@,
                    k < self.vars@.len(),
                    all_below(preds@, nb),
                    i <= preds@.len(),
                    forall|b: int| 0 <= b < nb && o.sealed(b) ==> #[trigger] self.incomplete@[b] == o.incomplete@[b],
                    forall|k2: int| 0 <= k2 < o.defs@.len() && k2 != k ==> #[trigger] self.defs@[k2] == o.defs@[k2],
                    self.defs@.len() == o.defs@.len(),
                decreases preds@.len() - i,
            {
                if fuel > 0 {
                    self.read_variable(p, k, preds[i], fuel - 1);
                }
                i = i + 1;
            }
            Def::Argument(var)
        };
        let ghost s2 = *self;
        assert(self.defs@[k as int]@.len() == nb);
        self.defs[k].set(bb, Some(def));
        proof {
            Self::lemma_set_def(s2, *self, k as int, bb as int, def, nb, nv);
        }
        def
    }
}

/// Whether a local allocation of type `t` holds a variable that the
/// construction follows: a pointer to an integer or to a pointer.
pub open spec fn tracked_ty(t: IrType) -> bool {
    t matches IrType::Pointer(base) && (*base is Int32 || *base is Pointer)
}

fn is_tracked_ty(t: &IrType) -> (r: bool)
    ensures
        r == tracked_ty(*t),
{
    match t {
        IrType::Pointer(base) => match &**base {
            IrType::Int32 => true,
            IrType::Pointer(_) => true,
            _ => false,
        },
        _ => false,
    }
}

fn nones(n: usize) -> (r: Vec<Option<Def>>)
    ensures
        r@.len() == n,
        forall|b: int| 0 <= b < n ==> r@[b] is None,
{
    let mut r: Vec<Option<Def>> = Vec::new();
    while r.len() < n
        invariant
            r@.len() <= n,
            forall|b: int| 0 <= b < r@.len() ==> r@[b] is None,
        decreases n - r@.len(),
    {
        r.push(None);
    }
    r
}

/// Whether every local allocation of function `f` has a pointer type.
pub open spec fn allocs_typed(p: Program, f: usize) -> bool {
    forall|v: usize|
        v < p.values@.len() && #[trigger] in_func(p, f, v) && p.values@[v as int].kind is Alloc
            ==> p.values@[v as int].ty is Pointer
}

/// Tells whether every local allocation of function `f` has a pointer type.
pub fn check_allocs_typed(p: &Program, f: usize) -> (r: bool)
    requires
        p.wf(),
        f < p.funcs@.len(),
    ensures
        r == allocs_typed(*p, f),
{
    let lay = &p.funcs[f].layout;
    let mut b: usize = 0;
    while b < lay.len()
        invariant
            p.wf(),
            f < p.funcs@.len(),
            *lay == p.funcs@[f as int].layout,
            b <= lay@.len(),
            forall|x: int, v: usize|
                0 <= x < b && v < p.values@.len() && #[trigger] p.blocks@[lay@[x] as int].insts@.contains(v)
                    && p.values@[v as int].kind is Alloc ==> p.values@[v as int].ty is Pointer,
        decreases lay@.len() - b,
    {
        assert(lay@[b as int] < p.blocks@.len());
        let insts = &p.blocks[lay[b]].insts;
        let mut i: usize = 0;
        while i < insts.len()
            invariant
                p.wf(),
                f < p.funcs@.len(),
                *lay == p.funcs@[f as int].layout,
                b < lay@.len(),
                *insts == p.blocks@[lay@[b as int] as int].insts,
                i <= insts@.len(),
                forall|k: int|
                    0 <= k < i && p.values@[insts@[k] as int].kind is Alloc ==> p.values@[insts@[k] as int].ty is Pointer,
            decreases insts@.len() - i,
        {
            let v = insts[i];
            assert(v < p.values@.len());
            let d = &p.values[v];
            if let ValueKind::Alloc = d.kind {
                let pointer = match &d.ty {
                    IrType::Pointer(_) => true,
                    _ => false,
                };
                if !pointer {
                    proof {
                        assert(in_func(*p, f, v)) by {
                            assert(p.blocks@[lay@[b as int] as int].insts@.contains(v));
                        }
                    }
                    return false;
                }
            }
            i = i + 1;
        }
        proof {
            assert forall|x: int, v: usize|
                0 <= x <= b && v < p.values@.len() && #[trigger] p.blocks@[lay@[x] as int].insts@.contains(v)
                    && p.values@[v as int].kind is Alloc implies p.values@[v as int].ty is Pointer by {
                if x == b {
                    let k = choose|k: int| 0 <= k < insts@.len() && insts@[k] == v;
                }
            }
        }
        b = b + 1;
    }
    true
}

impl SsaBuilder {
    /// Reads the variables that wait for the predecessors of each block whose
    /// predecessors have all been scanned, in order of the blocks.
    fn try_seal(&mut self, p: &Program, fuel: usize)
        requires
            old(self).inv(p.blocks@.len() as int, p.values@.len() as int),
        ensures
            final(self).inv(p.blocks@.len() as int, p.values@.len() as int),
            final(self).same_frame(old(self)),
            final(self).replace_with@ == old(self).replace_with@,
            forall|b: int| 0 <= b < p.blocks@.len() && old(self).sealed(b) ==> #[trigger] final(self).incomplete@[b]@.len() == 0,
    {
        let ghost nb = p.blocks@.len() as int;
        let ghost nv = p.values@.len() as int;
        let ghost o = *self;
        let n = self.incomplete.len();
        let mut bb: usize = 0;
        while bb < n
            invariant
                self.inv(nb, nv),
                nb == p.blocks@.len(),
                nv == p.values@.len(),
                n == nb,
                self.same_frame(&o),
                self.replace_with@ == o.replace_with@,
                bb <= n,
                forall|b: int| 0 <= b < bb && o.sealed(b) ==> #[trigger] self.incomplete@[b]@.len() == 0,
            decreases n - bb,
        {
            if self.incomplete[bb].len() > 0 && self.is_sealed(bb) {
                let vs = copy_vec(&self.incomplete[bb]);
                let preds = copy_vec(&self.cfg[bb]);
                assert(all_below(preds@, nb));
                let mut i: usize = 0;
                while i < vs.len()
                    invariant
                        self.inv(nb, nv),
                        nb == p.blocks@.len(),
                        nv == p.values@.len(),
                        n == nb,
                        bb < n,
                        self.same_frame(&o),
                        self.replace_with@ == o.replace_with@,
                        all_below(preds@, nb),
                        i <= vs@.len(),
                        forall|b: int| 0 <= b < bb && o.sealed(b) ==> #[trigger] self.incomplete@[b]@.len() == 0,
                        o.sealed(bb as int),
                    decreases vs@.len() - i,
                {
                    match self.var_index(vs[i]) {
                        Some(k) => {
                            let mut j: usize = 0;
                            while j < preds.len()
                                invariant
                                    self.inv(nb, nv),
                                    nb == p.blocks@.len(),
                                    nv == p.values@.len(),
                                    self.same_frame(&o),
                                    self.replace_with@ == o.replace_with@,
                                    all_below(preds@, nb),
                                    k < self.vars@.len(),
                                    j <= preds@.len(),
                                    forall|b: int| 0 <= b < bb && o.sealed(b) ==> #[trigger] self.incomplete@[b]@.len() == 0,
                                    bb < nb,
                                decreases preds@.len() - j,
                            {
                                self.read_variable(p, k, preds[j], fuel);
                                j = j + 1;
                            }
                        },
                        None => {},
                    }
                    i = i + 1;
                }
                let ghost s0 = *self;
                self.incomplete.set(bb, Vec::new());
                proof {
                    assert forall|b: int| 0 <= b < nb implies all_below(#[trigger] self.incomplete@[b]@, nv) by {
                        if b != bb {
                            assert(self.incomplete@[b] == s0.incomplete@[b]);
                        }
                    }
                    assert forall|b: int, i2: int|
                        0 <= b < nb && 0 <= i2 < self.incomplete@[b]@.len() implies self.vars@.contains(
                            #[trigger] self.incomplete@[b]@[i2],
                        ) by {
                        assert(b != bb);
                        assert(self.incomplete@[b] == s0.incomplete@[b]);
                    }
                }
            }
            bb = bb + 1;
        }
    }
}

/// Whether the builder's variables are allocations of function `f` and its
/// loads to replace are loads of them, each in its block of the layout.
pub open spec fn found_ok(b: SsaBuilder, p: Program, f: usize) -> bool {
    let lay = p.funcs@[f as int].layout@;
    &&& forall|k: int|
        0 <= k < b.vars@.len() ==> in_func(p, f, #[trigger] b.vars@[k]) && p.values@[b.vars@[k] as int].kind is Alloc
            && tracked_ty(p.values@[b.vars@[k] as int].ty)
    &&& forall|j: int|
        0 <= j < b.replace_with@.len() ==> {
            let (l, bb, _) = #[trigger] b.replace_with@[j];
            &&& lay.contains(bb)
            &&& p.blocks@[bb as int].insts@.contains(l)
            &&& p.values@[l as int].kind matches ValueKind::Load(src) && b.vars@.contains(src)
        }
}

/// Whether position `t` of block `bb` holds the last store to the variable
/// `x` before position `j`, of a value that is not itself a load.
pub open spec fn last_store_before(p: Program, bb: usize, j: int, t: int, x: usize) -> bool {
    let insts = p.blocks@[bb as int].insts@;
    &&& 0 <= t < j <= insts.len()
    &&& p.values@[insts[t] as int].kind matches ValueKind::Store(v, d) && d == x && !(p.values@[v as int].kind is Load)
    &&& forall|t2: int|
        t < t2 < j ==> !(p.values@[#[trigger] insts[t2] as int].kind matches ValueKind::Store(_, d2) && d2 == x)
}

/// The value stored by the instruction at position `t` of block `bb`.
pub open spec fn stored_at(p: Program, bb: usize, t: int) -> usize {
    p.values@[p.blocks@[bb as int].insts@[t] as int].kind->Store_0
}

/// Whether each load that `b` records to replace reads the last store to
/// its variable before it in its block, where there is one whose variable
/// was found before it: the load is then replaced by the stored value.
pub open spec fn loads_read_last_store(b: SsaBuilder, p: Program, f: usize) -> bool {
    let lay = p.funcs@[f as int].layout@;
    forall|r: int, bi: int, j: int, t: int, x: usize|
        #![trigger b.replace_with@[r], last_store_before(p, lay[bi], j, t, x)]
        0 <= r < b.replace_with@.len() && 0 <= bi < lay.len() && lay[bi] == b.replace_with@[r].1
            && 0 <= j < p.blocks@[lay[bi] as int].insts@.len() && p.blocks@[lay[bi] as int].insts@[j] == b.replace_with@[r].0
            && p.values@[b.replace_with@[r].0 as int].kind == ValueKind::Load(x) && last_store_before(p, lay[bi], j, t, x)
            && visited_before(p, f, bi, t, x) ==> b.replace_with@[r].2 == Def::Assign(stored_at(p, lay[bi], t))
}

/// What the scan keeps at position `j` of the block at position `i` of the
/// layout: every tracked allocation met so far is a variable, every
/// variable was met, no variable twice, the latest definition in the block
/// of each variable is its last store, and the recorded loads read them.
pub open spec fn walk_state(b: SsaBuilder, p: Program, f: usize, i: int, j: int) -> bool {
    let bb = p.funcs@[f as int].layout@[i];
    &&& forall|x: usize|
        #[trigger] visited_before(p, f, i, j, x) && x < p.values@.len() && p.values@[x as int].kind is Alloc && tracked_ty(
            p.values@[x as int].ty,
        ) ==> b.vars@.contains(x)
    &&& forall|k: int| 0 <= k < b.vars@.len() ==> visited_before(p, f, i, j, #[trigger] b.vars@[k])
    &&& forall|k1: int, k2: int| 0 <= k1 < k2 < b.vars@.len() ==> b.vars@[k1] != b.vars@[k2]
    &&& forall|k: int, t: int|
        0 <= k < b.vars@.len() && #[trigger] last_store_before(p, bb, j, t, b.vars@[k]) && visited_before(
            p,
            f,
            i,
            t,
            b.vars@[k],
        ) ==> b.defs@[k]@[bb as int] == Some(Def::Assign(stored_at(p, bb, t)))
    &&& loads_read_last_store(b, p, f)
}

/// Whether `s1` is `s0` with the load `val` of variable `x` (number `ks`)
/// in block `bb` recorded to be replaced by `d`, the latest definition of
/// the variable in the block where there is one.
pub open spec fn records_load(s0: SsaBuilder, s1: SsaBuilder, val: usize, bb: usize, x: usize, ks: int, d: Def) -> bool {
    &&& 0 <= ks < s0.vars@.len()
    &&& s0.vars@[ks] == x
    &&& s1.replace_with@ == s0.replace_with@.push((val, bb, d))
    &&& s0.defs@[ks]@[bb as int] matches Some(dd) ==> d == dd
}

/// Ending the scan of the block at position `i` of the layout, with the
/// variables and the recorded loads unchanged, starts the next block in
/// the same state.
proof fn lemma_walk_next_block(s0: SsaBuilder, s1: SsaBuilder, p: Program, f: usize, i: int)
    requires
        0 <= i < p.funcs@[f as int].layout@.len(),
        walk_state(s0, p, f, i, p.blocks@[p.funcs@[f as int].layout@[i] as int].insts@.len() as int),
        s1.vars@ == s0.vars@,
        s1.replace_with@ == s0.replace_with@,
    ensures
        walk_state(s1, p, f, i + 1, 0),
{
    lemma_visited_block(p, f, i);
    let n = p.blocks@[p.funcs@[f as int].layout@[i] as int].insts@.len() as int;
    assert forall|k: int| 0 <= k < s1.vars@.len() implies visited_before(p, f, i + 1, 0, #[trigger] s1.vars@[k]) by {
        assert(visited_before(p, f, i, n, s0.vars@[k]));
    }
    assert forall|x: usize|
        #[trigger] visited_before(p, f, i + 1, 0, x) && x < p.values@.len() && p.values@[x as int].kind is Alloc
            && tracked_ty(p.values@[x as int].ty) implies s1.vars@.contains(x) by {
        assert(visited_before(p, f, i, n, x));
    }
}

/// A position in a block met before an earlier position was met before it.
proof fn lemma_visited_mono(p: Program, f: usize, i: int, t: int, j: int, x: usize)
    requires
        0 <= i < p.funcs@[f as int].layout@.len(),
        0 <= t <= j <= p.blocks@[p.funcs@[f as int].layout@[i] as int].insts@.len(),
        visited_before(p, f, i, t, x),
    ensures
        visited_before(p, f, i, j, x),
{
    let lay = p.funcs@[f as int].layout@;
    let insts = p.blocks@[lay[i] as int].insts@;
    if insts.subrange(0, t).contains(x) {
        let q = choose|q: int| 0 <= q < t && insts.subrange(0, t)[q] == x;
        assert(insts.subrange(0, j)[q] == x);
    }
}

/// The scan of one instruction keeps `walk_state`, given what the
/// instruction did to the builder: a tracked allocation becomes a
/// variable; the latest definition of a variable in the block changes only
/// where the instruction stores to it, and then is the stored value where
/// that is not a load; a load records the latest definition of its variable.
proof fn lemma_walk_step(s0: SsaBuilder, s1: SsaBuilder, p: Program, f: usize, i: int, j: int)
    requires
        func_wf(p, f),
        0 <= i < p.funcs@[f as int].layout@.len(),
        0 <= j < p.blocks@[p.funcs@[f as int].layout@[i] as int].insts@.len(),
        walk_state(s0, p, f, i, j),
        s0.inv(p.blocks@.len() as int, p.values@.len() as int),
        s1.inv(p.blocks@.len() as int, p.values@.len() as int),
        ({
            let val = p.blocks@[p.funcs@[f as int].layout@[i] as int].insts@[j];
            let bb = p.funcs@[f as int].layout@[i];
            &&& if p.values@[val as int].kind is Alloc && tracked_ty(p.values@[val as int].ty) {
                s1.vars@ == s0.vars@.push(val)
            } else {
                s1.vars@ == s0.vars@
            }
            &&& forall|k: int|
                0 <= k < s0.vars@.len() && (#[trigger] s0.defs@[k])@[bb as int] is Some && !(
                p.values@[val as int].kind matches ValueKind::Store(_, d) && d == s0.vars@[k]) ==> s1.defs@[k]@[bb as int]
                    == s0.defs@[k]@[bb as int]
            &&& forall|k: int|
                0 <= k < s0.vars@.len() && (p.values@[val as int].kind matches ValueKind::Store(v, d) && d
                    == #[trigger] s0.vars@[k] && !(p.values@[v as int].kind is Load)) ==> s1.defs@[k]@[bb as int] == Some(
                    Def::Assign(p.values@[val as int].kind->Store_0),
                )
            &&& s1.replace_with@ == s0.replace_with@ || (p.values@[val as int].kind matches ValueKind::Load(x) && exists|
                ks: int,
                d: Def,
            | #[trigger] records_load(s0, s1, val, bb, x, ks, d))
        }),
    ensures
        walk_state(s1, p, f, i, j + 1),
{
    let lay = p.funcs@[f as int].layout@;
    let bb = lay[i];
    let insts = p.blocks@[bb as int].insts@;
    let val = insts[j];
    lemma_visited_step(p, f, i, j);
    let nb = p.blocks@.len() as int;
    // the variables met
    assert forall|x: usize|
        #[trigger] visited_before(p, f, i, j + 1, x) && x < p.values@.len() && p.values@[x as int].kind is Alloc
            && tracked_ty(p.values@[x as int].ty) implies s1.vars@.contains(x) by {
        if x == val {
            assert(s1.vars@[s0.vars@.len() as int] == val);
        } else {
            assert(visited_before(p, f, i, j, x));
            let q = choose|q: int| 0 <= q < s0.vars@.len() && s0.vars@[q] == x;
            assert(s1.vars@[q] == x);
        }
    }
    assert forall|k: int| 0 <= k < s1.vars@.len() implies visited_before(p, f, i, j + 1, #[trigger] s1.vars@[k]) by {
        if k < s0.vars@.len() {
            assert(s1.vars@[k] == s0.vars@[k]);
            assert(visited_before(p, f, i, j, s0.vars@[k]));
        }
    }
    assert forall|k1: int, k2: int| 0 <= k1 < k2 < s1.vars@.len() implies s1.vars@[k1] != s1.vars@[k2] by {
        if k2 >= s0.vars@.len() {
            assert(s1.vars@[k1] == s0.vars@[k1]);
            assert(visited_before(p, f, i, j, s0.vars@[k1]));
        } else {
            assert(s1.vars@[k1] == s0.vars@[k1] && s1.vars@[k2] == s0.vars@[k2]);
        }
    }
    // the latest definitions in the block
    assert forall|k: int, t: int|
        0 <= k < s1.vars@.len() && #[trigger] last_store_before(p, bb, j + 1, t, s1.vars@[k]) && visited_before(
            p,
            f,
            i,
            t,
            s1.vars@[k],
        ) implies s1.defs@[k]@[bb as int] == Some(Def::Assign(stored_at(p, bb, t))) by {
        let x = s1.vars@[k];
        if k >= s0.vars@.len() {
            assert(x == val);
            lemma_visited_mono(p, f, i, t, j, x);
        } else {
            assert(x == s0.vars@[k]);
            if t == j {
                assert(stored_at(p, bb, t) == p.values@[val as int].kind->Store_0);
            } else {
                assert(last_store_before(p, bb, j, t, x)) by {
                    assert forall|t2: int| t < t2 < j implies !(p.values@[#[trigger] insts[t2] as int].kind matches ValueKind::Store(
                        _,
                        d2,
                    ) && d2 == x) by {
                        assert(t < t2 < j + 1);
                    }
                }
                assert(!(p.values@[insts[j] as int].kind matches ValueKind::Store(_, d2) && d2 == x)) by {
                    assert(t < j < j + 1);
                }
            }
        }
    }
    // the recorded loads
    assert(all_below(lay, nb));
    assert forall|r: int, bi: int, jj: int, t: int, x: usize|
        #![trigger s1.replace_with@[r], last_store_before(p, lay[bi], jj, t, x)]
        0 <= r < s1.replace_with@.len() && 0 <= bi < lay.len() && lay[bi] == s1.replace_with@[r].1
            && 0 <= jj < p.blocks@[lay[bi] as int].insts@.len() && p.blocks@[lay[bi] as int].insts@[jj] == s1.replace_with@[r].0
            && p.values@[s1.replace_with@[r].0 as int].kind == ValueKind::Load(x) && last_store_before(p, lay[bi], jj, t, x)
            && visited_before(p, f, bi, t, x) implies s1.replace_with@[r].2 == Def::Assign(stored_at(p, lay[bi], t)) by {
        if r < s0.replace_with@.len() {
            assert(s1.replace_with@[r] == s0.replace_with@[r]);
        } else {
            let (ks, d) = choose|ks: int, d: Def| #[trigger] records_load(s0, s1, val, bb, x, ks, d);
            assert(s1.replace_with@[r] == (val, bb, d));
            // the block and the position are those of the scan
            assert(bi == i) by {
                if bi != i {
                    assert(lay[bi] == lay[i]);
                }
            }
            assert(jj == j) by {
                if jj != j {
                    assert(insts[jj] == insts[j]);
                }
            }
            assert(last_store_before(p, bb, j, t, s0.vars@[ks]));
        }
    }
}

impl SsaBuilder {
    /// Scans the blocks of function `f` in order: finds its local variables,
    /// records the definition that each store makes and the one that each
    /// load reads, and seals the blocks whose predecessors are all scanned.
    pub fn walk_bbs(&mut self, p: &Program, f: usize)
        requires
            func_wf(*p, f),
            allocs_typed(*p, f),
            p.blocks@.len() < 0x1000_0000,
            old(self).inv(p.blocks@.len() as int, p.values@.len() as int),
            old(self).vars@.len() == 0,
            old(self).replace_with@.len() == 0,
        ensures
            final(self).inv(p.blocks@.len() as int, p.values@.len() as int),
            found_ok(*final(self), *p, f),
            loads_read_last_store(*final(self), *p, f),
            forall|b: int|
                0 <= b < p.blocks@.len() ==> (#[trigger] final(self).cfg@[b])@ == if p.funcs@[f as int].layout@.contains(
                    b as usize,
                ) {
                    preds_of(*p, f, b as usize)
                } else {
                    Seq::empty()
                },
    {
        let ghost nb = p.blocks@.len() as int;
        let ghost nv = p.values@.len() as int;
        self.update_cfg(p, f);
        let ghost cfg0 = self.cfg@;
        let fuel = p.blocks.len() + p.blocks.len() + 2;
        let lay = &p.funcs[f].layout;
        proof {
            assert(all_below(lay@, nb));
        }
        let mut i: usize = 0;
        proof {
            assert(walk_state(*self, *p, f, 0, 0));
        }
        while i < lay.len()
            invariant
                func_wf(*p, f),
                allocs_typed(*p, f),
                nb == p.blocks@.len(),
                nv == p.values@.len(),
                *lay == p.funcs@[f as int].layout,
                all_below(lay@, nb),
                i <= lay@.len(),
                self.inv(nb, nv),
                self.cfg@ == cfg0,
                found_ok(*self, *p, f),
                walk_state(*self, *p, f, i as int, 0),
            decreases lay@.len() - i,
        {
            let bb = lay[i];
            let insts = &p.blocks[bb].insts;
            proof {
                assert(all_below(insts@, nv));
            }
            let mut j: usize = 0;
            while j < insts.len()
                invariant
                    func_wf(*p, f),
                    allocs_typed(*p, f),
                    nb == p.blocks@.len(),
                    nv == p.values@.len(),
                    *lay == p.funcs@[f as int].layout,
                    i < lay@.len(),
                    bb == lay@[i as int],
                    bb < nb,
                    *insts == p.blocks@[bb as int].insts,
                    all_below(insts@, nv),
                    j <= insts@.len(),
                    self.inv(nb, nv),
                    self.cfg@ == cfg0,
                    found_ok(*self, *p, f),
                    walk_state(*self, *p, f, i as int, j as int),
                decreases insts@.len() - j,
            {
                let val = insts[j];
                let ghost s0 = *self;
                proof {
                    assert(insts@[j as int] == val);
                    assert(p.blocks@[lay@[i as int] as int].insts@.contains(val));
                    assert(in_func(*p, f, val));
                    assert(crate::ir::kind_ok(p.values@[val as int].kind, nv, nb, p.funcs@.len() as int));
                }
                match &p.values[val].kind {
                    ValueKind::Alloc => {
                        if is_tracked_ty(&p.values[val].ty) {
                            self.vars.push(val);
                            self.defs.push(nones(p.blocks.len()));
                            proof {
                                assert forall|k: int| 0 <= k < self.defs@.len() implies (#[trigger] self.defs@[k])@.len() == nb && forall|b: int|
                                    0 <= b < nb ==> (#[trigger] self.defs@[k]@[b] matches Some(d) ==> def_below(d, nv)) by {
                                    if k < s0.defs@.len() {
                                        assert(self.defs@[k] == s0.defs@[k]);
                                    }
                                }
                                assert forall|b: int, i2: int|
                                    0 <= b < nb && 0 <= i2 < self.incomplete@[b]@.len() implies self.vars@.contains(
                                        #[trigger] self.incomplete@[b]@[i2],
                                    ) by {
                                    let x = choose|x: int| 0 <= x < s0.vars@.len() && s0.vars@[x] == self.incomplete@[b]@[i2];
                                    assert(self.vars@[x] == s0.vars@[x]);
                                }
                                assert forall|b: int, i2: int|
                                    0 <= b < nb && 0 <= i2 < self.bb_params@[b]@.len() implies self.vars@.contains(
                                        #[trigger] self.bb_params@[b]@[i2],
                                    ) by {
                                    let x = choose|x: int| 0 <= x < s0.vars@.len() && s0.vars@[x] == self.bb_params@[b]@[i2];
                                    assert(self.vars@[x] == s0.vars@[x]);
                                }
                                assert forall|j2: int| 0 <= j2 < self.replace_with@.len() implies ({
                                    let (l, bb2, _) = #[trigger] self.replace_with@[j2];
                                    p.values@[l as int].kind matches ValueKind::Load(src) && self.vars@.contains(src)
                                }) by {
                                    let (l, bb2, _) = self.replace_with@[j2];
                                    if let ValueKind::Load(src) = p.values@[l as int].kind {
                                        let x = choose|x: int| 0 <= x < s0.vars@.len() && s0.vars@[x] == src;
                                        assert(self.vars@[x] == s0.vars@[x]);
                                    }
                                }
                                assert forall|k: int| 0 <= k < self.vars@.len() implies in_func(*p, f, #[trigger] self.vars@[k])
                                    && p.values@[self.vars@[k] as int].kind is Alloc by {
                                    if k < s0.vars@.len() {
                                        assert(self.vars@[k] == s0.vars@[k]);
                                    }
                                }
                            }
                        }
                    },
                    ValueKind::Store(v, dest) => {
                        match self.var_index(*dest) {
                            Some(kd) => {
                                let mut def = Def::Assign(*v);
                                let ghost mut read_k: int = -1;
                                if let ValueKind::Load(src) = &p.values[*v].kind {
                                    if let Some(ks) = self.var_index(*src) {
                                        def = self.read_variable(p, ks, bb, fuel);
                                        proof {
                                            read_k = ks as int;
                                        }
                                    }
                                }
                                let ghost s1 = *self;
                                assert(self.defs@[kd as int]@.len() == nb);
                                self.defs[kd].set(bb, Some(def));
                                proof {
                                    Self::lemma_set_def(s1, *self, kd as int, bb as int, def, nb, nv);
                                    assert(self.vars@ == s0.vars@);
                                    assert forall|k: int|
                                        0 <= k < s0.vars@.len() && (#[trigger] s0.defs@[k])@[bb as int] is Some && !(
                                        p.values@[val as int].kind matches ValueKind::Store(_, d) && d == s0.vars@[k])
                                        implies self.defs@[k]@[bb as int] == s0.defs@[k]@[bb as int] by {
                                        assert(k != kd);
                                        assert(self.defs@[k] == s1.defs@[k]);
                                        if k != read_k {
                                            assert(s1.defs@[k] == s0.defs@[k]);
                                        }
                                    }
                                    assert forall|k: int|
                                        0 <= k < s0.vars@.len() && (p.values@[val as int].kind matches ValueKind::Store(v2, d)
                                            && d == #[trigger] s0.vars@[k] && !(p.values@[v2 as int].kind is Load))
                                        implies self.defs@[k]@[bb as int] == Some(
                                        Def::Assign(p.values@[val as int].kind->Store_0),
                                    ) by {
                                        if k != kd {
                                            assert(s0.vars@[k] != s0.vars@[kd as int]);
                                        }
                                    }
                                }
                            },
                            None => {
                                proof {
                                    assert forall|k: int|
                                        0 <= k < s0.vars@.len() && (p.values@[val as int].kind matches ValueKind::Store(v2, d)
                                            && d == #[trigger] s0.vars@[k] && !(p.values@[v2 as int].kind is Load))
                                        implies self.defs@[k]@[bb as int] == Some(
                                        Def::Assign(p.values@[val as int].kind->Store_0),
                                    ) by {
                                        assert(s0.vars@.contains(s0.vars@[k]));
                                    }
                                }
                            },
                        }
                    },
                    ValueKind::Load(src) => {
                        match self.var_index(*src) {
                            Some(ks) => {
                                let def = self.read_variable(p, ks, bb, fuel);
                                let ghost s1 = *self;
                                self.replace_with.push((val, bb, def));
                                proof {
                                    assert(records_load(s0, *self, val, bb, *src, ks as int, def));
                                    assert forall|k: int|
                                        0 <= k < s0.vars@.len() && (#[trigger] s0.defs@[k])@[bb as int] is Some && !(
                                        p.values@[val as int].kind matches ValueKind::Store(_, d) && d == s0.vars@[k])
                                        implies self.defs@[k]@[bb as int] == s0.defs@[k]@[bb as int] by {
                                        if k != ks {
                                            assert(s1.defs@[k] == s0.defs@[k]);
                                        }
                                    }
                                }
                                proof {
                                    assert forall|j2: int| 0 <= j2 < self.replace_with@.len() implies (#[trigger] self.replace_with@[j2]).0
                                        < nv && self.replace_with@[j2].1 < nb && def_below(self.replace_with@[j2].2, nv) by {
                                        if j2 < s1.replace_with@.len() {
                                            assert(self.replace_with@[j2] == s1.replace_with@[j2]);
                                        }
                                    }
                                    let lay2 = p.funcs@[f as int].layout@;
                                    assert forall|j2: int| 0 <= j2 < self.replace_with@.len() implies ({
                                        let (l, bb2, _) = #[trigger] self.replace_with@[j2];
                                        &&& lay2.contains(bb2)
                                        &&& p.blocks@[bb2 as int].insts@.contains(l)
                                        &&& p.values@[l as int].kind matches ValueKind::Load(src) && self.vars@.contains(src)
                                    }) by {
                                        if j2 < s1.replace_with@.len() {
                                            assert(self.replace_with@[j2] == s1.replace_with@[j2]);
                                        } else {
                                            assert(lay2[i as int] == bb);
                                            assert(self.vars@[ks as int] == *src);
                                        }
                                    }
                                }
                            },
                            None => {},
                        }
                    },
                    _ => {},
                }
                proof {
                    lemma_walk_step(s0, *self, *p, f, i as int, j as int);
                }
                j = j + 1;
            }
            let ghost s2 = *self;
            self.filled.set(bb, true);
            self.try_seal(p, fuel);
            proof {
                lemma_walk_next_block(s2, *self, *p, f, i as int);
            }
            i = i + 1;
        }
    }
}

/// Adds a block with `n` parameters of type `i32`, no name and no
/// instructions; gives its number.
fn new_bb_with_params(p: &mut Program, n: usize) -> (r: usize)
    requires
        old(p).wf(),
    ensures
        final(p).wf(),
        r == old(p).blocks@.len(),
        final(p).blocks@.len() == r + 1,
        forall|b: int| 0 <= b < r ==> #[trigger] final(p).blocks@[b] == old(p).blocks@[b],
        final(p).blocks@[r as int].insts@.len() == 0,
        final(p).blocks@[r as int].params@.len() == n,
        final(p).values@.len() == old(p).values@.len() + n,
        forall|i: int| 0 <= i < old(p).values@.len() ==> #[trigger] final(p).values@[i] == old(p).values@[i],
        final(p).funcs@ == old(p).funcs@,
        final(p).inst_layout@ == old(p).inst_layout@,
{
    let ghost p0 = *p;
    let mut params: Vec<usize> = Vec::new();
    let mut i: usize = 0;
    while i < n
        invariant
            p0.wf(),
            i <= n,
            params@.len() == i,
            p.values@.len() == p0.values@.len() + i,
            forall|j: int| 0 <= j < i ==> (#[trigger] params@[j]) < p.values@.len(),
            forall|j: int| 0 <= j < p0.values@.len() ==> #[trigger] p.values@[j] == p0.values@[j],
            forall|j: int| p0.values@.len() <= j < p.values@.len() ==> (#[trigger] p.values@[j]).kind is BlockArgRef,
            p.blocks@ == p0.blocks@,
            p.funcs@ == p0.funcs@,
            p.inst_layout@ == p0.inst_layout@,
        decreases n - i,
    {
        params.push(p.values.len());
        p.values.push(ValueData { ty: IrType::Int32, name: None, kind: ValueKind::BlockArgRef(i) });
        i = i + 1;
    }
    p.blocks.push(BlockData { name: None, params, insts: Vec::new() });
    proof {
        let nv = p.values@.len() as int;
        let nb = p.blocks@.len() as int;
        let nf = p.funcs@.len() as int;
        assert forall|j: int| 0 <= j < nv implies kind_ok(#[trigger] p.values@[j].kind, nv, nb, nf) by {
            if j < p0.values@.len() {
                assert(kind_ok(p0.values@[j].kind, p0.values@.len() as int, p0.blocks@.len() as int, nf));
            }
        }
        assert forall|b: int| 0 <= b < nb implies all_below((#[trigger] p.blocks@[b]).params@, nv) && all_below(
            p.blocks@[b].insts@,
            nv,
        ) by {
            if b < p0.blocks@.len() {
                assert(all_below(p0.blocks@[b].params@, p0.values@.len() as int));
                assert(all_below(p0.blocks@[b].insts@, p0.values@.len() as int));
            }
        }
        assert forall|g: int| 0 <= g < nf implies all_below((#[trigger] p.funcs@[g]).params@, nv) && all_below(
            p.funcs@[g].layout@,
            nb,
        ) by {
            assert(all_below(p0.funcs@[g].params@, p0.values@.len() as int));
            assert(all_below(p0.funcs@[g].layout@, p0.blocks@.len() as int));
        }
        assert(all_below(p0.inst_layout@, p0.values@.len() as int));
    }
    p.blocks.len() - 1
}

/// Puts block `nbb` in the place of the block at position `pos` of the
/// layout of function `f`, with the instructions of that block, which keeps none.
fn move_block(p: &mut Program, f: usize, pos: usize, nbb: usize)
    requires
        func_wf(*old(p), f),
        pos < old(p).funcs@[f as int].layout@.len(),
        nbb < old(p).blocks@.len(),
        !old(p).funcs@[f as int].layout@.contains(nbb),
    ensures
        func_wf(*final(p), f),
        final(p).values@ == old(p).values@,
        final(p).blocks@.len() == old(p).blocks@.len(),
        final(p).funcs@.len() == old(p).funcs@.len(),
        final(p).funcs@[f as int].layout@ == old(p).funcs@[f as int].layout@.update(pos as int, nbb),
        final(p).blocks@[nbb as int].insts@ == old(p).blocks@[old(p).funcs@[f as int].layout@[pos as int] as int].insts@,
        final(p).blocks@[nbb as int].params@ == old(p).blocks@[nbb as int].params@,
        forall|v: usize| #[trigger] in_func(*final(p), f, v) == in_func(*old(p), f, v),
{
    let ghost p0 = *p;
    let ghost lay0 = p0.funcs@[f as int].layout@;
    let bb = p.funcs[f].layout[pos];
    proof {
        assert(all_below(lay0, p0.blocks@.len() as int));
        assert(lay0[pos as int] == bb);
        assert(bb != nbb);
    }
    let mut insts: Vec<usize> = Vec::new();
    std::mem::swap(&mut insts, &mut p.blocks[bb].insts);
    p.blocks[nbb].insts = insts;
    p.funcs[f].layout.set(pos, nbb);
    proof {
        let lay = p.funcs@[f as int].layout@;
        assert(lay =~= lay0.update(pos as int, nbb));
        assert forall|b: int| 0 <= b < lay.len() && b != pos implies #[trigger] p.blocks@[lay[b] as int] == p0.blocks@[lay0[b] as int] by {
            assert(lay[b] == lay0[b]);
            assert(lay0[b] != bb);
            assert(lay0[b] != nbb);
        }
        let nv = p.values@.len() as int;
        let nb = p.blocks@.len() as int;
        let nf = p.funcs@.len() as int;
        assert(p0.wf());
        assert forall|i: int| 0 <= i < nv implies kind_ok(#[trigger] p.values@[i].kind, nv, nb, nf) by {
            assert(kind_ok(p0.values@[i].kind, nv, nb, nf));
        }
        assert forall|b: int| 0 <= b < nb implies all_below((#[trigger] p.blocks@[b]).params@, nv) && all_below(
            p.blocks@[b].insts@,
            nv,
        ) by {
            assert(all_below(p0.blocks@[b].params@, nv));
            assert(all_below(p0.blocks@[b].insts@, nv));
            assert(all_below(p0.blocks@[bb as int].insts@, nv));
        }
        assert forall|g: int| 0 <= g < nf implies all_below((#[trigger] p.funcs@[g]).params@, nv) && all_below(
            p.funcs@[g].layout@,
            nb,
        ) by {
            assert(all_below(p0.funcs@[g].params@, nv));
            assert(all_below(p0.funcs@[g].layout@, nb));
        }
        assert(all_below(p0.inst_layout@, nv));
        assert forall|i: int, j: int| 0 <= i < j < lay.len() implies lay[i] != lay[j] by {
            if i == pos {
                assert(lay0.contains(lay0[j]));
            } else if j == pos {
                assert(lay0.contains(lay0[i]));
            }
        }
        assert forall|b: int| 0 <= b < lay.len() implies {
            let insts = #[trigger] p.blocks@[lay[b] as int].insts@;
            forall|i: int, j: int| 0 <= i < j < insts.len() ==> insts[i] != insts[j]
        } by {
            if b == pos {
                assert(p.blocks@[lay[b] as int].insts@ == p0.blocks@[lay0[pos as int] as int].insts@);
            } else {
                assert(p.blocks@[lay[b] as int] == p0.blocks@[lay0[b] as int]);
            }
        }
        assert forall|b1: int, b2: int, v: usize|
            0 <= b1 < b2 < lay.len() && #[trigger] p.blocks@[lay[b1] as int].insts@.contains(v)
                implies !#[trigger] p.blocks@[lay[b2] as int].insts@.contains(v) by {
            if b1 == pos {
                assert(p.blocks@[lay[b1] as int].insts@ == p0.blocks@[lay0[b1] as int].insts@);
                assert(p.blocks@[lay[b2] as int] == p0.blocks@[lay0[b2] as int]);
            } else if b2 == pos {
                assert(p.blocks@[lay[b2] as int].insts@ == p0.blocks@[lay0[b2] as int].insts@);
                assert(p.blocks@[lay[b1] as int] == p0.blocks@[lay0[b1] as int]);
            } else {
                assert(p.blocks@[lay[b1] as int] == p0.blocks@[lay0[b1] as int]);
                assert(p.blocks@[lay[b2] as int] == p0.blocks@[lay0[b2] as int]);
            }
        }
        assert forall|v: usize| #[trigger] in_func(*p, f, v) == in_func(p0, f, v) by {
            if in_func(*p, f, v) {
                let b = choose|b: int| 0 <= b < lay.len() && #[trigger] p.blocks@[lay[b] as int].insts@.contains(v);
                if b == pos {
                    assert(p0.blocks@[lay0[b] as int].insts@.contains(v));
                } else {
                    assert(p.blocks@[lay[b] as int] == p0.blocks@[lay0[b] as int]);
                    assert(p0.blocks@[lay0[b] as int].insts@.contains(v));
                }
            }
            if in_func(p0, f, v) {
                let b = choose|b: int| 0 <= b < lay0.len() && #[trigger] p0.blocks@[lay0[b] as int].insts@.contains(v);
                if b == pos {
                    assert(p.blocks@[lay[b] as int].insts@.contains(v));
                } else {
                    assert(p.blocks@[lay[b] as int] == p0.blocks@[lay0[b] as int]);
                    assert(p.blocks@[lay[b] as int].insts@.contains(v));
                }
            }
        }
    }
}

/// Whether `new` is the terminator `old` of a predecessor of `target` with
/// the arguments `args` for `target`: a jump takes them, a branch takes them
/// for each of its targets that is `target`.
pub open spec fn params_added(old: ValueKind, new: ValueKind, target: usize, args: Seq<usize>) -> bool {
    match old {
        ValueKind::Jump(t, _) => new matches ValueKind::Jump(t2, a2) && t2 == t && a2@ == args,
        ValueKind::Branch(c, t, ta, e, fa) => new matches ValueKind::Branch(c2, t2, ta2, e2, fa2) && c2 == c && t2 == t
            && e2 == e && ta2@ == (if t == target {
            args
        } else {
            ta@
        }) && fa2@ == (if e == target {
            args
        } else {
            fa@
        }),
        _ => false,
    }
}

/// Whether block `bb` ends with a jump, or with a branch to `target`.
pub open spec fn exit_takes(p: Program, bb: usize, target: usize) -> bool {
    let insts = p.blocks@[bb as int].insts@;
    &&& insts.len() > 0
    &&& match p.values@[insts.last() as int].kind {
        ValueKind::Jump(_, _) => true,
        ValueKind::Branch(_, t, _, e, _) => t == target || e == target,
        _ => false,
    }
}

/// Gives the last instruction of block `bb` the arguments `args` for
/// `target`. Fails where the block does not end with a jump, or with a
/// branch to `target`.
fn add_params_to_inst(p: &mut Program, f: usize, bb: usize, target: usize, args: Vec<usize>) -> (r: bool)
    requires
        func_wf(*old(p), f),
        bb < old(p).blocks@.len(),
        all_below(args@, old(p).values@.len() as int),
    ensures
        func_wf(*final(p), f),
        final(p).blocks@ == old(p).blocks@,
        final(p).funcs@ == old(p).funcs@,
        final(p).inst_layout@ == old(p).inst_layout@,
        final(p).values@.len() == old(p).values@.len(),
        r == exit_takes(*old(p), bb, target),
        !r ==> final(p).values@ == old(p).values@,
        r ==> {
            let exit = old(p).blocks@[bb as int].insts@.last();
            &&& forall|i: int| 0 <= i < old(p).values@.len() && i != exit ==> #[trigger] final(p).values@[i] == old(p).values@[i]
            &&& final(p).values@[exit as int].ty == old(p).values@[exit as int].ty
            &&& final(p).values@[exit as int].name == old(p).values@[exit as int].name
            &&& params_added(old(p).values@[exit as int].kind, final(p).values@[exit as int].kind, target, args@)
        },
{
    let ghost p0 = *p;
    let n = p.blocks[bb].insts.len();
    if n == 0 {
        return false;
    }
    let exit = p.blocks[bb].insts[n - 1];
    proof {
        assert(all_below(p0.blocks@[bb as int].insts@, p0.values@.len() as int));
        assert(exit < p0.values@.len());
    }
    let nk = match &p.values[exit].kind {
        ValueKind::Jump(t, _) => ValueKind::Jump(*t, args),
        ValueKind::Branch(c, t, ta, e, fa) => {
            if *t != target && *e != target {
                return false;
            }
            let ta2 = if *t == target {
                copy_vec(&args)
            } else {
                copy_vec(ta)
            };
            let fa2 = if *e == target {
                copy_vec(&args)
            } else {
                copy_vec(fa)
            };
            ValueKind::Branch(*c, *t, ta2, *e, fa2)
        },
        _ => {
            return false;
        },
    };
    proof {
        assert(p0.wf());
        assert(kind_ok(p0.values@[exit as int].kind, p0.values@.len() as int, p0.blocks@.len() as int, p0.funcs@.len() as int));
    }
    let ghost pv = p.values@;
    p.values[exit].kind = nk;
    proof {
        let nv = p.values@.len() as int;
        let nb = p.blocks@.len() as int;
        let nf = p.funcs@.len() as int;
        assert forall|i: int| 0 <= i < pv.len() && i != exit implies #[trigger] p.values@[i] == pv[i] by {}
        assert forall|i: int| 0 <= i < nv implies kind_ok(#[trigger] p.values@[i].kind, nv, nb, nf) by {
            assert(kind_ok(p0.values@[i].kind, nv, nb, nf));
        }
    }
    true
}

impl SsaBuilder {
    /// The parameter of a block that stands for `variable` at block `bb`,
    /// following only predecessors for at most `fuel` steps.
    pub closed spec fn arg_value(&self, p: Program, variable: usize, bb: usize, fuel: nat) -> Option<usize>
        decreases fuel,
    {
        let preds = self.cfg@[bb as int]@;
        if preds.len() == 1 {
            if fuel == 0 {
                None
            } else {
                self.arg_value(p, variable, preds[0], (fuel - 1) as nat)
            }
        } else {
            let vars = self.bb_params@[bb as int]@;
            if vars.contains(variable) {
                let i = first_idx(vars, variable);
                if i < p.blocks@[bb as int].params@.len() {
                    Some(p.blocks@[bb as int].params@[i])
                } else {
                    None
                }
            } else {
                None
            }
        }
    }

    /// The parameter of a block that stands for `variable` at block `bb`:
    /// the one of `bb` itself where it has other than one predecessor, else
    /// the one its only predecessor gives. `None` where no block on the way
    /// has it; `fuel` bounds the way.
    pub fn read_argument_value(&self, p: &Program, variable: usize, bb: usize, fuel: usize) -> (r: Option<usize>)
        requires
            self.inv(p.blocks@.len() as int, p.values@.len() as int),
            bb < p.blocks@.len(),
            p.wf(),
        ensures
            r matches Some(v) ==> v < p.values@.len(),
            r == self.arg_value(*p, variable, bb, fuel as nat),
        decreases fuel,
    {
        let preds = &self.cfg[bb];
        if preds.len() == 1 {
            assert(all_below(self.cfg@[bb as int]@, p.blocks@.len() as int));
            if fuel == 0 {
                return None;
            }
            return self.read_argument_value(p, variable, preds[0], fuel - 1);
        }
        let vars = &self.bb_params[bb];
        let mut i: usize = 0;
        while i < vars.len()
            invariant
                i <= vars@.len(),
                bb < p.blocks@.len(),
                p.wf(),
                *vars == self.bb_params@[bb as int],
                forall|j: int| 0 <= j < i ==> vars@[j] != variable,
                self.cfg@[bb as int]@.len() != 1,
            decreases vars@.len() - i,
        {
            if vars[i] == variable {
                proof {
                    assert(is_first(vars@, variable, i as int));
                    lemma_first_idx(vars@, variable, i as int);
                }
                let params = &p.blocks[bb].params;
                if i < params.len() {
                    proof {
                        assert(all_below(p.blocks@[bb as int].params@, p.values@.len() as int));
                    }
                    return Some(params[i]);
                }
                return None;
            }
            i = i + 1;
        }
        None
    }
}

/// Whether the definitions `new` of a variable by block are `old` with
/// those of block `ob` moved to block `nbb`, where `ob` had one.
pub open spec fn def_renamed(old: Seq<Option<Def>>, new: Seq<Option<Def>>, ob: int, nbb: int) -> bool {
    &&& new.len() == old.len()
    &&& new[nbb] == (if old[ob] is Some {
        old[ob]
    } else {
        old[nbb]
    })
    &&& new[ob] is None
    &&& forall|b: int| 0 <= b < old.len() && b != ob && b != nbb ==> #[trigger] new[b] == old[b]
}

impl SsaBuilder {
    proof fn lemma_inv_nv(&self, nb: int, nv: int, nv2: int)
        requires
            self.inv(nb, nv),
            nv <= nv2,
        ensures
            self.inv(nb, nv2),
    {
        assert forall|k: int|
            0 <= k < self.defs@.len() implies (#[trigger] self.defs@[k])@.len() == nb && forall|b: int|
                0 <= b < nb ==> (#[trigger] self.defs@[k]@[b] matches Some(d) ==> def_below(d, nv2)) by {
            assert forall|b: int| 0 <= b < nb implies (#[trigger] self.defs@[k]@[b] matches Some(d) ==> def_below(d, nv2)) by {
                if let Some(d) = self.defs@[k]@[b] {
                    assert(def_below(d, nv));
                }
            }
        }
        assert forall|j: int| 0 <= j < self.replace_with@.len() implies def_below((#[trigger] self.replace_with@[j]).2, nv2) by {
            assert(def_below(self.replace_with@[j].2, nv));
        }
    }

    /// Makes room for one more block.
    fn add_block(&mut self, Ghost(nv): Ghost<int>)
        requires
            old(self).inv(old(self).cfg@.len() as int, nv),
        ensures
            final(self).inv(old(self).cfg@.len() as int + 1, nv),
            final(self).cfg@.len() == old(self).cfg@.len() + 1,
            final(self).vars@ == old(self).vars@,
            final(self).replace_with@ == old(self).replace_with@,
    {
        self.cfg.push(Vec::new());
        self.bb_params.push(Vec::new());
        self.filled.push(false);
        self.incomplete.push(Vec::new());
        let mut k: usize = 0;
        while k < self.defs.len()
            invariant
                0 <= k <= self.defs@.len(),
                self.defs@.len() == self.vars@.len(),
                forall|j: int| 0 <= j < k ==> (#[trigger] self.defs@[j])@.len() == old(self).cfg@.len() + 1,
                forall|j: int| k <= j < self.defs@.len() ==> (#[trigger] self.defs@[j])@.len() == old(self).cfg@.len(),
                forall|j: int, b: int| 0 <= j < self.defs@.len() && 0 <= b < old(self).cfg@.len() ==> (#[trigger] self.defs@[j]@[b]) == old(self).defs@[j]@[b],
                forall|j: int| 0 <= j < k ==> (#[trigger] self.defs@[j])@[old(self).cfg@.len() as int] is None,
                self.defs@.len() == old(self).defs@.len(),
                self.vars@ == old(self).vars@,
                self.replace_with@ == old(self).replace_with@,
                self.cfg@.len() == old(self).cfg@.len() + 1,
                self.bb_params@.len() == old(self).cfg@.len() + 1,
                self.incomplete@.len() == old(self).cfg@.len() + 1,
                forall|b: int| 0 <= b < old(self).cfg@.len() ==> #[trigger] self.cfg@[b] == old(self).cfg@[b],
                forall|b: int| 0 <= b < old(self).cfg@.len() ==> #[trigger] self.bb_params@[b] == old(self).bb_params@[b],
                forall|b: int| 0 <= b < old(self).cfg@.len() ==> #[trigger] self.incomplete@[b] == old(self).incomplete@[b],
                self.cfg@[old(self).cfg@.len() as int]@.len() == 0,
                self.bb_params@[old(self).cfg@.len() as int]@.len() == 0,
                self.incomplete@[old(self).cfg@.len() as int]@.len() == 0,
                self.filled@ == old(self).filled@.push(false),
            decreases self.defs@.len() - k,
        {
            let ghost d0 = self.defs@;
            self.defs[k].push(None);
            proof {
                assert forall|j: int| 0 <= j < self.defs@.len() && j != k implies #[trigger] self.defs@[j] == d0[j] by {}
            }
            k = k + 1;
        }
        proof {
            let o = *old(self);
            let nb = o.cfg@.len() as int + 1;
            assert(self.cfg@[nb - 1]@.len() == 0);
            assert forall|b: int| 0 <= b < self.cfg@.len() implies all_below(#[trigger] self.cfg@[b]@, self.cfg@.len() as int) by {
                if b < nb - 1 {
                    assert(all_below(o.cfg@[b]@, nb - 1));
                }
            }
            assert forall|k2: int|
                0 <= k2 < self.defs@.len() implies (#[trigger] self.defs@[k2])@.len() == nb && forall|b: int|
                    0 <= b < nb ==> (#[trigger] self.defs@[k2]@[b] matches Some(d) ==> def_below(d, nv)) by {
                assert forall|b: int| 0 <= b < nb implies (#[trigger] self.defs@[k2]@[b] matches Some(d) ==> def_below(d, nv)) by {
                    if b < nb - 1 {
                        assert(self.defs@[k2]@[b] == o.defs@[k2]@[b]);
                    }
                }
            }
            assert forall|b: int| 0 <= b < nb implies all_below(#[trigger] self.bb_params@[b]@, nv) by {
                if b < nb - 1 {
                    assert(self.bb_params@[b] == o.bb_params@[b]);
                } else {
                    assert(self.bb_params@[b]@.len() == 0);
                }
            }
            assert forall|b: int| 0 <= b < nb implies all_below(#[trigger] self.incomplete@[b]@, nv) by {
                if b < nb - 1 {
                    assert(self.incomplete@[b] == o.incomplete@[b]);
                } else {
                    assert(self.incomplete@[b]@.len() == 0);
                }
            }
            assert forall|b: int, i: int|
                0 <= b < nb && 0 <= i < self.incomplete@[b]@.len() implies self.vars@.contains(
                    #[trigger] self.incomplete@[b]@[i],
                ) by {
                assert(b < nb - 1);
                assert(self.incomplete@[b] == o.incomplete@[b]);
            }
            assert forall|b: int, i: int|
                0 <= b < nb && 0 <= i < self.bb_params@[b]@.len() implies self.vars@.contains(
                    #[trigger] self.bb_params@[b]@[i],
                ) by {
                assert(b < nb - 1);
                assert(self.bb_params@[b] == o.bb_params@[b]);
            }
        }
    }
}

impl SsaBuilder {
    /// Moves what the builder knows of block `ob` to block `nbb`: its
    /// parameters, the definitions made in it, and the loads in it.
    fn rename_block(&mut self, ob: usize, nbb: usize, Ghost(nb): Ghost<int>, Ghost(nv): Ghost<int>)
        requires
            old(self).inv(nb, nv),
            ob < nb,
            nbb < nb,
            ob != nbb,
        ensures
            final(self).inv(nb, nv),
            final(self).vars@ == old(self).vars@,
            final(self).cfg@ == old(self).cfg@,
            final(self).filled@ == old(self).filled@,
            final(self).replace_with@.len() == old(self).replace_with@.len(),
            final(self).bb_params@.len() == old(self).bb_params@.len(),
            final(self).bb_params@[nbb as int]@ == old(self).bb_params@[ob as int]@,
            final(self).bb_params@[ob as int]@.len() == 0,
            forall|b: int| 0 <= b < nb && b != ob && b != nbb ==> #[trigger] final(self).bb_params@[b] == old(self).bb_params@[b],
            final(self).defs@.len() == old(self).defs@.len(),
            forall|k: int| 0 <= k < old(self).defs@.len() ==> #[trigger] def_renamed(old(self).defs@[k]@, final(self).defs@[k]@, ob as int, nbb as int),
            forall|j: int| 0 <= j < old(self).replace_with@.len() ==> #[trigger] final(self).replace_with@[j] == (if old(self).replace_with@[j].1 == ob {
                (old(self).replace_with@[j].0, nbb, old(self).replace_with@[j].2)
            } else {
                old(self).replace_with@[j]
            }),
    {
        let ghost o = *self;
        let mut moved: Vec<usize> = Vec::new();
        std::mem::swap(&mut moved, &mut self.bb_params[ob]);
        self.bb_params.set(nbb, moved);
        proof {
            assert forall|b: int| 0 <= b < nb implies all_below(#[trigger] self.bb_params@[b]@, nv) by {
                if b == nbb {
                    assert(self.bb_params@[b]@ == o.bb_params@[ob as int]@);
                } else if b == ob {
                    assert(self.bb_params@[b]@.len() == 0);
                } else {
                    assert(self.bb_params@[b] == o.bb_params@[b]);
                }
            }
            assert forall|b: int, i: int|
                0 <= b < nb && 0 <= i < self.bb_params@[b]@.len() implies self.vars@.contains(
                    #[trigger] self.bb_params@[b]@[i],
                ) by {
                if b == nbb {
                    assert(self.bb_params@[b]@[i] == o.bb_params@[ob as int]@[i]);
                } else {
                    assert(b != ob);
                    assert(self.bb_params@[b] == o.bb_params@[b]);
                }
            }
        }
        let ghost s0 = *self;
        let mut k: usize = 0;
        while k < self.defs.len()
            invariant
                self.inv(nb, nv),
                ob < nb,
                nbb < nb,
                ob != nbb,
                self.vars@ == o.vars@,
                self.cfg@ == o.cfg@,
                self.filled@ == o.filled@,
                self.replace_with@ == o.replace_with@,
                k <= self.defs@.len(),
                self.bb_params@ == s0.bb_params@,
                self.defs@.len() == o.defs@.len(),
                forall|k2: int| 0 <= k2 < k ==> #[trigger] def_renamed(o.defs@[k2]@, self.defs@[k2]@, ob as int, nbb as int),
                forall|k2: int| k <= k2 < self.defs@.len() ==> #[trigger] self.defs@[k2] == o.defs@[k2],
            decreases self.defs@.len() - k,
        {
            assert(self.defs@[k as int]@.len() == nb);
            assert(self.defs@[k as int] == o.defs@[k as int]);
            let ghost s_k = *self;
            match self.defs[k][ob] {
                Some(d) => {
                    assert(def_below(d, nv));
                    let ghost s1 = *self;
                    self.defs[k].set(nbb, Some(d));
                    assert(self.defs@[k as int]@ == s1.defs@[k as int]@.update(nbb as int, Some(d)));
                    proof {
                        Self::lemma_set_def(s1, *self, k as int, nbb as int, d, nb, nv);
                    }
                    let ghost s2 = *self;
                    self.defs[k].set(ob, None);
                    assert(self.defs@[k as int]@ == s2.defs@[k as int]@.update(ob as int, None));
                    assert forall|k2: int| 0 <= k2 < self.defs@.len() && k2 != k implies #[trigger] self.defs@[k2] == s_k.defs@[k2] by {
                        assert(self.defs@[k2] == s2.defs@[k2]);
                        assert(s2.defs@[k2] == s1.defs@[k2]);
                    }
                    proof {
                        assert forall|k2: int| 0 <= k2 < self.defs@.len() implies (#[trigger] self.defs@[k2])@.len() == nb && forall|b: int|
                            0 <= b < nb ==> (#[trigger] self.defs@[k2]@[b] matches Some(d2) ==> def_below(d2, nv)) by {
                            if k2 != k {
                                assert(self.defs@[k2] == s2.defs@[k2]);
                            } else {
                                assert forall|b: int| 0 <= b < nb implies (#[trigger] self.defs@[k2]@[b] matches Some(d2) ==> def_below(d2, nv)) by {
                                    if b != ob {
                                        assert(self.defs@[k2]@[b] == s2.defs@[k2]@[b]);
                                    }
                                }
                            }
                        }
                    }
                },
                None => {},
            }
            proof {
                assert(def_renamed(o.defs@[k as int]@, self.defs@[k as int]@, ob as int, nbb as int));
            }
            k = k + 1;
        }
        let mut j: usize = 0;
        while j < self.replace_with.len()
            invariant
                self.inv(nb, nv),
                ob < nb,
                nbb < nb,
                ob != nbb,
                self.vars@ == o.vars@,
                self.cfg@ == o.cfg@,
                self.filled@ == o.filled@,
                self.replace_with@.len() == o.replace_with@.len(),
                j <= self.replace_with@.len(),
                self.bb_params@ == s0.bb_params@,
                self.defs@.len() == o.defs@.len(),
                forall|k2: int| 0 <= k2 < o.defs@.len() ==> #[trigger] def_renamed(o.defs@[k2]@, self.defs@[k2]@, ob as int, nbb as int),
                forall|j2: int| 0 <= j2 < j ==> #[trigger] self.replace_with@[j2] == (if o.replace_with@[j2].1 == ob {
                    (o.replace_with@[j2].0, nbb, o.replace_with@[j2].2)
                } else {
                    o.replace_with@[j2]
                }),
                forall|j2: int| j <= j2 < self.replace_with@.len() ==> #[trigger] self.replace_with@[j2] == o.replace_with@[j2],
            decreases self.replace_with@.len() - j,
        {
            let (l, b, d) = self.replace_with[j];
            if b == ob {
                let ghost r0 = self.replace_with@;
                self.replace_with.set(j, (l, nbb, d));
                proof {
                    assert forall|j2: int| 0 <= j2 < self.replace_with@.len() implies (#[trigger] self.replace_with@[j2]).0 < nv
                        && self.replace_with@[j2].1 < nb && def_below(self.replace_with@[j2].2, nv) by {
                        if j2 != j {
                            assert(self.replace_with@[j2] == r0[j2]);
                        } else {
                            assert(def_below(r0[j2].2, nv));
                        }
                    }
                }
            }
            j = j + 1;
        }
    }
}

/// The first position of `t` in `lay`.
fn position_in(lay: &Vec<usize>, t: usize) -> (r: Option<usize>)
    ensures
        match r {
            Some(j) => j < lay@.len() && lay@[j as int] == t,
            None => !lay@.contains(t),
        },
{
    let mut i: usize = 0;
    while i < lay.len()
        invariant
            i <= lay@.len(),
            forall|j: int| 0 <= j < i ==> lay@[j] != t,
        decreases lay@.len() - i,
    {
        if lay[i] == t {
            return Some(i);
        }
        i = i + 1;
    }
    None
}

impl SsaBuilder {
    /// Gives every block that takes variables as parameters a new block
    /// with those parameters in its place, then passes, at the end of each
    /// of its predecessors that can be reached, the definitions of the
    /// variables there. Fails where a block to replace is not in the layout,
    /// where a predecessor does not end with a jump or a branch to the
    /// block, or where no parameter stands for a variable.
    pub fn insert_bb_params(&mut self, p: &mut Program, f: usize) -> (r: bool)
        requires
            func_wf(*old(p), f),
            old(p).blocks@.len() < 0x1000_0000,
            old(self).inv(old(p).blocks@.len() as int, old(p).values@.len() as int),
        ensures
            func_wf(*final(p), f),
            final(self).inv(final(p).blocks@.len() as int, final(p).values@.len() as int),
            final(p).blocks@.len() < 0x2000_0000,
            final(p).funcs@.len() == old(p).funcs@.len(),
            (forall|b: int| 0 <= b < old(self).bb_params@.len() ==> (#[trigger] old(self).bb_params@[b])@.len() == 0) ==> r
                && *final(p) == *old(p) && final(self).replace_with@ == old(self).replace_with@,
    {
        let ghost none = forall|b: int| 0 <= b < old(self).bb_params@.len() ==> (#[trigger] old(self).bb_params@[b])@.len() == 0;
        let nb0 = p.blocks.len();
        let mut new_bbs: Vec<(usize, usize)> = Vec::new();
        let mut bb: usize = 0;
        while bb < nb0
            invariant
                func_wf(*p, f),
                self.inv(p.blocks@.len() as int, p.values@.len() as int),
                nb0 < 0x1000_0000,
                nb0 <= p.blocks@.len() <= nb0 + bb,
                bb <= nb0,
                p.funcs@.len() == old(p).funcs@.len(),
                forall|j: int| 0 <= j < new_bbs@.len() ==> (#[trigger] new_bbs@[j]).0 < nb0 && nb0 <= new_bbs@[j].1 < p.blocks@.len(),
                none ==> *p == *old(p) && *self == *old(self) && new_bbs@.len() == 0,
                nb0 == old(p).blocks@.len(),
                none == forall|b: int| 0 <= b < old(self).bb_params@.len() ==> (#[trigger] old(self).bb_params@[b])@.len() == 0,
            decreases nb0 - bb,
        {
            if self.bb_params[bb].len() > 0 {
                let n = self.bb_params[bb].len();
                let ghost nv0 = p.values@.len() as int;
                let nbb = new_bb_with_params(p, n);
                proof {
                    self.lemma_inv_nv(nbb as int, nv0, p.values@.len() as int);
                }
                self.add_block(Ghost(p.values@.len() as int));
                replace_bb_with(p, f, bb, nbb);
                match position_in(&p.funcs[f].layout, bb) {
                    Some(pos) => {
                        proof {
                            assert(all_below(p.funcs@[f as int].layout@, nbb as int));
                        }
                        move_block(p, f, pos, nbb);
                    },
                    None => {
                        return false;
                    },
                }
                new_bbs.push((bb, nbb));
            }
            bb = bb + 1;
        }
        self.update_cfg(p, f);
        let mut j: usize = 0;
        while j < new_bbs.len()
            invariant
                func_wf(*p, f),
                self.inv(p.blocks@.len() as int, p.values@.len() as int),
                nb0 <= p.blocks@.len() <= nb0 + nb0,
                nb0 < 0x1000_0000,
                p.funcs@.len() == old(p).funcs@.len(),
                forall|j2: int| 0 <= j2 < new_bbs@.len() ==> (#[trigger] new_bbs@[j2]).0 < nb0 && nb0 <= new_bbs@[j2].1 < p.blocks@.len(),
                j <= new_bbs@.len(),
                none ==> *p == *old(p) && self.bb_params@ == old(self).bb_params@ && new_bbs@.len() == 0
                    && self.replace_with@ == old(self).replace_with@,
            decreases new_bbs@.len() - j,
        {
            let (ob, nbb) = new_bbs[j];
            self.rename_block(ob, nbb, Ghost(p.blocks@.len() as int), Ghost(p.values@.len() as int));
            j = j + 1;
        }
        let nb = p.blocks.len();
        let fuel = nb + nb + 2;
        let entry = if p.funcs[f].layout.len() > 0 {
            Some(p.funcs[f].layout[0])
        } else {
            None
        };
        let mut todo: Vec<(usize, Vec<usize>)> = Vec::new();
        let mut b: usize = 0;
        while b < nb
            invariant
                self.inv(p.blocks@.len() as int, p.values@.len() as int),
                nb == p.blocks@.len(),
                b <= nb,
                forall|j2: int| 0 <= j2 < todo@.len() ==> (#[trigger] todo@[j2]).0 < nb,
                none ==> *p == *old(p) && self.bb_params@ == old(self).bb_params@ && todo@.len() == 0
                    && self.replace_with@ == old(self).replace_with@,
                none == forall|b: int| 0 <= b < old(self).bb_params@.len() ==> (#[trigger] old(self).bb_params@[b])@.len() == 0,
            decreases nb - b,
        {
            if self.bb_params[b].len() > 0 {
                todo.push((b, copy_vec(&self.bb_params[b])));
            }
            b = b + 1;
        }
        let mut t: usize = 0;
        while t < todo.len()
            invariant
                func_wf(*p, f),
                self.inv(p.blocks@.len() as int, p.values@.len() as int),
                nb == p.blocks@.len(),
                nb < 0x2000_0000,
                p.funcs@.len() == old(p).funcs@.len(),
                forall|j2: int| 0 <= j2 < todo@.len() ==> (#[trigger] todo@[j2]).0 < nb,
                t <= todo@.len(),
                none ==> *p == *old(p) && todo@.len() == 0 && self.replace_with@ == old(self).replace_with@,
                none == forall|b: int| 0 <= b < old(self).bb_params@.len() ==> (#[trigger] old(self).bb_params@[b])@.len() == 0,
            decreases todo@.len() - t,
        {
            let target = todo[t].0;
            let preds = copy_vec(&self.cfg[target]);
            proof {
                assert(all_below(self.cfg@[target as int]@, nb as int));
            }
            let mut i: usize = 0;
            while i < preds.len()
                invariant
                    func_wf(*p, f),
                    self.inv(p.blocks@.len() as int, p.values@.len() as int),
                    nb == p.blocks@.len(),
                    nb < 0x2000_0000,
                    p.funcs@.len() == old(p).funcs@.len(),
                    forall|j2: int| 0 <= j2 < todo@.len() ==> (#[trigger] todo@[j2]).0 < nb,
                    t < todo@.len(),
                    target == todo@[t as int].0,
                    all_below(preds@, nb as int),
                    i <= preds@.len(),
                    none ==> todo@.len() == 0,
                    none == forall|b: int| 0 <= b < old(self).bb_params@.len() ==> (#[trigger] old(self).bb_params@[b])@.len() == 0,
                decreases preds@.len() - i,
            {
                let pred = preds[i];
                if self.cfg[pred].len() == 0 && entry != Some(pred) {
                    i = i + 1;
                    continue;
                }
                let vars = &todo[t].1;
                let mut args: Vec<usize> = Vec::new();
                let mut a: usize = 0;
                while a < vars.len()
                    invariant
                        func_wf(*p, f),
                        self.inv(p.blocks@.len() as int, p.values@.len() as int),
                        nb == p.blocks@.len(),
                        nb < 0x2000_0000,
                        p.funcs@.len() == old(p).funcs@.len(),
                        pred < nb,
                        all_below(args@, p.values@.len() as int),
                        a <= vars@.len(),
                        t < todo@.len(),
                        none ==> todo@.len() == 0,
                        none == forall|b: int| 0 <= b < old(self).bb_params@.len() ==> (#[trigger] old(self).bb_params@[b])@.len() == 0,
                    decreases vars@.len() - a,
                {
                    let k = match self.var_index(vars[a]) {
                        Some(k) => k,
                        None => {
                            return false;
                        },
                    };
                    let def = self.read_variable(p, k, pred, fuel);
                    let arg = match def {
                        Def::Assign(v) => v,
                        Def::Argument(var) => match self.read_argument_value(p, var, pred, fuel) {
                            Some(x) => x,
                            None => {
                                return false;
                            },
                        },
                    };
                    args.push(arg);
                    a = a + 1;
                }
                if !add_params_to_inst(p, f, pred, target, args) {
                    return false;
                }
                i = i + 1;
            }
            t = t + 1;
        }
        true
    }
}

/// Whether instruction `x` goes: it is one of `drop`, or, where `users`,
/// it uses one of them.
pub open spec fn dropped(p: Program, drop: Seq<usize>, users: bool, x: usize) -> bool {
    drop.contains(x) || (users && exists|a: usize| drop.contains(a) && #[trigger] uses(p.values@[x as int].kind, a))
}

/// The first `n` instructions of `s` that stay, in order.
pub open spec fn keep_upto(p: Program, drop: Seq<usize>, users: bool, s: Seq<usize>, n: int) -> Seq<usize>
    decreases n,
{
    if n <= 0 {
        Seq::empty()
    } else if dropped(p, drop, users, s[n - 1]) {
        keep_upto(p, drop, users, s, n - 1)
    } else {
        keep_upto(p, drop, users, s, n - 1).push(s[n - 1])
    }
}

pub proof fn lemma_keep(p: Program, drop: Seq<usize>, users: bool, s: Seq<usize>, n: int)
    requires
        0 <= n <= s.len(),
        forall|i: int, j: int| 0 <= i < j < s.len() ==> s[i] != s[j],
    ensures
        forall|x: usize|
            #[trigger] keep_upto(p, drop, users, s, n).contains(x) <==> s.subrange(0, n).contains(x) && !dropped(
                p,
                drop,
                users,
                x,
            ),
        forall|i: int, j: int|
            0 <= i < j < keep_upto(p, drop, users, s, n).len() ==> keep_upto(p, drop, users, s, n)[i] != keep_upto(
                p,
                drop,
                users,
                s,
                n,
            )[j],
    decreases n,
{
    if n > 0 {
        lemma_keep(p, drop, users, s, n - 1);
        let prev = keep_upto(p, drop, users, s, n - 1);
        let cur = keep_upto(p, drop, users, s, n);
        let sub = s.subrange(0, n - 1);
        let sub2 = s.subrange(0, n);
        assert(sub2 =~= sub.push(s[n - 1]));
        assert forall|x: usize| #[trigger] cur.contains(x) <==> sub2.contains(x) && !dropped(p, drop, users, x) by {
            if sub2.contains(x) {
                let j = choose|j: int| 0 <= j < sub2.len() && sub2[j] == x;
                if j < n - 1 {
                    assert(sub[j] == x);
                }
            }
            if sub.contains(x) {
                let j = choose|j: int| 0 <= j < sub.len() && sub[j] == x;
                assert(sub2[j] == x);
            }
            if !dropped(p, drop, users, s[n - 1]) {
                if cur.contains(x) {
                    let j = choose|j: int| 0 <= j < cur.len() && cur[j] == x;
                    if j < prev.len() {
                        assert(prev[j] == x);
                    } else {
                        assert(sub2[n - 1] == x);
                    }
                }
                if prev.contains(x) {
                    let j = choose|j: int| 0 <= j < prev.len() && prev[j] == x;
                    assert(cur[j] == x);
                }
                if x == s[n - 1] {
                    assert(cur[prev.len() as int] == x);
                }
            }
        }
        if !dropped(p, drop, users, s[n - 1]) {
            assert(!sub.contains(s[n - 1])) by {
                if sub.contains(s[n - 1]) {
                    let j = choose|j: int| 0 <= j < sub.len() && sub[j] == s[n - 1];
                    assert(s[j] == s[n - 1]);
                }
            }
            assert(!prev.contains(s[n - 1]));
            assert forall|i: int, j: int| 0 <= i < j < cur.len() implies cur[i] != cur[j] by {
                if j == prev.len() {
                    assert(cur[i] == prev[i]);
                    assert(prev.contains(prev[i]));
                } else {
                    assert(cur[i] == prev[i]);
                    assert(cur[j] == prev[j]);
                }
            }
        }
    }
}

fn dropped_exec(p: &Program, drop: &Vec<usize>, users: bool, x: usize) -> (r: bool)
    requires
        x < p.values@.len(),
    ensures
        r == dropped(*p, drop@, users, x),
{
    let mut i: usize = 0;
    while i < drop.len()
        invariant
            i <= drop@.len(),
            x < p.values@.len(),
            forall|j: int| 0 <= j < i ==> drop@[j] != x && !(users && uses(p.values@[x as int].kind, #[trigger] drop@[j])),
        decreases drop@.len() - i,
    {
        if drop[i] == x {
            return true;
        }
        if users && uses_value(&p.values[x].kind, drop[i]) {
            assert(drop@.contains(drop@[i as int]));
            return true;
        }
        i = i + 1;
    }
    proof {
        if dropped(*p, drop@, users, x) {
            if drop@.contains(x) {
                let j = choose|j: int| 0 <= j < drop@.len() && drop@[j] == x;
                assert(false);
            } else {
                let a = choose|a: usize| drop@.contains(a) && #[trigger] uses(p.values@[x as int].kind, a);
                let j = choose|j: int| 0 <= j < drop@.len() && drop@[j] == a;
                assert(false);
            }
        }
    }
    false
}

/// Takes out of the layout of function `f` every instruction that goes by
/// `dropped`.
fn filter_layout(p: &mut Program, f: usize, drop: &Vec<usize>, users: bool)
    requires
        func_wf(*old(p), f),
    ensures
        func_wf(*final(p), f),
        final(p).values@ == old(p).values@,
        final(p).funcs@ == old(p).funcs@,
        final(p).inst_layout@ == old(p).inst_layout@,
        final(p).blocks@.len() == old(p).blocks@.len(),
        forall|v: usize| #[trigger] in_func(*final(p), f, v) <==> in_func(*old(p), f, v) && !dropped(*old(p), drop@, users, v),
{
    let ghost p0 = *p;
    let ghost lay = p0.funcs@[f as int].layout@;
    let nb = p.funcs[f].layout.len();
    let mut i: usize = 0;
    while i < nb
        invariant
            func_wf(p0, f),
            lay == p0.funcs@[f as int].layout@,
            nb == lay.len(),
            i <= nb,
            p.values@ == p0.values@,
            p.funcs@ == p0.funcs@,
            p.inst_layout@ == p0.inst_layout@,
            p.blocks@.len() == p0.blocks@.len(),
            forall|b: int| 0 <= b < p0.blocks@.len() && !lay.subrange(0, i as int).contains(b as usize) ==> #[trigger] p.blocks@[b] == p0.blocks@[b],
            forall|k: int| 0 <= k < i ==> {
                let bb = #[trigger] lay[k];
                &&& p.blocks@[bb as int].insts@ == keep_upto(p0, drop@, users, p0.blocks@[bb as int].insts@, p0.blocks@[bb as int].insts@.len() as int)
                &&& p.blocks@[bb as int].params@ == p0.blocks@[bb as int].params@
                &&& p.blocks@[bb as int].name == p0.blocks@[bb as int].name
            },
        decreases nb - i,
    {
        let bb = p.funcs[f].layout[i];
        proof {
            assert(all_below(lay, p0.blocks@.len() as int));
            assert(lay[i as int] == bb);
            assert(!lay.subrange(0, i as int).contains(bb)) by {
                if lay.subrange(0, i as int).contains(bb) {
                    let x = choose|x: int| 0 <= x < i && lay.subrange(0, i as int)[x] == bb;
                    assert(lay[x] == bb);
                }
            }
            assert(p.blocks@[bb as int] == p0.blocks@[bb as int]);
            assert(all_below(p0.blocks@[bb as int].insts@, p0.values@.len() as int));
        }
        let ghost s = p0.blocks@[bb as int].insts@;
        let mut kept: Vec<usize> = Vec::new();
        let mut j: usize = 0;
        let n = p.blocks[bb].insts.len();
        while j < n
            invariant
                p.values@ == p0.values@,
                bb < p.blocks@.len(),
                p.blocks@[bb as int].insts@ == s,
                n == s.len(),
                all_below(s, p0.values@.len() as int),
                j <= n,
                kept@ == keep_upto(p0, drop@, users, s, j as int),
            decreases n - j,
        {
            let x = p.blocks[bb].insts[j];
            if !dropped_exec(p, drop, users, x) {
                kept.push(x);
            }
            j = j + 1;
        }
        let ghost pb = p.blocks@;
        p.blocks[bb].insts = kept;
        proof {
            assert forall|b: int| 0 <= b < pb.len() && b != bb implies #[trigger] p.blocks@[b] == pb[b] by {}
            assert forall|b: int| 0 <= b < p0.blocks@.len() && !lay.subrange(0, i + 1).contains(b as usize) implies #[trigger] p.blocks@[b] == p0.blocks@[b] by {
                assert(b != bb) by {
                    if b == bb {
                        assert(lay.subrange(0, i + 1)[i as int] == bb);
                    }
                }
                if lay.subrange(0, i as int).contains(b as usize) {
                    let x = choose|x: int| 0 <= x < i && lay.subrange(0, i as int)[x] == b as usize;
                    assert(lay.subrange(0, i + 1)[x] == b as usize);
                }
            }
            assert forall|k: int| 0 <= k < i + 1 implies {
                let bb2 = #[trigger] lay[k];
                &&& p.blocks@[bb2 as int].insts@ == keep_upto(p0, drop@, users, p0.blocks@[bb2 as int].insts@, p0.blocks@[bb2 as int].insts@.len() as int)
                &&& p.blocks@[bb2 as int].params@ == p0.blocks@[bb2 as int].params@
                &&& p.blocks@[bb2 as int].name == p0.blocks@[bb2 as int].name
            } by {
                if k < i {
                    assert(lay[k] != lay[i as int]);
                }
            }
        }
        i = i + 1;
    }
    proof {
        assert(lay.subrange(0, nb as int) =~= lay);
        // the layout lists each block once
        assert forall|b: int| 0 <= b < lay.len() implies #[trigger] p.blocks@[lay[b] as int].insts@ == keep_upto(p0, drop@, users, p0.blocks@[lay[b] as int].insts@, p0.blocks@[lay[b] as int].insts@.len() as int) by {}
        assert forall|b: int, x: usize| 0 <= b < lay.len() implies #[trigger] p.blocks@[lay[b] as int].insts@.contains(x) <==> p0.blocks@[lay[b] as int].insts@.contains(x) && !dropped(p0, drop@, users, x) by {
            let s0 = p0.blocks@[lay[b] as int].insts@;
            lemma_keep(p0, drop@, users, s0, s0.len() as int);
            assert(s0.subrange(0, s0.len() as int) =~= s0);
        }
        let nv = p.values@.len() as int;
        let nbk = p.blocks@.len() as int;
        let nf = p.funcs@.len() as int;
        assert(p0.wf());
        assert forall|i2: int| 0 <= i2 < nv implies kind_ok(#[trigger] p.values@[i2].kind, nv, nbk, nf) by {
            assert(kind_ok(p0.values@[i2].kind, nv, nbk, nf));
        }
        assert forall|b: int| 0 <= b < nbk implies all_below((#[trigger] p.blocks@[b]).params@, nv) && all_below(
            p.blocks@[b].insts@,
            nv,
        ) by {
            assert(all_below(p0.blocks@[b].params@, nv));
            assert(all_below(p0.blocks@[b].insts@, nv));
            assert(p.blocks.len() == p.blocks@.len());
            let bu = b as usize;
            assert(bu as int == b);
            if lay.contains(bu) {
                let k = choose|k: int| 0 <= k < lay.len() && lay[k] == bu;
                assert forall|x: int| 0 <= x < p.blocks@[b].insts@.len() implies (#[trigger] p.blocks@[b].insts@[x]) < nv by {
                    let y = p.blocks@[b].insts@[x];
                    assert(p.blocks@[lay[k] as int].insts@[x] == y);
                    assert(p.blocks@[lay[k] as int].insts@.contains(y));
                    assert(p0.blocks@[lay[k] as int].insts@.contains(y));
                }
            } else {
                assert(!lay.subrange(0, nb as int).contains(bu));
                assert(p.blocks@[b] == p0.blocks@[b]);
            }
        }
        assert forall|g: int| 0 <= g < nf implies all_below((#[trigger] p.funcs@[g]).params@, nv) && all_below(
            p.funcs@[g].layout@,
            nbk,
        ) by {
            assert(all_below(p0.funcs@[g].params@, nv));
            assert(all_below(p0.funcs@[g].layout@, nbk));
        }
        assert(all_below(p0.inst_layout@, nv));
        assert forall|b: int| 0 <= b < lay.len() implies {
            let insts = #[trigger] p.blocks@[lay[b] as int].insts@;
            forall|i2: int, j2: int| 0 <= i2 < j2 < insts.len() ==> insts[i2] != insts[j2]
        } by {
            let s0 = p0.blocks@[lay[b] as int].insts@;
            lemma_keep(p0, drop@, users, s0, s0.len() as int);
        }
        assert forall|b1: int, b2: int, v: usize|
            0 <= b1 < b2 < lay.len() && #[trigger] p.blocks@[lay[b1] as int].insts@.contains(v)
                implies !#[trigger] p.blocks@[lay[b2] as int].insts@.contains(v) by {
            assert(p0.blocks@[lay[b1] as int].insts@.contains(v));
        }
        assert forall|v: usize| #[trigger] in_func(*p, f, v) <==> in_func(p0, f, v) && !dropped(p0, drop@, users, v) by {
            if in_func(*p, f, v) {
                let b = choose|b: int| 0 <= b < lay.len() && #[trigger] p.blocks@[lay[b] as int].insts@.contains(v);
                assert(p0.blocks@[lay[b] as int].insts@.contains(v));
            }
            if in_func(p0, f, v) && !dropped(p0, drop@, users, v) {
                let b = choose|b: int| 0 <= b < lay.len() && #[trigger] p0.blocks@[lay[b] as int].insts@.contains(v);
                assert(p.blocks@[lay[b] as int].insts@.contains(v));
            }
        }
    }
}

/// Whether `v` is a local variable of function `f` that the construction
/// takes out: an allocation of an integer or of a pointer in its layout.
pub open spec fn is_local_var(p: Program, f: usize, v: usize) -> bool {
    &&& in_func(p, f, v)
    &&& p.values@[v as int].kind is Alloc
    &&& tracked_ty(p.values@[v as int].ty)
}

/// The local variables of function `f` that the construction takes out.
fn local_vars(p: &Program, f: usize) -> (r: Vec<usize>)
    requires
        func_wf(*p, f),
    ensures
        forall|v: usize| #[trigger] r@.contains(v) <==> is_local_var(*p, f, v),
{
    let mut r: Vec<usize> = Vec::new();
    let nb = p.funcs[f].layout.len();
    let mut bi: usize = 0;
    while bi < nb
        invariant
            func_wf(*p, f),
            nb == p.funcs@[f as int].layout@.len(),
            bi <= nb,
            forall|v: usize| #[trigger] r@.contains(v) <==> visited_before(*p, f, bi as int, 0, v) && p.values@[v as int].kind is Alloc && tracked_ty(p.values@[v as int].ty),
        decreases nb - bi,
    {
        let blk = p.funcs[f].layout[bi];
        proof {
            assert(all_below(p.funcs@[f as int].layout@, p.blocks@.len() as int));
            assert(all_below(p.blocks@[blk as int].insts@, p.values@.len() as int));
        }
        let n = p.blocks[blk].insts.len();
        let mut ii: usize = 0;
        while ii < n
            invariant
                func_wf(*p, f),
                nb == p.funcs@[f as int].layout@.len(),
                bi < nb,
                blk == p.funcs@[f as int].layout@[bi as int],
                blk < p.blocks@.len(),
                n == p.blocks@[blk as int].insts@.len(),
                all_below(p.blocks@[blk as int].insts@, p.values@.len() as int),
                ii <= n,
                forall|v: usize| #[trigger] r@.contains(v) <==> visited_before(*p, f, bi as int, ii as int, v) && p.values@[v as int].kind is Alloc && tracked_ty(p.values@[v as int].ty),
            decreases n - ii,
        {
            let w = p.blocks[blk].insts[ii];
            proof {
                lemma_visited_step(*p, f, bi as int, ii as int);
            }
            let ghost r0 = r@;
            if matches!(p.values[w].kind, ValueKind::Alloc) && is_tracked_ty(&p.values[w].ty) {
                r.push(w);
            }
            proof {
                assert forall|v: usize| #[trigger] r@.contains(v) <==> visited_before(*p, f, bi as int, ii + 1, v) && p.values@[v as int].kind is Alloc && tracked_ty(p.values@[v as int].ty) by {
                    if r@.contains(v) && !r0.contains(v) {
                        let x = choose|x: int| 0 <= x < r@.len() && r@[x] == v;
                        if x < r0.len() {
                            assert(r0[x] == v);
                        }
                    }
                    if r0.contains(v) {
                        let x = choose|x: int| 0 <= x < r0.len() && r0[x] == v;
                        assert(r@[x] == v);
                    }
                    if v == w && p.values@[v as int].kind is Alloc && tracked_ty(p.values@[v as int].ty) {
                        assert(r@[r@.len() - 1] == v);
                    }
                }
            }
            ii = ii + 1;
        }
        proof {
            lemma_visited_block(*p, f, bi as int);
        }
        bi = bi + 1;
    }
    proof {
        lemma_visited_all(*p, f);
    }
    r
}

/// The block of the layout of function `f` that holds instruction `v`.
pub(crate) fn parent_bb(p: &Program, f: usize, v: usize) -> (r: Option<usize>)
    requires
        func_wf(*p, f),
    ensures
        r matches Some(b) ==> b < p.blocks@.len() && p.blocks@[b as int].insts@.contains(v)
            && p.funcs@[f as int].layout@.contains(b),
        r is None <==> !in_func(*p, f, v),
{
    let lay = &p.funcs[f].layout;
    proof {
        assert(all_below(lay@, p.blocks@.len() as int));
    }
    let mut i: usize = 0;
    while i < lay.len()
        invariant
            func_wf(*p, f),
            *lay == p.funcs@[f as int].layout,
            all_below(lay@, p.blocks@.len() as int),
            i <= lay@.len(),
            forall|k: int| 0 <= k < i ==> !(#[trigger] p.blocks@[lay@[k] as int]).insts@.contains(v),
        decreases lay@.len() - i,
    {
        let b = lay[i];
        let insts = &p.blocks[b].insts;
        let mut j: usize = 0;
        while j < insts.len()
            invariant
                b < p.blocks@.len(),
                *insts == p.blocks@[b as int].insts,
                j <= insts@.len(),
                func_wf(*p, f),
                *lay == p.funcs@[f as int].layout,
                i < lay@.len(),
                b == lay@[i as int],
                forall|k: int| 0 <= k < j ==> insts@[k] != v,
            decreases insts@.len() - j,
        {
            if insts[j] == v {
                assert(insts@[j as int] == v);
                assert(lay@[i as int] == b);
                assert(p.blocks@[lay@[i as int] as int].insts@.contains(v));
                assert(in_func(*p, f, v));
                return Some(b);
            }
            j = j + 1;
        }
        proof {
            assert(!insts@.contains(v));
        }
        i = i + 1;
    }
    proof {
        assert forall|b: int| 0 <= b < lay@.len() implies !#[trigger] p.blocks@[lay@[b] as int].insts@.contains(v) by {
            assert(!p.blocks@[lay@[b] as int].insts@.contains(v));
        }
    }
    None
}

impl SsaBuilder {
    /// Replaces each load of a local variable by the definition it reads
    /// and takes it out of the layout. Fails where the load is not in the
    /// layout, where no parameter stands for the variable, or where the load
    /// stays used.
    pub fn replace_load_with_def(&mut self, p: &mut Program, f: usize) -> (r: bool)
        requires
            func_wf(*old(p), f),
            old(p).blocks@.len() < 0x2000_0000,
            old(self).inv(old(p).blocks@.len() as int, old(p).values@.len() as int),
        ensures
            func_wf(*final(p), f),
            final(p).funcs@.len() == old(p).funcs@.len(),
            final(p).values@.len() == old(p).values@.len(),
            old(self).replace_with@.len() == 0 ==> r && *final(p) == *old(p),
    {
        let fuel = p.blocks.len() + p.blocks.len() + 2;
        let mut j: usize = 0;
        while j < self.replace_with.len()
            invariant
                func_wf(*p, f),
                p.blocks@.len() < 0x2000_0000,
                p.funcs@.len() == old(p).funcs@.len(),
                p.values@.len() == old(p).values@.len(),
                p.blocks@.len() == old(p).blocks@.len(),
                self.inv(p.blocks@.len() as int, p.values@.len() as int),
                j <= self.replace_with@.len(),
                self.replace_with@.len() == old(self).replace_with@.len(),
                old(self).replace_with@.len() == 0 ==> *p == *old(p),
            decreases self.replace_with@.len() - j,
        {
            let (load, _, def) = self.replace_with[j];
            let repl = match def {
                Def::Assign(v) => v,
                Def::Argument(var) => match parent_bb(p, f, load) {
                    Some(b) => match self.read_argument_value(p, var, b, fuel) {
                        Some(x) => x,
                        None => {
                            return false;
                        },
                    },
                    None => {
                        return false;
                    },
                },
            };
            replace_variable(p, f, load, repl);
            if used_in_func(p, f, load) {
                return false;
            }
            let drop = vec![load];
            filter_layout(p, f, &drop, false);
            j = j + 1;
        }
        true
    }

    /// Builds static single assignment form for the local variables of
    /// function `f`: scans its blocks, gives blocks parameters where
    /// definitions merge, replaces the loads of the variables and takes the
    /// variables, and every instruction that uses one, out of the layout.
    /// Says `false` where it stops on the way (see `insert_bb_params` and
    /// `replace_load_with_def`).
    pub fn run_on(&mut self, p: &mut Program, f: usize) -> (r: bool)
        requires
            func_wf(*old(p), f),
            allocs_typed(*old(p), f),
            old(p).blocks@.len() < 0x1000_0000,
        ensures
            func_wf(*final(p), f),
            final(p).funcs@.len() == old(p).funcs@.len(),
            r ==> forall|w: usize|
                #[trigger] in_func(*final(p), f, w) ==> !is_local_var(*old(p), f, w) && forall|a: usize|
                    is_local_var(*old(p), f, a) ==> !uses(final(p).values@[w as int].kind, a),
            (forall|w: usize| !#[trigger] is_local_var(*old(p), f, w)) ==> r,
    {
        let ghost p0 = *p;
        let locals = local_vars(p, f);
        *self = SsaBuilder::new(p.blocks.len());
        proof {
            self.lemma_inv_nv(p.blocks@.len() as int, 0, p.values@.len() as int);
        }
        self.walk_bbs(p, f);
        proof {
            if forall|w: usize| !#[trigger] is_local_var(*p, f, w) {
                if self.vars@.len() > 0 {
                    assert(is_local_var(*p, f, self.vars@[0]));
                }
                assert forall|b: int| 0 <= b < self.bb_params@.len() implies (#[trigger] self.bb_params@[b])@.len() == 0 by {
                    if self.bb_params@[b]@.len() > 0 {
                        assert(self.vars@.contains(self.bb_params@[b]@[0]));
                    }
                }
                if self.replace_with@.len() > 0 {
                    let (l, bb, _) = self.replace_with@[0];
                    assert(p.values@[l as int].kind matches ValueKind::Load(src) && self.vars@.contains(src));
                }
            }
        }
        if !self.insert_bb_params(p, f) {
            return false;
        }
        if !self.replace_load_with_def(p, f) {
            return false;
        }
        let ghost p1 = *p;
        filter_layout(p, f, &locals, true);
        proof {
            assert forall|w: usize| #[trigger] in_func(*p, f, w) implies !is_local_var(p0, f, w) && forall|a: usize|
                is_local_var(p0, f, a) ==> !uses(p.values@[w as int].kind, a) by {
                assert(!dropped(p1, locals@, true, w));
                assert(!locals@.contains(w));
                assert forall|a: usize| is_local_var(p0, f, a) implies !uses(p.values@[w as int].kind, a) by {
                    assert(locals@.contains(a));
                    assert(!uses(p1.values@[w as int].kind, a));
                }
            }
        }
        true
    }
}

} // verus!
