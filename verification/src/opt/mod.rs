pub mod sccp;
pub mod utils;
pub mod common_expr;
pub mod ssa;
pub mod unreachable;
pub mod trivial_arg;
pub mod empty_bb;

use vstd::prelude::*;

use crate::ir::Program;
use crate::opt::common_expr::{all_pairs, stuck_free, work_chain, RemoveCommonExpression};
use crate::opt::empty_bb::{has_empty_block, RemoveEmptyBB};
use crate::opt::sccp::{check_params_owned, no_const_branch, params_owned, SCCP};
use crate::opt::ssa::{allocs_typed, check_allocs_typed, is_local_var, SsaBuilder};
use crate::opt::trivial_arg::{check_layout_params_distinct, layout_params_distinct, params_used, RemoveTrivialArgs};
use crate::opt::unreachable::{all_reached, stuck_at_first, unreachable_chain, RemoveUnreachable};
use crate::opt::utils::{check_func_wf, func_wf, in_func};
use crate::ir::uses;

verus! {

/// A pass of the optimizer.
#[derive(Debug, Clone, Copy, PartialEq, Eq, Structural)]
pub enum PassName {
    Unreachable,
    Ssa,
    Sccp,
    EmptyBlocks,
    CommonExpression,
    TrivialArgs,
}

/// Why the optimizer stopped on a function (given by its number).
#[derive(Debug, Clone, Copy, PartialEq, Eq, Structural)]
pub enum OptError {
    /// The function is not in the form that the passes take: a number
    /// names nothing, or its layout lists a block or an instruction twice.
    IllFormed(usize),
    /// A local allocation of the function is not a pointer, or the program
    /// has too many blocks to build static single assignment form.
    Unsupported(usize),
    /// A value is a parameter of two blocks of the function, or twice a
    /// parameter of one of its blocks.
    SharedParam(usize),
    /// The pass stopped on the function.
    Stopped(PassName, usize),
}

/// The function that an error names.
pub open spec fn error_func(e: OptError) -> usize {
    match e {
        OptError::IllFormed(f) => f,
        OptError::Unsupported(f) => f,
        OptError::SharedParam(f) => f,
        OptError::Stopped(_, f) => f,
    }
}

/// The passes in the order in which they run.
pub open spec fn pass_at(step: int) -> PassName {
    if step == 0 || step == 3 {
        PassName::Unreachable
    } else if step == 1 {
        PassName::Ssa
    } else if step == 2 {
        PassName::Sccp
    } else if step == 4 || step == 7 {
        PassName::EmptyBlocks
    } else if step == 5 {
        PassName::CommonExpression
    } else {
        PassName::TrivialArgs
    }
}

/// The pass at `step` of the order of `optimize`.
fn pass_name(step: usize) -> (r: PassName)
    ensures
        r == pass_at(step as int),
{
    if step == 0 || step == 3 {
        PassName::Unreachable
    } else if step == 1 {
        PassName::Ssa
    } else if step == 2 {
        PassName::Sccp
    } else if step == 4 || step == 7 {
        PassName::EmptyBlocks
    } else if step == 5 {
        PassName::CommonExpression
    } else {
        PassName::TrivialArgs
    }
}

/// Whether no instruction of function `f` of `new` is a local variable of
/// `old` or uses one.
pub open spec fn locals_gone(old: Program, new: Program, f: usize) -> bool {
    forall|w: usize|
        #[trigger] in_func(new, f, w) ==> !is_local_var(old, f, w) && forall|a: usize|
            is_local_var(old, f, a) ==> !uses(new.values@[w as int].kind, a)
}

/// Builds static single assignment form for function `f`. It is refused,
/// and the program left as it is, where a local allocation of `f` is not a
/// pointer or where the program has `0x1000_0000` blocks or more.
pub fn build_ssa(p: &mut Program, f: usize) -> (r: Result<(), OptError>)
    requires
        func_wf(*old(p), f),
    ensures
        func_wf(*final(p), f),
        final(p).funcs@.len() == old(p).funcs@.len(),
        (r == Err::<(), OptError>(OptError::Unsupported(f))) <==> (old(p).blocks@.len() >= 0x1000_0000 || !allocs_typed(*old(p), f)),
        r == Err::<(), OptError>(OptError::Unsupported(f)) ==> *final(p) == *old(p),
        r is Err ==> r == Err::<(), OptError>(OptError::Unsupported(f)) || r == Err::<(), OptError>(OptError::Stopped(PassName::Ssa, f)),
        r is Ok ==> locals_gone(*old(p), *final(p), f),
        old(p).blocks@.len() < 0x1000_0000 && allocs_typed(*old(p), f) && (forall|w: usize| !#[trigger] is_local_var(*old(p), f, w)) ==> r is Ok,
{
    if p.blocks.len() >= 0x1000_0000 || !check_allocs_typed(p, f) {
        return Err(OptError::Unsupported(f));
    }
    let mut builder = SsaBuilder::new(p.blocks.len());
    if builder.run_on(p, f) {
        Ok(())
    } else {
        Err(OptError::Stopped(PassName::Ssa, f))
    }
}

/// What the pass at `step` promises of a run on function `f` of `old` that
/// leaves `new` and says `ok`: its input was in the form it takes, its
/// output is too, and each pass's own contract holds.
#[verifier::opaque]
pub open spec fn pass_run(step: int, old: Program, new: Program, f: usize, ok: bool) -> bool {
    &&& func_wf(old, f)
    &&& func_wf(new, f)
    &&& new.funcs@.len() == old.funcs@.len()
    &&& if step == 0 || step == 3 {
        &&& unreachable_chain(old, new, f)
        &&& ok <==> all_reached(new, f)
        &&& !ok ==> stuck_at_first(new, f)
    } else if step == 1 {
        &&& old.blocks@.len() < 0x1000_0000
        &&& allocs_typed(old, f)
        &&& ok ==> locals_gone(old, new, f)
        &&& (forall|w: usize| !#[trigger] is_local_var(old, f, w)) ==> ok
    } else if step == 2 {
        &&& params_owned(old, f)
        &&& layout_params_distinct(old, f)
        &&& new.funcs@ == old.funcs@
        &&& ok ==> no_const_branch(new, f)
    } else if step == 4 || step == 7 {
        has_empty_block(old, f) ==> !ok
    } else if step == 5 {
        &&& work_chain(old, new, f)
        &&& ok <==> all_pairs(new, f).len() == 0
        &&& !ok ==> !stuck_free(new, f)
    } else {
        &&& layout_params_distinct(old, f)
        &&& new.funcs@ == old.funcs@
        &&& ok ==> params_used(new, f)
    }
}

/// What a run at `slot` (a step and a function) that fails with `e` did:
/// the function has blocks; the error names it; where the input was not
/// in the form the pass takes, the program is left as it was.
#[verifier::opaque]
pub open spec fn failed_run(e: OptError, slot: (int, int), old: Program, new: Program) -> bool {
    let s = slot.0;
    let f = slot.1 as usize;
    &&& error_func(e) == f
    &&& old.funcs@[f as int].layout@.len() > 0
    &&& match e {
        OptError::IllFormed(_) => !func_wf(old, f) && new == old,
        OptError::Unsupported(_) => s == 1 && func_wf(old, f) && new == old && (old.blocks@.len() >= 0x1000_0000
            || !allocs_typed(old, f)),
        OptError::SharedParam(_) => (s == 2 || s == 6) && func_wf(old, f) && new == old && (!layout_params_distinct(old, f)
            || (s == 2 && !params_owned(old, f))),
        OptError::Stopped(pass, _) => pass == pass_at(s) && pass_run(s, old, new, f, false),
    }
}

/// The slot after `slot` among `n` functions: the next function, or the
/// first function at the next step.
pub open spec fn next_slot(slot: (int, int), n: int) -> (int, int) {
    if slot.1 + 1 < n {
        (slot.0, slot.1 + 1)
    } else {
        (slot.0 + 1, 0)
    }
}

/// The slot after the last of `slots`, or the first slot.
pub open spec fn slot_after(slots: Seq<(int, int)>, n: int) -> (int, int) {
    if slots.len() == 0 {
        (0, 0)
    } else {
        next_slot(slots.last(), n)
    }
}

/// What a successful run at `slot` does: nothing where the function has no
/// blocks, else what `pass_run` says.
pub open spec fn slot_run(slot: (int, int), old: Program, new: Program) -> bool {
    if old.funcs@[slot.1].layout@.len() == 0 {
        new == old
    } else {
        pass_run(slot.0, old, new, slot.1 as usize, true)
    }
}

/// Whether `ps` and `slots` record successful runs, one per slot in order
/// from the first: `ps[i + 1]` is what the run at `slots[i]` leaves of `ps[i]`.
pub open spec fn opt_log(ps: Seq<Program>, slots: Seq<(int, int)>, n: int) -> bool {
    &&& ps.len() == slots.len() + 1
    &&& slots.len() > 0 ==> slots[0] == (0int, 0int)
    &&& forall|i: int| 1 <= i < slots.len() ==> #[trigger] slots[i] == next_slot(slots[i - 1], n)
    &&& forall|i: int|
        0 <= i < slots.len() ==> 0 <= (#[trigger] slots[i]).0 < 8 && 0 <= slots[i].1 < n && slot_run(slots[i], ps[i], ps[i + 1])
}

/// Runs the pass at `step` of the order of `optimize` on function `f`,
/// after testing what the pass takes of its input.
fn run_pass(p: &mut Program, step: usize, f: usize) -> (r: Result<(), OptError>)
    requires
        f < old(p).funcs@.len(),
        step < 8,
        old(p).funcs@[f as int].layout@.len() > 0,
    ensures
        r is Ok ==> pass_run(step as int, *old(p), *final(p), f, true),
        r is Err ==> failed_run(r->Err_0, (step as int, f as int), *old(p), *final(p)),
        final(p).funcs@.len() == old(p).funcs@.len(),
        r is Ok ==> func_wf(*final(p), f),
        r is Err ==> error_func(r->Err_0) == f,
        !func_wf(*old(p), f) ==> r == Err::<(), OptError>(OptError::IllFormed(f)) && *final(p) == *old(p),
        r matches Err(OptError::Stopped(pass, _)) ==> pass == pass_at(step as int),
{
    reveal(pass_run);
    reveal(failed_run);
    if !check_func_wf(p, f) {
        return Err(OptError::IllFormed(f));
    }
    let done = if step == 0 || step == 3 {
        RemoveUnreachable.remove_unreachable_bb(p, f)
    } else if step == 1 {
        return build_ssa(p, f);
    } else if step == 2 {
        if !check_layout_params_distinct(p, f) || !check_params_owned(p, f) {
            return Err(OptError::SharedParam(f));
        }
        let mut sccp = SCCP::new();
        sccp.run_on(p, f)
    } else if step == 4 || step == 7 {
        RemoveEmptyBB.run_on(p, f)
    } else if step == 5 {
        RemoveCommonExpression.run_on(p, f)
    } else {
        if !check_layout_params_distinct(p, f) {
            return Err(OptError::SharedParam(f));
        }
        RemoveTrivialArgs.run_on(p, f)
    };
    if done {
        Ok(())
    } else {
        Err(OptError::Stopped(pass_name(step), f))
    }
}

/// Whether `f0` is the first function of `p` that has blocks, and is not in
/// the form that the passes take.
pub open spec fn first_ill_formed(p: Program, f0: int) -> bool {
    &&& 0 <= f0 < p.funcs@.len()
    &&& p.funcs@[f0].layout@.len() > 0
    &&& forall|g: int| 0 <= g < f0 ==> #[trigger] p.funcs@[g].layout@.len() == 0
    &&& !func_wf(p, f0 as usize)
}

/// Runs the passes, each on every function that has blocks, in this order:
/// unreachable blocks, static single assignment form, constant propagation,
/// unreachable blocks, empty blocks, common expressions, trivial block
/// parameters, empty blocks. Stops at the first function on which a pass
/// cannot run or stops, and names it. The runs form a log (`opt_log`): one
/// per step and function, in order, each doing what its pass promises
/// (`pass_run`); where it fails, the last run is the failing one
/// (`failed_run`); where it succeeds, every step ran on every function.
pub fn optimize(p: &mut Program) -> (r: Result<(), OptError>)
    ensures
        final(p).funcs@.len() == old(p).funcs@.len(),
        r is Ok ==> final(p).wf() || *final(p) == *old(p),
        r is Err ==> error_func(r->Err_0) < old(p).funcs@.len(),
        (forall|g: int| 0 <= g < old(p).funcs@.len() ==> #[trigger] old(p).funcs@[g].layout@.len() == 0) ==> r is Ok
            && *final(p) == *old(p),
        forall|f0: int| #[trigger] first_ill_formed(*old(p), f0) ==> r == Err::<(), OptError>(OptError::IllFormed(f0 as usize)),
        exists|ps: Seq<Program>, slots: Seq<(int, int)>|
            #[trigger] opt_log(ps, slots, old(p).funcs@.len() as int) && ps[0] == *old(p) && match r {
                Ok(_) => ps.last() == *final(p) && slot_after(slots, old(p).funcs@.len() as int) == if old(p).funcs@.len() > 0 {
                    (8int, 0int)
                } else {
                    (0int, 0int)
                },
                Err(e) => failed_run(e, slot_after(slots, old(p).funcs@.len() as int), ps.last(), *final(p)),
            },
{
    let ghost mut ps: Seq<Program> = seq![*p];
    let ghost mut slots: Seq<(int, int)> = Seq::empty();
    let ghost none = forall|g: int| 0 <= g < old(p).funcs@.len() ==> #[trigger] old(p).funcs@[g].layout@.len() == 0;
    let n = p.funcs.len();
    let mut step: usize = 0;
    while step < 8
        invariant
            n == old(p).funcs@.len(),
            p.funcs@.len() == n,
            step <= 8,
            p.wf() || *p == *old(p),
            none == forall|g: int| 0 <= g < old(p).funcs@.len() ==> #[trigger] old(p).funcs@[g].layout@.len() == 0,
            none ==> *p == *old(p),
            step > 0 ==> forall|f0: int| !#[trigger] first_ill_formed(*old(p), f0),
            step == 0 ==> *p == *old(p),
            opt_log(ps, slots, n as int),
            ps[0] == *old(p),
            ps.last() == *p,
            n > 0 ==> slot_after(slots, n as int) == (step as int, 0int),
            n == 0 ==> slots.len() == 0,
        decreases 8 - step,
    {
        let mut f: usize = 0;
        while f < n
            invariant
                n == old(p).funcs@.len(),
                p.funcs@.len() == n,
                step < 8,
                f <= n,
                p.wf() || *p == *old(p),
                none == forall|g: int| 0 <= g < old(p).funcs@.len() ==> #[trigger] old(p).funcs@[g].layout@.len() == 0,
                none ==> *p == *old(p),
                step > 0 ==> forall|f0: int| !#[trigger] first_ill_formed(*old(p), f0),
                step == 0 ==> forall|f0: int| 0 <= f0 < f ==> !#[trigger] first_ill_formed(*old(p), f0),
                step == 0 && (forall|g: int| 0 <= g < f ==> #[trigger] old(p).funcs@[g].layout@.len() == 0) ==> *p == *old(p),
                opt_log(ps, slots, n as int),
                ps[0] == *old(p),
                ps.last() == *p,
                f < n ==> slot_after(slots, n as int) == (step as int, f as int),
                f == n && n > 0 ==> slot_after(slots, n as int) == (step + 1, 0int),
                n == 0 ==> slots.len() == 0,
            decreases n - f,
        {
            let ghost before = *p;
            let ghost all_empty = forall|g: int| 0 <= g < f ==> #[trigger] old(p).funcs@[g].layout@.len() == 0;
            if p.funcs[f].layout.len() > 0 {
                match run_pass(p, step, f) {
                    Ok(()) => {},
                    Err(e) => {
                        proof {
                            assert(failed_run(e, slot_after(slots, n as int), ps.last(), *p));
                            assert(opt_log(ps, slots, n as int));
                            assert forall|f0: int| #[trigger] first_ill_formed(*old(p), f0) implies e == OptError::IllFormed(
                                f0 as usize,
                            ) by {
                                if f0 > f {
                                    assert(old(p).funcs@[f as int].layout@.len() == 0);
                                    assert(before == *old(p));
                                }
                            }
                        }
                        return Err(e);
                    },
                }
            }
            proof {
                let slot = (step as int, f as int);
                assert(slot_run(slot, before, *p));
                let ps2 = ps.push(*p);
                let slots2 = slots.push(slot);
                assert forall|i: int| 1 <= i < slots2.len() implies #[trigger] slots2[i] == next_slot(slots2[i - 1], n as int) by {
                    if i < slots.len() {
                        assert(slots2[i] == slots[i] && slots2[i - 1] == slots[i - 1]);
                    }
                }
                assert forall|i: int| 0 <= i < slots2.len() implies 0 <= (#[trigger] slots2[i]).0 < 8 && 0 <= slots2[i].1 < n
                    && slot_run(slots2[i], ps2[i], ps2[i + 1]) by {
                    if i < slots.len() {
                        assert(slots2[i] == slots[i] && ps2[i] == ps[i] && ps2[i + 1] == ps[i + 1]);
                    } else {
                        assert(ps2[i] == before);
                    }
                }
                assert(opt_log(ps2, slots2, n as int));
                ps = ps2;
                slots = slots2;
            }
            proof {
                if step == 0 {
                    assert forall|f0: int| 0 <= f0 < f + 1 implies !#[trigger] first_ill_formed(*old(p), f0) by {
                        if f0 == f && first_ill_formed(*old(p), f0) {
                            assert(before == *old(p));
                        }
                    }
                }
            }
            f = f + 1;
        }
        step = step + 1;
    }
    proof {
        assert(opt_log(ps, slots, n as int));
    }
    Ok(())
}

} // verus!
