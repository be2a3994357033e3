use vstd::prelude::*;

use crate::ast::exp::{bool_int, in_i32, lemma_trunc_div_rem_in_range, trunc_div, trunc_rem};
use crate::codegen::program::{ir_binary_supported, IrBinaryOp};
use crate::ir::{all_below, kind_ok, targets_block, uses, uses_value, IrType, Program, ValueKind};
use crate::opt::ssa::parent_bb;
use crate::opt::trivial_arg::{args_reach, args_reach_exec, layout_params_distinct, lemma_remove_distinct, params_distinct, remove_arg, fix_bb_param_idx};
use crate::opt::utils::{copy_vec, first_idx, func_wf, in_func, is_first, lemma_first_idx, value_kind};

verus! {

/// What sparse conditional constant propagation knows of a value: nothing
/// yet (`Top`), one constant, or that it varies (`Bottom`).
#[derive(Debug, Clone, Copy, PartialEq, Eq, Structural)]
pub enum CellType {
    Top,
    Constant(i32),
    Bottom,
}

/// The meet of two cells.
pub open spec fn meet2(a: CellType, b: CellType) -> CellType {
    match (a, b) {
        (CellType::Top, _) => b,
        (_, CellType::Top) => a,
        (CellType::Constant(i), CellType::Constant(j)) => if i == j {
            a
        } else {
            CellType::Bottom
        },
        _ => CellType::Bottom,
    }
}

/// The meet of the cells of `s`, from first to last.
pub open spec fn meet_all(s: Seq<CellType>) -> CellType
    decreases s.len(),
{
    if s.len() == 0 {
        CellType::Top
    } else {
        meet2(meet_all(s.drop_last()), s.last())
    }
}

/// Whether some cell of `s` is the constant `c`.
pub open spec fn has_const(s: Seq<CellType>, c: i32) -> bool {
    exists|i: int| 0 <= i < s.len() && #[trigger] s[i] == CellType::Constant(c)
}

/// Whether every cell of `s` is `Top` or the constant `c`.
pub open spec fn only_top_or(s: Seq<CellType>, c: i32) -> bool {
    forall|i: int| 0 <= i < s.len() ==> #[trigger] s[i] == CellType::Top || s[i] == CellType::Constant(c)
}

/// The meet of a list of cells, stated without an order: `Top` when every
/// cell is `Top`; a constant when every cell is `Top` or that constant and
/// one is the constant; `Bottom` else.
pub open spec fn meet_of(s: Seq<CellType>) -> CellType {
    if forall|i: int| 0 <= i < s.len() ==> #[trigger] s[i] == CellType::Top {
        CellType::Top
    } else if exists|c: i32|
        #[trigger] has_const(s, c) && only_top_or(s, c) {
        CellType::Constant(
            choose|c: i32|
                #[trigger] has_const(s, c) && only_top_or(s, c),
        )
    } else {
        CellType::Bottom
    }
}

/// Meeting the cells one by one, in order, gives the meet stated without an order.
pub proof fn lemma_meet_all_is_meet_of(s: Seq<CellType>)
    ensures
        meet_all(s) == meet_of(s),
    decreases s.len(),
{
    if s.len() > 0 {
        let t = s.drop_last();
        lemma_meet_all_is_meet_of(t);
        let x = s.last();
        assert(s[s.len() - 1] == x);
        assert forall|i: int| 0 <= i < t.len() implies #[trigger] t[i] == s[i] by {}
        if forall|i: int| 0 <= i < t.len() ==> #[trigger] t[i] == CellType::Top {
            match x {
                CellType::Top => {
                    assert forall|i: int| 0 <= i < s.len() implies #[trigger] s[i] == CellType::Top by {
                        if i < t.len() {
                            assert(t[i] == CellType::Top);
                        }
                    }
                },
                CellType::Constant(c) => {
                    assert(s[s.len() - 1] == CellType::Constant(c));
                    assert forall|i: int| 0 <= i < s.len() implies #[trigger] s[i] == CellType::Top || s[i]
                        == CellType::Constant(c) by {
                        if i < t.len() {
                            assert(t[i] == CellType::Top);
                        }
                    }
                    lemma_meet_of_constant(s, c);
                },
                CellType::Bottom => {
                    assert(s[s.len() - 1] == CellType::Bottom);
                    lemma_meet_of_bottom(s, s.len() - 1);
                },
            }
        } else {
            let i0 = choose|i: int| 0 <= i < t.len() && #[trigger] t[i] != CellType::Top;
            assert(s[i0] == t[i0]);
            match meet_of(t) {
                CellType::Top => {},
                CellType::Constant(c) => {
                    lemma_meet_of_constant_facts(t, c);
                    let w = choose|i: int| 0 <= i < t.len() && #[trigger] t[i] == CellType::Constant(c);
                    assert(s[w] == t[w]);
                    match x {
                        CellType::Top => {
                            assert forall|i: int| 0 <= i < s.len() implies #[trigger] s[i] == CellType::Top || s[i]
                                == CellType::Constant(c) by {
                                if i < t.len() {
                                    assert(t[i] == CellType::Top || t[i] == CellType::Constant(c));
                                }
                            }
                            lemma_meet_of_constant(s, c);
                        },
                        CellType::Constant(d) => {
                            if d == c {
                                assert forall|i: int| 0 <= i < s.len() implies #[trigger] s[i] == CellType::Top || s[i]
                                    == CellType::Constant(c) by {
                                    if i < t.len() {
                                        assert(t[i] == CellType::Top || t[i] == CellType::Constant(c));
                                    }
                                }
                                lemma_meet_of_constant(s, c);
                            } else {
                                lemma_meet_of_two(s, w, s.len() - 1);
                            }
                        },
                        CellType::Bottom => {
                            lemma_meet_of_bottom(s, s.len() - 1);
                        },
                    }
                },
                CellType::Bottom => {
                    lemma_meet_of_bottom_facts(t);
                    if exists|i: int| 0 <= i < t.len() && #[trigger] t[i] == CellType::Bottom {
                        let b = choose|i: int| 0 <= i < t.len() && #[trigger] t[i] == CellType::Bottom;
                        assert(s[b] == t[b]);
                        lemma_meet_of_bottom(s, b);
                    } else {
                        let (i, j) = choose|i: int, j: int|
                            0 <= i < t.len() && 0 <= j < t.len() && #[trigger] t[i] is Constant && #[trigger] t[j] is Constant
                                && t[i] != t[j];
                        assert(s[i] == t[i] && s[j] == t[j]);
                        lemma_meet_of_two(s, i, j);
                    }
                },
            }
        }
    } else {
        assert(meet_of(s) == CellType::Top);
    }
}

proof fn lemma_meet_of_constant(s: Seq<CellType>, c: i32)
    requires
        exists|i: int| 0 <= i < s.len() && #[trigger] s[i] == CellType::Constant(c),
        forall|i: int| 0 <= i < s.len() ==> #[trigger] s[i] == CellType::Top || s[i] == CellType::Constant(c),
    ensures
        meet_of(s) == CellType::Constant(c),
{
    let w = choose|i: int| 0 <= i < s.len() && #[trigger] s[i] == CellType::Constant(c);
    assert(s[w] != CellType::Top);
    assert(has_const(s, c) && only_top_or(s, c));
    let c2 = choose|c2: i32|
        #[trigger] has_const(s, c2) && only_top_or(s, c2);
    assert(s[w] == CellType::Top || s[w] == CellType::Constant(c2));
}

proof fn lemma_meet_of_constant_facts(s: Seq<CellType>, c: i32)
    requires
        meet_of(s) == CellType::Constant(c),
    ensures
        exists|i: int| 0 <= i < s.len() && #[trigger] s[i] == CellType::Constant(c),
        forall|i: int| 0 <= i < s.len() ==> #[trigger] s[i] == CellType::Top || s[i] == CellType::Constant(c),
{
}

proof fn lemma_meet_of_bottom_facts(s: Seq<CellType>)
    requires
        meet_of(s) == CellType::Bottom,
    ensures
        (exists|i: int| 0 <= i < s.len() && #[trigger] s[i] == CellType::Bottom) || (exists|i: int, j: int|
            0 <= i < s.len() && 0 <= j < s.len() && #[trigger] s[i] is Constant && #[trigger] s[j] is Constant && s[i]
                != s[j]),
{
    if !(exists|i: int| 0 <= i < s.len() && #[trigger] s[i] == CellType::Bottom) {
        let i0 = choose|i: int| 0 <= i < s.len() && #[trigger] s[i] != CellType::Top;
        let c = s[i0]->Constant_0;
        assert(s[i0] == CellType::Constant(c));
        if !(exists|i: int, j: int|
            0 <= i < s.len() && 0 <= j < s.len() && #[trigger] s[i] is Constant && #[trigger] s[j] is Constant && s[i]
                != s[j]) {
            assert forall|i: int| 0 <= i < s.len() implies #[trigger] s[i] == CellType::Top || s[i] == CellType::Constant(c) by {
                if s[i] != CellType::Top {
                    assert(s[i] != CellType::Bottom);
                    assert(s[i] is Constant);
                    assert(s[i] == s[i0]);
                }
            }
            lemma_meet_of_constant(s, c);
        }
    }
}

proof fn lemma_meet_of_bottom(s: Seq<CellType>, b: int)
    requires
        0 <= b < s.len(),
        s[b] == CellType::Bottom,
    ensures
        meet_of(s) == CellType::Bottom,
{
    assert(s[b] != CellType::Top);
    if exists|c: i32|
        #[trigger] has_const(s, c) && only_top_or(s, c) {
        let c = choose|c: i32|
            #[trigger] has_const(s, c) && only_top_or(s, c);
        assert(s[b] == CellType::Top || s[b] == CellType::Constant(c));
    }
}

proof fn lemma_meet_of_two(s: Seq<CellType>, i: int, j: int)
    requires
        0 <= i < s.len(),
        0 <= j < s.len(),
        s[i] is Constant,
        s[j] is Constant,
        s[i] != s[j],
    ensures
        meet_of(s) == CellType::Bottom,
{
    assert(s[i] != CellType::Top);
    if exists|c: i32|
        #[trigger] has_const(s, c) && only_top_or(s, c) {
        let c = choose|c: i32|
            #[trigger] has_const(s, c) && only_top_or(s, c);
        assert(s[i] == CellType::Top || s[i] == CellType::Constant(c));
        assert(s[j] == CellType::Top || s[j] == CellType::Constant(c));
    }
}

/// The meet of two cells does not depend on their order.
pub proof fn lemma_meet2_commutative(a: CellType, b: CellType)
    ensures
        meet2(a, b) == meet2(b, a),
{
}

/// Meeting three cells does not depend on how they are grouped.
pub proof fn lemma_meet2_associative(a: CellType, b: CellType, c: CellType)
    ensures
        meet2(meet2(a, b), c) == meet2(a, meet2(b, c)),
{
}

/// A cell met with itself is unchanged; `Top` changes nothing; `Bottom` absorbs all.
pub proof fn lemma_meet2_laws(a: CellType)
    ensures
        meet2(a, a) == a,
        meet2(CellType::Top, a) == a,
        meet2(a, CellType::Top) == a,
        meet2(CellType::Bottom, a) == CellType::Bottom,
        meet2(a, CellType::Bottom) == CellType::Bottom,
{
}

/// The meet of a list does not depend on the order of its cells: two lists
/// with the same cells, each as often, meet alike.
pub proof fn lemma_meet_order_free(s: Seq<CellType>, t: Seq<CellType>)
    requires
        s.to_multiset() == t.to_multiset(),
    ensures
        meet_all(s) == meet_all(t),
{
    lemma_meet_all_is_meet_of(s);
    lemma_meet_all_is_meet_of(t);
    assert forall|x: CellType| #[trigger] s.contains(x) <==> t.contains(x) by {
        s.to_multiset_ensures();
        t.to_multiset_ensures();
        assert(s.to_multiset().count(x) == t.to_multiset().count(x));
        assert(s.contains(x) <==> s.to_multiset().count(x) > 0);
        assert(t.contains(x) <==> t.to_multiset().count(x) > 0);
    }
    assert forall|i: int| 0 <= i < s.len() implies t.contains(#[trigger] s[i]) by {
        assert(s.contains(s[i]));
    }
    assert forall|i: int| 0 <= i < t.len() implies s.contains(#[trigger] t[i]) by {
        assert(t.contains(t[i]));
    }
    lemma_meet_of_same_cells(s, t);
}

/// Two lists holding the same cells (in any order, any number of times) have the same meet.
proof fn lemma_meet_of_same_cells(s: Seq<CellType>, t: Seq<CellType>)
    requires
        forall|i: int| 0 <= i < s.len() ==> t.contains(#[trigger] s[i]),
        forall|i: int| 0 <= i < t.len() ==> s.contains(#[trigger] t[i]),
    ensures
        meet_of(s) == meet_of(t),
{
    lemma_meet_of_same_cells_dir(s, t);
    lemma_meet_of_same_cells_dir(t, s);
}

proof fn lemma_meet_of_same_cells_dir(s: Seq<CellType>, t: Seq<CellType>)
    requires
        forall|i: int| 0 <= i < s.len() ==> t.contains(#[trigger] s[i]),
        forall|i: int| 0 <= i < t.len() ==> s.contains(#[trigger] t[i]),
    ensures
        meet_of(s) is Top ==> meet_of(t) is Top,
        meet_of(s) is Constant ==> meet_of(t) == meet_of(s),
{
    if meet_of(s) is Top {
        assert forall|i: int| 0 <= i < t.len() implies #[trigger] t[i] == CellType::Top by {
            assert(s.contains(t[i]));
            let k = choose|k: int| 0 <= k < s.len() && s[k] == t[i];
            if !(forall|q: int| 0 <= q < s.len() ==> #[trigger] s[q] == CellType::Top) {
                let q = choose|q: int| 0 <= q < s.len() && #[trigger] s[q] != CellType::Top;
                if s[q] == CellType::Bottom {
                    lemma_meet_of_bottom(s, q);
                }
            }
            assert(s[k] == CellType::Top);
        }
    }
    if meet_of(s) is Constant {
        let c = meet_of(s)->Constant_0;
        lemma_meet_of_constant_facts(s, c);
        let w = choose|i: int| 0 <= i < s.len() && #[trigger] s[i] == CellType::Constant(c);
        assert(t.contains(s[w]));
        let w2 = choose|k: int| 0 <= k < t.len() && t[k] == s[w];
        assert(t[w2] == CellType::Constant(c));
        assert forall|i: int| 0 <= i < t.len() implies #[trigger] t[i] == CellType::Top || t[i] == CellType::Constant(c) by {
            assert(s.contains(t[i]));
            let k = choose|k: int| 0 <= k < s.len() && s[k] == t[i];
            assert(s[k] == CellType::Top || s[k] == CellType::Constant(c));
        }
        lemma_meet_of_constant(t, c);
    }
}

/// The meet of the cells of `operands`.
pub fn meet(operands: &[CellType]) -> (r: CellType)
    ensures
        r == meet_all(operands@),
{
    let mut res = CellType::Top;
    let mut i: usize = 0;
    while i < operands.len()
        invariant
            i <= operands@.len(),
            res == meet_all(operands@.subrange(0, i as int)),
        decreases operands@.len() - i,
    {
        let opr = operands[i];
        proof {
            let s = operands@.subrange(0, i + 1);
            assert(s.drop_last() =~= operands@.subrange(0, i as int));
            assert(s.last() == opr);
        }
        match (res, opr) {
            (CellType::Top, _) => res = opr,
            (_, CellType::Top) | (CellType::Bottom, _) => {},
            (CellType::Constant(a), CellType::Constant(b)) => {
                if a != b {
                    res = CellType::Bottom;
                }
            },
            (_, CellType::Bottom) => {
                res = CellType::Bottom;
            },
        }
        i = i + 1;
    }
    assert(operands@.subrange(0, i as int) =~= operands@);
    res
}

/// The value of `lhs op rhs` for the operators that the propagation folds.
pub open spec fn fold_value(op: IrBinaryOp, lhs: int, rhs: int) -> int {
    match op {
        IrBinaryOp::Add => lhs + rhs,
        IrBinaryOp::Sub => lhs - rhs,
        IrBinaryOp::Mul => lhs * rhs,
        IrBinaryOp::And => bool_int(lhs != 0 && rhs != 0),
        IrBinaryOp::Or => bool_int(lhs != 0 || rhs != 0),
        IrBinaryOp::Eq => bool_int(lhs == rhs),
        IrBinaryOp::NotEq => bool_int(lhs != rhs),
        IrBinaryOp::Lt => bool_int(lhs < rhs),
        IrBinaryOp::Le => bool_int(lhs <= rhs),
        IrBinaryOp::Gt => bool_int(lhs > rhs),
        IrBinaryOp::Ge => bool_int(lhs >= rhs),
        IrBinaryOp::Div => trunc_div(lhs, rhs),
        IrBinaryOp::Mod => trunc_rem(lhs, rhs),
        _ => 0,
    }
}

/// Whether folding `lhs op rhs` stays within `i32` and divides by no zero.
pub open spec fn foldable(op: IrBinaryOp, lhs: i32, rhs: i32) -> bool {
    &&& ir_binary_supported(op)
    &&& match op {
        IrBinaryOp::Div | IrBinaryOp::Mod => rhs != 0 && !(lhs == i32::MIN && rhs == -1),
        _ => in_i32(fold_value(op, lhs as int, rhs as int)),
    }
}

/// What the propagation knows of `lhs op rhs`.
pub open spec fn evaluate_spec(op: IrBinaryOp, lhs: CellType, rhs: CellType) -> CellType {
    match (lhs, rhs) {
        (CellType::Bottom, _) | (_, CellType::Bottom) => CellType::Bottom,
        (CellType::Top, _) | (_, CellType::Top) => CellType::Top,
        (CellType::Constant(l), CellType::Constant(r)) => CellType::Constant(fold_value(op, l as int, r as int) as i32),
    }
}

/// What the propagation knows of `lhs op rhs`, from what it knows of the operands.
pub fn evaluate(op: IrBinaryOp, lhs_ty: CellType, rhs_ty: CellType) -> (r: CellType)
    requires
        (lhs_ty is Constant && rhs_ty is Constant) ==> foldable(op, lhs_ty->Constant_0, rhs_ty->Constant_0),
    ensures
        r == evaluate_spec(op, lhs_ty, rhs_ty),
{
    match (lhs_ty, rhs_ty) {
        (CellType::Bottom, _) | (_, CellType::Bottom) => CellType::Bottom,
        (CellType::Top, _) | (_, CellType::Top) => CellType::Top,
        (CellType::Constant(lhs), CellType::Constant(rhs)) => {
            let result: i32 = match op {
                IrBinaryOp::Add => lhs + rhs,
                IrBinaryOp::Sub => lhs - rhs,
                IrBinaryOp::Mul => lhs * rhs,
                IrBinaryOp::And => if lhs != 0 && rhs != 0 {
                    1
                } else {
                    0
                },
                IrBinaryOp::Or => if lhs != 0 || rhs != 0 {
                    1
                } else {
                    0
                },
                IrBinaryOp::Eq => if lhs == rhs {
                    1
                } else {
                    0
                },
                IrBinaryOp::NotEq => if lhs != rhs {
                    1
                } else {
                    0
                },
                IrBinaryOp::Lt => if lhs < rhs {
                    1
                } else {
                    0
                },
                IrBinaryOp::Le => if lhs <= rhs {
                    1
                } else {
                    0
                },
                IrBinaryOp::Gt => if lhs > rhs {
                    1
                } else {
                    0
                },
                IrBinaryOp::Ge => if lhs >= rhs {
                    1
                } else {
                    0
                },
                IrBinaryOp::Div => {
                    proof {
                        lemma_trunc_div_rem_in_range(lhs as int, rhs as int);
                    }
                    lhs.checked_div(rhs).unwrap()
                },
                IrBinaryOp::Mod => {
                    proof {
                        lemma_trunc_div_rem_in_range(lhs as int, rhs as int);
                    }
                    lhs.checked_rem(rhs).unwrap()
                },
                _ => {
                    proof {
                        assert(false);
                    }
                    0
                },
            };
            CellType::Constant(result)
        },
    }
}

/// Once an operand is known to vary, so is the result; while one is still
/// unknown and none varies, so is the result.
pub proof fn lemma_evaluate_strict(op: IrBinaryOp, x: CellType)
    ensures
        evaluate_spec(op, CellType::Bottom, x) == CellType::Bottom,
        evaluate_spec(op, x, CellType::Bottom) == CellType::Bottom,
        x != CellType::Bottom ==> evaluate_spec(op, CellType::Top, x) == CellType::Top,
        x != CellType::Bottom ==> evaluate_spec(op, x, CellType::Top) == CellType::Top,
{
}


/// Whether `a` lies at or below `b` in the order of the lattice, where
/// `Top` is highest and `Bottom` lowest.
pub open spec fn below(a: CellType, b: CellType) -> bool {
    a == b || b == CellType::Top || a == CellType::Bottom
}

/// How many times a cell can still go down.
pub open spec fn height(c: CellType) -> nat {
    match c {
        CellType::Top => 2,
        CellType::Constant(_) => 1,
        CellType::Bottom => 0,
    }
}

proof fn lemma_below_trans(a: CellType, b: CellType, c: CellType)
    requires
        below(a, b),
        below(b, c),
    ensures
        below(a, c),
{
}

/// Meeting lower cells gives a lower cell.
pub proof fn lemma_meet2_monotone(a: CellType, a2: CellType, b: CellType, b2: CellType)
    requires
        below(a2, a),
        below(b2, b),
    ensures
        below(meet2(a2, b2), meet2(a, b)),
{
}

/// Evaluating lower operands gives a lower result.
pub proof fn lemma_evaluate_monotone(op: IrBinaryOp, a: CellType, a2: CellType, b: CellType, b2: CellType)
    requires
        below(a2, a),
        below(b2, b),
    ensures
        below(evaluate_spec(op, a2, b2), evaluate_spec(op, a, b)),
{
}

/// What the propagation knows of a value of the function, and the block
/// the value belongs to.
#[derive(Debug, Clone, Copy)]
pub struct LatticeCell {
    pub ty: CellType,
    pub bb: usize,
}

/// A use of the value `src` by the instruction `dst`.
#[derive(Debug, Clone, Copy)]
pub struct SsaEdge {
    pub src: usize,
    pub dst: usize,
}

/// A jump or branch from block `src` to block `dst`, and whether the
/// propagation found that it may be taken.
#[derive(Debug, Clone, Copy)]
pub struct FlowEdge {
    pub src: usize,
    pub dst: usize,
    pub executable: bool,
}

impl LatticeCell {
    fn new(ty: CellType, bb: usize) -> (r: LatticeCell)
        ensures
            r == (LatticeCell { ty, bb }),
    {
        LatticeCell { ty, bb }
    }
}

impl FlowEdge {
    fn new(src: usize, dst: usize) -> (r: FlowEdge)
        ensures
            r == (FlowEdge { src, dst, executable: false }),
    {
        FlowEdge { src, dst, executable: false }
    }
}

/// The sum of the heights of the cells of `s`.
pub open spec fn hsum(s: Seq<Option<LatticeCell>>) -> nat
    decreases s.len(),
{
    if s.len() == 0 {
        0
    } else {
        hsum(s.drop_last()) + match s.last() {
            Some(c) => height(c.ty),
            None => 0,
        }
    }
}

/// The number of edges of `s` not yet found executable.
pub open spec fn xcount(s: Seq<FlowEdge>) -> nat
    decreases s.len(),
{
    if s.len() == 0 {
        0
    } else {
        xcount(s.drop_last()) + if s.last().executable {
            0nat
        } else {
            1nat
        }
    }
}

proof fn lemma_hsum_update(s: Seq<Option<LatticeCell>>, i: int, c: LatticeCell, d: LatticeCell)
    requires
        0 <= i < s.len(),
        s[i] == Some(d),
    ensures
        hsum(s.update(i, Some(c))) + height(d.ty) == hsum(s) + height(c.ty),
    decreases s.len(),
{
    let t = s.update(i, Some(c));
    if i == s.len() - 1 {
        assert(t.drop_last() =~= s.drop_last());
    } else {
        assert(t.drop_last() =~= s.drop_last().update(i, Some(c)));
        lemma_hsum_update(s.drop_last(), i, c, d);
    }
}

proof fn lemma_xcount_mark(s: Seq<FlowEdge>, i: int)
    requires
        0 <= i < s.len(),
        !s[i].executable,
    ensures
        xcount(s.update(i, FlowEdge { src: s[i].src, dst: s[i].dst, executable: true })) + 1 == xcount(s),
    decreases s.len(),
{
    let e = FlowEdge { src: s[i].src, dst: s[i].dst, executable: true };
    let t = s.update(i, e);
    if i == s.len() - 1 {
        assert(t.drop_last() =~= s.drop_last());
    } else {
        assert(t.drop_last() =~= s.drop_last().update(i, e));
        lemma_xcount_mark(s.drop_last(), i);
    }
}

/// The argument that the last instruction of block `src`, a jump or branch
/// to block `bb`, passes for the parameter at position `idx` of `bb`; `None`
/// where the block is empty, ends otherwise, or passes no such argument.
pub open spec fn edge_arg(p: Program, src: usize, bb: usize, idx: int) -> Option<usize> {
    let insts = p.blocks@[src as int].insts@;
    if insts.len() == 0 {
        None
    } else {
        match p.values@[insts.last() as int].kind {
            ValueKind::Jump(_, a) => if 0 <= idx < a@.len() {
                Some(a@[idx])
            } else {
                None
            },
            ValueKind::Branch(_, t, ta, _, fa) => if t == bb {
                if 0 <= idx < ta@.len() {
                    Some(ta@[idx])
                } else {
                    None
                }
            } else if 0 <= idx < fa@.len() {
                Some(fa@[idx])
            } else {
                None
            },
            _ => None,
        }
    }
}

proof fn lemma_edge_arg_below(p: Program, src: usize, bb: usize, idx: int)
    requires
        p.wf(),
        src < p.blocks@.len(),
    ensures
        edge_arg(p, src, bb, idx) matches Some(a) ==> a < p.values@.len(),
{
    let insts = p.blocks@[src as int].insts@;
    if insts.len() > 0 {
        assert(all_below(insts, p.values@.len() as int));
        assert(insts[insts.len() - 1] == insts.last());
        let k = p.values@[insts.last() as int].kind;
        assert(kind_ok(k, p.values@.len() as int, p.blocks@.len() as int, p.funcs@.len() as int));
    }
}

/// The last instruction of block `bb`, where it has one.
fn last_inst_of_bb(p: &Program, bb: usize) -> (r: Option<usize>)
    requires
        bb < p.blocks@.len(),
    ensures
        r == (if p.blocks@[bb as int].insts@.len() == 0 {
            None
        } else {
            Some(p.blocks@[bb as int].insts@.last())
        }),
{
    let insts = &p.blocks[bb].insts;
    if insts.len() == 0 {
        None
    } else {
        Some(insts[insts.len() - 1])
    }
}

fn edge_arg_exec(p: &Program, src: usize, bb: usize, idx: usize) -> (r: Option<usize>)
    requires
        p.wf(),
        src < p.blocks@.len(),
    ensures
        r == edge_arg(*p, src, bb, idx as int),
{
    match last_inst_of_bb(p, src) {
        None => None,
        Some(exit) => {
            proof {
                assert(all_below(p.blocks@[src as int].insts@, p.values@.len() as int));
                assert(p.blocks@[src as int].insts@[p.blocks@[src as int].insts@.len() - 1] == exit);
            }
            match value_kind(p, exit) {
                ValueKind::Jump(_, a) => if idx < a.len() {
                    Some(a[idx])
                } else {
                    None
                },
                ValueKind::Branch(_, t, ta, _, fa) => if *t == bb {
                    if idx < ta.len() {
                        Some(ta[idx])
                    } else {
                        None
                    }
                } else if idx < fa.len() {
                    Some(fa[idx])
                } else {
                    None
                },
                _ => None,
            }
        },
    }
}

/// Whether folding `lhs op rhs` stays within `i32` and divides by no zero.
fn foldable_exec(op: IrBinaryOp, lhs: i32, rhs: i32) -> (r: bool)
    ensures
        r == foldable(op, lhs, rhs),
{
    let l = lhs as i64;
    let r = rhs as i64;
    match op {
        IrBinaryOp::Add => {
            let v = l + r;
            -2147483648 <= v && v <= 2147483647
        },
        IrBinaryOp::Sub => {
            let v = l - r;
            -2147483648 <= v && v <= 2147483647
        },
        IrBinaryOp::Mul => {
            assert(-2147483648 * 2147483648 <= l * r <= 2147483648 * 2147483648) by (nonlinear_arith)
                requires
                    -2147483648 <= l <= 2147483647,
                    -2147483648 <= r <= 2147483647,
            ;
            let v = l * r;
            -2147483648 <= v && v <= 2147483647
        },
        IrBinaryOp::Div | IrBinaryOp::Mod => rhs != 0 && !(lhs == -2147483648 && rhs == -1),
        IrBinaryOp::Xor | IrBinaryOp::Shl | IrBinaryOp::Shr | IrBinaryOp::Sar => false,
        _ => true,
    }
}

/// Whether the use `e` is of a value by a binary instruction of the layout
/// of function `f`.
pub open spec fn ssa_ok(p: Program, f: usize, e: SsaEdge) -> bool {
    &&& e.src < p.values@.len()
    &&& e.dst < p.values@.len()
    &&& p.values@[e.dst as int].kind is Binary
    &&& in_func(p, f, e.dst)
}

/// Whether no value is a parameter of two blocks of the layout of function `f`.
pub open spec fn params_owned(p: Program, f: usize) -> bool {
    let lay = p.funcs@[f as int].layout@;
    forall|b1: int, b2: int, v: usize|
        0 <= b1 < lay.len() && 0 <= b2 < lay.len() && b1 != b2 && #[trigger] p.blocks@[lay[b1] as int].params@.contains(v)
            ==> !#[trigger] p.blocks@[lay[b2] as int].params@.contains(v)
}

/// Whether no value is a parameter of two blocks of the layout of function `f`.
pub fn check_params_owned(p: &Program, f: usize) -> (r: bool)
    requires
        p.wf(),
        f < p.funcs@.len(),
    ensures
        r == params_owned(*p, f),
{
    let lay = &p.funcs[f].layout;
    let mut b1: usize = 0;
    while b1 < lay.len()
        invariant
            p.wf(),
            f < p.funcs@.len(),
            *lay == p.funcs@[f as int].layout,
            b1 <= lay@.len(),
            forall|x: int, y: int, v: usize|
                0 <= x < b1 && 0 <= y < lay@.len() && x != y && #[trigger] p.blocks@[lay@[x] as int].params@.contains(v)
                    ==> !#[trigger] p.blocks@[lay@[y] as int].params@.contains(v),
        decreases lay@.len() - b1,
    {
        assert(lay@[b1 as int] < p.blocks@.len());
        let ps1 = &p.blocks[lay[b1]].params;
        let mut b2: usize = 0;
        while b2 < lay.len()
            invariant
                p.wf(),
                f < p.funcs@.len(),
                *lay == p.funcs@[f as int].layout,
                b1 < lay@.len(),
                b2 <= lay@.len(),
                *ps1 == p.blocks@[lay@[b1 as int] as int].params,
                forall|x: int, y: int, v: usize|
                    0 <= x < b1 && 0 <= y < lay@.len() && x != y && #[trigger] p.blocks@[lay@[x] as int].params@.contains(v)
                        ==> !#[trigger] p.blocks@[lay@[y] as int].params@.contains(v),
                forall|y: int, v: usize|
                    0 <= y < b2 && y != b1 && #[trigger] p.blocks@[lay@[b1 as int] as int].params@.contains(v)
                        ==> !#[trigger] p.blocks@[lay@[y] as int].params@.contains(v),
            decreases lay@.len() - b2,
        {
            if b2 != b1 {
                assert(lay@[b2 as int] < p.blocks@.len());
                let ps2 = &p.blocks[lay[b2]].params;
                let mut i: usize = 0;
                while i < ps1.len()
                    invariant
                        i <= ps1@.len(),
                        b1 < lay@.len(),
                        b2 < lay@.len(),
                        b1 != b2,
                        f < p.funcs@.len(),
                        *lay == p.funcs@[f as int].layout,
                        *ps1 == p.blocks@[lay@[b1 as int] as int].params,
                        *ps2 == p.blocks@[lay@[b2 as int] as int].params,
                        forall|k: int| 0 <= k < i ==> !ps2@.contains(#[trigger] ps1@[k]),
                    decreases ps1@.len() - i,
                {
                    if position(ps2, ps1[i]).is_some() {
                        proof {
                            let v = ps1@[i as int];
                            assert(p.blocks@[lay@[b1 as int] as int].params@.contains(v));
                            assert(p.blocks@[lay@[b2 as int] as int].params@.contains(v));
                            assert(!params_owned(*p, f));
                        }
                        return false;
                    }
                    i = i + 1;
                }
                proof {
                    assert forall|v: usize| #[trigger] p.blocks@[lay@[b1 as int] as int].params@.contains(v) implies !p.blocks@[lay@[b2 as int] as int].params@.contains(v) by {
                        let k = choose|k: int| 0 <= k < ps1@.len() && ps1@[k] == v;
                        assert(!ps2@.contains(ps1@[k]));
                    }
                }
            }
            b2 = b2 + 1;
        }
        b1 = b1 + 1;
    }
    true
}

/// Where `v` first stands in `s`.
fn position(s: &Vec<usize>, v: usize) -> (r: Option<usize>)
    ensures
        r == (if s@.contains(v) {
            Some(first_idx(s@, v) as usize)
        } else {
            None
        }),
        r matches Some(i) ==> i < s@.len() && s@[i as int] == v,
        s@.contains(v) ==> is_first(s@, v, first_idx(s@, v)),
{
    let mut i: usize = 0;
    while i < s.len()
        invariant
            i <= s@.len(),
            forall|j: int| 0 <= j < i ==> s@[j] != v,
        decreases s@.len() - i,
    {
        if s[i] == v {
            proof {
                assert(is_first(s@, v, i as int));
                lemma_first_idx(s@, v, i as int);
            }
            return Some(i);
        }
        i = i + 1;
    }
    None
}

/// The block and parameter that `def` feeds as the first argument equal to
/// it of the jump or branch `val` (the arguments for the block taken when
/// the condition holds first), where there is one.
pub open spec fn phi_of(p: Program, def: usize, val: usize) -> Option<(usize, usize)> {
    match p.values@[val as int].kind {
        ValueKind::Jump(t, args) => if args@.contains(def) {
            param_at(p, t, first_idx(args@, def))
        } else {
            None
        },
        ValueKind::Branch(_, t, ta, e, fa) => if ta@.contains(def) {
            param_at(p, t, first_idx(ta@, def))
        } else if fa@.contains(def) {
            param_at(p, e, first_idx(fa@, def))
        } else {
            None
        },
        _ => None,
    }
}

/// Block `b` and its parameter at position `i`, where it has one.
pub open spec fn param_at(p: Program, b: usize, i: int) -> Option<(usize, usize)> {
    if 0 <= i < p.blocks@[b as int].params@.len() {
        Some((b, p.blocks@[b as int].params@[i]))
    } else {
        None
    }
}

/// Where `q` is `p` with the instruction at position `pos` taken out of
/// block `b`, function `f` stays well formed.
proof fn lemma_drop_inst_wf(p: Program, q: Program, f: usize, b: usize, pos: int)
    requires
        func_wf(p, f),
        b < p.blocks@.len(),
        0 <= pos < p.blocks@[b as int].insts@.len(),
        q.values@ == p.values@,
        q.funcs@ == p.funcs@,
        q.inst_layout@ == p.inst_layout@,
        q.blocks@.len() == p.blocks@.len(),
        forall|x: int| 0 <= x < p.blocks@.len() && x != b ==> #[trigger] q.blocks@[x] == p.blocks@[x],
        q.blocks@[b as int].params@ == p.blocks@[b as int].params@,
        q.blocks@[b as int].insts@ == p.blocks@[b as int].insts@.remove(pos),
    ensures
        func_wf(q, f),
        forall|x: int, v: usize|
            0 <= x < q.blocks@.len() && #[trigger] q.blocks@[x].insts@.contains(v) ==> p.blocks@[x].insts@.contains(v),
{
    let s = p.blocks@[b as int].insts@;
    let t = s.remove(pos);
    assert forall|k: int| 0 <= k < t.len() implies t[k] == s[if k < pos { k } else { k + 1 }] by {}
    assert forall|v: usize| #[trigger] t.contains(v) implies s.contains(v) by {
        let k = choose|k: int| 0 <= k < t.len() && t[k] == v;
        assert(s[if k < pos { k } else { k + 1 }] == v);
    }
    assert forall|x: int, v: usize|
        0 <= x < q.blocks@.len() && #[trigger] q.blocks@[x].insts@.contains(v) implies p.blocks@[x].insts@.contains(v) by {
        if x == b {
            assert(t.contains(v));
        }
    }
    assert(all_below(s, p.values@.len() as int));
    assert(all_below(t, p.values@.len() as int)) by {
        assert forall|k: int| 0 <= k < t.len() implies (#[trigger] t[k]) < p.values@.len() by {
            assert(t[k] == s[if k < pos { k } else { k + 1 }]);
        }
    }
    let lay = p.funcs@[f as int].layout@;
    assert forall|k: int| 0 <= k < lay.len() implies {
        let insts = #[trigger] q.blocks@[lay[k] as int].insts@;
        forall|i: int, j: int| 0 <= i < j < insts.len() ==> insts[i] != insts[j]
    } by {
        if lay[k] == b {
            assert(p.blocks@[lay[k] as int].insts@ == s);
            lemma_remove_distinct(s, pos);
        } else {
            assert(all_below(lay, p.blocks@.len() as int));
            assert(q.blocks@[lay[k] as int] == p.blocks@[lay[k] as int]);
        }
    }
    assert forall|b1: int, b2: int, v: usize|
        0 <= b1 < b2 < lay.len() && #[trigger] q.blocks@[lay[b1] as int].insts@.contains(v) implies !#[trigger] q.blocks@[
        lay[b2] as int].insts@.contains(v) by {
        assert(all_below(lay, p.blocks@.len() as int));
        assert(p.blocks@[lay[b1] as int].insts@.contains(v));
        if q.blocks@[lay[b2] as int].insts@.contains(v) {
            assert(p.blocks@[lay[b2] as int].insts@.contains(v));
        }
    }
    assert forall|x: int| 0 <= x < q.blocks@.len() implies all_below((#[trigger] q.blocks@[x]).params@, q.values@.len() as int)
        && all_below(q.blocks@[x].insts@, q.values@.len() as int) by {
        if x != b {
            assert(q.blocks@[x] == p.blocks@[x]);
        }
    }
    assert forall|i: int| 0 <= i < q.values@.len() implies kind_ok(
        #[trigger] q.values@[i].kind,
        q.values@.len() as int,
        q.blocks@.len() as int,
        q.funcs@.len() as int,
    ) by {
        assert(p.values@[i] == q.values@[i]);
    }
}

/// Puts the numbers of `v` in descending order.
fn sort_desc(v: &mut Vec<usize>)
    ensures
        final(v)@.len() == old(v)@.len(),
        final(v)@.to_multiset() == old(v)@.to_multiset(),
        forall|a: int, b: int| 0 <= a < b < final(v)@.len() ==> final(v)@[a] >= final(v)@[b],
{
    broadcast use vstd::seq_lib::group_to_multiset_ensures;
    let n = v.len();
    if n == 0 {
        return;
    }
    let mut i: usize = 1;
    while i < n
        invariant
            v@.len() == n,
            1 <= i <= n,
            v@.to_multiset() == old(v)@.to_multiset(),
            forall|a: int, b: int| 0 <= a < b < i ==> v@[a] >= v@[b],
        decreases n - i,
    {
        let mut j: usize = i;
        while j > 0 && v[j - 1] < v[j]
            invariant
                v@.len() == n,
                j <= i < n,
                v@.to_multiset() == old(v)@.to_multiset(),
                forall|a: int, b: int| 0 <= a < b <= i && a != j && b != j ==> v@[a] >= v@[b],
                forall|b: int| j < b <= i ==> v@[j as int] > v@[b],
            decreases j,
        {
            let a = v[j - 1];
            let b = v[j];
            let ghost s0 = v@;
            v.set(j - 1, b);
            v.set(j, a);
            proof {
                let m = s0.to_multiset();
                let s1 = s0.update(j - 1, b);
                assert(s0[j - 1] == a && s0[j as int] == b);
                vstd::seq_lib::to_multiset_update(s0, j - 1, b);
                vstd::seq_lib::to_multiset_update(s1, j as int, a);
                assert(s1.to_multiset() == m.insert(b).remove(a));
                assert(s1[j as int] == b);
                assert(v@ == s1.update(j as int, a));
                assert(v@.to_multiset() == s1.to_multiset().insert(a).remove(b));
                assert(s0.contains(a));
                vstd::seq_lib::to_multiset_contains(s0, a);
                assert(m.count(a) > 0);
                assert(m.insert(b).remove(a).insert(a).remove(b) =~= m);
            }
            j = j - 1;
        }
        i = i + 1;
    }
}

/// The last instruction of block `b`.
spec fn last_of(p: Program, b: usize) -> usize {
    p.blocks@[b as int].insts@.last()
}

/// Whether value `v` is the last instruction of a block of the layout of function `f`.
pub open spec fn ends_block(p: Program, f: usize, v: usize) -> bool {
    let lay = p.funcs@[f as int].layout@;
    exists|b: int|
        0 <= b < lay.len() && #[trigger] p.blocks@[lay[b] as int].insts@.len() > 0
            && p.blocks@[lay[b] as int].insts@.last() == v
}

/// Whether value `v` is a binary instruction of a block of the layout of
/// function `f` past the entry.
pub open spec fn later_binary(p: Program, f: usize, v: usize) -> bool {
    let lay = p.funcs@[f as int].layout@;
    &&& p.values@[v as int].kind is Binary
    &&& exists|k: int| 1 <= k < lay.len() && #[trigger] p.blocks@[lay[k] as int].insts@.contains(v)
}

/// Whether the binary instruction `v` of `p0` is, in `p1`, the integer that
/// its operator gives on its operands, which are integers in `p1`.
pub open spec fn folds_to(p0: Program, p1: Program, v: usize) -> bool {
    match p0.values@[v as int].kind {
        ValueKind::Binary(op, l, r) => match (p1.values@[l as int].kind, p1.values@[r as int].kind) {
            (ValueKind::Integer(cl), ValueKind::Integer(cr)) => p1.values@[v as int].kind == ValueKind::Integer(
                fold_value(op, cl as int, cr as int) as i32,
            ),
            _ => false,
        },
        _ => false,
    }
}

/// Whether no block of the layout of function `f` ends in a branch on an integer.
pub open spec fn no_const_branch(p: Program, f: usize) -> bool {
    forall|v: usize| v < p.values@.len() && #[trigger] ends_block(p, f, v) ==> !branch_on_int(p, p.values@[v as int].kind)
}

/// Whether the value of kind `k` of program `p` is a branch on an integer.
pub open spec fn branch_on_int(p: Program, k: ValueKind) -> bool {
    k matches ValueKind::Branch(c, _, _, _, _) && p.values@[c as int].kind is Integer
}

/// Whether `new` is the jump that the branch `old` of program `p` on an
/// integer always takes, with its arguments.
pub open spec fn branch_folded(p: Program, old: ValueKind, new: crate::ir::ValueData) -> bool {
    match old {
        ValueKind::Branch(c, t, ta, e, fa) => match p.values@[c as int].kind {
            ValueKind::Integer(i) => {
                &&& new.ty == IrType::Unit
                &&& new.name is None
                &&& new.kind matches ValueKind::Jump(t2, a2) && t2 == (if i != 0 {
                    t
                } else {
                    e
                }) && a2@ == (if i != 0 {
                    ta@
                } else {
                    fa@
                })
            },
            _ => false,
        },
        _ => false,
    }
}

/// Whether an executable edge comes into the block of the layout of
/// function `f` past the entry that holds `v`, where `v` is a binary
/// instruction of such a block.
spec fn reached_if_later(s: SCCP, p: Program, f: usize, v: usize) -> bool {
    let lay = p.funcs@[f as int].layout@;
    forall|k: int|
        1 <= k < lay.len() && #[trigger] p.blocks@[lay[k] as int].insts@.contains(v) && p.values@[v as int].kind is Binary
            ==> s.has_exec_in(lay[k])
}

/// Whether some use in `s` is by value `v`.
spec fn pend(s: Seq<SsaEdge>, v: usize) -> bool {
    exists|k: int| 0 <= k < s.len() && (#[trigger] s[k]).dst == v
}

/// Uses that wait stay waiting where `b` extends `a`.
proof fn lemma_pend_grow(a: Seq<SsaEdge>, b: Seq<SsaEdge>)
    requires
        a.len() <= b.len(),
        forall|k: int| 0 <= k < a.len() ==> b[k] == a[k],
    ensures
        forall|v: usize| pend(a, v) ==> #[trigger] pend(b, v),
{
    assert forall|v: usize| pend(a, v) implies #[trigger] pend(b, v) by {
        let k = choose|k: int| 0 <= k < a.len() && (#[trigger] a[k]).dst == v;
        assert(b[k].dst == v);
    }
}

/// Whether `a` comes before `b` in the order in which the propagation
/// advances: fewer heights and edges left to lower, or as many and fewer
/// pending edges.
spec fn lex_lt(a: SCCP, b: SCCP) -> bool {
    a.potential() < b.potential() || (a.potential() == b.potential() && a.pending() < b.pending())
}

/// Sparse conditional constant propagation: finds the values of a function
/// that are constant along the jumps and branches that may be taken, puts
/// the constants in their place, and turns branches on a constant into jumps.
pub struct SCCP {
    flow_worklist: Vec<usize>,
    ssa_worklist: Vec<SsaEdge>,
    lattice_cells: Vec<Option<LatticeCell>>,
    edges: Vec<FlowEdge>,
    incoming_edges: Vec<Vec<usize>>,
    outcoming_edges: Vec<Vec<usize>>,
}

impl SCCP {
    /// Whether the propagation holds nothing.
    pub closed spec fn is_clear(&self) -> bool {
        &&& self.flow_worklist@.len() == 0
        &&& self.ssa_worklist@.len() == 0
        &&& self.tables_empty()
    }

    /// Whether the propagation holds no edge and no cell.
    pub closed spec fn tables_empty(&self) -> bool {
        &&& self.lattice_cells@.len() == 0
        &&& self.edges@.len() == 0
        &&& self.incoming_edges@.len() == 0
        &&& self.outcoming_edges@.len() == 0
    }

    /// A propagation that holds nothing.
    pub fn new() -> (r: SCCP)
        ensures
            r.is_clear(),
    {
        SCCP {
            flow_worklist: Vec::new(),
            ssa_worklist: Vec::new(),
            lattice_cells: Vec::new(),
            edges: Vec::new(),
            incoming_edges: Vec::new(),
            outcoming_edges: Vec::new(),
        }
    }

    /// Forgets the edges and the cells.
    pub fn clear(&mut self)
        ensures
            final(self).tables_empty(),
            old(self).is_clear() ==> final(self).is_clear(),
            final(self).pending_empty() == old(self).pending_empty(),
    {
        self.edges.clear();
        self.incoming_edges.clear();
        self.outcoming_edges.clear();
        self.lattice_cells.clear();
    }

    /// Whether some executable edge comes into block `b`.
    spec fn has_exec_in(&self, b: usize) -> bool {
        exists|j: int|
            0 <= j < self.incoming_edges@[b as int]@.len() && self.edges@[(
            #[trigger] self.incoming_edges@[b as int]@[j]) as int].executable
    }

    /// How many of the edges `ids` are executable.
    spec fn exec_count(&self, ids: Seq<usize>) -> nat
        decreases ids.len(),
    {
        if ids.len() == 0 {
            0
        } else {
            self.exec_count(ids.drop_last()) + if self.edges@[ids.last() as int].executable {
                1nat
            } else {
                0nat
            }
        }
    }

    /// Whether a use of a value by value `v` waits to be visited.
    spec fn pending_to(&self, v: usize) -> bool {
        pend(self.ssa_worklist@, v)
    }

    /// Whether each binary instruction of a block of the layout past the
    /// entry has a cell of `Top` while no executable edge comes into its
    /// block, and else a cell that is `Top`, or what it is to be, or waits
    /// for a visit.
    spec fn settled(&self, p: Program, f: usize) -> bool {
        self.settled_but(p, f, None)
    }

    /// What `settled` says, but for the first clause on the value `ex`.
    #[verifier::opaque]
    spec fn settled_but(&self, p: Program, f: usize, ex: Option<usize>) -> bool {
        let lay = p.funcs@[f as int].layout@;
        forall|k: int, v: usize|
            1 <= k < lay.len() && #[trigger] p.blocks@[lay[k] as int].insts@.contains(v) && p.values@[v as int].kind is Binary
                && self.lattice_cells@[v as int] is Some ==> {
                let c = self.lattice_cells@[v as int]->Some_0;
                &&& (c.ty == CellType::Top || c.ty == self.rhs(p, v, c) || self.pending_to(v) || ex == Some(v))
                &&& (!self.has_exec_in(lay[k]) ==> c.ty == CellType::Top)
            }
    }

    proof fn lemma_settled_weaken(&self, p: Program, f: usize, x: usize)
        requires
            self.settled(p, f),
        ensures
            self.settled_but(p, f, Some(x)),
    {
        reveal(SCCP::settled_but);
    }

    proof fn lemma_exec_in_grows(&self, old: SCCP, b: usize)
        requires
            self.descends(old),
            b < old.incoming_edges@.len(),
            all_below(old.incoming_edges@[b as int]@, old.edges@.len() as int),
            old.has_exec_in(b),
        ensures
            self.has_exec_in(b),
    {
        let j = choose|j: int|
            0 <= j < old.incoming_edges@[b as int]@.len() && old.edges@[(#[trigger] old.incoming_edges@[b as int]@[j]) as int].executable;
        assert(self.edges@[self.incoming_edges@[b as int]@[j] as int].executable);
    }

    /// A value of block `bb` of the layout, which an executable edge
    /// reaches, stands in no other block of the layout.
    proof fn lemma_reached_if_later(&self, p: Program, f: usize, bb: usize, v: usize)
        requires
            func_wf(p, f),
            p.funcs@[f as int].layout@.contains(bb),
            p.blocks@[bb as int].insts@.contains(v),
            self.has_exec_in(bb),
        ensures
            reached_if_later(*self, p, f, v),
    {
        let lay = p.funcs@[f as int].layout@;
        let kb = choose|kb: int| 0 <= kb < lay.len() && lay[kb] == bb;
        assert forall|k: int|
            1 <= k < lay.len() && #[trigger] p.blocks@[lay[k] as int].insts@.contains(v) && p.values@[v as int].kind is Binary
                implies self.has_exec_in(lay[k]) by {
            if k < kb {
                assert(!p.blocks@[lay[kb] as int].insts@.contains(v));
            } else if kb < k {
                assert(p.blocks@[lay[kb] as int].insts@.contains(v));
            }
        }
    }

    /// A value of the entry block stands in no later block of the layout.
    proof fn lemma_entry_not_later(&self, p: Program, f: usize, v: usize)
        requires
            func_wf(p, f),
            p.funcs@[f as int].layout@.len() > 0,
            p.blocks@[p.funcs@[f as int].layout@[0] as int].insts@.contains(v),
        ensures
            reached_if_later(*self, p, f, v),
    {
        let lay = p.funcs@[f as int].layout@;
        assert forall|k: int|
            1 <= k < lay.len() && #[trigger] p.blocks@[lay[k] as int].insts@.contains(v) && p.values@[v as int].kind is Binary
                implies self.has_exec_in(lay[k]) by {
            assert(p.blocks@[lay[0] as int].insts@.contains(v));
        }
    }

    /// Taking the last pending use leaves all settled but its user.
    proof fn lemma_settled_pop(&self, old: SCCP, p: Program, f: usize)
        requires
            old.settled(p, f),
            old.ssa_worklist@.len() > 0,
            self.ssa_worklist@ == old.ssa_worklist@.drop_last(),
            self.lattice_cells@ == old.lattice_cells@,
            self.incoming_edges@ == old.incoming_edges@,
            self.edges@ == old.edges@,
        ensures
            self.settled_but(p, f, Some(old.ssa_worklist@.last().dst)),
    {
        reveal(SCCP::settled_but);
        let d = old.ssa_worklist@.last().dst;
        let lay = p.funcs@[f as int].layout@;
        assert forall|k: int, v: usize|
            1 <= k < lay.len() && #[trigger] p.blocks@[lay[k] as int].insts@.contains(v) && p.values@[v as int].kind is Binary
                && self.lattice_cells@[v as int] is Some implies {
                let c = self.lattice_cells@[v as int]->Some_0;
                &&& (c.ty == CellType::Top || c.ty == self.rhs(p, v, c) || self.pending_to(v) || Some(d) == Some(v))
                &&& (!self.has_exec_in(lay[k]) ==> c.ty == CellType::Top)
            } by {
            if old.pending_to(v) && v != d {
                let j = choose|j: int| 0 <= j < old.ssa_worklist@.len() && (#[trigger] old.ssa_worklist@[j]).dst == v;
                assert(j < old.ssa_worklist@.len() - 1);
                assert(self.ssa_worklist@[j].dst == v);
            }
        }
    }

    /// A value of a block that no executable edge reaches is settled where
    /// all else is.
    proof fn lemma_settled_unreached(&self, p: Program, f: usize, v: usize, b: usize)
        requires
            self.settled_but(p, f, Some(v)),
            func_wf(p, f),
            p.funcs@[f as int].layout@.contains(b),
            p.blocks@[b as int].insts@.contains(v),
            !self.has_exec_in(b),
        ensures
            self.settled(p, f),
    {
        reveal(SCCP::settled_but);
        let lay = p.funcs@[f as int].layout@;
        let kb = choose|kb: int| 0 <= kb < lay.len() && lay[kb] == b;
        assert forall|k: int, w: usize|
            1 <= k < lay.len() && #[trigger] p.blocks@[lay[k] as int].insts@.contains(w) && p.values@[w as int].kind is Binary
                && self.lattice_cells@[w as int] is Some implies {
                let c = self.lattice_cells@[w as int]->Some_0;
                &&& (c.ty == CellType::Top || c.ty == self.rhs(p, w, c) || self.pending_to(w) || None::<usize> == Some(w))
                &&& (!self.has_exec_in(lay[k]) ==> c.ty == CellType::Top)
            } by {
            if w == v {
                if k < kb {
                    assert(!p.blocks@[lay[kb] as int].insts@.contains(v));
                } else if kb < k {
                    assert(p.blocks@[lay[kb] as int].insts@.contains(v));
                }
            }
        }
    }

    /// Settledness holds where cells and the lists of edges by block stay,
    /// edges only become executable and pending uses only grow.
    proof fn lemma_settled_frame(&self, old: SCCP, p: Program, f: usize, ex: Option<usize>)
        requires
            old.settled_but(p, f, ex),
            self.lattice_cells@ == old.lattice_cells@,
            self.incoming_edges@ == old.incoming_edges@,
            self.edges@.len() == old.edges@.len(),
            forall|e: int| 0 <= e < old.edges@.len() && old.edges@[e].executable ==> #[trigger] self.edges@[e].executable,
            old.ssa_worklist@.len() <= self.ssa_worklist@.len(),
            forall|k: int| 0 <= k < old.ssa_worklist@.len() ==> self.ssa_worklist@[k] == old.ssa_worklist@[k],
            forall|b: int| 0 <= b < old.incoming_edges@.len() ==> all_below((#[trigger] old.incoming_edges@[b])@, old.edges@.len() as int),
            old.incoming_edges@.len() == p.blocks@.len(),
            all_below(p.funcs@[f as int].layout@, p.blocks@.len() as int),
        ensures
            self.settled_but(p, f, ex),
    {
        reveal(SCCP::settled_but);
        lemma_pend_grow(old.ssa_worklist@, self.ssa_worklist@);
        let lay = p.funcs@[f as int].layout@;
        assert forall|k: int, v: usize|
            1 <= k < lay.len() && #[trigger] p.blocks@[lay[k] as int].insts@.contains(v) && p.values@[v as int].kind is Binary
                && self.lattice_cells@[v as int] is Some implies {
                let c = self.lattice_cells@[v as int]->Some_0;
                &&& (c.ty == CellType::Top || c.ty == self.rhs(p, v, c) || self.pending_to(v) || ex == Some(v))
                &&& (!self.has_exec_in(lay[k]) ==> c.ty == CellType::Top)
            } by {
            let c = self.lattice_cells@[v as int]->Some_0;
            if let ValueKind::Binary(op, l, rr) = p.values@[v as int].kind {
                assert(self.ty_of(p, l) == old.ty_of(p, l));
                assert(self.ty_of(p, rr) == old.ty_of(p, rr));
            }
            if old.has_exec_in(lay[k]) {
                let j = choose|j: int|
                    0 <= j < old.incoming_edges@[lay[k] as int]@.len() && old.edges@[(
                    #[trigger] old.incoming_edges@[lay[k] as int]@[j]) as int].executable;
                assert(all_below(old.incoming_edges@[lay[k] as int]@, old.edges@.len() as int));
                assert(self.edges@[self.incoming_edges@[lay[k] as int]@[j] as int].executable);
            }
            if old.pending_to(v) {
                assert(pend(self.ssa_worklist@, v));
            }
        }
    }

    /// Whether each binary instruction of a block of the layout of
    /// function `f` past the entry whose cell is not `Top` holds what the
    /// cells of its operands give.
    #[verifier::opaque]
    pub closed spec fn folded_right(&self, p: Program, f: usize) -> bool {
        let lay = p.funcs@[f as int].layout@;
        forall|k: int, v: usize|
            1 <= k < lay.len() && #[trigger] p.blocks@[lay[k] as int].insts@.contains(v) && p.values@[v as int].kind is Binary
                && self.lattice_cells@[v as int] is Some && self.lattice_cells@[v as int]->Some_0.ty != CellType::Top
                ==> self.lattice_cells@[v as int]->Some_0.ty == self.rhs(p, v, self.lattice_cells@[v as int]->Some_0)
    }

    /// Whether no edge waits to be visited.
    pub closed spec fn pending_empty(&self) -> bool {
        self.flow_worklist@.len() == 0 && self.ssa_worklist@.len() == 0
    }

    /// What the propagation knows of value `v`: the constant an integer is,
    /// the cell of a value that has one, else that it varies.
    spec fn ty_of(&self, p: Program, v: usize) -> CellType {
        match p.values@[v as int].kind {
            ValueKind::Integer(i) => CellType::Constant(i),
            _ => match self.lattice_cells@[v as int] {
                Some(c) => c.ty,
                None => CellType::Bottom,
            },
        }
    }

    /// What edge `e` brings to the parameter at position `idx` of block
    /// `bb`: nothing while it is not executable.
    spec fn brought(&self, p: Program, e: usize, bb: usize, idx: int) -> CellType {
        let edge = self.edges@[e as int];
        if edge.executable {
            match edge_arg(p, edge.src, bb, idx) {
                Some(a) => self.ty_of(p, a),
                None => CellType::Bottom,
            }
        } else {
            CellType::Top
        }
    }

    /// The meet of what the edges `ids` bring to the parameter at position
    /// `idx` of block `bb`.
    spec fn pmeet(&self, p: Program, ids: Seq<usize>, bb: usize, idx: int) -> CellType
        decreases ids.len(),
    {
        if ids.len() == 0 {
            CellType::Top
        } else {
            meet2(self.pmeet(p, ids.drop_last(), bb, idx), self.brought(p, ids.last(), bb, idx))
        }
    }

    /// What the cell `c` of value `v` is to be, from what is known now.
    spec fn rhs(&self, p: Program, v: usize, c: LatticeCell) -> CellType {
        match p.values@[v as int].kind {
            ValueKind::Binary(op, l, r) => evaluate_spec(op, self.ty_of(p, l), self.ty_of(p, r)),
            ValueKind::BlockArgRef(idx) => self.pmeet(p, self.incoming_edges@[c.bb as int]@, c.bb, idx as int),
            _ => CellType::Top,
        }
    }

    /// Whether `self` is `old` after cells went down and edges became executable.
    spec fn descends(&self, old: SCCP) -> bool {
        &&& self.edges@.len() == old.edges@.len()
        &&& forall|e: int|
            0 <= e < old.edges@.len() ==> {
                &&& (#[trigger] self.edges@[e]).src == old.edges@[e].src
                &&& self.edges@[e].dst == old.edges@[e].dst
                &&& old.edges@[e].executable ==> self.edges@[e].executable
            }
        &&& self.incoming_edges@ == old.incoming_edges@
        &&& self.outcoming_edges@ == old.outcoming_edges@
        &&& self.lattice_cells@.len() == old.lattice_cells@.len()
        &&& forall|v: int|
            0 <= v < old.lattice_cells@.len() ==> match (#[trigger] self.lattice_cells@[v], old.lattice_cells@[v]) {
                (Some(a), Some(b)) => a.bb == b.bb && below(a.ty, b.ty),
                (None, None) => true,
                _ => false,
            }
    }

    /// Every cell lies at or above what it is to be.
    spec fn mono(&self, p: Program) -> bool {
        forall|v: int|
            0 <= v < self.lattice_cells@.len() && #[trigger] self.lattice_cells@[v] is Some ==> below(
                self.rhs(p, v as usize, self.lattice_cells@[v]->Some_0),
                self.lattice_cells@[v]->Some_0.ty,
            )
    }

    /// The sum of the heights of the cells and the number of edges not yet executable.
    spec fn potential(&self) -> nat {
        hsum(self.lattice_cells@) + xcount(self.edges@)
    }

    /// The number of pending edges.
    spec fn pending(&self) -> nat {
        self.flow_worklist@.len() + self.ssa_worklist@.len()
    }

    proof fn lemma_ty_of_descends(&self, old: SCCP, p: Program, v: usize)
        requires
            self.descends(old),
            v < old.lattice_cells@.len(),
        ensures
            below(self.ty_of(p, v), old.ty_of(p, v)),
    {
        assert(match (self.lattice_cells@[v as int], old.lattice_cells@[v as int]) {
            (Some(a), Some(b)) => a.bb == b.bb && below(a.ty, b.ty),
            (None, None) => true,
            _ => false,
        });
    }

    proof fn lemma_pmeet_descends(&self, old: SCCP, p: Program, ids: Seq<usize>, bb: usize, idx: int)
        requires
            self.descends(old),
            all_below(ids, old.edges@.len() as int),
            old.lattice_cells@.len() == p.values@.len(),
            p.wf(),
            bb < p.blocks@.len(),
            forall|e: int| 0 <= e < old.edges@.len() ==> (#[trigger] old.edges@[e]).src < p.blocks@.len(),
        ensures
            below(self.pmeet(p, ids, bb, idx), old.pmeet(p, ids, bb, idx)),
        decreases ids.len(),
    {
        if ids.len() > 0 {
            let t = ids.drop_last();
            assert(all_below(t, old.edges@.len() as int)) by {
                assert forall|k: int| 0 <= k < t.len() implies (#[trigger] t[k]) < old.edges@.len() by {
                    assert(t[k] == ids[k]);
                }
            }
            self.lemma_pmeet_descends(old, p, t, bb, idx);
            let e = ids.last();
            assert(ids[ids.len() - 1] == e);
            assert(e < old.edges@.len());
            let ne = self.edges@[e as int];
            let oe = old.edges@[e as int];
            assert(ne.src == oe.src && ne.dst == oe.dst && (oe.executable ==> ne.executable));
            if oe.executable {
                match edge_arg(p, oe.src, bb, idx) {
                    Some(a) => {
                        lemma_edge_arg_below(p, oe.src, bb, idx);
                        self.lemma_ty_of_descends(old, p, a);
                    },
                    None => {},
                }
            }
            lemma_meet2_monotone(
                old.pmeet(p, t, bb, idx),
                self.pmeet(p, t, bb, idx),
                old.brought(p, e, bb, idx),
                self.brought(p, e, bb, idx),
            );
        }
    }

    /// Whether the edges, their lists by block and the pending edges name
    /// what exists, and the cells are one per value.
    spec fn tables_ok(&self, p: Program, f: usize) -> bool {
        let nv = p.values@.len() as int;
        let nb = p.blocks@.len() as int;
        let ne = self.edges@.len() as int;
        let lay = p.funcs@[f as int].layout@;
        &&& func_wf(p, f)
        &&& self.lattice_cells@.len() == nv
        &&& self.incoming_edges@.len() == nb
        &&& self.outcoming_edges@.len() == nb
        &&& forall|e: int|
            0 <= e < ne ==> lay.contains((#[trigger] self.edges@[e]).src) && lay.contains(self.edges@[e].dst)
        &&& forall|b: int| 0 <= b < nb ==> all_below((#[trigger] self.incoming_edges@[b])@, ne)
        &&& forall|b: int| 0 <= b < nb ==> all_below((#[trigger] self.outcoming_edges@[b])@, ne)
        &&& forall|b: int, k: int|
            0 <= b < nb && 0 <= k < self.incoming_edges@[b]@.len() ==> self.edges@[(#[trigger] self.incoming_edges@[b]@[k]) as int].dst
                == b
        &&& forall|b: int, k: int|
            0 <= b < nb && 0 <= k < self.outcoming_edges@[b]@.len()
                ==> self.edges@[(#[trigger] self.outcoming_edges@[b]@[k]) as int].src == b
        &&& all_below(self.flow_worklist@, ne)
        &&& forall|k: int| 0 <= k < self.ssa_worklist@.len() ==> ssa_ok(p, f, #[trigger] self.ssa_worklist@[k])
        &&& forall|v: int|
            0 <= v < nv && (#[trigger] self.lattice_cells@[v]) is Some ==> self.lattice_cells@[v]->Some_0.bb < nb
                && lay.contains(self.lattice_cells@[v]->Some_0.bb)
    }

    /// Whether every parameter of a block of the layout that stands for a
    /// block argument has a cell of that block, and every binary
    /// instruction of the layout a cell.
    spec fn cells_cover(&self, p: Program, f: usize) -> bool {
        let lay = p.funcs@[f as int].layout@;
        &&& forall|b: int, v: usize|
            0 <= b < lay.len() && #[trigger] p.blocks@[lay[b] as int].params@.contains(v)
                && p.values@[v as int].kind is BlockArgRef ==> self.lattice_cells@[v as int] is Some
                && self.lattice_cells@[v as int]->Some_0.bb == lay[b]
        &&& forall|b: int, v: usize|
            0 <= b < lay.len() && #[trigger] p.blocks@[lay[b] as int].insts@.contains(v)
                && p.values@[v as int].kind is Binary ==> self.lattice_cells@[v as int] is Some
    }

    /// The invariant of the propagation on function `f`.
    spec fn inv(&self, p: Program, f: usize) -> bool {
        &&& self.tables_ok(p, f)
        &&& self.cells_cover(p, f)
        &&& self.mono(p)
    }

    proof fn lemma_rhs_descends(&self, old: SCCP, p: Program, f: usize, v: usize, c: LatticeCell)
        requires
            old.tables_ok(p, f),
            self.descends(old),
            v < p.values@.len(),
            c.bb < p.blocks@.len(),
        ensures
            below(self.rhs(p, v, c), old.rhs(p, v, c)),
    {
        let nv = p.values@.len() as int;
        assert(kind_ok(p.values@[v as int].kind, nv, p.blocks@.len() as int, p.funcs@.len() as int));
        match p.values@[v as int].kind {
            ValueKind::Binary(op, l, r) => {
                self.lemma_ty_of_descends(old, p, l);
                self.lemma_ty_of_descends(old, p, r);
                lemma_evaluate_monotone(op, old.ty_of(p, l), self.ty_of(p, l), old.ty_of(p, r), self.ty_of(p, r));
            },
            ValueKind::BlockArgRef(idx) => {
                let lay = p.funcs@[f as int].layout@;
                assert(all_below(lay, p.blocks@.len() as int));
                assert forall|e: int| 0 <= e < old.edges@.len() implies (#[trigger] old.edges@[e]).src
                    < p.blocks@.len() by {
                    let k = choose|k: int| 0 <= k < lay.len() && lay[k] == old.edges@[e].src;
                }
                assert(all_below(old.incoming_edges@[c.bb as int]@, old.edges@.len() as int));
                self.lemma_pmeet_descends(old, p, old.incoming_edges@[c.bb as int]@, c.bb, idx as int);
            },
            _ => {},
        }
    }

    /// Where cells went down and edges became executable, and each cell
    /// that changed lies at or above what it was to be before, the
    /// invariant holds again.
    #[verifier::spinoff_prover]
    #[verifier::rlimit(40)]
    proof fn lemma_inv_step(&self, old: SCCP, p: Program, f: usize)
        requires
            old.inv(p, f),
            self.descends(old),
            all_below(self.flow_worklist@, self.edges@.len() as int),
            forall|k: int| 0 <= k < self.ssa_worklist@.len() ==> ssa_ok(p, f, #[trigger] self.ssa_worklist@[k]),
            forall|v: int|
                0 <= v < self.lattice_cells@.len() && (#[trigger] self.lattice_cells@[v]) is Some
                    && self.lattice_cells@[v] != old.lattice_cells@[v] ==> below(
                    old.rhs(p, v as usize, old.lattice_cells@[v]->Some_0),
                    self.lattice_cells@[v]->Some_0.ty,
                ),
        ensures
            self.inv(p, f),
    {
        let nb = p.blocks@.len() as int;
        let ne = self.edges@.len() as int;
        assert forall|e: int| 0 <= e < ne implies p.funcs@[f as int].layout@.contains(
            (#[trigger] self.edges@[e]).src,
        ) && p.funcs@[f as int].layout@.contains(self.edges@[e].dst) by {
            assert(old.edges@[e].src == self.edges@[e].src);
        }
        assert forall|b: int, k: int|
            0 <= b < nb && 0 <= k < self.incoming_edges@[b]@.len() implies self.edges@[(
            #[trigger] self.incoming_edges@[b]@[k]) as int].dst == b by {
            assert(old.incoming_edges@[b]@[k] == self.incoming_edges@[b]@[k]);
            assert(all_below(old.incoming_edges@[b]@, ne));
        }
        assert forall|b: int, k: int|
            0 <= b < nb && 0 <= k < self.outcoming_edges@[b]@.len() implies self.edges@[(
            #[trigger] self.outcoming_edges@[b]@[k]) as int].src == b by {
            assert(old.outcoming_edges@[b]@[k] == self.outcoming_edges@[b]@[k]);
            assert(all_below(old.outcoming_edges@[b]@, ne));
        }
        assert forall|v: int|
            0 <= v < p.values@.len() && (#[trigger] self.lattice_cells@[v]) is Some implies self.lattice_cells@[v]->Some_0.bb
            < nb && p.funcs@[f as int].layout@.contains(self.lattice_cells@[v]->Some_0.bb) by {
            assert(old.lattice_cells@[v] is Some);
        }
        let lay = p.funcs@[f as int].layout@;
        assert forall|b: int, v: usize|
            0 <= b < lay.len() && #[trigger] p.blocks@[lay[b] as int].params@.contains(v)
                && p.values@[v as int].kind is BlockArgRef implies self.lattice_cells@[v as int] is Some
            && self.lattice_cells@[v as int]->Some_0.bb == lay[b] by {
            assert(all_below(p.blocks@[lay[b] as int].params@, p.values@.len() as int));
            let k = choose|k: int| 0 <= k < p.blocks@[lay[b] as int].params@.len() && p.blocks@[lay[b] as int].params@[k] == v;
            assert(old.lattice_cells@[v as int] is Some);
        }
        assert forall|b: int, v: usize|
            0 <= b < lay.len() && #[trigger] p.blocks@[lay[b] as int].insts@.contains(v)
                && p.values@[v as int].kind is Binary implies self.lattice_cells@[v as int] is Some by {
            assert(all_below(p.blocks@[lay[b] as int].insts@, p.values@.len() as int));
            let k = choose|k: int| 0 <= k < p.blocks@[lay[b] as int].insts@.len() && p.blocks@[lay[b] as int].insts@[k] == v;
            assert(old.lattice_cells@[v as int] is Some);
        }
        assert forall|v: int|
            0 <= v < self.lattice_cells@.len() && #[trigger] self.lattice_cells@[v] is Some implies below(
            self.rhs(p, v as usize, self.lattice_cells@[v]->Some_0),
            self.lattice_cells@[v]->Some_0.ty,
        ) by {
            let c = self.lattice_cells@[v]->Some_0;
            let oc = old.lattice_cells@[v]->Some_0;
            assert(old.lattice_cells@[v] is Some);
            assert(oc.bb == c.bb);
            assert(old.rhs(p, v as usize, oc) == old.rhs(p, v as usize, c));
            self.lemma_rhs_descends(old, p, f, v as usize, c);
            lemma_below_trans(self.rhs(p, v as usize, c), old.rhs(p, v as usize, c), c.ty);
        }
    }

    /// Whether `self` descends from `a`, which descends from `b`.
    proof fn lemma_descends_trans(&self, a: SCCP, b: SCCP)
        requires
            self.descends(a),
            a.descends(b),
        ensures
            self.descends(b),
    {
        assert forall|v: int| 0 <= v < b.lattice_cells@.len() implies match (
            #[trigger] self.lattice_cells@[v],
            b.lattice_cells@[v],
        ) {
            (Some(x), Some(y)) => x.bb == y.bb && below(x.ty, y.ty),
            (None, None) => true,
            _ => false,
        } by {
            let m = a.lattice_cells@[v];
            match (self.lattice_cells@[v], m, b.lattice_cells@[v]) {
                (Some(x), Some(y), Some(z)) => lemma_below_trans(x.ty, y.ty, z.ty),
                _ => {},
            }
        }
        assert forall|e: int| 0 <= e < b.edges@.len() implies {
            &&& (#[trigger] self.edges@[e]).src == b.edges@[e].src
            &&& self.edges@[e].dst == b.edges@[e].dst
            &&& b.edges@[e].executable ==> self.edges@[e].executable
        } by {
            assert(a.edges@[e].src == b.edges@[e].src);
        }
    }

    /// What the propagation knows of value `val`.
    fn value_to_type(&self, p: &Program, val: usize) -> (r: CellType)
        requires
            val < p.values@.len(),
            self.lattice_cells@.len() == p.values@.len(),
        ensures
            r == self.ty_of(*p, val),
    {
        if let ValueKind::Integer(i) = value_kind(p, val) {
            CellType::Constant(*i)
        } else {
            match self.lattice_cells[val] {
                Some(c) => c.ty,
                None => CellType::Bottom,
            }
        }
    }

    /// Whether `br` is a branch on `val`.
    fn is_control_br(&self, p: &Program, br: usize, val: usize) -> (r: bool)
        requires
            br < p.values@.len(),
        ensures
            r == (p.values@[br as int].kind matches ValueKind::Branch(c, _, _, _, _) && c == val),
    {
        if let ValueKind::Branch(c, _, _, _, _) = value_kind(p, br) {
            if *c == val {
                return true;
            }
        }
        false
    }

    /// Whether `val` is a binary operation.
    fn is_expr(&self, p: &Program, val: usize) -> (r: bool)
        requires
            val < p.values@.len(),
        ensures
            r == p.values@[val as int].kind is Binary,
    {
        matches!(value_kind(p, val), ValueKind::Binary(..))
    }

    /// The edge from block `src` to block `dst` among the first two that
    /// leave `src`: the first where it goes there, else the second; `None`
    /// where there is no such edge to give.
    fn get_edge_id(&self, src: usize, dst: usize) -> (r: Option<usize>)
        requires
            src < self.outcoming_edges@.len(),
            all_below(self.outcoming_edges@[src as int]@, self.edges@.len() as int),
        ensures
            r matches Some(id) ==> self.outcoming_edges@[src as int]@.contains(id),
            r == ({
                let ids = self.outcoming_edges@[src as int]@;
                if ids.len() == 0 {
                    None
                } else if self.edges@[ids[0] as int].src == src && self.edges@[ids[0] as int].dst == dst {
                    Some(ids[0])
                } else if ids.len() > 1 {
                    Some(ids[1])
                } else {
                    None
                }
            }),
    {
        let ids = &self.outcoming_edges[src];
        if ids.len() == 0 {
            return None;
        }
        let edge0 = self.edges[ids[0]];
        if edge0.src == src && edge0.dst == dst {
            assert(ids@[0] == ids[0]);
            Some(ids[0])
        } else if ids.len() > 1 {
            assert(ids@[1] == ids[1]);
            Some(ids[1])
        } else {
            None
        }
    }

    /// Whether some edge into block `bb` is executable.
    fn is_reachable(&self, bb: usize) -> (r: bool)
        requires
            bb < self.incoming_edges@.len(),
            all_below(self.incoming_edges@[bb as int]@, self.edges@.len() as int),
        ensures
            r == exists|k: int|
                0 <= k < self.incoming_edges@[bb as int]@.len()
                    && self.edges@[(#[trigger] self.incoming_edges@[bb as int]@[k]) as int].executable,
    {
        let edges = &self.incoming_edges[bb];
        let mut i: usize = 0;
        while i < edges.len()
            invariant
                *edges == self.incoming_edges@[bb as int],
                all_below(edges@, self.edges@.len() as int),
                i <= edges@.len(),
                forall|k: int| 0 <= k < i ==> !self.edges@[(#[trigger] edges@[k]) as int].executable,
            decreases edges@.len() - i,
        {
            let id = edges[i];
            if self.edges[id].executable {
                assert(self.edges@[edges@[i as int] as int].executable);
                return true;
            }
            i = i + 1;
        }
        false
    }

    /// Whether the number of executable edges into block `bb` is other than one.
    fn is_visited(&self, bb: usize) -> (r: bool)
        requires
            bb < self.incoming_edges@.len(),
            all_below(self.incoming_edges@[bb as int]@, self.edges@.len() as int),
        ensures
            !r ==> self.has_exec_in(bb),
            r == (self.exec_count(self.incoming_edges@[bb as int]@) != 1),
    {
        let edges = &self.incoming_edges[bb];
        let mut executable_in_edges: usize = 0;
        let mut i: usize = 0;
        while i < edges.len()
            invariant
                *edges == self.incoming_edges@[bb as int],
                all_below(edges@, self.edges@.len() as int),
                i <= edges@.len(),
                executable_in_edges <= i,
                executable_in_edges > 0 ==> self.has_exec_in(bb),
                executable_in_edges == self.exec_count(edges@.subrange(0, i as int)),
            decreases edges@.len() - i,
        {
            let id = edges[i];
            proof {
                let sub = edges@.subrange(0, i + 1);
                assert(sub.drop_last() =~= edges@.subrange(0, i as int));
                assert(sub.last() == id);
            }
            if self.edges[id].executable {
                assert(self.edges@[edges@[i as int] as int].executable);
                executable_in_edges = executable_in_edges + 1;
            }
            i = i + 1;
        }
        proof {
            assert(edges@.subrange(0, edges@.len() as int) =~= edges@);
        }
        executable_in_edges != 1
    }

    /// Whether no edge waits to be visited.
    fn is_terminate(&self) -> (r: bool)
        ensures
            r == self.pending_empty(),
    {
        self.flow_worklist.len() == 0 && self.ssa_worklist.len() == 0
    }

    /// Whether every cell is `Top`.
    spec fn all_top(&self) -> bool {
        forall|v: int|
            0 <= v < self.lattice_cells@.len() && (#[trigger] self.lattice_cells@[v]) is Some
                ==> self.lattice_cells@[v]->Some_0.ty == CellType::Top
    }

    /// Adds an edge from block `pred` to block `bb`.
    fn push_edge(&mut self, p: &Program, f: usize, pred: usize, bb: usize)
        requires
            old(self).tables_ok(*p, f),
            p.funcs@[f as int].layout@.contains(pred),
            p.funcs@[f as int].layout@.contains(bb),
        ensures
            final(self).tables_ok(*p, f),
            final(self).lattice_cells@ == old(self).lattice_cells@,
            final(self).flow_worklist@ == old(self).flow_worklist@,
            final(self).ssa_worklist@ == old(self).ssa_worklist@,
            final(self).edges@.len() == old(self).edges@.len() + 1,
    {
        let ghost s0 = *self;
        let lay = &p.funcs[f].layout;
        proof {
            assert(all_below(lay@, p.blocks@.len() as int));
            let k1 = choose|k: int| 0 <= k < lay@.len() && lay@[k] == pred;
            let k2 = choose|k: int| 0 <= k < lay@.len() && lay@[k] == bb;
        }
        let idx = self.edges.len();
        self.edges.push(FlowEdge::new(pred, bb));
        let mut inc = copy_vec(&self.incoming_edges[bb]);
        inc.push(idx);
        self.incoming_edges.set(bb, inc);
        let mut out = copy_vec(&self.outcoming_edges[pred]);
        out.push(idx);
        self.outcoming_edges.set(pred, out);
        proof {
            let nb = p.blocks@.len() as int;
            let ne = self.edges@.len() as int;
            assert forall|e: int| 0 <= e < ne implies lay@.contains((#[trigger] self.edges@[e]).src)
                && lay@.contains(self.edges@[e].dst) by {
                if e < ne - 1 {
                    assert(self.edges@[e] == s0.edges@[e]);
                }
            }
            assert forall|b: int| 0 <= b < nb implies all_below((#[trigger] self.incoming_edges@[b])@, ne) by {
                assert(all_below(s0.incoming_edges@[b]@, ne - 1));
            }
            assert forall|b: int| 0 <= b < nb implies all_below((#[trigger] self.outcoming_edges@[b])@, ne) by {
                assert(all_below(s0.outcoming_edges@[b]@, ne - 1));
            }
            assert forall|b: int, k: int|
                0 <= b < nb && 0 <= k < self.incoming_edges@[b]@.len() implies self.edges@[(
                #[trigger] self.incoming_edges@[b]@[k]) as int].dst == b by {
                if b == bb && k == self.incoming_edges@[b]@.len() - 1 {
                } else {
                    assert(self.incoming_edges@[b]@[k] == s0.incoming_edges@[b]@[k]);
                    assert(all_below(s0.incoming_edges@[b]@, ne - 1));
                }
            }
            assert forall|b: int, k: int|
                0 <= b < nb && 0 <= k < self.outcoming_edges@[b]@.len() implies self.edges@[(
                #[trigger] self.outcoming_edges@[b]@[k]) as int].src == b by {
                if b == pred && k == self.outcoming_edges@[b]@.len() - 1 {
                } else {
                    assert(self.outcoming_edges@[b]@[k] == s0.outcoming_edges@[b]@[k]);
                    assert(all_below(s0.outcoming_edges@[b]@, ne - 1));
                }
            }
        }
    }

    /// Lists the edges between the blocks of the layout of function `f`,
    /// in the order of the layout, and gives a cell of `Top` to each binary
    /// instruction and each block parameter of the layout.
    fn init(&mut self, p: &Program, f: usize)
        requires
            func_wf(*p, f),
            params_owned(*p, f),
            old(self).is_clear(),
        ensures
            final(self).inv(*p, f),
            final(self).pending_empty(),
            final(self).all_top(),
            final(self).settled(*p, f),
    {
        let nv = p.values.len();
        let nb = p.blocks.len();
        let mut i: usize = 0;
        while i < nv
            invariant
                i <= nv,
                nv == p.values@.len(),
                self.lattice_cells@.len() == i,
                forall|v: int| 0 <= v < i ==> (#[trigger] self.lattice_cells@[v]) is None,
                self.incoming_edges@.len() == 0,
                self.outcoming_edges@.len() == 0,
                self.edges@.len() == 0,
                self.pending_empty(),
            decreases nv - i,
        {
            self.lattice_cells.push(None);
            i = i + 1;
        }
        let mut i: usize = 0;
        while i < nb
            invariant
                i <= nb,
                nb == p.blocks@.len(),
                self.incoming_edges@.len() == i,
                self.outcoming_edges@.len() == i,
                self.edges@.len() == 0,
                forall|b: int| 0 <= b < i ==> (#[trigger] self.incoming_edges@[b])@.len() == 0,
                forall|b: int| 0 <= b < i ==> (#[trigger] self.outcoming_edges@[b])@.len() == 0,
                self.lattice_cells@.len() == nv,
                nv == p.values@.len(),
                forall|v: int| 0 <= v < nv ==> (#[trigger] self.lattice_cells@[v]) is None,
                self.pending_empty(),
            decreases nb - i,
        {
            self.incoming_edges.push(Vec::new());
            self.outcoming_edges.push(Vec::new());
            i = i + 1;
        }
        proof {
            assert forall|b: int| 0 <= b < nb implies all_below((#[trigger] self.incoming_edges@[b])@, 0) by {}
            assert forall|b: int| 0 <= b < nb implies all_below((#[trigger] self.outcoming_edges@[b])@, 0) by {}
        }
        let lay = &p.funcs[f].layout;
        proof {
            assert(all_below(lay@, nb as int));
        }
        let mut bi: usize = 0;
        while bi < lay.len()
            invariant
                func_wf(*p, f),
                params_owned(*p, f),
                *lay == p.funcs@[f as int].layout,
                all_below(lay@, nb as int),
                nb == p.blocks@.len(),
                bi <= lay@.len(),
                self.tables_ok(*p, f),
                self.pending_empty(),
                self.all_top(),
                forall|b: int, v: usize|
                    0 <= b < bi && #[trigger] p.blocks@[lay@[b] as int].params@.contains(v)
                        && p.values@[v as int].kind is BlockArgRef ==> self.lattice_cells@[v as int] is Some
                        && self.lattice_cells@[v as int]->Some_0.bb == lay@[b],
                forall|b: int, v: usize|
                    0 <= b < bi && #[trigger] p.blocks@[lay@[b] as int].insts@.contains(v)
                        && p.values@[v as int].kind is Binary ==> self.lattice_cells@[v as int] is Some,
            decreases lay@.len() - bi,
        {
            let bb = lay[bi];
            proof {
                assert(lay@.contains(bb));
            }
            let mut pi: usize = 0;
            while pi < lay.len()
                invariant
                    func_wf(*p, f),
                    *lay == p.funcs@[f as int].layout,
                    all_below(lay@, nb as int),
                    nb == p.blocks@.len(),
                    lay@.contains(bb),
                    pi <= lay@.len(),
                    self.tables_ok(*p, f),
                    self.pending_empty(),
                    self.all_top(),
                    forall|b: int, v: usize|
                        0 <= b < bi && #[trigger] p.blocks@[lay@[b] as int].params@.contains(v)
                            && p.values@[v as int].kind is BlockArgRef ==> self.lattice_cells@[v as int] is Some
                            && self.lattice_cells@[v as int]->Some_0.bb == lay@[b],
                    forall|b: int, v: usize|
                        0 <= b < bi && #[trigger] p.blocks@[lay@[b] as int].insts@.contains(v)
                            && p.values@[v as int].kind is Binary ==> self.lattice_cells@[v as int] is Some,
                decreases lay@.len() - pi,
            {
                let pred = lay[pi];
                proof {
                    assert(lay@.contains(pred));
                    assert(all_below(p.blocks@[pred as int].insts@, p.values@.len() as int));
                }
                let insts = &p.blocks[pred].insts;
                let mut ii: usize = 0;
                while ii < insts.len()
                    invariant
                        func_wf(*p, f),
                        *lay == p.funcs@[f as int].layout,
                        nb == p.blocks@.len(),
                        pred < nb,
                        *insts == p.blocks@[pred as int].insts,
                        all_below(insts@, p.values@.len() as int),
                        lay@.contains(bb),
                        lay@.contains(pred),
                        ii <= insts@.len(),
                        self.tables_ok(*p, f),
                        self.pending_empty(),
                        self.all_top(),
                        forall|b: int, v: usize|
                            0 <= b < bi && #[trigger] p.blocks@[lay@[b] as int].params@.contains(v)
                                && p.values@[v as int].kind is BlockArgRef ==> self.lattice_cells@[v as int] is Some
                                && self.lattice_cells@[v as int]->Some_0.bb == lay@[b],
                        forall|b: int, v: usize|
                            0 <= b < bi && #[trigger] p.blocks@[lay@[b] as int].insts@.contains(v)
                                && p.values@[v as int].kind is Binary ==> self.lattice_cells@[v as int] is Some,
                    decreases insts@.len() - ii,
                {
                    let user = insts[ii];
                    if targets_block(value_kind(p, user), bb) {
                        self.push_edge(p, f, pred, bb);
                    }
                    ii = ii + 1;
                }
                pi = pi + 1;
            }
            proof {
                assert(all_below(p.blocks@[bb as int].insts@, p.values@.len() as int));
                assert(all_below(p.blocks@[bb as int].params@, p.values@.len() as int));
            }
            let insts = &p.blocks[bb].insts;
            let mut ii: usize = 0;
            while ii < insts.len()
                invariant
                    func_wf(*p, f),
                    *lay == p.funcs@[f as int].layout,
                    nb == p.blocks@.len(),
                    bi < lay@.len(),
                    bb == lay@[bi as int],
                    bb < nb,
                    *insts == p.blocks@[bb as int].insts,
                    all_below(insts@, p.values@.len() as int),
                    ii <= insts@.len(),
                    self.tables_ok(*p, f),
                    self.pending_empty(),
                    self.all_top(),
                    forall|b: int, v: usize|
                        0 <= b < bi && #[trigger] p.blocks@[lay@[b] as int].params@.contains(v)
                            && p.values@[v as int].kind is BlockArgRef ==> self.lattice_cells@[v as int] is Some
                            && self.lattice_cells@[v as int]->Some_0.bb == lay@[b],
                    forall|b: int, v: usize|
                        0 <= b < bi && #[trigger] p.blocks@[lay@[b] as int].insts@.contains(v)
                            && p.values@[v as int].kind is Binary ==> self.lattice_cells@[v as int] is Some,
                    forall|k: int|
                        0 <= k < ii && p.values@[insts@[k] as int].kind is Binary
                            ==> self.lattice_cells@[(#[trigger] insts@[k]) as int] is Some,
                decreases insts@.len() - ii,
            {
                let val = insts[ii];
                if self.is_expr(p, val) {
                    self.lattice_cells.set(val, Some(LatticeCell::new(CellType::Top, bb)));
                }
                ii = ii + 1;
            }
            let params = &p.blocks[bb].params;
            let mut ii: usize = 0;
            while ii < params.len()
                invariant
                    func_wf(*p, f),
                    params_owned(*p, f),
                    *lay == p.funcs@[f as int].layout,
                    nb == p.blocks@.len(),
                    bi < lay@.len(),
                    bb == lay@[bi as int],
                    bb < nb,
                    *insts == p.blocks@[bb as int].insts,
                    *params == p.blocks@[bb as int].params,
                    all_below(params@, p.values@.len() as int),
                    ii <= params@.len(),
                    self.tables_ok(*p, f),
                    self.pending_empty(),
                    self.all_top(),
                    forall|b: int, v: usize|
                        0 <= b < bi && #[trigger] p.blocks@[lay@[b] as int].params@.contains(v)
                            && p.values@[v as int].kind is BlockArgRef ==> self.lattice_cells@[v as int] is Some
                            && self.lattice_cells@[v as int]->Some_0.bb == lay@[b],
                    forall|b: int, v: usize|
                        0 <= b < bi && #[trigger] p.blocks@[lay@[b] as int].insts@.contains(v)
                            && p.values@[v as int].kind is Binary ==> self.lattice_cells@[v as int] is Some,
                    forall|k: int|
                        0 <= k < insts@.len() && p.values@[insts@[k] as int].kind is Binary
                            ==> self.lattice_cells@[(#[trigger] insts@[k]) as int] is Some,
                    forall|k: int|
                        0 <= k < ii ==> self.lattice_cells@[(#[trigger] params@[k]) as int] is Some
                            && self.lattice_cells@[params@[k] as int]->Some_0.bb == bb,
                decreases params@.len() - ii,
            {
                let par = params[ii];
                proof {
                    assert(params@.contains(par));
                    assert forall|b: int, v: usize|
                        0 <= b < bi && #[trigger] p.blocks@[lay@[b] as int].params@.contains(v) implies v != par by {
                        if v == par {
                            assert(p.blocks@[lay@[bi as int] as int].params@.contains(v));
                        }
                    }
                }
                self.lattice_cells.set(par, Some(LatticeCell::new(CellType::Top, bb)));
                ii = ii + 1;
            }
            proof {
                assert forall|b: int, v: usize|
                    0 <= b < bi + 1 && #[trigger] p.blocks@[lay@[b] as int].params@.contains(v)
                        && p.values@[v as int].kind is BlockArgRef implies self.lattice_cells@[v as int] is Some
                    && self.lattice_cells@[v as int]->Some_0.bb == lay@[b] by {
                    if b == bi {
                        let k = choose|k: int| 0 <= k < params@.len() && params@[k] == v;
                    }
                }
                assert forall|b: int, v: usize|
                    0 <= b < bi + 1 && #[trigger] p.blocks@[lay@[b] as int].insts@.contains(v)
                        && p.values@[v as int].kind is Binary implies self.lattice_cells@[v as int] is Some by {
                    if b == bi {
                        let k = choose|k: int| 0 <= k < insts@.len() && insts@[k] == v;
                    }
                }
            }
            bi = bi + 1;
        }
        proof {
            assert forall|v: int|
                0 <= v < self.lattice_cells@.len() && #[trigger] self.lattice_cells@[v] is Some implies below(
                self.rhs(*p, v as usize, self.lattice_cells@[v]->Some_0),
                self.lattice_cells@[v]->Some_0.ty,
            ) by {}
            reveal(SCCP::settled_but);
            assert forall|k: int, v: usize|
                1 <= k < lay@.len() && #[trigger] p.blocks@[lay@[k] as int].insts@.contains(v)
                    && p.values@[v as int].kind is Binary && self.lattice_cells@[v as int] is Some implies {
                    let c = self.lattice_cells@[v as int]->Some_0;
                    &&& (c.ty == CellType::Top || c.ty == self.rhs(*p, v, c) || self.pending_to(v) || None::<usize> == Some(v))
                    &&& (!self.has_exec_in(lay@[k]) ==> c.ty == CellType::Top)
                } by {
                assert(all_below(p.blocks@[lay@[k] as int].insts@, p.values@.len() as int));
            }
        }
    }

    /// Queues what depends on value `val`, whose cell changed: the edges
    /// that a branch on it may now take, and the binary instructions that
    /// use it, in the order of the layout.
    #[verifier::rlimit(30)]
    fn add_edges(&mut self, p: &Program, f: usize, val: usize) -> (r: bool)
        requires
            old(self).inv(*p, f),
            val < p.values@.len(),
            old(self).lattice_cells@[val as int] is Some,
        ensures
            final(self).lattice_cells@ == old(self).lattice_cells@,
            final(self).edges@ == old(self).edges@,
            final(self).incoming_edges@ == old(self).incoming_edges@,
            final(self).outcoming_edges@ == old(self).outcoming_edges@,
            r ==> final(self).inv(*p, f),
            old(self).ssa_worklist@.len() <= final(self).ssa_worklist@.len(),
            forall|k: int|
                0 <= k < old(self).ssa_worklist@.len() ==> final(self).ssa_worklist@[k] == old(self).ssa_worklist@[k],
            r ==> forall|w: usize|
                #[trigger] in_func(*p, f, w) && p.values@[w as int].kind is Binary && uses(p.values@[w as int].kind, val)
                    ==> final(self).pending_to(w),
    {
        let ghost s0 = *self;
        let cell_ty = match self.lattice_cells[val] {
            Some(c) => c.ty,
            None => {
                return false;
            },
        };
        let lay = &p.funcs[f].layout;
        let nb = p.blocks.len();
        proof {
            assert(all_below(lay@, nb as int));
        }
        let mut bi: usize = 0;
        while bi < lay.len()
            invariant
                s0.inv(*p, f),
                s0 == *old(self),
                *lay == p.funcs@[f as int].layout,
                all_below(lay@, nb as int),
                nb == p.blocks@.len(),
                bi <= lay@.len(),
                self.lattice_cells@ == s0.lattice_cells@,
                self.edges@ == s0.edges@,
                self.incoming_edges@ == s0.incoming_edges@,
                self.outcoming_edges@ == s0.outcoming_edges@,
                all_below(self.flow_worklist@, self.edges@.len() as int),
                forall|k: int| 0 <= k < self.ssa_worklist@.len() ==> ssa_ok(*p, f, #[trigger] self.ssa_worklist@[k]),
                val < p.values@.len(),
                s0.ssa_worklist@.len() <= self.ssa_worklist@.len(),
                forall|k: int| 0 <= k < s0.ssa_worklist@.len() ==> self.ssa_worklist@[k] == s0.ssa_worklist@[k],
                forall|b: int, w: usize|
                    0 <= b < bi && #[trigger] p.blocks@[lay@[b] as int].insts@.contains(w) && p.values@[w as int].kind is Binary
                        && uses(p.values@[w as int].kind, val) ==> pend(self.ssa_worklist@, w),
            decreases lay@.len() - bi,
        {
            let bb = lay[bi];
            proof {
                assert(all_below(p.blocks@[bb as int].insts@, p.values@.len() as int));
            }
            proof {
                assert(all_below(self.outcoming_edges@[bb as int]@, self.edges@.len() as int));
            }
            let insts = &p.blocks[bb].insts;
            let mut ii: usize = 0;
            while ii < insts.len()
                invariant
                    func_wf(*p, f),
                    s0 == *old(self),
                    self.outcoming_edges@.len() == nb,
                    all_below(self.outcoming_edges@[bb as int]@, self.edges@.len() as int),
                    *lay == p.funcs@[f as int].layout,
                    nb == p.blocks@.len(),
                    bi < lay@.len(),
                    bb == lay@[bi as int],
                    bb < nb,
                    *insts == p.blocks@[bb as int].insts,
                    all_below(insts@, p.values@.len() as int),
                    ii <= insts@.len(),
                    self.lattice_cells@ == s0.lattice_cells@,
                    self.edges@ == s0.edges@,
                    self.incoming_edges@ == s0.incoming_edges@,
                    self.outcoming_edges@ == s0.outcoming_edges@,
                    all_below(self.flow_worklist@, self.edges@.len() as int),
                    forall|k: int|
                        0 <= k < self.ssa_worklist@.len() ==> ssa_ok(*p, f, #[trigger] self.ssa_worklist@[k]),
                    val < p.values@.len(),
                    s0.ssa_worklist@.len() <= self.ssa_worklist@.len(),
                    forall|k: int| 0 <= k < s0.ssa_worklist@.len() ==> self.ssa_worklist@[k] == s0.ssa_worklist@[k],
                    forall|b: int, w: usize|
                        0 <= b < bi && #[trigger] p.blocks@[lay@[b] as int].insts@.contains(w) && p.values@[w as int].kind is Binary
                            && uses(p.values@[w as int].kind, val) ==> pend(self.ssa_worklist@, w),
                    forall|j: int|
                        0 <= j < ii && p.values@[insts@[j] as int].kind is Binary && uses(p.values@[insts@[j] as int].kind, val)
                            ==> pend(self.ssa_worklist@, #[trigger] insts@[j]),
                decreases insts@.len() - ii,
            {
                let user = insts[ii];
                if uses_value(value_kind(p, user), val) {
                    if self.is_control_br(p, user, val) {
                        if let ValueKind::Branch(_, t, _, e, _) = value_kind(p, user) {
                            match cell_ty {
                                CellType::Top => {},
                                CellType::Constant(i) => {
                                    let target = if i != 0 {
                                        *t
                                    } else {
                                        *e
                                    };
                                    match self.get_edge_id(bb, target) {
                                        Some(id) => {
                                            self.flow_worklist.push(id);
                                        },
                                        None => {
                                            return false;
                                        },
                                    }
                                },
                                CellType::Bottom => {
                                    let outs = copy_vec(&self.outcoming_edges[bb]);
                                    let ghost old_ssa = self.ssa_worklist@;
                                    let mut k: usize = 0;
                                    while k < outs.len()
                                        invariant
                                            k <= outs@.len(),
                                            self.lattice_cells@ == s0.lattice_cells@,
                                            self.edges@ == s0.edges@,
                                            self.incoming_edges@ == s0.incoming_edges@,
                                            self.outcoming_edges@ == s0.outcoming_edges@,
                                            self.ssa_worklist@ == old_ssa,
                                            all_below(outs@, self.edges@.len() as int),
                                            all_below(self.flow_worklist@, self.edges@.len() as int),
                                        decreases outs@.len() - k,
                                    {
                                        self.flow_worklist.push(outs[k]);
                                        k = k + 1;
                                    }
                                },
                            }
                        }
                    }
                    if self.is_expr(p, user) {
                        proof {
                            assert(p.blocks@[lay@[bi as int] as int].insts@.contains(user)) by {
                                assert(insts@[ii as int] == user);
                            }
                            assert(in_func(*p, f, user));
                        }
                        let ghost before = self.ssa_worklist@;
                        self.ssa_worklist.push(SsaEdge { src: val, dst: user });
                        proof {
                            lemma_pend_grow(before, self.ssa_worklist@);
                            assert(self.ssa_worklist@[before.len() as int].dst == user);
                            assert(pend(self.ssa_worklist@, user));
                        }
                    }
                }
                proof {
                    assert forall|j: int|
                        0 <= j < ii + 1 && p.values@[insts@[j] as int].kind is Binary && uses(p.values@[insts@[j] as int].kind, val)
                            implies pend(self.ssa_worklist@, #[trigger] insts@[j]) by {
                        if j < ii {
                        }
                    }
                }
                ii = ii + 1;
            }
            proof {
                assert forall|b: int, w: usize|
                    0 <= b < bi + 1 && #[trigger] p.blocks@[lay@[b] as int].insts@.contains(w) && p.values@[w as int].kind is Binary
                        && uses(p.values@[w as int].kind, val) implies pend(self.ssa_worklist@, w) by {
                    if b == bi {
                        let j = choose|j: int| 0 <= j < insts@.len() && insts@[j] == w;
                    }
                }
            }
            bi = bi + 1;
        }
        proof {
            assert forall|w: usize|
                #[trigger] in_func(*p, f, w) && p.values@[w as int].kind is Binary && uses(p.values@[w as int].kind, val)
                    implies self.pending_to(w) by {
                let b = choose|b: int| 0 <= b < lay@.len() && #[trigger] p.blocks@[lay@[b] as int].insts@.contains(w);
            }
        }
        proof {
            self.lemma_inv_step(s0, *p, f);
        }
        true
    }

    /// Sets the cell of value `v` to `ty`, where `ty` is what it is to be
    /// and differs from what it was, and queues what depends on it.
    fn lower_cell(&mut self, p: &Program, f: usize, v: usize, ty: CellType) -> (r: bool)
        requires
            old(self).inv(*p, f),
            v < p.values@.len(),
            old(self).lattice_cells@[v as int] is Some,
            ty == old(self).rhs(*p, v, old(self).lattice_cells@[v as int]->Some_0),
            ty != old(self).lattice_cells@[v as int]->Some_0.ty,
            old(self).settled_but(*p, f, Some(v)),
            reached_if_later(*old(self), *p, f, v),
        ensures
            r ==> final(self).inv(*p, f),
            final(self).descends(*old(self)),
            final(self).potential() < old(self).potential(),
            r ==> final(self).settled(*p, f),
            r && in_func(*p, f, v) && p.values@[v as int].kind is Binary ==> final(self).lattice_cells@[v as int]->Some_0.ty
                == final(self).rhs(*p, v, final(self).lattice_cells@[v as int]->Some_0) || final(self).pending_to(v),
    {
        let ghost s0 = *self;
        let old_cell = match self.lattice_cells[v] {
            Some(c) => c,
            None => {
                return false;
            },
        };
        proof {
            assert(below(ty, old_cell.ty));
            lemma_hsum_update(s0.lattice_cells@, v as int, LatticeCell { ty, bb: old_cell.bb }, old_cell);
        }
        self.lattice_cells.set(v, Some(LatticeCell::new(ty, old_cell.bb)));
        proof {
            assert(self.lattice_cells@ == s0.lattice_cells@.update(v as int, Some(LatticeCell { ty, bb: old_cell.bb })));
            assert(self.descends(s0));
            self.lemma_inv_step(s0, *p, f);
        }
        let ghost s1 = *self;
        let r = self.add_edges(p, f, v);
        proof {
            assert(self.descends(s1));
            self.lemma_descends_trans(s1, s0);
            reveal(SCCP::settled_but);
            if r {
                lemma_pend_grow(s0.ssa_worklist@, self.ssa_worklist@);
                let lay = p.funcs@[f as int].layout@;
                assert forall|k: int, w: usize|
                    1 <= k < lay.len() && #[trigger] p.blocks@[lay[k] as int].insts@.contains(w)
                        && p.values@[w as int].kind is Binary && self.lattice_cells@[w as int] is Some implies {
                        let c = self.lattice_cells@[w as int]->Some_0;
                        &&& (c.ty == CellType::Top || c.ty == self.rhs(*p, w, c) || self.pending_to(w))
                        &&& (!self.has_exec_in(lay[k]) ==> c.ty == CellType::Top)
                    } by {
                    assert(in_func(*p, f, w));
                    assert(s0.lattice_cells@[w as int] is Some);
                    if uses(p.values@[w as int].kind, v) {
                        assert(self.pending_to(w));
                    } else {
                        if let ValueKind::Binary(op, l, rr) = p.values@[w as int].kind {
                            assert(self.ty_of(*p, l) == s0.ty_of(*p, l));
                            assert(self.ty_of(*p, rr) == s0.ty_of(*p, rr));
                        }
                        assert(self.has_exec_in(lay[k]) == s0.has_exec_in(lay[k]));
                        if s0.pending_to(w) {
                            assert(pend(self.ssa_worklist@, w));
                        }
                    }
                }
                if in_func(*p, f, v) && p.values@[v as int].kind is Binary {
                    if !uses(p.values@[v as int].kind, v) {
                        if let ValueKind::Binary(op, l, rr) = p.values@[v as int].kind {
                            assert(self.ty_of(*p, l) == s0.ty_of(*p, l));
                            assert(self.ty_of(*p, rr) == s0.ty_of(*p, rr));
                        }
                    }
                }
            }
        }
        r
    }

    /// Evaluates the binary instruction `expr` from what is known of its
    /// operands, and queues what depends on it where its cell changed.
    /// `false` where the operation is one that does not fold, or folds to
    /// no `i32`.
    fn visit_expr(&mut self, p: &Program, f: usize, expr: usize) -> (r: bool)
        requires
            old(self).inv(*p, f),
            expr < p.values@.len(),
            p.values@[expr as int].kind is Binary ==> old(self).lattice_cells@[expr as int] is Some,
            old(self).settled_but(*p, f, Some(expr)),
            reached_if_later(*old(self), *p, f, expr),
        ensures
            r ==> final(self).inv(*p, f),
            final(self).descends(*old(self)),
            final(self).potential() < old(self).potential() || *final(self) == *old(self),
            r ==> final(self).settled(*p, f),
            r && in_func(*p, f, expr) && p.values@[expr as int].kind is Binary
                ==> final(self).lattice_cells@[expr as int]->Some_0.ty == final(self).rhs(
                *p,
                expr,
                final(self).lattice_cells@[expr as int]->Some_0,
            ) || final(self).pending_to(expr),
    {
        if let ValueKind::Binary(op, l, rr) = value_kind(p, expr) {
            let old_cell = match self.lattice_cells[expr] {
                Some(c) => c,
                None => {
                    return false;
                },
            };
            proof {
                assert(kind_ok(p.values@[expr as int].kind, p.values@.len() as int, p.blocks@.len() as int, p.funcs@.len() as int));
            }
            let lhs = self.value_to_type(p, *l);
            let rhs = self.value_to_type(p, *rr);
            if let (CellType::Constant(a), CellType::Constant(b)) = (lhs, rhs) {
                if !foldable_exec(*op, a, b) {
                    return false;
                }
            }
            let new_ty = evaluate(*op, lhs, rhs);
            if old_cell.ty == new_ty {
                proof {
                    reveal(SCCP::settled_but);
                }
                return true;
            }
            return self.lower_cell(p, f, expr, new_ty);
        }
        proof {
            reveal(SCCP::settled_but);
        }
        true
    }

    /// Meets what the executable edges into block `bb` pass for the
    /// parameter `param` of the block, and queues what depends on it where
    /// its cell changed. `false` where such an edge comes from a block that
    /// does not end in a jump or branch passing the argument.
    fn visit_param(&mut self, p: &Program, f: usize, bb: usize, param: usize) -> (r: bool)
        requires
            old(self).inv(*p, f),
            p.funcs@[f as int].layout@.contains(bb),
            p.blocks@[bb as int].params@.contains(param),
            old(self).settled(*p, f),
        ensures
            r ==> final(self).inv(*p, f),
            final(self).descends(*old(self)),
            final(self).potential() < old(self).potential() || *final(self) == *old(self),
            r ==> final(self).settled(*p, f),
    {
        let ghost lay = p.funcs@[f as int].layout@;
        proof {
            assert(all_below(lay, p.blocks@.len() as int));
            let b = choose|b: int| 0 <= b < lay.len() && lay[b] == bb;
            assert(p.blocks@[lay[b] as int].params@.contains(param));
            assert(all_below(p.blocks@[bb as int].params@, p.values@.len() as int));
        }
        if let ValueKind::BlockArgRef(arg_idx) = value_kind(p, param) {
            let arg_idx = *arg_idx;
            let old_cell = match self.lattice_cells[param] {
                Some(c) => c,
                None => {
                    return false;
                },
            };
            let mut operands: Vec<CellType> = Vec::new();
            let ids = &self.incoming_edges[bb];
            proof {
                assert(all_below(ids@, self.edges@.len() as int));
            }
            let mut k: usize = 0;
            while k < ids.len()
                invariant
                    self.inv(*p, f),
                    bb < p.blocks@.len(),
                    *ids == self.incoming_edges@[bb as int],
                    all_below(ids@, self.edges@.len() as int),
                    k <= ids@.len(),
                    meet_all(operands@) == self.pmeet(*p, ids@.subrange(0, k as int), bb, arg_idx as int),
                    self.settled(*p, f),
                    p.values@[param as int].kind is BlockArgRef,
                decreases ids@.len() - k,
            {
                let id = ids[k];
                let edge = self.edges[id];
                proof {
                    let sub = ids@.subrange(0, k + 1);
                    assert(sub.drop_last() =~= ids@.subrange(0, k as int));
                    assert(sub.last() == id);
                    assert(p.funcs@[f as int].layout@.contains(edge.src));
                    assert(all_below(p.funcs@[f as int].layout@, p.blocks@.len() as int));
                }
                if edge.executable {
                    match edge_arg_exec(p, edge.src, bb, arg_idx) {
                        Some(a) => {
                            proof {
                                lemma_edge_arg_below(*p, edge.src, bb, arg_idx as int);
                            }
                            let t = self.value_to_type(p, a);
                            let ghost before = operands@;
                            operands.push(t);
                            proof {
                                assert(operands@.drop_last() =~= before);
                            }
                        },
                        None => {
                            return false;
                        },
                    }
                }
                k = k + 1;
            }
            proof {
                assert(ids@.subrange(0, ids@.len() as int) =~= ids@);
            }
            let new_ty = meet(operands.as_slice());
            if old_cell.ty == new_ty {
                return true;
            }
            proof {
                self.lemma_settled_weaken(*p, f, param);
            }
            return self.lower_cell(p, f, param, new_ty);
        }
        true
    }

    /// The block and parameter that `def` feeds as an argument of the jump
    /// or branch `val`, where it is one.
    fn is_part_of_phi(&self, p: &Program, def: usize, val: usize) -> (r: Option<(usize, usize)>)
        requires
            p.wf(),
            val < p.values@.len(),
        ensures
            r is Some ==> (p.values@[val as int].kind is Jump || p.values@[val as int].kind is Branch),
            r == phi_of(*p, def, val),
    {
        proof {
            assert(kind_ok(p.values@[val as int].kind, p.values@.len() as int, p.blocks@.len() as int, p.funcs@.len() as int));
        }
        match value_kind(p, val) {
            ValueKind::Jump(t, args) => {
                match position(args, def) {
                    Some(idx) => {
                        let params = &p.blocks[*t].params;
                        if idx < params.len() {
                            Some((*t, params[idx]))
                        } else {
                            None
                        }
                    },
                    None => None,
                }
            },
            ValueKind::Branch(_, t, ta, e, fa) => {
                let l_idx = position(ta, def);
                let r_idx = position(fa, def);
                let (bb, i) = if let Some(i) = l_idx {
                    (*t, i)
                } else if let Some(i) = r_idx {
                    (*e, i)
                } else {
                    return None;
                };
                let params = &p.blocks[bb].params;
                if i < params.len() {
                    Some((bb, params[i]))
                } else {
                    None
                }
            },
            _ => None,
        }
    }

    /// Takes the last pending edge between blocks and, the first time it
    /// is found executable, meets the parameters of its target and, where
    /// the target is reached for the first time, evaluates its binary
    /// instructions; queues the only edge out of the target where there is
    /// one. `false` where a visit stops (see each).
    fn visit_flow_edge(&mut self, p: &Program, f: usize) -> (r: bool)
        requires
            old(self).inv(*p, f),
            old(self).flow_worklist@.len() > 0,
            old(self).settled(*p, f),
        ensures
            r ==> final(self).inv(*p, f),
            r ==> lex_lt(*final(self), *old(self)),
            r ==> final(self).settled(*p, f),
    {
        let ghost s0 = *self;
        let id = match self.flow_worklist.pop() {
            Some(id) => id,
            None => {
                return false;
            },
        };
        proof {
            assert(self.flow_worklist@ =~= s0.flow_worklist@.drop_last());
            assert(s0.flow_worklist@[s0.flow_worklist@.len() - 1] == id);
            assert(self.descends(s0));
            self.lemma_inv_step(s0, *p, f);
            assert(all_below(p.funcs@[f as int].layout@, p.blocks@.len() as int));
            self.lemma_settled_frame(s0, *p, f, None);
        }
        let edge = self.edges[id];
        if edge.executable {
            return true;
        }
        let ghost s1 = *self;
        self.edges.set(id, FlowEdge { src: edge.src, dst: edge.dst, executable: true });
        proof {
            lemma_xcount_mark(s1.edges@, id as int);
            assert(self.descends(s1));
            self.lemma_inv_step(s1, *p, f);
            self.lemma_settled_frame(s1, *p, f, None);
        }
        let ghost s2 = *self;
        let bb = edge.dst;
        let ghost lay = p.funcs@[f as int].layout@;
        proof {
            assert(lay.contains(bb));
            assert(all_below(lay, p.blocks@.len() as int));
        }
        let params = &p.blocks[bb].params;
        let mut i: usize = 0;
        while i < params.len()
            invariant
                self.inv(*p, f),
                self.descends(s2),
                self.potential() <= s2.potential(),
                self.settled(*p, f),
                lay == p.funcs@[f as int].layout@,
                lay.contains(bb),
                *params == p.blocks@[bb as int].params,
                i <= params@.len(),
            decreases params@.len() - i,
        {
            let ghost si = *self;
            let par = params[i];
            proof {
                assert(params@.contains(par));
            }
            if !self.visit_param(p, f, bb, par) {
                return false;
            }
            proof {
                self.lemma_descends_trans(si, s2);
            }
            i = i + 1;
        }
        proof {
            assert(bb < p.blocks@.len());
            assert(all_below(self.incoming_edges@[bb as int]@, self.edges@.len() as int));
        }
        if !self.is_visited(bb) {
            let insts = &p.blocks[bb].insts;
            proof {
                assert(all_below(insts@, p.values@.len() as int));
            }
            let mut i: usize = 0;
            while i < insts.len()
                invariant
                    self.inv(*p, f),
                    self.descends(s2),
                    self.potential() <= s2.potential(),
                    self.settled(*p, f),
                    self.has_exec_in(bb),
                    lay == p.funcs@[f as int].layout@,
                    lay.contains(bb),
                    *insts == p.blocks@[bb as int].insts,
                    all_below(insts@, p.values@.len() as int),
                    i <= insts@.len(),
                decreases insts@.len() - i,
            {
                let ghost si = *self;
                let val = insts[i];
                proof {
                    let b = choose|b: int| 0 <= b < lay.len() && lay[b] == bb;
                    assert(p.blocks@[lay[b] as int].insts@.contains(val)) by {
                        assert(insts@[i as int] == val);
                    }
                }
                if self.is_expr(p, val) {
                    proof {
                        assert(p.blocks@[bb as int].insts@.contains(val));
                        self.lemma_reached_if_later(*p, f, bb, val);
                        self.lemma_settled_weaken(*p, f, val);
                    }
                    if !self.visit_expr(p, f, val) {
                        return false;
                    }
                    proof {
                        self.lemma_descends_trans(si, s2);
                        assert(bb < si.incoming_edges@.len());
                        assert(all_below(si.incoming_edges@[bb as int]@, si.edges@.len() as int));
                        self.lemma_exec_in_grows(si, bb);
                    }
                }
                i = i + 1;
            }
        }
        proof {
            assert(bb < p.blocks@.len());
            assert(all_below(self.outcoming_edges@[bb as int]@, self.edges@.len() as int));
        }
        let outs = &self.outcoming_edges[bb];
        if outs.len() == 1 {
            let o = outs[0];
            let ghost s3 = *self;
            self.flow_worklist.push(o);
            proof {
                assert(self.descends(s3));
                self.lemma_inv_step(s3, *p, f);
                self.lemma_settled_frame(s3, *p, f, None);
            }
        }
        true
    }

    /// Takes the last pending use and evaluates the instruction that uses
    /// the value where its block is reached. `false` where a visit stops, or
    /// where the instruction stands in no block of the layout.
    fn visit_ssa_edge(&mut self, p: &Program, f: usize) -> (r: bool)
        requires
            old(self).inv(*p, f),
            old(self).ssa_worklist@.len() > 0,
            old(self).settled(*p, f),
        ensures
            r ==> final(self).inv(*p, f),
            r ==> lex_lt(*final(self), *old(self)),
            r ==> final(self).settled(*p, f),
    {
        let ghost s0 = *self;
        let edge = match self.ssa_worklist.pop() {
            Some(e) => e,
            None => {
                return false;
            },
        };
        proof {
            assert(self.ssa_worklist@ =~= s0.ssa_worklist@.drop_last());
            assert(s0.ssa_worklist@[s0.ssa_worklist@.len() - 1] == edge);
            assert(ssa_ok(*p, f, edge));
            assert(self.descends(s0));
            self.lemma_inv_step(s0, *p, f);
            self.lemma_settled_pop(s0, *p, f);
        }
        let src = edge.src;
        let dst = edge.dst;
        let param = self.is_part_of_phi(p, src, dst);
        match param {
            Some((bb, par)) => {
                self.visit_param(p, f, bb, par)
            },
            None => {
                match parent_bb(p, f, dst) {
                    Some(dst_bb) => {
                        proof {
                            assert(all_below(self.incoming_edges@[dst_bb as int]@, self.edges@.len() as int));
                            let lay = p.funcs@[f as int].layout@;
                            let b = choose|b: int|
                                0 <= b < lay.len() && #[trigger] p.blocks@[lay[b] as int].insts@.contains(dst);
                        }
                        if self.is_reachable(dst_bb) {
                            proof {
                                self.lemma_reached_if_later(*p, f, dst_bb, dst);
                            }
                            return self.visit_expr(p, f, dst);
                        }
                        proof {
                            self.lemma_settled_unreached(*p, f, dst, dst_bb);
                        }
                        true
                    },
                    None => false,
                }
            },
        }
    }

    /// Evaluates the binary instructions of the entry block of function
    /// `f`, and queues the only edge out of it where there is one.
    fn visit_entry(&mut self, p: &Program, f: usize) -> (r: bool)
        requires
            old(self).inv(*p, f),
            p.funcs@[f as int].layout@.len() > 0,
            old(self).settled(*p, f),
        ensures
            r ==> final(self).inv(*p, f),
            r ==> final(self).settled(*p, f),
    {
        let ghost lay = p.funcs@[f as int].layout@;
        let entry_bb = p.funcs[f].layout[0];
        proof {
            assert(lay.contains(entry_bb)) by {
                assert(lay[0] == entry_bb);
            }
            assert(all_below(lay, p.blocks@.len() as int));
            assert(all_below(p.blocks@[entry_bb as int].insts@, p.values@.len() as int));
        }
        let insts = &p.blocks[entry_bb].insts;
        let mut i: usize = 0;
        while i < insts.len()
            invariant
                self.inv(*p, f),
                self.settled(*p, f),
                lay == p.funcs@[f as int].layout@,
                lay.contains(entry_bb),
                lay[0] == entry_bb,
                *insts == p.blocks@[entry_bb as int].insts,
                all_below(insts@, p.values@.len() as int),
                i <= insts@.len(),
            decreases insts@.len() - i,
        {
            let val = insts[i];
            proof {
                let b = choose|b: int| 0 <= b < lay.len() && lay[b] == entry_bb;
                assert(p.blocks@[lay[b] as int].insts@.contains(val)) by {
                    assert(insts@[i as int] == val);
                }
            }
            if self.is_expr(p, val) {
                proof {
                    self.lemma_entry_not_later(*p, f, val);
                    self.lemma_settled_weaken(*p, f, val);
                }
                if !self.visit_expr(p, f, val) {
                    return false;
                }
            }
            i = i + 1;
        }
        proof {
            assert(all_below(self.outcoming_edges@[entry_bb as int]@, self.edges@.len() as int));
            assert(all_below(lay, p.blocks@.len() as int));
        }
        let outs = &self.outcoming_edges[entry_bb];
        if outs.len() == 1 {
            let o = outs[0];
            let ghost s3 = *self;
            self.flow_worklist.push(o);
            proof {
                assert(self.descends(s3));
                self.lemma_inv_step(s3, *p, f);
                self.lemma_settled_frame(s3, *p, f, None);
            }
        }
        true
    }

    /// Visits pending edges until none is left. `false` where a visit stops.
    fn propagate(&mut self, p: &Program, f: usize) -> (r: bool)
        requires
            old(self).inv(*p, f),
            old(self).settled(*p, f),
        ensures
            r ==> final(self).inv(*p, f),
            r ==> final(self).pending_empty(),
            r ==> final(self).settled(*p, f),
    {
        while !self.is_terminate()
            invariant
                self.inv(*p, f),
                self.settled(*p, f),
            decreases self.potential(), self.pending(),
        {
            let ghost start = *self;
            while self.flow_worklist.len() > 0
                invariant
                    self.inv(*p, f),
                    self.settled(*p, f),
                    lex_lt(*self, start) || *self == start,
                decreases self.potential(), self.pending(),
            {
                if !self.visit_flow_edge(p, f) {
                    return false;
                }
            }
            let ghost mid = *self;
            let ghost mid_lt = lex_lt(mid, start);
            while self.ssa_worklist.len() > 0
                invariant
                    self.inv(*p, f),
                    self.settled(*p, f),
                    lex_lt(*self, start) || *self == start,
                    mid_lt ==> lex_lt(*self, start),
                    mid_lt == lex_lt(mid, start),
                    !mid_lt ==> mid == start,
                    mid.flow_worklist@.len() == 0,
                decreases self.potential(), self.pending(),
            {
                if !self.visit_ssa_edge(p, f) {
                    return false;
                }
            }
        }
        true
    }

    /// Turns each branch on an integer that ends a block of the layout of
    /// function `f` into a jump to the block it always takes. `false`, with
    /// the program unchanged, where a block of the layout is empty.
    fn remove_trivial_branch(&self, p: &mut Program, f: usize) -> (r: bool)
        requires
            func_wf(*old(p), f),
        ensures
            func_wf(*final(p), f),
            final(p).funcs@ == old(p).funcs@,
            final(p).blocks@ == old(p).blocks@,
            final(p).inst_layout@ == old(p).inst_layout@,
            final(p).values@.len() == old(p).values@.len(),
            !r ==> final(p).values@ == old(p).values@,
            r == forall|k: int|
                0 <= k < old(p).funcs@[f as int].layout@.len() ==> (#[trigger] old(p).blocks@[old(
                p).funcs@[f as int].layout@[k] as int]).insts@.len() > 0,
            forall|v: usize|
                v < old(p).values@.len() ==> #[trigger] final(p).values@[v as int] == old(p).values@[v as int] || (
                ends_block(*old(p), f, v) && branch_folded(*old(p), old(p).values@[v as int].kind, final(p).values@[v as int])),
            r ==> forall|v: usize|
                v < old(p).values@.len() && ends_block(*old(p), f, v) && branch_on_int(
                    *old(p),
                    old(p).values@[v as int].kind,
                ) ==> branch_folded(*old(p), old(p).values@[v as int].kind, #[trigger] final(p).values@[v as int]),
            r ==> no_const_branch(*final(p), f),
    {
        let ghost p0 = *p;
        let ghost lay = p0.funcs@[f as int].layout@;
        let n = p.funcs[f].layout.len();
        proof {
            assert(all_below(lay, p0.blocks@.len() as int));
        }
        let mut i: usize = 0;
        while i < n
            invariant
                func_wf(p0, f),
                *p == p0,
                lay == p0.funcs@[f as int].layout@,
                n == lay.len(),
                all_below(lay, p0.blocks@.len() as int),
                i <= n,
                forall|k: int| 0 <= k < i ==> (#[trigger] p0.blocks@[lay[k] as int]).insts@.len() > 0,
            decreases n - i,
        {
            let bb = p.funcs[f].layout[i];
            if last_inst_of_bb(p, bb).is_none() {
                return false;
            }
            i = i + 1;
        }
        let mut i: usize = 0;
        while i < n
            invariant
                func_wf(p0, f),
                func_wf(*p, f),
                lay == p0.funcs@[f as int].layout@,
                n == lay.len(),
                all_below(lay, p0.blocks@.len() as int),
                i <= n,
                forall|k: int| 0 <= k < n ==> (#[trigger] p0.blocks@[lay[k] as int]).insts@.len() > 0,
                p.funcs@ == p0.funcs@,
                p.blocks@ == p0.blocks@,
                p.inst_layout@ == p0.inst_layout@,
                p.values@.len() == p0.values@.len(),
                forall|v: usize|
                    v < p0.values@.len() ==> #[trigger] p.values@[v as int] == p0.values@[v as int] || (ends_block(
                        p0,
                        f,
                        v,
                    ) && branch_folded(p0, p0.values@[v as int].kind, p.values@[v as int])),
                forall|k: int|
                    0 <= k < i && branch_on_int(p0, p0.values@[last_of(p0, lay[k]) as int].kind) ==> branch_folded(
                        p0,
                        p0.values@[last_of(p0, lay[k]) as int].kind,
                        #[trigger] p.values@[last_of(p0, lay[k]) as int],
                    ),
            decreases n - i,
        {
            let bb = p.funcs[f].layout[i];
            let val = match last_inst_of_bb(p, bb) {
                Some(v) => v,
                None => {
                    return false;
                },
            };
            proof {
                assert(bb == lay[i as int]);
                assert(p0.blocks@[bb as int].insts@.len() > 0);
                assert(val == last_of(p0, bb));
                assert(lay.contains(bb));
                assert(all_below(p0.blocks@[bb as int].insts@, p0.values@.len() as int));
                let ins = p0.blocks@[bb as int].insts@;
                assert(ins[ins.len() - 1] == val);
                assert(ends_block(p0, f, val)) by {
                    assert(p0.blocks@[lay[i as int] as int].insts@.len() > 0);
                }
            }
            let mut next: Option<crate::ir::ValueData> = None;
            if let ValueKind::Branch(cond, t, ta, e, fa) = value_kind(p, val) {
                proof {
                    assert(kind_ok(p.values@[val as int].kind, p.values@.len() as int, p.blocks@.len() as int, p.funcs@.len() as int));
                }
                if let ValueKind::Integer(iv) = value_kind(p, *cond) {
                    let (target, args) = if *iv != 0 {
                        (*t, copy_vec(ta))
                    } else {
                        (*e, copy_vec(fa))
                    };
                    next = Some(crate::ir::ValueData { ty: IrType::Unit, name: None, kind: ValueKind::Jump(target, args) });
                }
            }
            match next {
                Some(d) => {
                    let ghost pv = p.values@;
                    proof {
                        assert(p.values@[val as int] == p0.values@[val as int]);
                        let c = p0.values@[val as int].kind->Branch_0;
                        assert(p.values@[c as int] == p0.values@[c as int] || p0.values@[c as int].kind is Branch);
                    }
                    p.values.set(val, d);
                    proof {
                        assert forall|x: int| 0 <= x < pv.len() && x != val implies #[trigger] p.values@[x] == pv[x] by {}
                        assert forall|x: int| 0 <= x < p.values@.len() implies kind_ok(
                            #[trigger] p.values@[x].kind,
                            p.values@.len() as int,
                            p.blocks@.len() as int,
                            p.funcs@.len() as int,
                        ) by {
                            if x != val {
                                assert(p.values@[x] == pv[x]);
                            } else {
                                let c = p0.values@[val as int].kind->Branch_0;
                                assert(kind_ok(p0.values@[val as int].kind, p.values@.len() as int, p.blocks@.len() as int, p.funcs@.len() as int));
                            }
                        }
                        assert forall|k: int|
                            0 <= k < i + 1 && branch_on_int(p0, p0.values@[last_of(p0, lay[k]) as int].kind) implies branch_folded(
                            p0,
                            p0.values@[last_of(p0, lay[k]) as int].kind,
                            #[trigger] p.values@[last_of(p0, lay[k]) as int],
                        ) by {
                            if last_of(p0, lay[k]) != val {
                                assert(p.values@[last_of(p0, lay[k]) as int] == pv[last_of(p0, lay[k]) as int]);
                            }
                        }
                    }
                },
                None => {
                    proof {
                        if branch_on_int(p0, p0.values@[val as int].kind) {
                            if p.values@[val as int] == p0.values@[val as int] {
                                let c = p0.values@[val as int].kind->Branch_0;
                                assert(kind_ok(p0.values@[val as int].kind, p.values@.len() as int, p.blocks@.len() as int, p.funcs@.len() as int));
                                assert(p.values@[c as int] == p0.values@[c as int] || ends_block(p0, f, c));
                            }
                        }
                    }
                },
            }
            i = i + 1;
        }
        proof {
            assert forall|v: usize|
                v < p0.values@.len() && ends_block(p0, f, v) && branch_on_int(p0, p0.values@[v as int].kind)
                implies branch_folded(p0, p0.values@[v as int].kind, #[trigger] p.values@[v as int]) by {
                let b = choose|b: int|
                    0 <= b < lay.len() && #[trigger] p0.blocks@[lay[b] as int].insts@.len() > 0
                        && p0.blocks@[lay[b] as int].insts@.last() == v;
                assert(last_of(p0, lay[b]) == v);
            }
            assert forall|v: usize|
                v < p.values@.len() && #[trigger] ends_block(*p, f, v) implies !branch_on_int(*p, p.values@[v as int].kind) by {
                assert(ends_block(p0, f, v));
                if branch_on_int(p0, p0.values@[v as int].kind) {
                } else if p.values@[v as int] == p0.values@[v as int] {
                    if let ValueKind::Branch(c, _, _, _, _) = p0.values@[v as int].kind {
                        assert(kind_ok(p0.values@[v as int].kind, p0.values@.len() as int, p0.blocks@.len() as int, p0.funcs@.len() as int));
                        assert(p.values@[c as int] == p0.values@[c as int] || branch_folded(p0, p0.values@[c as int].kind, p.values@[c as int]));
                    }
                }
            }
        }
        true
    }

    /// The constant that the cell of value `v` holds, where it holds one.
    pub closed spec fn const_of(&self, v: int) -> Option<i32> {
        match self.lattice_cells@[v] {
            Some(c) => match c.ty {
                CellType::Constant(i) => Some(i),
                _ => None,
            },
            None => None,
        }
    }

    /// Takes the parameter at position `idx` out of block `bb`, and its
    /// argument out of each jump and branch of function `f` to it. `false`,
    /// with the program unchanged, where there is no such parameter or a
    /// jump or branch passes no such argument.
    fn remove_unused_arg(&self, p: &mut Program, f: usize, bb: usize, idx: usize) -> (r: bool)
        requires
            func_wf(*old(p), f),
            bb < old(p).blocks@.len(),
        ensures
            func_wf(*final(p), f),
            final(p).funcs@ == old(p).funcs@,
            final(p).inst_layout@ == old(p).inst_layout@,
            final(p).values@.len() == old(p).values@.len(),
            final(p).blocks@.len() == old(p).blocks@.len(),
            forall|x: int| 0 <= x < old(p).blocks@.len() && x != bb ==> #[trigger] final(p).blocks@[x] == old(p).blocks@[x],
            r ==> idx < old(p).blocks@[bb as int].params@.len() && final(p).blocks@[bb as int].params@
                == old(p).blocks@[bb as int].params@.remove(idx as int),
            !r ==> *final(p) == *old(p),
            r == (idx < old(p).blocks@[bb as int].params@.len() && args_reach(*old(p), f, bb, idx as int)),
            forall|v: usize|
                v < old(p).values@.len() && !(old(p).values@[v as int].kind is Jump || old(p).values@[v as int].kind is Branch)
                    ==> #[trigger] final(p).values@[v as int] == old(p).values@[v as int],
    {
        if idx >= p.blocks[bb].params.len() {
            return false;
        }
        if !args_reach_exec(p, f, bb, idx) {
            return false;
        }
        let ghost p0 = *p;
        remove_arg(p, f, bb, idx);
        proof {
            assert forall|v: usize|
                v < p0.values@.len() && !(p0.values@[v as int].kind is Jump || p0.values@[v as int].kind is Branch)
                    implies #[trigger] p.values@[v as int] == p0.values@[v as int] by {
                assert(p.values@[v as int].ty == p0.values@[v as int].ty);
            }
        }
        true
    }

    /// Puts in place of each value whose cell holds a constant an integer:
    /// takes a binary instruction out of its block, and a parameter out of
    /// its block with its arguments, giving the remaining parameters their
    /// new positions. `false` where a parameter or argument to take out is
    /// missing.
    fn remove_all_consts(&self, p: &mut Program, f: usize) -> (r: bool)
        requires
            self.tables_ok(*old(p), f),
            layout_params_distinct(*old(p), f),
        ensures
            func_wf(*final(p), f),
            final(p).funcs@ == old(p).funcs@,
            final(p).values@.len() == old(p).values@.len(),
            final(p).blocks@.len() == old(p).blocks@.len(),
            r ==> forall|v: int|
                0 <= v < old(p).values@.len() && (#[trigger] self.const_of(v)) is Some ==> final(p).values@[v].kind
                    == ValueKind::Integer(self.const_of(v)->Some_0) && final(p).values@[v].ty == IrType::Int32,
            r ==> forall|v: int|
                0 <= v < old(p).values@.len() && self.const_of(v) is None && !(old(p).values@[v].kind is Jump
                    || old(p).values@[v].kind is Branch || old(p).values@[v].kind is BlockArgRef)
                    ==> #[trigger] final(p).values@[v] == old(p).values@[v],
            (forall|v: int|
                0 <= v < old(p).values@.len() && (#[trigger] self.const_of(v)) is Some ==> !(old(p).values@[v].kind is BlockArgRef))
                ==> r,
    {
        let ghost p0 = *p;
        let ghost lay = p0.funcs@[f as int].layout@;
        let nv = p.values.len();
        let nb = p.blocks.len();
        let mut removed: Vec<Vec<usize>> = Vec::new();
        let mut i: usize = 0;
        while i < nb
            invariant
                i <= nb,
                removed@.len() == i,
                forall|b: int| 0 <= b < i ==> (#[trigger] removed@[b])@.len() == 0,
            decreases nb - i,
        {
            removed.push(Vec::new());
            i = i + 1;
        }
        let mut v: usize = 0;
        while v < nv
            invariant
                p0 == *old(p),
                self.tables_ok(p0, f),
                layout_params_distinct(p0, f),
                lay == p0.funcs@[f as int].layout@,
                nv == p0.values@.len(),
                nb == p0.blocks@.len(),
                v <= nv,
                func_wf(*p, f),
                p.funcs@ == p0.funcs@,
                p.values@.len() == nv,
                p.blocks@.len() == nb,
                forall|x: int| 0 <= x < nb ==> (#[trigger] p.blocks@[x]).params@ == p0.blocks@[x].params@,
                removed@.len() == nb,
                forall|b: int| 0 <= b < nb && !lay.contains(b as usize) ==> (#[trigger] removed@[b])@.len() == 0,
                (forall|w: int| 0 <= w < nv && (#[trigger] self.const_of(w)) is Some ==> !(p0.values@[w].kind is BlockArgRef))
                    ==> forall|b: int| 0 <= b < nb ==> (#[trigger] removed@[b])@.len() == 0,
                forall|w: int|
                    0 <= w < nv ==> if w < v && self.const_of(w) is Some {
                        (#[trigger] p.values@[w]).kind == ValueKind::Integer(self.const_of(w)->Some_0)
                            && p.values@[w].ty == IrType::Int32
                    } else {
                        p.values@[w] == p0.values@[w]
                    },
            decreases nv - v,
        {
            if let Some(c) = self.lattice_cells[v] {
                if let CellType::Constant(iv) = c.ty {
                    let bbc = c.bb;
                    proof {
                        assert(self.lattice_cells@[v as int] is Some);
                        assert(lay.contains(bbc));
                    }
                    if let ValueKind::BlockArgRef(a) = value_kind(p, v) {
                        proof {
                            assert(self.const_of(v as int) is Some);
                            assert(p.values@[v as int] == p0.values@[v as int]);
                        }
                        let mut list = copy_vec(&removed[bbc]);
                        list.push(*a);
                        let ghost rb = removed@;
                        removed.set(bbc, list);
                        proof {
                            assert forall|b: int| 0 <= b < nb && !lay.contains(b as usize) implies (
                            #[trigger] removed@[b])@.len() == 0 by {
                                assert(removed@[b] == rb[b]);
                            }
                        }
                    } else {
                        match position(&p.blocks[bbc].insts, v) {
                            Some(pos) => {
                                let ghost pb = *p;
                                let mut ins = copy_vec(&p.blocks[bbc].insts);
                                ins.remove(pos);
                                p.blocks[bbc].insts = ins;
                                proof {
                                    lemma_drop_inst_wf(pb, *p, f, bbc, pos as int);
                                }
                            },
                            None => {},
                        }
                    }
                    let ghost pv = *p;
                    p.values[v].ty = IrType::Int32;
                    p.values[v].name = None;
                    p.values[v].kind = ValueKind::Integer(iv);
                    proof {
                        assert forall|x: int| 0 <= x < nv && x != v implies #[trigger] p.values@[x] == pv.values@[x] by {}
                        assert forall|x: int| 0 <= x < p.values@.len() implies kind_ok(
                            #[trigger] p.values@[x].kind,
                            p.values@.len() as int,
                            p.blocks@.len() as int,
                            p.funcs@.len() as int,
                        ) by {
                            if x != v {
                                assert(p.values@[x] == pv.values@[x]);
                            }
                        }
                        assert(self.const_of(v as int) == Some(iv));
                    }
                }
            }
            v = v + 1;
        }
        let mut b: usize = 0;
        while b < nb
            invariant
                p0 == *old(p),
                layout_params_distinct(p0, f),
                (forall|w: int| 0 <= w < nv && (#[trigger] self.const_of(w)) is Some ==> !(p0.values@[w].kind is BlockArgRef))
                    ==> forall|x: int| 0 <= x < nb ==> (#[trigger] removed@[x])@.len() == 0,
                lay == p0.funcs@[f as int].layout@,
                nv == p0.values@.len(),
                nb == p0.blocks@.len(),
                b <= nb,
                func_wf(*p, f),
                p.funcs@ == p0.funcs@,
                p.values@.len() == nv,
                p.blocks@.len() == nb,
                layout_params_distinct(*p, f),
                removed@.len() == nb,
                forall|x: int| 0 <= x < nb && !lay.contains(x as usize) ==> (#[trigger] removed@[x])@.len() == 0,
                forall|w: int|
                    0 <= w < nv && self.const_of(w) is None && !(p0.values@[w].kind is Jump || p0.values@[w].kind is Branch
                        || p0.values@[w].kind is BlockArgRef) ==> #[trigger] p.values@[w] == p0.values@[w],
                forall|w: int|
                    0 <= w < nv && self.const_of(w) is Some ==> (#[trigger] p.values@[w]).kind == ValueKind::Integer(
                        self.const_of(w)->Some_0,
                    ) && p.values@[w].ty == IrType::Int32,
            decreases nb - b,
        {
            if removed[b].len() > 0 {
                proof {
                    assert(removed@[b as int]@.len() > 0);
                }
                let mut idxs = copy_vec(&removed[b]);
                sort_desc(&mut idxs);
                proof {
                    assert(lay.contains(b));
                }
                let mut k: usize = 0;
                while k < idxs.len()
                    invariant
                        p0 == *old(p),
                        !(forall|w: int| 0 <= w < nv && (#[trigger] self.const_of(w)) is Some ==> !(p0.values@[w].kind is BlockArgRef)),
                        lay == p0.funcs@[f as int].layout@,
                        lay.contains(b),
                        nv == p0.values@.len(),
                        nb == p0.blocks@.len(),
                        b < nb,
                        k <= idxs@.len(),
                        func_wf(*p, f),
                        p.funcs@ == p0.funcs@,
                        p.values@.len() == nv,
                        p.blocks@.len() == nb,
                        layout_params_distinct(*p, f),
                        forall|w: int|
                            0 <= w < nv && self.const_of(w) is None && !(p0.values@[w].kind is Jump || p0.values@[w].kind is Branch
                                || p0.values@[w].kind is BlockArgRef) ==> #[trigger] p.values@[w] == p0.values@[w],
                        forall|w: int|
                            0 <= w < nv && self.const_of(w) is Some ==> (#[trigger] p.values@[w]).kind
                                == ValueKind::Integer(self.const_of(w)->Some_0) && p.values@[w].ty == IrType::Int32,
                    decreases idxs@.len() - k,
                {
                    let ghost pk = *p;
                    proof {
                        let j = choose|j: int| 0 <= j < lay.len() && lay[j] == b;
                        assert(params_distinct(pk, lay[j]));
                    }
                    if !self.remove_unused_arg(p, f, b, idxs[k]) {
                        return false;
                    }
                    proof {
                        assert forall|j: int| 0 <= j < lay.len() implies params_distinct(*p, #[trigger] lay[j]) by {
                            assert(params_distinct(pk, lay[j]));
                            assert(all_below(lay, nb as int));
                            if lay[j] == b {
                                lemma_remove_distinct(pk.blocks@[b as int].params@, idxs@[k as int] as int);
                            } else {
                                assert(p.blocks@[lay[j] as int] == pk.blocks@[lay[j] as int]);
                            }
                        }
                        assert forall|w: int|
                            0 <= w < nv && self.const_of(w) is Some implies (#[trigger] p.values@[w]).kind
                            == ValueKind::Integer(self.const_of(w)->Some_0) && p.values@[w].ty == IrType::Int32 by {
                            assert(pk.values@[w].kind is Integer);
                            assert(p.values@[(w as usize) as int] == pk.values@[(w as usize) as int]);
                        }
                        assert forall|w: int|
                            0 <= w < nv && self.const_of(w) is None && !(p0.values@[w].kind is Jump || p0.values@[w].kind
                                is Branch || p0.values@[w].kind is BlockArgRef) implies #[trigger] p.values@[w] == p0.values@[w] by {
                            assert(pk.values@[w] == p0.values@[w]);
                            assert(p.values@[(w as usize) as int] == pk.values@[(w as usize) as int]);
                        }
                    }
                    k = k + 1;
                }
                let ghost pf = *p;
                proof {
                    let j = choose|j: int| 0 <= j < lay.len() && lay[j] == b;
                    assert(params_distinct(pf, lay[j]));
                }
                fix_bb_param_idx(p, b);
                proof {
                    assert forall|j: int| 0 <= j < lay.len() implies params_distinct(*p, #[trigger] lay[j]) by {
                        assert(params_distinct(pf, lay[j]));
                    }
                    assert forall|w: int|
                        0 <= w < nv && self.const_of(w) is Some implies (#[trigger] p.values@[w]).kind
                        == ValueKind::Integer(self.const_of(w)->Some_0) && p.values@[w].ty == IrType::Int32 by {
                        assert(pf.values@[w].kind is Integer);
                        let wu = w as usize;
                        if pf.blocks@[b as int].params@.contains(wu) {
                            let i = choose|i: int| 0 <= i < pf.blocks@[b as int].params@.len() && pf.blocks@[b as int].params@[i] == wu;
                            assert(p.values@[pf.blocks@[b as int].params@[i] as int].ty == pf.values@[wu as int].ty);
                        }
                    }
                    assert forall|w: int|
                        0 <= w < nv && self.const_of(w) is None && !(p0.values@[w].kind is Jump || p0.values@[w].kind
                            is Branch || p0.values@[w].kind is BlockArgRef) implies #[trigger] p.values@[w] == p0.values@[w] by {
                        assert(pf.values@[w] == p0.values@[w]);
                        let wu = w as usize;
                        if pf.blocks@[b as int].params@.contains(wu) {
                            let i = choose|i: int| 0 <= i < pf.blocks@[b as int].params@.len() && pf.blocks@[b as int].params@[i] == wu;
                            assert(p.values@[pf.blocks@[b as int].params@[i] as int].ty == pf.values@[wu as int].ty);
                        }
                    }
                    assert(func_wf(*p, f));
                }
            }
            b = b + 1;
        }
        true
    }

    /// Lists the edges and cells of function `f`, whose layout is not
    /// empty, and visits the entry block and then the pending edges until
    /// none is left. `false` where a visit stops.
    fn analyze(&mut self, p: &Program, f: usize) -> (r: bool)
        requires
            old(self).is_clear(),
            func_wf(*p, f),
            params_owned(*p, f),
            p.funcs@[f as int].layout@.len() > 0,
        ensures
            r ==> final(self).inv(*p, f),
            r ==> final(self).pending_empty(),
            r ==> final(self).folded_right(*p, f),
    {
        self.init(p, f);
        if !self.visit_entry(p, f) {
            return false;
        }
        let r = self.propagate(p, f);
        proof {
            if r {
                reveal(SCCP::settled_but);
                reveal(SCCP::folded_right);
            }
        }
        r
    }

    /// A binary instruction past the entry that ends an integer holds the
    /// fold of its operands, which end integers too.
    proof fn lemma_folds_to(&self, p0: Program, p1: Program, p2: Program, f: usize, v: usize)
        requires
            self.inv(p0, f),
            self.folded_right(p0, f),
            v < p0.values@.len(),
            later_binary(p0, f, v),
            p2.values@[v as int].kind is Integer,
            p1.values@.len() == p0.values@.len(),
            p2.values@.len() == p0.values@.len(),
            forall|w: int|
                0 <= w < p0.values@.len() && (#[trigger] self.const_of(w)) is Some ==> p1.values@[w].kind
                    == ValueKind::Integer(self.const_of(w)->Some_0),
            forall|w: int|
                0 <= w < p0.values@.len() && self.const_of(w) is None && !(p0.values@[w].kind is Jump
                    || p0.values@[w].kind is Branch || p0.values@[w].kind is BlockArgRef)
                    ==> #[trigger] p1.values@[w] == p0.values@[w],
            forall|w: usize|
                w < p1.values@.len() ==> #[trigger] p2.values@[w as int] == p1.values@[w as int] || branch_folded(
                    p1,
                    p1.values@[w as int].kind,
                    p2.values@[w as int],
                ),
        ensures
            folds_to(p0, p2, v),
    {
        reveal(SCCP::folded_right);
        let lay = p0.funcs@[f as int].layout@;
        let k = choose|k: int| 1 <= k < lay.len() && #[trigger] p0.blocks@[lay[k] as int].insts@.contains(v);
        assert(p2.values@[v as int] == p1.values@[v as int] || branch_folded(p1, p1.values@[v as int].kind, p2.values@[v as int]));
        if let ValueKind::Binary(op, l, r) = p0.values@[v as int].kind {
            assert(kind_ok(p0.values@[v as int].kind, p0.values@.len() as int, p0.blocks@.len() as int, p0.funcs@.len() as int));
            assert(self.lattice_cells@[v as int] is Some);
            if self.const_of(v as int) is None {
                assert(p1.values@[v as int] == p0.values@[v as int]);
            }
            let c = self.lattice_cells@[v as int]->Some_0;
            assert(c.ty == self.rhs(p0, v, c));
            assert(p2.values@[l as int] == p1.values@[l as int] || branch_folded(p1, p1.values@[l as int].kind, p2.values@[l as int]));
            assert(p2.values@[r as int] == p1.values@[r as int] || branch_folded(p1, p1.values@[r as int].kind, p2.values@[r as int]));
            assert(p2.values@[v as int] == p1.values@[v as int]);
            self.lemma_operand_folds(p0, p1, l);
            self.lemma_operand_folds(p0, p1, r);
        }
    }

    /// An operand known as a constant ends that integer.
    proof fn lemma_operand_folds(&self, p0: Program, p1: Program, l: usize)
        requires
            l < p0.values@.len(),
            self.lattice_cells@.len() == p0.values@.len(),
            self.mono(p0),
            forall|w: int|
                0 <= w < p0.values@.len() && (#[trigger] self.const_of(w)) is Some ==> p1.values@[w].kind
                    == ValueKind::Integer(self.const_of(w)->Some_0),
            forall|w: int|
                0 <= w < p0.values@.len() && self.const_of(w) is None && !(p0.values@[w].kind is Jump
                    || p0.values@[w].kind is Branch || p0.values@[w].kind is BlockArgRef)
                    ==> #[trigger] p1.values@[w] == p0.values@[w],
        ensures
            self.ty_of(p0, l) matches CellType::Constant(c) ==> p1.values@[l as int].kind == ValueKind::Integer(c),
    {
        if let CellType::Constant(c) = self.ty_of(p0, l) {
            if let ValueKind::Integer(i) = p0.values@[l as int].kind {
                if self.lattice_cells@[l as int] is Some {
                    assert(below(self.rhs(p0, l, self.lattice_cells@[l as int]->Some_0), self.lattice_cells@[l as int]->Some_0.ty));
                }
                assert(p1.values@[l as int] == p0.values@[l as int]);
            } else {
                assert(self.const_of(l as int) == Some(c));
            }
        }
    }

    /// Runs the propagation on function `f`, whose layout is not empty,
    /// and puts its results in place. `false` where a step stops (see each).
    #[verifier::spinoff_prover]
    #[verifier::rlimit(80)]
    fn work(&mut self, p: &mut Program, f: usize) -> (r: bool)
        requires
            old(self).is_clear(),
            func_wf(*old(p), f),
            params_owned(*old(p), f),
            layout_params_distinct(*old(p), f),
            old(p).funcs@[f as int].layout@.len() > 0,
        ensures
            func_wf(*final(p), f),
            final(p).funcs@ == old(p).funcs@,
            final(p).values@.len() == old(p).values@.len(),
            final(p).blocks@.len() == old(p).blocks@.len(),
            r ==> final(self).pending_empty(),
            r ==> no_const_branch(*final(p), f),
            r ==> forall|v: usize|
                v < old(p).values@.len() && (#[trigger] final(self).const_of(v as int)) is Some ==> final(p).values@[v as int].kind
                    == ValueKind::Integer(final(self).const_of(v as int)->Some_0),
            r ==> forall|v: usize|
                v < old(p).values@.len() && #[trigger] later_binary(*old(p), f, v) && final(p).values@[v as int].kind is Integer
                    ==> folds_to(*old(p), *final(p), v),
    {
        let ghost p0 = *p;
        if !self.analyze(p, f) {
            return false;
        }
        if !self.remove_all_consts(p, f) {
            return false;
        }
        let ghost p1 = *p;
        if !self.remove_trivial_branch(p, f) {
            return false;
        }
        proof {
            assert forall|v: usize|
                v < p1.values@.len() && (#[trigger] self.const_of(v as int)) is Some implies p.values@[v as int].kind
                == ValueKind::Integer(self.const_of(v as int)->Some_0) by {
                assert(p1.values@[v as int].kind is Integer);
                assert(p.values@[v as int] == p1.values@[v as int] || branch_folded(p1, p1.values@[v as int].kind, p.values@[v as int]));
            }
            assert forall|v: usize|
                v < p0.values@.len() && #[trigger] later_binary(p0, f, v) && p.values@[v as int].kind is Integer implies folds_to(
                p0,
                *p,
                v,
            ) by {
                self.lemma_folds_to(p0, p1, *p, f, v);
            }
        }
        true
    }

    /// Runs the propagation on function `f` where it has blocks, and
    /// forgets its edges and cells. Where it says `true`, no block of the
    /// function ends in a branch on an integer; `false` where a step stops:
    /// an empty block, a jump or branch without the argument that a
    /// parameter takes, or an operation that does not fold in `i32`.
    pub fn run_on(&mut self, p: &mut Program, f: usize) -> (r: bool)
        requires
            old(self).is_clear(),
            func_wf(*old(p), f),
            params_owned(*old(p), f),
            layout_params_distinct(*old(p), f),
        ensures
            func_wf(*final(p), f),
            final(p).funcs@ == old(p).funcs@,
            final(p).values@.len() == old(p).values@.len(),
            final(p).blocks@.len() == old(p).blocks@.len(),
            r ==> final(self).is_clear(),
            r ==> no_const_branch(*final(p), f),
            r ==> forall|v: usize|
                v < old(p).values@.len() && #[trigger] later_binary(*old(p), f, v) && final(p).values@[v as int].kind is Integer
                    ==> folds_to(*old(p), *final(p), v),
            old(p).funcs@[f as int].layout@.len() == 0 ==> r && *final(p) == *old(p),
    {
        if p.funcs[f].layout.len() > 0 {
            let r = self.work(p, f);
            self.clear();
            r
        } else {
            proof {
                assert forall|v: usize| v < p.values@.len() && #[trigger] ends_block(*p, f, v) implies !branch_on_int(*p, p.values@[v as int].kind) by {}
            }
            true
        }
    }
}

} // verus!
