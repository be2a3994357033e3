use vstd::prelude::*;

use crate::ir::{all_below, kind_ok, uses, uses_value, IrType, Program, ValueKind};

verus! {

/// Whether instruction `v` stands in the layout of function `f`.
pub open spec fn in_func(p: Program, f: usize, v: usize) -> bool {
    let lay = p.funcs@[f as int].layout@;
    exists|b: int| 0 <= b < lay.len() && #[trigger] p.blocks@[lay[b] as int].insts@.contains(v)
}

/// Whether the layout of function `f` lists no block twice and no
/// instruction twice, as a layout of the intermediate representation does.
pub open spec fn func_wf(p: Program, f: usize) -> bool {
    let lay = p.funcs@[f as int].layout@;
    &&& p.wf()
    &&& f < p.funcs@.len()
    &&& forall|i: int, j: int| 0 <= i < j < lay.len() ==> lay[i] != lay[j]
    &&& forall|b: int|
        0 <= b < lay.len() ==> {
            let insts = #[trigger] p.blocks@[lay[b] as int].insts@;
            forall|i: int, j: int| 0 <= i < j < insts.len() ==> insts[i] != insts[j]
        }
    &&& forall|b1: int, b2: int, v: usize|
        0 <= b1 < b2 < lay.len() && #[trigger] p.blocks@[lay[b1] as int].insts@.contains(v)
            ==> !#[trigger] p.blocks@[lay[b2] as int].insts@.contains(v)
}

/// Whether no number stands twice in `s`.
fn distinct_exec(s: &Vec<usize>) -> (r: bool)
    ensures
        r == forall|i: int, j: int| 0 <= i < j < s@.len() ==> s@[i] != s@[j],
{
    let mut j: usize = 0;
    while j < s.len()
        invariant
            j <= s@.len(),
            forall|a: int, b: int| 0 <= a < b < j ==> s@[a] != s@[b],
        decreases s@.len() - j,
    {
        let mut i: usize = 0;
        while i < j
            invariant
                i <= j < s@.len(),
                forall|a: int| 0 <= a < i ==> s@[a] != s@[j as int],
            decreases j - i,
        {
            if s[i] == s[j] {
                return false;
            }
            i = i + 1;
        }
        j = j + 1;
    }
    true
}

/// Whether no number of `a` stands in `b`.
fn disjoint_exec(a: &Vec<usize>, b: &Vec<usize>) -> (r: bool)
    ensures
        r == forall|v: usize| a@.contains(v) ==> !b@.contains(v),
{
    let mut i: usize = 0;
    while i < a.len()
        invariant
            i <= a@.len(),
            forall|k: int| 0 <= k < i ==> !b@.contains(#[trigger] a@[k]),
        decreases a@.len() - i,
    {
        let mut j: usize = 0;
        while j < b.len()
            invariant
                i < a@.len(),
                j <= b@.len(),
                forall|k: int| 0 <= k < j ==> b@[k] != a@[i as int],
            decreases b@.len() - j,
        {
            if b[j] == a[i] {
                proof {
                    assert(a@.contains(a@[i as int]));
                    assert(b@.contains(a@[i as int]));
                }
                return false;
            }
            j = j + 1;
        }
        i = i + 1;
    }
    proof {
        assert forall|v: usize| a@.contains(v) implies !b@.contains(v) by {
            let k = choose|k: int| 0 <= k < a@.len() && a@[k] == v;
            assert(!b@.contains(a@[k]));
        }
    }
    true
}

/// Whether function `f` of `p` is one the passes take: every number names
/// something that exists, and its layout lists no block twice and no
/// instruction twice.
pub fn check_func_wf(p: &Program, f: usize) -> (r: bool)
    ensures
        r == func_wf(*p, f),
{
    if !p.check_wf() || f >= p.funcs.len() {
        return false;
    }
    let lay = &p.funcs[f].layout;
    if !distinct_exec(lay) {
        return false;
    }
    let mut b1: usize = 0;
    while b1 < lay.len()
        invariant
            p.wf(),
            f < p.funcs@.len(),
            *lay == p.funcs@[f as int].layout,
            b1 <= lay@.len(),
            forall|b: int|
                0 <= b < b1 ==> {
                    let insts = #[trigger] p.blocks@[lay@[b] as int].insts@;
                    forall|i: int, j: int| 0 <= i < j < insts.len() ==> insts[i] != insts[j]
                },
            forall|x: int, y: int, v: usize|
                0 <= x < b1 && x < y < lay@.len() && #[trigger] p.blocks@[lay@[x] as int].insts@.contains(v)
                    ==> !#[trigger] p.blocks@[lay@[y] as int].insts@.contains(v),
        decreases lay@.len() - b1,
    {
        assert(lay@[b1 as int] < p.blocks@.len());
        let insts1 = &p.blocks[lay[b1]].insts;
        if !distinct_exec(insts1) {
            return false;
        }
        let mut b2: usize = b1 + 1;
        while b2 < lay.len()
            invariant
                p.wf(),
                f < p.funcs@.len(),
                *lay == p.funcs@[f as int].layout,
                b1 < b2 <= lay@.len(),
                *insts1 == p.blocks@[lay@[b1 as int] as int].insts,
                forall|y: int, v: usize|
                    b1 < y < b2 && #[trigger] p.blocks@[lay@[b1 as int] as int].insts@.contains(v)
                        ==> !#[trigger] p.blocks@[lay@[y] as int].insts@.contains(v),
            decreases lay@.len() - b2,
        {
            assert(lay@[b2 as int] < p.blocks@.len());
            if !disjoint_exec(insts1, &p.blocks[lay[b2]].insts) {
                return false;
            }
            b2 = b2 + 1;
        }
        b1 = b1 + 1;
    }
    true
}

/// What a value is.
pub fn value_kind(p: &Program, val: usize) -> (r: &ValueKind)
    requires
        val < p.values@.len(),
    ensures
        *r == p.values@[val as int].kind,
{
    &p.values[val].kind
}

pub fn ty_eq(a: &IrType, b: &IrType) -> (r: bool)
    ensures
        r == (*a == *b),
    decreases a,
{
    match (a, b) {
        (IrType::Int32, IrType::Int32) => true,
        (IrType::Unit, IrType::Unit) => true,
        (IrType::Array(x, n), IrType::Array(y, m)) => *n == *m && ty_eq(x, y),
        (IrType::Pointer(x), IrType::Pointer(y)) => ty_eq(x, y),
        _ => false,
    }
}

/// What the kinds of two values of one type decide of their equality by
/// themselves: `Some` of the answer, or `None` where their operands, compared
/// in order, decide.
pub open spec fn head_eq(l: ValueKind, r: ValueKind) -> Option<bool> {
    match (l, r) {
        (ValueKind::Integer(a), ValueKind::Integer(b)) => if a != b {
            Some(false)
        } else {
            None
        },
        (ValueKind::ZeroInit, ValueKind::ZeroInit) => Some(true),
        (ValueKind::Undef, ValueKind::Undef) => Some(true),
        (ValueKind::Aggregate(a), ValueKind::Aggregate(b)) => if a@.len() != b@.len() {
            Some(false)
        } else {
            None
        },
        (ValueKind::FuncArgRef(a), ValueKind::FuncArgRef(b)) => if a != b {
            Some(false)
        } else {
            None
        },
        (ValueKind::BlockArgRef(a), ValueKind::BlockArgRef(b)) => if a != b {
            Some(false)
        } else {
            None
        },
        (ValueKind::Alloc, ValueKind::Alloc) => Some(true),
        (ValueKind::GlobalAlloc(_), ValueKind::GlobalAlloc(_)) => None,
        (ValueKind::Load(_), ValueKind::Load(_)) => None,
        (ValueKind::Store(_, _), ValueKind::Store(_, _)) => None,
        (ValueKind::GetPtr(_, _), ValueKind::GetPtr(_, _)) => None,
        (ValueKind::GetElemPtr(_, _), ValueKind::GetElemPtr(_, _)) => None,
        (ValueKind::Binary(a, _, _), ValueKind::Binary(b, _, _)) => if a != b {
            Some(false)
        } else {
            None
        },
        (ValueKind::Branch(_, t1, ta1, f1, fa1), ValueKind::Branch(_, t2, ta2, f2, fa2)) => if t1 != t2 || f1
            != f2 || ta1@.len() != ta2@.len() || fa1@.len() != fa2@.len() {
            Some(false)
        } else {
            None
        },
        (ValueKind::Jump(t1, a1), ValueKind::Jump(t2, a2)) => if t1 != t2 || a1@.len() != a2@.len() {
            Some(false)
        } else {
            None
        },
        (ValueKind::Call(c1, a1), ValueKind::Call(c2, a2)) => if c1 != c2 || a1@.len() != a2@.len() {
            Some(false)
        } else {
            None
        },
        (ValueKind::Return(x), ValueKind::Return(y)) => if x.is_some() != y.is_some() {
            Some(false)
        } else {
            None
        },
        _ => Some(false),
    }
}

/// Structural equality of values `a` and `b`, following operands at most
/// `n` deep: the same type, the same kind and equal operands in order.
pub open spec fn eq_within(p: Program, a: usize, b: usize, n: nat) -> bool
    decreases n, 1int, 0int,
{
    if n == 0 || a >= p.values@.len() || b >= p.values@.len() {
        false
    } else {
        let da = p.values@[a as int];
        let db = p.values@[b as int];
        if da.ty != db.ty {
            false
        } else {
            match head_eq(da.kind, db.kind) {
                Some(r) => r,
                None => operands_match(p, da.kind, db.kind, (n - 1) as nat),
            }
        }
    }
}

/// Whether the operands of two kinds are equal in pairs, in order.
pub open spec fn operands_match(p: Program, ka: ValueKind, kb: ValueKind, m: nat) -> bool
    decreases m, 3int, 0int,
{
    match (ka, kb) {
        (ValueKind::Aggregate(a), ValueKind::Aggregate(b)) => list_eq_within(p, a@, b@, m, 0),
        (ValueKind::GlobalAlloc(x), ValueKind::GlobalAlloc(y)) => eq_within(p, x, y, m),
        (ValueKind::Load(x), ValueKind::Load(y)) => eq_within(p, x, y, m),
        (ValueKind::Store(v1, d1), ValueKind::Store(v2, d2)) => eq_within(p, v1, v2, m) && eq_within(p, d1, d2, m),
        (ValueKind::GetPtr(s1, i1), ValueKind::GetPtr(s2, i2)) => eq_within(p, s1, s2, m) && eq_within(p, i1, i2, m),
        (ValueKind::GetElemPtr(s1, i1), ValueKind::GetElemPtr(s2, i2)) => eq_within(p, s1, s2, m) && eq_within(
            p,
            i1,
            i2,
            m,
        ),
        (ValueKind::Binary(_, l1, r1), ValueKind::Binary(_, l2, r2)) => eq_within(p, l1, l2, m) && eq_within(
            p,
            r1,
            r2,
            m,
        ),
        (ValueKind::Branch(c1, _, ta1, _, fa1), ValueKind::Branch(c2, _, ta2, _, fa2)) => eq_within(p, c1, c2, m)
            && list_eq_within(p, ta1@, ta2@, m, 0) && list_eq_within(p, fa1@, fa2@, m, 0),
        (ValueKind::Jump(_, a1), ValueKind::Jump(_, a2)) => list_eq_within(p, a1@, a2@, m, 0),
        (ValueKind::Call(_, a1), ValueKind::Call(_, a2)) => list_eq_within(p, a1@, a2@, m, 0),
        (ValueKind::Return(Some(x)), ValueKind::Return(Some(y))) => eq_within(p, x, y, m),
        _ => true,
    }
}

/// Whether the values of two lists from position `i` on are equal in pairs,
/// as far as the shorter list goes.
pub open spec fn list_eq_within(p: Program, ls: Seq<usize>, rs: Seq<usize>, m: nat, i: int) -> bool
    decreases m, 2int, ls.len() - i,
{
    if i < 0 || i >= ls.len() || i >= rs.len() {
        true
    } else {
        eq_within(p, ls[i], rs[i], m) && list_eq_within(p, ls, rs, m, i + 1)
    }
}

/// Structural equality of two values of the program. Following operands
/// as deep as there are values is enough where no value depends on itself.
pub open spec fn value_eq(p: Program, a: usize, b: usize) -> bool {
    eq_within(p, a, b, p.values@.len() as nat)
}

fn head_eq_exec(l: &ValueKind, r: &ValueKind) -> (res: Option<bool>)
    ensures
        res == head_eq(*l, *r),
{
    match (l, r) {
        (ValueKind::Integer(a), ValueKind::Integer(b)) => if *a != *b {
            Some(false)
        } else {
            None
        },
        (ValueKind::ZeroInit, ValueKind::ZeroInit) => Some(true),
        (ValueKind::Undef, ValueKind::Undef) => Some(true),
        (ValueKind::Aggregate(a), ValueKind::Aggregate(b)) => if a.len() != b.len() {
            Some(false)
        } else {
            None
        },
        (ValueKind::FuncArgRef(a), ValueKind::FuncArgRef(b)) => if *a != *b {
            Some(false)
        } else {
            None
        },
        (ValueKind::BlockArgRef(a), ValueKind::BlockArgRef(b)) => if *a != *b {
            Some(false)
        } else {
            None
        },
        (ValueKind::Alloc, ValueKind::Alloc) => Some(true),
        (ValueKind::GlobalAlloc(_), ValueKind::GlobalAlloc(_)) => None,
        (ValueKind::Load(_), ValueKind::Load(_)) => None,
        (ValueKind::Store(_, _), ValueKind::Store(_, _)) => None,
        (ValueKind::GetPtr(_, _), ValueKind::GetPtr(_, _)) => None,
        (ValueKind::GetElemPtr(_, _), ValueKind::GetElemPtr(_, _)) => None,
        (ValueKind::Binary(a, _, _), ValueKind::Binary(b, _, _)) => if *a != *b {
            Some(false)
        } else {
            None
        },
        (ValueKind::Branch(_, t1, ta1, f1, fa1), ValueKind::Branch(_, t2, ta2, f2, fa2)) => if *t1 != *t2 || *f1
            != *f2 || ta1.len() != ta2.len() || fa1.len() != fa2.len() {
            Some(false)
        } else {
            None
        },
        (ValueKind::Jump(t1, a1), ValueKind::Jump(t2, a2)) => if *t1 != *t2 || a1.len() != a2.len() {
            Some(false)
        } else {
            None
        },
        (ValueKind::Call(c1, a1), ValueKind::Call(c2, a2)) => if *c1 != *c2 || a1.len() != a2.len() {
            Some(false)
        } else {
            None
        },
        (ValueKind::Return(x), ValueKind::Return(y)) => if x.is_some() != y.is_some() {
            Some(false)
        } else {
            None
        },
        _ => Some(false),
    }
}

fn eq_within_exec(p: &Program, a: usize, b: usize, n: usize) -> (r: bool)
    ensures
        r == eq_within(*p, a, b, n as nat),
    decreases n, 1int, 0int,
{
    if n == 0 || a >= p.values.len() || b >= p.values.len() {
        return false;
    }
    let da = &p.values[a];
    let db = &p.values[b];
    if !ty_eq(&da.ty, &db.ty) {
        return false;
    }
    match head_eq_exec(&da.kind, &db.kind) {
        Some(r) => r,
        None => operands_match_exec(p, &da.kind, &db.kind, n - 1),
    }
}

fn operands_match_exec(p: &Program, ka: &ValueKind, kb: &ValueKind, m: usize) -> (r: bool)
    ensures
        r == operands_match(*p, *ka, *kb, m as nat),
    decreases m, 3int, 0int,
{
    match (ka, kb) {
        (ValueKind::Aggregate(a), ValueKind::Aggregate(b)) => list_eq_exec(p, a, b, m, 0),
        (ValueKind::GlobalAlloc(x), ValueKind::GlobalAlloc(y)) => eq_within_exec(p, *x, *y, m),
        (ValueKind::Load(x), ValueKind::Load(y)) => eq_within_exec(p, *x, *y, m),
        (ValueKind::Store(v1, d1), ValueKind::Store(v2, d2)) => eq_within_exec(p, *v1, *v2, m) && eq_within_exec(
            p,
            *d1,
            *d2,
            m,
        ),
        (ValueKind::GetPtr(s1, i1), ValueKind::GetPtr(s2, i2)) => eq_within_exec(p, *s1, *s2, m)
            && eq_within_exec(p, *i1, *i2, m),
        (ValueKind::GetElemPtr(s1, i1), ValueKind::GetElemPtr(s2, i2)) => eq_within_exec(p, *s1, *s2, m)
            && eq_within_exec(p, *i1, *i2, m),
        (ValueKind::Binary(_, l1, r1), ValueKind::Binary(_, l2, r2)) => eq_within_exec(p, *l1, *l2, m)
            && eq_within_exec(p, *r1, *r2, m),
        (ValueKind::Branch(c1, _, ta1, _, fa1), ValueKind::Branch(c2, _, ta2, _, fa2)) => eq_within_exec(
            p,
            *c1,
            *c2,
            m,
        ) && list_eq_exec(p, ta1, ta2, m, 0) && list_eq_exec(p, fa1, fa2, m, 0),
        (ValueKind::Jump(_, a1), ValueKind::Jump(_, a2)) => list_eq_exec(p, a1, a2, m, 0),
        (ValueKind::Call(_, a1), ValueKind::Call(_, a2)) => list_eq_exec(p, a1, a2, m, 0),
        (ValueKind::Return(Some(x)), ValueKind::Return(Some(y))) => eq_within_exec(p, *x, *y, m),
        _ => true,
    }
}

fn list_eq_exec(p: &Program, ls: &Vec<usize>, rs: &Vec<usize>, m: usize, i: usize) -> (r: bool)
    ensures
        r == list_eq_within(*p, ls@, rs@, m as nat, i as int),
    decreases m, 2int, ls@.len() - i,
{
    if i >= ls.len() || i >= rs.len() {
        true
    } else {
        eq_within_exec(p, ls[i], rs[i], m) && list_eq_exec(p, ls, rs, m, i + 1)
    }
}

/// Whether two values of the program are structurally equal: of one type,
/// of one kind, and with equal operands in order, compared in turn (an
/// allocation, a zero initializer and an undefined value are equal to any
/// other of their kind and type).
pub fn value_eq_exec(p: &Program, a: usize, b: usize) -> (r: bool)
    ensures
        r == value_eq(*p, a, b),
{
    eq_within_exec(p, a, b, p.values.len())
}

} // verus!

verus! {

/// `s` with every `origin` replaced by `by`.
pub open spec fn subst(s: Seq<usize>, origin: usize, by: usize) -> Seq<usize> {
    s.map_values(|x: usize| if x == origin { by } else { x })
}

/// Whether the replacement of a value rewrites values of kind `k`.
pub open spec fn rewritable(k: ValueKind) -> bool {
    k is Return || k is Store || k is GetElemPtr || k is GetPtr || k is Binary || k is Call || k is Jump
        || k is Branch
}

/// Whether `new` is what the replacement of `origin` by `by` makes of the
/// kind `old` of a user of `origin`: a return gets `by` as its value, a
/// store as the value stored, a pointer computation as its index, a binary
/// operation in its left operand where that is `origin` and else in its
/// right one; every argument and a condition equal to `origin` become `by`.
/// Other kinds stay as they are.
pub open spec fn replaced(old: ValueKind, new: ValueKind, origin: usize, by: usize) -> bool {
    match old {
        ValueKind::Return(_) => new == ValueKind::Return(Some(by)),
        ValueKind::Store(_, d) => new == ValueKind::Store(by, d),
        ValueKind::GetElemPtr(s, _) => new == ValueKind::GetElemPtr(s, by),
        ValueKind::GetPtr(s, _) => new == ValueKind::GetPtr(s, by),
        ValueKind::Binary(op, l, r) => new == if l == origin {
            ValueKind::Binary(op, by, r)
        } else {
            ValueKind::Binary(op, l, by)
        },
        ValueKind::Call(c, a) => new matches ValueKind::Call(c2, a2) && c2 == c && a2@ == subst(a@, origin, by),
        ValueKind::Jump(t, a) => new matches ValueKind::Jump(t2, a2) && t2 == t && a2@ == subst(a@, origin, by),
        ValueKind::Branch(c, t, ta, e, fa) => new matches ValueKind::Branch(c2, t2, ta2, e2, fa2) && c2 == (if c
            == origin {
            by
        } else {
            c
        }) && t2 == t && e2 == e && ta2@ == subst(ta@, origin, by) && fa2@ == subst(fa@, origin, by),
        _ => new == old,
    }
}

fn subst_vec(a: &Vec<usize>, origin: usize, by: usize) -> (r: Vec<usize>)
    ensures
        r@ == subst(a@, origin, by),
{
    let mut r: Vec<usize> = Vec::new();
    let mut i: usize = 0;
    while i < a.len()
        invariant
            i <= a@.len(),
            r@ == subst(a@.subrange(0, i as int), origin, by),
        decreases a@.len() - i,
    {
        let x = a[i];
        r.push(if x == origin { by } else { x });
        proof {
            assert(a@.subrange(0, i + 1) =~= a@.subrange(0, i as int).push(x));
            assert(r@ =~= subst(a@.subrange(0, i + 1), origin, by));
        }
        i = i + 1;
    }
    assert(a@.subrange(0, a@.len() as int) =~= a@);
    r
}

/// The kind that the replacement of `origin` by `by` gives a user of kind
/// `k`, where it rewrites such kinds.
fn replaced_kind(k: &ValueKind, origin: usize, by: usize) -> (r: Option<ValueKind>)
    ensures
        match r {
            Some(nk) => rewritable(*k) && replaced(*k, nk, origin, by),
            None => !rewritable(*k),
        },
{
    match k {
        ValueKind::Return(_) => Some(ValueKind::Return(Some(by))),
        ValueKind::Store(_, d) => Some(ValueKind::Store(by, *d)),
        ValueKind::GetElemPtr(s, _) => Some(ValueKind::GetElemPtr(*s, by)),
        ValueKind::GetPtr(s, _) => Some(ValueKind::GetPtr(*s, by)),
        ValueKind::Binary(op, l, r) => if *l == origin {
            Some(ValueKind::Binary(*op, by, *r))
        } else {
            Some(ValueKind::Binary(*op, *l, by))
        },
        ValueKind::Call(c, a) => Some(ValueKind::Call(*c, subst_vec(a, origin, by))),
        ValueKind::Jump(t, a) => Some(ValueKind::Jump(*t, subst_vec(a, origin, by))),
        ValueKind::Branch(c, t, ta, e, fa) => {
            let c2 = if *c == origin {
                by
            } else {
                *c
            };
            Some(ValueKind::Branch(c2, *t, subst_vec(ta, origin, by), *e, subst_vec(fa, origin, by)))
        },
        _ => None,
    }
}

proof fn lemma_replaced_kind_ok(k: ValueKind, nk: ValueKind, origin: usize, by: usize, nv: int, nb: int, nf: int)
    requires
        kind_ok(k, nv, nb, nf),
        replaced(k, nk, origin, by),
        by < nv,
        origin < nv,
    ensures
        kind_ok(nk, nv, nb, nf),
{
    match k {
        ValueKind::Call(_, a) => {
            assert(all_below(subst(a@, origin, by), nv));
        },
        ValueKind::Jump(_, a) => {
            assert(all_below(subst(a@, origin, by), nv));
        },
        ValueKind::Branch(_, _, ta, _, fa) => {
            assert(all_below(subst(ta@, origin, by), nv));
            assert(all_below(subst(fa@, origin, by), nv));
        },
        _ => {},
    }
}

/// Whether instruction `v` stands in the first `bi` blocks of the layout of
/// function `f`, or among the first `ii` instructions of the next one.
pub open spec fn visited_before(p: Program, f: usize, bi: int, ii: int, v: usize) -> bool {
    let lay = p.funcs@[f as int].layout@;
    ||| exists|b: int| 0 <= b < bi && #[trigger] p.blocks@[lay[b] as int].insts@.contains(v)
    ||| (0 <= bi < lay.len() && p.blocks@[lay[bi] as int].insts@.subrange(0, ii).contains(v))
}

/// Rewrites every instruction of function `f` that uses `origin` so that it
/// uses `replace_by` in its place, as `replaced` says.
pub fn replace_variable(p: &mut Program, f: usize, origin: usize, replace_by: usize)
    requires
        func_wf(*old(p), f),
        origin < old(p).values@.len(),
        replace_by < old(p).values@.len(),
    ensures
        final(p).wf(),
        final(p).blocks@ == old(p).blocks@,
        final(p).funcs@ == old(p).funcs@,
        final(p).inst_layout@ == old(p).inst_layout@,
        final(p).values@.len() == old(p).values@.len(),
        forall|v: usize|
            v < old(p).values@.len() ==> {
                &&& (#[trigger] final(p).values@[v as int]).ty == old(p).values@[v as int].ty
                &&& final(p).values@[v as int].name == old(p).values@[v as int].name
                &&& if in_func(*old(p), f, v) && uses(old(p).values@[v as int].kind, origin) {
                    replaced(old(p).values@[v as int].kind, final(p).values@[v as int].kind, origin, replace_by)
                } else {
                    final(p).values@[v as int].kind == old(p).values@[v as int].kind
                }
            },
{
    let ghost p0 = *p;
    let nb = p.funcs[f].layout.len();
    let mut bi: usize = 0;
    while bi < nb
        invariant
            func_wf(p0, f),
            origin < p0.values@.len(),
            replace_by < p0.values@.len(),
            nb == p0.funcs@[f as int].layout@.len(),
            bi <= nb,
            p.wf(),
            p.blocks@ == p0.blocks@,
            p.funcs@ == p0.funcs@,
            p.inst_layout@ == p0.inst_layout@,
            p.values@.len() == p0.values@.len(),
            forall|v: usize|
                v < p0.values@.len() ==> {
                    &&& (#[trigger] p.values@[v as int]).ty == p0.values@[v as int].ty
                    &&& p.values@[v as int].name == p0.values@[v as int].name
                    &&& if visited_before(p0, f, bi as int, 0, v) && uses(p0.values@[v as int].kind, origin) {
                        replaced(p0.values@[v as int].kind, p.values@[v as int].kind, origin, replace_by)
                    } else {
                        p.values@[v as int].kind == p0.values@[v as int].kind
                    }
                },
        decreases nb - bi,
    {
        let blk = p.funcs[f].layout[bi];
        let n = p.blocks[blk].insts.len();
        proof {
            assert(all_below(p0.funcs@[f as int].layout@, p0.blocks@.len() as int));
            assert(all_below(p0.blocks@[blk as int].insts@, p0.values@.len() as int));
        }
        let mut ii: usize = 0;
        while ii < n
            invariant
                func_wf(p0, f),
                origin < p0.values@.len(),
                replace_by < p0.values@.len(),
                nb == p0.funcs@[f as int].layout@.len(),
                bi < nb,
                blk == p0.funcs@[f as int].layout@[bi as int],
                blk < p0.blocks@.len(),
                n == p0.blocks@[blk as int].insts@.len(),
                all_below(p0.blocks@[blk as int].insts@, p0.values@.len() as int),
                ii <= n,
                p.wf(),
                p.blocks@ == p0.blocks@,
                p.funcs@ == p0.funcs@,
                p.inst_layout@ == p0.inst_layout@,
                p.values@.len() == p0.values@.len(),
                forall|v: usize|
                    v < p0.values@.len() ==> {
                        &&& (#[trigger] p.values@[v as int]).ty == p0.values@[v as int].ty
                        &&& p.values@[v as int].name == p0.values@[v as int].name
                        &&& if visited_before(p0, f, bi as int, ii as int, v) && uses(
                            p0.values@[v as int].kind,
                            origin,
                        ) {
                            replaced(p0.values@[v as int].kind, p.values@[v as int].kind, origin, replace_by)
                        } else {
                            p.values@[v as int].kind == p0.values@[v as int].kind
                        }
                    },
            decreases n - ii,
        {
            let w = p.blocks[blk].insts[ii];
            let ghost insts = p0.blocks@[blk as int].insts@;
            proof {
                assert(w == insts[ii as int]);
                assert(w < p0.values@.len());
                // `w` has not been visited yet: the layout lists it once.
                if visited_before(p0, f, bi as int, ii as int, w) {
                    let lay = p0.funcs@[f as int].layout@;
                    if exists|b: int| 0 <= b < bi && #[trigger] p0.blocks@[lay[b] as int].insts@.contains(w) {
                        let b = choose|b: int| 0 <= b < bi && #[trigger] p0.blocks@[lay[b] as int].insts@.contains(w);
                        assert(p0.blocks@[lay[bi as int] as int].insts@.contains(w)) by {
                            assert(insts[ii as int] == w);
                        }
                        assert(false);
                    } else {
                        let j = choose|j: int| 0 <= j < ii && insts.subrange(0, ii as int)[j] == w;
                        assert(insts[j] == w);
                        let b0 = bi as int;
                        assert(p0.blocks@[lay[b0] as int].insts@ == insts);
                        assert(false);
                    }
                }
                assert(p.values@[w as int].kind == p0.values@[w as int].kind);
            }
            let hit = uses_value(&p.values[w].kind, origin);
            if hit {
                let nk = replaced_kind(&p.values[w].kind, origin, replace_by);
                match nk {
                    Some(k2) => {
                        proof {
                            assert(kind_ok(p0.values@[w as int].kind, p0.values@.len() as int, p0.blocks@.len() as int, p0.funcs@.len() as int));
                            lemma_replaced_kind_ok(p0.values@[w as int].kind, k2, origin, replace_by, p0.values@.len() as int, p0.blocks@.len() as int, p0.funcs@.len() as int);
                        }
                        let ghost pv = p.values@;
                        p.values[w].kind = k2;
                        proof {
                            assert forall|i: int| 0 <= i < pv.len() && i != w implies #[trigger] p.values@[i] == pv[i] by {}
                        }
                    },
                    None => {},
                }
            }
            proof {
                let nv = p.values@.len() as int;
                assert forall|i: int| 0 <= i < nv implies kind_ok(
                    #[trigger] p.values@[i].kind,
                    nv,
                    p.blocks@.len() as int,
                    p.funcs@.len() as int,
                ) by {
                    assert(p0.wf());
                    assert(kind_ok(p0.values@[i].kind, nv, p.blocks@.len() as int, p.funcs@.len() as int));
                    if p.values@[i].kind != p0.values@[i].kind {
                        let v = i as usize;
                        assert(p.values.len() == p.values@.len());
                        assert(v as int == i);
                        lemma_replaced_kind_ok(p0.values@[i].kind, p.values@[i].kind, origin, replace_by, nv, p.blocks@.len() as int, p.funcs@.len() as int);
                    }
                }
                assert forall|v: usize| v < p0.values@.len() implies #[trigger] visited_before(p0, f, bi as int, ii + 1, v)
                    == (visited_before(p0, f, bi as int, ii as int, v) || v == w) by {
                    let lay = p0.funcs@[f as int].layout@;
                    assert(lay[bi as int] == blk);
                    let s1 = insts.subrange(0, ii as int);
                    let s2 = insts.subrange(0, ii + 1);
                    assert(s2 =~= s1.push(w));
                    if s1.contains(v) {
                        let j = choose|j: int| 0 <= j < s1.len() && s1[j] == v;
                        assert(s2[j] == v);
                    }
                    if v == w {
                        assert(s2[ii as int] == v);
                    }
                    if s2.contains(v) {
                        let j = choose|j: int| 0 <= j < s2.len() && s2[j] == v;
                        if j < ii {
                            assert(s1[j] == v);
                        }
                    }
                }
            }
            ii = ii + 1;
        }
        proof {
            assert forall|v: usize| v < p0.values@.len() implies #[trigger] visited_before(p0, f, bi + 1, 0, v)
                == visited_before(p0, f, bi as int, n as int, v) by {
                let lay = p0.funcs@[f as int].layout@;
                assert(p0.blocks@[lay[bi as int] as int].insts@.subrange(0, n as int) =~= p0.blocks@[lay[bi as int] as int].insts@);
                if visited_before(p0, f, bi as int, n as int, v) {
                    if !(exists|b: int| 0 <= b < bi && #[trigger] p0.blocks@[lay[b] as int].insts@.contains(v)) {
                        assert(p0.blocks@[lay[bi as int] as int].insts@.contains(v));
                    }
                }
                if visited_before(p0, f, bi + 1, 0, v) {
                    let b = choose|b: int| 0 <= b < bi + 1 && #[trigger] p0.blocks@[lay[b] as int].insts@.contains(v);
                    if b == bi {
                        assert(p0.blocks@[lay[bi as int] as int].insts@.subrange(0, n as int).contains(v));
                    }
                }
            }
        }
        bi = bi + 1;
    }
    proof {
        assert forall|v: usize| v < p0.values@.len() implies #[trigger] visited_before(p0, f, nb as int, 0, v)
            == in_func(p0, f, v) by {}
    }
}

/// A copy of `a`.
pub fn copy_vec(a: &Vec<usize>) -> (r: Vec<usize>)
    ensures
        r@ == a@,
{
    let mut r: Vec<usize> = Vec::new();
    let mut i: usize = 0;
    while i < a.len()
        invariant
            i <= a@.len(),
            r@ == a@.subrange(0, i as int),
        decreases a@.len() - i,
    {
        r.push(a[i]);
        proof {
            assert(r@ =~= a@.subrange(0, i + 1));
        }
        i = i + 1;
    }
    assert(a@.subrange(0, a@.len() as int) =~= a@);
    r
}

/// Whether the values `ta` and `fa` are equal in pairs, as far as the shorter goes.
pub open spec fn args_eq(p: Program, ta: Seq<usize>, fa: Seq<usize>) -> bool {
    forall|i: int| 0 <= i < ta.len() && i < fa.len() ==> value_eq(p, #[trigger] ta[i], fa[i])
}

/// Whether `new` is what the replacement of block `bb` by `nbb` makes of
/// the kind `old` of an instruction that jumps or branches to `bb`: the
/// target becomes `nbb`, and a branch whose two targets are then one block
/// and whose arguments are equal in pairs becomes a jump with the arguments
/// of its first target.
pub open spec fn bb_replaced(p: Program, old: ValueKind, new: ValueKind, bb: usize, nbb: usize) -> bool {
    match old {
        ValueKind::Jump(_, a) => new matches ValueKind::Jump(t2, a2) && t2 == nbb && a2@ == a@,
        ValueKind::Branch(c, t, ta, e, fa) => {
            let t2 = if t == bb {
                nbb
            } else {
                t
            };
            let e2 = if e == bb {
                nbb
            } else {
                e
            };
            if t2 == e2 && args_eq(p, ta@, fa@) {
                new matches ValueKind::Jump(x, a) && x == nbb && a@ == ta@
            } else {
                new matches ValueKind::Branch(c2, t3, ta2, e3, fa2) && c2 == c && t3 == t2 && e3 == e2 && ta2@ == ta@
                    && fa2@ == fa@
            }
        },
        _ => new == old,
    }
}

fn args_eq_exec(p: &Program, ta: &Vec<usize>, fa: &Vec<usize>) -> (r: bool)
    ensures
        r == args_eq(*p, ta@, fa@),
{
    let mut i: usize = 0;
    while i < ta.len() && i < fa.len()
        invariant
            i <= ta@.len(),
            forall|j: int| 0 <= j < i && j < fa@.len() ==> value_eq(*p, #[trigger] ta@[j], fa@[j]),
        decreases ta@.len() - i,
    {
        if !value_eq_exec(p, ta[i], fa[i]) {
            return false;
        }
        i = i + 1;
    }
    true
}

fn bb_replaced_kind(p: &Program, k: &ValueKind, bb: usize, nbb: usize) -> (r: ValueKind)
    requires
        k is Jump || k is Branch,
    ensures
        bb_replaced(*p, *k, r, bb, nbb),
{
    match k {
        ValueKind::Jump(_, a) => ValueKind::Jump(nbb, copy_vec(a)),
        ValueKind::Branch(c, t, ta, e, fa) => {
            let t2 = if *t == bb {
                nbb
            } else {
                *t
            };
            let e2 = if *e == bb {
                nbb
            } else {
                *e
            };
            if t2 == e2 && args_eq_exec(p, ta, fa) {
                ValueKind::Jump(nbb, copy_vec(ta))
            } else {
                ValueKind::Branch(*c, t2, copy_vec(ta), e2, copy_vec(fa))
            }
        },
        _ => ValueKind::Return(None),
    }
}

proof fn lemma_bb_replaced_ok(p: Program, k: ValueKind, nk: ValueKind, bb: usize, nbb: usize, nv: int, nb: int, nf: int)
    requires
        kind_ok(k, nv, nb, nf),
        bb_replaced(p, k, nk, bb, nbb),
        nbb < nb,
    ensures
        kind_ok(nk, nv, nb, nf),
{
}

/// Makes every instruction of function `f` that jumps or branches to block
/// `bb` go to block `nbb` instead, as `bb_replaced` says.
pub fn replace_bb_with(p: &mut Program, f: usize, bb: usize, nbb: usize)
    requires
        func_wf(*old(p), f),
        nbb < old(p).blocks@.len(),
    ensures
        final(p).wf(),
        final(p).blocks@ == old(p).blocks@,
        final(p).funcs@ == old(p).funcs@,
        final(p).inst_layout@ == old(p).inst_layout@,
        final(p).values@.len() == old(p).values@.len(),
        forall|v: usize|
            v < old(p).values@.len() ==> {
                &&& (#[trigger] final(p).values@[v as int]).ty == old(p).values@[v as int].ty
                &&& final(p).values@[v as int].name == old(p).values@[v as int].name
                &&& if in_func(*old(p), f, v) && crate::ir::targets(old(p).values@[v as int].kind, bb) {
                    bb_replaced(*old(p), old(p).values@[v as int].kind, final(p).values@[v as int].kind, bb, nbb)
                } else {
                    final(p).values@[v as int].kind == old(p).values@[v as int].kind
                }
            },
{
    let ghost p0 = *p;
    // first the new kinds, read off the program as it is
    let mut todo: Vec<(usize, ValueKind)> = Vec::new();
    let nb = p.funcs[f].layout.len();
    let mut bi: usize = 0;
    while bi < nb
        invariant
            *p == p0,
            func_wf(p0, f),
            nbb < p0.blocks@.len(),
            nb == p0.funcs@[f as int].layout@.len(),
            bi <= nb,
            forall|j: int|
                0 <= j < todo@.len() ==> {
                    let w = (#[trigger] todo@[j]).0;
                    &&& w < p0.values@.len()
                    &&& visited_before(p0, f, bi as int, 0, w)
                    &&& crate::ir::targets(p0.values@[w as int].kind, bb)
                    &&& bb_replaced(p0, p0.values@[w as int].kind, todo@[j].1, bb, nbb)
                },
            forall|j1: int, j2: int| 0 <= j1 < j2 < todo@.len() ==> todo@[j1].0 != todo@[j2].0,
            forall|v: usize|
                v < p0.values@.len() && #[trigger] visited_before(p0, f, bi as int, 0, v) && crate::ir::targets(
                    p0.values@[v as int].kind,
                    bb,
                ) ==> exists|j: int| 0 <= j < todo@.len() && todo@[j].0 == v,
        decreases nb - bi,
    {
        let blk = p.funcs[f].layout[bi];
        proof {
            assert(all_below(p0.funcs@[f as int].layout@, p0.blocks@.len() as int));
            assert(all_below(p0.blocks@[blk as int].insts@, p0.values@.len() as int));
        }
        let n = p.blocks[blk].insts.len();
        let mut ii: usize = 0;
        while ii < n
            invariant
                *p == p0,
                func_wf(p0, f),
                nbb < p0.blocks@.len(),
                nb == p0.funcs@[f as int].layout@.len(),
                bi < nb,
                blk == p0.funcs@[f as int].layout@[bi as int],
                blk < p0.blocks@.len(),
                n == p0.blocks@[blk as int].insts@.len(),
                all_below(p0.blocks@[blk as int].insts@, p0.values@.len() as int),
                ii <= n,
                forall|j: int|
                    0 <= j < todo@.len() ==> {
                        let w = (#[trigger] todo@[j]).0;
                        &&& w < p0.values@.len()
                        &&& visited_before(p0, f, bi as int, ii as int, w)
                        &&& crate::ir::targets(p0.values@[w as int].kind, bb)
                        &&& bb_replaced(p0, p0.values@[w as int].kind, todo@[j].1, bb, nbb)
                    },
                forall|j1: int, j2: int| 0 <= j1 < j2 < todo@.len() ==> todo@[j1].0 != todo@[j2].0,
                forall|v: usize|
                    v < p0.values@.len() && #[trigger] visited_before(p0, f, bi as int, ii as int, v)
                        && crate::ir::targets(p0.values@[v as int].kind, bb) ==> exists|j: int|
                        0 <= j < todo@.len() && todo@[j].0 == v,
            decreases n - ii,
        {
            let w = p.blocks[blk].insts[ii];
            let ghost insts = p0.blocks@[blk as int].insts@;
            let ghost lay = p0.funcs@[f as int].layout@;
            proof {
                assert(w == insts[ii as int]);
                assert(lay[bi as int] == blk);
                // `w` has not been visited yet: the layout lists it once.
                if visited_before(p0, f, bi as int, ii as int, w) {
                    if exists|b: int| 0 <= b < bi && #[trigger] p0.blocks@[lay[b] as int].insts@.contains(w) {
                        let b = choose|b: int| 0 <= b < bi && #[trigger] p0.blocks@[lay[b] as int].insts@.contains(w);
                        assert(p0.blocks@[lay[bi as int] as int].insts@.contains(w)) by {
                            assert(insts[ii as int] == w);
                        }
                        assert(false);
                    } else {
                        let j = choose|j: int| 0 <= j < ii && insts.subrange(0, ii as int)[j] == w;
                        assert(insts[j] == w);
                        assert(false);
                    }
                }
                assert forall|v: usize| v < p0.values@.len() implies #[trigger] visited_before(p0, f, bi as int, ii + 1, v)
                    == (visited_before(p0, f, bi as int, ii as int, v) || v == w) by {
                    let s1 = insts.subrange(0, ii as int);
                    let s2 = insts.subrange(0, ii + 1);
                    assert(s2 =~= s1.push(w));
                    if s1.contains(v) {
                        let j = choose|j: int| 0 <= j < s1.len() && s1[j] == v;
                        assert(s2[j] == v);
                    }
                    if v == w {
                        assert(s2[ii as int] == v);
                    }
                    if s2.contains(v) {
                        let j = choose|j: int| 0 <= j < s2.len() && s2[j] == v;
                        if j < ii {
                            assert(s1[j] == v);
                        }
                    }
                }
            }
            if crate::ir::targets_block(&p.values[w].kind, bb) {
                let nk = bb_replaced_kind(p, &p.values[w].kind, bb, nbb);
                let ghost t0 = todo@;
                todo.push((w, nk));
                proof {
                    assert forall|v: usize|
                        v < p0.values@.len() && #[trigger] visited_before(p0, f, bi as int, ii + 1, v)
                            && crate::ir::targets(p0.values@[v as int].kind, bb) implies exists|j: int|
                            0 <= j < todo@.len() && todo@[j].0 == v by {
                        if v == w {
                            assert(todo@[t0.len() as int].0 == v);
                        } else {
                            let j = choose|j: int| 0 <= j < t0.len() && t0[j].0 == v;
                            assert(todo@[j] == t0[j]);
                        }
                    }
                    assert forall|j: int| 0 <= j < todo@.len() implies {
                        let w2 = (#[trigger] todo@[j]).0;
                        &&& w2 < p0.values@.len()
                        &&& visited_before(p0, f, bi as int, ii + 1, w2)
                        &&& crate::ir::targets(p0.values@[w2 as int].kind, bb)
                        &&& bb_replaced(p0, p0.values@[w2 as int].kind, todo@[j].1, bb, nbb)
                    } by {
                        if j < t0.len() {
                            assert(todo@[j] == t0[j]);
                        }
                    }
                    assert forall|j1: int, j2: int| 0 <= j1 < j2 < todo@.len() implies todo@[j1].0 != todo@[j2].0 by {
                        if j2 == t0.len() {
                            assert(todo@[j1] == t0[j1]);
                        } else {
                            assert(todo@[j1] == t0[j1]);
                            assert(todo@[j2] == t0[j2]);
                        }
                    }
                }
            } else {
                proof {
                    assert forall|v: usize|
                        v < p0.values@.len() && #[trigger] visited_before(p0, f, bi as int, ii + 1, v)
                            && crate::ir::targets(p0.values@[v as int].kind, bb) implies exists|j: int|
                            0 <= j < todo@.len() && todo@[j].0 == v by {
                        assert(v != w);
                    }
                }
            }
            ii = ii + 1;
        }
        proof {
            assert forall|v: usize| v < p0.values@.len() implies #[trigger] visited_before(p0, f, bi + 1, 0, v)
                == visited_before(p0, f, bi as int, n as int, v) by {
                let lay = p0.funcs@[f as int].layout@;
                assert(p0.blocks@[lay[bi as int] as int].insts@.subrange(0, n as int) =~= p0.blocks@[lay[bi as int] as int].insts@);
                if visited_before(p0, f, bi as int, n as int, v) {
                    if !(exists|b: int| 0 <= b < bi && #[trigger] p0.blocks@[lay[b] as int].insts@.contains(v)) {
                        assert(p0.blocks@[lay[bi as int] as int].insts@.contains(v));
                    }
                }
                if visited_before(p0, f, bi + 1, 0, v) {
                    let b = choose|b: int| 0 <= b < bi + 1 && #[trigger] p0.blocks@[lay[b] as int].insts@.contains(v);
                    if b == bi {
                        assert(p0.blocks@[lay[bi as int] as int].insts@.subrange(0, n as int).contains(v));
                    }
                }
            }
        }
        bi = bi + 1;
    }
    proof {
        assert forall|v: usize| v < p0.values@.len() implies #[trigger] visited_before(p0, f, nb as int, 0, v)
            == in_func(p0, f, v) by {}
        assert forall|v: usize|
            v < p0.values@.len() && #[trigger] in_func(p0, f, v) && crate::ir::targets(p0.values@[v as int].kind, bb)
                implies exists|j2: int| 0 <= j2 < todo@.len() && todo@[j2].0 == v by {
            assert(visited_before(p0, f, nb as int, 0, v));
        }
        assert forall|j2: int| 0 <= j2 < todo@.len() implies in_func(p0, f, (#[trigger] todo@[j2]).0) by {
            assert(visited_before(p0, f, nb as int, 0, todo@[j2].0));
        }
    }
    // then the writes, from the last
    let ghost t = todo@;
    while todo.len() > 0
        invariant
            func_wf(p0, f),
            nbb < p0.blocks@.len(),
            todo@ == t.subrange(0, todo@.len() as int),
            todo@.len() <= t.len(),
            forall|j2: int|
                0 <= j2 < t.len() ==> {
                    let w = (#[trigger] t[j2]).0;
                    &&& w < p0.values@.len()
                    &&& in_func(p0, f, w)
                    &&& crate::ir::targets(p0.values@[w as int].kind, bb)
                    &&& bb_replaced(p0, p0.values@[w as int].kind, t[j2].1, bb, nbb)
                },
            forall|j1: int, j2: int| 0 <= j1 < j2 < t.len() ==> t[j1].0 != t[j2].0,
            forall|v: usize|
                v < p0.values@.len() && #[trigger] in_func(p0, f, v) && crate::ir::targets(p0.values@[v as int].kind, bb)
                    ==> exists|j2: int| 0 <= j2 < t.len() && t[j2].0 == v,
            p.wf(),
            p.blocks@ == p0.blocks@,
            p.funcs@ == p0.funcs@,
            p.inst_layout@ == p0.inst_layout@,
            p.values@.len() == p0.values@.len(),
            forall|v: usize|
                v < p0.values@.len() ==> {
                    &&& (#[trigger] p.values@[v as int]).ty == p0.values@[v as int].ty
                    &&& p.values@[v as int].name == p0.values@[v as int].name
                    &&& if exists|j2: int| todo@.len() <= j2 < t.len() && t[j2].0 == v {
                        bb_replaced(p0, p0.values@[v as int].kind, p.values@[v as int].kind, bb, nbb)
                    } else {
                        p.values@[v as int].kind == p0.values@[v as int].kind
                    }
                },
        decreases todo@.len(),
    {
        let (w, nk) = todo.pop().unwrap();
        let ghost j = todo@.len() as int;
        proof {
            assert(t[j] == (w, nk));
            assert(p0.wf());
            assert(kind_ok(p0.values@[w as int].kind, p0.values@.len() as int, p0.blocks@.len() as int, p0.funcs@.len() as int));
            lemma_bb_replaced_ok(p0, p0.values@[w as int].kind, nk, bb, nbb, p0.values@.len() as int, p0.blocks@.len() as int, p0.funcs@.len() as int);
        }
        let ghost pv = p.values@;
        p.values[w].kind = nk;
        proof {
            assert(todo@ =~= t.subrange(0, j));
            assert forall|i: int| 0 <= i < pv.len() && i != w implies #[trigger] p.values@[i] == pv[i] by {}
            let nv = p.values@.len() as int;
            assert forall|i: int| 0 <= i < nv implies kind_ok(
                #[trigger] p.values@[i].kind,
                nv,
                p.blocks@.len() as int,
                p.funcs@.len() as int,
            ) by {
                assert(p.values.len() == p.values@.len());
                let v = i as usize;
                assert(v as int == i);
                assert(kind_ok(p0.values@[i].kind, nv, p.blocks@.len() as int, p.funcs@.len() as int));
                if p.values@[i].kind != p0.values@[i].kind {
                    if v != w {
                        assert(p.values@[v as int] == pv[v as int]);
                        let j2 = choose|j2: int| j + 1 <= j2 < t.len() && t[j2].0 == v;
                    }
                    lemma_bb_replaced_ok(p0, p0.values@[i].kind, p.values@[i].kind, bb, nbb, nv, p.blocks@.len() as int, p.funcs@.len() as int);
                }
            }
            assert forall|v: usize| v < p0.values@.len() implies {
                &&& (#[trigger] p.values@[v as int]).ty == p0.values@[v as int].ty
                &&& p.values@[v as int].name == p0.values@[v as int].name
                &&& if exists|j2: int| j <= j2 < t.len() && t[j2].0 == v {
                    bb_replaced(p0, p0.values@[v as int].kind, p.values@[v as int].kind, bb, nbb)
                } else {
                    p.values@[v as int].kind == p0.values@[v as int].kind
                }
            } by {
                if v != w {
                    assert(p.values@[v as int] == pv[v as int]);
                    if exists|j2: int| j <= j2 < t.len() && t[j2].0 == v {
                        let j2 = choose|j2: int| j <= j2 < t.len() && t[j2].0 == v;
                        assert(j2 != j);
                    }
                    if exists|j2: int| j + 1 <= j2 < t.len() && t[j2].0 == v {
                        let j2 = choose|j2: int| j + 1 <= j2 < t.len() && t[j2].0 == v;
                        assert(j <= j2);
                    }
                } else {
                    assert(t[j].0 == v);
                }
            }
        }
    }
    proof {
        assert forall|v: usize| v < p0.values@.len() implies (exists|j2: int| 0 <= j2 < t.len() && t[j2].0 == v) == (in_func(
            p0,
            f,
            v,
        ) && crate::ir::targets(p0.values@[v as int].kind, bb)) by {
            if exists|j2: int| 0 <= j2 < t.len() && t[j2].0 == v {
                let j2 = choose|j2: int| 0 <= j2 < t.len() && t[j2].0 == v;
                assert(in_func(p0, f, t[j2].0));
            }
        }
    }
}

/// The instruction at position `ii` of the block at position `bi` of the
/// layout has not been visited before it, and visiting it adds it alone.
pub proof fn lemma_visited_step(p: Program, f: usize, bi: int, ii: int)
    requires
        func_wf(p, f),
        0 <= bi < p.funcs@[f as int].layout@.len(),
        0 <= ii < p.blocks@[p.funcs@[f as int].layout@[bi] as int].insts@.len(),
    ensures
        ({
            let w = p.blocks@[p.funcs@[f as int].layout@[bi] as int].insts@[ii];
            &&& !visited_before(p, f, bi, ii, w)
            &&& forall|v: usize| #[trigger] visited_before(p, f, bi, ii + 1, v) == (visited_before(p, f, bi, ii, v) || v == w)
        }),
{
    let lay = p.funcs@[f as int].layout@;
    let insts = p.blocks@[lay[bi] as int].insts@;
    let w = insts[ii];
    if visited_before(p, f, bi, ii, w) {
        if exists|b: int| 0 <= b < bi && #[trigger] p.blocks@[lay[b] as int].insts@.contains(w) {
            let b = choose|b: int| 0 <= b < bi && #[trigger] p.blocks@[lay[b] as int].insts@.contains(w);
            assert(p.blocks@[lay[bi] as int].insts@.contains(w)) by {
                assert(insts[ii] == w);
            }
            assert(false);
        } else {
            let j = choose|j: int| 0 <= j < ii && insts.subrange(0, ii)[j] == w;
            assert(insts[j] == w);
            assert(false);
        }
    }
    assert forall|v: usize| #[trigger] visited_before(p, f, bi, ii + 1, v) == (visited_before(p, f, bi, ii, v) || v == w) by {
        let s1 = insts.subrange(0, ii);
        let s2 = insts.subrange(0, ii + 1);
        assert(s2 =~= s1.push(w));
        if s1.contains(v) {
            let j = choose|j: int| 0 <= j < s1.len() && s1[j] == v;
            assert(s2[j] == v);
        }
        if v == w {
            assert(s2[ii] == v);
        }
        if s2.contains(v) {
            let j = choose|j: int| 0 <= j < s2.len() && s2[j] == v;
            if j < ii {
                assert(s1[j] == v);
            }
        }
    }
}

/// Having visited a whole block is having visited up to the next one.
pub proof fn lemma_visited_block(p: Program, f: usize, bi: int)
    requires
        0 <= bi < p.funcs@[f as int].layout@.len(),
    ensures
        forall|v: usize| #[trigger] visited_before(p, f, bi + 1, 0, v) == visited_before(
            p,
            f,
            bi,
            p.blocks@[p.funcs@[f as int].layout@[bi] as int].insts@.len() as int,
            v,
        ),
{
    let lay = p.funcs@[f as int].layout@;
    let n = p.blocks@[lay[bi] as int].insts@.len() as int;
    assert forall|v: usize| #[trigger] visited_before(p, f, bi + 1, 0, v) == visited_before(p, f, bi, n, v) by {
        assert(p.blocks@[lay[bi] as int].insts@.subrange(0, n) =~= p.blocks@[lay[bi] as int].insts@);
        if visited_before(p, f, bi, n, v) {
            if !(exists|b: int| 0 <= b < bi && #[trigger] p.blocks@[lay[b] as int].insts@.contains(v)) {
                assert(p.blocks@[lay[bi] as int].insts@.contains(v));
            }
        }
        if visited_before(p, f, bi + 1, 0, v) {
            let b = choose|b: int| 0 <= b < bi + 1 && #[trigger] p.blocks@[lay[b] as int].insts@.contains(v);
            if b == bi {
                assert(p.blocks@[lay[bi] as int].insts@.subrange(0, n).contains(v));
            }
        }
    }
}

/// Having visited every block is having visited the function.
pub proof fn lemma_visited_all(p: Program, f: usize)
    ensures
        forall|v: usize| #[trigger] visited_before(p, f, p.funcs@[f as int].layout@.len() as int, 0, v) == in_func(p, f, v),
{
}

/// Whether some instruction of function `f` uses `v`.
pub fn used_in_func(p: &Program, f: usize, v: usize) -> (r: bool)
    requires
        func_wf(*p, f),
    ensures
        r == exists|w: usize| #[trigger] in_func(*p, f, w) && uses(p.values@[w as int].kind, v),
{
    let nb = p.funcs[f].layout.len();
    let mut bi: usize = 0;
    while bi < nb
        invariant
            func_wf(*p, f),
            nb == p.funcs@[f as int].layout@.len(),
            bi <= nb,
            forall|w: usize| #[trigger] visited_before(*p, f, bi as int, 0, w) ==> !uses(p.values@[w as int].kind, v),
        decreases nb - bi,
    {
        let blk = p.funcs[f].layout[bi];
        proof {
            assert(all_below(p.funcs@[f as int].layout@, p.blocks@.len() as int));
            assert(all_below(p.blocks@[blk as int].insts@, p.values@.len() as int));
        }
        let n = p.blocks[blk].insts.len();
        let mut ii: usize = 0;
        while ii < n
            invariant
                func_wf(*p, f),
                nb == p.funcs@[f as int].layout@.len(),
                bi < nb,
                blk == p.funcs@[f as int].layout@[bi as int],
                blk < p.blocks@.len(),
                n == p.blocks@[blk as int].insts@.len(),
                all_below(p.blocks@[blk as int].insts@, p.values@.len() as int),
                ii <= n,
                forall|w: usize| #[trigger] visited_before(*p, f, bi as int, ii as int, w) ==> !uses(p.values@[w as int].kind, v),
            decreases n - ii,
        {
            let w = p.blocks[blk].insts[ii];
            proof {
                lemma_visited_step(*p, f, bi as int, ii as int);
            }
            if uses_value(&p.values[w].kind, v) {
                proof {
                    assert(p.blocks@[p.funcs@[f as int].layout@[bi as int] as int].insts@.contains(w));
                    assert(in_func(*p, f, w));
                }
                return true;
            }
            ii = ii + 1;
        }
        proof {
            lemma_visited_block(*p, f, bi as int);
        }
        bi = bi + 1;
    }
    proof {
        lemma_visited_all(*p, f);
        assert forall|w: usize| #[trigger] in_func(*p, f, w) implies !uses(p.values@[w as int].kind, v) by {
            assert(visited_before(*p, f, nb as int, 0, w));
        }
    }
    false
}

/// Whether some instruction of function `f` jumps or branches to block `bb`.
pub fn targeted_in_func(p: &Program, f: usize, bb: usize) -> (r: bool)
    requires
        func_wf(*p, f),
    ensures
        r == exists|w: usize| #[trigger] in_func(*p, f, w) && crate::ir::targets(p.values@[w as int].kind, bb),
{
    let nb = p.funcs[f].layout.len();
    let mut bi: usize = 0;
    while bi < nb
        invariant
            func_wf(*p, f),
            nb == p.funcs@[f as int].layout@.len(),
            bi <= nb,
            forall|w: usize| #[trigger] visited_before(*p, f, bi as int, 0, w) ==> !crate::ir::targets(p.values@[w as int].kind, bb),
        decreases nb - bi,
    {
        let blk = p.funcs[f].layout[bi];
        proof {
            assert(all_below(p.funcs@[f as int].layout@, p.blocks@.len() as int));
            assert(all_below(p.blocks@[blk as int].insts@, p.values@.len() as int));
        }
        let n = p.blocks[blk].insts.len();
        let mut ii: usize = 0;
        while ii < n
            invariant
                func_wf(*p, f),
                nb == p.funcs@[f as int].layout@.len(),
                bi < nb,
                blk == p.funcs@[f as int].layout@[bi as int],
                blk < p.blocks@.len(),
                n == p.blocks@[blk as int].insts@.len(),
                all_below(p.blocks@[blk as int].insts@, p.values@.len() as int),
                ii <= n,
                forall|w: usize| #[trigger] visited_before(*p, f, bi as int, ii as int, w) ==> !crate::ir::targets(p.values@[w as int].kind, bb),
            decreases n - ii,
        {
            let w = p.blocks[blk].insts[ii];
            proof {
                lemma_visited_step(*p, f, bi as int, ii as int);
            }
            if crate::ir::targets_block(&p.values[w].kind, bb) {
                proof {
                    assert(p.blocks@[p.funcs@[f as int].layout@[bi as int] as int].insts@.contains(w));
                    assert(in_func(*p, f, w));
                }
                return true;
            }
            ii = ii + 1;
        }
        proof {
            lemma_visited_block(*p, f, bi as int);
        }
        bi = bi + 1;
    }
    proof {
        lemma_visited_all(*p, f);
        assert forall|w: usize| #[trigger] in_func(*p, f, w) implies !crate::ir::targets(p.values@[w as int].kind, bb) by {
            assert(visited_before(*p, f, nb as int, 0, w));
        }
    }
    false
}

/// Whether some instruction of function `f` outside block `bb` uses `v`.
pub open spec fn used_elsewhere(p: Program, f: usize, v: usize, bb: usize) -> bool {
    exists|w: usize|
        #[trigger] in_func(p, f, w) && !p.blocks@[bb as int].insts@.contains(w) && uses(p.values@[w as int].kind, v)
}

/// Whether some instruction of function `f` outside block `bb` uses `v`.
pub fn used_outside(p: &Program, f: usize, v: usize, bb: usize) -> (r: bool)
    requires
        func_wf(*p, f),
        bb < p.blocks@.len(),
    ensures
        r == used_elsewhere(*p, f, v, bb),
{
    let nb = p.funcs[f].layout.len();
    let mut bi: usize = 0;
    while bi < nb
        invariant
            func_wf(*p, f),
            bb < p.blocks@.len(),
            nb == p.funcs@[f as int].layout@.len(),
            bi <= nb,
            forall|w: usize| #[trigger] visited_before(*p, f, bi as int, 0, w) ==> p.blocks@[bb as int].insts@.contains(w) || !uses(p.values@[w as int].kind, v),
        decreases nb - bi,
    {
        let blk = p.funcs[f].layout[bi];
        proof {
            assert(all_below(p.funcs@[f as int].layout@, p.blocks@.len() as int));
            assert(all_below(p.blocks@[blk as int].insts@, p.values@.len() as int));
        }
        let n = p.blocks[blk].insts.len();
        let mut ii: usize = 0;
        while ii < n
            invariant
                func_wf(*p, f),
                bb < p.blocks@.len(),
                nb == p.funcs@[f as int].layout@.len(),
                bi < nb,
                blk == p.funcs@[f as int].layout@[bi as int],
                blk < p.blocks@.len(),
                n == p.blocks@[blk as int].insts@.len(),
                all_below(p.blocks@[blk as int].insts@, p.values@.len() as int),
                ii <= n,
                forall|w: usize| #[trigger] visited_before(*p, f, bi as int, ii as int, w) ==> p.blocks@[bb as int].insts@.contains(w) || !uses(p.values@[w as int].kind, v),
            decreases n - ii,
        {
            let w = p.blocks[blk].insts[ii];
            proof {
                lemma_visited_step(*p, f, bi as int, ii as int);
            }
            if uses_value(&p.values[w].kind, v) && !crate::ir::vec_contains(&p.blocks[bb].insts, w) {
                proof {
                    let lay = p.funcs@[f as int].layout@;
                    assert(p.blocks@[lay[bi as int] as int].insts@.contains(w));
                    assert(in_func(*p, f, w));
                }
                return true;
            }
            ii = ii + 1;
        }
        proof {
            lemma_visited_block(*p, f, bi as int);
        }
        bi = bi + 1;
    }
    proof {
        lemma_visited_all(*p, f);
        assert forall|w: usize| #[trigger] in_func(*p, f, w) implies p.blocks@[bb as int].insts@.contains(w) || !uses(p.values@[w as int].kind, v) by {
            assert(visited_before(*p, f, nb as int, 0, w));
        }
    }
    false
}

/// Whether `i` is the first position of `v` in `s`.
pub open spec fn is_first(s: Seq<usize>, v: usize, i: int) -> bool {
    0 <= i < s.len() && s[i] == v && forall|j: int| 0 <= j < i ==> s[j] != v
}

/// The first position of `v` in `s`, where `s` holds `v`.
pub closed spec fn first_idx(s: Seq<usize>, v: usize) -> int {
    choose|i: int| is_first(s, v, i)
}

pub proof fn lemma_first_idx(s: Seq<usize>, v: usize, i: int)
    requires
        is_first(s, v, i),
    ensures
        first_idx(s, v) == i,
        s.contains(v),
{
    let c = first_idx(s, v);
    assert(is_first(s, v, c));
    if c < i {
        assert(s[c] != v);
    } else if i < c {
        assert(s[i] != v);
    }
}

} // verus!
