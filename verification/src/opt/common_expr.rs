use vstd::prelude::*;

use crate::ir::{all_below, kind_ok, Program, ValueKind};
use crate::opt::utils::{copy_vec, func_wf, in_func, value_eq, value_eq_exec, visited_before};

verus! {

/// Whether instruction `v` computes what the earlier instruction `e` does:
/// pointer computations from one pointer with equal indices, or binary
/// operations with one operator, one left operand and equal right operands.
pub open spec fn common(p: Program, e: usize, v: usize) -> bool {
    match (p.values@[e as int].kind, p.values@[v as int].kind) {
        (ValueKind::GetElemPtr(s1, i1), ValueKind::GetElemPtr(s2, i2)) => value_eq(p, i1, i2) && s1 == s2,
        (ValueKind::GetPtr(s1, i1), ValueKind::GetPtr(s2, i2)) => value_eq(p, i1, i2) && s1 == s2,
        (ValueKind::Binary(o1, l1, r1), ValueKind::Binary(o2, l2, r2)) => o1 == o2 && l1 == l2 && value_eq(
            p,
            r1,
            r2,
        ),
        _ => false,
    }
}

/// The first of the instructions `vis` that `v` repeats.
pub open spec fn first_common(p: Program, vis: Seq<usize>, v: usize) -> Option<usize>
    decreases vis.len(),
{
    if vis.len() == 0 {
        None
    } else if common(p, vis[0], v) {
        Some(vis[0])
    } else {
        first_common(p, vis.subrange(1, vis.len() as int), v)
    }
}

/// The scan of the first `n` instructions of a block: the instructions that
/// stay, in order, and the pairs of an instruction that goes with the
/// earlier one that stays and computes the same.
pub open spec fn scan(p: Program, s: Seq<usize>, n: int) -> (Seq<usize>, Seq<(usize, usize)>)
    decreases n,
{
    if n <= 0 {
        (Seq::empty(), Seq::empty())
    } else {
        let prev = scan(p, s, n - 1);
        let v = s[n - 1];
        match first_common(p, prev.0, v) {
            Some(e) => (prev.0, prev.1.push((v, e))),
            None => (prev.0.push(v), prev.1),
        }
    }
}

/// The scan of the whole block `b`.
pub open spec fn block_scan(p: Program, b: usize) -> (Seq<usize>, Seq<(usize, usize)>) {
    scan(p, p.blocks@[b as int].insts@, p.blocks@[b as int].insts@.len() as int)
}

/// The pairs of the first `n` blocks of the layout `lay`, block by block.
pub open spec fn pairs_upto(p: Program, lay: Seq<usize>, n: int) -> Seq<(usize, usize)>
    decreases n,
{
    if n <= 0 {
        Seq::empty()
    } else {
        pairs_upto(p, lay, n - 1) + block_scan(p, lay[n - 1]).1
    }
}

/// Every pair of function `f`.
pub open spec fn all_pairs(p: Program, f: usize) -> Seq<(usize, usize)> {
    let lay = p.funcs@[f as int].layout@;
    pairs_upto(p, lay, lay.len() as int)
}

/// The pairs as a map from the instruction that goes to the one that replaces it.
pub open spec fn pair_map(ps: Seq<(usize, usize)>) -> Map<usize, usize>
    decreases ps.len(),
{
    if ps.len() == 0 {
        Map::empty()
    } else {
        pair_map(ps.drop_last()).insert(ps.last().0, ps.last().1)
    }
}

/// `x`, or what replaces it.
pub open spec fn rw(m: Map<usize, usize>, x: usize) -> usize {
    if m.contains_key(x) {
        m[x]
    } else {
        x
    }
}

/// Whether any of the instructions `s` goes.
pub open spec fn any_goes(s: Seq<usize>, m: Map<usize, usize>) -> bool {
    exists|j: int| 0 <= j < s.len() && m.contains_key(#[trigger] s[j])
}

/// Whether an instruction of kind `k` uses an instruction that goes, at a
/// place where the replacement does not reach it: the pointer of a load, of
/// a store or of a pointer computation, an element of an aggregate, the
/// initializer of a global, or both operands of a binary operation at once.
pub open spec fn stuck(k: ValueKind, m: Map<usize, usize>) -> bool {
    match k {
        ValueKind::Aggregate(es) => any_goes(es@, m),
        ValueKind::GlobalAlloc(i) => m.contains_key(i),
        ValueKind::Load(s) => m.contains_key(s),
        ValueKind::Store(_, d) => m.contains_key(d),
        ValueKind::GetPtr(s, _) => m.contains_key(s),
        ValueKind::GetElemPtr(s, _) => m.contains_key(s),
        ValueKind::Binary(_, l, r) => l == r && m.contains_key(l),
        _ => false,
    }
}

/// Whether no instruction of function `f` is stuck on an instruction that goes.
pub open spec fn stuck_free(p: Program, f: usize) -> bool {
    forall|v: usize|
        v < p.values@.len() && #[trigger] in_func(p, f, v) ==> !stuck(
            p.values@[v as int].kind,
            pair_map(all_pairs(p, f)),
        )
}

/// Whether `new` is `old` with every operand that goes replaced, where the
/// replacement reaches it.
pub open spec fn rewritten(old: ValueKind, new: ValueKind, m: Map<usize, usize>) -> bool {
    match old {
        ValueKind::Return(Some(x)) => new == ValueKind::Return(Some(rw(m, x))),
        ValueKind::Store(v, d) => new == ValueKind::Store(rw(m, v), d),
        ValueKind::GetElemPtr(s, i) => new == ValueKind::GetElemPtr(s, rw(m, i)),
        ValueKind::GetPtr(s, i) => new == ValueKind::GetPtr(s, rw(m, i)),
        ValueKind::Binary(op, l, r) => new == ValueKind::Binary(op, rw(m, l), rw(m, r)),
        ValueKind::Call(c, a) => new matches ValueKind::Call(c2, a2) && c2 == c && a2@ == a@.map_values(
            |x: usize| rw(m, x),
        ),
        ValueKind::Jump(t, a) => new matches ValueKind::Jump(t2, a2) && t2 == t && a2@ == a@.map_values(
            |x: usize| rw(m, x),
        ),
        ValueKind::Branch(c, t, ta, e, fa) => new matches ValueKind::Branch(c2, t2, ta2, e2, fa2) && c2 == rw(m, c)
            && t2 == t && e2 == e && ta2@ == ta@.map_values(|x: usize| rw(m, x)) && fa2@ == fa@.map_values(
            |x: usize| rw(m, x),
        ),
        _ => new == old,
    }
}

/// The number of instructions in the first `n` blocks of the layout `lay`.
pub open spec fn size_upto(p: Program, lay: Seq<usize>, n: int) -> int
    decreases n,
{
    if n <= 0 {
        0
    } else {
        size_upto(p, lay, n - 1) + p.blocks@[lay[n - 1] as int].insts@.len()
    }
}

/// The number of instructions of function `f`.
pub open spec fn func_size(p: Program, f: usize) -> int {
    let lay = p.funcs@[f as int].layout@;
    size_upto(p, lay, lay.len() as int)
}

proof fn lemma_scan_len(p: Program, s: Seq<usize>, n: int)
    requires
        0 <= n <= s.len(),
    ensures
        scan(p, s, n).0.len() + scan(p, s, n).1.len() == n,
    decreases n,
{
    if n > 0 {
        lemma_scan_len(p, s, n - 1);
    }
}

fn common_exec(p: &Program, e: usize, v: usize) -> (r: bool)
    requires
        p.wf(),
        e < p.values@.len(),
        v < p.values@.len(),
    ensures
        r == common(*p, e, v),
{
    match (&p.values[e].kind, &p.values[v].kind) {
        (ValueKind::GetElemPtr(s1, i1), ValueKind::GetElemPtr(s2, i2)) => value_eq_exec(p, *i1, *i2) && *s1 == *s2,
        (ValueKind::GetPtr(s1, i1), ValueKind::GetPtr(s2, i2)) => value_eq_exec(p, *i1, *i2) && *s1 == *s2,
        (ValueKind::Binary(o1, l1, r1), ValueKind::Binary(o2, l2, r2)) => *o1 == *o2 && *l1 == *l2
            && value_eq_exec(p, *r1, *r2),
        _ => false,
    }
}

fn first_common_exec(p: &Program, vis: &Vec<usize>, v: usize) -> (r: Option<usize>)
    requires
        p.wf(),
        all_below(vis@, p.values@.len() as int),
        v < p.values@.len(),
    ensures
        r == first_common(*p, vis@, v),
{
    let mut i: usize = 0;
    proof {
        assert(vis@.subrange(0, vis@.len() as int) =~= vis@);
    }
    while i < vis.len()
        invariant
            p.wf(),
            all_below(vis@, p.values@.len() as int),
            v < p.values@.len(),
            i <= vis@.len(),
            first_common(*p, vis@, v) == first_common(*p, vis@.subrange(i as int, vis@.len() as int), v),
        decreases vis@.len() - i,
    {
        let ghost rest = vis@.subrange(i as int, vis@.len() as int);
        assert(rest[0] == vis@[i as int]);
        assert(rest.subrange(1, rest.len() as int) =~= vis@.subrange(i + 1, vis@.len() as int));
        if common_exec(p, vis[i], v) {
            return Some(vis[i]);
        }
        i = i + 1;
    }
    None
}

fn scan_block(p: &Program, s: &Vec<usize>) -> (r: (Vec<usize>, Vec<(usize, usize)>))
    requires
        p.wf(),
        all_below(s@, p.values@.len() as int),
    ensures
        (r.0@, r.1@) == scan(*p, s@, s@.len() as int),
        all_below(r.0@, p.values@.len() as int),
{
    let mut kept: Vec<usize> = Vec::new();
    let mut pairs: Vec<(usize, usize)> = Vec::new();
    let mut i: usize = 0;
    while i < s.len()
        invariant
            p.wf(),
            all_below(s@, p.values@.len() as int),
            i <= s@.len(),
            (kept@, pairs@) == scan(*p, s@, i as int),
            all_below(kept@, p.values@.len() as int),
        decreases s@.len() - i,
    {
        let v = s[i];
        match first_common_exec(p, &kept, v) {
            Some(e) => {
                pairs.push((v, e));
            },
            None => {
                kept.push(v);
            },
        }
        i = i + 1;
    }
    (kept, pairs)
}

/// What stays and what goes are instructions of the block, what stays in
/// its order and once, and each pair goes to an instruction that stays.
proof fn lemma_scan_parts(p: Program, s: Seq<usize>, n: int)
    requires
        0 <= n <= s.len(),
        forall|i: int, j: int| 0 <= i < j < s.len() ==> s[i] != s[j],
    ensures
        forall|k: int| 0 <= k < scan(p, s, n).0.len() ==> s.subrange(0, n).contains(#[trigger] scan(p, s, n).0[k]),
        forall|k: int, l: int| 0 <= k < l < scan(p, s, n).0.len() ==> scan(p, s, n).0[k] != scan(p, s, n).0[l],
        forall|k: int|
            0 <= k < scan(p, s, n).1.len() ==> s.subrange(0, n).contains((#[trigger] scan(p, s, n).1[k]).0)
                && scan(p, s, n).0.contains(scan(p, s, n).1[k].1),
        forall|k: int, l: int| 0 <= k < l < scan(p, s, n).1.len() ==> scan(p, s, n).1[k].0 != scan(p, s, n).1[l].0,
        forall|k: int, l: int|
            0 <= k < scan(p, s, n).0.len() && 0 <= l < scan(p, s, n).1.len() ==> scan(p, s, n).0[k] != scan(
                p,
                s,
                n,
            ).1[l].0,
    decreases n,
{
    if n > 0 {
        lemma_scan_parts(p, s, n - 1);
        let prev = scan(p, s, n - 1);
        let v = s[n - 1];
        let sub = s.subrange(0, n - 1);
        let sub2 = s.subrange(0, n);
        assert forall|x: usize| sub.contains(x) implies sub2.contains(x) by {
            let j = choose|j: int| 0 <= j < sub.len() && sub[j] == x;
            assert(sub2[j] == x);
        }
        assert(sub2[n - 1] == v);
        assert(!sub.contains(v)) by {
            if sub.contains(v) {
                let j = choose|j: int| 0 <= j < sub.len() && sub[j] == v;
                assert(s[j] == v);
            }
        }
        lemma_first_common_in(p, prev.0, v);
        let cur = scan(p, s, n);
        assert forall|k: int| 0 <= k < cur.1.len() implies sub2.contains((#[trigger] cur.1[k]).0) && cur.0.contains(
            cur.1[k].1,
        ) by {
            if k < prev.1.len() {
                assert(cur.1[k] == prev.1[k]);
                assert(sub.contains(prev.1[k].0));
                let j = choose|j: int| 0 <= j < prev.0.len() && prev.0[j] == prev.1[k].1;
                assert(cur.0[j] == prev.0[j]);
            }
        }
    }
}

proof fn lemma_first_common_in(p: Program, vis: Seq<usize>, v: usize)
    ensures
        first_common(p, vis, v) matches Some(e) ==> vis.contains(e),
    decreases vis.len(),
{
    if vis.len() > 0 && !common(p, vis[0], v) {
        let rest = vis.subrange(1, vis.len() as int);
        lemma_first_common_in(p, rest, v);
        if let Some(e) = first_common(p, rest, v) {
            let j = choose|j: int| 0 <= j < rest.len() && rest[j] == e;
            assert(vis[j + 1] == e);
        }
    } else if vis.len() > 0 {
        assert(vis[0] == vis[0]);
    }
}

proof fn lemma_pair_map_below(ps: Seq<(usize, usize)>, nv: int)
    requires
        forall|k: int| 0 <= k < ps.len() ==> (#[trigger] ps[k]).1 < nv,
    ensures
        forall|x: usize| #[trigger] pair_map(ps).contains_key(x) ==> pair_map(ps)[x] < nv,
    decreases ps.len(),
{
    if ps.len() > 0 {
        let d = ps.drop_last();
        assert forall|k: int| 0 <= k < d.len() implies (#[trigger] d[k]).1 < nv by {
            assert(d[k] == ps[k]);
        }
        lemma_pair_map_below(d, nv);
        assert(ps.last() == ps[ps.len() - 1]);
        assert forall|x: usize| #[trigger] pair_map(ps).contains_key(x) implies pair_map(ps)[x] < nv by {
            if x != ps.last().0 {
                assert(pair_map(d).contains_key(x));
            }
        }
    }
}

/// Which kinds the replacement rewrites.
pub open spec fn rewrites(k: ValueKind) -> bool {
    k matches ValueKind::Return(Some(_)) || k is Store || k is GetElemPtr || k is GetPtr || k is Binary
        || k is Call || k is Jump || k is Branch
}

/// What replaces `x`, after the pairs `ps`.
fn lookup(ps: &Vec<(usize, usize)>, x: usize) -> (r: usize)
    ensures
        r == rw(pair_map(ps@), x),
{
    let mut i = ps.len();
    proof {
        assert(ps@.subrange(0, i as int) =~= ps@);
    }
    while i > 0
        invariant
            i <= ps@.len(),
            rw(pair_map(ps@), x) == rw(pair_map(ps@.subrange(0, i as int)), x),
        decreases i,
    {
        let ghost sub = ps@.subrange(0, i as int);
        assert(sub.drop_last() =~= ps@.subrange(0, i - 1));
        assert(sub.last() == ps@[i - 1]);
        if ps[i - 1].0 == x {
            return ps[i - 1].1;
        }
        i = i - 1;
    }
    assert(pair_map(ps@.subrange(0, 0)) =~= Map::<usize, usize>::empty());
    x
}

fn rw_vec(a: &Vec<usize>, ps: &Vec<(usize, usize)>) -> (r: Vec<usize>)
    ensures
        r@ == a@.map_values(|x: usize| rw(pair_map(ps@), x)),
{
    let mut r: Vec<usize> = Vec::new();
    let mut i: usize = 0;
    while i < a.len()
        invariant
            i <= a@.len(),
            r@ == a@.subrange(0, i as int).map_values(|x: usize| rw(pair_map(ps@), x)),
        decreases a@.len() - i,
    {
        let y = lookup(ps, a[i]);
        r.push(y);
        proof {
            assert(a@.subrange(0, i + 1) =~= a@.subrange(0, i as int).push(a@[i as int]));
            assert(r@ =~= a@.subrange(0, i + 1).map_values(|x: usize| rw(pair_map(ps@), x)));
        }
        i = i + 1;
    }
    assert(a@.subrange(0, a@.len() as int) =~= a@);
    r
}

/// The kind of a value of kind `k` once the pairs `ps` are replaced, where
/// the replacement rewrites such kinds.
fn rewrite_kind(k: &ValueKind, ps: &Vec<(usize, usize)>) -> (r: Option<ValueKind>)
    ensures
        match r {
            Some(nk) => rewrites(*k) && rewritten(*k, nk, pair_map(ps@)),
            None => !rewrites(*k),
        },
{
    match k {
        ValueKind::Return(Some(x)) => Some(ValueKind::Return(Some(lookup(ps, *x)))),
        ValueKind::Store(v, d) => Some(ValueKind::Store(lookup(ps, *v), *d)),
        ValueKind::GetElemPtr(s, i) => Some(ValueKind::GetElemPtr(*s, lookup(ps, *i))),
        ValueKind::GetPtr(s, i) => Some(ValueKind::GetPtr(*s, lookup(ps, *i))),
        ValueKind::Binary(op, l, r) => Some(ValueKind::Binary(*op, lookup(ps, *l), lookup(ps, *r))),
        ValueKind::Call(c, a) => Some(ValueKind::Call(*c, rw_vec(a, ps))),
        ValueKind::Jump(t, a) => Some(ValueKind::Jump(*t, rw_vec(a, ps))),
        ValueKind::Branch(c, t, ta, e, fa) => Some(
            ValueKind::Branch(lookup(ps, *c), *t, rw_vec(ta, ps), *e, rw_vec(fa, ps)),
        ),
        _ => None,
    }
}

proof fn lemma_rewritten_kind_ok(k: ValueKind, nk: ValueKind, m: Map<usize, usize>, nv: int, nb: int, nf: int)
    requires
        kind_ok(k, nv, nb, nf),
        rewritten(k, nk, m),
        forall|x: usize| #[trigger] m.contains_key(x) ==> m[x] < nv,
    ensures
        kind_ok(nk, nv, nb, nf),
{
    match k {
        ValueKind::Call(_, a) => {
            assert(all_below(a@.map_values(|x: usize| rw(m, x)), nv));
        },
        ValueKind::Jump(_, a) => {
            assert(all_below(a@.map_values(|x: usize| rw(m, x)), nv));
        },
        ValueKind::Branch(_, _, ta, _, fa) => {
            assert(all_below(ta@.map_values(|x: usize| rw(m, x)), nv));
            assert(all_below(fa@.map_values(|x: usize| rw(m, x)), nv));
        },
        _ => {},
    }
}

/// Whether `new` is `old` after one round of the removal of common
/// expressions in function `f`: every block of the layout keeps what its
/// scan keeps, and every instruction of the function has the operands that
/// go replaced.
pub open spec fn work_done(old: Program, new: Program, f: usize) -> bool {
    let lay = old.funcs@[f as int].layout@;
    let m = pair_map(all_pairs(old, f));
    &&& new.funcs@ == old.funcs@
    &&& new.inst_layout@ == old.inst_layout@
    &&& new.values@.len() == old.values@.len()
    &&& new.blocks@.len() == old.blocks@.len()
    &&& forall|b: usize|
        b < old.blocks@.len() ==> {
            &&& (#[trigger] new.blocks@[b as int]).name == old.blocks@[b as int].name
            &&& new.blocks@[b as int].params@ == old.blocks@[b as int].params@
            &&& new.blocks@[b as int].insts@ == if lay.contains(b) {
                block_scan(old, b).0
            } else {
                old.blocks@[b as int].insts@
            }
        }
    &&& forall|v: usize|
        v < old.values@.len() ==> {
            &&& (#[trigger] new.values@[v as int]).ty == old.values@[v as int].ty
            &&& new.values@[v as int].name == old.values@[v as int].name
            &&& if in_func(old, f, v) {
                rewritten(old.values@[v as int].kind, new.values@[v as int].kind, m)
            } else {
                new.values@[v as int].kind == old.values@[v as int].kind
            }
        }
}


/// The scan of every block of function `f`: what stays of each block of the
/// layout, and every pair.
fn plan(p: &Program, f: usize) -> (r: (Vec<Vec<usize>>, Vec<(usize, usize)>))
    requires
        func_wf(*p, f),
    ensures
        r.0@.len() == p.funcs@[f as int].layout@.len(),
        forall|i: int|
            0 <= i < r.0@.len() ==> (#[trigger] r.0@[i])@ == block_scan(*p, p.funcs@[f as int].layout@[i]).0,
        r.1@ == all_pairs(*p, f),
        forall|k: int| 0 <= k < r.1@.len() ==> (#[trigger] r.1@[k]).0 < p.values@.len() && r.1@[k].1 < p.values@.len(),
{
    let lay = &p.funcs[f].layout;
    let mut kept: Vec<Vec<usize>> = Vec::new();
    let mut pairs: Vec<(usize, usize)> = Vec::new();
    let mut i: usize = 0;
    while i < lay.len()
        invariant
            func_wf(*p, f),
            *lay == p.funcs@[f as int].layout,
            i <= lay@.len(),
            kept@.len() == i,
            forall|j: int| 0 <= j < i ==> (#[trigger] kept@[j])@ == block_scan(*p, lay@[j]).0,
            pairs@ == pairs_upto(*p, lay@, i as int),
            forall|k: int| 0 <= k < pairs@.len() ==> (#[trigger] pairs@[k]).0 < p.values@.len() && pairs@[k].1 < p.values@.len(),
        decreases lay@.len() - i,
    {
        let b = lay[i];
        proof {
            assert(all_below(lay@, p.blocks@.len() as int));
            assert(all_below(p.blocks@[b as int].insts@, p.values@.len() as int));
        }
        let insts = &p.blocks[b].insts;
        let (k, ps) = scan_block(p, insts);
        let ghost sc = block_scan(*p, b);
        proof {
            assert(p.blocks@[lay@[i as int] as int].insts@ == insts@);
            lemma_scan_parts(*p, insts@, insts@.len() as int);
            assert(insts@.subrange(0, insts@.len() as int) =~= insts@);
            assert forall|j: int| 0 <= j < ps@.len() implies (#[trigger] ps@[j]).0 < p.values@.len() && ps@[j].1 < p.values@.len() by {
                let sn = scan(*p, insts@, insts@.len() as int);
                assert(sn.1[j] == ps@[j]);
                assert(insts@.subrange(0, insts@.len() as int).contains(sn.1[j].0));
                assert(insts@.contains(ps@[j].0));
                assert(sc.0.contains(ps@[j].1));
                let x = choose|x: int| 0 <= x < sc.0.len() && sc.0[x] == ps@[j].1;
                assert(insts@.contains(sc.0[x]));
            }
        }
        kept.push(k);
        let ghost before = pairs@;
        let mut j: usize = 0;
        while j < ps.len()
            invariant
                j <= ps@.len(),
                pairs@ == before + ps@.subrange(0, j as int),
                forall|k2: int| 0 <= k2 < before.len() ==> (#[trigger] before[k2]).0 < p.values@.len() && before[k2].1 < p.values@.len(),
                forall|k2: int| 0 <= k2 < ps@.len() ==> (#[trigger] ps@[k2]).0 < p.values@.len() && ps@[k2].1 < p.values@.len(),
                forall|k2: int| 0 <= k2 < pairs@.len() ==> (#[trigger] pairs@[k2]).0 < p.values@.len() && pairs@[k2].1 < p.values@.len(),
            decreases ps@.len() - j,
        {
            pairs.push(ps[j]);
            proof {
                assert(pairs@ =~= before + ps@.subrange(0, j + 1));
            }
            j = j + 1;
        }
        proof {
            assert(ps@.subrange(0, ps@.len() as int) =~= ps@);
            assert(pairs@ =~= pairs_upto(*p, lay@, i + 1));
        }
        i = i + 1;
    }
    (kept, pairs)
}

/// Replaces the operands that go in every instruction of function `f`.
fn rewrite_func(p: &mut Program, f: usize, pairs: &Vec<(usize, usize)>)
    requires
        func_wf(*old(p), f),
        forall|k: int| 0 <= k < pairs@.len() ==> (#[trigger] pairs@[k]).1 < old(p).values@.len(),
    ensures
        final(p).wf(),
        final(p).blocks@ == old(p).blocks@,
        final(p).funcs@ == old(p).funcs@,
        final(p).inst_layout@ == old(p).inst_layout@,
        final(p).values@.len() == old(p).values@.len(),
        forall|v: usize|
            v < old(p).values@.len() ==> {
                &&& (#[trigger] final(p).values@[v as int]).ty == old(p).values@[v as int].ty
                &&& final(p).values@[v as int].name == old(p).values@[v as int].name
                &&& if in_func(*old(p), f, v) {
                    rewritten(old(p).values@[v as int].kind, final(p).values@[v as int].kind, pair_map(pairs@))
                } else {
                    final(p).values@[v as int].kind == old(p).values@[v as int].kind
                }
            },
{
    let ghost p0 = *p;
    let ghost m = pair_map(pairs@);
    proof {
        lemma_pair_map_below(pairs@, p0.values@.len() as int);
    }
    let nb = p.funcs[f].layout.len();
    let mut bi: usize = 0;
    while bi < nb
        invariant
            func_wf(p0, f),
            m == pair_map(pairs@),
            forall|x: usize| #[trigger] m.contains_key(x) ==> m[x] < p0.values@.len(),
            nb == p0.funcs@[f as int].layout@.len(),
            bi <= nb,
            p.wf(),
            p.blocks@ == p0.blocks@,
            p.funcs@ == p0.funcs@,
            p.inst_layout@ == p0.inst_layout@,
            p.values@.len() == p0.values@.len(),
            forall|v: usize|
                v < p0.values@.len() ==> {
                    &&& (#[trigger] p.values@[v as int]).ty == p0.values@[v as int].ty
                    &&& p.values@[v as int].name == p0.values@[v as int].name
                    &&& if visited_before(p0, f, bi as int, 0, v) {
                        rewritten(p0.values@[v as int].kind, p.values@[v as int].kind, m)
                    } else {
                        p.values@[v as int].kind == p0.values@[v as int].kind
                    }
                },
        decreases nb - bi,
    {
        let blk = p.funcs[f].layout[bi];
        let n = p.blocks[blk].insts.len();
        proof {
            assert(all_below(p0.funcs@[f as int].layout@, p0.blocks@.len() as int));
            assert(all_below(p0.blocks@[blk as int].insts@, p0.values@.len() as int));
        }
        let mut ii: usize = 0;
        while ii < n
            invariant
                func_wf(p0, f),
                m == pair_map(pairs@),
                forall|x: usize| #[trigger] m.contains_key(x) ==> m[x] < p0.values@.len(),
                nb == p0.funcs@[f as int].layout@.len(),
                bi < nb,
                blk == p0.funcs@[f as int].layout@[bi as int],
                blk < p0.blocks@.len(),
                n == p0.blocks@[blk as int].insts@.len(),
                all_below(p0.blocks@[blk as int].insts@, p0.values@.len() as int),
                ii <= n,
                p.wf(),
                p.blocks@ == p0.blocks@,
                p.funcs@ == p0.funcs@,
                p.inst_layout@ == p0.inst_layout@,
                p.values@.len() == p0.values@.len(),
                forall|v: usize|
                    v < p0.values@.len() ==> {
                        &&& (#[trigger] p.values@[v as int]).ty == p0.values@[v as int].ty
                        &&& p.values@[v as int].name == p0.values@[v as int].name
                        &&& if visited_before(p0, f, bi as int, ii as int, v) {
                            rewritten(p0.values@[v as int].kind, p.values@[v as int].kind, m)
                        } else {
                            p.values@[v as int].kind == p0.values@[v as int].kind
                        }
                    },
            decreases n - ii,
        {
            let w = p.blocks[blk].insts[ii];
            let ghost insts = p0.blocks@[blk as int].insts@;
            proof {
                assert(w == insts[ii as int]);
                assert(w < p0.values@.len());
                if visited_before(p0, f, bi as int, ii as int, w) {
                    let lay = p0.funcs@[f as int].layout@;
                    if exists|b: int| 0 <= b < bi && #[trigger] p0.blocks@[lay[b] as int].insts@.contains(w) {
                        let b = choose|b: int| 0 <= b < bi && #[trigger] p0.blocks@[lay[b] as int].insts@.contains(w);
                        assert(p0.blocks@[lay[bi as int] as int].insts@.contains(w)) by {
                            assert(insts[ii as int] == w);
                        }
                        assert(false);
                    } else {
                        let j = choose|j: int| 0 <= j < ii && insts.subrange(0, ii as int)[j] == w;
                        assert(insts[j] == w);
                        let b0 = bi as int;
                        assert(p0.blocks@[lay[b0] as int].insts@ == insts);
                        assert(false);
                    }
                }
                assert(p.values@[w as int].kind == p0.values@[w as int].kind);
            }
            let nk = rewrite_kind(&p.values[w].kind, pairs);
            match nk {
                Some(k2) => {
                    proof {
                        assert(kind_ok(p0.values@[w as int].kind, p0.values@.len() as int, p0.blocks@.len() as int, p0.funcs@.len() as int));
                        lemma_rewritten_kind_ok(p0.values@[w as int].kind, k2, m, p0.values@.len() as int, p0.blocks@.len() as int, p0.funcs@.len() as int);
                    }
                    let ghost pv = p.values@;
                    p.values[w].kind = k2;
                    proof {
                        assert forall|i: int| 0 <= i < pv.len() && i != w implies #[trigger] p.values@[i] == pv[i] by {}
                    }
                },
                None => {},
            }
            proof {
                let nv = p.values@.len() as int;
                assert forall|i: int| 0 <= i < nv implies kind_ok(
                    #[trigger] p.values@[i].kind,
                    nv,
                    p.blocks@.len() as int,
                    p.funcs@.len() as int,
                ) by {
                    assert(p0.wf());
                    assert(kind_ok(p0.values@[i].kind, nv, p.blocks@.len() as int, p.funcs@.len() as int));
                    if p.values@[i].kind != p0.values@[i].kind {
                        let v = i as usize;
                        assert(p.values.len() == p.values@.len());
                        assert(v as int == i);
                        lemma_rewritten_kind_ok(p0.values@[i].kind, p.values@[i].kind, m, nv, p.blocks@.len() as int, p.funcs@.len() as int);
                    }
                }
                assert forall|v: usize| v < p0.values@.len() implies #[trigger] visited_before(p0, f, bi as int, ii + 1, v)
                    == (visited_before(p0, f, bi as int, ii as int, v) || v == w) by {
                    let lay = p0.funcs@[f as int].layout@;
                    assert(lay[bi as int] == blk);
                    let s1 = insts.subrange(0, ii as int);
                    let s2 = insts.subrange(0, ii + 1);
                    assert(s2 =~= s1.push(w));
                    if s1.contains(v) {
                        let j = choose|j: int| 0 <= j < s1.len() && s1[j] == v;
                        assert(s2[j] == v);
                    }
                    if v == w {
                        assert(s2[ii as int] == v);
                    }
                    if s2.contains(v) {
                        let j = choose|j: int| 0 <= j < s2.len() && s2[j] == v;
                        if j < ii {
                            assert(s1[j] == v);
                        }
                    }
                }
            }
            ii = ii + 1;
        }
        proof {
            assert forall|v: usize| v < p0.values@.len() implies #[trigger] visited_before(p0, f, bi + 1, 0, v)
                == visited_before(p0, f, bi as int, n as int, v) by {
                let lay = p0.funcs@[f as int].layout@;
                assert(p0.blocks@[lay[bi as int] as int].insts@.subrange(0, n as int) =~= p0.blocks@[lay[bi as int] as int].insts@);
                if visited_before(p0, f, bi as int, n as int, v) {
                    if !(exists|b: int| 0 <= b < bi && #[trigger] p0.blocks@[lay[b] as int].insts@.contains(v)) {
                        assert(p0.blocks@[lay[bi as int] as int].insts@.contains(v));
                    }
                }
                if visited_before(p0, f, bi + 1, 0, v) {
                    let b = choose|b: int| 0 <= b < bi + 1 && #[trigger] p0.blocks@[lay[b] as int].insts@.contains(v);
                    if b == bi {
                        assert(p0.blocks@[lay[bi as int] as int].insts@.subrange(0, n as int).contains(v));
                    }
                }
            }
        }
        bi = bi + 1;
    }
    proof {
        assert forall|v: usize| v < p0.values@.len() implies #[trigger] visited_before(p0, f, nb as int, 0, v)
            == in_func(p0, f, v) by {}
    }
}

/// Gives block `lay[j]` the instructions `kept[j]`, for each `j`.
fn set_blocks(p: &mut Program, f: usize, kept: &Vec<Vec<usize>>)
    requires
        f < old(p).funcs@.len(),
        all_below(old(p).funcs@[f as int].layout@, old(p).blocks@.len() as int),
        forall|i: int, j: int|
            0 <= i < j < old(p).funcs@[f as int].layout@.len() ==> old(p).funcs@[f as int].layout@[i]
                != old(p).funcs@[f as int].layout@[j],
        kept@.len() == old(p).funcs@[f as int].layout@.len(),
    ensures
        final(p).values@ == old(p).values@,
        final(p).funcs@ == old(p).funcs@,
        final(p).inst_layout@ == old(p).inst_layout@,
        final(p).blocks@.len() == old(p).blocks@.len(),
        forall|b: int|
            0 <= b < old(p).blocks@.len() ==> {
                &&& (#[trigger] final(p).blocks@[b]).name == old(p).blocks@[b].name
                &&& final(p).blocks@[b].params@ == old(p).blocks@[b].params@
                &&& !old(p).funcs@[f as int].layout@.contains(b as usize) ==> final(p).blocks@[b].insts@
                    == old(p).blocks@[b].insts@
            },
        forall|j: int|
            0 <= j < kept@.len() ==> final(p).blocks@[old(p).funcs@[f as int].layout@[j] as int].insts@ == (
            #[trigger] kept@[j])@,
{
    let ghost p0 = *p;
    let ghost lay = p0.funcs@[f as int].layout@;
    let mut i: usize = 0;
    while i < kept.len()
        invariant
            f < p0.funcs@.len(),
            lay == p0.funcs@[f as int].layout@,
            all_below(lay, p0.blocks@.len() as int),
            forall|a: int, c: int| 0 <= a < c < lay.len() ==> lay[a] != lay[c],
            kept@.len() == lay.len(),
            i <= kept@.len(),
            p.values@ == p0.values@,
            p.funcs@ == p0.funcs@,
            p.inst_layout@ == p0.inst_layout@,
            p.blocks@.len() == p0.blocks@.len(),
            forall|b: int|
                0 <= b < p0.blocks@.len() ==> {
                    &&& (#[trigger] p.blocks@[b]).name == p0.blocks@[b].name
                    &&& p.blocks@[b].params@ == p0.blocks@[b].params@
                    &&& !lay.subrange(0, i as int).contains(b as usize) ==> p.blocks@[b].insts@ == p0.blocks@[b].insts@
                },
            forall|j: int| 0 <= j < i ==> p.blocks@[lay[j] as int].insts@ == (#[trigger] kept@[j])@,
        decreases kept@.len() - i,
    {
        let b = p.funcs[f].layout[i];
        assert(b < p0.blocks@.len());
        let insts = copy_vec(&kept[i]);
        let ghost pb = p.blocks@;
        p.blocks[b].insts = insts;
        proof {
            assert forall|x: int| 0 <= x < pb.len() && x != b implies #[trigger] p.blocks@[x] == pb[x] by {}
            assert forall|b2: int| 0 <= b2 < p0.blocks@.len() implies {
                &&& (#[trigger] p.blocks@[b2]).name == p0.blocks@[b2].name
                &&& p.blocks@[b2].params@ == p0.blocks@[b2].params@
                &&& !lay.subrange(0, i + 1).contains(b2 as usize) ==> p.blocks@[b2].insts@ == p0.blocks@[b2].insts@
            } by {
                if b2 != b {
                    assert(p.blocks@[b2] == pb[b2]);
                    if !lay.subrange(0, i + 1).contains(b2 as usize) && lay.subrange(0, i as int).contains(b2 as usize) {
                        let x = choose|x: int| 0 <= x < i && lay.subrange(0, i as int)[x] == b2 as usize;
                        assert(lay.subrange(0, i + 1)[x] == b2 as usize);
                    }
                } else {
                    assert(lay.subrange(0, i + 1)[i as int] == b);
                }
            }
            assert forall|j: int| 0 <= j < i + 1 implies p.blocks@[lay[j] as int].insts@ == (#[trigger] kept@[j])@ by {
                if j < i {
                    assert(lay[j] != lay[i as int]);
                    assert(p.blocks@[lay[j] as int] == pb[lay[j] as int]);
                }
            }
        }
        i = i + 1;
    }
    proof {
        assert(lay.subrange(0, lay.len() as int) =~= lay);
    }
}

/// Every instruction that stays in the layout of function `f` is one that
/// stood there before.
proof fn lemma_kept_in_func(p: Program, f: usize, i: int, v: usize)
    requires
        func_wf(p, f),
        0 <= i < p.funcs@[f as int].layout@.len(),
        block_scan(p, p.funcs@[f as int].layout@[i]).0.contains(v),
    ensures
        p.blocks@[p.funcs@[f as int].layout@[i] as int].insts@.contains(v),
{
    let lay = p.funcs@[f as int].layout@;
    let s = p.blocks@[lay[i] as int].insts@;
    lemma_scan_parts(p, s, s.len() as int);
    let k = choose|k: int| 0 <= k < block_scan(p, lay[i]).0.len() && block_scan(p, lay[i]).0[k] == v;
    assert(s.subrange(0, s.len() as int) =~= s);
    assert(s.subrange(0, s.len() as int).contains(block_scan(p, lay[i]).0[k]));
}

/// Whether instruction `x` goes, after the pairs `ps`.
fn goes(ps: &Vec<(usize, usize)>, x: usize) -> (r: bool)
    ensures
        r == pair_map(ps@).contains_key(x),
{
    let mut i = ps.len();
    proof {
        assert(ps@.subrange(0, i as int) =~= ps@);
    }
    while i > 0
        invariant
            i <= ps@.len(),
            pair_map(ps@).contains_key(x) == pair_map(ps@.subrange(0, i as int)).contains_key(x),
        decreases i,
    {
        let ghost sub = ps@.subrange(0, i as int);
        assert(sub.drop_last() =~= ps@.subrange(0, i - 1));
        assert(sub.last() == ps@[i - 1]);
        if ps[i - 1].0 == x {
            return true;
        }
        i = i - 1;
    }
    assert(pair_map(ps@.subrange(0, 0)) =~= Map::<usize, usize>::empty());
    false
}

fn any_goes_exec(es: &Vec<usize>, ps: &Vec<(usize, usize)>) -> (r: bool)
    ensures
        r == any_goes(es@, pair_map(ps@)),
{
    let mut j: usize = 0;
    while j < es.len()
        invariant
            j <= es@.len(),
            forall|x: int| 0 <= x < j ==> !pair_map(ps@).contains_key(#[trigger] es@[x]),
        decreases es@.len() - j,
    {
        if goes(ps, es[j]) {
            assert(pair_map(ps@).contains_key(es@[j as int]));
            return true;
        }
        j = j + 1;
    }
    false
}

fn stuck_exec(k: &ValueKind, ps: &Vec<(usize, usize)>) -> (r: bool)
    ensures
        r == stuck(*k, pair_map(ps@)),
{
    match k {
        ValueKind::Aggregate(es) => any_goes_exec(es, ps),
        ValueKind::GlobalAlloc(i) => goes(ps, *i),
        ValueKind::Load(s) => goes(ps, *s),
        ValueKind::Store(_, d) => goes(ps, *d),
        ValueKind::GetPtr(s, _) => goes(ps, *s),
        ValueKind::GetElemPtr(s, _) => goes(ps, *s),
        ValueKind::Binary(_, l, r) => *l == *r && goes(ps, *l),
        _ => false,
    }
}

/// Whether no instruction of function `f` is stuck on an instruction that
/// goes by the pairs `ps`.
fn stuck_free_exec(p: &Program, f: usize, ps: &Vec<(usize, usize)>) -> (r: bool)
    requires
        func_wf(*p, f),
    ensures
        r == forall|v: usize|
            v < p.values@.len() && #[trigger] in_func(*p, f, v) ==> !stuck(p.values@[v as int].kind, pair_map(ps@)),
{
    let ghost m = pair_map(ps@);
    let nb = p.funcs[f].layout.len();
    let mut bi: usize = 0;
    while bi < nb
        invariant
            func_wf(*p, f),
            m == pair_map(ps@),
            nb == p.funcs@[f as int].layout@.len(),
            bi <= nb,
            forall|v: usize|
                v < p.values@.len() && #[trigger] visited_before(*p, f, bi as int, 0, v) ==> !stuck(
                    p.values@[v as int].kind,
                    m,
                ),
        decreases nb - bi,
    {
        let blk = p.funcs[f].layout[bi];
        proof {
            assert(all_below(p.funcs@[f as int].layout@, p.blocks@.len() as int));
            assert(all_below(p.blocks@[blk as int].insts@, p.values@.len() as int));
        }
        let n = p.blocks[blk].insts.len();
        let mut ii: usize = 0;
        while ii < n
            invariant
                func_wf(*p, f),
                m == pair_map(ps@),
                nb == p.funcs@[f as int].layout@.len(),
                bi < nb,
                blk == p.funcs@[f as int].layout@[bi as int],
                blk < p.blocks@.len(),
                n == p.blocks@[blk as int].insts@.len(),
                all_below(p.blocks@[blk as int].insts@, p.values@.len() as int),
                ii <= n,
                forall|v: usize|
                    v < p.values@.len() && #[trigger] visited_before(*p, f, bi as int, ii as int, v) ==> !stuck(
                        p.values@[v as int].kind,
                        m,
                    ),
            decreases n - ii,
        {
            let w = p.blocks[blk].insts[ii];
            let ghost insts = p.blocks@[blk as int].insts@;
            let ghost lay = p.funcs@[f as int].layout@;
            assert(w < p.values@.len());
            if stuck_exec(&p.values[w].kind, ps) {
                proof {
                    assert(insts[ii as int] == w);
                    assert(p.blocks@[lay[bi as int] as int].insts@.contains(w));
                    assert(in_func(*p, f, w));
                }
                return false;
            }
            proof {
                assert forall|v: usize| v < p.values@.len() && #[trigger] visited_before(*p, f, bi as int, ii + 1, v)
                    implies !stuck(p.values@[v as int].kind, m) by {
                    assert(lay[bi as int] == blk);
                    let s1 = insts.subrange(0, ii as int);
                    let s2 = insts.subrange(0, ii + 1);
                    assert(s2 =~= s1.push(w));
                    if v != w && s2.contains(v) {
                        let j = choose|j: int| 0 <= j < s2.len() && s2[j] == v;
                        assert(s1[j] == v);
                        assert(visited_before(*p, f, bi as int, ii as int, v));
                    }
                    if v != w && !s2.contains(v) {
                        assert(visited_before(*p, f, bi as int, ii as int, v));
                    }
                }
            }
            ii = ii + 1;
        }
        proof {
            assert forall|v: usize| v < p.values@.len() && #[trigger] visited_before(*p, f, bi + 1, 0, v) implies !stuck(
                p.values@[v as int].kind,
                m,
            ) by {
                let lay = p.funcs@[f as int].layout@;
                let b = choose|b: int| 0 <= b < bi + 1 && #[trigger] p.blocks@[lay[b] as int].insts@.contains(v);
                assert(p.blocks@[lay[bi as int] as int].insts@.subrange(0, n as int) =~= p.blocks@[lay[bi as int] as int].insts@);
                if b == bi {
                    assert(visited_before(*p, f, bi as int, n as int, v));
                } else {
                    assert(visited_before(*p, f, bi as int, n as int, v));
                }
            }
        }
        bi = bi + 1;
    }
    proof {
        assert forall|v: usize| v < p.values@.len() && #[trigger] in_func(*p, f, v) implies visited_before(*p, f, nb as int, 0, v) by {}
    }
    true
}

proof fn lemma_size_nonneg(p: Program, lay: Seq<usize>, n: int)
    ensures
        size_upto(p, lay, n) >= 0,
    decreases n,
{
    if n > 0 {
        lemma_size_nonneg(p, lay, n - 1);
    }
}

proof fn lemma_size_shrinks(old: Program, new: Program, f: usize, n: int)
    requires
        func_wf(old, f),
        work_done(old, new, f),
        0 <= n <= old.funcs@[f as int].layout@.len(),
    ensures
        size_upto(new, old.funcs@[f as int].layout@, n) + pairs_upto(old, old.funcs@[f as int].layout@, n).len()
            == size_upto(old, old.funcs@[f as int].layout@, n),
    decreases n,
{
    if n > 0 {
        let lay = old.funcs@[f as int].layout@;
        lemma_size_shrinks(old, new, f, n - 1);
        let b = lay[n - 1];
        assert(all_below(lay, old.blocks@.len() as int));
        assert(lay.contains(b));
        let s = old.blocks@[b as int].insts@;
        lemma_scan_len(old, s, s.len() as int);
        assert(new.blocks@[b as int].insts@ == block_scan(old, b).0);
    }
}

/// One round of `RemoveCommonExpression::work` from `old` to `new`: there
/// was something to remove, no instruction that goes stayed used, and
/// `new` is what the round leaves.
pub open spec fn round_step(old: Program, new: Program, f: usize) -> bool {
    &&& all_pairs(old, f).len() > 0
    &&& stuck_free(old, f)
    &&& work_done(old, new, f)
}

/// Whether `chain` is a sequence of programs, each one round after the one before.
pub open spec fn rounds(chain: Seq<Program>, f: usize) -> bool {
    &&& chain.len() >= 1
    &&& forall|i: int| 0 <= i < chain.len() - 1 ==> round_step(#[trigger] chain[i], chain[i + 1], f)
}

/// Whether `last` is reached from `first` by rounds of `work`.
pub open spec fn work_chain(first: Program, last: Program, f: usize) -> bool {
    exists|chain: Seq<Program>| #[trigger] rounds(chain, f) && chain[0] == first && chain.last() == last
}

/// Whether `ev` gives the values of `p` numbers as they compute them: a
/// literal its number, a binary operation its operator (`fold_value`) on
/// its operands' numbers, a pointer computation a number fixed by its base
/// and its index; and structurally equal values (`value_eq`) one number,
/// which is what the pass takes for operands that it compares.
pub open spec fn sound_eval(p: Program, ev: spec_fn(usize) -> int) -> bool {
    &&& forall|w: usize|
        w < p.values@.len() ==> match #[trigger] p.values@[w as int].kind {
            ValueKind::Integer(i) => ev(w) == i as int,
            ValueKind::Binary(op, l, r) => ev(w) == crate::opt::sccp::fold_value(op, ev(l), ev(r)),
            _ => true,
        }
    &&& forall|w1: usize, w2: usize|
        w1 < p.values@.len() && w2 < p.values@.len() ==> match (#[trigger] p.values@[w1 as int].kind, #[trigger] p.values@[
            w2 as int].kind) {
            (ValueKind::GetPtr(s1, i1), ValueKind::GetPtr(s2, i2)) => ev(s1) == ev(s2) && ev(i1) == ev(i2) ==> ev(w1)
                == ev(w2),
            (ValueKind::GetElemPtr(s1, i1), ValueKind::GetElemPtr(s2, i2)) => ev(s1) == ev(s2) && ev(i1) == ev(i2) ==> ev(
                w1,
            ) == ev(w2),
            _ => true,
        }
    &&& forall|a: usize, b: usize| #[trigger] value_eq(p, a, b) ==> ev(a) == ev(b)
}

/// An instruction that repeats an earlier one (`common`) computes the same
/// number as it under any numbering that respects what values compute.
pub proof fn lemma_common_same_value(p: Program, e: usize, v: usize, ev: spec_fn(usize) -> int)
    requires
        e < p.values@.len(),
        v < p.values@.len(),
        sound_eval(p, ev),
        common(p, e, v),
    ensures
        ev(e) == ev(v),
{
    let ke = p.values@[e as int].kind;
    let kv = p.values@[v as int].kind;
    match (ke, kv) {
        (ValueKind::Binary(o1, l1, r1), ValueKind::Binary(o2, l2, r2)) => {
            assert(value_eq(p, r1, r2));
        },
        (ValueKind::GetPtr(s1, i1), ValueKind::GetPtr(s2, i2)) => {
            assert(value_eq(p, i1, i2));
        },
        (ValueKind::GetElemPtr(s1, i1), ValueKind::GetElemPtr(s2, i2)) => {
            assert(value_eq(p, i1, i2));
        },
        _ => {},
    }
}

/// What `first_common` finds is among `vis`, and is repeated by `v`.
proof fn lemma_first_common(p: Program, vis: Seq<usize>, v: usize)
    ensures
        first_common(p, vis, v) matches Some(e) ==> common(p, e, v) && vis.contains(e),
    decreases vis.len(),
{
    if vis.len() > 0 && !common(p, vis[0], v) {
        let rest = vis.subrange(1, vis.len() as int);
        lemma_first_common(p, rest, v);
        match first_common(p, rest, v) {
            Some(e) => {
                let j = choose|j: int| 0 <= j < rest.len() && rest[j] == e;
                assert(vis[j + 1] == e);
            },
            None => {},
        }
    }
}

/// Each pair of the scan of the first `n` instructions of `s` is an
/// instruction of `s` and an earlier instruction of `s` that it repeats.
proof fn lemma_scan_common(p: Program, s: Seq<usize>, n: int)
    requires
        0 <= n <= s.len(),
    ensures
        forall|k: int|
            0 <= k < scan(p, s, n).1.len() ==> common(p, (#[trigger] scan(p, s, n).1[k]).1, scan(p, s, n).1[k].0)
                && s.contains(scan(p, s, n).1[k].0) && s.contains(scan(p, s, n).1[k].1),
        forall|j: int| 0 <= j < scan(p, s, n).0.len() ==> s.contains(#[trigger] scan(p, s, n).0[j]),
    decreases n,
{
    if n > 0 {
        lemma_scan_common(p, s, n - 1);
        let prev = scan(p, s, n - 1);
        let v = s[n - 1];
        lemma_first_common(p, prev.0, v);
        let cur = scan(p, s, n);
        match first_common(p, prev.0, v) {
            Some(e) => {
                let x = choose|x: int| 0 <= x < prev.0.len() && prev.0[x] == e;
                assert(s.contains(prev.0[x]));
                assert forall|k: int| 0 <= k < cur.1.len() implies common(p, (#[trigger] cur.1[k]).1, cur.1[k].0)
                    && s.contains(cur.1[k].0) && s.contains(cur.1[k].1) by {
                    if k < prev.1.len() {
                        assert(cur.1[k] == prev.1[k]);
                    } else {
                        assert(cur.1[k] == (v, e));
                    }
                }
                assert forall|j: int| 0 <= j < cur.0.len() implies s.contains(#[trigger] cur.0[j]) by {
                    assert(cur.0[j] == prev.0[j]);
                }
            },
            None => {
                assert forall|k: int| 0 <= k < cur.1.len() implies common(p, (#[trigger] cur.1[k]).1, cur.1[k].0)
                    && s.contains(cur.1[k].0) && s.contains(cur.1[k].1) by {
                    assert(cur.1[k] == prev.1[k]);
                }
                assert forall|j: int| 0 <= j < cur.0.len() implies s.contains(#[trigger] cur.0[j]) by {
                    if j < prev.0.len() {
                        assert(cur.0[j] == prev.0[j]);
                    }
                }
            },
        }
    }
}

/// Each pair of the first `n` blocks of `lay` is two instructions of one
/// of them, the second repeated by the first.
proof fn lemma_pairs_common(p: Program, lay: Seq<usize>, n: int)
    requires
        0 <= n <= lay.len(),
    ensures
        forall|k: int|
            0 <= k < pairs_upto(p, lay, n).len() ==> common(
                p,
                (#[trigger] pairs_upto(p, lay, n)[k]).1,
                pairs_upto(p, lay, n)[k].0,
            ) && exists|b: int|
                0 <= b < n && p.blocks@[lay[b] as int].insts@.contains(pairs_upto(p, lay, n)[k].0)
                    && p.blocks@[lay[b] as int].insts@.contains(pairs_upto(p, lay, n)[k].1),
    decreases n,
{
    if n > 0 {
        lemma_pairs_common(p, lay, n - 1);
        let prev = pairs_upto(p, lay, n - 1);
        let s = p.blocks@[lay[n - 1] as int].insts@;
        lemma_scan_common(p, s, s.len() as int);
        let bs = block_scan(p, lay[n - 1]).1;
        let cur = pairs_upto(p, lay, n);
        assert forall|k: int| 0 <= k < cur.len() implies common(p, (#[trigger] cur[k]).1, cur[k].0) && exists|b: int|
            0 <= b < n && p.blocks@[lay[b] as int].insts@.contains(cur[k].0) && p.blocks@[lay[b] as int].insts@.contains(
                cur[k].1,
            ) by {
            if k < prev.len() {
                assert(cur[k] == prev[k]);
                let b = choose|b: int|
                    0 <= b < n - 1 && p.blocks@[lay[b] as int].insts@.contains(prev[k].0) && p.blocks@[
                        lay[b] as int].insts@.contains(prev[k].1);
            } else {
                assert(cur[k] == bs[k - prev.len()]);
                assert(common(p, bs[k - prev.len()].1, bs[k - prev.len()].0));
            }
        }
    }
}

/// Every instruction that the pass takes out of function `f` computes the
/// same number as the instruction that replaces it, under any numbering
/// that respects what values compute.
pub proof fn lemma_pairs_same_value(p: Program, f: usize, ev: spec_fn(usize) -> int)
    requires
        func_wf(p, f),
        sound_eval(p, ev),
    ensures
        forall|k: int|
            0 <= k < all_pairs(p, f).len() ==> ev((#[trigger] all_pairs(p, f)[k]).0) == ev(all_pairs(p, f)[k].1),
{
    let lay = p.funcs@[f as int].layout@;
    lemma_pairs_common(p, lay, lay.len() as int);
    assert forall|k: int| 0 <= k < all_pairs(p, f).len() implies ev((#[trigger] all_pairs(p, f)[k]).0) == ev(
        all_pairs(p, f)[k].1,
    ) by {
        let (v, e) = all_pairs(p, f)[k];
        let b = choose|b: int|
            0 <= b < lay.len() && p.blocks@[lay[b] as int].insts@.contains(v) && p.blocks@[lay[b] as int].insts@.contains(e);
        assert(all_below(lay, p.blocks@.len() as int));
        assert(all_below(p.blocks@[lay[b] as int].insts@, p.values@.len() as int));
        let iv = choose|i: int| 0 <= i < p.blocks@[lay[b] as int].insts@.len() && p.blocks@[lay[b] as int].insts@[i] == v;
        let ie = choose|i: int| 0 <= i < p.blocks@[lay[b] as int].insts@.len() && p.blocks@[lay[b] as int].insts@[i] == e;
        lemma_common_same_value(p, e, v, ev);
    }
}

/// The removal of common expressions within each block.
pub struct RemoveCommonExpression;

impl RemoveCommonExpression {
    /// One round: in each block of function `f`, an instruction that
    /// computes what an earlier instruction of the block that stays computes
    /// goes, and its uses are replaced by that instruction. Says whether any
    /// instruction went.
    pub fn work(&self, p: &mut Program, f: usize) -> (r: bool)
        requires
            func_wf(*old(p), f),
            stuck_free(*old(p), f),
        ensures
            func_wf(*final(p), f),
            work_done(*old(p), *final(p), f),
            r == (all_pairs(*old(p), f).len() > 0),
    {
        let ghost p0 = *p;
        let (kept, pairs) = plan(p, f);
        rewrite_func(p, f, &pairs);
        proof {
            assert(all_below(p.funcs@[f as int].layout@, p.blocks@.len() as int));
        }
        set_blocks(p, f, &kept);
        proof {
            let lay = p0.funcs@[f as int].layout@;
            assert forall|b: usize| b < p0.blocks@.len() implies (#[trigger] p.blocks@[b as int]).insts@ == if lay.contains(b) {
                block_scan(p0, b).0
            } else {
                p0.blocks@[b as int].insts@
            } by {
                if lay.contains(b) {
                    let j = choose|j: int| 0 <= j < lay.len() && lay[j] == b;
                    assert(p.blocks@[lay[j] as int].insts@ == kept@[j]@);
                }
            }
            // every instruction that stays stood in the same block before
            assert forall|j: int, v: usize| 0 <= j < lay.len() && #[trigger] p.blocks@[lay[j] as int].insts@.contains(v)
                implies p0.blocks@[lay[j] as int].insts@.contains(v) by {
                assert(p.blocks@[lay[j] as int].insts@ == kept@[j]@);
                lemma_kept_in_func(p0, f, j, v);
            }
            assert forall|b: int| 0 <= b < p.blocks@.len() implies all_below((#[trigger] p.blocks@[b]).params@, p.values@.len() as int)
                && all_below(p.blocks@[b].insts@, p.values@.len() as int) by {
                assert(all_below(p0.blocks@[b].params@, p0.values@.len() as int));
                assert(all_below(p0.blocks@[b].insts@, p0.values@.len() as int));
                let bu = b as usize;
                assert(p.blocks.len() == p.blocks@.len());
                assert(bu as int == b);
                if lay.contains(bu) {
                    let j = choose|j: int| 0 <= j < lay.len() && lay[j] == bu;
                    assert forall|k: int| 0 <= k < p.blocks@[b].insts@.len() implies (#[trigger] p.blocks@[b].insts@[k]) < p.values@.len() by {
                        assert(p.blocks@[lay[j] as int].insts@.contains(p.blocks@[b].insts@[k]));
                    }
                }
            }
            assert forall|bj: int| 0 <= bj < lay.len() implies {
                let insts = #[trigger] p.blocks@[lay[bj] as int].insts@;
                forall|i: int, j: int| 0 <= i < j < insts.len() ==> insts[i] != insts[j]
            } by {
                let s = p0.blocks@[lay[bj] as int].insts@;
                lemma_scan_parts(p0, s, s.len() as int);
                assert(p.blocks@[lay[bj] as int].insts@ == kept@[bj]@);
            }
        }
        pairs.len() > 0
    }

    /// Runs rounds of `work` on function `f` until none removes anything.
    /// Stops before a round in which an instruction that goes would stay
    /// used, and then says so by `false`.
    pub fn run_on(&mut self, p: &mut Program, f: usize) -> (r: bool)
        requires
            func_wf(*old(p), f),
        ensures
            func_wf(*final(p), f),
            final(p).funcs@ == old(p).funcs@,
            final(p).values@.len() == old(p).values@.len(),
            final(p).blocks@.len() == old(p).blocks@.len(),
            work_chain(*old(p), *final(p), f),
            r <==> all_pairs(*final(p), f).len() == 0,
            !r ==> !stuck_free(*final(p), f),
    {
        let ghost p0 = *p;
        let ghost mut chain: Seq<Program> = seq![p0];
        loop
            invariant
                p0 == *old(p),
                func_wf(*p, f),
                p.funcs@ == p0.funcs@,
                p.values@.len() == p0.values@.len(),
                p.blocks@.len() == p0.blocks@.len(),
                rounds(chain, f),
                chain[0] == p0,
                chain.last() == *p,
            decreases func_size(*p, f),
        {
            let (_, pairs) = plan(p, f);
            if pairs.len() == 0 {
                return true;
            }
            if !stuck_free_exec(p, f, &pairs) {
                return false;
            }
            let ghost before = *p;
            self.work(p, f);
            proof {
                let c2 = chain.push(*p);
                assert forall|i: int| 0 <= i < c2.len() - 1 implies round_step(#[trigger] c2[i], c2[i + 1], f) by {
                    if i < chain.len() - 1 {
                        assert(c2[i] == chain[i] && c2[i + 1] == chain[i + 1]);
                    } else {
                        assert(c2[i] == before);
                    }
                }
                chain = c2;
            }
            proof {
                let lay = before.funcs@[f as int].layout@;
                lemma_size_shrinks(before, *p, f, lay.len() as int);
                lemma_size_nonneg(*p, lay, lay.len() as int);
            }
        }
    }
}

} // verus!
