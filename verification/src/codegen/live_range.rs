use vstd::prelude::*;

use crate::ir::{targets, targets_block, uses, uses_value, Program, ValueKind};

verus! {

/// The instructions, by number, over which a value is live: from `begin` to
/// `end`, both included.
#[derive(Debug, Clone, Copy, PartialEq, Eq, Structural)]
pub struct Range {
    pub begin: u32,
    pub end: u32,
}

impl Range {
    pub fn new(begin: u32, end: u32) -> (r: Self)
        ensures
            r.begin == begin,
            r.end == end,
    {
        Self { begin, end }
    }
}

/// The live ranges of the values of each function, and the numbers of the
/// instructions of each function that clobber the caller-saved registers.
/// Functions and values are identified by number.
#[derive(Debug)]
pub struct LiveRange {
    pub ranges: Vec<(u32, Vec<(Range, u32)>)>,
    pub function_calls: Vec<(u32, Vec<u32>)>,
}

/// Whether the ranges come in order of their beginnings.
pub open spec fn sorted_by_begin(rs: Seq<(Range, u32)>) -> bool {
    forall|i: int, j: int| 0 <= i <= j < rs.len() ==> rs[i].0.begin <= rs[j].0.begin
}

/// Whether no value has two ranges.
pub open spec fn distinct_values(rs: Seq<(Range, u32)>) -> bool {
    forall|i: int, j: int| 0 <= i < j < rs.len() ==> rs[i].1 != rs[j].1
}

/// The calls recorded for function `fid`.
pub open spec fn calls_entry(calls: Seq<(u32, Vec<u32>)>, fid: u32) -> Option<Seq<u32>>
    decreases calls.len(),
{
    if calls.len() == 0 {
        None
    } else if calls.last().0 == fid {
        Some(calls.last().1@)
    } else {
        calls_entry(calls.drop_last(), fid)
    }
}

impl LiveRange {
    pub fn new() -> (r: Self)
        ensures
            r.ranges@.len() == 0,
            r.function_calls@.len() == 0,
    {
        Self { ranges: Vec::new(), function_calls: Vec::new() }
    }

    /// The recorded calls of function `fid`, the last record if there are several.
    pub fn calls_of(&self, fid: u32) -> (r: Option<&Vec<u32>>)
        ensures
            match r {
                Some(c) => calls_entry(self.function_calls@, fid) == Some(c@),
                None => calls_entry(self.function_calls@, fid) is None,
            },
    {
        let mut i = self.function_calls.len();
        proof {
            assert(self.function_calls@.subrange(0, i as int) =~= self.function_calls@);
        }
        while i > 0
            invariant
                i <= self.function_calls@.len(),
                calls_entry(self.function_calls@, fid) == calls_entry(self.function_calls@.subrange(0, i as int), fid),
            decreases i,
        {
            let ghost s = self.function_calls@.subrange(0, i as int);
            assert(s.last() == self.function_calls@[i - 1]);
            assert(s.drop_last() =~= self.function_calls@.subrange(0, i - 1));
            if self.function_calls[i - 1].0 == fid {
                return Some(&self.function_calls[i - 1].1);
            }
            i = i - 1;
        }
        None
    }

    /// A value live at the loop header but dying inside the loop, whose last
    /// instruction is `loop_end`, stays live until `loop_end`.
    pub fn update_use_in_loop(&mut self, idx: usize, loop_begin: u32, loop_end: u32)
        requires
            idx < old(self).ranges@.len(),
        ensures
            final(self).function_calls == old(self).function_calls,
            final(self).ranges@.len() == old(self).ranges@.len(),
            forall|k: int| 0 <= k < old(self).ranges@.len() && k != idx ==> #[trigger] final(self).ranges@[k] == old(
                self,
            ).ranges@[k],
            final(self).ranges@[idx as int].0 == old(self).ranges@[idx as int].0,
            final(self).ranges@[idx as int].1@.len() == old(self).ranges@[idx as int].1@.len(),
            forall|k: int| 0 <= k < old(self).ranges@[idx as int].1@.len() ==> {
                let (r, v) = #[trigger] old(self).ranges@[idx as int].1@[k];
                final(self).ranges@[idx as int].1@[k] == if r.begin < loop_begin && r.end >= loop_begin && r.end
                    < loop_end {
                    (Range { begin: r.begin, end: loop_end }, v)
                } else {
                    (r, v)
                }
            },
    {
        let entry = &mut self.ranges[idx];
        extend_in_loop(&mut entry.1, loop_begin, loop_end);
    }
}

} // verus!

verus! {

/// Whether `r` spans `def` and every use in `uses`, beginning at the
/// earliest of them.
pub open spec fn covers(r: Range, def: u32, uses: Seq<u32>) -> bool {
    &&& r.begin <= def <= r.end
    &&& forall|k: int| 0 <= k < uses.len() ==> r.begin <= #[trigger] uses[k] <= r.end
    &&& (r.begin == def || exists|k: int| 0 <= k < uses.len() && #[trigger] uses[k] == r.begin)
}

/// The smallest range that holds `def` and every use of `uses`.
pub fn range_over(def: u32, uses: &Vec<u32>) -> (r: Range)
    ensures
        covers(r, def, uses@),
        r.end == def || exists|k: int| 0 <= k < uses@.len() && #[trigger] uses@[k] == r.end,
{
    let mut r = Range::new(def, def);
    let mut i: usize = 0;
    while i < uses.len()
        invariant
            i <= uses@.len(),
            covers(r, def, uses@.subrange(0, i as int)),
            r.end == def || exists|k: int| 0 <= k < i && #[trigger] uses@[k] == r.end,
        decreases uses@.len() - i,
    {
        let u = uses[i];
        let ghost s = uses@.subrange(0, i + 1);
        proof {
            assert forall|k: int| 0 <= k < i implies #[trigger] s[k] == uses@.subrange(0, i as int)[k] by {}
            if r.begin != def {
                let k = choose|k: int| 0 <= k < i && #[trigger] uses@.subrange(0, i as int)[k] == r.begin;
                assert(s[k] == r.begin);
            }
        }
        if r.begin > u {
            r.begin = u;
        } else if r.end < u {
            r.end = u;
        }
        proof {
            assert(s[i as int] == u);
            assert forall|k: int| 0 <= k < s.len() implies r.begin <= #[trigger] s[k] <= r.end by {
                if k < i {
                    assert(s[k] == uses@.subrange(0, i as int)[k]);
                }
            }
        }
        i = i + 1;
    }
    assert(uses@.subrange(0, i as int) =~= uses@);
    r
}

} // verus!

verus! {

/// An instruction, as the analysis of live ranges sees it: the value it
/// defines, whether that value is used as an operand (its type is not unit),
/// whether it clobbers the caller-saved registers (a call, or a store of a
/// zero initializer), and the positions (block, instruction) of its users.
#[derive(Debug)]
pub struct InstInfo {
    pub value: u32,
    pub has_result: bool,
    pub clobbers: bool,
    pub users: Vec<(usize, usize)>,
}

/// A basic block: its parameters with the positions of their users, the
/// positions of the jumps and branches that lead to it, its instructions in
/// order, and the block it jumps to when it ends with a jump.
#[derive(Debug)]
pub struct BlockInfo {
    pub params: Vec<(u32, Vec<(usize, usize)>)>,
    pub preds: Vec<(usize, usize)>,
    pub insts: Vec<InstInfo>,
    pub jump_target: Option<usize>,
}

/// A function: its number, its parameters with the positions of their users,
/// and its blocks in layout order, the entry first; none for a declaration.
#[derive(Debug)]
pub struct FuncInfo {
    pub id: u32,
    pub params: Vec<(u32, Vec<(usize, usize)>)>,
    pub blocks: Vec<BlockInfo>,
}

/// The number of instructions in the blocks before block `b`.
pub open spec fn insts_before(bs: Seq<BlockInfo>, b: int) -> int
    decreases b,
{
    if b <= 0 {
        0
    } else {
        insts_before(bs, b - 1) + bs[b - 1].insts@.len()
    }
}

/// The number of the instruction at position `p`, when the first instruction
/// of the function has number `base`.
pub open spec fn num(f: FuncInfo, base: int, p: (usize, usize)) -> int {
    base + insts_before(f.blocks@, p.0 as int) + p.1
}

pub open spec fn nums(f: FuncInfo, base: int, ps: Seq<(usize, usize)>) -> Seq<u32> {
    ps.map_values(|p: (usize, usize)| num(f, base, p) as u32)
}

/// The smallest number among the positions, or `u32::MAX` for none.
pub open spec fn min_num(f: FuncInfo, base: int, ps: Seq<(usize, usize)>) -> u32
    decreases ps.len(),
{
    if ps.len() == 0 {
        u32::MAX
    } else {
        let m = min_num(f, base, ps.drop_last());
        let n = num(f, base, ps.last()) as u32;
        if n < m {
            n
        } else {
            m
        }
    }
}

/// Whether a position names an instruction of the function.
pub open spec fn valid_pos(f: FuncInfo, p: (usize, usize)) -> bool {
    p.0 < f.blocks@.len() && p.1 < f.blocks@[p.0 as int].insts@.len()
}

pub open spec fn valid_positions(f: FuncInfo, ps: Seq<(usize, usize)>) -> bool {
    forall|k: int| 0 <= k < ps.len() ==> valid_pos(f, #[trigger] ps[k])
}

/// Whether the function is well formed for the analysis, its instructions
/// numbered from `base` on.
pub open spec fn func_ok(f: FuncInfo, base: int) -> bool {
    &&& f.blocks@.len() > 0
    &&& 0 <= base
    &&& base + insts_before(f.blocks@, f.blocks@.len() as int) < u32::MAX
    &&& forall|b: int| 0 <= b < f.blocks@.len() ==> (#[trigger] f.blocks@[b]).insts@.len() > 0
    &&& forall|k: int| 0 <= k < f.params@.len() ==> valid_positions(f, (#[trigger] f.params@[k]).1@)
    &&& forall|b: int|
        0 <= b < f.blocks@.len() ==> {
            let blk = #[trigger] f.blocks@[b];
            &&& valid_positions(f, blk.preds@)
            &&& forall|k: int| 0 <= k < blk.params@.len() ==> valid_positions(f, (#[trigger] blk.params@[k]).1@)
            &&& forall|k: int| 0 <= k < blk.insts@.len() ==> valid_positions(f, (#[trigger] blk.insts@[k]).users@)
            &&& match blk.jump_target {
                Some(t) => t < f.blocks@.len(),
                None => true,
            }
        }
}

/// A value with the number where it is defined and the numbers where it is used.
pub type Site = (u32, u32, Seq<u32>);

/// The parameters of the function, defined at its first instruction.
pub open spec fn param_sites(f: FuncInfo, base: int) -> Seq<Site> {
    f.params@.map_values(|p: (u32, Vec<(usize, usize)>)| (p.0, base as u32, nums(f, base, p.1@)))
}

/// The parameters of block `b`, defined at the earliest jump that leads to it.
pub open spec fn bparam_sites(f: FuncInfo, base: int, b: int) -> Seq<Site> {
    f.blocks@[b].params@.map_values(
        |q: (u32, Vec<(usize, usize)>)| (q.0, min_num(f, base, f.blocks@[b].preds@), nums(f, base, q.1@)),
    )
}

/// The values that the first `n` instructions of block `b` define.
pub open spec fn inst_sites(f: FuncInfo, base: int, b: int, n: int) -> Seq<Site>
    decreases n,
{
    if n <= 0 {
        Seq::empty()
    } else {
        let rest = inst_sites(f, base, b, n - 1);
        let ins = f.blocks@[b].insts@[n - 1];
        if ins.has_result {
            rest.push((ins.value, (base + insts_before(f.blocks@, b) + n - 1) as u32, nums(f, base, ins.users@)))
        } else {
            rest
        }
    }
}

pub open spec fn block_sites(f: FuncInfo, base: int, b: int) -> Seq<Site> {
    bparam_sites(f, base, b) + inst_sites(f, base, b, f.blocks@[b].insts@.len() as int)
}

/// The values of the first `n` blocks, block by block.
pub open spec fn blocks_sites(f: FuncInfo, base: int, n: int) -> Seq<Site>
    decreases n,
{
    if n <= 0 {
        Seq::empty()
    } else {
        blocks_sites(f, base, n - 1) + block_sites(f, base, n - 1)
    }
}

/// Every value of the function that the analysis gives a range: its
/// parameters, then, block by block, the parameters of the block and the
/// values its instructions define.
pub open spec fn site_list(f: FuncInfo, base: int) -> Seq<Site> {
    param_sites(f, base) + blocks_sites(f, base, f.blocks@.len() as int)
}

/// Whether `src` and `dst` match the entries of `out` with the sites, one
/// for one: each entry is a range of the value of its site that covers it.
pub open spec fn cover_maps(out: Seq<(Range, u32)>, sites: Seq<Site>, src: Seq<int>, dst: Seq<int>) -> bool {
    &&& out.len() == sites.len()
    &&& src.len() == out.len()
    &&& dst.len() == sites.len()
    &&& forall|k: int|
        0 <= k < out.len() ==> 0 <= #[trigger] src[k] < sites.len() && out[k].1 == sites[src[k]].0 && covers(
            out[k].0,
            sites[src[k]].1,
            sites[src[k]].2,
        ) && dst[src[k]] == k
    &&& forall|j: int|
        0 <= j < sites.len() ==> 0 <= #[trigger] dst[j] < out.len() && out[dst[j]].1 == sites[j].0 && covers(
            out[dst[j]].0,
            sites[j].1,
            sites[j].2,
        ) && src[dst[j]] == j
}

/// Whether `out` gives each site a range that covers it, and nothing else:
/// its entries and the sites match one for one.
pub open spec fn ranges_cover(out: Seq<(Range, u32)>, sites: Seq<Site>) -> bool {
    exists|src: Seq<int>, dst: Seq<int>| #[trigger] cover_maps(out, sites, src, dst)
}

proof fn lemma_insts_before_mono(bs: Seq<BlockInfo>, a: int, b: int)
    requires
        0 <= a <= b <= bs.len(),
    ensures
        insts_before(bs, a) <= insts_before(bs, b),
        0 <= insts_before(bs, a),
    decreases b - a,
{
    if a < b {
        lemma_insts_before_mono(bs, a, b - 1);
    } else {
        lemma_insts_before_nonneg(bs, a);
    }
}

proof fn lemma_insts_before_nonneg(bs: Seq<BlockInfo>, a: int)
    ensures
        0 <= insts_before(bs, a),
    decreases a,
{
    if a > 0 {
        lemma_insts_before_nonneg(bs, a - 1);
    }
}

/// A valid position has a number below the end of the function.
proof fn lemma_num_bound(f: FuncInfo, base: int, p: (usize, usize))
    requires
        func_ok(f, base),
        valid_pos(f, p),
    ensures
        base <= num(f, base, p) < base + insts_before(f.blocks@, f.blocks@.len() as int),
{
    lemma_insts_before_mono(f.blocks@, p.0 + 1, f.blocks@.len() as int);
    lemma_insts_before_nonneg(f.blocks@, p.0 as int);
}

/// The number of the first instruction of each block.
fn block_starts(f: &FuncInfo, base: u32) -> (r: Vec<u32>)
    requires
        func_ok(*f, base as int),
    ensures
        r@.len() == f.blocks@.len(),
        forall|b: int| 0 <= b < r@.len() ==> #[trigger] r@[b] == base + insts_before(f.blocks@, b),
{
    let mut r: Vec<u32> = Vec::new();
    let mut acc: u32 = base;
    let mut b: usize = 0;
    while b < f.blocks.len()
        invariant
            func_ok(*f, base as int),
            b <= f.blocks@.len(),
            r@.len() == b,
            acc == base + insts_before(f.blocks@, b as int),
            forall|k: int| 0 <= k < b ==> #[trigger] r@[k] == base + insts_before(f.blocks@, k),
        decreases f.blocks@.len() - b,
    {
        r.push(acc);
        proof {
            lemma_insts_before_mono(f.blocks@, b + 1, f.blocks@.len() as int);
        }
        acc = acc + f.blocks[b].insts.len() as u32;
        b = b + 1;
    }
    r
}

/// The numbers of the instructions at the positions.
fn numbers(f: &FuncInfo, base: u32, starts: &Vec<u32>, ps: &Vec<(usize, usize)>) -> (r: Vec<u32>)
    requires
        func_ok(*f, base as int),
        starts@.len() == f.blocks@.len(),
        forall|b: int| 0 <= b < starts@.len() ==> #[trigger] starts@[b] == base + insts_before(f.blocks@, b),
        valid_positions(*f, ps@),
    ensures
        r@ == nums(*f, base as int, ps@),
{
    let mut r: Vec<u32> = Vec::new();
    let mut i: usize = 0;
    while i < ps.len()
        invariant
            func_ok(*f, base as int),
            starts@.len() == f.blocks@.len(),
            forall|b: int| 0 <= b < starts@.len() ==> #[trigger] starts@[b] == base + insts_before(f.blocks@, b),
            valid_positions(*f, ps@),
            i <= ps@.len(),
            r@ == nums(*f, base as int, ps@.subrange(0, i as int)),
        decreases ps@.len() - i,
    {
        let (b, k) = ps[i];
        proof {
            assert(valid_pos(*f, ps@[i as int]));
            lemma_num_bound(*f, base as int, ps@[i as int]);
        }
        r.push(starts[b] + k as u32);
        proof {
            assert(r@ =~= nums(*f, base as int, ps@.subrange(0, i + 1)));
        }
        i = i + 1;
    }
    assert(ps@.subrange(0, i as int) =~= ps@);
    r
}

/// The earliest number among the positions, or `u32::MAX` for none.
fn min_number(f: &FuncInfo, base: u32, starts: &Vec<u32>, ps: &Vec<(usize, usize)>) -> (r: u32)
    requires
        func_ok(*f, base as int),
        starts@.len() == f.blocks@.len(),
        forall|b: int| 0 <= b < starts@.len() ==> #[trigger] starts@[b] == base + insts_before(f.blocks@, b),
        valid_positions(*f, ps@),
    ensures
        r == min_num(*f, base as int, ps@),
{
    let mut m: u32 = u32::MAX;
    let mut i: usize = 0;
    while i < ps.len()
        invariant
            func_ok(*f, base as int),
            starts@.len() == f.blocks@.len(),
            forall|b: int| 0 <= b < starts@.len() ==> #[trigger] starts@[b] == base + insts_before(f.blocks@, b),
            valid_positions(*f, ps@),
            i <= ps@.len(),
            m == min_num(*f, base as int, ps@.subrange(0, i as int)),
        decreases ps@.len() - i,
    {
        let (b, k) = ps[i];
        proof {
            assert(valid_pos(*f, ps@[i as int]));
            lemma_num_bound(*f, base as int, ps@[i as int]);
            assert(ps@.subrange(0, i + 1).drop_last() =~= ps@.subrange(0, i as int));
        }
        let n = starts[b] + k as u32;
        if n < m {
            m = n;
        }
        i = i + 1;
    }
    assert(ps@.subrange(0, i as int) =~= ps@);
    m
}

/// Extends to `loop_end` the ranges that begin before the loop header at
/// `loop_begin`, reach it, and end inside the loop.
fn extend_in_loop(rs: &mut Vec<(Range, u32)>, loop_begin: u32, loop_end: u32)
    ensures
        final(rs)@.len() == old(rs)@.len(),
        forall|k: int| 0 <= k < old(rs)@.len() ==> {
            let (r, v) = #[trigger] old(rs)@[k];
            final(rs)@[k] == if r.begin < loop_begin && r.end >= loop_begin && r.end < loop_end {
                (Range { begin: r.begin, end: loop_end }, v)
            } else {
                (r, v)
            }
        },
{
    let n = rs.len();
    let mut i: usize = 0;
    while i < n
        invariant
            n == old(rs)@.len(),
            rs@.len() == n,
            i <= n,
            forall|k: int| i <= k < n ==> #[trigger] rs@[k] == old(rs)@[k],
            forall|k: int| 0 <= k < i ==> {
                let (r, v) = #[trigger] old(rs)@[k];
                rs@[k] == if r.begin < loop_begin && r.end >= loop_begin && r.end < loop_end {
                    (Range { begin: r.begin, end: loop_end }, v)
                } else {
                    (r, v)
                }
            },
        decreases n - i,
    {
        let (r, v) = rs[i];
        if r.begin < loop_begin && r.end >= loop_begin && r.end < loop_end {
            rs.set(i, (Range { begin: r.begin, end: loop_end }, v));
        }
        i = i + 1;
    }
}

} // verus!

verus! {

/// Inserting `e` at `pos` of a sorted list, after the entries that begin no
/// later, keeps it sorted.
proof fn lemma_sorted_insert(o: Seq<(Range, u32)>, pos: int, e: (Range, u32))
    requires
        0 <= pos <= o.len(),
        sorted_by_begin(o),
        forall|a: int| 0 <= a < pos ==> (#[trigger] o[a]).0.begin <= e.0.begin,
        pos < o.len() ==> o[pos].0.begin > e.0.begin,
    ensures
        sorted_by_begin(o.insert(pos, e)),
{
    let s = o.insert(pos, e);
    assert forall|a: int, b: int| 0 <= a <= b < s.len() implies s[a].0.begin <= s[b].0.begin by {
        if b < pos {
            assert(s[a] == o[a] && s[b] == o[b]);
        } else if b == pos {
            if a < pos {
                assert(s[a] == o[a]);
            }
        } else {
            assert(s[b] == o[b - 1]);
            if a < pos {
                assert(s[a] == o[a]);
            } else if a > pos {
                assert(s[a] == o[a - 1]);
            }
        }
    }
}

/// The entries of `rs` in order of the beginnings of their ranges; entries
/// that begin together keep their order. The ghost maps give, for each
/// entry of the result, where it was in `rs`, and the other way round.
fn sort_by_begin(rs: &Vec<(Range, u32)>) -> (res: (Vec<(Range, u32)>, Ghost<(Seq<int>, Seq<int>)>))
    ensures
        sorted_by_begin(res.0@),
        res.0@.len() == rs@.len(),
        res.1@.0.len() == rs@.len(),
        res.1@.1.len() == rs@.len(),
        forall|k: int| 0 <= k < rs@.len() ==> 0 <= #[trigger] res.1@.0[k] < rs@.len() && res.0@[k] == rs@[res.1@.0[k]]
            && res.1@.1[res.1@.0[k]] == k,
        forall|i: int| 0 <= i < rs@.len() ==> 0 <= #[trigger] res.1@.1[i] < rs@.len() && res.0@[res.1@.1[i]] == rs@[i]
            && res.1@.0[res.1@.1[i]] == i,
{
    let mut out: Vec<(Range, u32)> = Vec::new();
    let ghost mut src: Seq<int> = Seq::empty();
    let ghost mut dst: Seq<int> = Seq::empty();
    let mut j: usize = 0;
    while j < rs.len()
        invariant
            j <= rs@.len(),
            out@.len() == j,
            src.len() == j,
            dst.len() == j,
            sorted_by_begin(out@),
            forall|k: int| 0 <= k < j ==> 0 <= #[trigger] src[k] < j && out@[k] == rs@[src[k]] && dst[src[k]] == k,
            forall|i: int| 0 <= i < j ==> 0 <= #[trigger] dst[i] < j && out@[dst[i]] == rs@[i] && src[dst[i]] == i,
        decreases rs@.len() - j,
    {
        let e = rs[j];
        let mut pos: usize = 0;
        while pos < out.len() && out[pos].0.begin <= e.0.begin
            invariant
                pos <= out@.len(),
                forall|a: int| 0 <= a < pos ==> (#[trigger] out@[a]).0.begin <= e.0.begin,
            decreases out@.len() - pos,
        {
            pos = pos + 1;
        }
        proof {
            if pos < out@.len() {
                assert(out@[pos as int].0.begin > e.0.begin);
            }
            lemma_sorted_insert(out@, pos as int, e);
        }
        let ghost o = out@;
        out.insert(pos, e);
        proof {
            let p = pos as int;
            let src2 = src.insert(p, j as int);
            let dst2 = Seq::new((j + 1) as nat, |i: int| if i == j { p } else if dst[i] >= p { dst[i] + 1 } else { dst[i] });
            assert forall|k: int| 0 <= k < j + 1 implies 0 <= #[trigger] src2[k] < j + 1 && out@[k] == rs@[src2[k]]
                && dst2[src2[k]] == k by {
                if k < p {
                    assert(src2[k] == src[k] && out@[k] == o[k]);
                    assert(dst[src[k]] == k);
                } else if k > p {
                    assert(src2[k] == src[k - 1] && out@[k] == o[k - 1]);
                    assert(dst[src[k - 1]] == k - 1);
                }
            }
            assert forall|i: int| 0 <= i < j + 1 implies 0 <= #[trigger] dst2[i] < j + 1 && out@[dst2[i]] == rs@[i]
                && src2[dst2[i]] == i by {
                if i < j {
                    if dst[i] >= p {
                        assert(out@[dst[i] + 1] == o[dst[i]]);
                        assert(src2[dst[i] + 1] == src[dst[i]]);
                    } else {
                        assert(out@[dst[i]] == o[dst[i]]);
                        assert(src2[dst[i]] == src[dst[i]]);
                    }
                }
            }
            src = src2;
            dst = dst2;
        }
        j = j + 1;
    }
    (out, Ghost((src, dst)))
}

/// Sorting entries aligned with the sites leaves every site covered once.
proof fn lemma_sorted_cover(out: Seq<(Range, u32)>, rs: Seq<(Range, u32)>, sites: Seq<Site>, src: Seq<int>, dst: Seq<int>)
    requires
        aligned(rs, sites),
        out.len() == rs.len(),
        src.len() == rs.len(),
        dst.len() == rs.len(),
        forall|k: int| 0 <= k < rs.len() ==> 0 <= #[trigger] src[k] < rs.len() && out[k] == rs[src[k]] && dst[src[k]] == k,
        forall|i: int| 0 <= i < rs.len() ==> 0 <= #[trigger] dst[i] < rs.len() && out[dst[i]] == rs[i] && src[dst[i]] == i,
    ensures
        ranges_cover(out, sites),
{
    assert forall|k: int| 0 <= k < out.len() implies 0 <= #[trigger] src[k] < sites.len() && out[k].1 == sites[src[k]].0
        && covers(out[k].0, sites[src[k]].1, sites[src[k]].2) && dst[src[k]] == k by {
        assert(out[k] == rs[src[k]]);
    }
    assert forall|j: int| 0 <= j < sites.len() implies 0 <= #[trigger] dst[j] < out.len() && out[dst[j]].1 == sites[j].0
        && covers(out[dst[j]].0, sites[j].1, sites[j].2) && src[dst[j]] == j by {
        assert(out[dst[j]] == rs[j]);
    }
    assert(cover_maps(out, sites, src, dst));
}

/// A range that grows at its end still covers what it covered.
proof fn lemma_covers_extend(r: Range, def: u32, uses: Seq<u32>, end: u32)
    requires
        covers(r, def, uses),
        r.end <= end,
    ensures
        covers(Range { begin: r.begin, end }, def, uses),
{
}

/// Whether entry `k` of `rs` is a range of site `k` that covers it.
pub open spec fn aligned(rs: Seq<(Range, u32)>, sites: Seq<Site>) -> bool {
    &&& rs.len() == sites.len()
    &&& forall|k: int| 0 <= k < rs.len() ==> (#[trigger] rs[k]).1 == sites[k].0 && covers(rs[k].0, sites[k].1, sites[k].2)
}

proof fn lemma_aligned_extend(rs: Seq<(Range, u32)>, rs2: Seq<(Range, u32)>, sites: Seq<Site>, lb: u32, le: u32)
    requires
        aligned(rs, sites),
        rs2.len() == rs.len(),
        forall|k: int| 0 <= k < rs.len() ==> {
            let (r, v) = #[trigger] rs[k];
            rs2[k] == if r.begin < lb && r.end >= lb && r.end < le {
                (Range { begin: r.begin, end: le }, v)
            } else {
                (r, v)
            }
        },
    ensures
        aligned(rs2, sites),
{
    assert forall|k: int| 0 <= k < rs2.len() implies (#[trigger] rs2[k]).1 == sites[k].0 && covers(
        rs2[k].0,
        sites[k].1,
        sites[k].2,
    ) by {
        let (r, v) = rs[k];
        if r.begin < lb && r.end >= lb && r.end < le {
            lemma_covers_extend(r, sites[k].1, sites[k].2, le);
        }
    }
}

/// The live range of every value of the function, in order of their
/// beginnings: each range begins where its value is first defined or used,
/// and reaches every use; a range that reaches a loop header from before the
/// loop and ends inside the loop is extended to the jump that closes it.
pub fn ranges_of_function(f: &FuncInfo, base: u32) -> (out: Vec<(Range, u32)>)
    requires
        func_ok(*f, base as int),
    ensures
        sorted_by_begin(out@),
        ranges_cover(out@, site_list(*f, base as int)),
{
    let ghost fb = base as int;
    let starts = block_starts(f, base);
    let mut rs: Vec<(Range, u32)> = Vec::new();
    let ghost mut sites: Seq<Site> = Seq::empty();
    let mut k: usize = 0;
    while k < f.params.len()
        invariant
            func_ok(*f, fb),
            fb == base,
            starts@.len() == f.blocks@.len(),
            forall|b: int| 0 <= b < starts@.len() ==> #[trigger] starts@[b] == base + insts_before(f.blocks@, b),
            k <= f.params@.len(),
            sites == param_sites(*f, fb).subrange(0, k as int),
            aligned(rs@, sites),
        decreases f.params@.len() - k,
    {
        proof {
            assert(valid_positions(*f, f.params@[k as int].1@));
        }
        let us = numbers(f, base, &starts, &f.params[k].1);
        let r = range_over(starts[0], &us);
        rs.push((r, f.params[k].0));
        proof {
            assert(insts_before(f.blocks@, 0) == 0);
            sites = sites.push(param_sites(*f, fb)[k as int]);
            assert(sites =~= param_sites(*f, fb).subrange(0, k + 1));
        }
        k = k + 1;
    }
    proof {
        assert(sites =~= param_sites(*f, fb) + blocks_sites(*f, fb, 0));
    }
    let mut b: usize = 0;
    while b < f.blocks.len()
        invariant
            func_ok(*f, fb),
            fb == base,
            starts@.len() == f.blocks@.len(),
            forall|b2: int| 0 <= b2 < starts@.len() ==> #[trigger] starts@[b2] == base + insts_before(f.blocks@, b2),
            b <= f.blocks@.len(),
            sites == param_sites(*f, fb) + blocks_sites(*f, fb, b as int),
            aligned(rs@, sites),
        decreases f.blocks@.len() - b,
    {
        let blk = &f.blocks[b];
        proof {
            assert(f.blocks@[b as int] == *blk);
            lemma_insts_before_mono(f.blocks@, b + 1, f.blocks@.len() as int);
        }
        let def = min_number(f, base, &starts, &blk.preds);
        let ghost before = sites;
        let mut q: usize = 0;
        while q < blk.params.len()
            invariant
                func_ok(*f, fb),
                fb == base,
                b < f.blocks@.len(),
                *blk == f.blocks@[b as int],
                starts@.len() == f.blocks@.len(),
                forall|b2: int| 0 <= b2 < starts@.len() ==> #[trigger] starts@[b2] == base + insts_before(f.blocks@, b2),
                def == min_num(*f, fb, blk.preds@),
                q <= blk.params@.len(),
                sites == before + bparam_sites(*f, fb, b as int).subrange(0, q as int),
                aligned(rs@, sites),
            decreases blk.params@.len() - q,
        {
            proof {
                assert(valid_positions(*f, blk.params@[q as int].1@));
            }
            let us = numbers(f, base, &starts, &blk.params[q].1);
            let r = range_over(def, &us);
            rs.push((r, blk.params[q].0));
            proof {
                sites = sites.push(bparam_sites(*f, fb, b as int)[q as int]);
                assert(sites =~= before + bparam_sites(*f, fb, b as int).subrange(0, q + 1));
            }
            q = q + 1;
        }
        proof {
            assert(sites =~= before + bparam_sites(*f, fb, b as int) + inst_sites(*f, fb, b as int, 0));
        }
        let mut i: usize = 0;
        while i < blk.insts.len()
            invariant
                func_ok(*f, fb),
                fb == base,
                b < f.blocks@.len(),
                *blk == f.blocks@[b as int],
                starts@.len() == f.blocks@.len(),
                forall|b2: int| 0 <= b2 < starts@.len() ==> #[trigger] starts@[b2] == base + insts_before(f.blocks@, b2),
                base + insts_before(f.blocks@, b + 1) < u32::MAX,
                i <= blk.insts@.len(),
                sites == before + bparam_sites(*f, fb, b as int) + inst_sites(*f, fb, b as int, i as int),
                aligned(rs@, sites),
            decreases blk.insts@.len() - i,
        {
            let ins = &blk.insts[i];
            if ins.has_result {
                proof {
                    assert(valid_positions(*f, blk.insts@[i as int].users@));
                }
                let us = numbers(f, base, &starts, &ins.users);
                let r = range_over(starts[b] + i as u32, &us);
                rs.push((r, ins.value));
                proof {
                    let s2 = inst_sites(*f, fb, b as int, i + 1);
                    assert(s2 == inst_sites(*f, fb, b as int, i as int).push(
                        (ins.value, (fb + insts_before(f.blocks@, b as int) + i) as u32, nums(*f, fb, ins.users@)),
                    ));
                    sites = sites.push((ins.value, (fb + insts_before(f.blocks@, b as int) + i) as u32, nums(*f, fb, ins.users@)));
                    assert(sites =~= before + bparam_sites(*f, fb, b as int) + inst_sites(*f, fb, b as int, i + 1));
                }
            } else {
                proof {
                    assert(inst_sites(*f, fb, b as int, i + 1) == inst_sites(*f, fb, b as int, i as int));
                }
            }
            i = i + 1;
        }
        if let Some(t) = blk.jump_target {
            if t <= b {
                let ghost rs0 = rs@;
                let end = starts[b] + (blk.insts.len() - 1) as u32;
                extend_in_loop(&mut rs, starts[t], end);
                proof {
                    lemma_aligned_extend(rs0, rs@, sites, starts@[t as int], end);
                }
            }
        }
        proof {
            assert(sites =~= param_sites(*f, fb) + blocks_sites(*f, fb, b + 1));
        }
        b = b + 1;
    }
    let (out, maps) = sort_by_begin(&rs);
    proof {
        lemma_sorted_cover(out@, rs@, sites, maps@.0, maps@.1);
    }
    out
}

} // verus!

verus! {

/// The number of instructions of a function.
pub open spec fn total_insts(f: FuncInfo) -> int {
    insts_before(f.blocks@, f.blocks@.len() as int)
}

/// The number of the first instruction of function `i` when the
/// instructions of all functions are numbered one after another.
pub open spec fn base_of(fs: Seq<FuncInfo>, i: int) -> int
    decreases i,
{
    if i <= 0 {
        0
    } else {
        base_of(fs, i - 1) + total_insts(fs[i - 1])
    }
}

/// The number of functions with a body before function `i`.
pub open spec fn defined_before(fs: Seq<FuncInfo>, i: int) -> int
    decreases i,
{
    if i <= 0 {
        0
    } else {
        defined_before(fs, i - 1) + if fs[i - 1].blocks@.len() > 0 {
            1int
        } else {
            0int
        }
    }
}

/// Whether every function with a body is well formed for the analysis, and
/// all the numbers fit.
pub open spec fn funcs_ok(fs: Seq<FuncInfo>) -> bool {
    &&& forall|i: int| 0 <= i < fs.len() && (#[trigger] fs[i]).blocks@.len() > 0 ==> func_ok(fs[i], base_of(fs, i))
    &&& base_of(fs, fs.len() as int) < u32::MAX
}

/// The numbers of the first `n` instructions of block `b` that clobber the
/// caller-saved registers.
pub open spec fn inst_clobbers(f: FuncInfo, base: int, b: int, n: int) -> Seq<u32>
    decreases n,
{
    if n <= 0 {
        Seq::empty()
    } else {
        let rest = inst_clobbers(f, base, b, n - 1);
        if f.blocks@[b].insts@[n - 1].clobbers {
            rest.push((base + insts_before(f.blocks@, b) + n - 1) as u32)
        } else {
            rest
        }
    }
}

pub open spec fn blocks_clobbers(f: FuncInfo, base: int, n: int) -> Seq<u32>
    decreases n,
{
    if n <= 0 {
        Seq::empty()
    } else {
        blocks_clobbers(f, base, n - 1) + inst_clobbers(f, base, n - 1, f.blocks@[n - 1].insts@.len() as int)
    }
}

/// The numbers of the instructions of the function that clobber the
/// caller-saved registers, in order.
pub open spec fn clobbers_of(f: FuncInfo, base: int) -> Seq<u32> {
    blocks_clobbers(f, base, f.blocks@.len() as int)
}

/// The numbers of the instructions that clobber the caller-saved registers.
fn clobber_numbers(f: &FuncInfo, base: u32) -> (r: Vec<u32>)
    requires
        func_ok(*f, base as int),
    ensures
        r@ == clobbers_of(*f, base as int),
{
    let starts = block_starts(f, base);
    let mut r: Vec<u32> = Vec::new();
    let mut b: usize = 0;
    while b < f.blocks.len()
        invariant
            func_ok(*f, base as int),
            starts@.len() == f.blocks@.len(),
            forall|b2: int| 0 <= b2 < starts@.len() ==> #[trigger] starts@[b2] == base + insts_before(f.blocks@, b2),
            b <= f.blocks@.len(),
            r@ == blocks_clobbers(*f, base as int, b as int),
        decreases f.blocks@.len() - b,
    {
        let blk = &f.blocks[b];
        proof {
            lemma_insts_before_mono(f.blocks@, b + 1, f.blocks@.len() as int);
        }
        let ghost before = r@;
        let mut i: usize = 0;
        while i < blk.insts.len()
            invariant
                b < f.blocks@.len(),
                *blk == f.blocks@[b as int],
                starts@.len() == f.blocks@.len(),
                starts@[b as int] == base + insts_before(f.blocks@, b as int),
                base + insts_before(f.blocks@, b + 1) < u32::MAX,
                i <= blk.insts@.len(),
                r@ == before + inst_clobbers(*f, base as int, b as int, i as int),
            decreases blk.insts@.len() - i,
        {
            if blk.insts[i].clobbers {
                r.push(starts[b] + i as u32);
            }
            proof {
                assert(r@ =~= before + inst_clobbers(*f, base as int, b as int, i + 1));
            }
            i = i + 1;
        }
        b = b + 1;
    }
    r
}

proof fn lemma_base_of_mono(fs: Seq<FuncInfo>, a: int, b: int)
    requires
        0 <= a <= b <= fs.len(),
    ensures
        base_of(fs, a) <= base_of(fs, b),
        0 <= base_of(fs, a),
    decreases b - a,
{
    if a < b {
        lemma_base_of_mono(fs, a, b - 1);
        lemma_insts_before_nonneg(fs[b - 1].blocks@, fs[b - 1].blocks@.len() as int);
    } else {
        lemma_base_of_nonneg(fs, a);
    }
}

proof fn lemma_base_of_nonneg(fs: Seq<FuncInfo>, a: int)
    ensures
        0 <= base_of(fs, a),
    decreases a,
{
    if a > 0 {
        lemma_base_of_nonneg(fs, a - 1);
        lemma_insts_before_nonneg(fs[a - 1].blocks@, fs[a - 1].blocks@.len() as int);
    }
}

impl LiveRange {
    /// Numbers the instructions of all functions one after another and, for
    /// each function with a body, in order, records the numbers of its
    /// instructions that clobber the caller-saved registers and the live
    /// ranges of its values.
    pub fn analyze(&mut self, funcs: &Vec<FuncInfo>)
        requires
            funcs_ok(funcs@),
        ensures
            final(self).ranges@.len() == old(self).ranges@.len() + defined_before(funcs@, funcs@.len() as int),
            final(self).function_calls@.len() == old(self).function_calls@.len() + defined_before(
                funcs@,
                funcs@.len() as int,
            ),
            forall|k: int| 0 <= k < old(self).ranges@.len() ==> #[trigger] final(self).ranges@[k] == old(self).ranges@[k],
            forall|k: int|
                0 <= k < old(self).function_calls@.len() ==> #[trigger] final(self).function_calls@[k] == old(
                    self,
                ).function_calls@[k],
            forall|i: int|
                0 <= i < funcs@.len() && (#[trigger] funcs@[i]).blocks@.len() > 0 ==> {
                    let k = old(self).ranges@.len() + defined_before(funcs@, i);
                    let kc = old(self).function_calls@.len() + defined_before(funcs@, i);
                    &&& final(self).ranges@[k].0 == funcs@[i].id
                    &&& sorted_by_begin(final(self).ranges@[k].1@)
                    &&& ranges_cover(final(self).ranges@[k].1@, site_list(funcs@[i], base_of(funcs@, i)))
                    &&& final(self).function_calls@[kc].0 == funcs@[i].id
                    &&& final(self).function_calls@[kc].1@ == clobbers_of(funcs@[i], base_of(funcs@, i))
                },
    {
        let mut base: u32 = 0;
        let mut i: usize = 0;
        while i < funcs.len()
            invariant
                funcs_ok(funcs@),
                i <= funcs@.len(),
                base == base_of(funcs@, i as int),
                self.ranges@.len() == old(self).ranges@.len() + defined_before(funcs@, i as int),
                self.function_calls@.len() == old(self).function_calls@.len() + defined_before(funcs@, i as int),
                forall|k: int| 0 <= k < old(self).ranges@.len() ==> #[trigger] self.ranges@[k] == old(self).ranges@[k],
                forall|k: int|
                    0 <= k < old(self).function_calls@.len() ==> #[trigger] self.function_calls@[k] == old(
                        self,
                    ).function_calls@[k],
                forall|j: int|
                    0 <= j < i && (#[trigger] funcs@[j]).blocks@.len() > 0 ==> {
                        let k = old(self).ranges@.len() + defined_before(funcs@, j);
                        let kc = old(self).function_calls@.len() + defined_before(funcs@, j);
                        &&& self.ranges@[k].0 == funcs@[j].id
                        &&& sorted_by_begin(self.ranges@[k].1@)
                        &&& ranges_cover(self.ranges@[k].1@, site_list(funcs@[j], base_of(funcs@, j)))
                        &&& self.function_calls@[kc].0 == funcs@[j].id
                        &&& self.function_calls@[kc].1@ == clobbers_of(funcs@[j], base_of(funcs@, j))
                    },
            decreases funcs@.len() - i,
        {
            let f = &funcs[i];
            proof {
                lemma_base_of_mono(funcs@, i + 1, funcs@.len() as int);
                lemma_defined_before_mono(funcs@, i as int);
                lemma_insts_before_nonneg(f.blocks@, f.blocks@.len() as int);
            }
            let ghost r0 = self.ranges@;
            let ghost c0 = self.function_calls@;
            if f.blocks.len() > 0 {
                proof {
                    assert(func_ok(funcs@[i as int], base_of(funcs@, i as int)));
                }
                let calls = clobber_numbers(f, base);
                let rs = ranges_of_function(f, base);
                self.function_calls.push((f.id, calls));
                self.ranges.push((f.id, rs));
                proof {
                    lemma_insts_before_mono(f.blocks@, f.blocks@.len() as int, f.blocks@.len() as int);
                    assert forall|k: int| 0 <= k < r0.len() implies #[trigger] self.ranges@[k] == r0[k] by {}
                    assert forall|k: int| 0 <= k < c0.len() implies #[trigger] self.function_calls@[k] == c0[k] by {}
                }
                base = base + total_of(f, base);
            }
            proof {
                assert(forall|k: int| 0 <= k < r0.len() ==> #[trigger] self.ranges@[k] == r0[k]);
                assert(forall|k: int| 0 <= k < c0.len() ==> #[trigger] self.function_calls@[k] == c0[k]);
                assert forall|j: int|
                    0 <= j < i + 1 && (#[trigger] funcs@[j]).blocks@.len() > 0 implies {
                        let k = old(self).ranges@.len() + defined_before(funcs@, j);
                        let kc = old(self).function_calls@.len() + defined_before(funcs@, j);
                        &&& self.ranges@[k].0 == funcs@[j].id
                        &&& sorted_by_begin(self.ranges@[k].1@)
                        &&& ranges_cover(self.ranges@[k].1@, site_list(funcs@[j], base_of(funcs@, j)))
                        &&& self.function_calls@[kc].0 == funcs@[j].id
                        &&& self.function_calls@[kc].1@ == clobbers_of(funcs@[j], base_of(funcs@, j))
                    } by {
                    if j < i {
                        lemma_defined_before_lt(funcs@, j, i as int);
                        lemma_defined_before_mono(funcs@, j);
                        let k = old(self).ranges@.len() + defined_before(funcs@, j);
                        let kc = old(self).function_calls@.len() + defined_before(funcs@, j);
                        assert(self.ranges@[k] == r0[k]);
                        assert(self.function_calls@[kc] == c0[kc]);
                    }
                }
            }
            i = i + 1;
        }
    }
}

proof fn lemma_defined_before_lt(fs: Seq<FuncInfo>, j: int, i: int)
    requires
        0 <= j < i,
        fs[j].blocks@.len() > 0,
    ensures
        defined_before(fs, j) < defined_before(fs, i),
    decreases i - j,
{
    if j + 1 < i {
        lemma_defined_before_lt(fs, j, i - 1);
    }
}

proof fn lemma_defined_before_mono(fs: Seq<FuncInfo>, i: int)
    requires
        0 <= i,
    ensures
        0 <= defined_before(fs, i),
    decreases i,
{
    if i > 0 {
        lemma_defined_before_mono(fs, i - 1);
    }
}

/// The number of instructions of a function with a body.
fn total_of(f: &FuncInfo, base: u32) -> (r: u32)
    requires
        func_ok(*f, base as int),
    ensures
        r == total_insts(*f),
{
    let starts = block_starts(f, base);
    let last = f.blocks.len() - 1;
    proof {
        lemma_insts_before_mono(f.blocks@, f.blocks@.len() as int, f.blocks@.len() as int);
    }
    starts[last] + f.blocks[last].insts.len() as u32 - base
}

/// Whether a position (block in layout order, instruction) lies in the layout `lay`.
pub open spec fn ir_pos_ok(p: Program, lay: Seq<usize>, pos: (usize, usize)) -> bool {
    pos.0 < lay.len() && pos.1 < p.blocks@[lay[pos.0 as int] as int].insts@.len()
}

/// The instruction at a position of the layout `lay`.
pub open spec fn inst_at(p: Program, lay: Seq<usize>, pos: (usize, usize)) -> usize {
    p.blocks@[lay[pos.0 as int] as int].insts@[pos.1 as int]
}

/// Whether `ps` lists exactly the positions of `lay` whose instructions satisfy `pred`.
pub open spec fn positions_where(p: Program, lay: Seq<usize>, ps: Seq<(usize, usize)>, pred: spec_fn(ValueKind) -> bool) -> bool {
    forall|pos: (usize, usize)|
        #[trigger] ps.contains(pos) <==> ir_pos_ok(p, lay, pos) && pred(p.values@[inst_at(p, lay, pos) as int].kind)
}

/// The positions of the layout `lay` whose instructions satisfy `uses(_, v)`
/// (when `by_value`) or `targets(_, v)` (otherwise), in layout order.
fn positions_of(p: &Program, lay: &Vec<usize>, v: usize, by_value: bool) -> (r: Vec<(usize, usize)>)
    requires
        p.wf(),
        forall|i: int| 0 <= i < lay@.len() ==> (#[trigger] lay@[i]) < p.blocks@.len(),
    ensures
        by_value ==> positions_where(*p, lay@, r@, |k: ValueKind| uses(k, v)),
        !by_value ==> positions_where(*p, lay@, r@, |k: ValueKind| targets(k, v)),
{
    let ghost pred = if by_value {
        |k: ValueKind| uses(k, v)
    } else {
        |k: ValueKind| targets(k, v)
    };
    let mut r: Vec<(usize, usize)> = Vec::new();
    let mut bi: usize = 0;
    while bi < lay.len()
        invariant
            p.wf(),
            forall|i: int| 0 <= i < lay@.len() ==> (#[trigger] lay@[i]) < p.blocks@.len(),
            bi <= lay@.len(),
            pred == (if by_value {
                |k: ValueKind| uses(k, v)
            } else {
                |k: ValueKind| targets(k, v)
            }),
            forall|pos: (usize, usize)|
                #[trigger] r@.contains(pos) <==> pos.0 < bi && ir_pos_ok(*p, lay@, pos) && pred(
                    p.values@[inst_at(*p, lay@, pos) as int].kind,
                ),
        decreases lay@.len() - bi,
    {
        let insts = &p.blocks[lay[bi]].insts;
        let mut ii: usize = 0;
        while ii < insts.len()
            invariant
                p.wf(),
                forall|i: int| 0 <= i < lay@.len() ==> (#[trigger] lay@[i]) < p.blocks@.len(),
                bi < lay@.len(),
                *insts == p.blocks@[lay@[bi as int] as int].insts,
                ii <= insts@.len(),
                pred == (if by_value {
                    |k: ValueKind| uses(k, v)
                } else {
                    |k: ValueKind| targets(k, v)
                }),
                forall|pos: (usize, usize)|
                    #[trigger] r@.contains(pos) <==> ((pos.0 < bi) || (pos.0 == bi && pos.1 < ii)) && ir_pos_ok(
                        *p,
                        lay@,
                        pos,
                    ) && pred(p.values@[inst_at(*p, lay@, pos) as int].kind),
            decreases insts@.len() - ii,
        {
            let w = insts[ii];
            proof {
                assert(crate::ir::all_below(insts@, p.values@.len() as int));
            }
            let hit = if by_value {
                uses_value(&p.values[w].kind, v)
            } else {
                targets_block(&p.values[w].kind, v)
            };
            let ghost r0 = r@;
            if hit {
                r.push((bi, ii));
            }
            proof {
                assert(inst_at(*p, lay@, (bi, ii)) == w);
                assert(hit == pred(p.values@[inst_at(*p, lay@, (bi, ii)) as int].kind));
                assert forall|pos: (usize, usize)|
                    #[trigger] r@.contains(pos) <==> ((pos.0 < bi) || (pos.0 == bi && pos.1 < ii + 1)) && ir_pos_ok(
                        *p,
                        lay@,
                        pos,
                    ) && pred(p.values@[inst_at(*p, lay@, pos) as int].kind) by {
                    assert(r0.contains(pos) <==> ((pos.0 < bi) || (pos.0 == bi && pos.1 < ii)) && ir_pos_ok(
                        *p,
                        lay@,
                        pos,
                    ) && pred(p.values@[inst_at(*p, lay@, pos) as int].kind));
                    if hit {
                        assert(r@ == r0.push((bi, ii)));
                        if pos == (bi, ii) {
                            assert(r@[r@.len() - 1] == pos);
                        } else if r@.contains(pos) {
                            let k = choose|k: int| 0 <= k < r@.len() && r@[k] == pos;
                            assert(r0[k] == pos);
                        } else if r0.contains(pos) {
                            let k = choose|k: int| 0 <= k < r0.len() && r0[k] == pos;
                            assert(r@[k] == pos);
                        }
                    } else {
                        assert(r@ == r0);
                    }
                }
            }
            ii = ii + 1;
        }
        bi = bi + 1;
    }
    r
}

} // verus!

verus! {

/// Whether the instruction of kind `k` clobbers the caller-saved registers:
/// a call, or a store of a zero initializer (which calls `memset`).
pub open spec fn clobbering(p: Program, k: ValueKind) -> bool {
    match k {
        ValueKind::Call(_, _) => true,
        ValueKind::Store(v, _) => v < p.values@.len() && p.values@[v as int].kind is ZeroInit,
        _ => false,
    }
}

/// Whether `ps` lists exactly the positions of `lay` whose instructions use `v`.
pub open spec fn users_at(p: Program, lay: Seq<usize>, v: usize, ps: Seq<(usize, usize)>) -> bool {
    positions_where(p, lay, ps, |k: ValueKind| uses(k, v))
}

/// Whether `params` pairs each of the values `vs`, in order, with its users.
pub open spec fn params_info_ok(p: Program, lay: Seq<usize>, vs: Seq<usize>, params: Seq<(u32, Vec<(usize, usize)>)>) -> bool {
    &&& params.len() == vs.len()
    &&& forall|k: int|
        0 <= k < vs.len() ==> (#[trigger] params[k]).0 == vs[k] && users_at(p, lay, vs[k], params[k].1@)
}

/// Whether `ins` describes the instruction `w`.
pub open spec fn inst_info_ok(p: Program, lay: Seq<usize>, w: usize, ins: InstInfo) -> bool {
    &&& ins.value == w
    &&& ins.has_result == !(p.values@[w as int].ty is Unit)
    &&& ins.clobbers == clobbering(p, p.values@[w as int].kind)
    &&& users_at(p, lay, w, ins.users@)
}

/// Whether `jt` is the position in `lay` of the block that block `b` ends
/// by jumping to: its first position there, and none where the block does
/// not end with a jump or jumps out of the layout.
pub open spec fn jump_target_ok(p: Program, lay: Seq<usize>, b: int, jt: Option<usize>) -> bool {
    let insts = p.blocks@[lay[b] as int].insts@;
    match jt {
        Some(j) => {
            &&& insts.len() > 0
            &&& p.values@[insts.last() as int].kind matches ValueKind::Jump(t, _) && j < lay.len() && lay[j as int] == t
                && forall|i: int| 0 <= i < j ==> lay[i] != t
        },
        None => insts.len() == 0 || !(p.values@[insts.last() as int].kind matches ValueKind::Jump(t, _)
            && lay.contains(t)),
    }
}

/// Whether `bi` describes the block at position `b` of the layout `lay`.
pub open spec fn block_info_ok(p: Program, lay: Seq<usize>, b: int, bi: BlockInfo) -> bool {
    let bd = p.blocks@[lay[b] as int];
    &&& params_info_ok(p, lay, bd.params@, bi.params@)
    &&& positions_where(p, lay, bi.preds@, |k: ValueKind| targets(k, lay[b]))
    &&& bi.insts@.len() == bd.insts@.len()
    &&& forall|i: int| 0 <= i < bd.insts@.len() ==> inst_info_ok(p, lay, bd.insts@[i], #[trigger] bi.insts@[i])
    &&& jump_target_ok(p, lay, b, bi.jump_target)
}

/// Whether `fi` describes function `f` of the program: its number, its
/// parameters and its blocks in layout order.
pub open spec fn func_info_ok(p: Program, f: usize, fi: FuncInfo) -> bool {
    let fd = p.funcs@[f as int];
    let lay = fd.layout@;
    &&& fi.id == f
    &&& params_info_ok(p, lay, fd.params@, fi.params@)
    &&& fi.blocks@.len() == lay.len()
    &&& forall|b: int| 0 <= b < lay.len() ==> block_info_ok(p, lay, b, #[trigger] fi.blocks@[b])
}

/// Whether the numbers of the program's values and functions fit in `u32`.
pub open spec fn numbers_fit(p: Program) -> bool {
    &&& p.values@.len() <= u32::MAX
    &&& p.funcs@.len() <= u32::MAX
}

/// The first position of `t` in `lay`.
fn index_in(lay: &Vec<usize>, t: usize) -> (r: Option<usize>)
    ensures
        match r {
            Some(j) => j < lay@.len() && lay@[j as int] == t && forall|i: int| 0 <= i < j ==> lay@[i] != t,
            None => !lay@.contains(t),
        },
{
    let mut i: usize = 0;
    while i < lay.len()
        invariant
            i <= lay@.len(),
            forall|j: int| 0 <= j < i ==> lay@[j] != t,
        decreases lay@.len() - i,
    {
        if lay[i] == t {
            return Some(i);
        }
        i = i + 1;
    }
    None
}

fn params_info(p: &Program, lay: &Vec<usize>, vs: &Vec<usize>) -> (r: Vec<(u32, Vec<(usize, usize)>)>)
    requires
        p.wf(),
        numbers_fit(*p),
        crate::ir::all_below(vs@, p.values@.len() as int),
        forall|i: int| 0 <= i < lay@.len() ==> (#[trigger] lay@[i]) < p.blocks@.len(),
    ensures
        params_info_ok(*p, lay@, vs@, r@),
{
    let mut r: Vec<(u32, Vec<(usize, usize)>)> = Vec::new();
    let mut k: usize = 0;
    while k < vs.len()
        invariant
            p.wf(),
            numbers_fit(*p),
            crate::ir::all_below(vs@, p.values@.len() as int),
            forall|i: int| 0 <= i < lay@.len() ==> (#[trigger] lay@[i]) < p.blocks@.len(),
            k <= vs@.len(),
            r@.len() == k,
            forall|j: int| 0 <= j < k ==> (#[trigger] r@[j]).0 == vs@[j] && users_at(*p, lay@, vs@[j], r@[j].1@),
        decreases vs@.len() - k,
    {
        let v = vs[k];
        assert(v < p.values@.len());
        let us = positions_of(p, lay, v, true);
        r.push((v as u32, us));
        k = k + 1;
    }
    r
}

fn block_info(p: &Program, lay: &Vec<usize>, b: usize) -> (r: BlockInfo)
    requires
        p.wf(),
        numbers_fit(*p),
        b < lay@.len(),
        forall|i: int| 0 <= i < lay@.len() ==> (#[trigger] lay@[i]) < p.blocks@.len(),
    ensures
        block_info_ok(*p, lay@, b as int, r),
{
    let bd = &p.blocks[lay[b]];
    proof {
        assert(lay@[b as int] < p.blocks@.len());
        assert(crate::ir::all_below(bd.params@, p.values@.len() as int));
        assert(crate::ir::all_below(bd.insts@, p.values@.len() as int));
    }
    let params = params_info(p, lay, &bd.params);
    let preds = positions_of(p, lay, lay[b], false);
    let mut insts: Vec<InstInfo> = Vec::new();
    let mut i: usize = 0;
    while i < bd.insts.len()
        invariant
            p.wf(),
            numbers_fit(*p),
            b < lay@.len(),
            forall|j: int| 0 <= j < lay@.len() ==> (#[trigger] lay@[j]) < p.blocks@.len(),
            *bd == p.blocks@[lay@[b as int] as int],
            crate::ir::all_below(bd.insts@, p.values@.len() as int),
            i <= bd.insts@.len(),
            insts@.len() == i,
            forall|j: int| 0 <= j < i ==> inst_info_ok(*p, lay@, bd.insts@[j], #[trigger] insts@[j]),
        decreases bd.insts@.len() - i,
    {
        let w = bd.insts[i];
        assert(w < p.values@.len());
        let data = &p.values[w];
        let has_result = match data.ty {
            crate::ir::IrType::Unit => false,
            _ => true,
        };
        let clobbers = match &data.kind {
            ValueKind::Call(_, _) => true,
            ValueKind::Store(v, _) => {
                proof {
                    assert(crate::ir::kind_ok(p.values@[w as int].kind, p.values@.len() as int, p.blocks@.len() as int, p.funcs@.len() as int));
                }
                matches!(p.values[*v].kind, ValueKind::ZeroInit)
            },
            _ => false,
        };
        let users = positions_of(p, lay, w, true);
        insts.push(InstInfo { value: w as u32, has_result, clobbers, users });
        i = i + 1;
    }
    let jump_target = if bd.insts.len() > 0 {
        let last = bd.insts[bd.insts.len() - 1];
        assert(last < p.values@.len());
        match &p.values[last].kind {
            ValueKind::Jump(t, _) => index_in(lay, *t),
            _ => None,
        }
    } else {
        None
    };
    BlockInfo { params, preds, insts, jump_target }
}

/// What the analysis of live ranges reads of function `f`.
pub fn func_info(p: &Program, f: usize) -> (r: FuncInfo)
    requires
        p.wf(),
        numbers_fit(*p),
        f < p.funcs@.len(),
    ensures
        func_info_ok(*p, f, r),
{
    let fd = &p.funcs[f];
    proof {
        assert(crate::ir::all_below(fd.params@, p.values@.len() as int));
        assert(crate::ir::all_below(fd.layout@, p.blocks@.len() as int));
    }
    let params = params_info(p, &fd.layout, &fd.params);
    let mut blocks: Vec<BlockInfo> = Vec::new();
    let mut b: usize = 0;
    while b < fd.layout.len()
        invariant
            p.wf(),
            numbers_fit(*p),
            f < p.funcs@.len(),
            *fd == p.funcs@[f as int],
            crate::ir::all_below(fd.layout@, p.blocks@.len() as int),
            b <= fd.layout@.len(),
            blocks@.len() == b,
            forall|j: int| 0 <= j < b ==> block_info_ok(*p, fd.layout@, j, #[trigger] blocks@[j]),
        decreases fd.layout@.len() - b,
    {
        let bi = block_info(p, &fd.layout, b);
        blocks.push(bi);
        b = b + 1;
    }
    FuncInfo { id: f as u32, params, blocks }
}

/// What the analysis of live ranges reads of every function of the program, in order.
pub fn program_info(p: &Program) -> (r: Vec<FuncInfo>)
    requires
        p.wf(),
        numbers_fit(*p),
    ensures
        r@.len() == p.funcs@.len(),
        forall|f: int| 0 <= f < p.funcs@.len() ==> func_info_ok(*p, f as usize, #[trigger] r@[f]),
{
    let mut r: Vec<FuncInfo> = Vec::new();
    let mut f: usize = 0;
    while f < p.funcs.len()
        invariant
            p.wf(),
            numbers_fit(*p),
            f <= p.funcs@.len(),
            r@.len() == f,
            forall|j: int| 0 <= j < f ==> func_info_ok(*p, j as usize, #[trigger] r@[j]),
        decreases p.funcs@.len() - f,
    {
        r.push(func_info(p, f));
        f = f + 1;
    }
    r
}

} // verus!

verus! {

fn positions_valid(f: &FuncInfo, ps: &Vec<(usize, usize)>) -> (r: bool)
    ensures
        r == valid_positions(*f, ps@),
{
    let mut k: usize = 0;
    while k < ps.len()
        invariant
            k <= ps@.len(),
            forall|j: int| 0 <= j < k ==> valid_pos(*f, #[trigger] ps@[j]),
        decreases ps@.len() - k,
    {
        let (b, i) = ps[k];
        if b >= f.blocks.len() || i >= f.blocks[b].insts.len() {
            assert(!valid_pos(*f, ps@[k as int]));
            return false;
        }
        k = k + 1;
    }
    true
}

fn params_valid(f: &FuncInfo, params: &Vec<(u32, Vec<(usize, usize)>)>) -> (r: bool)
    ensures
        r == forall|k: int| 0 <= k < params@.len() ==> valid_positions(*f, (#[trigger] params@[k]).1@),
{
    let mut k: usize = 0;
    while k < params.len()
        invariant
            k <= params@.len(),
            forall|j: int| 0 <= j < k ==> valid_positions(*f, (#[trigger] params@[j]).1@),
        decreases params@.len() - k,
    {
        if !positions_valid(f, &params[k].1) {
            return false;
        }
        k = k + 1;
    }
    true
}

/// The number of instructions of the function, where it is below `limit`.
fn total_below(f: &FuncInfo, limit: u64) -> (r: Option<u64>)
    requires
        limit <= u32::MAX,
    ensures
        match r {
            Some(t) => t == total_insts(*f) && t < limit,
            None => total_insts(*f) >= limit,
        },
{
    if limit == 0 {
        proof {
            lemma_insts_before_nonneg(f.blocks@, f.blocks@.len() as int);
        }
        return None;
    }
    let mut t: u64 = 0;
    let mut b: usize = 0;
    while b < f.blocks.len()
        invariant
            limit <= u32::MAX,
            b <= f.blocks@.len(),
            t == insts_before(f.blocks@, b as int),
            t < limit,
        decreases f.blocks@.len() - b,
    {
        let n = f.blocks[b].insts.len();
        if n as u64 >= limit - t {
            proof {
                lemma_insts_before_mono(f.blocks@, b + 1, f.blocks@.len() as int);
            }
            return None;
        }
        t = t + n as u64;
        b = b + 1;
    }
    Some(t)
}

/// Whether the function, its instructions numbered from `base` on, is well
/// formed for the analysis.
fn func_fits(f: &FuncInfo, base: u64) -> (r: bool)
    requires
        base <= u32::MAX,
    ensures
        r == func_ok(*f, base as int),
{
    if f.blocks.len() == 0 {
        return false;
    }
    let total = match total_below(f, u32::MAX as u64 - base) {
        Some(t) => t,
        None => {
            return false;
        },
    };
    if !params_valid(f, &f.params) {
        return false;
    }
    let mut b: usize = 0;
    while b < f.blocks.len()
        invariant
            b <= f.blocks@.len(),
            f.blocks@.len() > 0,
            base + total_insts(*f) < u32::MAX,
            forall|k: int| 0 <= k < f.params@.len() ==> valid_positions(*f, (#[trigger] f.params@[k]).1@),
            forall|b2: int|
                0 <= b2 < b ==> {
                    let blk = #[trigger] f.blocks@[b2];
                    &&& blk.insts@.len() > 0
                    &&& valid_positions(*f, blk.preds@)
                    &&& forall|k: int| 0 <= k < blk.params@.len() ==> valid_positions(*f, (#[trigger] blk.params@[k]).1@)
                    &&& forall|k: int| 0 <= k < blk.insts@.len() ==> valid_positions(*f, (#[trigger] blk.insts@[k]).users@)
                    &&& match blk.jump_target {
                        Some(t) => t < f.blocks@.len(),
                        None => true,
                    }
                },
        decreases f.blocks@.len() - b,
    {
        let blk = &f.blocks[b];
        if blk.insts.len() == 0 || !positions_valid(f, &blk.preds) || !params_valid(f, &blk.params) {
            return false;
        }
        let mut i: usize = 0;
        while i < blk.insts.len()
            invariant
                b < f.blocks@.len(),
                *blk == f.blocks@[b as int],
                i <= blk.insts@.len(),
                forall|k: int| 0 <= k < i ==> valid_positions(*f, (#[trigger] blk.insts@[k]).users@),
            decreases blk.insts@.len() - i,
        {
            if !positions_valid(f, &blk.insts[i].users) {
                return false;
            }
            i = i + 1;
        }
        match blk.jump_target {
            Some(t) => {
                if t >= f.blocks.len() {
                    return false;
                }
            },
            None => {},
        }
        b = b + 1;
    }
    true
}

/// Whether every function with a body is well formed for the analysis and
/// the instructions of all functions can be numbered in `u32`.
pub fn funcs_fit(funcs: &Vec<FuncInfo>) -> (r: bool)
    ensures
        r == funcs_ok(funcs@),
{
    let mut base: u64 = 0;
    let mut i: usize = 0;
    while i < funcs.len()
        invariant
            i <= funcs@.len(),
            base == base_of(funcs@, i as int),
            base < u32::MAX,
            forall|j: int| 0 <= j < i && (#[trigger] funcs@[j]).blocks@.len() > 0 ==> func_ok(funcs@[j], base_of(funcs@, j)),
        decreases funcs@.len() - i,
    {
        let f = &funcs[i];
        if f.blocks.len() > 0 && !func_fits(f, base) {
            return false;
        }
        match total_below(f, u32::MAX as u64 - base) {
            Some(t) => {
                base = base + t;
            },
            None => {
                proof {
                    lemma_base_of_mono(funcs@, i + 1, funcs@.len() as int);
                }
                return false;
            },
        }
        i = i + 1;
    }
    true
}

} // verus!
