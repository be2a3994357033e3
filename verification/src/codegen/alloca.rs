use vstd::prelude::*;

use crate::codegen::context::{is_saved_index, Place, RegID};
use crate::codegen::live_range::{calls_entry, covers, distinct_values, sorted_by_begin, LiveRange, Range};
use std::collections::HashMap;

verus! {

/// The number of callee-saved registers handed out.
pub const SAVED_REGS: u32 = 12;

/// The number of caller-saved registers handed out.
pub const TEMP_REGS: u32 = 12;

/// The register at position `i` of the pool: `s0`..`s11`, then `t3`..`t6`,
/// then `a0`..`a7`.
pub open spec fn pool_reg_index(i: int) -> int {
    if i < 2 {
        8 + i
    } else if i < 16 {
        16 + i
    } else {
        i - 6
    }
}

/// Whether `r` is one of the registers that the allocator hands out.
pub open spec fn allocatable(r: RegID) -> bool {
    exists|i: int| 0 <= i < 24 && #[trigger] pool_reg_index(i) == r.0
}

/// The number of free entries of `p` at positions `lo..hi`.
pub open spec fn count_free(p: Seq<(RegID, bool)>, lo: int, hi: int) -> nat
    decreases hi - lo,
{
    if hi <= lo {
        0
    } else {
        count_free(p, lo, hi - 1) + if p[hi - 1].1 {
            1nat
        } else {
            0nat
        }
    }
}

proof fn lemma_pool_reg_index(i: int)
    requires
        0 <= i < 24,
    ensures
        is_saved_index(pool_reg_index(i)) <==> i < 12,
        0 <= pool_reg_index(i) < 32,
        forall|j: int| 0 <= j < 24 && j != i ==> pool_reg_index(j) != pool_reg_index(i),
{
}

proof fn lemma_count_free_bound(p: Seq<(RegID, bool)>, lo: int, hi: int)
    requires
        lo <= hi,
    ensures
        count_free(p, lo, hi) <= hi - lo,
    decreases hi - lo,
{
    if lo < hi {
        lemma_count_free_bound(p, lo, hi - 1);
    }
}

proof fn lemma_count_free_update(p: Seq<(RegID, bool)>, lo: int, hi: int, i: int, b: bool)
    requires
        0 <= lo <= hi <= p.len(),
        0 <= i < p.len(),
    ensures
        count_free(p.update(i, (p[i].0, b)), lo, hi) == count_free(p, lo, hi) - (if lo <= i < hi && p[i].1 {
            1int
        } else {
            0int
        }) + (if lo <= i < hi && b {
            1int
        } else {
            0int
        }),
    decreases hi - lo,
{
    if lo < hi {
        lemma_count_free_update(p, lo, hi - 1, i, b);
        let q = p.update(i, (p[i].0, b));
        assert(q[hi - 1] == if hi - 1 == i {
            (p[i].0, b)
        } else {
            p[hi - 1]
        });
    }
}

proof fn lemma_count_free_pos(p: Seq<(RegID, bool)>, lo: int, hi: int)
    requires
        count_free(p, lo, hi) > 0,
    ensures
        exists|i: int| lo <= i < hi && (#[trigger] p[i]).1,
    decreases hi - lo,
{
    if hi > lo {
        if !p[hi - 1].1 {
            lemma_count_free_pos(p, lo, hi - 1);
        }
    }
}

proof fn lemma_count_free_none(p: Seq<(RegID, bool)>, lo: int, hi: int)
    requires
        forall|i: int| lo <= i < hi ==> !(#[trigger] p[i]).1,
    ensures
        count_free(p, lo, hi) == 0,
    decreases hi - lo,
{
    if hi > lo {
        lemma_count_free_none(p, lo, hi - 1);
    }
}

proof fn lemma_count_free_zero(p: Seq<(RegID, bool)>, lo: int, hi: int, i: int)
    requires
        count_free(p, lo, hi) == 0,
        lo <= i < hi,
    ensures
        !p[i].1,
    decreases hi - lo,
{
    if hi - 1 != i {
        lemma_count_free_zero(p, lo, hi - 1, i);
    }
}

/// Whether one of the calls `calls` falls within range `r`: a value live
/// over `r` lives across that call.
pub open spec fn crosses_call(r: Range, calls: Seq<u32>) -> bool {
    exists|c: int| 0 <= c < calls.len() && r.begin <= #[trigger] calls[c] <= r.end
}

/// Whether some value of some function of `lr` lives across one of the
/// calls of its function.
pub open spec fn some_value_crosses_call(lr: &LiveRange) -> bool {
    exists|k: int, j: int|
        0 <= k < lr.ranges@.len() && 0 <= j < lr.ranges@[k].1@.len() && #[trigger] crosses_call(
            lr.ranges@[k].1@[j].0,
            calls_entry(lr.function_calls@, lr.ranges@[k].0)->Some_0,
        )
}

/// Why an allocation could not be made.
#[derive(Debug, Clone, Copy, PartialEq, Eq, Structural)]
pub enum RegAllocError {
    /// A value that lives across a call needs a callee-saved register, all
    /// of them are taken, and some other register is still free.
    NoSavedRegister,
}

/// A linear-scan register allocator: each value gets a register, or a slot
/// of 4 bytes in the stack frame when none is left.
pub struct RegAllocator {
    /// the place of each value, by function
    pub places: HashMap<u32, HashMap<u32, Place>>,
    /// the bytes of stack frame taken by spilled values, by function
    pub spill_size: HashMap<u32, usize>,
    /// the most callee-saved registers in use at once, by function
    pub max_reg: HashMap<u32, usize>,
    /// the values in registers, by increasing end of their ranges
    active: Vec<(Range, u32, RegID)>,
    /// the registers that can be handed out, and whether each is free
    free_pool: Vec<(RegID, bool)>,
    free_saved_regs: u32,
    free_temp_regs: u32,
    offset: usize,
}


/// Whether a register is taken by one of the active values.
pub open spec fn held(active: Seq<(Range, u32, RegID)>, r: RegID) -> bool {
    exists|a: int| 0 <= a < active.len() && (#[trigger] active[a]).2 == r
}

/// Whether the active values come in order of the ends of their ranges.
pub open spec fn sorted_by_end(active: Seq<(Range, u32, RegID)>) -> bool {
    forall|a: int, b: int| 0 <= a <= b < active.len() ==> active[a].0.end <= active[b].0.end
}

/// Whether some entry of `act` is `i`.
pub open spec fn in_act(act: Seq<int>, i: int) -> bool {
    exists|a: int| 0 <= a < act.len() && act[a] == i
}

/// What a finished allocation of the values of `rs` guarantees: every value
/// has a place; registers come from the pool; two values in the same register
/// are never live at once; stack slots lie in the first `size` bytes of the
/// frame and no two values share one.
pub open spec fn allocation_ok(rs: Seq<(Range, u32)>, places: Map<u32, Place>, size: int) -> bool {
    &&& forall|i: int| 0 <= i < rs.len() ==> places.contains_key(#[trigger] rs[i].1)
    &&& forall|i: int| 0 <= i < rs.len() ==> (places[#[trigger] rs[i].1] is Reg ==> allocatable(places[rs[i].1]->Reg_0))
    &&& forall|i: int, j: int|
        0 <= i < j < rs.len() && places[#[trigger] rs[i].1] is Reg && places[rs[i].1] == places[#[trigger] rs[j].1]
            ==> rs[i].0.end < rs[j].0.begin
    &&& forall|i: int| 0 <= i < rs.len() ==> (places[#[trigger] rs[i].1] is Mem ==> 0 <= places[rs[i].1]->Mem_0
        && places[rs[i].1]->Mem_0 + 4 <= size)
    &&& forall|i: int, j: int|
        0 <= i < j < rs.len() && places[#[trigger] rs[i].1] is Mem ==> places[rs[i].1] != places[#[trigger] rs[j].1]
}

impl RegAllocator {
    /// The pool holds its registers in their fixed order, and the counters
    /// count its free entries.
    pub closed spec fn pool_shape(&self) -> bool {
        &&& self.free_pool@.len() == 24
        &&& forall|p: int| 0 <= p < 24 ==> (#[trigger] self.free_pool@[p]).0.0 == pool_reg_index(p)
        &&& self.free_saved_regs == count_free(self.free_pool@, 0, 12)
        &&& self.free_temp_regs == count_free(self.free_pool@, 12, 24)
    }

    /// A register is free exactly when no active value holds it; active values
    /// hold distinct registers of the pool, in order of the ends of their ranges.
    pub closed spec fn flags_match(&self) -> bool {
        &&& forall|p: int|
            0 <= p < 24 ==> ((#[trigger] self.free_pool@[p]).1 <==> !held(self.active@, self.free_pool@[p].0))
        &&& forall|a: int| 0 <= a < self.active@.len() ==> allocatable((#[trigger] self.active@[a]).2)
        &&& forall|a: int, b: int| 0 <= a < b < self.active@.len() ==> self.active@[a].2 != self.active@[b].2
        &&& sorted_by_end(self.active@)
    }

    /// The place of each value, by function.
    pub closed spec fn place_map(&self) -> Map<u32, HashMap<u32, Place>> {
        self.places@
    }

    /// The bytes of stack frame taken by spilled values, by function.
    pub closed spec fn spill_map(&self) -> Map<u32, usize> {
        self.spill_size@
    }

    /// The most callee-saved registers in use at once, by function.
    pub closed spec fn max_reg_map(&self) -> Map<u32, usize> {
        self.max_reg@
    }

    /// The number of entries of the register pool.
    pub closed spec fn pool_len(&self) -> nat {
        self.free_pool@.len()
    }

    /// The entries of the register pool: a register and whether it is free.
    pub closed spec fn pool_view(&self) -> Seq<(RegID, bool)> {
        self.free_pool@
    }

    /// The numbers of free callee-saved and of free caller-saved registers.
    pub closed spec fn free_counts(&self) -> (u32, u32) {
        (self.free_saved_regs, self.free_temp_regs)
    }

    /// The stack offset of the next spilled value.
    pub closed spec fn next_offset(&self) -> nat {
        self.offset as nat
    }

    /// The values currently in registers.
    pub closed spec fn active_view(&self) -> Seq<(Range, u32, RegID)> {
        self.active@
    }

    pub fn new() -> (r: Self)
        ensures
            r.place_map() == Map::<u32, HashMap<u32, Place>>::empty(),
            r.spill_map() == Map::<u32, usize>::empty(),
            r.max_reg_map() == Map::<u32, usize>::empty(),
            r.pool_len() == 0,
    {
        Self {
            places: HashMap::new(),
            spill_size: HashMap::new(),
            max_reg: HashMap::new(),
            active: Vec::new(),
            free_pool: Vec::new(),
            free_saved_regs: 0,
            free_temp_regs: 0,
            offset: 0,
        }
    }

    /// Gets ready to allocate the values of function `fid`: every register
    /// free, no value placed, nothing spilled.
    pub fn init(&mut self, fid: u32)
        requires
            old(self).pool_len() >= 24,
        ensures
            final(self).pool_len() == old(self).pool_len(),
            forall|p: int| 0 <= p < 24 ==> #[trigger] final(self).pool_view()[p] == (RegID(pool_reg_index(p) as usize), true),
            forall|p: int| 24 <= p < old(self).pool_len() ==> #[trigger] final(self).pool_view()[p] == old(self).pool_view()[p],
            final(self).free_counts() == (SAVED_REGS, TEMP_REGS),
            old(self).pool_len() == 24 ==> final(self).pool_shape() && final(self).flags_match(),
            final(self).active_view().len() == 0,
            final(self).next_offset() == 0,
            final(self).place_map().dom() == old(self).place_map().dom().insert(fid),
            forall|f: u32| f != fid ==> #[trigger] final(self).place_map()[f] == old(self).place_map()[f],
            final(self).place_map()[fid]@ == Map::<u32, Place>::empty(),
            final(self).max_reg_map() == old(self).max_reg_map().insert(fid, 0),
            final(self).spill_map() == old(self).spill_map(),
    {
        self.init_pool();
        self.active.clear();
        self.places.insert(fid, HashMap::new());
        self.max_reg.insert(fid, 0);
        self.free_saved_regs = SAVED_REGS;
        self.free_temp_regs = TEMP_REGS;
        self.offset = 0;
        proof {
            let p = self.free_pool@;
            assert forall|lo: int, hi: int| 0 <= lo <= hi <= 24 implies #[trigger] count_free(p, lo, hi) == hi - lo by {
                lemma_count_all_free(p, lo, hi);
            }
            assert(count_free(p, 0, 12) == 12);
            assert(count_free(p, 12, 24) == 12);
        }
    }

    /// Fills the pool with its registers, all free.
    fn init_pool(&mut self)
        requires
            old(self).free_pool@.len() >= 24,
        ensures
            final(self).free_pool@.len() == old(self).free_pool@.len(),
            forall|p: int| 0 <= p < 24 ==> (#[trigger] final(self).free_pool@[p]).0.0 == pool_reg_index(p)
                && final(self).free_pool@[p].1,
            forall|p: int| 24 <= p < old(self).free_pool@.len() ==> #[trigger] final(self).free_pool@[p] == old(self).free_pool@[p],
            final(self).active == old(self).active,
            final(self).places == old(self).places,
            final(self).max_reg == old(self).max_reg,
            final(self).spill_size == old(self).spill_size,
    {
        let mut i: usize = 0;
        while i < 24
            invariant
                i <= 24,
                self.free_pool@.len() == old(self).free_pool@.len(),
                old(self).free_pool@.len() >= 24,
                forall|p: int| 0 <= p < i ==> (#[trigger] self.free_pool@[p]).0.0 == pool_reg_index(p)
                    && self.free_pool@[p].1,
                forall|p: int| 24 <= p < old(self).free_pool@.len() ==> #[trigger] self.free_pool@[p] == old(self).free_pool@[p],
                self.active == old(self).active,
                self.places == old(self).places,
                self.max_reg == old(self).max_reg,
                self.spill_size == old(self).spill_size,
            decreases 24 - i,
        {
            let r = if i < 2 {
                RegID(8 + i)
            } else if i < 16 {
                RegID(16 + i)
            } else {
                RegID(i - 6)
            };
            self.free_pool.set(i, (r, true));
            i = i + 1;
        }
    }

    /// Whether one of the calls falls within `r`.
    fn contains_call(&self, r: Range, calls: &Vec<u32>) -> (b: bool)
        ensures
            b == exists|c: int| 0 <= c < calls@.len() && r.begin <= #[trigger] calls@[c] <= r.end,
    {
        let mut i: usize = 0;
        while i < calls.len()
            invariant
                i <= calls@.len(),
                forall|c: int| 0 <= c < i ==> !(r.begin <= #[trigger] calls@[c] <= r.end),
            decreases calls@.len() - i,
        {
            if r.begin <= calls[i] && calls[i] <= r.end {
                return true;
            }
            i = i + 1;
        }
        false
    }

    /// Takes the first free callee-saved register.
    fn alloc_saved_reg(&mut self) -> (reg: RegID)
        requires
            old(self).pool_shape(),
            old(self).free_saved_regs > 0,
        ensures
            final(self).pool_shape(),
            exists|p: int|
                0 <= p < 12 && (#[trigger] old(self).free_pool@[p]).1 && reg == old(self).free_pool@[p].0
                    && final(self).free_pool@ == old(self).free_pool@.update(p, (reg, false)),
            final(self).active == old(self).active,
            final(self).offset == old(self).offset,
            final(self).places == old(self).places,
            final(self).max_reg == old(self).max_reg,
            final(self).spill_size == old(self).spill_size,
            final(self).free_saved_regs == old(self).free_saved_regs - 1,
    {
        self.free_saved_regs = self.free_saved_regs - 1;
        let mut i: usize = 0;
        while i < 12
            invariant
                i <= 12,
                self.free_pool@ == old(self).free_pool@,
                old(self).free_pool@.len() == 24,
                self.active == old(self).active,
                self.offset == old(self).offset,
                self.places == old(self).places,
                self.max_reg == old(self).max_reg,
                self.spill_size == old(self).spill_size,
                old(self).pool_shape(),
                self.free_saved_regs == old(self).free_saved_regs - 1,
                self.free_temp_regs == old(self).free_temp_regs,
                forall|p: int| 0 <= p < i ==> !(#[trigger] old(self).free_pool@[p]).1,
            decreases 12 - i,
        {
            if self.free_pool[i].1 {
                let reg = self.free_pool[i].0;
                self.free_pool.set(i, (reg, false));
                proof {
                    let p = old(self).free_pool@;
                    lemma_count_free_update(p, 0, 12, i as int, false);
                    lemma_count_free_update(p, 12, 24, i as int, false);
                    assert(p.update(i as int, (p[i as int].0, false)) == self.free_pool@);
                }
                return reg;
            }
            i = i + 1;
        }
        proof {
            lemma_count_free_none(old(self).free_pool@, 0, 12);
        }
        RegID(8)
    }

    /// Takes the first free caller-saved register.
    fn alloc_temp_reg(&mut self) -> (reg: RegID)
        requires
            old(self).pool_shape(),
            old(self).free_temp_regs > 0,
        ensures
            final(self).pool_shape(),
            exists|p: int|
                12 <= p < 24 && (#[trigger] old(self).free_pool@[p]).1 && reg == old(self).free_pool@[p].0
                    && final(self).free_pool@ == old(self).free_pool@.update(p, (reg, false)),
            final(self).active == old(self).active,
            final(self).offset == old(self).offset,
            final(self).places == old(self).places,
            final(self).max_reg == old(self).max_reg,
            final(self).spill_size == old(self).spill_size,
            final(self).free_saved_regs == old(self).free_saved_regs,
    {
        self.free_temp_regs = self.free_temp_regs - 1;
        let mut i: usize = 12;
        while i < 24
            invariant
                12 <= i <= 24,
                self.free_pool@ == old(self).free_pool@,
                old(self).free_pool@.len() == 24,
                self.active == old(self).active,
                self.offset == old(self).offset,
                self.places == old(self).places,
                self.max_reg == old(self).max_reg,
                self.spill_size == old(self).spill_size,
                old(self).pool_shape(),
                self.free_temp_regs == old(self).free_temp_regs - 1,
                self.free_saved_regs == old(self).free_saved_regs,
                forall|p: int| 12 <= p < i ==> !(#[trigger] old(self).free_pool@[p]).1,
            decreases 24 - i,
        {
            if self.free_pool[i].1 {
                let reg = self.free_pool[i].0;
                self.free_pool.set(i, (reg, false));
                proof {
                    let p = old(self).free_pool@;
                    lemma_count_free_update(p, 0, 12, i as int, false);
                    lemma_count_free_update(p, 12, 24, i as int, false);
                    assert(p.update(i as int, (p[i as int].0, false)) == self.free_pool@);
                }
                return reg;
            }
            i = i + 1;
        }
        proof {
            lemma_count_free_none(old(self).free_pool@, 12, 24);
        }
        RegID(28)
    }

    /// Gives a taken register back to the pool.
    fn free_reg(&mut self, reg: RegID, Ghost(p): Ghost<int>)
        requires
            old(self).pool_shape(),
            0 <= p < 24,
            old(self).free_pool@[p].0 == reg,
            !old(self).free_pool@[p].1,
        ensures
            final(self).pool_shape(),
            final(self).free_pool@ == old(self).free_pool@.update(p, (reg, true)),
            final(self).active == old(self).active,
            final(self).offset == old(self).offset,
            final(self).places == old(self).places,
            final(self).max_reg == old(self).max_reg,
            final(self).spill_size == old(self).spill_size,
    {
        proof {
            lemma_pool_reg_index(p);
            lemma_count_free_bound(old(self).free_pool@, 0, 12);
            lemma_count_free_bound(old(self).free_pool@, 12, 24);
            lemma_count_free_update(old(self).free_pool@, 0, 12, p, true);
            lemma_count_free_update(old(self).free_pool@, 12, 24, p, true);
        }
        if reg.is_saved_reg() {
            self.free_saved_regs = self.free_saved_regs + 1;
        } else {
            self.free_temp_regs = self.free_temp_regs + 1;
        }
        let mut i: usize = 0;
        while i < 24
            invariant
                i <= 24,
                self.free_pool@ == old(self).free_pool@,
                old(self).free_pool@.len() == 24,
                self.active == old(self).active,
                self.offset == old(self).offset,
                self.places == old(self).places,
                self.max_reg == old(self).max_reg,
                self.spill_size == old(self).spill_size,
                old(self).pool_shape(),
                self.free_saved_regs == count_free(old(self).free_pool@.update(p, (reg, true)), 0, 12),
                self.free_temp_regs == count_free(old(self).free_pool@.update(p, (reg, true)), 12, 24),
                forall|q: int| 0 <= q < i ==> (#[trigger] self.free_pool@[q]).0 != reg,
                0 <= p < 24,
                self.free_pool@[p].0 == reg,
            decreases 24 - i,
        {
            if self.free_pool[i].0 == reg {
                self.free_pool.set(i, (reg, true));
                proof {
                    lemma_pool_reg_index(p);
                    assert(self.free_pool@[i as int].0.0 == pool_reg_index(i as int));
                    assert(i as int == p);
                }
                return;
            }
            i = i + 1;
        }
    }
}

/// What holds of the values `rs[0..k]` once they are allocated: `act` gives,
/// for each active value, its position in `rs`; a value in a register that is
/// no longer active died before `bound`.
pub open spec fn tracking(
    active: Seq<(Range, u32, RegID)>,
    act: Seq<int>,
    rs: Seq<(Range, u32)>,
    k: int,
    l: Map<u32, Place>,
    offset: int,
    bound: int,
) -> bool {
    &&& 0 <= k <= rs.len()
    &&& act.len() == active.len()
    &&& forall|a: int|
        0 <= a < act.len() ==> 0 <= #[trigger] act[a] < k && rs[act[a]].0 == active[a].0 && rs[act[a]].1 == active[a].1
    &&& forall|a: int| 0 <= a < act.len() ==> l[(#[trigger] active[a]).1] == Place::Reg(active[a].2)
    &&& forall|a: int, b: int| 0 <= a < b < act.len() ==> act[a] != act[b]
    &&& forall|i: int| 0 <= i < k ==> l.contains_key(#[trigger] rs[i].1)
    &&& forall|i: int| 0 <= i < k ==> (l[#[trigger] rs[i].1] is Reg ==> allocatable(l[rs[i].1]->Reg_0))
    &&& forall|i: int| 0 <= i < k && l[#[trigger] rs[i].1] is Reg && !in_act(act, i) ==> rs[i].0.end < bound
    &&& forall|i: int, j: int|
        0 <= i < j < k && l[#[trigger] rs[i].1] is Reg && l[rs[i].1] == l[#[trigger] rs[j].1] ==> rs[i].0.end
            < rs[j].0.begin
    &&& forall|i: int| 0 <= i < k ==> (l[#[trigger] rs[i].1] is Mem ==> 0 <= l[rs[i].1]->Mem_0 && l[rs[i].1]->Mem_0 + 4 <= offset)
    &&& forall|i: int, j: int| 0 <= i < j < k && l[#[trigger] rs[i].1] is Mem ==> l[rs[i].1] != l[#[trigger] rs[j].1]
    &&& 0 <= offset <= 4 * k
}

/// Expiring the values that died before `rs[k]` begins keeps track of the rest.
proof fn lemma_track_expire(
    active: Seq<(Range, u32, RegID)>,
    act: Seq<int>,
    rs: Seq<(Range, u32)>,
    k: int,
    l: Map<u32, Place>,
    offset: int,
    m: int,
)
    requires
        k < rs.len(),
        sorted_by_begin(rs),
        tracking(active, act, rs, k, l, offset, if k > 0 {
            rs[k - 1].0.begin as int
        } else {
            0
        }),
        0 <= m <= active.len(),
        forall|a: int| 0 <= a < m ==> active[a].0.end < rs[k].0.begin,
    ensures
        tracking(
            active.subrange(m, active.len() as int),
            act.subrange(m, act.len() as int),
            rs,
            k,
            l,
            offset,
            rs[k].0.begin as int,
        ),
{
    let act2 = act.subrange(m, act.len() as int);
    let active2 = active.subrange(m, active.len() as int);
    assert forall|i: int| 0 <= i < k && l[#[trigger] rs[i].1] is Reg && !in_act(act2, i) implies rs[i].0.end
        < rs[k].0.begin by {
        if in_act(act, i) {
            let a = choose|a: int| 0 <= a < act.len() && act[a] == i;
            if a >= m {
                assert(act2[a - m] == i);
            }
        } else {
            if k > 0 {
                assert(rs[k - 1].0.begin <= rs[k].0.begin);
            }
        }
    }
    assert forall|a: int| 0 <= a < act2.len() implies l[(#[trigger] active2[a]).1] == Place::Reg(active2[a].2) by {
        assert(active2[a] == active[a + m]);
    }
    assert forall|a: int| 0 <= a < act2.len() implies 0 <= #[trigger] act2[a] < k && rs[act2[a]].0 == active2[a].0
        && rs[act2[a]].1 == active2[a].1 by {
        assert(act2[a] == act[a + m]);
        assert(active2[a] == active[a + m]);
    }
}

/// Giving `rs[k]` a free register keeps track of the allocation.
proof fn lemma_track_register(
    active: Seq<(Range, u32, RegID)>,
    act: Seq<int>,
    rs: Seq<(Range, u32)>,
    k: int,
    l: Map<u32, Place>,
    offset: int,
    reg: RegID,
    pos: int,
)
    requires
        k < rs.len(),
        distinct_values(rs),
        tracking(active, act, rs, k, l, offset, rs[k].0.begin as int),
        !held(active, reg),
        allocatable(reg),
        0 <= pos <= active.len(),
    ensures
        tracking(
            active.insert(pos, (rs[k].0, rs[k].1, reg)),
            act.insert(pos, k),
            rs,
            k + 1,
            l.insert(rs[k].1, Place::Reg(reg)),
            offset,
            rs[k].0.begin as int,
        ),
{
    let active2 = active.insert(pos, (rs[k].0, rs[k].1, reg));
    let act2 = act.insert(pos, k);
    let l2 = l.insert(rs[k].1, Place::Reg(reg));
    assert forall|i: int| 0 <= i < k implies #[trigger] l2[rs[i].1] == l[rs[i].1] by {
        assert(rs[i].1 != rs[k].1);
    }
    assert forall|a: int| 0 <= a < act2.len() implies 0 <= #[trigger] act2[a] < k + 1 && rs[act2[a]].0 == active2[a].0
        && rs[act2[a]].1 == active2[a].1 by {
        if a < pos {
            assert(act2[a] == act[a] && active2[a] == active[a]);
        } else if a > pos {
            assert(act2[a] == act[a - 1] && active2[a] == active[a - 1]);
        }
    }
    assert forall|a: int| 0 <= a < act2.len() implies l2[(#[trigger] active2[a]).1] == Place::Reg(active2[a].2) by {
        if a < pos {
            assert(active2[a] == active[a]);
            assert(l2[rs[act[a]].1] == l[rs[act[a]].1]);
        } else if a > pos {
            assert(active2[a] == active[a - 1]);
            assert(l2[rs[act[a - 1]].1] == l[rs[act[a - 1]].1]);
        }
    }
    assert forall|a: int, b: int| 0 <= a < b < act2.len() implies act2[a] != act2[b] by {
        if a != pos && b != pos {
            let a1 = if a < pos { a } else { a - 1 };
            let b1 = if b < pos { b } else { b - 1 };
            assert(act2[a] == act[a1] && act2[b] == act[b1]);
        } else if a == pos {
            let b1 = if b < pos { b } else { b - 1 };
            assert(act2[b] == act[b1]);
        } else {
            let a1 = if a < pos { a } else { a - 1 };
            assert(act2[a] == act[a1]);
        }
    }
    assert forall|i: int| 0 <= i < k + 1 implies l2.contains_key(#[trigger] rs[i].1) by {}
    assert forall|i: int| 0 <= i < k + 1 && l2[#[trigger] rs[i].1] is Reg implies allocatable(l2[rs[i].1]->Reg_0) by {}
    assert forall|i: int| 0 <= i < k + 1 && l2[#[trigger] rs[i].1] is Reg && !in_act(act2, i) implies rs[i].0.end
        < rs[k].0.begin by {
        if i == k {
            assert(act2[pos] == k);
        } else if in_act(act, i) {
            let a = choose|a: int| 0 <= a < act.len() && act[a] == i;
            let a2 = if a < pos { a } else { a + 1 };
            assert(act2[a2] == i);
        }
    }
    assert forall|i: int, j: int|
        0 <= i < j < k + 1 && l2[#[trigger] rs[i].1] is Reg && l2[rs[i].1] == l2[#[trigger] rs[j].1] implies rs[i].0.end
            < rs[j].0.begin by {
        if j == k {
            if in_act(act, i) {
                let a = choose|a: int| 0 <= a < act.len() && act[a] == i;
                assert(active[a].2 == reg);
            }
        }
    }
    assert forall|i: int| 0 <= i < k + 1 && l2[#[trigger] rs[i].1] is Mem implies 0 <= l2[rs[i].1]->Mem_0
        && l2[rs[i].1]->Mem_0 + 4 <= offset by {}
    assert forall|i: int, j: int| 0 <= i < j < k + 1 && l2[#[trigger] rs[i].1] is Mem implies l2[rs[i].1]
        != l2[#[trigger] rs[j].1] by {}
}

/// Giving `rs[k]` a slot of the stack keeps track of the allocation.
proof fn lemma_track_memory(
    active: Seq<(Range, u32, RegID)>,
    act: Seq<int>,
    rs: Seq<(Range, u32)>,
    k: int,
    l: Map<u32, Place>,
    offset: int,
)
    requires
        k < rs.len(),
        distinct_values(rs),
        tracking(active, act, rs, k, l, offset, rs[k].0.begin as int),
        offset <= i32::MAX,
    ensures
        tracking(active, act, rs, k + 1, l.insert(rs[k].1, Place::Mem(offset as i32)), offset + 4, rs[k].0.begin as int),
{
    let l2 = l.insert(rs[k].1, Place::Mem(offset as i32));
    assert forall|i: int| 0 <= i < k implies #[trigger] l2[rs[i].1] == l[rs[i].1] by {
        assert(rs[i].1 != rs[k].1);
    }
    assert forall|a: int| 0 <= a < act.len() implies l2[(#[trigger] active[a]).1] == Place::Reg(active[a].2) by {
        assert(l2[rs[act[a]].1] == l[rs[act[a]].1]);
    }
    assert forall|i: int| 0 <= i < k + 1 implies l2.contains_key(#[trigger] rs[i].1) by {}
    assert forall|i: int| 0 <= i < k + 1 && l2[#[trigger] rs[i].1] is Reg implies allocatable(l2[rs[i].1]->Reg_0) by {}
    assert forall|i: int| 0 <= i < k + 1 && l2[#[trigger] rs[i].1] is Reg && !in_act(act, i) implies rs[i].0.end
        < rs[k].0.begin by {}
    assert forall|i: int, j: int|
        0 <= i < j < k + 1 && l2[#[trigger] rs[i].1] is Reg && l2[rs[i].1] == l2[#[trigger] rs[j].1] implies rs[i].0.end
            < rs[j].0.begin by {}
    assert forall|i: int| 0 <= i < k + 1 && l2[#[trigger] rs[i].1] is Mem implies 0 <= l2[rs[i].1]->Mem_0
        && l2[rs[i].1]->Mem_0 + 4 <= offset + 4 by {}
    assert forall|i: int, j: int| 0 <= i < j < k + 1 && l2[#[trigger] rs[i].1] is Mem implies l2[rs[i].1]
        != l2[#[trigger] rs[j].1] by {}
}

/// Handing the register of the last active value to `rs[k]`, and that value
/// a slot of the stack, keeps track of the allocation.
proof fn lemma_track_steal(
    active: Seq<(Range, u32, RegID)>,
    act: Seq<int>,
    rs: Seq<(Range, u32)>,
    k: int,
    l: Map<u32, Place>,
    offset: int,
    pos: int,
)
    requires
        k < rs.len(),
        distinct_values(rs),
        tracking(active, act, rs, k, l, offset, rs[k].0.begin as int),
        active.len() > 0,
        forall|a: int, b: int| 0 <= a < b < active.len() ==> active[a].2 != active[b].2,
        offset <= i32::MAX,
        0 <= pos < active.len(),
    ensures
        tracking(
            active.drop_last().insert(pos, (rs[k].0, rs[k].1, active.last().2)),
            act.drop_last().insert(pos, k),
            rs,
            k + 1,
            l.insert(rs[k].1, Place::Reg(active.last().2)).insert(active.last().1, Place::Mem(offset as i32)),
            offset + 4,
            rs[k].0.begin as int,
        ),
{
    let n = active.len() - 1;
    let last = active.last();
    let li = act[n];
    let reg = last.2;
    let active2 = active.drop_last().insert(pos, (rs[k].0, rs[k].1, reg));
    let act2 = act.drop_last().insert(pos, k);
    let l2 = l.insert(rs[k].1, Place::Reg(reg)).insert(last.1, Place::Mem(offset as i32));
    assert(active[n] == last);
    assert(rs[li].1 == last.1);
    assert forall|i: int| 0 <= i < k && i != li implies #[trigger] l2[rs[i].1] == l[rs[i].1] by {
        assert(rs[i].1 != rs[k].1);
        assert(rs[i].1 != rs[li].1);
    }
    assert(l2[rs[li].1] == Place::Mem(offset as i32));
    assert(l2[rs[k].1] == Place::Reg(reg)) by {
        assert(rs[k].1 != rs[li].1);
    }
    assert forall|a: int| 0 <= a < act2.len() implies 0 <= #[trigger] act2[a] < k + 1 && rs[act2[a]].0 == active2[a].0
        && rs[act2[a]].1 == active2[a].1 by {
        if a < pos {
            assert(act2[a] == act[a] && active2[a] == active[a]);
        } else if a > pos {
            assert(act2[a] == act[a - 1] && active2[a] == active[a - 1]);
        }
    }
    assert forall|a: int, b: int| 0 <= a < b < act2.len() implies act2[a] != act2[b] by {
        if a != pos && b != pos {
            let a1 = if a < pos { a } else { a - 1 };
            let b1 = if b < pos { b } else { b - 1 };
            assert(act2[a] == act[a1] && act2[b] == act[b1]);
        } else if a == pos {
            let b1 = if b < pos { b } else { b - 1 };
            assert(act2[b] == act[b1]);
        } else {
            let a1 = if a < pos { a } else { a - 1 };
            assert(act2[a] == act[a1]);
        }
    }
    assert forall|a: int| 0 <= a < act2.len() implies l2[(#[trigger] active2[a]).1] == Place::Reg(active2[a].2) by {
        if a != pos {
            let a1 = if a < pos { a } else { a - 1 };
            assert(active2[a] == active[a1]);
            assert(act[a1] != li);
            assert(l2[rs[act[a1]].1] == l[rs[act[a1]].1]);
        }
    }
    assert forall|i: int| 0 <= i < k + 1 implies l2.contains_key(#[trigger] rs[i].1) by {}
    assert forall|i: int| 0 <= i < k + 1 && l2[#[trigger] rs[i].1] is Reg implies allocatable(l2[rs[i].1]->Reg_0) by {
        if i == k {
            assert(allocatable(l[rs[li].1]->Reg_0));
        } else if i != li {
            assert(l2[rs[i].1] == l[rs[i].1]);
        }
    }
    assert forall|i: int| 0 <= i < k + 1 && l2[#[trigger] rs[i].1] is Reg && !in_act(act2, i) implies rs[i].0.end
        < rs[k].0.begin by {
        if i == k {
            assert(act2[pos] == k);
        } else if i != li {
            assert(l2[rs[i].1] == l[rs[i].1]);
            if in_act(act, i) {
                let a = choose|a: int| 0 <= a < act.len() && act[a] == i;
                assert(a != n);
                let a2 = if a < pos { a } else { a + 1 };
                assert(act2[a2] == i);
            }
        }
    }
    assert forall|i: int, j: int|
        0 <= i < j < k + 1 && l2[#[trigger] rs[i].1] is Reg && l2[rs[i].1] == l2[#[trigger] rs[j].1] implies rs[i].0.end
            < rs[j].0.begin by {
        if i != li && j != li {
            assert(l2[rs[i].1] == l[rs[i].1]);
            if j == k {
                if in_act(act, i) {
                    let a = choose|a: int| 0 <= a < act.len() && act[a] == i;
                    assert(a != n);
                    assert(active[a].2 == reg);
                    assert(active[a].2 != active[n].2);
                }
            } else {
                assert(l2[rs[j].1] == l[rs[j].1]);
            }
        }
    }
    assert forall|i: int| 0 <= i < k + 1 && l2[#[trigger] rs[i].1] is Mem implies 0 <= l2[rs[i].1]->Mem_0
        && l2[rs[i].1]->Mem_0 + 4 <= offset + 4 by {
        if i != li && i != k {
            assert(l2[rs[i].1] == l[rs[i].1]);
        }
    }
    assert forall|i: int, j: int| 0 <= i < j < k + 1 && l2[#[trigger] rs[i].1] is Mem implies l2[rs[i].1]
        != l2[#[trigger] rs[j].1] by {
        if i != li && j != li && j != k {
            assert(l2[rs[i].1] == l[rs[i].1]);
            assert(l2[rs[j].1] == l[rs[j].1]);
        } else if i == li && j != k {
            assert(l2[rs[j].1] == l[rs[j].1]);
        } else if j == li {
            assert(l2[rs[i].1] == l[rs[i].1]);
        }
    }
}

impl RegAllocator {
    /// Frees the registers of the active values whose ranges end before `r`
    /// begins: a prefix of the active values, as they are ordered by end.
    fn expire_old_interval(&mut self, r: Range) -> (m: Ghost<int>)
        requires
            old(self).pool_shape(),
            old(self).flags_match(),
        ensures
            final(self).pool_shape(),
            final(self).flags_match(),
            0 <= m@ <= old(self).active@.len(),
            final(self).active@ == old(self).active@.subrange(m@, old(self).active@.len() as int),
            forall|a: int| 0 <= a < m@ ==> (#[trigger] old(self).active@[a]).0.end < r.begin,
            final(self).offset == old(self).offset,
            final(self).places == old(self).places,
            final(self).max_reg == old(self).max_reg,
            final(self).spill_size == old(self).spill_size,
    {
        let mut m: usize = 0;
        while m < self.active.len() && self.active[m].0.end < r.begin
            invariant
                m <= self.active@.len(),
                self.active@ == old(self).active@,
                forall|a: int| 0 <= a < m ==> (#[trigger] self.active@[a]).0.end < r.begin,
            decreases self.active@.len() - m,
        {
            m = m + 1;
        }
        let ghost a0 = old(self).active@;
        let ghost n = a0.len() as int;
        let mut idx = m;
        while idx > 0
            invariant
                idx <= m <= n,
                n == a0.len(),
                a0 == old(self).active@,
                self.pool_shape(),
                self.flags_match(),
                self.active@ == a0.subrange(0, idx as int) + a0.subrange(m as int, n),
                forall|a: int| 0 <= a < m ==> (#[trigger] a0[a]).0.end < r.begin,
                self.offset == old(self).offset,
                self.places == old(self).places,
                self.max_reg == old(self).max_reg,
                self.spill_size == old(self).spill_size,
            decreases idx,
        {
            idx = idx - 1;
            let reg = self.active[idx].2;
            let ghost before = self.active@;
            let ghost p = choose|p: int| 0 <= p < 24 && #[trigger] pool_reg_index(p) == reg.0;
            proof {
                assert(allocatable(before[idx as int].2));
                assert(self.free_pool@[p].0 == reg);
                assert(held(before, reg));
            }
            self.free_reg(reg, Ghost(p));
            self.active.remove(idx);
            proof {
                assert(self.active@ =~= a0.subrange(0, idx as int) + a0.subrange(m as int, n));
                assert forall|q: int| 0 <= q < 24 implies ((#[trigger] self.free_pool@[q]).1 <==> !held(
                    self.active@,
                    self.free_pool@[q].0,
                )) by {
                    lemma_pool_reg_index(q);
                    if q == p {
                        if held(self.active@, reg) {
                            let a = choose|a: int| 0 <= a < self.active@.len() && (#[trigger] self.active@[a]).2 == reg;
                            let a1 = if a < idx { a } else { a + 1 };
                            assert(before[a1] == self.active@[a]);
                        }
                    } else {
                        if held(self.active@, self.free_pool@[q].0) {
                            let a = choose|a: int| 0 <= a < self.active@.len() && (#[trigger] self.active@[a]).2
                                == self.free_pool@[q].0;
                            let a1 = if a < idx { a } else { a + 1 };
                            assert(before[a1] == self.active@[a]);
                        }
                        if held(before, self.free_pool@[q].0) {
                            let a = choose|a: int| 0 <= a < before.len() && (#[trigger] before[a]).2 == self.free_pool@[q].0;
                            assert(a != idx);
                            let a1 = if a < idx { a } else { a - 1 };
                            assert(before[a] == self.active@[a1]);
                        }
                    }
                }
                assert forall|a: int| 0 <= a < self.active@.len() implies allocatable((#[trigger] self.active@[a]).2) by {
                    let a1 = if a < idx { a } else { a + 1 };
                    assert(before[a1] == self.active@[a]);
                }
                assert forall|a: int, b: int| 0 <= a < b < self.active@.len() implies self.active@[a].2
                    != self.active@[b].2 by {
                    let a1 = if a < idx { a } else { a + 1 };
                    let b1 = if b < idx { b } else { b + 1 };
                    assert(before[a1] == self.active@[a]);
                    assert(before[b1] == self.active@[b]);
                }
                assert forall|a: int, b: int| 0 <= a <= b < self.active@.len() implies self.active@[a].0.end
                    <= self.active@[b].0.end by {
                    let a1 = if a < idx { a } else { a + 1 };
                    let b1 = if b < idx { b } else { b + 1 };
                    assert(before[a1] == self.active@[a]);
                    assert(before[b1] == self.active@[b]);
                }
            }
        }
        proof {
            assert(self.active@ =~= a0.subrange(m as int, n));
        }
        Ghost(m as int)
    }

    /// Puts `e` among the active values, after those that end no later.
    fn insert_active(&mut self, e: (Range, u32, RegID)) -> (pos: Ghost<int>)
        requires
            sorted_by_end(old(self).active@),
        ensures
            0 <= pos@ <= old(self).active@.len(),
            final(self).active@ == old(self).active@.insert(pos@, e),
            sorted_by_end(final(self).active@),
            final(self).free_pool == old(self).free_pool,
            final(self).free_saved_regs == old(self).free_saved_regs,
            final(self).free_temp_regs == old(self).free_temp_regs,
            final(self).offset == old(self).offset,
            final(self).places == old(self).places,
            final(self).max_reg == old(self).max_reg,
            final(self).spill_size == old(self).spill_size,
    {
        let mut pos: usize = 0;
        while pos < self.active.len() && self.active[pos].0.end <= e.0.end
            invariant
                pos <= self.active@.len(),
                self.active@ == old(self).active@,
                forall|a: int| 0 <= a < pos ==> (#[trigger] self.active@[a]).0.end <= e.0.end,
            decreases self.active@.len() - pos,
        {
            pos = pos + 1;
        }
        self.active.insert(pos, e);
        proof {
            let s = self.active@;
            let o = old(self).active@;
            assert forall|a: int, b: int| 0 <= a <= b < s.len() implies s[a].0.end <= s[b].0.end by {
                if b < pos {
                    assert(s[a] == o[a] && s[b] == o[b]);
                } else if b == pos {
                    if a < pos {
                        assert(s[a] == o[a]);
                    }
                } else {
                    assert(s[b] == o[b - 1]);
                    if a < pos {
                        assert(s[a] == o[a]);
                    } else if a > pos {
                        assert(s[a] == o[a - 1]);
                    } else {
                        assert(o[pos as int].0.end > e.0.end);
                    }
                }
            }
        }
        Ghost(pos as int)
    }

    /// Gives `val` a free register: a caller-saved one where allowed and
    /// left, else a callee-saved one.
    fn alloca_register(&mut self, local: &mut HashMap<u32, Place>, r: Range, val: u32, allow_temp: bool) -> (res: Ghost<
        (RegID, int),
    >)
        requires
            old(self).pool_shape(),
            old(self).flags_match(),
            (allow_temp && old(self).free_temp_regs > 0) || old(self).free_saved_regs > 0,
        ensures
            final(self).pool_shape(),
            final(self).flags_match(),
            !held(old(self).active@, res@.0),
            allocatable(res@.0),
            allow_temp && old(self).free_temp_regs > 0 ==> !is_saved_index(res@.0.0 as int),
            !(allow_temp && old(self).free_temp_regs > 0) ==> is_saved_index(res@.0.0 as int),
            0 <= res@.1 <= old(self).active@.len(),
            final(self).active@ == old(self).active@.insert(res@.1, (r, val, res@.0)),
            final(local)@ == old(local)@.insert(val, Place::Reg(res@.0)),
            final(self).offset == old(self).offset,
            final(self).places == old(self).places,
            final(self).max_reg == old(self).max_reg,
            final(self).spill_size == old(self).spill_size,
    {
        let ghost p0 = self.free_pool@;
        let reg = if allow_temp && self.free_temp_regs > 0 {
            self.alloc_temp_reg()
        } else {
            self.alloc_saved_reg()
        };
        let ghost p = choose|p: int| 0 <= p < 24 && (#[trigger] p0[p]).1 && reg == p0[p].0 && self.free_pool@ == p0.update(p, (reg, false));
        proof {
            lemma_pool_reg_index(p);
            assert(p0[p].0.0 == pool_reg_index(p));
            assert(!held(old(self).active@, reg));
            assert(allocatable(reg));
        }
        local.insert(val, Place::Reg(reg));
        let Ghost(pos) = self.insert_active((r, val, reg));
        proof {
            let o = old(self).active@;
            let s = self.active@;
            assert forall|q: int| 0 <= q < 24 implies ((#[trigger] self.free_pool@[q]).1 <==> !held(s, self.free_pool@[q].0)) by {
                lemma_pool_reg_index(q);
                if q == p {
                    assert(s[pos] == (r, val, reg));
                } else {
                    assert(self.free_pool@[q] == p0[q]);
                    assert(self.free_pool@[q].0 != reg);
                    if held(s, p0[q].0) {
                        let a = choose|a: int| 0 <= a < s.len() && (#[trigger] s[a]).2 == p0[q].0;
                        assert(a != pos);
                        let a1 = if a < pos { a } else { a - 1 };
                        assert(o[a1] == s[a]);
                    }
                    if held(o, p0[q].0) {
                        let a = choose|a: int| 0 <= a < o.len() && (#[trigger] o[a]).2 == p0[q].0;
                        let a1 = if a < pos { a } else { a + 1 };
                        assert(o[a] == s[a1]);
                    }
                }
            }
            assert forall|a: int| 0 <= a < s.len() implies allocatable((#[trigger] s[a]).2) by {
                if a < pos {
                    assert(s[a] == o[a]);
                } else if a > pos {
                    assert(s[a] == o[a - 1]);
                }
            }
            assert forall|a: int, b: int| 0 <= a < b < s.len() implies s[a].2 != s[b].2 by {
                if a != pos && b != pos {
                    let a1 = if a < pos { a } else { a - 1 };
                    let b1 = if b < pos { b } else { b - 1 };
                    assert(s[a] == o[a1] && s[b] == o[b1]);
                } else if a == pos {
                    let b1 = if b < pos { b } else { b - 1 };
                    assert(s[b] == o[b1]);
                    assert(held(o, o[b1].2));
                } else {
                    let a1 = if a < pos { a } else { a - 1 };
                    assert(s[a] == o[a1]);
                    assert(held(o, o[a1].2));
                }
            }
        }
        Ghost((reg, pos))
    }

    /// With no register free: if the active value that lives longest outlives
    /// `r`, it goes to the stack and `val` takes its register; else `val`
    /// goes to the stack.
    fn spill_at_interval(&mut self, local: &mut HashMap<u32, Place>, r: Range, val: u32) -> (pos: Ghost<int>)
        requires
            old(self).pool_shape(),
            old(self).flags_match(),
            old(self).active@.len() > 0,
            old(self).offset + 4 <= i32::MAX,
        ensures
            final(self).pool_shape(),
            final(self).flags_match(),
            final(self).offset == old(self).offset + 4,
            final(self).free_pool == old(self).free_pool,
            final(self).places == old(self).places,
            final(self).max_reg == old(self).max_reg,
            final(self).spill_size == old(self).spill_size,
            ({
                let last = old(self).active@.last();
                if last.0.end > r.end {
                    &&& 0 <= pos@ < old(self).active@.len()
                    &&& final(self).active@ == old(self).active@.drop_last().insert(pos@, (r, val, last.2))
                    &&& final(local)@ == if old(local)@.insert(val, Place::Reg(last.2)).contains_key(last.1) {
                        old(local)@.insert(val, Place::Reg(last.2)).insert(last.1, Place::Mem(old(self).offset as i32))
                    } else {
                        old(local)@.insert(val, Place::Reg(last.2))
                    }
                } else {
                    &&& final(self).active@ == old(self).active@
                    &&& final(local)@ == old(local)@.insert(val, Place::Mem(old(self).offset as i32))
                }
            }),
    {
        let n = self.active.len();
        let (last_range, last_val, last_reg) = self.active[n - 1];
        if last_range.end > r.end {
            self.active.pop();
            let ghost o = old(self).active@;
            proof {
                assert(self.active@ =~= o.drop_last());
            }
            let Ghost(pos) = self.insert_active((r, val, last_reg));
            local.insert(val, Place::Reg(last_reg));
            if local.contains_key(&last_val) {
                local.insert(last_val, Place::Mem(self.offset as i32));
            }
            self.offset = self.offset + 4;
            proof {
                let s = self.active@;
                let d = o.drop_last();
                assert(o[n - 1] == (last_range, last_val, last_reg));
                assert forall|a: int| 0 <= a < d.len() implies o[a] == #[trigger] d[a] by {}
                assert forall|q: int| 0 <= q < 24 implies ((#[trigger] self.free_pool@[q]).1 <==> !held(s, self.free_pool@[q].0)) by {
                    if held(s, self.free_pool@[q].0) {
                        let a = choose|a: int| 0 <= a < s.len() && (#[trigger] s[a]).2 == self.free_pool@[q].0;
                        if a == pos {
                            assert(o[n - 1].2 == last_reg);
                        } else {
                            let a1 = if a < pos { a } else { a - 1 };
                            assert(s[a] == d[a1]);
                            assert(o[a1] == d[a1]);
                        }
                    }
                    if held(o, self.free_pool@[q].0) {
                        let a = choose|a: int| 0 <= a < o.len() && (#[trigger] o[a]).2 == self.free_pool@[q].0;
                        if a == n - 1 {
                            assert(s[pos] == (r, val, last_reg));
                        } else {
                            let a1 = if a < pos { a } else { a + 1 };
                            assert(d[a] == s[a1]);
                        }
                    }
                }
                assert forall|a: int| 0 <= a < s.len() implies allocatable((#[trigger] s[a]).2) by {
                    if a == pos {
                        assert(allocatable(o[n - 1].2));
                    } else {
                        let a1 = if a < pos { a } else { a - 1 };
                        assert(s[a] == d[a1]);
                    }
                }
                assert forall|a: int, b: int| 0 <= a < b < s.len() implies s[a].2 != s[b].2 by {
                    let a1 = if a == pos { n - 1 } else if a < pos { a } else { a - 1 };
                    let b1 = if b == pos { n - 1 } else if b < pos { b } else { b - 1 };
                    assert(s[a].2 == o[a1].2);
                    assert(s[b].2 == o[b1].2);
                    assert(a1 != b1);
                }
            }
            Ghost(pos)
        } else {
            local.insert(val, Place::Mem(self.offset as i32));
            self.offset = self.offset + 4;
            Ghost(0)
        }
    }
}

impl RegAllocator {
    /// Allocates the values of function `fid`, whose live ranges `ranges`
    /// come in order of their beginnings, and whose calls are at `calls`.
    fn alloca_function(&mut self, fid: u32, ranges: &Vec<(Range, u32)>, calls: &Vec<u32>) -> (res: Result<(), RegAllocError>)
        requires
            old(self).free_pool@.len() == 24,
            sorted_by_begin(ranges@),
            distinct_values(ranges@),
            ranges@.len() * 4 + 4 <= i32::MAX,
        ensures
            final(self).free_pool@.len() == 24,
            final(self).places@.dom() == old(self).places@.dom().insert(fid),
            final(self).spill_size@.dom() == old(self).spill_size@.dom().insert(fid) || res is Err,
            final(self).max_reg@.dom() == old(self).max_reg@.dom().insert(fid),
            forall|f: u32| f != fid ==> #[trigger] final(self).places@[f] == old(self).places@[f],
            forall|f: u32| f != fid ==> #[trigger] final(self).spill_size@[f] == old(self).spill_size@[f],
            forall|f: u32| f != fid ==> #[trigger] final(self).spill_size@.contains_key(f) == old(self).spill_size@.contains_key(f),
            forall|f: u32| f != fid ==> #[trigger] final(self).max_reg@[f] == old(self).max_reg@[f],
            res is Ok ==> allocation_ok(ranges@, final(self).places@[fid]@, final(self).spill_size@[fid] as int),
            res is Ok ==> final(self).max_reg@[fid] <= SAVED_REGS,
            res is Err ==> exists|j: int| 0 <= j < ranges@.len() && #[trigger] crosses_call(ranges@[j].0, calls@),
    {
        self.init(fid);
        let mut local: HashMap<u32, Place> = HashMap::new();
        let mut max_saved_reg: u32 = 0;
        let ghost mut act: Seq<int> = Seq::empty();
        let ghost rs = ranges@;
        let ghost places0 = self.places@;
        let ghost max0 = self.max_reg@;
        let ghost spill0 = self.spill_size@;
        let mut i: usize = 0;
        while i < ranges.len()
            invariant
                rs == ranges@,
                sorted_by_begin(rs),
                distinct_values(rs),
                rs.len() * 4 + 4 <= i32::MAX,
                self.pool_shape(),
                self.flags_match(),
                tracking(self.active@, act, rs, i as int, local@, self.offset as int, if i > 0 {
                    rs[i - 1].0.begin as int
                } else {
                    0
                }),
                max_saved_reg <= SAVED_REGS,
                self.places@ == places0,
                self.max_reg@ == max0,
                self.spill_size@ == spill0,
                places0.dom() == old(self).places@.dom().insert(fid),
                max0.dom() == old(self).max_reg@.dom().insert(fid),
                spill0 == old(self).spill_size@,
                forall|f: u32| f != fid ==> #[trigger] places0[f] == old(self).places@[f],
                forall|f: u32| f != fid ==> #[trigger] max0[f] == old(self).max_reg@[f],
            decreases rs.len() - i,
        {
            let (r, val) = ranges[i];
            let ghost a0 = self.active@;
            let Ghost(m) = self.expire_old_interval(r);
            proof {
                lemma_track_expire(a0, act, rs, i as int, local@, self.offset as int, m);
                act = act.subrange(m, act.len() as int);
                lemma_count_free_bound(self.free_pool@, 0, 12);
                lemma_count_free_bound(self.free_pool@, 12, 24);
            }
            if self.free_saved_regs + self.free_temp_regs == 0 {
                proof {
                    lemma_count_free_zero(self.free_pool@, 0, 12, 0);
                    assert(held(self.active@, self.free_pool@[0].0));
                }
                let ghost a1 = self.active@;
                let ghost l1 = local@;
                let ghost off = self.offset as int;
                let Ghost(pos) = self.spill_at_interval(&mut local, r, val);
                proof {
                    if a1.last().0.end > r.end {
                        let n = a1.len() - 1;
                        assert(a1[n] == a1.last());
                        assert(rs[act[n]].1 == a1.last().1);
                        assert(l1.contains_key(rs[act[n]].1));
                        assert(rs[i as int] == (r, val));
                        lemma_track_steal(a1, act, rs, i as int, l1, off, pos);
                        act = act.drop_last().insert(pos, i as int);
                    } else {
                        assert(rs[i as int] == (r, val));
                        lemma_track_memory(a1, act, rs, i as int, l1, off);
                    }
                }
            } else {
                let allow_temp = !self.contains_call(r, calls);
                if !(allow_temp && self.free_temp_regs > 0) && self.free_saved_regs == 0 {
                    proof {
                        assert(crosses_call(rs[i as int].0, calls@));
                    }
                    self.places.insert(fid, local);
                    return Err(RegAllocError::NoSavedRegister);
                }
                let ghost a1 = self.active@;
                let ghost l1 = local@;
                let got = self.alloca_register(&mut local, r, val, allow_temp);
                proof {
                    let reg = got@.0;
                    let pos = got@.1;
                    assert(rs[i as int] == (r, val));
                    lemma_track_register(a1, act, rs, i as int, l1, self.offset as int, reg, pos);
                    act = act.insert(pos, i as int);
                    lemma_count_free_bound(self.free_pool@, 0, 12);
                }
                let used = SAVED_REGS - self.free_saved_regs;
                if max_saved_reg < used {
                    max_saved_reg = used;
                }
            }
            i = i + 1;
        }
        self.spill_size.insert(fid, self.offset);
        self.max_reg.insert(fid, max_saved_reg as usize);
        self.places.insert(fid, local);
        Ok(())
    }
}

/// Whether none of the first `n` functions of `rs` is `f`.
pub open spec fn fid_absent(rs: Seq<(u32, Vec<(Range, u32)>)>, n: int, f: u32) -> bool {
    forall|j: int| 0 <= j < n ==> (#[trigger] rs[j]).0 != f
}

/// Whether each function of `lr` comes once, with its ranges in order of
/// their beginnings, each value once, and its calls recorded.
pub open spec fn live_ranges_ok(lr: &LiveRange) -> bool {
    &&& forall|k1: int, k2: int| 0 <= k1 < k2 < lr.ranges@.len() ==> lr.ranges@[k1].0 != lr.ranges@[k2].0
    &&& forall|k: int|
        0 <= k < lr.ranges@.len() ==> {
            &&& sorted_by_begin((#[trigger] lr.ranges@[k]).1@)
            &&& distinct_values(lr.ranges@[k].1@)
            &&& lr.ranges@[k].1@.len() * 4 + 4 <= i32::MAX
            &&& calls_entry(lr.function_calls@, lr.ranges@[k].0) is Some
        }
}

/// Tells whether the ranges of one function come in order of their
/// beginnings, give no value twice and are few enough to number in bytes.
fn check_ranges(rs: &Vec<(Range, u32)>) -> (r: bool)
    ensures
        r == (sorted_by_begin(rs@) && distinct_values(rs@) && rs@.len() * 4 + 4 <= i32::MAX),
{
    if rs.len() > 0x1fff_fffe {
        return false;
    }
    let mut m: usize = 0;
    while m < rs.len()
        invariant
            m <= rs@.len(),
            rs@.len() <= 0x1fff_fffe,
            sorted_by_begin(rs@.subrange(0, m as int)),
            distinct_values(rs@.subrange(0, m as int)),
        decreases rs@.len() - m,
    {
        if m > 0 && rs[m - 1].0.begin > rs[m].0.begin {
            proof {
                assert(!sorted_by_begin(rs@)) by {
                    assert(rs@[m - 1].0.begin > rs@[m as int].0.begin);
                }
            }
            return false;
        }
        let mut i: usize = 0;
        while i < m
            invariant
                m < rs@.len(),
                i <= m,
                forall|j: int| 0 <= j < i ==> rs@[j].1 != rs@[m as int].1,
            decreases m - i,
        {
            if rs[i].1 == rs[m].1 {
                proof {
                    assert(!distinct_values(rs@)) by {
                        assert(rs@[i as int].1 == rs@[m as int].1);
                    }
                }
                return false;
            }
            i = i + 1;
        }
        proof {
            let s0 = rs@.subrange(0, m as int);
            let s1 = rs@.subrange(0, m + 1);
            assert forall|a: int, b: int| 0 <= a <= b < s1.len() implies s1[a].0.begin <= s1[b].0.begin by {
                if b == m && a < b {
                    assert(s0[a].0.begin <= s0[m - 1].0.begin);
                }
            }
            assert forall|a: int, b: int| 0 <= a < b < s1.len() implies s1[a].1 != s1[b].1 by {
                if b < m {
                    assert(s0[a].1 != s0[b].1);
                }
            }
        }
        m = m + 1;
    }
    proof {
        assert(rs@.subrange(0, rs@.len() as int) =~= rs@);
    }
    true
}

/// Tells whether `live_ranges` is what `RegAllocator::alloca` takes: no
/// function twice, and for each function ranges in order of their
/// beginnings, no value twice, few enough ranges, and a record of calls.
pub fn check_live_ranges(lr: &LiveRange) -> (r: bool)
    ensures
        r == live_ranges_ok(lr),
{
    let n = lr.ranges.len();
    let mut k: usize = 0;
    while k < n
        invariant
            n == lr.ranges@.len(),
            k <= n,
            forall|k1: int, k2: int| 0 <= k1 < k2 < k ==> lr.ranges@[k1].0 != lr.ranges@[k2].0,
            forall|j: int|
                0 <= j < k ==> {
                    &&& sorted_by_begin((#[trigger] lr.ranges@[j]).1@)
                    &&& distinct_values(lr.ranges@[j].1@)
                    &&& lr.ranges@[j].1@.len() * 4 + 4 <= i32::MAX
                    &&& calls_entry(lr.function_calls@, lr.ranges@[j].0) is Some
                },
        decreases n - k,
    {
        let fid = lr.ranges[k].0;
        let mut i: usize = 0;
        while i < k
            invariant
                n == lr.ranges@.len(),
                k < n,
                fid == lr.ranges@[k as int].0,
                i <= k,
                forall|j: int| 0 <= j < i ==> lr.ranges@[j].0 != fid,
            decreases k - i,
        {
            if lr.ranges[i].0 == fid {
                return false;
            }
            i = i + 1;
        }
        if !check_ranges(&lr.ranges[k].1) {
            return false;
        }
        match lr.calls_of(fid) {
            Some(_) => {},
            None => {
                return false;
            },
        }
        k = k + 1;
    }
    true
}

impl RegAllocator {
    /// Allocates the values of every function of `live_ranges`. Fails where
    /// a value that lives across a call finds every callee-saved register
    /// taken while some other register is free.
    pub fn alloca(&mut self, live_ranges: &LiveRange) -> (res: Result<(), RegAllocError>)
        requires
            live_ranges_ok(live_ranges),
        ensures
            final(self).pool_len() == 24,
            res is Err ==> some_value_crosses_call(live_ranges),
            res is Ok ==> forall|k: int|
                0 <= k < live_ranges.ranges@.len() ==> {
                    let fid = (#[trigger] live_ranges.ranges@[k]).0;
                    &&& final(self).place_map().contains_key(fid)
                    &&& final(self).spill_map().contains_key(fid)
                    &&& final(self).max_reg_map().contains_key(fid)
                    &&& allocation_ok(
                        live_ranges.ranges@[k].1@,
                        final(self).place_map()[fid]@,
                        final(self).spill_map()[fid] as int,
                    )
                    &&& final(self).max_reg_map()[fid] <= SAVED_REGS
                },
            forall|f: u32|
                #[trigger] fid_absent(live_ranges.ranges@, live_ranges.ranges@.len() as int, f) ==> {
                    &&& final(self).place_map().contains_key(f) == old(self).place_map().contains_key(f)
                    &&& final(self).place_map()[f] == old(self).place_map()[f]
                    &&& final(self).spill_map().contains_key(f) == old(self).spill_map().contains_key(f)
                    &&& final(self).spill_map()[f] == old(self).spill_map()[f]
                    &&& final(self).max_reg_map().contains_key(f) == old(self).max_reg_map().contains_key(f)
                    &&& final(self).max_reg_map()[f] == old(self).max_reg_map()[f]
                },
    {
        self.free_pool.resize(24, (RegID(8), true));
        let mut k: usize = 0;
        while k < live_ranges.ranges.len()
            invariant
                live_ranges_ok(live_ranges),
                k <= live_ranges.ranges@.len(),
                self.free_pool@.len() == 24,
                forall|j: int|
                    0 <= j < k ==> {
                        let fid = (#[trigger] live_ranges.ranges@[j]).0;
                        &&& self.places@.contains_key(fid)
                        &&& self.spill_size@.contains_key(fid)
                        &&& self.max_reg@.contains_key(fid)
                        &&& allocation_ok(live_ranges.ranges@[j].1@, self.places@[fid]@, self.spill_size@[fid] as int)
                        &&& self.max_reg@[fid] <= SAVED_REGS
                    },
                forall|f: u32|
                    #[trigger] fid_absent(live_ranges.ranges@, k as int, f) ==> {
                        &&& self.places@.contains_key(f) == old(self).places@.contains_key(f)
                        &&& self.places@[f] == old(self).places@[f]
                        &&& self.spill_size@.contains_key(f) == old(self).spill_size@.contains_key(f)
                        &&& self.spill_size@[f] == old(self).spill_size@[f]
                        &&& self.max_reg@.contains_key(f) == old(self).max_reg@.contains_key(f)
                        &&& self.max_reg@[f] == old(self).max_reg@[f]
                    },
            decreases live_ranges.ranges@.len() - k,
        {
            let fid = live_ranges.ranges[k].0;
            let calls = match live_ranges.calls_of(fid) {
                Some(c) => c,
                None => {
                    proof {
                        assert(calls_entry(live_ranges.function_calls@, live_ranges.ranges@[k as int].0) is Some);
                    }
                    return Err(RegAllocError::NoSavedRegister);
                },
            };
            proof {
                assert(sorted_by_begin(live_ranges.ranges@[k as int].1@));
            }
            let ghost pre_places = self.places@;
            let ghost pre_spill = self.spill_size@;
            let ghost pre_max = self.max_reg@;
            let res = self.alloca_function(fid, &live_ranges.ranges[k].1, calls);
            proof {
                assert forall|f: u32| #[trigger] fid_absent(live_ranges.ranges@, k + 1, f) implies {
                    &&& self.places@.contains_key(f) == old(self).places@.contains_key(f)
                    &&& self.places@[f] == old(self).places@[f]
                    &&& self.spill_size@.contains_key(f) == old(self).spill_size@.contains_key(f)
                    &&& self.spill_size@[f] == old(self).spill_size@[f]
                    &&& self.max_reg@.contains_key(f) == old(self).max_reg@.contains_key(f)
                    &&& self.max_reg@[f] == old(self).max_reg@[f]
                } by {
                    assert(live_ranges.ranges@[k as int].0 != f);
                    assert(fid_absent(live_ranges.ranges@, k as int, f));
                    assert(pre_places.contains_key(f) == old(self).places@.contains_key(f));
                    assert(pre_places[f] == old(self).places@[f]);
                    assert(pre_spill.contains_key(f) == old(self).spill_size@.contains_key(f));
                    assert(pre_spill[f] == old(self).spill_size@[f]);
                    assert(pre_max.contains_key(f) == old(self).max_reg@.contains_key(f));
                    assert(pre_max[f] == old(self).max_reg@[f]);
                }
                assert forall|f: u32| #[trigger] fid_absent(live_ranges.ranges@, live_ranges.ranges@.len() as int, f) implies
                    fid_absent(live_ranges.ranges@, k + 1, f) by {}
            }
            if res.is_err() {
                proof {
                    let j = choose|j: int| 0 <= j < live_ranges.ranges@[k as int].1@.len() && #[trigger] crosses_call(
                        live_ranges.ranges@[k as int].1@[j].0,
                        calls@,
                    );
                    assert(crosses_call(
                        live_ranges.ranges@[k as int].1@[j].0,
                        calls_entry(live_ranges.function_calls@, live_ranges.ranges@[k as int].0)->Some_0,
                    ));
                }
                return res;
            }
            proof {
                assert forall|j: int| 0 <= j < k + 1 implies {
                    let f = (#[trigger] live_ranges.ranges@[j]).0;
                    &&& self.places@.contains_key(f)
                    &&& self.spill_size@.contains_key(f)
                    &&& self.max_reg@.contains_key(f)
                    &&& allocation_ok(live_ranges.ranges@[j].1@, self.places@[f]@, self.spill_size@[f] as int)
                    &&& self.max_reg@[f] <= SAVED_REGS
                } by {
                    if j < k {
                        assert(live_ranges.ranges@[j].0 != fid);
                    }
                }
            }
            k = k + 1;
        }
        proof {
            assert forall|f: u32| #[trigger] fid_absent(live_ranges.ranges@, live_ranges.ranges@.len() as int, f) implies
                fid_absent(live_ranges.ranges@, k as int, f) by {}
        }
        Ok(())
    }
}

/// Two values that share a register never meet: where the analysis gives
/// the first a range covering its definition and its uses, neither its
/// definition nor any of its uses lies in the range of the second, so the
/// second never overwrites the register while the first is live.
pub proof fn lemma_register_never_clobbered(
    rs: Seq<(Range, u32)>,
    places: Map<u32, Place>,
    size: int,
    i: int,
    j: int,
    def: u32,
    uses: Seq<u32>,
)
    requires
        allocation_ok(rs, places, size),
        0 <= i < rs.len(),
        0 <= j < rs.len(),
        i != j,
        places[rs[i].1] is Reg,
        places[rs[i].1] == places[rs[j].1],
        covers(rs[i].0, def, uses),
    ensures
        !(rs[j].0.begin <= def <= rs[j].0.end),
        forall|k: int| 0 <= k < uses.len() ==> !(rs[j].0.begin <= #[trigger] uses[k] <= rs[j].0.end),
{
    if i < j {
        assert(rs[i].0.end < rs[j].0.begin);
    } else {
        assert(places[rs[j].1] is Reg && places[rs[j].1] == places[rs[i].1]);
        assert(rs[j].0.end < rs[i].0.begin);
    }
}

proof fn lemma_count_all_free(p: Seq<(RegID, bool)>, lo: int, hi: int)
    requires
        0 <= lo <= hi <= p.len(),
        forall|i: int| lo <= i < hi ==> (#[trigger] p[i]).1,
    ensures
        count_free(p, lo, hi) == hi - lo,
    decreases hi - lo,
{
    if lo < hi {
        lemma_count_all_free(p, lo, hi - 1);
    }
}

} // verus!
