use std::collections::HashMap;

use vstd::prelude::*;

use crate::codegen::context::{Place, RegID};
use crate::codegen::program::{
    compress_all, compress_measure, compress_safe, compress_step, ir_binary_lines, ir_binary_supported, muli_lines,
    mv_scan, with_dst, zero_reg, AsmBinaryOp, AsmProgram, AsmUnaryOp, AsmValue, BranchOp, Directive, IrBinaryOp,
    MvScan,
};
use crate::decimal::{dec_nat, push_dec};
use crate::ir::{pointee, ty_size, FunctionData, IrType, Program, ValueKind};

verus! {

/// A line of assembly with its labels as character sequences.
pub enum Line {
    LoadAddress(RegID, Seq<char>),
    LoadImm(RegID, i32),
    Load(RegID, RegID, i32),
    Store(RegID, RegID, i32),
    Binary(AsmBinaryOp, RegID, RegID, RegID),
    BinaryImm(AsmBinaryOp, RegID, RegID, i32),
    Unary(AsmUnaryOp, RegID, RegID),
    Branch(BranchOp, RegID, RegID, Seq<char>),
    Jump(Seq<char>),
    Call(Seq<char>),
    Directive(Directive),
    GlobalSymbol(Seq<char>),
    LocalSymbol(Seq<char>),
    Return,
}

/// The line that an assembly value stands for.
pub open spec fn line(v: AsmValue) -> Line {
    match v {
        AsmValue::LoadAddress(d, l) => Line::LoadAddress(d, l@),
        AsmValue::LoadImm(d, i) => Line::LoadImm(d, i),
        AsmValue::Load(d, s, o) => Line::Load(d, s, o),
        AsmValue::Store(s, d, o) => Line::Store(s, d, o),
        AsmValue::Binary(op, d, l, r) => Line::Binary(op, d, l, r),
        AsmValue::BinaryImm(op, d, l, i) => Line::BinaryImm(op, d, l, i),
        AsmValue::Unary(op, d, s) => Line::Unary(op, d, s),
        AsmValue::Branch(op, a, b, l) => Line::Branch(op, a, b, l@),
        AsmValue::Jump(l) => Line::Jump(l@),
        AsmValue::Call(l) => Line::Call(l@),
        AsmValue::Directive(d) => Line::Directive(d),
        AsmValue::GlobalSymbol(l) => Line::GlobalSymbol(l@),
        AsmValue::LocalSymbol(l) => Line::LocalSymbol(l@),
        AsmValue::Return => Line::Return,
    }
}

/// The lines of a program.
pub open spec fn lines(s: Seq<AsmValue>) -> Seq<Line> {
    s.map_values(|v: AsmValue| line(v))
}

pub proof fn lemma_lines_push(s: Seq<AsmValue>, v: AsmValue)
    ensures
        lines(s.push(v)) == lines(s).push(line(v)),
{
    assert(lines(s.push(v)) =~= lines(s).push(line(v)));
}

pub proof fn lemma_lines_add(s: Seq<AsmValue>, t: Seq<AsmValue>)
    ensures
        lines(s + t) == lines(s) + lines(t),
{
    assert(lines(s + t) =~= lines(s) + lines(t));
}

/// What the code generator knows of the function being generated: its
/// number, the place of each local value, the offset in the frame of each
/// local array, the label of each block, the size of the frame, whether it
/// calls no function, the range of the frame where the callee-saved
/// registers are kept, and where the spilled values and the local arrays begin.
#[derive(Debug)]
pub struct FunctionInfo {
    pub id: usize,
    pub local_values: HashMap<usize, Place>,
    pub local_arrays: HashMap<usize, i32>,
    pub blocks: HashMap<usize, String>,
    pub ss: i32,
    pub is_leaf: bool,
    pub saved_regs: (i32, i32),
    pub base_offset: i32,
    pub spilled_size: i32,
}

/// The state of the code generator: the program, the label of each global
/// variable, the number given to each function with a body, the function
/// being generated and the count of its labelled blocks.
#[derive(Debug)]
pub struct Context<'i> {
    pub program: &'i Program,
    pub global_values: HashMap<usize, String>,
    pub functions: HashMap<usize, usize>,
    pub cur_func: Option<FunctionInfo>,
    pub nametag: usize,
}

/// The register `ra`.
pub open spec fn ra_reg() -> RegID {
    RegID(1)
}

/// The register `sp`.
pub open spec fn sp() -> RegID {
    RegID(2)
}

/// The scratch register `t0`.
pub open spec fn t0() -> RegID {
    RegID(5)
}

/// The scratch register `t1`.
pub open spec fn t1() -> RegID {
    RegID(6)
}

/// The scratch register `t2`.
pub open spec fn t2() -> RegID {
    RegID(7)
}

/// The argument register `a{i}`.
pub open spec fn arg_reg(i: int) -> RegID {
    RegID((10 + i) as usize)
}

/// The callee-saved register `s{i}`.
pub open spec fn saved_reg(i: int) -> RegID {
    if i < 2 {
        RegID((8 + i) as usize)
    } else {
        RegID((16 + i) as usize)
    }
}

impl<'i> Context<'i> {
    /// The function being generated.
    pub open spec fn cur(&self) -> FunctionInfo {
        self.cur_func->0
    }

    /// Whether `val` is a global value: so is every value outside functions.
    pub open spec fn spec_is_global(&self, val: usize) -> bool {
        self.cur_func is None || self.global_values@.contains_key(val)
    }

    /// Whether `val` can be read: a global value has a label, an integer is
    /// loaded as an immediate, any other value has a place.
    pub open spec fn readable(&self, val: usize) -> bool {
        &&& val < self.program.values@.len()
        &&& if self.spec_is_global(val) {
            self.global_values@.contains_key(val)
        } else {
            self.program.values@[val as int].kind is Integer || self.cur().local_values@.contains_key(val)
        }
    }

    /// Whether `val` can be written or addressed: it has a label or a place.
    pub open spec fn writable(&self, val: usize) -> bool {
        &&& val < self.program.values@.len()
        &&& if self.spec_is_global(val) {
            self.global_values@.contains_key(val)
        } else {
            self.cur().local_values@.contains_key(val)
        }
    }

    pub fn new(program: &'i Program) -> (r: Self)
        ensures
            r.program == program,
            r.global_values@ == Map::<usize, String>::empty(),
            r.functions@ == Map::<usize, usize>::empty(),
            r.cur_func is None,
            r.nametag == 0,
    {
        Context {
            program,
            global_values: HashMap::new(),
            functions: HashMap::new(),
            cur_func: None,
            nametag: 0,
        }
    }

    pub fn is_global(&self, val: usize) -> (r: bool)
        ensures
            r == self.spec_is_global(val),
    {
        match &self.cur_func {
            None => true,
            Some(_) => self.global_values.contains_key(&val),
        }
    }

    /// The label of global variable `val`.
    pub fn get_global_var(&self, val: usize) -> (r: &String)
        requires
            self.global_values@.contains_key(val),
        ensures
            *r == self.global_values@[val],
    {
        self.global_values.get(&val).unwrap()
    }

    /// The place of local value `val` in the current function.
    pub fn get_local_place(&self, val: usize) -> (r: Place)
        requires
            self.cur_func is Some,
            self.cur().local_values@.contains_key(val),
        ensures
            r == self.cur().local_values@[val],
    {
        match &self.cur_func {
            Some(f) => match f.local_values.get(&val) {
                Some(p) => *p,
                None => {
                    proof { assert(false); }
                    Place::Mem(0)
                },
            },
            None => Place::Mem(0),
        }
    }

    /// The kind of value `val`.
    pub fn value_kind(&self, val: usize) -> (r: &ValueKind)
        requires
            val < self.program.values@.len(),
        ensures
            *r == self.program.values@[val as int].kind,
    {
        &self.program.values[val].kind
    }
}

/// The lines that read the address held by `val` into `dst`, and the
/// register that then holds it: the label of a global, the register of a
/// value in a register, or a load of a spilled value.
pub open spec fn read_addr_spec(ctx: Context, dst: RegID, val: usize) -> (Seq<Line>, RegID) {
    if ctx.spec_is_global(val) {
        (seq![Line::LoadAddress(dst, ctx.global_values@[val]@)], dst)
    } else {
        match ctx.cur().local_values@[val] {
            Place::Reg(id) => (Seq::empty(), id),
            Place::Mem(off) => (seq![Line::Load(dst, sp(), off)], dst),
        }
    }
}

/// The lines that read the value `val` into `dst`, and the register that
/// then holds it: a global is loaded through its label, an integer is an
/// immediate.
pub open spec fn read_spec(ctx: Context, dst: RegID, val: usize) -> (Seq<Line>, RegID) {
    if ctx.spec_is_global(val) {
        (seq![Line::LoadAddress(dst, ctx.global_values@[val]@), Line::Load(dst, dst, 0)], dst)
    } else if ctx.program.values@[val as int].kind is Integer {
        (seq![Line::LoadImm(dst, ctx.program.values@[val as int].kind->Integer_0)], dst)
    } else {
        match ctx.cur().local_values@[val] {
            Place::Reg(id) => (Seq::empty(), id),
            Place::Mem(off) => (seq![Line::Load(dst, sp(), off)], dst),
        }
    }
}

/// The lines that store register `src` into `val`.
pub open spec fn write_back_spec(ctx: Context, src: RegID, val: usize) -> Seq<Line> {
    if ctx.spec_is_global(val) {
        seq![Line::LoadAddress(t0(), ctx.global_values@[val]@), Line::Store(src, t0(), 0)]
    } else {
        match ctx.cur().local_values@[val] {
            Place::Reg(reg) => if reg != src {
                seq![Line::Unary(AsmUnaryOp::Move, reg, src)]
            } else {
                Seq::empty()
            },
            Place::Mem(off) => seq![Line::Store(src, sp(), off)],
        }
    }
}

/// The program after moving local value `src` into local value `dst`: an
/// integer is loaded as an immediate; a move between registers is dropped
/// where the line that computed `src` can write `dst` instead.
pub open spec fn move_spec(ctx: Context, s: Seq<AsmValue>, dst: usize, src: usize) -> Seq<AsmValue> {
    if ctx.program.values@[src as int].kind is Integer {
        let imm = ctx.program.values@[src as int].kind->Integer_0;
        match ctx.cur().local_values@[dst] {
            Place::Reg(d) => s.push(AsmValue::LoadImm(d, imm)),
            Place::Mem(off) => s.push(AsmValue::LoadImm(t0(), imm)).push(AsmValue::Store(t0(), sp(), off)),
        }
    } else {
        match (ctx.cur().local_values@[src], ctx.cur().local_values@[dst]) {
            (Place::Reg(a), Place::Reg(b)) => match mv_scan(s, s.len() as int, a) {
                MvScan::Rewrite(i) => s.update(i, with_dst(s[i], b)),
                MvScan::NotFound => s,
                MvScan::Blocked => if b != a {
                    s.push(AsmValue::Unary(AsmUnaryOp::Move, b, a))
                } else {
                    s
                },
            },
            (Place::Reg(a), Place::Mem(off)) => s.push(AsmValue::Store(a, sp(), off)),
            (Place::Mem(off), Place::Reg(b)) => s.push(AsmValue::Load(b, sp(), off)),
            (Place::Mem(x), Place::Mem(y)) => s.push(AsmValue::Load(t0(), sp(), x)).push(
                AsmValue::Store(t0(), sp(), y),
            ),
        }
    }
}

/// The number of callee-saved registers kept in the bytes `begin..end` of the frame.
pub open spec fn saved_count(saved: (i32, i32)) -> int {
    if saved.1 > saved.0 {
        (saved.1 - saved.0 + 3) / 4
    } else {
        0
    }
}

/// One line per saved register `s{k}`, at offset `begin + 4 k`: a store, or a load.
pub open spec fn saved_lines(saved: (i32, i32), store: bool) -> Seq<AsmValue> {
    Seq::new(
        saved_count(saved) as nat,
        |k: int|
            if store {
                AsmValue::Store(saved_reg(k), sp(), (saved.0 + 4 * k) as i32)
            } else {
                AsmValue::Load(saved_reg(k), sp(), (saved.0 + 4 * k) as i32)
            },
    )
}

/// Whether a range of the frame for saved registers can be generated.
pub open spec fn saved_ok(saved: (i32, i32)) -> bool {
    &&& saved.1 <= i32::MAX - 4
    &&& saved_count(saved) <= 12
}

/// The register `s{k}`.
fn saved_reg_of(k: usize) -> (r: RegID)
    requires
        k < 12,
    ensures
        r == saved_reg(k as int),
{
    if k < 2 {
        RegID(8 + k)
    } else {
        RegID(16 + k)
    }
}

impl AsmProgram {
    /// Stores or loads the saved registers kept in the frame range `saved`.
    fn saved_regs_lines(&mut self, saved: (i32, i32), store: bool)
        requires
            saved_ok(saved),
        ensures
            final(self).values@ == old(self).values@ + saved_lines(saved, store),
    {
        let spr = RegID(2);
        let mut off: i32 = saved.0;
        let mut id: usize = 0;
        let ghost start = self.values@;
        while off < saved.1
            invariant
                saved_ok(saved),
                spr == RegID(2),
                off == saved.0 + 4 * id,
                saved.0 < saved.1 ==> off <= saved.1 + 3,
                saved.0 >= saved.1 ==> id == 0 && off == saved.0,
                id <= saved_count(saved),
                self.values@ == start + saved_lines(saved, store).subrange(0, id as int),
            decreases saved_count(saved) - id,
        {
            proof {
                assert(id < saved_count(saved));
            }
            let reg = saved_reg_of(id);
            if store {
                self.store(reg, spr, off);
            } else {
                self.load(reg, spr, off);
            }
            proof {
                assert(saved_lines(saved, store).subrange(0, id + 1) =~= saved_lines(saved, store).subrange(
                    0,
                    id as int,
                ).push(saved_lines(saved, store)[id as int]));
            }
            off = off + 4;
            id = id + 1;
        }
        proof {
            assert(id == saved_count(saved));
            assert(saved_lines(saved, store).subrange(0, id as int) =~= saved_lines(saved, store));
        }
    }

    /// Opens the function `func_name`: the text section, its label, the
    /// frame of `ss` bytes, the return address unless the function is a
    /// leaf, and the callee-saved registers it uses.
    pub fn prologue(&mut self, func_name: &str, ss: i32, saved_regs: (i32, i32), is_leaf: bool)
        requires
            i32::MIN < ss,
            !is_leaf ==> i32::MIN + 4 <= ss,
            saved_ok(saved_regs),
        ensures
            lines(final(self).values@) == lines(old(self).values@) + prologue_lines(func_name@, ss, saved_regs, is_leaf),
    {
        let ghost s0 = self.values@;
        let spr = RegID(2);
        self.directive(Directive::Text);
        let ghost s1 = self.values@;
        self.global_symbol(func_name);
        let ghost s2 = self.values@;
        self.binary_with_imm(AsmBinaryOp::Addi, spr, spr, -ss);
        let ghost s3 = self.values@;
        if !is_leaf {
            self.store(RegID(1), spr, ss - 4);
        }
        let ghost s4 = self.values@;
        self.saved_regs_lines(saved_regs, true);
        proof {
            lemma_lines_push(s0, s1.last());
            assert(s2 =~= s1.push(s2.last()));
            lemma_lines_push(s1, s2.last());
            lemma_lines_push(s2, s3.last());
            if !is_leaf {
                lemma_lines_push(s3, s4.last());
            }
            lemma_lines_add(s4, saved_lines(saved_regs, true));
        }
    }

    /// Closes the function: restores the return address unless the function
    /// is a leaf and the callee-saved registers, frees the frame, returns.
    pub fn epilogue(&mut self, ss: i32, saved_regs: (i32, i32), is_leaf: bool)
        requires
            i32::MIN < ss,
            !is_leaf ==> i32::MIN + 4 <= ss,
            saved_ok(saved_regs),
        ensures
            final(self).values@ == old(self).values@ + if is_leaf {
                Seq::empty()
            } else {
                seq![AsmValue::Load(ra_reg(), sp(), (ss - 4) as i32)]
            } + saved_lines(saved_regs, false) + seq![
                AsmValue::BinaryImm(AsmBinaryOp::Addi, sp(), sp(), ss),
                AsmValue::Return,
            ],
    {
        let ghost s0 = self.values@;
        let spr = RegID(2);
        if !is_leaf {
            self.load(RegID(1), spr, ss - 4);
        }
        self.saved_regs_lines(saved_regs, false);
        self.binary_with_imm(AsmBinaryOp::Addi, spr, spr, ss);
        self.ret();
        proof {
            let mid = if is_leaf {
                Seq::empty()
            } else {
                seq![AsmValue::Load(ra_reg(), sp(), (ss - 4) as i32)]
            };
            assert(self.values@ =~= s0 + mid + saved_lines(saved_regs, false) + seq![
                AsmValue::BinaryImm(AsmBinaryOp::Addi, sp(), sp(), ss),
                AsmValue::Return,
            ]);
        }
    }

    /// Reads the address held by `val` into `dst`; gives the register that holds it.
    pub fn read_value_addr(&mut self, ctx: &Context, dst: RegID, val: usize) -> (r: RegID)
        requires
            ctx.writable(val),
        ensures
            lines(final(self).values@) == lines(old(self).values@) + read_addr_spec(*ctx, dst, val).0,
            r == read_addr_spec(*ctx, dst, val).1,
    {
        let ghost s0 = self.values@;
        if ctx.is_global(val) {
            let name = ctx.get_global_var(val);
            self.load_address(dst, name.as_str());
            proof {
                assert(self.values@ =~= s0.push(self.values@.last()));
                lemma_lines_push(s0, self.values@.last());
            }
            dst
        } else {
            match ctx.get_local_place(val) {
                Place::Reg(id) => {
                    assert(lines(self.values@) =~= lines(s0) + Seq::<Line>::empty());
                    id
                },
                Place::Mem(offset) => {
                    self.load(dst, RegID(2), offset);
                    proof {
                        lemma_lines_push(s0, self.values@.last());
                    }
                    dst
                },
            }
        }
    }

    /// Reads the value `val` into `dst`; gives the register that holds it.
    pub fn read_value(&mut self, ctx: &Context, dst: RegID, val: usize) -> (r: RegID)
        requires
            ctx.readable(val),
        ensures
            lines(final(self).values@) == lines(old(self).values@) + read_spec(*ctx, dst, val).0,
            r == read_spec(*ctx, dst, val).1,
    {
        let ghost s0 = self.values@;
        if ctx.is_global(val) {
            let name = ctx.get_global_var(val);
            self.load_address(dst, name.as_str());
            let ghost s1 = self.values@;
            self.load(dst, dst, 0);
            proof {
                assert(s1 =~= s0.push(s1.last()));
                lemma_lines_push(s0, s1.last());
                lemma_lines_push(s1, self.values@.last());
            }
            return dst;
        }
        if let ValueKind::Integer(imm) = ctx.value_kind(val) {
            self.load_imm(dst, *imm);
            proof {
                lemma_lines_push(s0, self.values@.last());
            }
            dst
        } else {
            match ctx.get_local_place(val) {
                Place::Reg(id) => {
                    assert(lines(self.values@) =~= lines(s0) + Seq::<Line>::empty());
                    id
                },
                Place::Mem(offset) => {
                    self.load(dst, RegID(2), offset);
                    proof {
                        lemma_lines_push(s0, self.values@.last());
                    }
                    dst
                },
            }
        }
    }

    /// Moves local value `src` into local value `dst`.
    pub fn move_local_value(&mut self, ctx: &Context, dst: usize, src: usize)
        requires
            ctx.cur_func is Some,
            src < ctx.program.values@.len(),
            ctx.cur().local_values@.contains_key(dst),
            ctx.program.values@[src as int].kind is Integer || ctx.cur().local_values@.contains_key(src),
        ensures
            final(self).values@ == move_spec(*ctx, old(self).values@, dst, src),
    {
        let t0r = RegID(5);
        let spr = RegID(2);
        if let ValueKind::Integer(imm) = ctx.value_kind(src) {
            match ctx.get_local_place(dst) {
                Place::Reg(d) => self.load_imm(d, *imm),
                Place::Mem(off) => {
                    self.load_imm(t0r, *imm);
                    self.store(t0r, spr, off);
                },
            }
        } else {
            match (ctx.get_local_place(src), ctx.get_local_place(dst)) {
                (Place::Reg(a), Place::Reg(b)) => {
                    if !self.try_remove_redundant_mv(b, a) {
                        self.mv(b, a);
                    }
                },
                (Place::Reg(id), Place::Mem(off)) => self.store(id, spr, off),
                (Place::Mem(off), Place::Reg(id)) => self.load(id, spr, off),
                (Place::Mem(x), Place::Mem(y)) => {
                    self.load(t0r, spr, x);
                    self.store(t0r, spr, y);
                },
            }
        }
    }

    /// Stores register `src` into `val`.
    pub fn write_back(&mut self, ctx: &Context, src: RegID, val: usize)
        requires
            ctx.writable(val),
        ensures
            lines(final(self).values@) == lines(old(self).values@) + write_back_spec(*ctx, src, val),
    {
        let ghost s0 = self.values@;
        let t0r = RegID(5);
        if ctx.is_global(val) {
            let label = ctx.get_global_var(val);
            self.load_address(t0r, label.as_str());
            let ghost s1 = self.values@;
            self.store(src, t0r, 0);
            proof {
                assert(s1 =~= s0.push(s1.last()));
                lemma_lines_push(s0, s1.last());
                lemma_lines_push(s1, self.values@.last());
            }
        } else {
            match ctx.get_local_place(val) {
                Place::Reg(reg) => {
                    if reg != src {
                        self.mv(reg, src);
                        proof {
                            lemma_lines_push(s0, self.values@.last());
                        }
                    } else {
                        assert(lines(self.values@) =~= lines(s0) + Seq::<Line>::empty());
                    }
                },
                Place::Mem(off) => {
                    self.store(src, RegID(2), off);
                    proof {
                        lemma_lines_push(s0, self.values@.last());
                    }
                },
            }
        }
    }
}

/// Whether local value `v` has a place in the current function.
pub open spec fn placed(ctx: Context, v: usize) -> bool {
    ctx.cur_func is Some && v < ctx.program.values@.len() && !ctx.spec_is_global(v)
        && ctx.cur().local_values@.contains_key(v)
}

/// The lines of a sequence of assembly values.
pub open spec fn lines_of(s: Seq<AsmValue>) -> Seq<Line> {
    lines(s)
}

/// The lines that store `t1` at offset `off` of the frame.
pub open spec fn spill_t1(off: i32) -> Seq<Line> {
    seq![Line::Store(t1(), sp(), off)]
}

/// The lines of `val = load src`.
pub open spec fn load_lines(ctx: Context, val: usize, src: usize) -> Seq<Line> {
    let (a, r) = read_addr_spec(ctx, t1(), src);
    a + seq![Line::Load(t1(), r, 0)] + write_back_spec(ctx, t1(), val)
}

/// Generates `val = load src`: the address into `t1`, the load, the write-back.
pub fn generate_load(ctx: &Context, p: &mut AsmProgram, val: usize, src: usize)
    requires
        ctx.writable(src),
        ctx.writable(val),
    ensures
        lines(final(p).values@) == lines(old(p).values@) + load_lines(*ctx, val, src),
{
    let ghost s0 = p.values@;
    let t1 = RegID(6);
    let r = p.read_value_addr(ctx, t1, src);
    let ghost s1 = p.values@;
    p.load(t1, r, 0);
    let ghost s2 = p.values@;
    p.write_back(ctx, t1, val);
    proof {
        lemma_lines_push(s1, s2.last());
    }
}

/// The lines of `val = lhs op rhs`.
pub open spec fn binary_lines(ctx: Context, val: usize, op: IrBinaryOp, lhs: usize, rhs: usize) -> Seq<Line> {
    let (a, l) = read_spec(ctx, t1(), lhs);
    let (b, r) = read_spec(ctx, t2(), rhs);
    a + b + match ctx.cur().local_values@[val] {
        Place::Reg(d) => lines(ir_binary_lines(op, d, l, r)),
        Place::Mem(off) => lines(ir_binary_lines(op, t1(), l, r)) + spill_t1(off),
    }
}

/// Generates `val = lhs op rhs`: the operands into `t1` and `t2`, the
/// operation into the place of `val`, through `t1` if it is spilled.
pub fn generate_binary(ctx: &Context, p: &mut AsmProgram, val: usize, op: IrBinaryOp, lhs: usize, rhs: usize)
    requires
        ctx.readable(lhs),
        ctx.readable(rhs),
        placed(*ctx, val),
        ir_binary_supported(op),
    ensures
        lines(final(p).values@) == lines(old(p).values@) + binary_lines(*ctx, val, op, lhs, rhs),
{
    let ghost s0 = p.values@;
    let t1 = RegID(6);
    let t2 = RegID(7);
    let l = p.read_value(ctx, t1, lhs);
    let r = p.read_value(ctx, t2, rhs);
    let ghost s2 = p.values@;
    match ctx.get_local_place(val) {
        Place::Reg(dst) => {
            p.ir_binary(op, dst, l, r);
            proof {
                lemma_lines_add(s2, ir_binary_lines(op, dst, l, r));
            }
        },
        Place::Mem(off) => {
            p.ir_binary(op, t1, l, r);
            let ghost s3 = p.values@;
            p.store(t1, RegID(2), off);
            proof {
                lemma_lines_add(s2, ir_binary_lines(op, t1, l, r));
                lemma_lines_push(s3, p.values@.last());
            }
        },
    }
}

/// The number of bytes between consecutive elements that pointer `val` steps over.
pub open spec fn stride_of(ctx: Context, val: usize) -> int {
    ty_size(pointee(ctx.program.values@[val as int].ty))
}

/// The lines of `val = getelemptr src, index` or `val = getptr src, index`:
/// the address plus the index times the stride.
pub open spec fn elem_ptr_lines(ctx: Context, val: usize, src: usize, index: usize) -> Seq<Line> {
    let stride = stride_of(ctx, val) as i32;
    let (a, s) = read_addr_spec(ctx, t1(), src);
    if ctx.program.values@[index as int].kind is Integer {
        let offset = (ctx.program.values@[index as int].kind->Integer_0 * stride) as i32;
        a + match ctx.cur().local_values@[val] {
            Place::Reg(d) => seq![Line::BinaryImm(AsmBinaryOp::Add, d, s, offset)],
            Place::Mem(off) => seq![Line::BinaryImm(AsmBinaryOp::Add, t1(), s, offset)] + spill_t1(off),
        }
    } else {
        let (b, i) = read_spec(ctx, t2(), index);
        a + b + lines(muli_lines(t2(), i, stride)) + match ctx.cur().local_values@[val] {
            Place::Reg(d) => seq![Line::Binary(AsmBinaryOp::Add, d, s, t2())],
            Place::Mem(off) => seq![Line::Binary(AsmBinaryOp::Add, t1(), s, t2())] + spill_t1(off),
        }
    }
}

/// Whether the pointer arithmetic of `val` stays within `i32`.
pub open spec fn elem_ptr_ok(ctx: Context, val: usize, index: usize) -> bool {
    &&& stride_of(ctx, val) <= i32::MAX
    &&& (ctx.program.values@[index as int].kind is Integer ==> {
        let i = ctx.program.values@[index as int].kind->Integer_0;
        i32::MIN <= i * stride_of(ctx, val) <= i32::MAX
    })
}

/// Generates an element pointer or a pointer step.
pub fn generate_elem_ptr(ctx: &Context, p: &mut AsmProgram, val: usize, src: usize, index: usize)
    requires
        ctx.writable(src),
        ctx.readable(index),
        placed(*ctx, val),
        elem_ptr_ok(*ctx, val, index),
    ensures
        lines(final(p).values@) == lines(old(p).values@) + elem_ptr_lines(*ctx, val, src, index),
{
    proof {
        crate::ir::lemma_ty_size_nonneg(pointee(ctx.program.values@[val as int].ty));
    }
    let ty = ctx.program.values[val].ty.pointee();
    let stride = ty.size() as i32;
    let t1 = RegID(6);
    let t2 = RegID(7);
    if let ValueKind::Integer(i) = ctx.value_kind(index) {
        let offset = *i * stride;
        let s = p.read_value_addr(ctx, t1, src);
        let ghost s1 = p.values@;
        match ctx.get_local_place(val) {
            Place::Reg(dst) => {
                p.binary_with_imm(AsmBinaryOp::Add, dst, s, offset);
                proof {
                    lemma_lines_push(s1, p.values@.last());
                }
            },
            Place::Mem(dst_off) => {
                p.binary_with_imm(AsmBinaryOp::Add, t1, s, offset);
                let ghost s2 = p.values@;
                p.store(t1, RegID(2), dst_off);
                proof {
                    lemma_lines_push(s1, s2.last());
                    lemma_lines_push(s2, p.values@.last());
                }
            },
        }
    } else {
        let s = p.read_value_addr(ctx, t1, src);
        let i = p.read_value(ctx, t2, index);
        let ghost s1 = p.values@;
        p.muli(t2, i, stride);
        let ghost s2 = p.values@;
        proof {
            lemma_lines_add(s1, muli_lines(t2, i, stride));
        }
        match ctx.get_local_place(val) {
            Place::Reg(dst) => {
                p.binary(AsmBinaryOp::Add, dst, s, t2);
                proof {
                    lemma_lines_push(s2, p.values@.last());
                }
            },
            Place::Mem(dst_off) => {
                p.binary(AsmBinaryOp::Add, t1, s, t2);
                let ghost s3 = p.values@;
                p.store(t1, RegID(2), dst_off);
                proof {
                    lemma_lines_push(s2, s3.last());
                    lemma_lines_push(s3, p.values@.last());
                }
            },
        }
    }
}

/// The lines of a local allocation: its address, `sp` plus its offset in the frame.
pub open spec fn alloc_lines(ctx: Context, val: usize) -> Seq<Line> {
    let begin_at = ctx.cur().local_arrays@[val];
    match ctx.cur().local_values@[val] {
        Place::Reg(reg) => seq![Line::BinaryImm(AsmBinaryOp::Add, reg, sp(), begin_at)],
        Place::Mem(off) => seq![Line::BinaryImm(AsmBinaryOp::Add, t1(), sp(), begin_at)] + spill_t1(off),
    }
}

/// Generates the address of a local array.
pub fn generate_alloc(ctx: &Context, p: &mut AsmProgram, val: usize)
    requires
        placed(*ctx, val),
        ctx.cur().local_arrays@.contains_key(val),
    ensures
        lines(final(p).values@) == lines(old(p).values@) + alloc_lines(*ctx, val),
{
    let ghost s0 = p.values@;
    let begin_at = match &ctx.cur_func {
        Some(f) => *f.local_arrays.get(&val).unwrap(),
        None => 0,
    };
    match ctx.get_local_place(val) {
        Place::Reg(reg) => {
            p.binary_with_imm(AsmBinaryOp::Add, reg, RegID(2), begin_at);
            proof {
                lemma_lines_push(s0, p.values@.last());
            }
        },
        Place::Mem(off) => {
            p.binary_with_imm(AsmBinaryOp::Add, RegID(6), RegID(2), begin_at);
            let ghost s1 = p.values@;
            p.store(RegID(6), RegID(2), off);
            proof {
                lemma_lines_push(s0, s1.last());
                lemma_lines_push(s1, p.values@.last());
            }
        },
    }
}

/// The lines of `store value, dest`: a zero initializer is written by a
/// call of `memset` on the `size` bytes that `dest` points to; any other
/// value is stored through the address of `dest`.
pub open spec fn store_lines(ctx: Context, value: usize, dest: usize) -> Seq<Line> {
    if ctx.program.values@[value as int].kind is ZeroInit {
        let (a, r) = read_spec(ctx, arg_reg(0), dest);
        a + if r != arg_reg(0) {
            seq![Line::Unary(AsmUnaryOp::Move, arg_reg(0), r)]
        } else {
            Seq::empty()
        } + seq![
            Line::LoadImm(arg_reg(1), 0),
            Line::LoadImm(arg_reg(2), ty_size(ctx.program.values@[value as int].ty) as i32),
            Line::Call("memset@plt"@),
        ]
    } else {
        let (a, d) = read_addr_spec(ctx, t1(), dest);
        let (b, v) = read_spec(ctx, t2(), value);
        a + b + seq![Line::Store(v, d, 0)]
    }
}

/// Generates `store value, dest`.
pub fn generate_store(ctx: &Context, p: &mut AsmProgram, value: usize, dest: usize)
    requires
        value < ctx.program.values@.len(),
        ctx.program.values@[value as int].kind is ZeroInit ==> ctx.readable(dest) && ty_size(
            ctx.program.values@[value as int].ty,
        ) <= i32::MAX,
        !(ctx.program.values@[value as int].kind is ZeroInit) ==> ctx.writable(dest) && ctx.readable(value),
    ensures
        lines(final(p).values@) == lines(old(p).values@) + store_lines(*ctx, value, dest),
{
    let ghost s0 = p.values@;
    if let ValueKind::ZeroInit = ctx.value_kind(value) {
        let a0 = RegID(10);
        let begin = p.read_value(ctx, a0, dest);
        let ghost s1 = p.values@;
        if begin != a0 {
            p.mv(a0, begin);
            proof {
                lemma_lines_push(s1, p.values@.last());
            }
        }
        let ghost s2 = p.values@;
        p.load_imm(RegID(11), 0);
        let ghost s3 = p.values@;
        proof {
            crate::ir::lemma_ty_size_nonneg(ctx.program.values@[value as int].ty);
        }
        let size = ctx.program.values[value].ty.size() as i32;
        p.load_imm(RegID(12), size);
        let ghost s4 = p.values@;
        p.call("memset@plt");
        proof {
            lemma_lines_push(s2, s3.last());
            lemma_lines_push(s3, s4.last());
            assert(p.values@ =~= s4.push(p.values@.last()));
            lemma_lines_push(s4, p.values@.last());
        }
        return;
    }
    let t1 = RegID(6);
    let t2 = RegID(7);
    let d = p.read_value_addr(ctx, t1, dest);
    let v = p.read_value(ctx, t2, value);
    let ghost s2 = p.values@;
    p.store(v, d, 0);
    proof {
        lemma_lines_push(s2, p.values@.last());
    }
}

/// The lines of returning `v` from a function with a frame of `ss` bytes.
pub open spec fn return_lines(ctx: Context, v: Option<usize>) -> Seq<Line> {
    let value_lines = match v {
        Some(x) => {
            let (a, r) = read_spec(ctx, arg_reg(0), x);
            a + if r != arg_reg(0) {
                seq![Line::Unary(AsmUnaryOp::Move, arg_reg(0), r)]
            } else {
                Seq::empty()
            }
        },
        None => Seq::empty(),
    };
    value_lines + lines(epilogue_lines(ctx.cur().ss, ctx.cur().saved_regs, ctx.cur().is_leaf))
}

/// The lines of the epilogue.
pub open spec fn epilogue_lines(ss: i32, saved: (i32, i32), is_leaf: bool) -> Seq<AsmValue> {
    (if is_leaf {
        Seq::empty()
    } else {
        seq![AsmValue::Load(ra_reg(), sp(), (ss - 4) as i32)]
    }) + saved_lines(saved, false) + seq![AsmValue::BinaryImm(AsmBinaryOp::Addi, sp(), sp(), ss), AsmValue::Return]
}

/// What the line `x` adds to the stack pointer: the immediate of
/// `addi sp, sp, imm`, else nothing.
pub open spec fn line_sp(x: Line) -> int {
    match x {
        Line::BinaryImm(AsmBinaryOp::Addi, d, a, imm) => if d == sp() && a == sp() {
            imm as int
        } else {
            0
        },
        _ => 0,
    }
}

/// The net change that the lines `l` make to the stack pointer.
pub open spec fn sp_change(l: Seq<Line>) -> int
    decreases l.len(),
{
    if l.len() == 0 {
        0
    } else {
        sp_change(l.drop_last()) + line_sp(l.last())
    }
}

proof fn lemma_sp_change_add(a: Seq<Line>, b: Seq<Line>)
    ensures
        sp_change(a + b) == sp_change(a) + sp_change(b),
    decreases b.len(),
{
    if b.len() > 0 {
        lemma_sp_change_add(a, b.drop_last());
        assert((a + b).drop_last() =~= a + b.drop_last());
    } else {
        assert(a + b =~= a);
    }
}

proof fn lemma_sp_change_one(x: Line)
    ensures
        sp_change(seq![x]) == line_sp(x),
{
    assert(seq![x].drop_last() =~= Seq::<Line>::empty());
    assert(sp_change(Seq::<Line>::empty()) == 0);
    assert(seq![x].last() == x);
    assert(sp_change(seq![x]) == sp_change(seq![x].drop_last()) + line_sp(seq![x].last()));
}

proof fn lemma_saved_lines_frame(saved: (i32, i32), store: bool, n: int)
    requires
        0 <= n <= saved_count(saved),
    ensures
        sp_change(lines(saved_lines(saved, store)).subrange(0, n)) == 0,
        forall|i: int, o: i32| 0 <= i < n ==> lines(saved_lines(saved, store))[i] != Line::Load(ra_reg(), sp(), o)
            && lines(saved_lines(saved, store))[i] != Line::Store(ra_reg(), sp(), o),
    decreases n,
{
    let l = lines(saved_lines(saved, store));
    if n > 0 {
        lemma_saved_lines_frame(saved, store, n - 1);
        assert(l.subrange(0, n).drop_last() =~= l.subrange(0, n - 1));
    } else {
        assert(l.subrange(0, 0) =~= Seq::<Line>::empty());
    }
}

proof fn lemma_frame_sp(name: Seq<char>, ss: i32, saved: (i32, i32), is_leaf: bool)
    requires
        i32::MIN < ss,
        saved_ok(saved),
    ensures
        sp_change(prologue_lines(name, ss, saved, is_leaf)) == -ss,
        sp_change(lines(epilogue_lines(ss, saved, is_leaf))) == ss,
{
    let sv = lines(saved_lines(saved, true));
    let ld = lines(saved_lines(saved, false));
    lemma_saved_lines_frame(saved, true, saved_count(saved));
    lemma_saved_lines_frame(saved, false, saved_count(saved));
    assert(sv.subrange(0, sv.len() as int) =~= sv);
    assert(ld.subrange(0, ld.len() as int) =~= ld);
    let h1 = seq![Line::Directive(Directive::Text)];
    let h2 = seq![Line::GlobalSymbol(name)];
    let h3 = seq![Line::BinaryImm(AsmBinaryOp::Addi, sp(), sp(), -ss as i32)];
    lemma_sp_change_one(h1[0]);
    lemma_sp_change_one(h2[0]);
    lemma_sp_change_one(h3[0]);
    lemma_sp_change_add(h1, h2);
    lemma_sp_change_add(h1 + h2, h3);
    assert(h1 + h2 + h3 =~= seq![
        Line::Directive(Directive::Text),
        Line::GlobalSymbol(name),
        Line::BinaryImm(AsmBinaryOp::Addi, sp(), sp(), -ss as i32),
    ]);
    let ra_st: Seq<Line> = if is_leaf { Seq::empty() } else { seq![Line::Store(ra_reg(), sp(), (ss - 4) as i32)] };
    if !is_leaf {
        lemma_sp_change_one(ra_st[0]);
    }
    lemma_sp_change_add(h1 + h2 + h3, ra_st);
    lemma_sp_change_add(h1 + h2 + h3 + ra_st, sv);
    let ra_ld: Seq<AsmValue> = if is_leaf { Seq::empty() } else { seq![AsmValue::Load(ra_reg(), sp(), (ss - 4) as i32)] };
    let tail: Seq<AsmValue> = seq![AsmValue::BinaryImm(AsmBinaryOp::Addi, sp(), sp(), ss), AsmValue::Return];
    lemma_lines_add(ra_ld + saved_lines(saved, false), tail);
    lemma_lines_add(ra_ld, saved_lines(saved, false));
    let t1l = seq![Line::BinaryImm(AsmBinaryOp::Addi, sp(), sp(), ss)];
    let t2l = seq![Line::Return];
    assert(lines(tail) =~= t1l + t2l);
    lemma_sp_change_one(t1l[0]);
    lemma_sp_change_one(t2l[0]);
    lemma_sp_change_add(t1l, t2l);
    if !is_leaf {
        assert(lines(ra_ld) =~= seq![Line::Load(ra_reg(), sp(), (ss - 4) as i32)]);
        lemma_sp_change_one(lines(ra_ld)[0]);
    } else {
        assert(lines(ra_ld) =~= Seq::<Line>::empty());
    }
    lemma_sp_change_add(lines(ra_ld), ld);
    lemma_sp_change_add(lines(ra_ld) + ld, lines(tail));
}

proof fn lemma_frame_ra(name: Seq<char>, ss: i32, saved: (i32, i32), is_leaf: bool)
    requires
        saved_ok(saved),
    ensures
        forall|o: i32| #[trigger] prologue_lines(name, ss, saved, is_leaf).contains(Line::Store(ra_reg(), sp(), o)) <==> !is_leaf
            && o == (ss - 4) as i32,
        forall|o: i32| #[trigger] lines(epilogue_lines(ss, saved, is_leaf)).contains(Line::Load(ra_reg(), sp(), o)) <==> !is_leaf
            && o == (ss - 4) as i32,
{
    let sv = lines(saved_lines(saved, true));
    let ld = lines(saved_lines(saved, false));
    lemma_saved_lines_frame(saved, true, saved_count(saved));
    lemma_saved_lines_frame(saved, false, saved_count(saved));
    let pro = prologue_lines(name, ss, saved, is_leaf);
    let epi = lines(epilogue_lines(ss, saved, is_leaf));
    let k: int = if is_leaf { 3 } else { 4 };
    let ra_ld: Seq<AsmValue> = if is_leaf { Seq::empty() } else { seq![AsmValue::Load(ra_reg(), sp(), (ss - 4) as i32)] };
    let tail: Seq<AsmValue> = seq![AsmValue::BinaryImm(AsmBinaryOp::Addi, sp(), sp(), ss), AsmValue::Return];
    lemma_lines_add(ra_ld + saved_lines(saved, false), tail);
    lemma_lines_add(ra_ld, saved_lines(saved, false));
    let m: int = if is_leaf { 0 } else { 1 };
    assert forall|o: i32| #[trigger] pro.contains(Line::Store(ra_reg(), sp(), o)) implies !is_leaf && o == (ss - 4) as i32 by {
        let i = choose|i: int| 0 <= i < pro.len() && pro[i] == Line::Store(ra_reg(), sp(), o);
        if i >= k {
            assert(pro[i] == sv[i - k]);
        }
    }
    assert forall|o: i32| !is_leaf && o == (ss - 4) as i32 implies #[trigger] pro.contains(Line::Store(ra_reg(), sp(), o)) by {
        assert(pro[3] == Line::Store(ra_reg(), sp(), o));
    }
    assert forall|o: i32| #[trigger] epi.contains(Line::Load(ra_reg(), sp(), o)) implies !is_leaf && o == (ss - 4) as i32 by {
        let i = choose|i: int| 0 <= i < epi.len() && epi[i] == Line::Load(ra_reg(), sp(), o);
        if m <= i < m + ld.len() {
            assert(epi[i] == ld[i - m]);
        }
    }
    assert forall|o: i32| !is_leaf && o == (ss - 4) as i32 implies #[trigger] epi.contains(Line::Load(ra_reg(), sp(), o)) by {
        assert(epi[0] == Line::Load(ra_reg(), sp(), o));
    }
}

/// The frame of a function is balanced: the prologue and the epilogue
/// written with the same frame size, saved registers and leaf flag leave the
/// stack pointer as it was, and the return address is stored to a slot of
/// the frame and reloaded from that same slot exactly when the function is
/// not a leaf.
pub proof fn lemma_frame_balanced(name: Seq<char>, ss: i32, saved: (i32, i32), is_leaf: bool)
    requires
        i32::MIN < ss,
        !is_leaf ==> i32::MIN + 4 <= ss,
        saved_ok(saved),
    ensures
        sp_change(prologue_lines(name, ss, saved, is_leaf) + lines(epilogue_lines(ss, saved, is_leaf))) == 0,
        forall|o: i32| #[trigger] prologue_lines(name, ss, saved, is_leaf).contains(Line::Store(ra_reg(), sp(), o)) <==> !is_leaf
            && o == ss - 4,
        forall|o: i32| #[trigger] lines(epilogue_lines(ss, saved, is_leaf)).contains(Line::Load(ra_reg(), sp(), o)) <==> !is_leaf
            && o == ss - 4,
{
    lemma_frame_sp(name, ss, saved, is_leaf);
    lemma_frame_ra(name, ss, saved, is_leaf);
    lemma_sp_change_add(prologue_lines(name, ss, saved, is_leaf), lines(epilogue_lines(ss, saved, is_leaf)));
}

/// Whether the frame of the current function can be opened and closed.
pub open spec fn frame_ok(ctx: Context) -> bool {
    &&& ctx.cur_func is Some
    &&& i32::MIN + 4 <= ctx.cur().ss
    &&& saved_ok(ctx.cur().saved_regs)
}

/// Generates `ret v`: the value into `a0`, then the epilogue.
pub fn generate_return(ctx: &Context, p: &mut AsmProgram, v: Option<usize>)
    requires
        frame_ok(*ctx),
        v matches Some(x) ==> ctx.readable(x),
    ensures
        lines(final(p).values@) == lines(old(p).values@) + return_lines(*ctx, v),
{
    let ghost s0 = p.values@;
    let a0 = RegID(10);
    if let Some(x) = v {
        let r = p.read_value(ctx, a0, x);
        let ghost s1 = p.values@;
        if r != a0 {
            p.mv(a0, r);
            proof {
                lemma_lines_push(s1, p.values@.last());
            }
        }
    }
    let ghost s2 = p.values@;
    let (ss, saved, leaf) = match &ctx.cur_func {
        Some(f) => (f.ss, f.saved_regs, f.is_leaf),
        None => (0, (0, 0), true),
    };
    p.epilogue(ss, saved, leaf);
    proof {
        assert(p.values@ == s2 + epilogue_lines(ss, saved, leaf));
        lemma_lines_add(s2, epilogue_lines(ss, saved, leaf));
        assert(lines(p.values@) =~= lines(s0) + return_lines(*ctx, v));
    }
}

/// The lines that pass the first `n` arguments of a call: the first eight in
/// `a0`..`a7`, the others on the stack.
pub open spec fn call_arg_lines(ctx: Context, args: Seq<usize>, n: int) -> Seq<Line>
    decreases n,
{
    if n <= 0 {
        Seq::empty()
    } else {
        let i = n - 1;
        call_arg_lines(ctx, args, n - 1) + if i < 8 {
            let (a, r) = read_spec(ctx, arg_reg(i), args[i]);
            a + if r != arg_reg(i) {
                seq![Line::Unary(AsmUnaryOp::Move, arg_reg(i), r)]
            } else {
                Seq::empty()
            }
        } else {
            let (a, r) = read_spec(ctx, t1(), args[i]);
            a + seq![Line::Store(r, sp(), ((i - 8) * 4) as i32)]
        }
    }
}

/// The lines of `val = call callee(args)`: the arguments, the call of the
/// callee's name without its sigil, and the result out of `a0` where the
/// callee returns an integer.
pub open spec fn call_lines(ctx: Context, val: usize, callee: usize, args: Seq<usize>) -> Seq<Line> {
    let f = ctx.program.funcs@[callee as int];
    call_arg_lines(ctx, args, args.len() as int) + seq![Line::Call(f.name@.subrange(1, f.name@.len() as int))] + if f.ret_ty
        is Int32 {
        write_back_spec(ctx, arg_reg(0), val)
    } else {
        Seq::empty()
    }
}

/// Whether the call can be generated.
pub open spec fn call_ok(ctx: Context, val: usize, callee: usize, args: Seq<usize>) -> bool {
    &&& callee < ctx.program.funcs@.len()
    &&& ctx.program.funcs@[callee as int].name@.len() >= 1
    &&& args.len() < 0x1000_0000
    &&& forall|i: int| 0 <= i < args.len() ==> ctx.readable(#[trigger] args[i])
    &&& ctx.program.funcs@[callee as int].ret_ty is Int32 ==> ctx.writable(val)
}

/// Generates `val = call callee(args)`.
pub fn generate_call(ctx: &Context, p: &mut AsmProgram, val: usize, callee: usize, args: &Vec<usize>)
    requires
        call_ok(*ctx, val, callee, args@),
    ensures
        lines(final(p).values@) == lines(old(p).values@) + call_lines(*ctx, val, callee, args@),
{
    let ghost s0 = p.values@;
    let mut i: usize = 0;
    while i < args.len()
        invariant
            call_ok(*ctx, val, callee, args@),
            i <= args@.len(),
            lines(p.values@) == lines(s0) + call_arg_lines(*ctx, args@, i as int),
        decreases args@.len() - i,
    {
        let ghost si = p.values@;
        let arg = args[i];
        if i < 8 {
            let dst = RegID(10 + i);
            let reg = p.read_value(ctx, dst, arg);
            let ghost s1 = p.values@;
            if reg != dst {
                p.mv(dst, reg);
                proof {
                    lemma_lines_push(s1, p.values@.last());
                }
            }
        } else {
            let reg = p.read_value(ctx, RegID(6), arg);
            let ghost s1 = p.values@;
            p.store(reg, RegID(2), ((i - 8) * 4) as i32);
            proof {
                lemma_lines_push(s1, p.values@.last());
            }
        }
        proof {
            assert(lines(p.values@) =~= lines(s0) + call_arg_lines(*ctx, args@, i + 1));
        }
        i = i + 1;
    }
    let ghost s1 = p.values@;
    let name = ctx.program.funcs[callee].name.as_str();
    let callee_name = name.substring_char(1, name.unicode_len());
    p.call(callee_name);
    let ghost s2 = p.values@;
    proof {
        assert(s2 =~= s1.push(s2.last()));
        lemma_lines_push(s1, s2.last());
    }
    if ctx.program.funcs[callee].ret_ty.is_i32() {
        p.write_back(ctx, RegID(10), val);
    }
    proof {
        assert(lines(p.values@) =~= lines(s0) + call_lines(*ctx, val, callee, args@));
    }
}

/// The program after moving `srcs[i]` into `dsts[i]` for each `i < n`, in order.
pub open spec fn moves_spec(ctx: Context, s: Seq<AsmValue>, dsts: Seq<usize>, srcs: Seq<usize>, n: int) -> Seq<AsmValue>
    decreases n,
{
    if n <= 0 {
        s
    } else {
        move_spec(ctx, moves_spec(ctx, s, dsts, srcs, n - 1), dsts[n - 1], srcs[n - 1])
    }
}

/// Whether the first `n` moves can be made.
pub open spec fn moves_ok(ctx: Context, dsts: Seq<usize>, srcs: Seq<usize>, n: int) -> bool {
    &&& ctx.cur_func is Some
    &&& n <= dsts.len()
    &&& n <= srcs.len()
    &&& forall|i: int| 0 <= i < n ==> ctx.cur().local_values@.contains_key(#[trigger] dsts[i])
    &&& forall|i: int|
        0 <= i < n ==> (#[trigger] srcs[i]) < ctx.program.values@.len() && (ctx.program.values@[srcs[i] as int].kind
            is Integer || ctx.cur().local_values@.contains_key(srcs[i]))
}

/// Moves the arguments of a jump into the parameters of its target.
fn move_args(ctx: &Context, p: &mut AsmProgram, params: &Vec<usize>, args: &Vec<usize>, n: usize)
    requires
        moves_ok(*ctx, params@, args@, n as int),
    ensures
        final(p).values@ == moves_spec(*ctx, old(p).values@, params@, args@, n as int),
{
    let ghost s0 = p.values@;
    let mut i: usize = 0;
    while i < n
        invariant
            moves_ok(*ctx, params@, args@, n as int),
            i <= n,
            p.values@ == moves_spec(*ctx, s0, params@, args@, i as int),
        decreases n - i,
    {
        p.move_local_value(ctx, params[i], args[i]);
        i = i + 1;
    }
}

/// The smaller of two integers.
pub open spec fn min_int(a: int, b: int) -> int {
    if a < b {
        a
    } else {
        b
    }
}

/// The label of block `bb` of the current function.
pub open spec fn bb_label(ctx: Context, bb: usize) -> Seq<char> {
    ctx.cur().blocks@[bb]@
}

/// Generates `jump target(args)`: the arguments into the parameters of the
/// target, then the jump.
pub fn generate_jump(ctx: &Context, p: &mut AsmProgram, target: usize, args: &Vec<usize>)
    requires
        ctx.cur_func is Some,
        target < ctx.program.blocks@.len(),
        ctx.cur().blocks@.contains_key(target),
        moves_ok(*ctx, ctx.program.blocks@[target as int].params@, args@,
            min_int(args@.len() as int, ctx.program.blocks@[target as int].params@.len() as int)),
    ensures
        final(p).values@.len() > 0,
        final(p).values@.drop_last() == moves_spec(*ctx, old(p).values@, ctx.program.blocks@[target as int].params@,
            args@, min_int(args@.len() as int, ctx.program.blocks@[target as int].params@.len() as int)),
        line(final(p).values@.last()) == Line::Jump(bb_label(*ctx, target)),
{
    let params = &ctx.program.blocks[target].params;
    let n = if args.len() < params.len() { args.len() } else { params.len() };
    move_args(ctx, p, params, args, n);
    let label = match &ctx.cur_func {
        Some(f) => f.blocks.get(&target).unwrap().as_str(),
        None => "",
    };
    p.jump(label);
}

/// Compression never consumes a first line that is a directive.
pub proof fn lemma_compress_safe(s: Seq<AsmValue>)
    requires
        s.len() >= 2,
        s[0] is Directive,
    ensures
        compress_safe(s),
    decreases compress_measure(s),
{
    crate::codegen::program::lemma_compress_step_decreases(s);
    if let Some(t) = compress_step(s) {
        if s.len() == 2 {
            assert(false);
        }
        assert(t[0] == s[0]);
        lemma_compress_safe(t);
    }
}

/// After compression, a program that ended with a branch still ends with a branch to the same label.
pub proof fn lemma_compress_ends(s: Seq<AsmValue>)
    requires
        s.len() > 0,
        s.last() is Branch,
    ensures
        compress_all(s).len() > 0,
        compress_all(s).last() is Branch,
        line(compress_all(s).last())->Branch_3 == line(s.last())->Branch_3,
    decreases compress_measure(s),
{
    crate::codegen::program::lemma_compress_step_decreases(s);
    if let Some(t) = compress_step(s) {
        lemma_compress_ends(t);
    }
}

/// Generates `br cond, tbb(targs), fbb(fargs)`: the arguments of both
/// targets, the condition into `t1`, a branch to the first target (folded
/// with the comparison before it where possible) and a jump to the second.
pub fn generate_branch(
    ctx: &Context,
    p: &mut AsmProgram,
    cond: usize,
    tbb: usize,
    targs: &Vec<usize>,
    fbb: usize,
    fargs: &Vec<usize>,
)
    requires
        ctx.cur_func is Some,
        tbb < ctx.program.blocks@.len(),
        fbb < ctx.program.blocks@.len(),
        ctx.cur().blocks@.contains_key(tbb),
        ctx.cur().blocks@.contains_key(fbb),
        targs@.len() <= ctx.program.blocks@[tbb as int].params@.len(),
        fargs@.len() <= ctx.program.blocks@[fbb as int].params@.len(),
        moves_ok(*ctx, ctx.program.blocks@[tbb as int].params@, targs@, targs@.len() as int),
        moves_ok(*ctx, ctx.program.blocks@[fbb as int].params@, fargs@, fargs@.len() as int),
        ctx.readable(cond),
        old(p).values@.len() > 0,
        old(p).values@[0] is Directive,
    ensures
        final(p).values@.len() >= 2,
        final(p).values@[0] == old(p).values@[0],
        line(final(p).values@.last()) == Line::Jump(bb_label(*ctx, fbb)),
        final(p).values@[final(p).values@.len() - 2] is Branch,
        line(final(p).values@[final(p).values@.len() - 2])->Branch_3 == bb_label(*ctx, tbb),
        exists|sb: Seq<AsmValue>, tl: String|
            #![trigger tl@, sb.len()]
            {
                &&& lines(sb) == lines(moves_spec(
                    *ctx,
                    moves_spec(*ctx, old(p).values@, ctx.program.blocks@[tbb as int].params@, targs@, targs@.len() as int),
                    ctx.program.blocks@[fbb as int].params@,
                    fargs@,
                    fargs@.len() as int,
                )) + read_spec(*ctx, RegID(6), cond).0
                &&& tl@ == bb_label(*ctx, tbb)
                &&& final(p).values@.drop_last() == compress_all(
                    sb.push(AsmValue::Branch(BranchOp::Bnez, read_spec(*ctx, RegID(6), cond).1, zero_reg(), tl)),
                )
            },
{
    let ghost s0 = p.values@;
    move_args(ctx, p, &ctx.program.blocks[tbb].params, targs, targs.len());
    let ghost m1 = p.values@;
    move_args(ctx, p, &ctx.program.blocks[fbb].params, fargs, fargs.len());
    let ghost m2 = p.values@;
    let c = p.read_value(ctx, RegID(6), cond);
    let ghost s1 = p.values@;
    let (tl, fl) = match &ctx.cur_func {
        Some(f) => (f.blocks.get(&tbb).unwrap().as_str(), f.blocks.get(&fbb).unwrap().as_str()),
        None => ("", ""),
    };
    proof {
        lemma_moves_first(*ctx, s0, ctx.program.blocks@[tbb as int].params@, targs@, targs@.len() as int);
        lemma_moves_first(*ctx, m1, ctx.program.blocks@[fbb as int].params@, fargs@, fargs@.len() as int);
        assert(lines(s1).len() == s1.len());
        assert(lines(m2).len() == m2.len());
        assert(lines(s1)[0] == lines(m2)[0]);
        assert(line(s1[0]) == line(m2[0]));
        assert(s1[0] == m2[0]);
        assert forall|t: String| t@ == tl@ implies compress_safe(
            #[trigger] s1.push(AsmValue::Branch(BranchOp::Bnez, c, zero_reg(), t)),
        ) by {
            lemma_compress_safe(s1.push(AsmValue::Branch(BranchOp::Bnez, c, zero_reg(), t)));
        }
    }
    p.branch(c, tl);
    let ghost s2 = p.values@;
    let ghost t = choose|t: String| t@ == tl@ && s2 == compress_all(
        s1.push(AsmValue::Branch(BranchOp::Bnez, c, zero_reg(), t)),
    );
    proof {
        lemma_compress_ends(s1.push(AsmValue::Branch(BranchOp::Bnez, c, zero_reg(), t)));
        lemma_compress_first(s1.push(AsmValue::Branch(BranchOp::Bnez, c, zero_reg(), t)));
    }
    p.jump(fl);
    proof {
        assert(p.values@.drop_last() == s2);
        assert(t@ == bb_label(*ctx, tbb));
        assert(s1.len() == s1.len() && t@ == t@);
    }
}

/// Compression keeps a first line that is a directive.
pub proof fn lemma_compress_first(s: Seq<AsmValue>)
    requires
        s.len() >= 2,
        s[0] is Directive,
    ensures
        compress_all(s).len() >= 1,
        compress_all(s)[0] == s[0],
    decreases compress_measure(s),
{
    crate::codegen::program::lemma_compress_step_decreases(s);
    if let Some(t) = compress_step(s) {
        if s.len() == 2 {
            assert(false);
        }
        assert(t[0] == s[0]);
        lemma_compress_first(t);
    }
}

/// A rewrite found by the scan for a redundant move is of a line that writes the register.
pub proof fn lemma_mv_scan_rewrite(s: Seq<AsmValue>, k: int, src: RegID)
    requires
        0 <= k <= s.len(),
    ensures
        mv_scan(s, k, src) matches MvScan::Rewrite(i) ==> 0 <= i < k && crate::codegen::program::writes_reg(s[i], src),
    decreases k,
{
    if k > 0 {
        lemma_mv_scan_rewrite(s, k - 1, src);
    }
}

/// Moves keep a first line that is a directive.
pub proof fn lemma_moves_first(ctx: Context, s: Seq<AsmValue>, dsts: Seq<usize>, srcs: Seq<usize>, n: int)
    requires
        s.len() > 0,
        s[0] is Directive,
    ensures
        moves_spec(ctx, s, dsts, srcs, n).len() >= s.len(),
        moves_spec(ctx, s, dsts, srcs, n)[0] == s[0],
    decreases n,
{
    if n > 0 {
        lemma_moves_first(ctx, s, dsts, srcs, n - 1);
        let m = moves_spec(ctx, s, dsts, srcs, n - 1);
        let src = srcs[n - 1];
        if !(ctx.program.values@[src as int].kind is Integer) {
            if let (Place::Reg(a), Place::Reg(b)) = (ctx.cur().local_values@[src], ctx.cur().local_values@[dsts[n - 1]]) {
                lemma_mv_scan_rewrite(m, m.len() as int, a);
            }
        }
    }
}

/// Whether the instruction `val` of the current function can be generated.
pub open spec fn inst_ready(ctx: Context, val: usize) -> bool {
    &&& ctx.cur_func is Some
    &&& val < ctx.program.values@.len()
    &&& match ctx.program.values@[val as int].kind {
        ValueKind::Binary(op, l, r) => ctx.readable(l) && ctx.readable(r) && placed(ctx, val) && ir_binary_supported(op),
        ValueKind::Load(src) => ctx.writable(src) && ctx.writable(val),
        ValueKind::Store(value, dest) => value < ctx.program.values@.len() && if ctx.program.values@[value as int].kind
            is ZeroInit {
            ctx.readable(dest) && ty_size(ctx.program.values@[value as int].ty) <= i32::MAX
        } else {
            ctx.writable(dest) && ctx.readable(value)
        },
        ValueKind::GetPtr(src, idx) => ctx.writable(src) && ctx.readable(idx) && placed(ctx, val) && elem_ptr_ok(
            ctx,
            val,
            idx,
        ),
        ValueKind::GetElemPtr(src, idx) => ctx.writable(src) && ctx.readable(idx) && placed(ctx, val)
            && elem_ptr_ok(ctx, val, idx),
        ValueKind::Alloc => placed(ctx, val) && ctx.cur().local_arrays@.contains_key(val),
        ValueKind::Call(callee, args) => call_ok(ctx, val, callee, args@),
        ValueKind::Return(x) => frame_ok(ctx) && (x matches Some(y) ==> ctx.readable(y)),
        ValueKind::Jump(t, args) => {
            &&& t < ctx.program.blocks@.len()
            &&& ctx.cur().blocks@.contains_key(t)
            &&& moves_ok(ctx, ctx.program.blocks@[t as int].params@, args@,
                min_int(args@.len() as int, ctx.program.blocks@[t as int].params@.len() as int))
        },
        ValueKind::Branch(c, t, ta, f, fa) => {
            &&& t < ctx.program.blocks@.len()
            &&& f < ctx.program.blocks@.len()
            &&& ctx.cur().blocks@.contains_key(t)
            &&& ctx.cur().blocks@.contains_key(f)
            &&& ta@.len() <= ctx.program.blocks@[t as int].params@.len()
            &&& fa@.len() <= ctx.program.blocks@[f as int].params@.len()
            &&& moves_ok(ctx, ctx.program.blocks@[t as int].params@, ta@, ta@.len() as int)
            &&& moves_ok(ctx, ctx.program.blocks@[f as int].params@, fa@, fa@.len() as int)
            &&& ctx.readable(c)
        },
        ValueKind::ZeroInit => ty_size(ctx.program.values@[val as int].ty) <= usize::MAX,
        _ => true,
    }
}

/// Whether the program so far starts with a directive.
pub open spec fn starts_with_directive(s: Seq<AsmValue>) -> bool {
    s.len() > 0 && s[0] is Directive
}

/// Generates the instruction `val` of the current function. Integers and
/// zero initializers become data directives; allocations of arrays give
/// their address; values without code give nothing.
pub fn generate_value(ctx: &Context, p: &mut AsmProgram, val: usize)
    requires
        inst_ready(*ctx, val),
        starts_with_directive(old(p).values@),
    ensures
        starts_with_directive(final(p).values@),
        final(p).values@[0] == old(p).values@[0],
        value_code(*ctx, old(p).values@, final(p).values@, val),
        match ctx.program.values@[val as int].kind {
            ValueKind::Branch(_, _, _, fbb, _) => {
                &&& final(p).values@.len() >= 2
                &&& line(final(p).values@.last()) == Line::Jump(bb_label(*ctx, fbb))
                &&& final(p).values@[final(p).values@.len() - 2] is Branch
            },
            ValueKind::Jump(t, args) => {
                &&& final(p).values@.len() > 0
                &&& final(p).values@.drop_last() == moves_spec(
                    *ctx,
                    old(p).values@,
                    ctx.program.blocks@[t as int].params@,
                    args@,
                    min_int(args@.len() as int, ctx.program.blocks@[t as int].params@.len() as int),
                )
                &&& line(final(p).values@.last()) == Line::Jump(bb_label(*ctx, t))
            },
            ValueKind::Return(v) => lines(final(p).values@) == lines(old(p).values@) + return_lines(*ctx, v),
            ValueKind::Store(v, d) => lines(final(p).values@) == lines(old(p).values@) + store_lines(*ctx, v, d),
            ValueKind::Integer(i) => final(p).values@ == old(p).values@.push(AsmValue::Directive(Directive::Word(i))),
            ValueKind::ZeroInit => final(p).values@ == old(p).values@.push(
                AsmValue::Directive(Directive::Zero(ty_size(ctx.program.values@[val as int].ty) as usize)),
            ),
            ValueKind::Binary(op, l, r) => lines(final(p).values@) == lines(old(p).values@) + binary_lines(*ctx, val, op, l, r),
            ValueKind::Load(src) => lines(final(p).values@) == lines(old(p).values@) + load_lines(*ctx, val, src),
            ValueKind::Call(callee, args) => lines(final(p).values@) == lines(old(p).values@) + call_lines(*ctx, val, callee, args@),
            ValueKind::GetElemPtr(src, idx) => lines(final(p).values@) == lines(old(p).values@) + elem_ptr_lines(*ctx, val, src, idx),
            ValueKind::GetPtr(src, idx) => lines(final(p).values@) == lines(old(p).values@) + elem_ptr_lines(*ctx, val, src, idx),
            ValueKind::Alloc => lines(final(p).values@) == lines(old(p).values@) + alloc_lines(*ctx, val),
            _ => final(p).values@ == old(p).values@,
        },
{
    let ghost s0 = p.values@;
    match ctx.value_kind(val) {
        ValueKind::Branch(c, t, ta, f, fa) => generate_branch(ctx, p, *c, *t, ta, *f, fa),
        ValueKind::Jump(t, args) => {
            generate_jump(ctx, p, *t, args);
            proof {
                let params = ctx.program.blocks@[*t as int].params@;
                let n = min_int(args@.len() as int, params.len() as int);
                lemma_moves_first(*ctx, s0, params, args@, n);
                let d = p.values@.drop_last();
                assert(d.len() >= 1);
                assert(d[0] == p.values@[0]);
            }
        },
        ValueKind::Return(v) => {
            generate_return(ctx, p, *v);
            proof {
                lemma_lines_first(p.values@, s0, return_lines(*ctx, *v));
            }
        },
        ValueKind::Store(v, d) => {
            generate_store(ctx, p, *v, *d);
            proof {
                lemma_lines_first(p.values@, s0, store_lines(*ctx, *v, *d));
            }
        },
        ValueKind::Integer(i) => {
            p.directive(Directive::Word(*i));
            proof {
                lemma_lines_push(s0, p.values@.last());
                assert(lines(s0).push(line(p.values@.last())) =~= lines(s0) + seq![line(p.values@.last())]);
                lemma_lines_first(p.values@, s0, seq![line(p.values@.last())]);
            }
        },
        ValueKind::ZeroInit => {
            let size = ctx.program.values[val].ty.size();
            p.directive(Directive::Zero(size));
            proof {
                lemma_lines_push(s0, p.values@.last());
                assert(lines(s0).push(line(p.values@.last())) =~= lines(s0) + seq![line(p.values@.last())]);
                lemma_lines_first(p.values@, s0, seq![line(p.values@.last())]);
            }
        },
        ValueKind::Binary(op, l, r) => {
            generate_binary(ctx, p, val, *op, *l, *r);
            proof {
                lemma_lines_first(p.values@, s0, binary_lines(*ctx, val, *op, *l, *r));
            }
        },
        ValueKind::Load(src) => {
            generate_load(ctx, p, val, *src);
            proof {
                lemma_lines_first(p.values@, s0, load_lines(*ctx, val, *src));
            }
        },
        ValueKind::Call(callee, args) => {
            generate_call(ctx, p, val, *callee, args);
            proof {
                lemma_lines_first(p.values@, s0, call_lines(*ctx, val, *callee, args@));
            }
        },
        ValueKind::GetElemPtr(src, idx) => {
            generate_elem_ptr(ctx, p, val, *src, *idx);
            proof {
                lemma_lines_first(p.values@, s0, elem_ptr_lines(*ctx, val, *src, *idx));
            }
        },
        ValueKind::GetPtr(src, idx) => {
            generate_elem_ptr(ctx, p, val, *src, *idx);
            proof {
                lemma_lines_first(p.values@, s0, elem_ptr_lines(*ctx, val, *src, *idx));
            }
        },
        ValueKind::Alloc => {
            generate_alloc(ctx, p, val);
            proof {
                lemma_lines_first(p.values@, s0, alloc_lines(*ctx, val));
            }
        },
        _ => {},
    }
}

/// Whether `s1` is `s0` followed by the code that `generate_value` makes
/// for the instruction `val`.
pub open spec fn value_code(ctx: Context, s0: Seq<AsmValue>, s1: Seq<AsmValue>, val: usize) -> bool {
    match ctx.program.values@[val as int].kind {
        ValueKind::Branch(c, t, ta, fb, fa) => {
            &&& s1.len() > 0
            &&& line(s1.last()) == Line::Jump(bb_label(ctx, fb))
            &&& exists|sb: Seq<AsmValue>, tl: String|
                #![trigger tl@, sb.len()]
                {
                    &&& lines(sb) == lines(moves_spec(
                        ctx,
                        moves_spec(ctx, s0, ctx.program.blocks@[t as int].params@, ta@, ta@.len() as int),
                        ctx.program.blocks@[fb as int].params@,
                        fa@,
                        fa@.len() as int,
                    )) + read_spec(ctx, RegID(6), c).0
                    &&& tl@ == bb_label(ctx, t)
                    &&& s1.drop_last() == compress_all(
                        sb.push(AsmValue::Branch(BranchOp::Bnez, read_spec(ctx, RegID(6), c).1, zero_reg(), tl)),
                    )
                }
        },
        ValueKind::Jump(t, args) => {
            &&& s1.len() > 0
            &&& s1.drop_last() == moves_spec(
                ctx,
                s0,
                ctx.program.blocks@[t as int].params@,
                args@,
                min_int(args@.len() as int, ctx.program.blocks@[t as int].params@.len() as int),
            )
            &&& line(s1.last()) == Line::Jump(bb_label(ctx, t))
        },
        ValueKind::Return(v) => lines(s1) == lines(s0) + return_lines(ctx, v),
        ValueKind::Store(v, d) => lines(s1) == lines(s0) + store_lines(ctx, v, d),
        ValueKind::Integer(i) => s1 == s0.push(AsmValue::Directive(Directive::Word(i))),
        ValueKind::ZeroInit => s1 == s0.push(
            AsmValue::Directive(Directive::Zero(ty_size(ctx.program.values@[val as int].ty) as usize)),
        ),
        ValueKind::Binary(op, l, r) => lines(s1) == lines(s0) + binary_lines(ctx, val, op, l, r),
        ValueKind::Load(src) => lines(s1) == lines(s0) + load_lines(ctx, val, src),
        ValueKind::Call(callee, args) => lines(s1) == lines(s0) + call_lines(ctx, val, callee, args@),
        ValueKind::GetElemPtr(src, idx) => lines(s1) == lines(s0) + elem_ptr_lines(ctx, val, src, idx),
        ValueKind::GetPtr(src, idx) => lines(s1) == lines(s0) + elem_ptr_lines(ctx, val, src, idx),
        ValueKind::Alloc => lines(s1) == lines(s0) + alloc_lines(ctx, val),
        _ => s1 == s0,
    }
}

/// A program whose lines begin with those of one that starts with a directive starts with it too.
pub proof fn lemma_lines_first(a: Seq<AsmValue>, b: Seq<AsmValue>, x: Seq<Line>)
    requires
        lines(a) == lines(b) + x,
        starts_with_directive(b),
    ensures
        starts_with_directive(a),
        a[0] == b[0],
{
    assert(lines(a).len() == a.len());
    assert(lines(a)[0] == lines(b)[0]);
    assert(line(a[0]) == line(b[0]));
}

/// How many arguments instruction `v` passes: those of a call, three for the
/// call of `memset` that stores a zero initializer, or -1 for none.
pub open spec fn arg_need(p: Program, v: usize) -> int {
    match p.values@[v as int].kind {
        ValueKind::Call(_, args) => args@.len() as int,
        ValueKind::Store(x, _) => if x < p.values@.len() && p.values@[x as int].kind is ZeroInit {
            3
        } else {
            -1
        },
        _ => -1,
    }
}

/// The most arguments passed by the first `k` instructions of `insts`, or -1.
pub open spec fn insts_need(p: Program, insts: Seq<usize>, k: int) -> int
    decreases k,
{
    if k <= 0 {
        -1
    } else {
        let m = insts_need(p, insts, k - 1);
        let a = arg_need(p, insts[k - 1]);
        if a > m {
            a
        } else {
            m
        }
    }
}

/// The most arguments passed by the instructions of the first `k` blocks of `lay`, or -1.
pub open spec fn layout_need(p: Program, lay: Seq<usize>, k: int) -> int
    decreases k,
{
    if k <= 0 {
        -1
    } else {
        let m = layout_need(p, lay, k - 1);
        let insts = p.blocks@[lay[k - 1] as int].insts@;
        let a = insts_need(p, insts, insts.len() as int);
        if a > m {
            a
        } else {
            m
        }
    }
}

/// The most arguments that function `f` passes in one call, or -1 where it calls nothing.
pub open spec fn max_arg_num(p: Program, f: usize) -> int {
    layout_need(p, p.funcs@[f as int].layout@, p.funcs@[f as int].layout@.len() as int)
}

/// The bytes of the frame that hold the arguments past the eighth.
pub open spec fn spilled_arg_size(p: Program, f: usize) -> int {
    if max_arg_num(p, f) > 8 {
        (max_arg_num(p, f) - 8) * 4
    } else {
        0
    }
}

/// The most arguments passed by one instruction of function `f`.
fn max_arg_num_of(program: &Program, f: usize) -> (r: Option<usize>)
    requires
        program.wf(),
        f < program.funcs@.len(),
    ensures
        match r {
            Some(m) => max_arg_num(*program, f) == m,
            None => max_arg_num(*program, f) == -1,
        },
{
    let lay = &program.funcs[f].layout;
    let mut best: i128 = -1;
    let mut bi: usize = 0;
    while bi < lay.len()
        invariant
            program.wf(),
            f < program.funcs@.len(),
            *lay == program.funcs@[f as int].layout,
            bi <= lay@.len(),
            best == layout_need(*program, lay@, bi as int),
            -1 <= best <= usize::MAX,
        decreases lay@.len() - bi,
    {
        let insts = &program.blocks[lay[bi]].insts;
        let mut m: i128 = -1;
        let mut ii: usize = 0;
        while ii < insts.len()
            invariant
                program.wf(),
                f < program.funcs@.len(),
                bi < lay@.len(),
                lay[bi as int] < program.blocks@.len(),
                *insts == program.blocks@[lay[bi as int] as int].insts,
                ii <= insts@.len(),
                m == insts_need(*program, insts@, ii as int),
                -1 <= m <= usize::MAX,
            decreases insts@.len() - ii,
        {
            let v = insts[ii];
            let a: i128 = match &program.values[v].kind {
                ValueKind::Call(_, args) => args.len() as i128,
                ValueKind::Store(x, _) => if *x < program.values.len() && matches!(
                    program.values[*x].kind,
                    ValueKind::ZeroInit
                ) {
                    3
                } else {
                    -1
                },
                _ => -1,
            };
            if a > m {
                m = a;
            }
            ii = ii + 1;
        }
        if m > best {
            best = m;
        }
        bi = bi + 1;
    }
    if best < 0 {
        None
    } else {
        Some(best as usize)
    }
}

/// The place of a spilled value moved past the first `base` bytes of the frame.
pub open spec fn rebase(pl: Place, base: i32) -> Place {
    match pl {
        Place::Mem(off) => Place::Mem((off + base) as i32),
        Place::Reg(r) => pl,
    }
}

/// Whether every spilled place lies within the first `size` bytes.
pub open spec fn places_within(places: Map<u32, Place>, size: int) -> bool {
    forall|v: u32| #[trigger] places.contains_key(v) ==> (places[v] matches Place::Mem(o) ==> 0 <= o && o + 4 <= size)
}

impl<'i> Context<'i> {
    /// Numbers function `f` after the ones numbered before it.
    pub fn new_func(&mut self, f: usize)
        ensures
            final(self).functions@ == old(self).functions@.insert(f, old(self).functions@.len() as usize),
            final(self).program == old(self).program,
            final(self).global_values@ == old(self).global_values@,
            final(self).cur_func == old(self).cur_func,
            final(self).nametag == old(self).nametag,
    {
        let id = self.functions.len();
        self.functions.insert(f, id);
    }

    /// Records the label of global variable `val`.
    pub fn register_global_var(&mut self, val: usize, name: String)
        ensures
            final(self).global_values@ == old(self).global_values@.insert(val, name),
            final(self).program == old(self).program,
            final(self).functions@ == old(self).functions@,
            final(self).cur_func == old(self).cur_func,
            final(self).nametag == old(self).nametag,
    {
        self.global_values.insert(val, name);
    }

    /// Starts generating function `f`, whose values have the places that the
    /// allocator gave: the frame keeps, from `sp` up, the arguments past the
    /// eighth of the calls it makes, the `max_reg` callee-saved registers it
    /// uses, and the `spill_size` bytes of spilled values, whose places are
    /// moved past what comes before them.
    pub fn set_func(&mut self, f: usize, places: &HashMap<u32, Place>, spill_size: usize, max_reg: usize)
        requires
            old(self).program.wf(),
            f < old(self).program.funcs@.len(),
            old(self).program.values@.len() <= u32::MAX,
            max_reg <= 12,
            spill_size <= 0x100_0000,
            max_arg_num(*old(self).program, f) < 0x100_0000,
            places_within(places@, spill_size as int),
        ensures
            final(self).program == old(self).program,
            final(self).global_values@ == old(self).global_values@,
            final(self).functions@ == old(self).functions@,
            final(self).nametag == 0,
            final(self).cur_func is Some,
            final(self).cur().id == f,
            final(self).cur().saved_regs == (
                spilled_arg_size(*old(self).program, f) as i32,
                (spilled_arg_size(*old(self).program, f) + 4 * max_reg) as i32,
            ),
            final(self).cur().base_offset == spilled_arg_size(*old(self).program, f) + 4 * max_reg,
            final(self).cur().spilled_size == spilled_arg_size(*old(self).program, f) + 4 * max_reg + spill_size,
            final(self).cur().local_arrays@ == Map::<usize, i32>::empty(),
            final(self).cur().blocks@ == Map::<usize, String>::empty(),
            forall|v: usize| #[trigger] final(self).cur().local_values@.contains_key(v) ==> v
                < old(self).program.values@.len() && places@.contains_key(v as u32)
                && final(self).cur().local_values@[v] == rebase(places@[v as u32], final(self).cur().base_offset),
            forall|v: usize|
                v < old(self).program.values@.len() && places@.contains_key(v as u32) && #[trigger] needs_place(
                    *old(self).program,
                    f,
                    v,
                ) ==> final(self).cur().local_values@.contains_key(v),
    {
        let m = max_arg_num_of(self.program, f);
        let spilled_arg: i32 = match m {
            Some(n) => if n > 8 {
                ((n - 8) * 4) as i32
            } else {
                0
            },
            None => 0,
        };
        let saved = (spilled_arg, spilled_arg + 4 * (max_reg as i32));
        let base = saved.1;
        let spilled = base + spill_size as i32;
        let mut local_values: HashMap<usize, Place> = HashMap::new();
        let program = self.program;
        let func = &program.funcs[f];
        let mut i: usize = 0;
        while i < func.params.len()
            invariant
                program.wf(),
                *func == program.funcs@[f as int],
                f < program.funcs@.len(),
                program.values@.len() <= u32::MAX,
                i <= func.params@.len(),
                0 <= base <= 0x1000_0000,
                places_within(places@, spill_size as int),
                spill_size <= 0x100_0000,
                forall|v: usize| #[trigger] local_values@.contains_key(v) ==> v < program.values@.len()
                    && places@.contains_key(v as u32) && local_values@[v] == rebase(places@[v as u32], base),
                forall|j: int| 0 <= j < i ==> places@.contains_key((#[trigger] func.params@[j]) as u32)
                    ==> local_values@.contains_key(func.params@[j]),
            decreases func.params@.len() - i,
        {
            install_place(&mut local_values, places, func.params[i], base, program.values.len(), spill_size);
            i = i + 1;
        }
        let mut bi: usize = 0;
        while bi < func.layout.len()
            invariant
                program.wf(),
                *func == program.funcs@[f as int],
                f < program.funcs@.len(),
                program.values@.len() <= u32::MAX,
                bi <= func.layout@.len(),
                0 <= base <= 0x1000_0000,
                places_within(places@, spill_size as int),
                spill_size <= 0x100_0000,
                forall|v: usize| #[trigger] local_values@.contains_key(v) ==> v < program.values@.len()
                    && places@.contains_key(v as u32) && local_values@[v] == rebase(places@[v as u32], base),
                forall|j: int| 0 <= j < func.params@.len() ==> places@.contains_key((#[trigger] func.params@[j]) as u32)
                    ==> local_values@.contains_key(func.params@[j]),
                forall|v: usize|
                    v < program.values@.len() && places@.contains_key(v as u32) && #[trigger] in_blocks(
                        *program,
                        func.layout@,
                        bi as int,
                        v,
                    ) ==> local_values@.contains_key(v),
            decreases func.layout@.len() - bi,
        {
            let bb = &program.blocks[func.layout[bi]];
            let mut k: usize = 0;
            while k < bb.params.len()
                invariant
                    program.wf(),
                    bi < func.layout@.len(),
                    *func == program.funcs@[f as int],
                    f < program.funcs@.len(),
                    *bb == program.blocks@[func.layout@[bi as int] as int],
                    program.values@.len() <= u32::MAX,
                    k <= bb.params@.len(),
                    0 <= base <= 0x1000_0000,
                    places_within(places@, spill_size as int),
                    spill_size <= 0x100_0000,
                    forall|v: usize| #[trigger] local_values@.contains_key(v) ==> v < program.values@.len()
                        && places@.contains_key(v as u32) && local_values@[v] == rebase(places@[v as u32], base),
                    forall|j: int| 0 <= j < func.params@.len() ==> places@.contains_key((#[trigger] func.params@[j]) as u32)
                        ==> local_values@.contains_key(func.params@[j]),
                    forall|v: usize|
                        v < program.values@.len() && places@.contains_key(v as u32) && #[trigger] in_blocks(
                            *program,
                            func.layout@,
                            bi as int,
                            v,
                        ) ==> local_values@.contains_key(v),
                    forall|j: int| 0 <= j < k ==> places@.contains_key((#[trigger] bb.params@[j]) as u32)
                        ==> local_values@.contains_key(bb.params@[j]),
                decreases bb.params@.len() - k,
            {
                install_place(&mut local_values, places, bb.params[k], base, program.values.len(), spill_size);
                k = k + 1;
            }
            let mut k: usize = 0;
            while k < bb.insts.len()
                invariant
                    program.wf(),
                    bi < func.layout@.len(),
                    *func == program.funcs@[f as int],
                    f < program.funcs@.len(),
                    *bb == program.blocks@[func.layout@[bi as int] as int],
                    program.values@.len() <= u32::MAX,
                    k <= bb.insts@.len(),
                    0 <= base <= 0x1000_0000,
                    places_within(places@, spill_size as int),
                    spill_size <= 0x100_0000,
                    forall|v: usize| #[trigger] local_values@.contains_key(v) ==> v < program.values@.len()
                        && places@.contains_key(v as u32) && local_values@[v] == rebase(places@[v as u32], base),
                    forall|j: int| 0 <= j < func.params@.len() ==> places@.contains_key((#[trigger] func.params@[j]) as u32)
                        ==> local_values@.contains_key(func.params@[j]),
                    forall|v: usize|
                        v < program.values@.len() && places@.contains_key(v as u32) && #[trigger] in_blocks(
                            *program,
                            func.layout@,
                            bi as int,
                            v,
                        ) ==> local_values@.contains_key(v),
                    forall|j: int| 0 <= j < bb.params@.len() ==> places@.contains_key((#[trigger] bb.params@[j]) as u32)
                        ==> local_values@.contains_key(bb.params@[j]),
                    forall|j: int| 0 <= j < k ==> places@.contains_key((#[trigger] bb.insts@[j]) as u32)
                        ==> local_values@.contains_key(bb.insts@[j]),
                decreases bb.insts@.len() - k,
            {
                install_place(&mut local_values, places, bb.insts[k], base, program.values.len(), spill_size);
                k = k + 1;
            }
            proof {
                assert forall|v: usize|
                    v < program.values@.len() && places@.contains_key(v as u32) && #[trigger] in_blocks(
                        *program,
                        func.layout@,
                        bi + 1,
                        v,
                    ) implies local_values@.contains_key(v) by {
                    if !in_blocks(*program, func.layout@, bi as int, v) {
                        let b = func.layout@[bi as int];
                        if program.blocks@[b as int].params@.contains(v) {
                            let j = choose|j: int| 0 <= j < bb.params@.len() && bb.params@[j] == v;
                        } else {
                            let j = choose|j: int| 0 <= j < bb.insts@.len() && bb.insts@[j] == v;
                        }
                    }
                }
            }
            bi = bi + 1;
        }
        self.cur_func = Some(
            FunctionInfo {
                id: f,
                local_values,
                local_arrays: HashMap::new(),
                blocks: HashMap::new(),
                ss: 0,
                is_leaf: false,
                saved_regs: saved,
                base_offset: base,
                spilled_size: spilled,
            },
        );
        self.nametag = 0;
        proof {
            assert forall|v: usize|
                v < program.values@.len() && places@.contains_key(v as u32) && #[trigger] needs_place(*program, f, v)
                    implies self.cur().local_values@.contains_key(v) by {
                if !program.funcs@[f as int].params@.contains(v) {
                    assert(in_blocks(*program, func.layout@, func.layout@.len() as int, v));
                } else {
                    let j = choose|j: int| 0 <= j < func.params@.len() && func.params@[j] == v;
                }
            }
        }
    }
}

/// Whether `v` is a parameter or an instruction of the first `k` blocks of `lay`.
pub open spec fn in_blocks(p: Program, lay: Seq<usize>, k: int, v: usize) -> bool {
    exists|i: int|
        0 <= i < k && (p.blocks@[lay[i] as int].params@.contains(v) || p.blocks@[lay[i] as int].insts@.contains(v))
}

/// Whether `v` is a parameter of function `f`, a parameter of one of its blocks or one of its instructions.
pub open spec fn needs_place(p: Program, f: usize, v: usize) -> bool {
    p.funcs@[f as int].params@.contains(v) || in_blocks(p, p.funcs@[f as int].layout@, p.funcs@[f as int].layout@.len() as int, v)
}

/// Copies the place that the allocator gave `v`, if any, moved past `base` bytes.
fn install_place(local_values: &mut HashMap<usize, Place>, places: &HashMap<u32, Place>, v: usize, base: i32, nv: usize, spill_size: usize)
    requires
        v < nv,
        nv <= u32::MAX,
        0 <= base <= 0x1000_0000,
        spill_size <= 0x100_0000,
        places_within(places@, spill_size as int),
        forall|w: usize| #[trigger] old(local_values)@.contains_key(w) ==> w < nv && places@.contains_key(w as u32)
            && old(local_values)@[w] == rebase(places@[w as u32], base),
    ensures
        forall|w: usize| #[trigger] final(local_values)@.contains_key(w) ==> w < nv && places@.contains_key(w as u32)
            && final(local_values)@[w] == rebase(places@[w as u32], base),
        forall|w: usize| #[trigger] old(local_values)@.contains_key(w) ==> final(local_values)@.contains_key(w),
        places@.contains_key(v as u32) ==> final(local_values)@.contains_key(v),
{
    match places.get(&(v as u32)) {
        Some(pl) => {
            let np = match *pl {
                Place::Mem(off) => Place::Mem(off + base),
                Place::Reg(r) => Place::Reg(r),
            };
            local_values.insert(v, np);
        },
        None => {},
    }
}

/// The bytes of the frame that instruction `v` takes as a local array:
/// the size of what an allocation of more than four bytes points to.
pub open spec fn array_size(p: Program, v: usize) -> int {
    if p.values@[v as int].kind is Alloc && ty_size(pointee(p.values@[v as int].ty)) > 4 {
        ty_size(pointee(p.values@[v as int].ty))
    } else {
        0
    }
}

/// The bytes of local arrays of the first `k` instructions of `insts`.
pub open spec fn insts_arrays(p: Program, insts: Seq<usize>, k: int) -> int
    decreases k,
{
    if k <= 0 {
        0
    } else {
        insts_arrays(p, insts, k - 1) + array_size(p, insts[k - 1])
    }
}

/// The bytes of local arrays of the first `k` blocks of `lay`.
pub open spec fn layout_arrays(p: Program, lay: Seq<usize>, k: int) -> int
    decreases k,
{
    if k <= 0 {
        0
    } else {
        let insts = p.blocks@[lay[k - 1] as int].insts@;
        layout_arrays(p, lay, k - 1) + insts_arrays(p, insts, insts.len() as int)
    }
}

pub proof fn lemma_insts_arrays_mono(p: Program, insts: Seq<usize>, k: int)
    ensures
        insts_arrays(p, insts, k) >= 0,
    decreases k,
{
    if k > 0 {
        lemma_insts_arrays_mono(p, insts, k - 1);
        crate::ir::lemma_ty_size_nonneg(pointee(p.values@[insts[k - 1] as int].ty));
    }
}

pub proof fn lemma_insts_arrays_increasing(p: Program, insts: Seq<usize>, k: int, j: int)
    requires
        0 <= j <= k,
    ensures
        insts_arrays(p, insts, j) <= insts_arrays(p, insts, k),
    decreases k,
{
    if k > j {
        lemma_insts_arrays_increasing(p, insts, k - 1, j);
        crate::ir::lemma_ty_size_nonneg(pointee(p.values@[insts[k - 1] as int].ty));
    }
}

pub proof fn lemma_layout_arrays_mono(p: Program, lay: Seq<usize>, k: int, j: int)
    requires
        0 <= j <= k,
    ensures
        layout_arrays(p, lay, j) <= layout_arrays(p, lay, k),
        layout_arrays(p, lay, j) >= 0,
    decreases k,
{
    if k > 0 {
        let insts = p.blocks@[lay[k - 1] as int].insts@;
        lemma_insts_arrays_mono(p, insts, insts.len() as int);
        if j < k {
            lemma_layout_arrays_mono(p, lay, k - 1, j);
        } else {
            lemma_layout_arrays_mono(p, lay, k - 1, k - 1);
        }
    }
}

/// Whether the instruction `val` of function `f` can be generated once the
/// frame is laid out: as `inst_ready`, where an allocation is of an array,
/// the targets of jumps are blocks of `f`, and the frame can be closed.
pub open spec fn inst_ready_pre(ctx: Context, f: usize, val: usize) -> bool {
    &&& ctx.cur_func is Some
    &&& val < ctx.program.values@.len()
    &&& match ctx.program.values@[val as int].kind {
        ValueKind::Alloc => placed(ctx, val) && array_size(*ctx.program, val) > 0,
        ValueKind::Return(x) => x matches Some(y) ==> ctx.readable(y),
        ValueKind::Jump(t, args) => {
            &&& t < ctx.program.blocks@.len()
            &&& ctx.program.funcs@[f as int].layout@.contains(t)
            &&& moves_ok(ctx, ctx.program.blocks@[t as int].params@, args@,
                min_int(args@.len() as int, ctx.program.blocks@[t as int].params@.len() as int))
        },
        ValueKind::Branch(c, t, ta, e, fa) => {
            &&& t < ctx.program.blocks@.len()
            &&& e < ctx.program.blocks@.len()
            &&& ctx.program.funcs@[f as int].layout@.contains(t)
            &&& ctx.program.funcs@[f as int].layout@.contains(e)
            &&& ta@.len() <= ctx.program.blocks@[t as int].params@.len()
            &&& fa@.len() <= ctx.program.blocks@[e as int].params@.len()
            &&& moves_ok(ctx, ctx.program.blocks@[t as int].params@, ta@, ta@.len() as int)
            &&& moves_ok(ctx, ctx.program.blocks@[e as int].params@, fa@, fa@.len() as int)
            &&& ctx.readable(c)
        },
        _ => inst_ready(ctx, val),
    }
}

/// Whether every instruction of function `f` can be generated once the frame is laid out.
pub open spec fn func_ready(ctx: Context, f: usize) -> bool {
    let lay = ctx.program.funcs@[f as int].layout@;
    forall|bi: int, ii: int|
        0 <= bi < lay.len() && 0 <= ii < ctx.program.blocks@[lay[bi] as int].insts@.len() ==> inst_ready_pre(
            ctx,
            f,
            #[trigger] ctx.program.blocks@[lay[bi] as int].insts@[ii],
        )
}

/// The size of the frame: what comes before the local arrays, the arrays,
/// and the return address unless the function is a leaf.
pub open spec fn frame_size(ctx: Context, f: usize) -> int {
    let lay = ctx.program.funcs@[f as int].layout@;
    let protect: int = if max_arg_num(*ctx.program, f) == -1 {
        0
    } else {
        4
    };
    ctx.cur().spilled_size + layout_arrays(*ctx.program, lay, lay.len() as int) + protect
}

/// The lines that open a function: its symbol, the frame of `ss` bytes,
/// the return address unless it is a leaf, then the callee-saved registers.
pub open spec fn prologue_lines(name: Seq<char>, ss: i32, saved: (i32, i32), is_leaf: bool) -> Seq<Line> {
    seq![
        Line::Directive(Directive::Text),
        Line::GlobalSymbol(name),
        Line::BinaryImm(AsmBinaryOp::Addi, sp(), sp(), -ss as i32),
    ] + (if is_leaf {
        Seq::empty()
    } else {
        seq![Line::Store(ra_reg(), sp(), (ss - 4) as i32)]
    }) + lines(saved_lines(saved, true))
}

/// The lines that move the first `n` parameters to their places: the first
/// eight come in `a0`..`a7`, the others from the caller's frame through `t1`.
pub open spec fn param_lines(ctx: Context, params: Seq<usize>, ss: i32, n: int) -> Seq<Line>
    decreases n,
{
    if n <= 0 {
        Seq::empty()
    } else {
        param_lines(ctx, params, ss, n - 1) + if n - 1 < 8 {
            write_back_spec(ctx, RegID((10 + n - 1) as usize), params[n - 1])
        } else {
            seq![Line::Load(t1(), sp(), (ss + (n - 1 - 8) * 4) as i32)] + write_back_spec(ctx, t1(), params[n - 1])
        }
    }
}

/// The steps of the body of a function laid out as `lay`: for each block,
/// its label (`true`, the block) and then its instructions (`false`, each).
pub open spec fn body_steps(p: Program, lay: Seq<usize>) -> Seq<(bool, usize)>
    decreases lay.len(),
{
    if lay.len() == 0 {
        Seq::empty()
    } else {
        body_steps(p, lay.drop_last()) + seq![(true, lay.last())] + p.blocks@[lay.last() as int].insts@.map_values(
            |v: usize| (false, v),
        )
    }
}

/// Whether `s1` is `s0` followed by the code of one step of a body: the
/// label of a block, or the code of an instruction.
pub open spec fn step_code(ctx: Context, s0: Seq<AsmValue>, s1: Seq<AsmValue>, st: (bool, usize)) -> bool {
    if st.0 {
        &&& s1.len() == s0.len() + 1
        &&& s1.drop_last() == s0
        &&& line(s1.last()) == Line::LocalSymbol(bb_label(ctx, st.1))
    } else {
        value_code(ctx, s0, s1, st.1)
    }
}

/// The least multiple of 16 that is at least `n`: the frame is aligned to 16 bytes.
pub open spec fn align16(n: int) -> int {
    (n + 15) / 16 * 16
}

proof fn lemma_align16(n: int)
    requires
        n >= 0,
    ensures
        align16(n) % 16 == 0,
        n <= align16(n) < n + 16,
{
    assert((n + 15) / 16 * 16 % 16 == 0) by (nonlinear_arith);
    assert(n <= (n + 15) / 16 * 16 < n + 16) by (nonlinear_arith)
        requires
            n >= 0,
    ;
}

/// Laying out the frame keeps every instruction of the function ready.
pub proof fn lemma_ready_after(c0: Context, c1: Context, f: usize, v: usize)
    requires
        inst_ready_pre(c0, f, v),
        c1.program == c0.program,
        c1.global_values@ == c0.global_values@,
        c1.cur_func is Some,
        c1.cur().local_values@ == c0.cur().local_values@,
        array_size(*c0.program, v) > 0 ==> c1.cur().local_arrays@.contains_key(v),
        forall|t: usize| c0.program.funcs@[f as int].layout@.contains(t) ==> #[trigger] c1.cur().blocks@.contains_key(t),
        frame_ok(c1),
    ensures
        inst_ready(c1, v),
{
    assert forall|x: usize| #[trigger] c0.readable(x) implies c1.readable(x) by {}
    assert forall|x: usize| #[trigger] c0.writable(x) implies c1.writable(x) by {}
    assert forall|x: usize| #[trigger] placed(c0, x) implies placed(c1, x) by {}
}

/// The label of the `k`-th block of the function numbered `fnum`.
pub open spec fn block_label(fnum: nat, k: nat) -> Seq<char> {
    ".LBB"@ + dec_nat(fnum) + "_"@ + dec_nat(k)
}

/// Makes the label of the next block of the function numbered `fnum`.
fn block_label_string(fnum: usize, k: usize) -> (r: String)
    ensures
        r@ == block_label(fnum as nat, k as nat),
{
    let mut s = String::from_str(".LBB");
    push_dec(&mut s, fnum as u64);
    s.append("_");
    push_dec(&mut s, k as u64);
    s
}

impl FunctionData {
    /// Generates function `f`, which `ctx` has been set up for: lays out
    /// the local arrays after the spilled values, labels the blocks, opens
    /// the frame, whose size is rounded up to a multiple of 16 bytes, moves
    /// the parameters to their places, then generates the blocks in order,
    /// each under its label.
    pub fn generate(&self, ctx: &mut Context, p: &mut AsmProgram, f: usize)
        requires
            old(ctx).program.wf(),
            f < old(ctx).program.funcs@.len(),
            *self == old(ctx).program.funcs@[f as int],
            self.name@.len() >= 1,
            old(p).values@.len() == 0 || starts_with_directive(old(p).values@),
            old(ctx).cur_func is Some,
            old(ctx).cur().id == f,
            old(ctx).functions@.contains_key(f),
            old(ctx).cur().local_arrays@ == Map::<usize, i32>::empty(),
            old(ctx).cur().blocks@ == Map::<usize, String>::empty(),
            saved_ok(old(ctx).cur().saved_regs),
            0 <= old(ctx).cur().spilled_size,
            frame_size(*old(ctx), f) <= 0x1000_0000,
            self.params@.len() <= 0x100_0000,
            forall|i: int| 0 <= i < self.params@.len() ==> placed(*old(ctx), #[trigger] self.params@[i]),
            func_ready(*old(ctx), f),
        ensures
            final(ctx).program == old(ctx).program,
            final(ctx).cur_func is Some,
            final(ctx).cur().is_leaf == (max_arg_num(*old(ctx).program, f) == -1),
            final(ctx).cur().ss == align16(frame_size(*old(ctx), f)),
            final(ctx).cur().ss % 16 == 0,
            frame_size(*old(ctx), f) <= final(ctx).cur().ss < frame_size(*old(ctx), f) + 16,
            final(ctx).cur().saved_regs == old(ctx).cur().saved_regs,
            forall|k: int| 0 <= k < self.layout@.len() ==> #[trigger] final(ctx).cur().blocks@.contains_key(self.layout@[k]),
            forall|b: usize| #[trigger] final(ctx).cur().blocks@.contains_key(b) ==> exists|k: int|
                0 <= k < self.layout@.len() && self.layout@[k] == b && final(ctx).cur().blocks@[b]@ == block_label(
                    old(ctx).functions@[f] as nat,
                    k as nat,
                ),
            starts_with_directive(final(p).values@),
            exists|ss: Seq<Seq<AsmValue>>|
                #![trigger ss.len()]
                {
                    &&& ss.len() == body_steps(*old(ctx).program, self.layout@).len() + 1
                    &&& lines(ss[0]) == lines(old(p).values@) + prologue_lines(
                        self.name@.subrange(1, self.name@.len() as int),
                        final(ctx).cur().ss,
                        old(ctx).cur().saved_regs,
                        final(ctx).cur().is_leaf,
                    ) + param_lines(*final(ctx), self.params@, final(ctx).cur().ss, self.params@.len() as int)
                    &&& ss.last() == final(p).values@
                    &&& forall|j: int|
                        0 <= j < body_steps(*old(ctx).program, self.layout@).len() ==> step_code(
                            *final(ctx),
                            ss[j],
                            ss[j + 1],
                            #[trigger] body_steps(*old(ctx).program, self.layout@)[j],
                        )
                },
    {
        let ghost c0 = *ctx;
        let program = ctx.program;
        let m = max_arg_num_of(program, f);
        let is_leaf = m.is_none();
        let protect: i32 = if is_leaf { 0 } else { 4 };
        let fnum = *ctx.functions.get(&f).unwrap();
        let mut fi = match ctx.cur_func.take() {
            Some(x) => x,
            None => {
                proof { assert(false); }
                return;
            },
        };
        let lay = &self.layout;
        let ghost total = layout_arrays(*program, lay@, lay@.len() as int);
        proof {
            lemma_layout_arrays_mono(*program, lay@, lay@.len() as int, 0);
        }
        let mut off: i32 = fi.spilled_size;
        let mut bi: usize = 0;
        while bi < lay.len()
            invariant
                program.wf(),
                *program == c0.program,
                f < program.funcs@.len(),
                *self == program.funcs@[f as int],
                *lay == self.layout,
                bi <= lay@.len(),
                total == layout_arrays(*program, lay@, lay@.len() as int),
                fi.spilled_size == c0.cur().spilled_size,
                fi.local_values@ == c0.cur().local_values@,
                fi.saved_regs == c0.cur().saved_regs,
                fi.blocks@ == c0.cur().blocks@,
                0 <= fi.spilled_size,
                fi.spilled_size + total <= 0x1000_0000,
                off == fi.spilled_size + layout_arrays(*program, lay@, bi as int),
                forall|bj: int, ii: int|
                    0 <= bj < bi && 0 <= ii < program.blocks@[lay@[bj] as int].insts@.len() && array_size(
                        *program,
                        #[trigger] program.blocks@[lay@[bj] as int].insts@[ii],
                    ) > 0 ==> fi.local_arrays@.contains_key(program.blocks@[lay@[bj] as int].insts@[ii]),
            decreases lay@.len() - bi,
        {
            let insts = &program.blocks[lay[bi]].insts;
            proof {
                lemma_layout_arrays_mono(*program, lay@, lay@.len() as int, bi + 1);
                lemma_layout_arrays_mono(*program, lay@, bi + 1, bi as int);
            }
            let mut ii: usize = 0;
            while ii < insts.len()
                invariant
                    program.wf(),
                    f < program.funcs@.len(),
                    bi < lay@.len(),
                    lay@[bi as int] < program.blocks@.len(),
                    *insts == program.blocks@[lay@[bi as int] as int].insts,
                    ii <= insts@.len(),
                    0 <= fi.spilled_size,
                    fi.spilled_size == c0.cur().spilled_size,
                    fi.local_values@ == c0.cur().local_values@,
                    fi.saved_regs == c0.cur().saved_regs,
                    fi.blocks@ == c0.cur().blocks@,
                    fi.spilled_size + layout_arrays(*program, lay@, bi + 1) <= 0x1000_0000,
                    layout_arrays(*program, lay@, bi + 1) == layout_arrays(*program, lay@, bi as int)
                        + insts_arrays(*program, insts@, insts@.len() as int),
                    layout_arrays(*program, lay@, bi as int) >= 0,
                    off == fi.spilled_size + layout_arrays(*program, lay@, bi as int) + insts_arrays(*program, insts@, ii as int),
                    forall|bj: int, jj: int|
                        0 <= bj < bi && 0 <= jj < program.blocks@[lay@[bj] as int].insts@.len() && array_size(
                            *program,
                            #[trigger] program.blocks@[lay@[bj] as int].insts@[jj],
                        ) > 0 ==> fi.local_arrays@.contains_key(program.blocks@[lay@[bj] as int].insts@[jj]),
                    forall|jj: int| 0 <= jj < ii && array_size(*program, #[trigger] insts@[jj]) > 0
                        ==> fi.local_arrays@.contains_key(insts@[jj]),
                decreases insts@.len() - ii,
            {
                let v = insts[ii];
                proof {
                    lemma_insts_arrays_mono(*program, insts@, ii as int);
                    lemma_insts_arrays_increasing(*program, insts@, insts@.len() as int, ii + 1);
                    crate::ir::lemma_ty_size_nonneg(pointee(program.values@[v as int].ty));
                }
                if matches!(program.values[v].kind, ValueKind::Alloc) {
                    let ty = program.values[v].ty.pointee();
                    let size = ty.size();
                    if size > 4 {
                        fi.local_arrays.insert(v, off);
                        off = off + size as i32;
                    }
                }
                ii = ii + 1;
            }
            proof {
                assert forall|bj: int, jj: int|
                    0 <= bj < bi + 1 && 0 <= jj < program.blocks@[lay@[bj] as int].insts@.len() && array_size(
                        *program,
                        #[trigger] program.blocks@[lay@[bj] as int].insts@[jj],
                    ) > 0 implies fi.local_arrays@.contains_key(program.blocks@[lay@[bj] as int].insts@[jj]) by {
                    if bj == bi {
                        assert(program.blocks@[lay@[bj] as int].insts@ == insts@);
                    }
                }
            }
            bi = bi + 1;
        }
        let mut k: usize = 0;
        while k < lay.len()
            invariant
                *lay == self.layout,
                k <= lay@.len(),
                fi.local_values@ == c0.cur().local_values@,
                fi.saved_regs == c0.cur().saved_regs,
                fi.spilled_size == c0.cur().spilled_size,
                forall|bj: int, ii: int|
                    0 <= bj < lay@.len() && 0 <= ii < program.blocks@[lay@[bj] as int].insts@.len() && array_size(
                        *program,
                        #[trigger] program.blocks@[lay@[bj] as int].insts@[ii],
                    ) > 0 ==> fi.local_arrays@.contains_key(program.blocks@[lay@[bj] as int].insts@[ii]),
                forall|j: int| 0 <= j < k ==> #[trigger] fi.blocks@.contains_key(lay@[j]),
                forall|b: usize| #[trigger] fi.blocks@.contains_key(b) ==> exists|j: int|
                    0 <= j < k && lay@[j] == b && fi.blocks@[b]@ == block_label(fnum as nat, j as nat),
            decreases lay@.len() - k,
        {
            let name = block_label_string(fnum, k);
            fi.blocks.insert(lay[k], name);
            proof {
                assert forall|b: usize| #[trigger] fi.blocks@.contains_key(b) implies exists|j: int|
                    0 <= j < k + 1 && lay@[j] == b && fi.blocks@[b]@ == block_label(fnum as nat, j as nat) by {
                    if b == lay@[k as int] {
                        assert(lay@[k as int] == b);
                    }
                }
            }
            k = k + 1;
        }
        fi.is_leaf = is_leaf;
        let raw = off + protect;
        proof {
            lemma_align16(raw as int);
        }
        fi.ss = (raw + 15) / 16 * 16;
        let ss = fi.ss;
        let saved = fi.saved_regs;
        ctx.cur_func = Some(fi);
        ctx.nametag = lay.len();
        let ctx_r: &Context = ctx;
        proof {
            assert forall|bi: int, ii: int|
                0 <= bi < lay@.len() && 0 <= ii < program.blocks@[lay@[bi] as int].insts@.len() implies inst_ready(
                *ctx_r,
                #[trigger] program.blocks@[lay@[bi] as int].insts@[ii],
            ) by {
                let v = program.blocks@[lay@[bi] as int].insts@[ii];
                assert(inst_ready_pre(c0, f, v));
                lemma_ready_after(c0, *ctx_r, f, v);
            }
        }
        let ghost s0 = p.values@;
        let name = self.name.as_str();
        let fname = name.substring_char(1, name.unicode_len());
        p.prologue(fname, ss, saved, is_leaf);
        let ghost pl = prologue_lines(self.name@.subrange(1, self.name@.len() as int), ss, saved, is_leaf);
        proof {
            let x = lines(p.values@).subrange(s0.len() as int, lines(p.values@).len() as int);
            assert(lines(p.values@) =~= lines(s0) + x);
            if s0.len() > 0 {
                lemma_lines_first(p.values@, s0, x);
            } else {
                assert(lines(p.values@)[0] == Line::Directive(Directive::Text));
                assert(line(p.values@[0]) == Line::Directive(Directive::Text));
            }
        }
        let mut i: usize = 0;
        while i < self.params.len()
            invariant
                i <= self.params@.len(),
                self.params@.len() <= 0x100_0000,
                0 <= ss <= 0x1000_0000,
                starts_with_directive(p.values@),
                forall|j: int| 0 <= j < self.params@.len() ==> placed(*ctx_r, #[trigger] self.params@[j]),
                lines(p.values@) == lines(s0) + pl + param_lines(*ctx_r, self.params@, ss, i as int),
            decreases self.params@.len() - i,
        {
            let ghost si = p.values@;
            let param = self.params[i];
            if i < 8 {
                p.write_back(ctx_r, RegID(10 + i), param);
                proof {
                    lemma_lines_first(p.values@, si, write_back_spec(*ctx_r, RegID((10 + i) as usize), param));
                }
            } else {
                p.load(RegID(6), RegID(2), ss + ((i - 8) * 4) as i32);
                let ghost sj = p.values@;
                p.write_back(ctx_r, RegID(6), param);
                proof {
                    assert(sj[0] == si[0]);
                    lemma_lines_first(p.values@, sj, write_back_spec(*ctx_r, RegID(6), param));
                    lemma_lines_push(si, sj.last());
                    assert(sj == si.push(sj.last()));
                }
            }
            proof {
                let x = if i < 8 {
                    write_back_spec(*ctx_r, RegID((10 + i) as usize), param)
                } else {
                    seq![Line::Load(t1(), sp(), (ss + (i - 8) * 4) as i32)] + write_back_spec(*ctx_r, t1(), param)
                };
                assert(param_lines(*ctx_r, self.params@, ss, i + 1) == param_lines(*ctx_r, self.params@, ss, i as int)
                    + x);
                assert(lines(p.values@) =~= lines(s0) + pl + param_lines(*ctx_r, self.params@, ss, i + 1));
            }
            i = i + 1;
        }
        let ghost v0 = p.values@;
        let ghost mut chain: Seq<Seq<AsmValue>> = seq![v0];
        let ghost mut steps: Seq<(bool, usize)> = Seq::empty();
        proof {
            assert(lay@.subrange(0, 0) =~= Seq::<usize>::empty());
        }
        let mut bi: usize = 0;
        while bi < lay.len()
            invariant
                *lay == self.layout,
                *self == program.funcs@[f as int],
                program.wf(),
                f < program.funcs@.len(),
                ctx_r.program == program,
                bi <= lay@.len(),
                starts_with_directive(p.values@),
                ctx_r.cur_func is Some,
                forall|j: int| 0 <= j < lay@.len() ==> #[trigger] ctx_r.cur().blocks@.contains_key(lay@[j]),
                forall|bj: int, ii: int|
                    0 <= bj < lay@.len() && 0 <= ii < program.blocks@[lay@[bj] as int].insts@.len() ==> inst_ready(
                        *ctx_r,
                        #[trigger] program.blocks@[lay@[bj] as int].insts@[ii],
                    ),
                steps == body_steps(*program, lay@.subrange(0, bi as int)),
                chain.len() == steps.len() + 1,
                chain[0] == v0,
                chain.last() == p.values@,
                forall|j: int| 0 <= j < steps.len() ==> step_code(*ctx_r, chain[j], chain[j + 1], #[trigger] steps[j]),
            decreases lay@.len() - bi,
        {
            let b = lay[bi];
            proof {
                assert(ctx_r.cur().blocks@.contains_key(lay@[bi as int]));
            }
            let label = match &ctx_r.cur_func {
                Some(info) => info.blocks.get(&b).unwrap().as_str(),
                None => "",
            };
            let ghost sl = p.values@;
            p.local_symbol(label);
            proof {
                assert(p.values@.drop_last()[0] == p.values@[0]);
                assert(label@ == bb_label(*ctx_r, b));
                assert(step_code(*ctx_r, sl, p.values@, (true, b)));
                let ghost c_old = chain;
                let ghost s_old = steps;
                chain = chain.push(p.values@);
                steps = steps.push((true, b));
                assert forall|j: int| 0 <= j < steps.len() implies step_code(*ctx_r, chain[j], chain[j + 1], #[trigger] steps[j]) by {
                    if j < s_old.len() {
                        assert(steps[j] == s_old[j]);
                        assert(chain[j] == c_old[j] && chain[j + 1] == c_old[j + 1]);
                    }
                }
            }
            let ghost sb0 = steps;
            let insts = &program.blocks[b].insts;
            let mut ii: usize = 0;
            while ii < insts.len()
                invariant
                    bi < lay@.len(),
                    b == lay@[bi as int],
                    program.wf(),
                    b < program.blocks@.len(),
                    *insts == program.blocks@[b as int].insts,
                    ii <= insts@.len(),
                    starts_with_directive(p.values@),
                    forall|jj: int| 0 <= jj < insts@.len() ==> inst_ready(*ctx_r, #[trigger] insts@[jj]),
                    steps == sb0 + insts@.subrange(0, ii as int).map_values(|v: usize| (false, v)),
                    chain.len() == steps.len() + 1,
                    chain[0] == v0,
                    chain.last() == p.values@,
                    forall|j: int| 0 <= j < steps.len() ==> step_code(*ctx_r, chain[j], chain[j + 1], #[trigger] steps[j]),
                decreases insts@.len() - ii,
            {
                let ghost sv = p.values@;
                generate_value(ctx_r, p, insts[ii]);
                proof {
                    let ghost c_old = chain;
                    let ghost s_old = steps;
                    chain = chain.push(p.values@);
                    steps = steps.push((false, insts@[ii as int]));
                    assert(step_code(*ctx_r, sv, p.values@, (false, insts@[ii as int])));
                    assert forall|j: int| 0 <= j < steps.len() implies step_code(*ctx_r, chain[j], chain[j + 1], #[trigger] steps[j]) by {
                        if j < s_old.len() {
                            assert(steps[j] == s_old[j]);
                            assert(chain[j] == c_old[j] && chain[j + 1] == c_old[j + 1]);
                        }
                    }
                    assert(steps =~= sb0 + insts@.subrange(0, ii + 1).map_values(|v: usize| (false, v)));
                }
                ii = ii + 1;
            }
            proof {
                let l1 = lay@.subrange(0, bi + 1);
                assert(l1.drop_last() =~= lay@.subrange(0, bi as int));
                assert(l1.last() == b);
                assert(insts@.subrange(0, insts@.len() as int) =~= insts@);
                assert(steps =~= body_steps(*program, l1));
            }
            bi = bi + 1;
        }
        proof {
            assert(lay@.subrange(0, lay@.len() as int) =~= lay@);
            assert(chain.len() == body_steps(*c0.program, self.layout@).len() + 1);
        }
    }
}

/// The measure of the initializer `v`: aggregates are greater than their elements.
pub open spec fn init_measure(p: Program, v: usize) -> int {
    match p.values@[v as int].kind {
        ValueKind::Aggregate(es) => es@.len() as int + 1,
        _ => 0,
    }
}

/// The data directives of the initializer `v` of a global: a word per
/// integer, the elements of an aggregate in order, zero bytes for a zero
/// initializer. An element that does not come before its aggregate is left out.
pub open spec fn init_lines(p: Program, v: usize) -> Seq<Line>
    decreases v, init_measure(p, v),
{
    if v >= p.values@.len() {
        Seq::empty()
    } else {
        match p.values@[v as int].kind {
            ValueKind::Integer(i) => seq![Line::Directive(Directive::Word(i))],
            ValueKind::Aggregate(es) => elems_lines(p, es@, es@.len() as int, v),
            ValueKind::ZeroInit => seq![Line::Directive(Directive::Zero(ty_size(p.values@[v as int].ty) as usize))],
            _ => Seq::empty(),
        }
    }
}

/// The data directives of the first `k` elements `es` of aggregate `v`.
pub open spec fn elems_lines(p: Program, es: Seq<usize>, k: int, v: usize) -> Seq<Line>
    decreases v, k,
{
    if k <= 0 || k > es.len() {
        Seq::empty()
    } else {
        elems_lines(p, es, k - 1, v) + if es[k - 1] < v {
            init_lines(p, es[k - 1])
        } else {
            Seq::empty()
        }
    }
}

/// Whether the initializer `v` can be generated: every element of an
/// aggregate comes before it, and zero initializers have sizes that fit.
pub open spec fn init_ok(p: Program, v: usize) -> bool
    decreases v,
{
    &&& v < p.values@.len()
    &&& match p.values@[v as int].kind {
        ValueKind::Aggregate(es) => forall|i: int| 0 <= i < es@.len() ==> (#[trigger] es@[i]) < v && init_ok(p, es@[i]),
        ValueKind::ZeroInit => ty_size(p.values@[v as int].ty) <= usize::MAX,
        _ => true,
    }
}

/// Generates the data of the initializer `v` of a global.
pub fn generate_init(ctx: &Context, p: &mut AsmProgram, v: usize)
    requires
        init_ok(*ctx.program, v),
    ensures
        lines(final(p).values@) == lines(old(p).values@) + init_lines(*ctx.program, v),
    decreases v,
{
    let ghost s0 = p.values@;
    match ctx.value_kind(v) {
        ValueKind::Integer(i) => {
            p.directive(Directive::Word(*i));
            proof {
                lemma_lines_push(s0, p.values@.last());
            }
        },
        ValueKind::Aggregate(es) => {
            let mut k: usize = 0;
            while k < es.len()
                invariant
                    k <= es@.len(),
                    v < ctx.program.values@.len(),
                    ctx.program.values@[v as int].kind == ValueKind::Aggregate(*es),
                    init_ok(*ctx.program, v),
                    lines(p.values@) == lines(s0) + elems_lines(*ctx.program, es@, k as int, v),
                decreases es@.len() - k,
            {
                let e = es[k];
                proof {
                    assert(init_ok(*ctx.program, v));
                    let es2 = ctx.program.values@[v as int].kind->Aggregate_0;
                    assert(es2 == *es);
                    assert(forall|i: int| 0 <= i < es2@.len() ==> (#[trigger] es2@[i]) < v && init_ok(*ctx.program, es2@[i]));
                    assert(es2@[k as int] < v);
                    assert(es@[k as int] < v && init_ok(*ctx.program, es@[k as int]));
                }
                let ghost sk = p.values@;
                generate_init(ctx, p, e);
                proof {
                    assert(lines(p.values@) =~= lines(s0) + elems_lines(*ctx.program, es@, k + 1, v));
                }
                k = k + 1;
            }
        },
        ValueKind::ZeroInit => {
            let size = ctx.program.values[v].ty.size();
            p.directive(Directive::Zero(size));
            proof {
                lemma_lines_push(s0, p.values@.last());
            }
        },
        _ => {
            assert(lines(p.values@) =~= lines(s0) + Seq::<Line>::empty());
        },
    }
}

/// Whether global allocation `g` can be generated: it is a global allocation
/// with a label and an initializer that can be generated.
pub open spec fn global_ok(ctx: Context, g: usize) -> bool {
    &&& g < ctx.program.values@.len()
    &&& ctx.global_values@.contains_key(g)
    &&& ctx.program.values@[g as int].kind matches ValueKind::GlobalAlloc(init) && init_ok(*ctx.program, init)
}

/// Generates the global allocation `g`: its label, then its initializer.
pub fn generate_global(ctx: &Context, p: &mut AsmProgram, g: usize)
    requires
        global_ok(*ctx, g),
    ensures
        lines(final(p).values@) == lines(old(p).values@) + seq![Line::GlobalSymbol(ctx.global_values@[g]@)] + init_lines(
            *ctx.program,
            ctx.program.values@[g as int].kind->GlobalAlloc_0,
        ),
{
    let ghost s0 = p.values@;
    let label = ctx.get_global_var(g);
    p.global_symbol(label.as_str());
    let ghost s1 = p.values@;
    proof {
        assert(s1 =~= s0.push(s1.last()));
        lemma_lines_push(s0, s1.last());
    }
    if let ValueKind::GlobalAlloc(init) = ctx.value_kind(g) {
        generate_init(ctx, p, *init);
    }
}

} // verus!
