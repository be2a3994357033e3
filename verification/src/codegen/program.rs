use vstd::prelude::*;

use super::context::{named_reg, reg_name, RegID};

verus! {

/// An assembler directive.
#[derive(Debug, Clone, Copy, PartialEq, Eq, Structural)]
pub enum Directive {
    Data,
    Text,
    Word(i32),
    Zero(usize),
}

/// A label of the assembly program.
pub type Lable = String;

/// One line of the generated assembly program.
#[derive(Debug)]
pub enum AsmValue {
    /// `la dst, lable`
    LoadAddress(RegID, Lable),
    /// `li dst, imm`
    LoadImm(RegID, i32),
    /// `lw dst, offset(src)`
    Load(RegID, RegID, i32),
    /// `sw src, offset(dst)`
    Store(RegID, RegID, i32),
    /// `op dst, lhs, rhs`
    Binary(AsmBinaryOp, RegID, RegID, RegID),
    /// `op dst, lhs, imm`
    BinaryImm(AsmBinaryOp, RegID, RegID, i32),
    /// `op dst, opr`
    Unary(AsmUnaryOp, RegID, RegID),
    Branch(BranchOp, RegID, RegID, Lable),
    Jump(Lable),
    Call(Lable),
    Directive(Directive),
    GlobalSymbol(Lable),
    LocalSymbol(Lable),
    Return,
}

#[derive(Debug, Clone, Copy, PartialEq, Eq, Structural)]
pub enum AsmBinaryOp {
    Add,
    Addi,
    Sub,
    Mul,
    Div,
    Rem,
    And,
    Andi,
    Or,
    Ori,
    Slt,
    Slti,
    Sgt,
    Xor,
    Xori,
    Slli,
    Srai,
}

#[derive(Debug, Clone, Copy, PartialEq, Eq, Structural)]
pub enum AsmUnaryOp {
    Seqz,
    Snez,
    Move,
}

#[derive(Debug, Clone, Copy, PartialEq, Eq, Structural)]
pub enum BranchOp {
    Bnez,
    Beqz,
    Blt,
    Bgt,
    Beq,
    Bne,
}

impl Clone for AsmValue {
    fn clone(&self) -> (r: Self)
        ensures
            r == *self,
    {
        match self {
            AsmValue::LoadAddress(d, l) => AsmValue::LoadAddress(*d, l.clone()),
            AsmValue::LoadImm(d, i) => AsmValue::LoadImm(*d, *i),
            AsmValue::Load(d, s, o) => AsmValue::Load(*d, *s, *o),
            AsmValue::Store(s, d, o) => AsmValue::Store(*s, *d, *o),
            AsmValue::Binary(op, d, l, r) => AsmValue::Binary(*op, *d, *l, *r),
            AsmValue::BinaryImm(op, d, l, i) => AsmValue::BinaryImm(*op, *d, *l, *i),
            AsmValue::Unary(op, d, o) => AsmValue::Unary(*op, *d, *o),
            AsmValue::Branch(op, l, r, t) => AsmValue::Branch(*op, *l, *r, t.clone()),
            AsmValue::Jump(l) => AsmValue::Jump(l.clone()),
            AsmValue::Call(l) => AsmValue::Call(l.clone()),
            AsmValue::Directive(d) => AsmValue::Directive(*d),
            AsmValue::GlobalSymbol(l) => AsmValue::GlobalSymbol(l.clone()),
            AsmValue::LocalSymbol(l) => AsmValue::LocalSymbol(l.clone()),
            AsmValue::Return => AsmValue::Return,
        }
    }
}

/// The binary operators of the intermediate representation.
#[derive(Debug, Clone, Copy, PartialEq, Eq, Structural)]
pub enum IrBinaryOp {
    NotEq,
    Eq,
    Gt,
    Lt,
    Ge,
    Le,
    Add,
    Sub,
    Mul,
    Div,
    Mod,
    And,
    Or,
    Xor,
    Shl,
    Shr,
    Sar,
}

/// A sequence of assembly lines under construction.
pub struct AsmProgram {
    pub values: Vec<AsmValue>,
}

/// The register `zero`.
pub open spec fn zero_reg() -> RegID {
    RegID(0)
}

/// The register `sp`.
pub open spec fn sp_reg() -> RegID {
    RegID(2)
}

/// The register `t0`.
pub open spec fn t0_reg() -> RegID {
    RegID(5)
}

fn zero() -> (r: RegID)
    ensures
        r == zero_reg(),
{
    proof {
        reveal_strlit("zero");
        assert(reg_name(0) =~= "zero"@);
    }
    named_reg("zero", Ghost(0))
}

/// One peephole step on the last two lines of a program: a conditional
/// branch on a register that the line before it has just computed is
/// replaced by a branch on the operands of that computation.
pub open spec fn compress_step(s: Seq<AsmValue>) -> Option<Seq<AsmValue>> {
    if s.len() < 2 {
        None
    } else {
        let last = s[s.len() - 1];
        let prev = s[s.len() - 2];
        let rest = s.subrange(0, s.len() - 2);
        match (last, prev) {
            (AsmValue::Branch(BranchOp::Bnez, _, _, target), AsmValue::Unary(AsmUnaryOp::Seqz, _, opr)) =>
                Some(rest.push(AsmValue::Branch(BranchOp::Beqz, opr, zero_reg(), target))),
            (AsmValue::Branch(BranchOp::Bnez, _, _, target), AsmValue::Unary(AsmUnaryOp::Snez, _, opr)) =>
                Some(rest.push(AsmValue::Branch(BranchOp::Bnez, opr, zero_reg(), target))),
            (AsmValue::Branch(BranchOp::Bnez, _, _, target), AsmValue::Binary(AsmBinaryOp::Slt, _, lhs, rhs)) =>
                Some(rest.push(AsmValue::Branch(BranchOp::Blt, lhs, rhs, target))),
            (AsmValue::Branch(BranchOp::Bnez, _, _, target), AsmValue::Binary(AsmBinaryOp::Sgt, _, lhs, rhs)) =>
                Some(rest.push(AsmValue::Branch(BranchOp::Bgt, lhs, rhs, target))),
            (AsmValue::Branch(BranchOp::Beqz, lhs, _, target), AsmValue::BinaryImm(AsmBinaryOp::Xori, _, rhs, imm)) =>
                Some(rest.push(AsmValue::LoadImm(lhs, imm)).push(AsmValue::Branch(BranchOp::Beq, lhs, rhs, target))),
            (AsmValue::Branch(BranchOp::Bnez, lhs, _, target), AsmValue::BinaryImm(AsmBinaryOp::Xori, _, rhs, imm)) =>
                Some(rest.push(AsmValue::LoadImm(lhs, imm)).push(AsmValue::Branch(BranchOp::Bne, lhs, rhs, target))),
            _ => None,
        }
    }
}

/// Whether the last line is a branch that a peephole step may still rewrite.
pub open spec fn ends_in_test_branch(s: Seq<AsmValue>) -> bool {
    s.len() > 0 && (s[s.len() - 1] matches AsmValue::Branch(op, _, _, _) && (op == BranchOp::Bnez || op == BranchOp::Beqz))
}

/// A measure that every peephole step decreases.
pub open spec fn compress_measure(s: Seq<AsmValue>) -> nat {
    2 * s.len() + if ends_in_test_branch(s) { 1nat } else { 0nat }
}

pub proof fn lemma_compress_step_decreases(s: Seq<AsmValue>)
    ensures
        compress_step(s) matches Some(t) ==> compress_measure(t) < compress_measure(s),
{
}

/// The result of applying peephole steps until none applies.
pub open spec fn compress_all(s: Seq<AsmValue>) -> Seq<AsmValue>
    decreases compress_measure(s),
{
    match compress_step(s) {
        Some(t) => {
            if compress_measure(t) < compress_measure(s) {
                compress_all(t)
            } else {
                t
            }
        },
        None => s,
    }
}

/// Whether the peephole steps on `s` always see at least two lines.
pub open spec fn compress_safe(s: Seq<AsmValue>) -> bool
    decreases compress_measure(s),
{
    s.len() >= 2 && match compress_step(s) {
        Some(t) => if compress_measure(t) < compress_measure(s) {
            compress_safe(t)
        } else {
            true
        },
        None => true,
    }
}

/// Whether the line writes register `src` as its destination.
pub open spec fn writes_reg(v: AsmValue, src: RegID) -> bool {
    match v {
        AsmValue::Binary(_, d, _, _) => d == src,
        AsmValue::BinaryImm(_, d, _, _) => d == src,
        AsmValue::Unary(_, d, _) => d == src,
        AsmValue::Load(d, _, _) => d == src,
        AsmValue::LoadImm(d, _) => d == src,
        _ => false,
    }
}

/// The line with its destination register replaced by `dst`.
pub open spec fn with_dst(v: AsmValue, dst: RegID) -> AsmValue {
    match v {
        AsmValue::Binary(op, _, l, r) => AsmValue::Binary(op, dst, l, r),
        AsmValue::BinaryImm(op, _, l, i) => AsmValue::BinaryImm(op, dst, l, i),
        AsmValue::Unary(op, _, o) => AsmValue::Unary(op, dst, o),
        AsmValue::Load(_, s, off) => AsmValue::Load(dst, s, off),
        AsmValue::LoadImm(_, i) => AsmValue::LoadImm(dst, i),
        _ => v,
    }
}

/// Whether the scan for a redundant move may look past this line:
/// it neither writes nor reads `src`, and it is an instruction that the scan understands.
pub open spec fn transparent_for(v: AsmValue, src: RegID) -> bool {
    match v {
        AsmValue::Binary(_, d, l, r) => d != src && l != src && r != src,
        AsmValue::BinaryImm(_, d, o, _) => d != src && o != src,
        AsmValue::Unary(_, d, o) => d != src && o != src,
        AsmValue::Load(d, s, _) => d != src && s != src,
        AsmValue::Store(a, b, _) => a != src && b != src,
        AsmValue::Branch(_, a, b, _) => a != src && b != src,
        _ => false,
    }
}

/// The outcome of looking for the line that defines `src`.
pub enum MvScan {
    /// The line at this index writes `src` and nothing after it touches `src`.
    Rewrite(int),
    /// No line defines `src`, and every line could be passed.
    NotFound,
    /// A line reads `src` or cannot be analysed.
    Blocked,
}

/// Scans the first `k` lines of `s` from the back.
pub open spec fn mv_scan(s: Seq<AsmValue>, k: int, src: RegID) -> MvScan
    decreases k,
{
    if k <= 0 {
        MvScan::NotFound
    } else if writes_reg(s[k - 1], src) {
        MvScan::Rewrite(k - 1)
    } else if transparent_for(s[k - 1], src) {
        mv_scan(s, k - 1, src)
    } else {
        MvScan::Blocked
    }
}

/// Whether `imm` is a positive power of two, as the generator tests it.
pub open spec fn is_pow2_imm(imm: i32) -> bool {
    imm > 0 && (imm & ((imm - 1) as i32)) == 0
}

/// The number of binary digits of `x`.
pub open spec fn bit_len(x: int) -> nat
    decreases x,
{
    if x <= 0 {
        0
    } else {
        1 + bit_len(x / 2)
    }
}

/// A number below `2^k` has at most `k` binary digits.
pub proof fn lemma_bit_len_bound(x: int, k: nat)
    requires
        0 <= x < vstd::arithmetic::power2::pow2(k),
    ensures
        bit_len(x) <= k,
    decreases k,
{
    if x > 0 {
        if k == 0 {
            vstd::arithmetic::power2::lemma2_to64();
        } else {
            vstd::arithmetic::power2::lemma_pow2_unfold(k);
            lemma_bit_len_bound(x / 2, (k - 1) as nat);
        }
    }
}

/// The exponent of the largest power of two not above `imm`.
pub open spec fn shift_of(imm: i32) -> i32 {
    (bit_len(imm as int) - 1) as i32
}

/// The lines that `ir_binary` emits.
pub open spec fn ir_binary_lines(op: IrBinaryOp, dst: RegID, lhs: RegID, rhs: RegID) -> Seq<AsmValue> {
    match op {
        IrBinaryOp::Add => seq![AsmValue::Binary(AsmBinaryOp::Add, dst, lhs, rhs)],
        IrBinaryOp::Sub => seq![AsmValue::Binary(AsmBinaryOp::Sub, dst, lhs, rhs)],
        IrBinaryOp::Mul => seq![AsmValue::Binary(AsmBinaryOp::Mul, dst, lhs, rhs)],
        IrBinaryOp::Div => seq![AsmValue::Binary(AsmBinaryOp::Div, dst, lhs, rhs)],
        IrBinaryOp::Mod => seq![AsmValue::Binary(AsmBinaryOp::Rem, dst, lhs, rhs)],
        IrBinaryOp::And => seq![AsmValue::Binary(AsmBinaryOp::And, dst, lhs, rhs)],
        IrBinaryOp::Or => seq![AsmValue::Binary(AsmBinaryOp::Or, dst, lhs, rhs)],
        IrBinaryOp::Lt => seq![AsmValue::Binary(AsmBinaryOp::Slt, dst, lhs, rhs)],
        IrBinaryOp::Gt => seq![AsmValue::Binary(AsmBinaryOp::Sgt, dst, lhs, rhs)],
        IrBinaryOp::Eq => seq![
            AsmValue::Binary(AsmBinaryOp::Xor, dst, lhs, rhs),
            AsmValue::Unary(AsmUnaryOp::Seqz, dst, dst),
        ],
        IrBinaryOp::NotEq => seq![
            AsmValue::Binary(AsmBinaryOp::Xor, dst, lhs, rhs),
            AsmValue::Unary(AsmUnaryOp::Snez, dst, dst),
        ],
        IrBinaryOp::Le => seq![
            AsmValue::Binary(AsmBinaryOp::Sgt, dst, lhs, rhs),
            AsmValue::Unary(AsmUnaryOp::Seqz, dst, dst),
        ],
        IrBinaryOp::Ge => seq![
            AsmValue::Binary(AsmBinaryOp::Slt, dst, lhs, rhs),
            AsmValue::Unary(AsmUnaryOp::Seqz, dst, dst),
        ],
        _ => Seq::empty(),
    }
}

/// Whether `ir_binary` can translate the operator.
pub open spec fn ir_binary_supported(op: IrBinaryOp) -> bool {
    !(op == IrBinaryOp::Xor || op == IrBinaryOp::Shl || op == IrBinaryOp::Shr || op == IrBinaryOp::Sar)
}

/// The lines that `muli` emits.
pub open spec fn muli_lines(dst: RegID, opr: RegID, imm: i32) -> Seq<AsmValue> {
    if imm == 0 {
        seq![AsmValue::Unary(AsmUnaryOp::Move, dst, zero_reg())]
    } else if imm == 1 {
        if dst != opr { seq![AsmValue::Unary(AsmUnaryOp::Move, dst, opr)] } else { Seq::empty() }
    } else if is_pow2_imm(imm) {
        seq![AsmValue::BinaryImm(AsmBinaryOp::Slli, dst, opr, shift_of(imm))]
    } else {
        seq![AsmValue::LoadImm(dst, imm), AsmValue::Binary(AsmBinaryOp::Mul, dst, opr, dst)]
    }
}

/// The lines that `divi` emits.
pub open spec fn divi_lines(dst: RegID, opr: RegID, imm: i32) -> Seq<AsmValue> {
    if imm == 1 {
        if dst != opr { seq![AsmValue::Unary(AsmUnaryOp::Move, dst, opr)] } else { Seq::empty() }
    } else if is_pow2_imm(imm) {
        seq![AsmValue::BinaryImm(AsmBinaryOp::Srai, dst, opr, shift_of(imm))]
    } else {
        seq![AsmValue::LoadImm(dst, imm), AsmValue::Binary(AsmBinaryOp::Div, dst, opr, dst)]
    }
}

/// The lines that `remi` emits.
pub open spec fn remi_lines(dst: RegID, opr: RegID, imm: i32) -> Seq<AsmValue> {
    if is_pow2_imm(imm) {
        seq![AsmValue::BinaryImm(AsmBinaryOp::Andi, dst, opr, (imm - 1) as i32)]
    } else {
        seq![AsmValue::LoadImm(dst, imm), AsmValue::Binary(AsmBinaryOp::Rem, dst, opr, dst)]
    }
}

/// The lines that `ir_binary_with_imm` emits.
pub open spec fn ir_binary_imm_lines(op: IrBinaryOp, dst: RegID, lhs: RegID, imm: i32) -> Seq<AsmValue> {
    match op {
        IrBinaryOp::Add => seq![AsmValue::BinaryImm(AsmBinaryOp::Addi, dst, lhs, imm)],
        IrBinaryOp::Sub => seq![AsmValue::BinaryImm(AsmBinaryOp::Addi, dst, lhs, (-imm) as i32)],
        IrBinaryOp::Mul => muli_lines(dst, lhs, imm),
        IrBinaryOp::Div => divi_lines(dst, lhs, imm),
        IrBinaryOp::Mod => remi_lines(dst, lhs, imm),
        IrBinaryOp::And => seq![AsmValue::BinaryImm(AsmBinaryOp::Andi, dst, lhs, imm)],
        IrBinaryOp::Or => seq![AsmValue::BinaryImm(AsmBinaryOp::Ori, dst, lhs, imm)],
        IrBinaryOp::Eq => seq![
            AsmValue::BinaryImm(AsmBinaryOp::Xori, dst, lhs, imm),
            AsmValue::Unary(AsmUnaryOp::Seqz, dst, dst),
        ],
        IrBinaryOp::NotEq => seq![
            AsmValue::BinaryImm(AsmBinaryOp::Xori, dst, lhs, imm),
            AsmValue::Unary(AsmUnaryOp::Snez, dst, dst),
        ],
        IrBinaryOp::Ge => seq![
            AsmValue::BinaryImm(AsmBinaryOp::Slti, dst, lhs, imm),
            AsmValue::Unary(AsmUnaryOp::Seqz, dst, dst),
        ],
        _ => seq![AsmValue::LoadImm(dst, imm)] + ir_binary_lines(op, dst, lhs, dst),
    }
}

/// Whether the last line of `s` is `v`, with `old` before it.
pub open spec fn pushed(old: Seq<AsmValue>, new: Seq<AsmValue>, v: AsmValue) -> bool {
    new == old.push(v)
}


impl AsmProgram {
    pub fn new() -> (r: Self)
        ensures
            r.values@ == Seq::<AsmValue>::empty(),
    {
        Self { values: Vec::new() }
    }

    pub fn push(&mut self, val: AsmValue)
        ensures
            final(self).values@ == old(self).values@.push(val),
    {
        self.values.push(val)
    }

    pub fn directive(&mut self, d: Directive)
        ensures
            final(self).values@ == old(self).values@.push(AsmValue::Directive(d)),
    {
        self.push(AsmValue::Directive(d));
    }

    /// Emits `mv dst, src`, unless both are the same register.
    pub fn mv(&mut self, dst: RegID, src: RegID)
        ensures
            final(self).values@ == if dst != src {
                old(self).values@.push(AsmValue::Unary(AsmUnaryOp::Move, dst, src))
            } else {
                old(self).values@
            },
    {
        if dst != src {
            self.unary(AsmUnaryOp::Move, dst, src);
        }
    }

    pub fn unary(&mut self, op: AsmUnaryOp, dst: RegID, opr: RegID)
        ensures
            final(self).values@ == old(self).values@.push(AsmValue::Unary(op, dst, opr)),
    {
        self.push(AsmValue::Unary(op, dst, opr));
    }

    pub fn binary(&mut self, op: AsmBinaryOp, dst: RegID, lhs: RegID, rhs: RegID)
        ensures
            final(self).values@ == old(self).values@.push(AsmValue::Binary(op, dst, lhs, rhs)),
    {
        self.push(AsmValue::Binary(op, dst, lhs, rhs));
    }

    pub fn binary_with_imm(&mut self, op: AsmBinaryOp, dst: RegID, lhs: RegID, imm: i32)
        ensures
            final(self).values@ == old(self).values@.push(AsmValue::BinaryImm(op, dst, lhs, imm)),
    {
        self.push(AsmValue::BinaryImm(op, dst, lhs, imm));
    }

    pub fn load(&mut self, dst: RegID, src: RegID, offset: i32)
        ensures
            final(self).values@ == old(self).values@.push(AsmValue::Load(dst, src, offset)),
    {
        self.push(AsmValue::Load(dst, src, offset));
    }

    pub fn load_imm(&mut self, dst: RegID, imm: i32)
        ensures
            final(self).values@ == old(self).values@.push(AsmValue::LoadImm(dst, imm)),
    {
        self.push(AsmValue::LoadImm(dst, imm));
    }

    pub fn load_address(&mut self, dst: RegID, lable: &str)
        ensures
            final(self).values@.len() == old(self).values@.len() + 1,
            final(self).values@.drop_last() == old(self).values@,
            final(self).values@.last() matches AsmValue::LoadAddress(d, l) && d == dst && l@ == lable@,
    {
        self.push(AsmValue::LoadAddress(dst, lable.to_owned()));
    }

    pub fn store(&mut self, src: RegID, dst: RegID, offset: i32)
        ensures
            final(self).values@ == old(self).values@.push(AsmValue::Store(src, dst, offset)),
    {
        self.push(AsmValue::Store(src, dst, offset));
    }

    pub fn local_symbol(&mut self, lable: &str)
        ensures
            final(self).values@.len() == old(self).values@.len() + 1,
            final(self).values@.drop_last() == old(self).values@,
            final(self).values@.last() matches AsmValue::LocalSymbol(l) && l@ == lable@,
    {
        self.push(AsmValue::LocalSymbol(lable.to_owned()));
    }

    pub fn global_symbol(&mut self, lable: &str)
        ensures
            final(self).values@.len() == old(self).values@.len() + 1,
            final(self).values@.drop_last() == old(self).values@,
            final(self).values@.last() matches AsmValue::GlobalSymbol(l) && l@ == lable@,
    {
        self.push(AsmValue::GlobalSymbol(lable.to_owned()));
    }

    pub fn call(&mut self, lable: &str)
        ensures
            final(self).values@.len() == old(self).values@.len() + 1,
            final(self).values@.drop_last() == old(self).values@,
            final(self).values@.last() matches AsmValue::Call(l) && l@ == lable@,
    {
        self.push(AsmValue::Call(lable.to_owned()));
    }

    fn compress_extend(&mut self, a: AsmValue, b: AsmValue)
        requires
            old(self).values@.len() >= 2,
        ensures
            final(self).values@ == old(self).values@.subrange(0, old(self).values@.len() - 2).push(a).push(b),
    {
        self.values.pop();
        self.values.pop();
        self.values.push(a);
        self.values.push(b);
    }

    fn compress_back(&mut self, val: AsmValue)
        requires
            old(self).values@.len() >= 2,
        ensures
            final(self).values@ == old(self).values@.subrange(0, old(self).values@.len() - 2).push(val),
    {
        self.values.pop();
        self.values.pop();
        self.values.push(val);
    }

    /// Applies one peephole step to the last two lines; tells whether it applied.
    fn compress_branch(&mut self) -> (r: bool)
        requires
            old(self).values@.len() >= 2,
        ensures
            r == compress_step(old(self).values@) is Some,
            r ==> final(self).values@ == compress_step(old(self).values@)->0,
            !r ==> final(self).values@ == old(self).values@,
    {
        let invalid = zero();
        let n = self.values.len();
        let last = self.values[n - 1].clone();
        let prev = self.values[n - 2].clone();
        proof {
            assert(self.values@.subrange(0, n - 2) =~= self.values@.subrange(0, self.values@.len() - 2));
        }
        match (last, prev) {
            (AsmValue::Branch(BranchOp::Bnez, _, _, target), AsmValue::Unary(AsmUnaryOp::Seqz, _, opr)) => {
                self.compress_back(AsmValue::Branch(BranchOp::Beqz, opr, invalid, target.clone()))
            },
            (AsmValue::Branch(BranchOp::Bnez, _, _, target), AsmValue::Unary(AsmUnaryOp::Snez, _, opr)) => {
                self.compress_back(AsmValue::Branch(BranchOp::Bnez, opr, invalid, target.clone()))
            },
            (AsmValue::Branch(BranchOp::Bnez, _, _, target), AsmValue::Binary(AsmBinaryOp::Slt, _, lhs, rhs)) => {
                self.compress_back(AsmValue::Branch(BranchOp::Blt, lhs, rhs, target.clone()))
            },
            (AsmValue::Branch(BranchOp::Bnez, _, _, target), AsmValue::Binary(AsmBinaryOp::Sgt, _, lhs, rhs)) => {
                self.compress_back(AsmValue::Branch(BranchOp::Bgt, lhs, rhs, target.clone()))
            },
            (AsmValue::Branch(BranchOp::Beqz, lhs, _, target), AsmValue::BinaryImm(AsmBinaryOp::Xori, _, rhs, imm)) => {
                self.compress_extend(
                    AsmValue::LoadImm(lhs, imm),
                    AsmValue::Branch(BranchOp::Beq, lhs, rhs, target.clone()),
                )
            },
            (AsmValue::Branch(BranchOp::Bnez, lhs, _, target), AsmValue::BinaryImm(AsmBinaryOp::Xori, _, rhs, imm)) => {
                self.compress_extend(
                    AsmValue::LoadImm(lhs, imm),
                    AsmValue::Branch(BranchOp::Bne, lhs, rhs, target.clone()),
                )
            },
            _ => return false,
        }

        true
    }

    /// Emits `bnez cond, target` and folds the comparison that computed `cond` into the branch.
    pub fn branch(&mut self, cond: RegID, target: &str)
        requires
            forall|t: String| t@ == target@ ==> compress_safe(
                #[trigger] old(self).values@.push(AsmValue::Branch(BranchOp::Bnez, cond, zero_reg(), t)),
            ),
        ensures
            exists|t: String| t@ == target@ && final(self).values@ == compress_all(
                old(self).values@.push(AsmValue::Branch(BranchOp::Bnez, cond, zero_reg(), t)),
            ),
    {
        let z = zero();
        let t = target.to_owned();
        let ghost t0 = t;
        self.push(AsmValue::Branch(BranchOp::Bnez, cond, z, t));
        let ghost start = self.values@;
        loop
            invariant
                compress_safe(self.values@),
                compress_all(self.values@) == compress_all(start),
            ensures
                compress_all(start) == self.values@,
            decreases compress_measure(self.values@),
        {
            let ghost before = self.values@;
            proof { lemma_compress_step_decreases(before); }
            if !self.compress_branch() {
                break;
            }
        }
        assert(t0@ == target@);
    }

    pub fn jump(&mut self, target: &str)
        ensures
            final(self).values@.len() == old(self).values@.len() + 1,
            final(self).values@.drop_last() == old(self).values@,
            final(self).values@.last() matches AsmValue::Jump(l) && l@ == target@,
    {
        self.push(AsmValue::Jump(target.to_owned()));
    }

    pub fn ret(&mut self)
        ensures
            final(self).values@ == old(self).values@.push(AsmValue::Return),
    {
        self.push(AsmValue::Return);
    }

    /// Tries to make the line that defines `src` write `dst` directly, so that
    /// a following `mv dst, src` becomes unnecessary. Tells whether the move may be dropped.
    pub fn try_remove_redundant_mv(&mut self, dst: RegID, src: RegID) -> (r: bool)
        ensures
            match mv_scan(old(self).values@, old(self).values@.len() as int, src) {
                MvScan::Rewrite(i) => r && final(self).values@ == old(self).values@.update(
                    i,
                    with_dst(old(self).values@[i], dst),
                ),
                MvScan::NotFound => r && final(self).values@ == old(self).values@,
                MvScan::Blocked => !r && final(self).values@ == old(self).values@,
            },
    {
        let mut k = self.values.len();
        while k > 0
            invariant
                0 <= k <= self.values@.len(),
                self.values@ == old(self).values@,
                mv_scan(old(self).values@, old(self).values@.len() as int, src) == mv_scan(old(self).values@, k as int, src),
            decreases k,
        {
            let i = k - 1;
            let val = self.values[i].clone();
            match val {
                AsmValue::Binary(op, ddst, lhs, rhs) => {
                    if ddst == src {
                        self.values.set(i, AsmValue::Binary(op, dst, lhs, rhs));
                        return true;
                    }
                    if lhs == src || rhs == src {
                        return false;
                    }
                },
                AsmValue::BinaryImm(op, ddst, opr, imm) => {
                    if ddst == src {
                        self.values.set(i, AsmValue::BinaryImm(op, dst, opr, imm));
                        return true;
                    }
                    if opr == src {
                        return false;
                    }
                },
                AsmValue::Unary(op, ddst, opr) => {
                    if ddst == src {
                        self.values.set(i, AsmValue::Unary(op, dst, opr));
                        return true;
                    }
                    if opr == src {
                        return false;
                    }
                },
                AsmValue::Load(ddst, ssrc, off) => {
                    if ddst == src {
                        self.values.set(i, AsmValue::Load(dst, ssrc, off));
                        return true;
                    }
                    if ssrc == src {
                        return false;
                    }
                },
                AsmValue::LoadImm(ddst, imm) => {
                    if ddst == src {
                        self.values.set(i, AsmValue::LoadImm(dst, imm));
                        return true;
                    }
                    return false;
                },
                AsmValue::Store(reg1, reg2, _) => {
                    if reg1 == src || reg2 == src {
                        return false;
                    }
                },
                AsmValue::Branch(_, reg1, reg2, _) => {
                    if reg1 == src || reg2 == src {
                        return false;
                    }
                },
                _ => return false,
            }
            k = i;
        }

        true
    }

    /// Emits the lines computing `dst = lhs op rhs`.
    pub fn ir_binary(&mut self, op: IrBinaryOp, dst: RegID, lhs: RegID, rhs: RegID)
        requires
            ir_binary_supported(op),
        ensures
            final(self).values@ == old(self).values@ + ir_binary_lines(op, dst, lhs, rhs),
    {
        match op {
            IrBinaryOp::Add => self.binary(AsmBinaryOp::Add, dst, lhs, rhs),
            IrBinaryOp::Sub => self.binary(AsmBinaryOp::Sub, dst, lhs, rhs),
            IrBinaryOp::Mul => self.binary(AsmBinaryOp::Mul, dst, lhs, rhs),
            IrBinaryOp::Div => self.binary(AsmBinaryOp::Div, dst, lhs, rhs),
            IrBinaryOp::Mod => self.binary(AsmBinaryOp::Rem, dst, lhs, rhs),
            IrBinaryOp::And => self.binary(AsmBinaryOp::And, dst, lhs, rhs),
            IrBinaryOp::Or => self.binary(AsmBinaryOp::Or, dst, lhs, rhs),
            IrBinaryOp::Lt => self.binary(AsmBinaryOp::Slt, dst, lhs, rhs),
            IrBinaryOp::Gt => self.binary(AsmBinaryOp::Sgt, dst, lhs, rhs),
            IrBinaryOp::Eq => {
                self.binary(AsmBinaryOp::Xor, dst, lhs, rhs);
                self.unary(AsmUnaryOp::Seqz, dst, dst);
            },
            IrBinaryOp::NotEq => {
                self.binary(AsmBinaryOp::Xor, dst, lhs, rhs);
                self.unary(AsmUnaryOp::Snez, dst, dst);
            },
            IrBinaryOp::Le => {
                self.binary(AsmBinaryOp::Sgt, dst, lhs, rhs);
                self.unary(AsmUnaryOp::Seqz, dst, dst);
            },
            IrBinaryOp::Ge => {
                self.binary(AsmBinaryOp::Slt, dst, lhs, rhs);
                self.unary(AsmUnaryOp::Seqz, dst, dst);
            },
            _ => {
                proof { assert(false); }
            },
        }
        assert(final(self).values@ =~= old(self).values@ + ir_binary_lines(op, dst, lhs, rhs)) by {
            assert(self.values@ =~= old(self).values@ + ir_binary_lines(op, dst, lhs, rhs));
        }
    }

    /// Emits the lines computing `dst = lhs op imm`.
    pub fn ir_binary_with_imm(&mut self, op: IrBinaryOp, dst: RegID, lhs: RegID, imm: i32)
        requires
            op == IrBinaryOp::Sub ==> imm != i32::MIN,
            ir_binary_supported(op),
        ensures
            final(self).values@ == old(self).values@ + ir_binary_imm_lines(op, dst, lhs, imm),
    {
        let ghost start = self.values@;
        match op {
            IrBinaryOp::Add => self.binary_with_imm(AsmBinaryOp::Addi, dst, lhs, imm),
            IrBinaryOp::Sub => self.binary_with_imm(AsmBinaryOp::Addi, dst, lhs, -imm),
            IrBinaryOp::Mul => self.muli(dst, lhs, imm),
            IrBinaryOp::Div => self.divi(dst, lhs, imm),
            IrBinaryOp::Mod => self.remi(dst, lhs, imm),
            IrBinaryOp::And => self.binary_with_imm(AsmBinaryOp::Andi, dst, lhs, imm),
            IrBinaryOp::Or => self.binary_with_imm(AsmBinaryOp::Ori, dst, lhs, imm),
            IrBinaryOp::Eq => {
                self.binary_with_imm(AsmBinaryOp::Xori, dst, lhs, imm);
                self.unary(AsmUnaryOp::Seqz, dst, dst);
            },
            IrBinaryOp::NotEq => {
                self.binary_with_imm(AsmBinaryOp::Xori, dst, lhs, imm);
                self.unary(AsmUnaryOp::Snez, dst, dst);
            },
            IrBinaryOp::Ge => {
                self.binary_with_imm(AsmBinaryOp::Slti, dst, lhs, imm);
                self.unary(AsmUnaryOp::Seqz, dst, dst);
            },
            _ => {
                self.load_imm(dst, imm);
                self.ir_binary(op, dst, lhs, dst);
            },
        }
        assert(self.values@ =~= start + ir_binary_imm_lines(op, dst, lhs, imm));
    }

    /// The shift amount for a power of two: the number of halvings of `imm / 2` until zero.
    fn pow2_shift(imm: i32) -> (shift: i32)
        requires
            imm > 0,
        ensures
            shift == shift_of(imm),
    {
        let mut shift: i32 = 0;
        let mut cur: i32 = imm >> 1;
        assert(imm >> 1 == imm / 2) by (bit_vector)
            requires
                imm > 0,
        ;
        assert(bit_len(imm as int) == 1 + bit_len((imm / 2) as int));
        proof {
            vstd::arithmetic::power2::lemma2_to64();
            lemma_bit_len_bound(imm as int, 31);
        }
        while cur != 0
            invariant
                0 <= cur,
                0 <= shift,
                shift + bit_len(cur as int) == bit_len(imm as int) - 1,
                bit_len(imm as int) <= 32,
            decreases cur,
        {
            assert(cur >> 1 == cur / 2) by (bit_vector)
                requires
                    cur >= 0,
            ;
            assert(bit_len(cur as int) == 1 + bit_len((cur / 2) as int));
            shift = shift + 1;
            cur = cur >> 1;
        }
        shift
    }

    /// Emits `dst = opr * imm`, reduced to a move or a shift where `imm` allows it.
    pub fn muli(&mut self, dst: RegID, opr: RegID, imm: i32)
        ensures
            final(self).values@ == old(self).values@ + muli_lines(dst, opr, imm),
    {
        let ghost start = self.values@;
        if imm == 0 {
            let z = zero();
            self.unary(AsmUnaryOp::Move, dst, z);
        } else if imm == 1 {
            if dst != opr {
                self.unary(AsmUnaryOp::Move, dst, opr);
            }
        } else if imm > 0 && (imm & (imm - 1)) == 0 {
            let shift = Self::pow2_shift(imm);
            self.binary_with_imm(AsmBinaryOp::Slli, dst, opr, shift)
        } else {
            self.load_imm(dst, imm);
            self.binary(AsmBinaryOp::Mul, dst, opr, dst)
        }
        assert(self.values@ =~= start + muli_lines(dst, opr, imm));
    }

    /// Emits `dst = opr / imm`, reduced to a move or a shift where `imm` allows it.
    pub fn divi(&mut self, dst: RegID, opr: RegID, imm: i32)
        ensures
            final(self).values@ == old(self).values@ + divi_lines(dst, opr, imm),
    {
        let ghost start = self.values@;
        if imm == 1 {
            if dst != opr {
                self.unary(AsmUnaryOp::Move, dst, opr);
            }
        } else if imm > 0 && (imm & (imm - 1)) == 0 {
            let shift = Self::pow2_shift(imm);
            self.binary_with_imm(AsmBinaryOp::Srai, dst, opr, shift)
        } else {
            self.load_imm(dst, imm);
            self.binary(AsmBinaryOp::Div, dst, opr, dst)
        }
        assert(self.values@ =~= start + divi_lines(dst, opr, imm));
    }

    /// Emits `dst = opr % imm`, reduced to a mask where `imm` is a power of two.
    pub fn remi(&mut self, dst: RegID, opr: RegID, imm: i32)
        ensures
            final(self).values@ == old(self).values@ + remi_lines(dst, opr, imm),
    {
        let ghost start = self.values@;
        if imm > 0 && (imm & (imm - 1)) == 0 {
            self.binary_with_imm(AsmBinaryOp::Andi, dst, opr, imm - 1)
        } else {
            self.load_imm(dst, imm);
            self.binary(AsmBinaryOp::Rem, dst, opr, dst)
        }
        assert(self.values@ =~= start + remi_lines(dst, opr, imm));
    }
}

impl AsmBinaryOp {
    /// The register form of an operator with an immediate operand.
    pub fn into_reg_type(self) -> (r: Self)
        requires
            self == AsmBinaryOp::Addi || self == AsmBinaryOp::Andi || self == AsmBinaryOp::Ori
                || self == AsmBinaryOp::Slti || self == AsmBinaryOp::Xori,
        ensures
            r == reg_form(self),
    {
        match self {
            Self::Addi => Self::Add,
            Self::Andi => Self::And,
            Self::Ori => Self::Or,
            Self::Slti => Self::Slt,
            Self::Xori => Self::Xor,
            _ => {
                proof { assert(false); }
                self
            },
        }
    }
}

/// The register form of an operator with an immediate operand.
pub open spec fn reg_form(op: AsmBinaryOp) -> AsmBinaryOp {
    match op {
        AsmBinaryOp::Addi => AsmBinaryOp::Add,
        AsmBinaryOp::Andi => AsmBinaryOp::And,
        AsmBinaryOp::Ori => AsmBinaryOp::Or,
        AsmBinaryOp::Slti => AsmBinaryOp::Slt,
        AsmBinaryOp::Xori => AsmBinaryOp::Xor,
        _ => op,
    }
}

} // verus!
