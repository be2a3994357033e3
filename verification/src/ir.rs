use vstd::prelude::*;

use crate::codegen::program::IrBinaryOp;

verus! {

/// A type of the intermediate representation.
#[derive(Debug)]
pub enum IrType {
    Int32,
    Unit,
    Array(Box<IrType>, usize),
    Pointer(Box<IrType>),
}

/// The number of bytes that a value of the type takes, pointers taking four.
pub open spec fn ty_size(t: IrType) -> int
    decreases t,
{
    match t {
        IrType::Int32 => 4,
        IrType::Unit => 0,
        IrType::Array(base, len) => len * ty_size(*base),
        IrType::Pointer(_) => 4,
    }
}

/// The type that a pointer of type `t` points to (`i32` where `t` is no pointer).
pub open spec fn pointee(t: IrType) -> IrType {
    match t {
        IrType::Pointer(base) => *base,
        _ => IrType::Int32,
    }
}

/// The type of the elements of an array of type `t` (`i32` where `t` is no array).
pub open spec fn elem_ty(t: IrType) -> IrType {
    match t {
        IrType::Array(base, _) => *base,
        _ => IrType::Int32,
    }
}

impl IrType {
    pub fn clone_ty(&self) -> (r: IrType)
        ensures
            r == *self,
        decreases self,
    {
        match self {
            IrType::Int32 => IrType::Int32,
            IrType::Unit => IrType::Unit,
            IrType::Array(base, len) => IrType::Array(Box::new(base.clone_ty()), *len),
            IrType::Pointer(base) => IrType::Pointer(Box::new(base.clone_ty())),
        }
    }

    pub fn is_i32(&self) -> (r: bool)
        ensures
            r == (*self is Int32),
    {
        matches!(self, IrType::Int32)
    }

    /// The number of bytes of a value of the type.
    pub fn size(&self) -> (r: usize)
        requires
            ty_size(*self) <= usize::MAX,
        ensures
            r == ty_size(*self),
        decreases self,
    {
        match self {
            IrType::Int32 => 4,
            IrType::Unit => 0,
            IrType::Array(base, len) => {
                proof {
                    lemma_ty_size_nonneg(**base);
                    if *len > 0 {
                        assert(ty_size(**base) <= *len * ty_size(**base)) by (nonlinear_arith)
                            requires
                                *len > 0,
                                ty_size(**base) >= 0,
                        ;
                    }
                }
                if *len == 0 {
                    assert(*len * ty_size(**base) == 0) by (nonlinear_arith)
                        requires
                            *len == 0,
                    ;
                    0
                } else {
                    *len * base.size()
                }
            },
            IrType::Pointer(_) => 4,
        }
    }

    /// The type that a pointer of this type points to.
    pub fn pointee(&self) -> (r: IrType)
        ensures
            r == pointee(*self),
    {
        match self {
            IrType::Pointer(base) => base.clone_ty(),
            _ => IrType::Int32,
        }
    }

    /// The type of the elements of an array of this type.
    pub fn elem_ty(&self) -> (r: IrType)
        ensures
            r == elem_ty(*self),
    {
        match self {
            IrType::Array(base, _) => base.clone_ty(),
            _ => IrType::Int32,
        }
    }
}

pub proof fn lemma_ty_size_nonneg(t: IrType)
    ensures
        ty_size(t) >= 0,
    decreases t,
{
    if let IrType::Array(base, len) = t {
        lemma_ty_size_nonneg(*base);
        assert(len * ty_size(*base) >= 0) by (nonlinear_arith)
            requires
                len >= 0,
                ty_size(*base) >= 0,
        ;
    }
}

/// What a value is. Operands are the numbers of values, blocks and functions
/// of the program.
#[derive(Debug)]
pub enum ValueKind {
    Integer(i32),
    ZeroInit,
    Undef,
    Aggregate(Vec<usize>),
    FuncArgRef(usize),
    BlockArgRef(usize),
    Alloc,
    GlobalAlloc(usize),
    /// the pointer loaded from
    Load(usize),
    /// the value stored, and the pointer stored to
    Store(usize, usize),
    /// the pointer, and the index
    GetPtr(usize, usize),
    /// the pointer to an array, and the index
    GetElemPtr(usize, usize),
    Binary(IrBinaryOp, usize, usize),
    /// the condition; the block and arguments taken if it is not zero; the others
    Branch(usize, usize, Vec<usize>, usize, Vec<usize>),
    /// the target block and its arguments
    Jump(usize, Vec<usize>),
    /// the function called and the arguments
    Call(usize, Vec<usize>),
    Return(Option<usize>),
}

/// A value: its type, its name if it has one, and what it is.
#[derive(Debug)]
pub struct ValueData {
    pub ty: IrType,
    pub name: Option<String>,
    pub kind: ValueKind,
}

/// A basic block: its name, its parameters and its instructions in order.
#[derive(Debug)]
pub struct BlockData {
    pub name: Option<String>,
    pub params: Vec<usize>,
    pub insts: Vec<usize>,
}

/// A function: its name, the types of its parameters, its return type, the
/// values that stand for its parameters and its blocks in order. A
/// declaration has no blocks.
#[derive(Debug)]
pub struct FunctionData {
    pub name: String,
    pub param_tys: Vec<IrType>,
    pub ret_ty: IrType,
    pub params: Vec<usize>,
    pub layout: Vec<usize>,
}

/// A program of the intermediate representation. Values, blocks and
/// functions are numbered by their positions; `inst_layout` lists the global
/// allocations in order.
#[derive(Debug)]
pub struct Program {
    pub values: Vec<ValueData>,
    pub blocks: Vec<BlockData>,
    pub funcs: Vec<FunctionData>,
    pub inst_layout: Vec<usize>,
}

/// Whether the value ends a block.
pub open spec fn is_term(k: ValueKind) -> bool {
    k is Branch || k is Jump || k is Return
}

/// Whether the value of kind `k` uses `v` as an operand.
pub open spec fn uses(k: ValueKind, v: usize) -> bool {
    match k {
        ValueKind::Aggregate(es) => es@.contains(v),
        ValueKind::GlobalAlloc(i) => i == v,
        ValueKind::Load(s) => s == v,
        ValueKind::Store(a, b) => a == v || b == v,
        ValueKind::GetPtr(s, i) => s == v || i == v,
        ValueKind::GetElemPtr(s, i) => s == v || i == v,
        ValueKind::Binary(_, l, r) => l == v || r == v,
        ValueKind::Branch(c, _, ta, _, fa) => c == v || ta@.contains(v) || fa@.contains(v),
        ValueKind::Jump(_, a) => a@.contains(v),
        ValueKind::Call(_, a) => a@.contains(v),
        ValueKind::Return(x) => x == Some(v),
        _ => false,
    }
}

/// Whether the value of kind `k` jumps or branches to block `bb`.
pub open spec fn targets(k: ValueKind, bb: usize) -> bool {
    match k {
        ValueKind::Jump(t, _) => t == bb,
        ValueKind::Branch(_, t, _, e, _) => t == bb || e == bb,
        _ => false,
    }
}

/// Whether the value of kind `k` uses `v` as an operand.
pub fn uses_value(k: &ValueKind, v: usize) -> (r: bool)
    ensures
        r == uses(*k, v),
{
    match k {
        ValueKind::Aggregate(es) => vec_contains(es, v),
        ValueKind::GlobalAlloc(i) => *i == v,
        ValueKind::Load(s) => *s == v,
        ValueKind::Store(a, b) => *a == v || *b == v,
        ValueKind::GetPtr(s, i) => *s == v || *i == v,
        ValueKind::GetElemPtr(s, i) => *s == v || *i == v,
        ValueKind::Binary(_, l, r) => *l == v || *r == v,
        ValueKind::Branch(c, _, ta, _, fa) => *c == v || vec_contains(ta, v) || vec_contains(fa, v),
        ValueKind::Jump(_, a) => vec_contains(a, v),
        ValueKind::Call(_, a) => vec_contains(a, v),
        ValueKind::Return(x) => match x {
            Some(y) => *y == v,
            None => false,
        },
        _ => false,
    }
}

/// Whether the value of kind `k` jumps or branches to block `bb`.
pub fn targets_block(k: &ValueKind, bb: usize) -> (r: bool)
    ensures
        r == targets(*k, bb),
{
    match k {
        ValueKind::Jump(t, _) => *t == bb,
        ValueKind::Branch(_, t, _, e, _) => *t == bb || *e == bb,
        _ => false,
    }
}

/// Whether `s` holds `v`.
pub fn vec_contains(s: &Vec<usize>, v: usize) -> (r: bool)
    ensures
        r == s@.contains(v),
{
    let mut i: usize = 0;
    while i < s.len()
        invariant
            i <= s@.len(),
            forall|j: int| 0 <= j < i ==> s@[j] != v,
        decreases s@.len() - i,
    {
        if s[i] == v {
            return true;
        }
        i = i + 1;
    }
    false
}

/// Whether every number in `s` is below `n`.
pub open spec fn all_below(s: Seq<usize>, n: int) -> bool {
    forall|i: int| 0 <= i < s.len() ==> (#[trigger] s[i]) < n
}

/// Whether every operand of `k` names a value, block or function that exists.
pub open spec fn kind_ok(k: ValueKind, nv: int, nb: int, nf: int) -> bool {
    match k {
        ValueKind::Aggregate(es) => all_below(es@, nv),
        ValueKind::GlobalAlloc(i) => i < nv,
        ValueKind::Load(s) => s < nv,
        ValueKind::Store(v, d) => v < nv && d < nv,
        ValueKind::GetPtr(s, i) => s < nv && i < nv,
        ValueKind::GetElemPtr(s, i) => s < nv && i < nv,
        ValueKind::Binary(_, l, r) => l < nv && r < nv,
        ValueKind::Branch(c, t, ta, f, fa) => c < nv && t < nb && f < nb && all_below(ta@, nv)
            && all_below(fa@, nv),
        ValueKind::Jump(t, a) => t < nb && all_below(a@, nv),
        ValueKind::Call(f, a) => f < nf && all_below(a@, nv),
        ValueKind::Return(v) => v matches Some(x) ==> x < nv,
        _ => true,
    }
}

/// Whether every number of `s` is below `n`.
pub fn all_below_exec(s: &Vec<usize>, n: usize) -> (r: bool)
    ensures
        r == all_below(s@, n as int),
{
    let mut i: usize = 0;
    while i < s.len()
        invariant
            i <= s@.len(),
            forall|j: int| 0 <= j < i ==> (#[trigger] s@[j]) < n,
        decreases s@.len() - i,
    {
        if s[i] >= n {
            return false;
        }
        i = i + 1;
    }
    true
}

/// Whether every number that the value `k` holds names something that exists.
pub fn kind_ok_exec(k: &ValueKind, nv: usize, nb: usize, nf: usize) -> (r: bool)
    ensures
        r == kind_ok(*k, nv as int, nb as int, nf as int),
{
    match k {
        ValueKind::Aggregate(es) => all_below_exec(es, nv),
        ValueKind::GlobalAlloc(i) => *i < nv,
        ValueKind::Load(s) => *s < nv,
        ValueKind::Store(v, d) => *v < nv && *d < nv,
        ValueKind::GetPtr(s, i) => *s < nv && *i < nv,
        ValueKind::GetElemPtr(s, i) => *s < nv && *i < nv,
        ValueKind::Binary(_, l, r) => *l < nv && *r < nv,
        ValueKind::Branch(c, t, ta, f, fa) => *c < nv && *t < nb && *f < nb && all_below_exec(ta, nv) && all_below_exec(
            fa,
            nv,
        ),
        ValueKind::Jump(t, a) => *t < nb && all_below_exec(a, nv),
        ValueKind::Call(f, a) => *f < nf && all_below_exec(a, nv),
        ValueKind::Return(v) => match v {
            Some(x) => *x < nv,
            None => true,
        },
        _ => true,
    }
}

impl Program {
    /// Whether every number that the program holds names something that exists.
    pub fn check_wf(&self) -> (r: bool)
        ensures
            r == self.wf(),
    {
        let nv = self.values.len();
        let nb = self.blocks.len();
        let nf = self.funcs.len();
        let mut i: usize = 0;
        while i < nv
            invariant
                nv == self.values@.len(),
                nb == self.blocks@.len(),
                nf == self.funcs@.len(),
                i <= nv,
                forall|j: int| 0 <= j < i ==> kind_ok(#[trigger] self.values@[j].kind, nv as int, nb as int, nf as int),
            decreases nv - i,
        {
            if !kind_ok_exec(&self.values[i].kind, nv, nb, nf) {
                return false;
            }
            i = i + 1;
        }
        let mut b: usize = 0;
        while b < nb
            invariant
                nv == self.values@.len(),
                nb == self.blocks@.len(),
                b <= nb,
                forall|j: int| 0 <= j < b ==> all_below((#[trigger] self.blocks@[j]).params@, nv as int) && all_below(
                    self.blocks@[j].insts@,
                    nv as int,
                ),
            decreases nb - b,
        {
            if !all_below_exec(&self.blocks[b].params, nv) || !all_below_exec(&self.blocks[b].insts, nv) {
                return false;
            }
            b = b + 1;
        }
        let mut f: usize = 0;
        while f < nf
            invariant
                nv == self.values@.len(),
                nb == self.blocks@.len(),
                nf == self.funcs@.len(),
                f <= nf,
                forall|j: int| 0 <= j < f ==> all_below((#[trigger] self.funcs@[j]).params@, nv as int) && all_below(
                    self.funcs@[j].layout@,
                    nb as int,
                ),
            decreases nf - f,
        {
            if !all_below_exec(&self.funcs[f].params, nv) || !all_below_exec(&self.funcs[f].layout, nb) {
                return false;
            }
            f = f + 1;
        }
        all_below_exec(&self.inst_layout, nv)
    }

    /// Whether every number that the program holds names something that exists.
    pub open spec fn wf(&self) -> bool {
        let nv = self.values@.len() as int;
        let nb = self.blocks@.len() as int;
        let nf = self.funcs@.len() as int;
        &&& forall|i: int| 0 <= i < nv ==> kind_ok(#[trigger] self.values@[i].kind, nv, nb, nf)
        &&& forall|b: int| 0 <= b < nb ==> all_below((#[trigger] self.blocks@[b]).params@, nv)
            && all_below(self.blocks@[b].insts@, nv)
        &&& forall|f: int| 0 <= f < nf ==> all_below((#[trigger] self.funcs@[f]).params@, nv)
            && all_below(self.funcs@[f].layout@, nb)
        &&& all_below(self.inst_layout@, nv)
    }

    /// Whether `new` keeps every value, block and function of `self` as it
    /// was, but for the instructions of the blocks in `open_blocks` and the
    /// layout of the functions in `open_funcs`, which only grow.
    pub open spec fn grows_to(&self, new: Program, open_blocks: Set<usize>, open_funcs: Set<usize>) -> bool {
        &&& self.values@.len() <= new.values@.len()
        &&& self.blocks@.len() <= new.blocks@.len()
        &&& self.funcs@.len() <= new.funcs@.len()
        &&& forall|i: int| 0 <= i < self.values@.len() ==> new.values@[i] == #[trigger] self.values@[i]
        &&& forall|b: int|
            0 <= b < self.blocks@.len() ==> {
                &&& new.blocks@[b].name == (#[trigger] self.blocks@[b]).name
                &&& new.blocks@[b].params@ == self.blocks@[b].params@
                &&& if open_blocks.contains(b as usize) {
                    self.blocks@[b].insts@.is_prefix_of(new.blocks@[b].insts@)
                } else {
                    new.blocks@[b].insts@ == self.blocks@[b].insts@
                }
            }
        &&& forall|f: int|
            0 <= f < self.funcs@.len() ==> {
                &&& new.funcs@[f].name == (#[trigger] self.funcs@[f]).name
                &&& new.funcs@[f].params@ == self.funcs@[f].params@
                &&& new.funcs@[f].param_tys@ == self.funcs@[f].param_tys@
                &&& new.funcs@[f].ret_ty == self.funcs@[f].ret_ty
                &&& if open_funcs.contains(f as usize) {
                    self.funcs@[f].layout@.is_prefix_of(new.funcs@[f].layout@)
                } else {
                    new.funcs@[f].layout@ == self.funcs@[f].layout@
                }
            }
        &&& self.inst_layout@.is_prefix_of(new.inst_layout@)
    }

    /// Whether the block ends with its only terminator.
    pub open spec fn is_closed(&self, b: usize) -> bool {
        let insts = self.blocks@[b as int].insts@;
        &&& insts.len() > 0
        &&& is_term(self.values@[insts.last() as int].kind)
        &&& forall|i: int| 0 <= i < insts.len() - 1 ==> !is_term(#[trigger] self.values@[insts[i] as int].kind)
    }

    /// Whether the block holds no terminator yet.
    pub open spec fn is_open(&self, b: usize) -> bool {
        let insts = self.blocks@[b as int].insts@;
        forall|i: int| 0 <= i < insts.len() ==> !is_term(#[trigger] self.values@[insts[i] as int].kind)
    }

    pub fn new() -> (r: Program)
        ensures
            r.wf(),
            r.values@.len() == 0,
            r.blocks@.len() == 0,
            r.funcs@.len() == 0,
            r.inst_layout@.len() == 0,
    {
        Program { values: Vec::new(), blocks: Vec::new(), funcs: Vec::new(), inst_layout: Vec::new() }
    }
}

/// The values of a list of entries: a later entry for a name replaces an earlier one.
pub open spec fn assoc_map(s: Seq<(String, usize)>) -> Map<Seq<char>, usize>
    decreases s.len(),
{
    if s.len() == 0 {
        Map::empty()
    } else {
        assoc_map(s.drop_last()).insert(s.last().0@, s.last().1)
    }
}

} // verus!
