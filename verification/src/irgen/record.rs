use vstd::prelude::*;

use crate::ast::FuncDef;
use crate::codegen::context::str_eq;
use crate::ir::{assoc_map, kind_ok, BlockData, FunctionData, IrType, Program, ValueData, ValueKind};
use crate::sema::symbol::SymbolTable;
use crate::sema::ty::{func_free, ir_ty_of, Type, TypeKind};

verus! {

/// The function whose body is being generated: its number, its entry block,
/// the block that returns, the block that instructions go to, and where the
/// return value is kept.
#[derive(Debug, Clone, Copy)]
pub struct FunctionInfo {
    pub func: usize,
    pub entry_bb: usize,
    pub end_bb: usize,
    pub cur_bb: usize,
    pub ret_val: Option<usize>,
}

/// The blocks that `continue` and `break` jump to inside a loop.
#[derive(Debug, Clone, Copy)]
pub struct LoopInfo {
    pub entry: usize,
    pub exit: usize,
}

/// The state of the generation of the intermediate representation: the
/// program built so far, the types of the names, the value that each
/// variable lives in, the number of each function, the current function and
/// the loops around the current statement, innermost last.
#[derive(Debug)]
pub struct ProgramRecorder<'i> {
    pub program: Program,
    pub symbols: &'i SymbolTable,
    pub values: Vec<(String, usize)>,
    pub funcs: Vec<(String, usize)>,
    pub cur_func: Option<FunctionInfo>,
    pub loops: Vec<LoopInfo>,
}

/// The position of the last entry for `k`, or -1.
pub open spec fn assoc_last(s: Seq<(String, usize)>, k: Seq<char>) -> int
    decreases s.len(),
{
    if s.len() == 0 {
        -1
    } else if s.last().0@ == k {
        s.len() - 1
    } else {
        assoc_last(s.drop_last(), k)
    }
}

pub proof fn lemma_assoc_last(s: Seq<(String, usize)>, k: Seq<char>)
    ensures
        -1 <= assoc_last(s, k) < s.len(),
        assoc_map(s).contains_key(k) <==> assoc_last(s, k) >= 0,
        assoc_last(s, k) >= 0 ==> s[assoc_last(s, k)].0@ == k && assoc_map(s)[k] == s[assoc_last(s, k)].1,
    decreases s.len(),
{
    if s.len() > 0 {
        lemma_assoc_last(s.drop_last(), k);
    }
}

/// Every number that the entries map to is below `n`.
pub proof fn lemma_assoc_below(s: Seq<(String, usize)>, n: int)
    requires
        forall|i: int| 0 <= i < s.len() ==> (#[trigger] s[i]).1 < n,
    ensures
        forall|k: Seq<char>| #[trigger] assoc_map(s).contains_key(k) ==> assoc_map(s)[k] < n,
{
    assert forall|k: Seq<char>| #[trigger] assoc_map(s).contains_key(k) implies assoc_map(s)[k] < n by {
        lemma_assoc_last(s, k);
    }
}

/// The last entry for `name`, if any.
fn assoc_find(s: &Vec<(String, usize)>, name: &str) -> (r: Option<usize>)
    ensures
        match r {
            Some(i) => i == assoc_last(s@, name@) && i < s@.len(),
            None => assoc_last(s@, name@) == -1,
        },
{
    let mut i = s.len();
    proof {
        assert(s@.subrange(0, i as int) =~= s@);
    }
    while i > 0
        invariant
            i <= s@.len(),
            assoc_last(s@, name@) == assoc_last(s@.subrange(0, i as int), name@),
        decreases i,
    {
        let ghost t = s@.subrange(0, i as int);
        assert(t.last() == s@[i - 1]);
        assert(t.drop_last() =~= s@.subrange(0, i - 1));
        if str_eq(s[i - 1].0.as_str(), name) {
            return Some(i - 1);
        }
        i = i - 1;
    }
    None
}

/// Whether `new` is `old` with `v` appended to the instructions of block `b`.
pub open spec fn blocks_pushed(old: Seq<BlockData>, new: Seq<BlockData>, b: usize, v: usize) -> bool {
    &&& new.len() == old.len()
    &&& forall|i: int| 0 <= i < old.len() && i != b ==> new[i] == #[trigger] old[i]
    &&& new[b as int].name == old[b as int].name
    &&& new[b as int].params@ == old[b as int].params@
    &&& new[b as int].insts@ == old[b as int].insts@.push(v)
}

/// Whether `new` is `old` with block `b` appended to the layout of function `f`.
pub open spec fn layout_pushed(old: Seq<FunctionData>, new: Seq<FunctionData>, f: usize, b: usize) -> bool {
    &&& new.len() == old.len()
    &&& forall|i: int| 0 <= i < old.len() && i != f ==> new[i] == #[trigger] old[i]
    &&& new[f as int].name == old[f as int].name
    &&& new[f as int].params@ == old[f as int].params@
    &&& new[f as int].param_tys@ == old[f as int].param_tys@
    &&& new[f as int].ret_ty == old[f as int].ret_ty
    &&& new[f as int].layout@ == old[f as int].layout@.push(b)
}

impl<'i> ProgramRecorder<'i> {
    /// Whether every number held names something of the program.
    pub open spec fn inv(&self) -> bool {
        let p = self.program;
        let nv = p.values@.len() as int;
        let nb = p.blocks@.len() as int;
        let nf = p.funcs@.len() as int;
        &&& p.wf()
        &&& forall|i: int| 0 <= i < self.values@.len() ==> (#[trigger] self.values@[i]).1 < nv
        &&& forall|i: int| 0 <= i < self.funcs@.len() ==> (#[trigger] self.funcs@[i]).1 < nf
        &&& (self.cur_func matches Some(fi) ==> fi.func < nf && fi.entry_bb < nb && fi.end_bb < nb
            && fi.cur_bb < nb && (fi.ret_val matches Some(v) ==> v < nv))
        &&& forall|i: int| 0 <= i < self.loops@.len() ==> (#[trigger] self.loops@[i]).entry < nb
            && self.loops@[i].exit < nb
    }

    /// The value that each variable lives in.
    pub open spec fn bound(&self) -> Map<Seq<char>, usize> {
        assoc_map(self.values@)
    }

    /// The number of each function.
    pub open spec fn func_ids(&self) -> Map<Seq<char>, usize> {
        assoc_map(self.funcs@)
    }

    /// The current function.
    pub open spec fn cur(&self) -> FunctionInfo {
        self.cur_func->0
    }

    /// Whether everything but the program is as in `other`.
    pub open spec fn same_ctx(&self, other: &ProgramRecorder<'i>) -> bool {
        &&& self.symbols == other.symbols
        &&& self.values@ == other.values@
        &&& self.funcs@ == other.funcs@
        &&& self.cur_func == other.cur_func
        &&& self.loops@ == other.loops@
    }

    pub fn new(symbols: &'i SymbolTable) -> (r: Self)
        ensures
            r.inv(),
            r.symbols == symbols,
            r.program.values@.len() == 0,
            r.program.blocks@.len() == 0,
            r.program.funcs@.len() == 0,
            r.program.inst_layout@.len() == 0,
            r.values@.len() == 0,
            r.funcs@.len() == 0,
            r.cur_func is None,
            r.loops@.len() == 0,
    {
        Self {
            program: Program::new(),
            symbols,
            values: Vec::new(),
            funcs: Vec::new(),
            cur_func: None,
            loops: Vec::new(),
        }
    }

    /// Records that the variable `name` lives in `val`.
    pub fn insert_value(&mut self, name: &str, val: usize)
        requires
            old(self).inv(),
            val < old(self).program.values@.len(),
        ensures
            final(self).inv(),
            final(self).program == old(self).program,
            final(self).values@.drop_last() == old(self).values@,
            final(self).values@.len() == old(self).values@.len() + 1,
            final(self).values@.last().0@ == name@,
            final(self).values@.last().1 == val,
            final(self).bound() == old(self).bound().insert(name@, val),
            final(self).symbols == old(self).symbols,
            final(self).funcs@ == old(self).funcs@,
            final(self).cur_func == old(self).cur_func,
            final(self).loops@ == old(self).loops@,
    {
        self.values.push((name.to_owned(), val));
        proof {
            assert(self.values@.drop_last() =~= old(self).values@);
        }
    }

    /// A new value of the current function or of the program, with no name.
    pub fn new_value(&mut self, ty: IrType, kind: ValueKind) -> (v: usize)
        requires
            old(self).inv(),
            kind_ok(kind, old(self).program.values@.len() as int, old(self).program.blocks@.len() as int,
                old(self).program.funcs@.len() as int),
        ensures
            final(self).inv(),
            final(self).same_ctx(old(self)),
            v == old(self).program.values@.len(),
            final(self).program.values@ == old(self).program.values@.push(ValueData { ty, name: None, kind }),
            final(self).program.blocks@ == old(self).program.blocks@,
            final(self).program.funcs@ == old(self).program.funcs@,
            final(self).program.inst_layout@ == old(self).program.inst_layout@,
    {
        self.new_named_value(ty, None, kind)
    }

    /// A new value with the given name.
    pub fn new_named_value(&mut self, ty: IrType, name: Option<String>, kind: ValueKind) -> (v: usize)
        requires
            old(self).inv(),
            kind_ok(kind, old(self).program.values@.len() as int, old(self).program.blocks@.len() as int,
                old(self).program.funcs@.len() as int),
        ensures
            final(self).inv(),
            final(self).same_ctx(old(self)),
            v == old(self).program.values@.len(),
            final(self).program.values@ == old(self).program.values@.push(ValueData { ty, name, kind }),
            final(self).program.blocks@ == old(self).program.blocks@,
            final(self).program.funcs@ == old(self).program.funcs@,
            final(self).program.inst_layout@ == old(self).program.inst_layout@,
    {
        let v = self.program.values.len();
        let ghost nv = v as int + 1;
        let ghost nb = self.program.blocks@.len() as int;
        let ghost nf = self.program.funcs@.len() as int;
        proof {
            lemma_kind_ok_grows(kind, v as int, nv, nb, nb, nf, nf);
        }
        self.program.values.push(ValueData { ty, name, kind });
        proof {
            let p = self.program;
            assert forall|i: int| 0 <= i < nv implies kind_ok(#[trigger] p.values@[i].kind, nv, nb, nf) by {
                if i < v {
                    lemma_kind_ok_grows(old(self).program.values@[i].kind, v as int, nv, nb, nb, nf, nf);
                }
            }
        }
        v
    }

    /// A new global value of the program.
    pub fn new_global_value(&mut self, ty: IrType, kind: ValueKind) -> (v: usize)
        requires
            old(self).inv(),
            kind_ok(kind, old(self).program.values@.len() as int, old(self).program.blocks@.len() as int,
                old(self).program.funcs@.len() as int),
        ensures
            final(self).inv(),
            final(self).same_ctx(old(self)),
            v == old(self).program.values@.len(),
            final(self).program.values@ == old(self).program.values@.push(ValueData { ty, name: None, kind }),
            final(self).program.blocks@ == old(self).program.blocks@,
            final(self).program.funcs@ == old(self).program.funcs@,
            final(self).program.inst_layout@ == old(self).program.inst_layout@,
    {
        self.new_named_value(ty, None, kind)
    }

    /// A new block of the current function, outside the layout, with no name.
    pub fn new_anonymous_bb(&mut self) -> (bb: usize)
        requires
            old(self).inv(),
        ensures
            final(self).inv(),
            final(self).same_ctx(old(self)),
            bb == old(self).program.blocks@.len(),
            final(self).program.values@ == old(self).program.values@,
            final(self).program.blocks@.len() == bb + 1,
            final(self).program.blocks@.subrange(0, bb as int) == old(self).program.blocks@,
            final(self).program.blocks@[bb as int].name is None,
            final(self).program.blocks@[bb as int].params@.len() == 0,
            final(self).program.blocks@[bb as int].insts@.len() == 0,
            final(self).program.funcs@ == old(self).program.funcs@,
            final(self).program.inst_layout@ == old(self).program.inst_layout@,
    {
        self.new_named_bb(None)
    }

    /// A new block with the given name, outside the layout.
    pub fn new_named_bb(&mut self, name: Option<String>) -> (bb: usize)
        requires
            old(self).inv(),
        ensures
            final(self).inv(),
            final(self).same_ctx(old(self)),
            bb == old(self).program.blocks@.len(),
            final(self).program.values@ == old(self).program.values@,
            final(self).program.blocks@.len() == bb + 1,
            final(self).program.blocks@.subrange(0, bb as int) == old(self).program.blocks@,
            final(self).program.blocks@[bb as int].name == name,
            final(self).program.blocks@[bb as int].params@.len() == 0,
            final(self).program.blocks@[bb as int].insts@.len() == 0,
            final(self).program.funcs@ == old(self).program.funcs@,
            final(self).program.inst_layout@ == old(self).program.inst_layout@,
    {
        let bb = self.program.blocks.len();
        let ghost nv = self.program.values@.len() as int;
        let ghost nb = bb as int + 1;
        let ghost nf = self.program.funcs@.len() as int;
        self.program.blocks.push(BlockData { name, params: Vec::new(), insts: Vec::new() });
        proof {
            let p = self.program;
            assert forall|i: int| 0 <= i < nv implies kind_ok(#[trigger] p.values@[i].kind, nv, nb, nf) by {
                lemma_kind_ok_grows(p.values@[i].kind, nv, nv, bb as int, nb, nf, nf);
            }
            assert(self.program.blocks@.subrange(0, bb as int) =~= old(self).program.blocks@);
        }
        bb
    }

    /// Appends `inst` to the current block.
    pub fn push_inst(&mut self, inst: usize)
        requires
            old(self).inv(),
            old(self).cur_func is Some,
            inst < old(self).program.values@.len(),
        ensures
            final(self).inv(),
            final(self).same_ctx(old(self)),
            final(self).program.values@ == old(self).program.values@,
            blocks_pushed(old(self).program.blocks@, final(self).program.blocks@, old(self).cur().cur_bb, inst),
            final(self).program.funcs@ == old(self).program.funcs@,
            final(self).program.inst_layout@ == old(self).program.inst_layout@,
    {
        let bb = match self.cur_func {
            Some(fi) => fi.cur_bb,
            None => 0,
        };
        self.push_inst_to(bb, inst);
    }

    /// Appends `inst` to block `bb`.
    pub fn push_inst_to(&mut self, bb: usize, inst: usize)
        requires
            old(self).inv(),
            bb < old(self).program.blocks@.len(),
            inst < old(self).program.values@.len(),
        ensures
            final(self).inv(),
            final(self).same_ctx(old(self)),
            final(self).program.values@ == old(self).program.values@,
            blocks_pushed(old(self).program.blocks@, final(self).program.blocks@, bb, inst),
            final(self).program.funcs@ == old(self).program.funcs@,
            final(self).program.inst_layout@ == old(self).program.inst_layout@,
    {
        let blk = &mut self.program.blocks[bb];
        blk.insts.push(inst);
        proof {
            let p = self.program;
            assert forall|b: int| 0 <= b < p.blocks@.len() implies crate::ir::all_below(
                (#[trigger] p.blocks@[b]).params@,
                p.values@.len() as int,
            ) && crate::ir::all_below(p.blocks@[b].insts@, p.values@.len() as int) by {
                if b != bb {
                    assert(p.blocks@[b] == old(self).program.blocks@[b]);
                }
            }
        }
    }

    /// Appends `bb` to the layout of the current function and makes it the current block.
    pub fn push_bb(&mut self, bb: usize)
        requires
            old(self).inv(),
            old(self).cur_func is Some,
            bb < old(self).program.blocks@.len(),
        ensures
            final(self).inv(),
            final(self).symbols == old(self).symbols,
            final(self).values@ == old(self).values@,
            final(self).funcs@ == old(self).funcs@,
            final(self).loops@ == old(self).loops@,
            final(self).cur_func == Some(FunctionInfo { cur_bb: bb, ..old(self).cur() }),
            final(self).program.values@ == old(self).program.values@,
            final(self).program.blocks@ == old(self).program.blocks@,
            layout_pushed(old(self).program.funcs@, final(self).program.funcs@, old(self).cur().func, bb),
            final(self).program.inst_layout@ == old(self).program.inst_layout@,
    {
        if let Some(fi) = self.cur_func {
            let f = &mut self.program.funcs[fi.func];
            f.layout.push(bb);
            self.cur_func = Some(FunctionInfo { cur_bb: bb, ..fi });
            proof {
                let p = self.program;
                assert forall|g: int| 0 <= g < p.funcs@.len() implies crate::ir::all_below(
                    (#[trigger] p.funcs@[g]).params@,
                    p.values@.len() as int,
                ) && crate::ir::all_below(p.funcs@[g].layout@, p.blocks@.len() as int) by {
                    if g != fi.func {
                        assert(p.funcs@[g] == old(self).program.funcs@[g]);
                    }
                }
            }
        }
    }

    /// Appends a global allocation to the layout of the program.
    pub fn push_global(&mut self, alloc: usize)
        requires
            old(self).inv(),
            alloc < old(self).program.values@.len(),
        ensures
            final(self).inv(),
            final(self).same_ctx(old(self)),
            final(self).program.values@ == old(self).program.values@,
            final(self).program.blocks@ == old(self).program.blocks@,
            final(self).program.funcs@ == old(self).program.funcs@,
            final(self).program.inst_layout@ == old(self).program.inst_layout@.push(alloc),
    {
        self.program.inst_layout.push(alloc);
    }

    /// Whether no function is being generated.
    pub fn is_global(&self) -> (r: bool)
        ensures
            r == (self.cur_func is None),
    {
        self.cur_func.is_none()
    }

    pub fn cur_func_id(&self) -> (r: usize)
        requires
            self.cur_func is Some,
        ensures
            r == self.cur().func,
    {
        match self.cur_func {
            Some(fi) => fi.func,
            None => 0,
        }
    }

    /// The current function.
    pub fn func(&self) -> (r: FunctionInfo)
        requires
            self.cur_func is Some,
        ensures
            r == self.cur(),
    {
        match self.cur_func {
            Some(fi) => fi,
            None => FunctionInfo { func: 0, entry_bb: 0, end_bb: 0, cur_bb: 0, ret_val: None },
        }
    }

    /// Records where the return value of the current function is kept.
    pub fn set_ret_val(&mut self, ret_val: usize)
        requires
            old(self).inv(),
            old(self).cur_func is Some,
            ret_val < old(self).program.values@.len(),
        ensures
            final(self).inv(),
            final(self).program == old(self).program,
            final(self).symbols == old(self).symbols,
            final(self).values@ == old(self).values@,
            final(self).funcs@ == old(self).funcs@,
            final(self).loops@ == old(self).loops@,
            final(self).cur_func == Some(FunctionInfo { ret_val: Some(ret_val), ..old(self).cur() }),
    {
        if let Some(fi) = self.cur_func {
            self.cur_func = Some(FunctionInfo { ret_val: Some(ret_val), ..fi });
        }
    }

    /// The number of the function `name`, which has been generated or declared.
    pub fn get_func_id(&self, name: &str) -> (r: usize)
        requires
            self.func_ids().contains_key(name@),
        ensures
            r == self.func_ids()[name@],
    {
        proof {
            lemma_assoc_last(self.funcs@, name@);
        }
        match assoc_find(&self.funcs, name) {
            Some(i) => self.funcs[i].1,
            None => 0,
        }
    }

    /// The value that the variable `name` lives in.
    pub fn get_value(&self, name: &str) -> (r: usize)
        requires
            self.bound().contains_key(name@),
        ensures
            r == self.bound()[name@],
    {
        proof {
            lemma_assoc_last(self.values@, name@);
        }
        match assoc_find(&self.values, name) {
            Some(i) => self.values[i].1,
            None => 0,
        }
    }

    /// The type of `name`.
    pub fn get_ty(&self, name: &str) -> (r: &Type)
        requires
            self.symbols@.contains_key(name@),
        ensures
            *r == self.symbols@[name@],
    {
        self.symbols.get(name)
    }

    /// The data of a value.
    pub fn get_value_data(&self, val: usize) -> (r: &ValueData)
        requires
            val < self.program.values@.len(),
        ensures
            *r == self.program.values@[val as int],
    {
        &self.program.values[val]
    }

    /// The data of the current function.
    pub fn get_func_data(&self) -> (r: &FunctionData)
        requires
            self.inv(),
            self.cur_func is Some,
        ensures
            *r == self.program.funcs@[self.cur().func as int],
    {
        &self.program.funcs[self.cur_func_id()]
    }

    pub fn enter_loop(&mut self, entry: usize, exit: usize)
        requires
            old(self).inv(),
            entry < old(self).program.blocks@.len(),
            exit < old(self).program.blocks@.len(),
        ensures
            final(self).inv(),
            final(self).program == old(self).program,
            final(self).symbols == old(self).symbols,
            final(self).values@ == old(self).values@,
            final(self).funcs@ == old(self).funcs@,
            final(self).cur_func == old(self).cur_func,
            final(self).loops@ == old(self).loops@.push(LoopInfo { entry, exit }),
    {
        self.loops.push(LoopInfo { entry, exit });
    }

    pub fn exit_loop(&mut self)
        requires
            old(self).inv(),
        ensures
            final(self).inv(),
            final(self).program == old(self).program,
            final(self).symbols == old(self).symbols,
            final(self).values@ == old(self).values@,
            final(self).funcs@ == old(self).funcs@,
            final(self).cur_func == old(self).cur_func,
            final(self).loops@ == old(self).loops@.subrange(
                0,
                if old(self).loops@.len() == 0 { 0 } else { old(self).loops@.len() - 1 },
            ),
    {
        self.loops.pop();
    }

    pub fn inside_loop(&self) -> (r: bool)
        ensures
            r == (self.loops@.len() > 0),
    {
        self.loops.len() > 0
    }

    /// The block that `continue` jumps to in the innermost loop.
    pub fn loop_entry(&self) -> (r: usize)
        requires
            self.loops@.len() > 0,
        ensures
            r == self.loops@.last().entry,
    {
        self.loops[self.loops.len() - 1].entry
    }

    /// The block that `break` jumps to in the innermost loop.
    pub fn loop_exit(&self) -> (r: usize)
        requires
            self.loops@.len() > 0,
        ensures
            r == self.loops@.last().exit,
    {
        self.loops[self.loops.len() - 1].exit
    }

    /// Starts the function `func_def`: a function of the program with the
    /// types that the symbol table gives, a value for each parameter, and an
    /// entry block and an end block that are not laid out yet.
    pub fn enter_func(&mut self, func_def: &FuncDef)
        requires
            old(self).inv(),
            func_sig_ok(old(self).symbols@, func_def.ident@),
        ensures
            final(self).inv(),
            entered_func(*old(self), *final(self), func_def.ident@),
    {
        let symbols = self.symbols;
        let ty = symbols.get(func_def.ident.as_str());
        let ghost nv = self.program.values@.len();
        let ghost nb = self.program.blocks@.len();
        let nf = self.program.funcs.len();
        match ty.kind() {
            TypeKind::Func(ret_ty, param_tys) => {
                let mut param_ir_tys: Vec<IrType> = Vec::new();
                let mut params: Vec<usize> = Vec::new();
                let mut i: usize = 0;
                while i < param_tys.len()
                    invariant
                        self.inv(),
                        i <= param_tys@.len(),
                        forall|j: int| 0 <= j < param_tys@.len() ==> func_free(#[trigger] param_tys@[j]),
                        self.same_ctx(old(self)),
                        self.program.values@.len() == nv + i,
                        self.program.values@.subrange(0, nv as int) == old(self).program.values@,
                        forall|j: int| 0 <= j < i ==> #[trigger] self.program.values@[nv + j] == (ValueData {
                            ty: ir_ty_of(param_tys@[j]),
                            name: None,
                            kind: ValueKind::FuncArgRef(j as usize),
                        }),
                        self.program.blocks@ == old(self).program.blocks@,
                        self.program.funcs@ == old(self).program.funcs@,
                        self.program.inst_layout@ == old(self).program.inst_layout@,
                        param_ir_tys@.len() == i,
                        params@.len() == i,
                        forall|j: int| 0 <= j < i ==> #[trigger] param_ir_tys@[j] == ir_ty_of(param_tys@[j]),
                        forall|j: int| 0 <= j < i ==> #[trigger] params@[j] == nv + j,
                    decreases param_tys@.len() - i,
                {
                    let t = param_tys[i].get_ir_ty();
                    let v = self.new_value(t.clone_ty(), ValueKind::FuncArgRef(i));
                    param_ir_tys.push(t);
                    params.push(v);
                    proof {
                        assert(self.program.values@.subrange(0, nv as int) =~= old(self).program.values@);
                    }
                    i = i + 1;
                }
                let mut name = String::from_str("@");
                name.append(func_def.ident.as_str());
                let ghost nv2 = self.program.values@.len() as int;
                let ghost nb2 = self.program.blocks@.len() as int;
                self.program.funcs.push(
                    FunctionData { name, param_tys: param_ir_tys, ret_ty: ret_ty.get_ir_ty(), params, layout: Vec::new() },
                );
                proof {
                    let p = self.program;
                    assert(p.funcs@.subrange(0, nf as int) =~= old(self).program.funcs@);
                    assert forall|k: int| 0 <= k < nv2 implies kind_ok(#[trigger] p.values@[k].kind, nv2, nb2, nf + 1) by {
                        lemma_kind_ok_grows(p.values@[k].kind, nv2, nv2, nb2, nb2, nf as int, nf + 1);
                    }
                    assert forall|g: int| 0 <= g < p.funcs@.len() implies crate::ir::all_below(
                        (#[trigger] p.funcs@[g]).params@,
                        nv2,
                    ) && crate::ir::all_below(p.funcs@[g].layout@, nb2) by {
                        if g < nf {
                            assert(p.funcs@[g] == old(self).program.funcs@[g]);
                        }
                    }
                }
                let entry_bb = self.new_named_bb(Some(String::from_str("%entry")));
                let end_bb = self.new_named_bb(Some(String::from_str("%end")));
                self.cur_func = Some(FunctionInfo { func: nf, entry_bb, end_bb, cur_bb: entry_bb, ret_val: None });
                self.funcs.push((func_def.ident.clone(), nf));
                proof {
                    assert(self.funcs@.drop_last() =~= old(self).funcs@);
                    assert(self.program.blocks@.subrange(0, nb as int) =~= old(self).program.blocks@);
                }
            },
            _ => {
                proof { assert(false); }
            },
        }
    }

    /// Declares a function of the runtime library.
    fn declare_func(&mut self, name: &str, params_ty: Vec<IrType>, ret_ty: IrType)
        requires
            old(self).inv(),
        ensures
            final(self).inv(),
            final(self).program.values@ == old(self).program.values@,
            final(self).program.blocks@ == old(self).program.blocks@,
            final(self).program.funcs@.len() == old(self).program.funcs@.len() + 1,
            final(self).program.funcs@.subrange(0, old(self).program.funcs@.len() as int)
                == old(self).program.funcs@,
            final(self).program.funcs@.last().name@ == "@"@ + name@,
            final(self).program.funcs@.last().param_tys@ == params_ty@,
            final(self).program.funcs@.last().ret_ty == ret_ty,
            final(self).program.funcs@.last().params@.len() == 0,
            final(self).program.funcs@.last().layout@.len() == 0,
            final(self).program.inst_layout@ == old(self).program.inst_layout@,
            final(self).symbols == old(self).symbols,
            final(self).values@ == old(self).values@,
            final(self).func_ids() == old(self).func_ids().insert(name@, old(self).program.funcs@.len() as usize),
            final(self).cur_func == old(self).cur_func,
            final(self).loops@ == old(self).loops@,
    {
        let nf = self.program.funcs.len();
        let mut fname = String::from_str("@");
        fname.append(name);
        let ghost nv = self.program.values@.len() as int;
        let ghost nb = self.program.blocks@.len() as int;
        self.program.funcs.push(FunctionData { name: fname, param_tys: params_ty, ret_ty, params: Vec::new(), layout: Vec::new() });
        self.funcs.push((name.to_owned(), nf));
        proof {
            let p = self.program;
            assert forall|k: int| 0 <= k < nv implies kind_ok(#[trigger] p.values@[k].kind, nv, nb, nf + 1) by {
                lemma_kind_ok_grows(p.values@[k].kind, nv, nv, nb, nb, nf as int, nf + 1);
            }
            assert forall|g: int| 0 <= g < p.funcs@.len() implies crate::ir::all_below(
                (#[trigger] p.funcs@[g]).params@,
                nv,
            ) && crate::ir::all_below(p.funcs@[g].layout@, nb) by {
                if g < nf {
                    assert(p.funcs@[g] == old(self).program.funcs@[g]);
                }
            }
            assert(self.funcs@.drop_last() =~= old(self).funcs@);
            assert(self.program.funcs@.subrange(0, nf as int) =~= old(self).program.funcs@);
        }
    }

    /// Declares the functions of the runtime library.
    pub fn install_lib(&mut self)
        requires
            old(self).inv(),
        ensures
            final(self).inv(),
            final(self).program.values@ == old(self).program.values@,
            final(self).program.blocks@ == old(self).program.blocks@,
            final(self).program.funcs@.len() == old(self).program.funcs@.len() + 8,
            forall|g: int| 0 <= g < old(self).program.funcs@.len() ==> #[trigger] final(self).program.funcs@[g]
                == old(self).program.funcs@[g],
            forall|g: int|
                old(self).program.funcs@.len() <= g < final(self).program.funcs@.len() ==> (
                #[trigger] final(self).program.funcs@[g]).layout@.len() == 0,
            final(self).program.inst_layout@ == old(self).program.inst_layout@,
            final(self).symbols == old(self).symbols,
            final(self).values@ == old(self).values@,
            final(self).func_ids().dom() == old(self).func_ids().dom() + Set::new(
                |k: Seq<char>| crate::sema::name::is_lib_name(k),
            ),
            final(self).cur_func == old(self).cur_func,
            final(self).loops@ == old(self).loops@,
    {
        let ghost o = *self;
        let i32_ty = IrType::Int32;
        self.declare_func("getint", Vec::new(), i32_ty.clone_ty());
        self.declare_func("getch", Vec::new(), i32_ty.clone_ty());
        self.declare_func("getarray", vec![IrType::Pointer(Box::new(IrType::Int32))], i32_ty.clone_ty());
        self.declare_func("putint", vec![IrType::Int32], IrType::Unit);
        self.declare_func("putch", vec![IrType::Int32], IrType::Unit);
        self.declare_func("putarray", vec![IrType::Int32, IrType::Pointer(Box::new(IrType::Int32))], IrType::Unit);
        self.declare_func("starttime", Vec::new(), IrType::Unit);
        self.declare_func("stoptime", Vec::new(), IrType::Unit);
        proof {
            reveal_strlit("getint");
            reveal_strlit("getch");
            reveal_strlit("getarray");
            reveal_strlit("putint");
            reveal_strlit("putch");
            reveal_strlit("putarray");
            reveal_strlit("starttime");
            reveal_strlit("stoptime");
            assert(self.func_ids().dom() =~= o.func_ids().dom() + Set::new(
                |k: Seq<char>| crate::sema::name::is_lib_name(k),
            ));
        }
    }

    /// Names the value `val`.
    pub fn set_value_name(&mut self, name: String, val: usize)
        requires
            old(self).inv(),
            val < old(self).program.values@.len(),
        ensures
            final(self).inv(),
            final(self).same_ctx(old(self)),
            final(self).program.values@ == old(self).program.values@.update(
                val as int,
                ValueData { name: Some(name), ..old(self).program.values@[val as int] },
            ),
            final(self).program.blocks@ == old(self).program.blocks@,
            final(self).program.funcs@ == old(self).program.funcs@,
            final(self).program.inst_layout@ == old(self).program.inst_layout@,
    {
        let data = &mut self.program.values[val];
        data.name = Some(name);
        proof {
            let p = self.program;
            let nv = p.values@.len() as int;
            assert forall|i: int| 0 <= i < nv implies kind_ok(
                #[trigger] p.values@[i].kind,
                nv,
                p.blocks@.len() as int,
                p.funcs@.len() as int,
            ) by {
                if i != val {
                    assert(p.values@[i] == old(self).program.values@[i]);
                }
            }
            assert(self.program.values@ =~= old(self).program.values@.update(
                val as int,
                ValueData { name: Some(name), ..old(self).program.values@[val as int] },
            ));
        }
    }

    pub fn exit_func(&mut self)
        requires
            old(self).inv(),
        ensures
            final(self).inv(),
            final(self).program == old(self).program,
            final(self).symbols == old(self).symbols,
            final(self).values@ == old(self).values@,
            final(self).funcs@ == old(self).funcs@,
            final(self).cur_func is None,
            final(self).loops@ == old(self).loops@,
    {
        self.cur_func = None;
    }
}

/// Whether `name` has a function type whose parameter and return types hold no function type.
pub open spec fn func_sig_ok(types: Map<Seq<char>, Type>, name: Seq<char>) -> bool {
    &&& types.contains_key(name)
    &&& types[name].spec_kind() matches TypeKind::Func(ret, ps) && func_free(ret) && forall|j: int|
        0 <= j < ps@.len() ==> func_free(#[trigger] ps@[j])
}

/// Whether `new` is `old` after `enter_func` on the function `name`.
pub open spec fn entered_func(old: ProgramRecorder, new: ProgramRecorder, name: Seq<char>) -> bool {
    let (ret, ps) = match old.symbols@[name].spec_kind() {
        TypeKind::Func(ret, ps) => (ret, ps@),
        _ => (old.symbols@[name], Seq::empty()),
    };
    let nv = old.program.values@.len();
    let nb = old.program.blocks@.len();
    let nf = old.program.funcs@.len();
    let f = new.program.funcs@[nf as int];
    &&& nf <= usize::MAX
    &&& nb + 1 <= usize::MAX
    &&& new.symbols == old.symbols
    &&& new.values@ == old.values@
    &&& new.loops@ == old.loops@
    &&& new.func_ids() == old.func_ids().insert(name, nf as usize)
    &&& new.cur_func == Some(
        FunctionInfo { func: nf as usize, entry_bb: nb as usize, end_bb: (nb + 1) as usize, cur_bb: nb as usize, ret_val: None },
    )
    &&& new.program.values@.len() == nv + ps.len()
    &&& new.program.values@.subrange(0, nv as int) == old.program.values@
    &&& forall|j: int| 0 <= j < ps.len() ==> #[trigger] new.program.values@[nv + j] == (ValueData {
        ty: ir_ty_of(ps[j]),
        name: None,
        kind: ValueKind::FuncArgRef(j as usize),
    })
    &&& new.program.blocks@.len() == nb + 2
    &&& new.program.blocks@.subrange(0, nb as int) == old.program.blocks@
    &&& new.program.blocks@[nb as int].name matches Some(s) && s@ == "%entry"@
    &&& new.program.blocks@[nb as int + 1].name matches Some(s) && s@ == "%end"@
    &&& new.program.blocks@[nb as int].params@.len() == 0
    &&& new.program.blocks@[nb as int].insts@.len() == 0
    &&& new.program.blocks@[nb as int + 1].params@.len() == 0
    &&& new.program.blocks@[nb as int + 1].insts@.len() == 0
    &&& new.program.funcs@.len() == nf + 1
    &&& new.program.funcs@.subrange(0, nf as int) == old.program.funcs@
    &&& f.name@ == "@"@ + name
    &&& f.ret_ty == ir_ty_of(ret)
    &&& f.param_tys@.len() == ps.len()
    &&& forall|j: int| 0 <= j < ps.len() ==> #[trigger] f.param_tys@[j] == ir_ty_of(ps[j])
    &&& f.params@.len() == ps.len()
    &&& forall|j: int| 0 <= j < ps.len() ==> #[trigger] f.params@[j] == nv + j
    &&& f.layout@.len() == 0
    &&& new.program.inst_layout@ == old.program.inst_layout@
}

/// Growing the numbers of values, blocks and functions keeps operands valid.
pub proof fn lemma_kind_ok_grows(k: ValueKind, nv: int, nv2: int, nb: int, nb2: int, nf: int, nf2: int)
    requires
        kind_ok(k, nv, nb, nf),
        nv <= nv2,
        nb <= nb2,
        nf <= nf2,
    ensures
        kind_ok(k, nv2, nb2, nf2),
{
}

} // verus!
