use vstd::prelude::*;

use crate::ast::exp::{BinaryExpr, Call, Expr, InitVal, LVal, UnaryExpr};
use crate::ast::visit::MutVisitor;
use crate::ast::{
    Assign, Block, BlockItem, Branch, Break, CompUnit, ConstDecl, Continue, Decl, ExprKind, FuncDef, FuncParam,
    GlobalItem, Return, Stmt, VarDecl, While,
};
use crate::sema::name::is_lib_name;
use crate::codegen::context::str_eq;
use crate::sema::ty::{dims_of, Type, TypeKind};

verus! {

/// The type of each name of the program. Names are unique once renamed, so
/// one table serves every scope.
#[derive(Debug)]
pub struct SymbolTable {
    data: Vec<(String, Type)>,
    /// the first fault met by the pass that records the types, if any
    pub error: Option<String>,
}

/// The types of a list of entries: a later entry for a name replaces an earlier one.
pub open spec fn type_map(s: Seq<(String, Type)>) -> Map<Seq<char>, Type>
    decreases s.len(),
{
    if s.len() == 0 {
        Map::empty()
    } else {
        type_map(s.drop_last()).insert(s.last().0@, s.last().1)
    }
}

/// The position of the last entry for `k`, or -1.
pub open spec fn last_index(s: Seq<(String, Type)>, k: Seq<char>) -> int
    decreases s.len(),
{
    if s.len() == 0 {
        -1
    } else if s.last().0@ == k {
        s.len() - 1
    } else {
        last_index(s.drop_last(), k)
    }
}

proof fn lemma_last_index(s: Seq<(String, Type)>, k: Seq<char>)
    ensures
        -1 <= last_index(s, k) < s.len(),
        type_map(s).contains_key(k) <==> last_index(s, k) >= 0,
        last_index(s, k) >= 0 ==> s[last_index(s, k)].0@ == k && type_map(s)[k] == s[last_index(s, k)].1,
    decreases s.len(),
{
    if s.len() > 0 {
        lemma_last_index(s.drop_last(), k);
    }
}

impl View for SymbolTable {
    type V = Map<Seq<char>, Type>;

    closed spec fn view(&self) -> Map<Seq<char>, Type> {
        type_map(self.data@)
    }
}

impl SymbolTable {
    pub fn new() -> (r: Self)
        ensures
            r@ == Map::<Seq<char>, Type>::empty(),
            r.fault() is None,
    {
        Self { data: Vec::new(), error: None }
    }

    /// Records the type of `name`.
    pub fn insert(&mut self, name: &str, ty: Type)
        ensures
            final(self)@ == old(self)@.insert(name@, ty),
            final(self).fault() == old(self).fault(),
    {
        self.data.push((name.to_owned(), ty));
        proof {
            assert(self.data@.drop_last() =~= old(self).data@);
        }
    }

    fn find(&self, name: &str) -> (r: Option<usize>)
        ensures
            match r {
                Some(i) => i == last_index(self.data@, name@) && i < self.data@.len(),
                None => last_index(self.data@, name@) == -1,
            },
    {
        let mut i = self.data.len();
        proof {
            assert(self.data@.subrange(0, i as int) =~= self.data@);
        }
        while i > 0
            invariant
                i <= self.data@.len(),
                last_index(self.data@, name@) == last_index(self.data@.subrange(0, i as int), name@),
            decreases i,
        {
            let ghost s = self.data@.subrange(0, i as int);
            assert(s.last() == self.data@[i - 1]);
            assert(s.drop_last() =~= self.data@.subrange(0, i - 1));
            if str_eq(self.data[i - 1].0.as_str(), name) {
                return Some(i - 1);
            }
            i = i - 1;
        }
        None
    }

    /// The type of `name`, which has been declared.
    pub fn get(&self, name: &str) -> (r: &Type)
        requires
            self@.contains_key(name@),
        ensures
            *r == self@[name@],
    {
        proof {
            lemma_last_index(self.data@, name@);
        }
        match self.find(name) {
            Some(i) => &self.data[i].1,
            None => {
                proof { assert(false); }
                &self.data[0].1
            },
        }
    }

    /// Whether `name` has been declared.
    pub fn contains(&self, name: &str) -> (r: bool)
        ensures
            r == self@.contains_key(name@),
    {
        proof {
            lemma_last_index(self.data@, name@);
        }
        self.find(name).is_some()
    }
}

/// Whether every dimension of a declared name is an integer literal.
pub open spec fn dims_are_literals(l: LVal) -> bool {
    forall|i: int| 0 <= i < l.dims@.len() ==> (#[trigger] l.dims@[i]) is Integer
}

/// The dimensions of a declared name, as `usize` values.
pub open spec fn literal_dims(l: LVal) -> Seq<usize> {
    l.dims@.map_values(|d: Expr| d->Integer_0 as usize)
}

/// The dimensions of a declared name whose dimension expressions have been folded.
fn dims_of_lval(l: &LVal) -> (r: Vec<usize>)
    requires
        dims_are_literals(*l),
    ensures
        r@ == literal_dims(*l),
{
    let mut dims: Vec<usize> = Vec::new();
    let mut i: usize = 0;
    while i < l.dims.len()
        invariant
            i <= l.dims@.len(),
            dims_are_literals(*l),
            dims@ == literal_dims(*l).subrange(0, i as int),
        decreases l.dims@.len() - i,
    {
        let d = l.dims[i].get_i32() as usize;
        dims.push(d);
        proof {
            assert(dims@ =~= literal_dims(*l).subrange(0, i + 1));
        }
        i = i + 1;
    }
    assert(literal_dims(*l).subrange(0, i as int) =~= literal_dims(*l));
    dims
}

impl Type {
    /// The type of a declared constant.
    pub fn from_const_decl(value: &ConstDecl) -> (r: Self)
        requires
            dims_are_literals(value.lval),
        ensures
            dims_of(r) == Some(literal_dims(value.lval)),
    {
        let dims = dims_of_lval(&value.lval);
        Self::infer_from_dims(dims.as_slice())
    }

    /// The type of a declared variable.
    pub fn from_var_decl(value: &VarDecl) -> (r: Self)
        requires
            dims_are_literals(value.lval),
        ensures
            dims_of(r) == Some(literal_dims(value.lval)),
    {
        let dims = dims_of_lval(&value.lval);
        Type::infer_from_dims(dims.as_slice())
    }
}


/// Whether every expression of `dims` is an integer literal.
fn literal_dims_of(dims: &Vec<Expr>) -> (r: Option<Vec<usize>>)
    ensures
        r is Some <==> forall|i: int| 0 <= i < dims@.len() ==> (#[trigger] dims@[i]) is Integer,
        r is Some ==> r->0@ == dims@.map_values(|d: Expr| d->Integer_0 as usize),
{
    let mut out: Vec<usize> = Vec::new();
    let mut i: usize = 0;
    while i < dims.len()
        invariant
            i <= dims@.len(),
            forall|j: int| 0 <= j < i ==> (#[trigger] dims@[j]) is Integer,
            out@ == dims@.subrange(0, i as int).map_values(|d: Expr| d->Integer_0 as usize),
        decreases dims@.len() - i,
    {
        match &dims[i] {
            Expr::Integer(v) => {
                out.push(*v as usize);
                proof {
                    assert(out@ =~= dims@.subrange(0, i + 1).map_values(|d: Expr| d->Integer_0 as usize));
                }
            },
            _ => {
                return None;
            },
        }
        i = i + 1;
    }
    assert(dims@.subrange(0, i as int) =~= dims@);
    Some(out)
}

/// Whether every dimension of a declared name is an integer literal.
fn lval_dims_are_literals(l: &LVal) -> (r: bool)
    ensures
        r == dims_are_literals(*l),
{
    literal_dims_of(&l.dims).is_some()
}

impl SymbolTable {
    /// The first fault met by the pass that records the types, if any.
    pub closed spec fn fault(&self) -> Option<String> {
        self.error
    }

    /// Records `msg` as the fault of the pass, unless one came first.
    fn fail(&mut self, msg: &str)
        ensures
            final(self)@ == old(self)@,
            old(self).fault() is Some ==> final(self).fault() == old(self).fault(),
            old(self).fault() is None ==> final(self).fault() is Some && final(self).fault()->0@ == msg@,
    {
        if self.error.is_none() {
            self.error = Some(msg.to_owned());
        }
    }

    /// Records the types of the functions of the runtime library.
    pub fn install_lib(&mut self)
        ensures
            forall|k: Seq<char>| is_lib_name(k) ==> #[trigger] final(self)@.contains_key(k),
            keeps(*old(self), *final(self)),
    {
        self.insert("getint", Type::get_func(Type::get_int(), Vec::new()));
        self.insert("getch", Type::get_func(Type::get_int(), Vec::new()));
        self.insert("getarray", Type::get_func(Type::get_int(), vec![Type::get_pointer(Type::get_int())]));
        self.insert("putint", Type::get_func(Type::get_void(), vec![Type::get_int()]));
        self.insert("putch", Type::get_func(Type::get_void(), vec![Type::get_int()]));
        self.insert(
            "putarray",
            Type::get_func(Type::get_void(), vec![Type::get_int(), Type::get_pointer(Type::get_int())]),
        );
        self.insert("starttime", Type::get_func(Type::get_void(), Vec::new()));
        self.insert("stoptime", Type::get_func(Type::get_void(), Vec::new()));
    }
}

/// Whether the state `new` of the pass keeps what `old` held: every name
/// recorded stays recorded, and a fault once met stays the fault.
pub open spec fn keeps(old: SymbolTable, new: SymbolTable) -> bool {
    &&& old@.dom().subset_of(new@.dom())
    &&& old.fault() is Some ==> new.fault() == old.fault()
}

/// Whether every expression of `dims` is an integer literal.
pub open spec fn all_literals(dims: Seq<Expr>) -> bool {
    forall|i: int| 0 <= i < dims.len() ==> (#[trigger] dims[i]) is Integer
}

/// Whether `new` keeps which expressions of `old` are integer literals,
/// and the value of each.
pub open spec fn literals_kept(old: Seq<Expr>, new: Seq<Expr>) -> bool {
    &&& old.len() == new.len()
    &&& forall|j: int| 0 <= j < old.len() ==> {
        &&& (old[j] is Integer ==> #[trigger] new[j] == old[j])
        &&& (new[j] is Integer ==> old[j] is Integer)
    }
}

proof fn lemma_literals_kept(a: Seq<Expr>, b: Seq<Expr>)
    requires
        literals_kept(a, b),
    ensures
        all_literals(a) == all_literals(b),
        all_literals(a) ==> a == b,
{
    if all_literals(a) {
        assert(a =~= b);
    }
    if all_literals(b) {
        assert forall|j: int| 0 <= j < a.len() implies (#[trigger] a[j]) is Integer by {
            assert(b[j] is Integer);
        }
    }
}

/// Whether `after` records each name that `d` declares with a type (every
/// variable, and every array constant), or holds a fault.
pub open spec fn decl_recorded(d: Decl, after: SymbolTable) -> bool {
    match d {
        Decl::VarDecl(v) => forall|j: int|
            0 <= j < v@.len() ==> after@.contains_key((#[trigger] v@[j]).lval.ident@) || after.fault() is Some,
        Decl::ConstDecl(v) => forall|j: int|
            0 <= j < v@.len() && (#[trigger] v@[j]).kind == ExprKind::Array ==> after@.contains_key(v@[j].lval.ident@)
                || after.fault() is Some,
    }
}

/// Whether `after` records each name declared directly in the blocks that
/// the statement `s` holds, following branches and loop bodies.
pub open spec fn stmt_recorded(s: Stmt, after: SymbolTable) -> bool
    decreases s,
{
    match s {
        Stmt::Block(b) => forall|j: int|
            0 <= j < b.items@.len() && (#[trigger] b.items@[j]) is Decl ==> decl_recorded(b.items@[j]->Decl_0, after),
        Stmt::Branch(b) => stmt_recorded(*b.if_stmt, after) && match b.el_stmt {
            Some(e) => stmt_recorded(*e, after),
            None => true,
        },
        Stmt::While(w) => stmt_recorded(*w.stmt, after),
        _ => true,
    }
}

proof fn lemma_decl_recorded_later(d: Decl, a: SymbolTable, b: SymbolTable)
    requires
        decl_recorded(d, a),
        keeps(a, b),
    ensures
        decl_recorded(d, b),
{
    match d {
        Decl::VarDecl(v) => {
            assert forall|j: int| 0 <= j < v@.len() implies b@.contains_key((#[trigger] v@[j]).lval.ident@)
                || b.fault() is Some by {
                if a@.contains_key(v@[j].lval.ident@) {
                    assert(a@.dom().contains(v@[j].lval.ident@));
                }
            }
        },
        Decl::ConstDecl(v) => {
            assert forall|j: int| 0 <= j < v@.len() && (#[trigger] v@[j]).kind == ExprKind::Array implies b@.contains_key(
                v@[j].lval.ident@,
            ) || b.fault() is Some by {
                if a@.contains_key(v@[j].lval.ident@) {
                    assert(a@.dom().contains(v@[j].lval.ident@));
                }
            }
        },
    }
}

proof fn lemma_stmt_recorded_later(st: Stmt, a: SymbolTable, b: SymbolTable)
    requires
        stmt_recorded(st, a),
        keeps(a, b),
    ensures
        stmt_recorded(st, b),
    decreases st,
{
    match st {
        Stmt::Block(blk) => {
            assert forall|j: int| 0 <= j < blk.items@.len() && (#[trigger] blk.items@[j]) is Decl implies decl_recorded(
                blk.items@[j]->Decl_0,
                b,
            ) by {
                lemma_decl_recorded_later(blk.items@[j]->Decl_0, a, b);
            }
        },
        Stmt::Branch(br) => {
            lemma_stmt_recorded_later(*br.if_stmt, a, b);
            if let Some(e) = br.el_stmt {
                lemma_stmt_recorded_later(*e, a, b);
            }
        },
        Stmt::While(w) => {
            lemma_stmt_recorded_later(*w.stmt, a, b);
        },
        _ => {},
    }
}

/// Whether `new` is `old` with the type of `name` recorded.
pub open spec fn records(old: SymbolTable, new: SymbolTable, name: Seq<char>) -> bool {
    &&& new@ == old@.insert(name, new@[name])
    &&& new.fault() == old.fault()
}

/// Records the type of every declared name: functions, parameters, arrays
/// and variables. A missing `main`, and a dimension that is not a constant,
/// are recorded as the fault. The syntax tree is left as it is.
impl MutVisitor for SymbolTable {
    open spec fn inv(&self) -> bool {
        true
    }

    open spec fn comp_unit_visited(&self, n: CompUnit, after: Self, n2: CompUnit) -> bool {
        &&& keeps(*self, after)
        &&& forall|k: Seq<char>| is_lib_name(k) ==> #[trigger] after@.contains_key(k)
        &&& !after@.contains_key("main"@) ==> after.fault() is Some
    }

    open spec fn global_item_visited(&self, n: GlobalItem, after: Self, n2: GlobalItem) -> bool {
        keeps(*self, after)
    }

    open spec fn decl_visited(&self, n: Decl, after: Self, n2: Decl) -> bool {
        keeps(*self, after)
    }

    open spec fn var_decl_visited(&self, n: VarDecl, after: Self, n2: VarDecl) -> bool {
        keeps(*self, after)
    }

    open spec fn const_decl_visited(&self, n: ConstDecl, after: Self, n2: ConstDecl) -> bool {
        keeps(*self, after)
    }

    open spec fn func_def_visited(&self, n: FuncDef, after: Self, n2: FuncDef) -> bool {
        keeps(*self, after)
    }

    open spec fn func_param_visited(&self, n: FuncParam, after: Self, n2: FuncParam) -> bool {
        keeps(*self, after)
    }

    open spec fn block_visited(&self, n: Block, after: Self, n2: Block) -> bool {
        keeps(*self, after)
    }

    open spec fn block_item_visited(&self, n: BlockItem, after: Self, n2: BlockItem) -> bool {
        keeps(*self, after)
    }

    open spec fn stmt_visited(&self, n: Stmt, after: Self, n2: Stmt) -> bool {
        keeps(*self, after)
    }

    open spec fn assign_visited(&self, n: Assign, after: Self, n2: Assign) -> bool {
        after == *self
    }

    open spec fn branch_visited(&self, n: Branch, after: Self, n2: Branch) -> bool {
        keeps(*self, after)
    }

    open spec fn break_visited(&self, n: Break, after: Self, n2: Break) -> bool {
        after == *self
    }

    open spec fn continue_visited(&self, n: Continue, after: Self, n2: Continue) -> bool {
        after == *self
    }

    open spec fn while_visited(&self, n: While, after: Self, n2: While) -> bool {
        keeps(*self, after)
    }

    open spec fn return_visited(&self, n: Return, after: Self, n2: Return) -> bool {
        after == *self
    }

    open spec fn expr_visited(&self, n: Expr, after: Self, n2: Expr) -> bool {
        after == *self
    }

    open spec fn binary_expr_visited(&self, n: BinaryExpr, after: Self, n2: BinaryExpr) -> bool {
        after == *self
    }

    open spec fn unary_expr_visited(&self, n: UnaryExpr, after: Self, n2: UnaryExpr) -> bool {
        after == *self
    }

    open spec fn call_visited(&self, n: Call, after: Self, n2: Call) -> bool {
        after == *self
    }

    open spec fn lval_visited(&self, n: LVal, after: Self, n2: LVal) -> bool {
        after == *self
    }

    open spec fn initval_visited(&self, n: InitVal, after: Self, n2: InitVal) -> bool {
        after == *self
    }

    fn visit_comp_unit(&mut self, c: &mut CompUnit)
        ensures
            keeps(*old(self), *final(self)),
            forall|k: Seq<char>| is_lib_name(k) ==> #[trigger] final(self)@.contains_key(k),
            !final(self)@.contains_key("main"@) ==> final(self).fault() is Some,
    {
        self.install_lib();
        let ghost s0 = *self;
        let n = c.items.len();
        let mut i: usize = 0;
        while i < n
            invariant
                n == c.items@.len(),
                i <= n,
                self.inv(),
                keeps(*old(self), s0),
                keeps(s0, *self),
                forall|k: Seq<char>| is_lib_name(k) ==> #[trigger] s0@.contains_key(k),
            decreases n - i,
        {
            self.visit_global_item(&mut c.items[i]);
            i = i + 1;
        }
        if !self.contains("main") {
            self.fail("main function is not defined");
        }
    }

    fn visit_global_item(&mut self, g: &mut GlobalItem)
        ensures
            keeps(*old(self), *final(self)),
            *old(g) is Decl ==> decl_recorded(old(g)->Decl_0, *final(self)),
            *old(g) is Func && final(self).fault() is None ==> final(self)@.contains_key(old(g)->Func_0.ident@),
    {
        match g {
            GlobalItem::Decl(decl) => self.visit_decl(decl),
            GlobalItem::Func(func) => self.visit_func_def(func),
        }
    }

    fn visit_decl(&mut self, d: &mut Decl)
        ensures
            keeps(*old(self), *final(self)),
            decl_recorded(*old(d), *final(self)),
    {
        match d {
            Decl::ConstDecl(v) => {
            let ghost l0 = v@;
            let n = v.len();
            let mut i: usize = 0;
            while i < n
                invariant
                    n == v@.len(),
                    i <= n,
                    self.inv(),
                    forall|j: int| i <= j < n ==> v@[j] == l0[j],
                    keeps(*old(self), *self),
                    l0 == old(d)->ConstDecl_0@,
                    forall|j: int| 0 <= j < i && (#[trigger] l0[j]).kind == ExprKind::Array ==> self@.contains_key(l0[j].lval.ident@)
                        || self.fault() is Some,
                decreases n - i,
            {
                self.visit_const_decl(&mut v[i]);
                i = i + 1;
            }
            },
            Decl::VarDecl(v) => {
            let ghost l0 = v@;
            let n = v.len();
            let mut i: usize = 0;
            while i < n
                invariant
                    n == v@.len(),
                    i <= n,
                    self.inv(),
                    forall|j: int| i <= j < n ==> v@[j] == l0[j],
                    keeps(*old(self), *self),
                    l0 == old(d)->VarDecl_0@,
                    forall|j: int| 0 <= j < i ==> self@.contains_key((#[trigger] l0[j]).lval.ident@) || self.fault() is Some,
                decreases n - i,
            {
                self.visit_var_decl(&mut v[i]);
                i = i + 1;
            }
            },
        }
    }

    fn visit_var_decl(&mut self, v: &mut VarDecl)
        ensures
            keeps(*old(self), *final(self)),
            dims_are_literals(old(v).lval) ==> {
                &&& records(*old(self), *final(self), old(v).lval.ident@)
                &&& dims_of(final(self)@[old(v).lval.ident@]) == Some(literal_dims(old(v).lval))
            },
            !dims_are_literals(old(v).lval) ==> final(self)@ == old(self)@ && final(self).fault() is Some,
    {
        if let Some(init) = &mut v.init {
            self.visit_initval(init);
        }
        self.visit_lval(&mut v.lval);
        proof {
            lemma_literals_kept(old(v).lval.dims@, v.lval.dims@);
        }
        if !lval_dims_are_literals(&v.lval) {
            self.fail("attempt to retrieve an integer from a non-const expression");
            return;
        }
        let ty = Type::from_var_decl(v);
        self.insert(v.lval.ident.as_str(), ty);
    }

    fn visit_const_decl(&mut self, c: &mut ConstDecl)
        ensures
            keeps(*old(self), *final(self)),
            old(c).kind != ExprKind::Array ==> *final(self) == *old(self),
            old(c).kind == ExprKind::Array && dims_are_literals(old(c).lval) ==> {
                &&& records(*old(self), *final(self), old(c).lval.ident@)
                &&& dims_of(final(self)@[old(c).lval.ident@]) == Some(literal_dims(old(c).lval))
            },
            old(c).kind == ExprKind::Array && !dims_are_literals(old(c).lval) ==> {
                final(self)@ == old(self)@ && final(self).fault() is Some
            },
    {
        if c.kind == ExprKind::Array {
            self.visit_initval(&mut c.init);
            self.visit_lval(&mut c.lval);
            proof {
                lemma_literals_kept(old(c).lval.dims@, c.lval.dims@);
            }
            if !lval_dims_are_literals(&c.lval) {
                self.fail("attempt to retrieve an integer from a non-const expression");
                return;
            }
            let ty = Type::from_const_decl(c);
            self.insert(c.lval.ident.as_str(), ty);
        }
    }

    fn visit_func_def(&mut self, f: &mut FuncDef)
        ensures
            keeps(*old(self), *final(self)),
            old(f).ret_kind == ExprKind::Array ==> final(self).fault() is Some,
            final(self).fault() is None ==> {
                &&& final(self)@.contains_key(old(f).ident@)
                &&& final(self)@[old(f).ident@].spec_kind() matches TypeKind::Func(r, ps)
                &&& ps@.len() == old(f).params@.len()
                &&& (old(f).ret_kind == ExprKind::Int ==> r.spec_kind() == TypeKind::Integer)
                &&& (old(f).ret_kind == ExprKind::Void ==> r.spec_kind() == TypeKind::Void)
            },
    {
        {
            let ghost l0 = f.params@;
            let n = f.params.len();
            let mut i: usize = 0;
            while i < n
                invariant
                    n == f.params@.len(),
                    i <= n,
                    self.inv(),
                    forall|j: int| i <= j < n ==> f.params@[j] == l0[j],
                    keeps(*old(self), *self),
                    f.ident == old(f).ident,
                    f.ret_kind == old(f).ret_kind,
                    n == old(f).params@.len(),
                decreases n - i,
            {
                self.visit_func_param(&mut f.params[i]);
                i = i + 1;
            }
        }
        self.visit_block(&mut f.block);
        let ret_ty = match f.ret_kind {
            ExprKind::Int => Type::get_int(),
            ExprKind::Void => Type::get_void(),
            ExprKind::Array => {
                self.fail("a function cannot return an array");
                return;
            },
        };
        let ghost s1 = *self;
        let mut param_tys: Vec<Type> = Vec::new();
        let mut i: usize = 0;
        while i < f.params.len()
            invariant
                i <= f.params@.len(),
                param_tys@.len() == i,
                *self == s1,
                keeps(*old(self), s1),
                f.ident == old(f).ident,
                f.params@.len() == old(f).params@.len(),
            decreases f.params@.len() - i,
        {
            let ident = f.params[i].ident.as_str();
            if !self.contains(ident) {
                self.fail("parameter used before definition");
                return;
            }
            param_tys.push(self.get(ident).clone());
            i = i + 1;
        }
        self.insert(f.ident.as_str(), Type::get_func(ret_ty, param_tys));
    }

    fn visit_func_param(&mut self, f: &mut FuncParam)
        ensures
            keeps(*old(self), *final(self)),
            !all_literals(old(f).dims@) || old(f).kind == ExprKind::Void ==> {
                final(self)@ == old(self)@ && final(self).fault() is Some
            },
            all_literals(old(f).dims@) && old(f).kind == ExprKind::Int ==> {
                &&& records(*old(self), *final(self), old(f).ident@)
                &&& final(self)@[old(f).ident@].spec_kind() == TypeKind::Integer
            },
            all_literals(old(f).dims@) && old(f).kind == ExprKind::Array ==> {
                &&& records(*old(self), *final(self), old(f).ident@)
                &&& final(self)@[old(f).ident@].spec_kind() matches TypeKind::Pointer(b)
                &&& dims_of(b) == Some(old(f).dims@.map_values(|d: Expr| d->Integer_0 as usize))
            },
    {
        {
            let ghost l0 = f.dims@;
            let n = f.dims.len();
            let mut i: usize = 0;
            while i < n
                invariant
                    n == f.dims@.len(),
                    i <= n,
                    self.inv(),
                    forall|j: int| i <= j < n ==> f.dims@[j] == l0[j],
                    forall|j: int| 0 <= j < i ==> {
                        &&& (l0[j] is Integer ==> #[trigger] f.dims@[j] == l0[j])
                        &&& (f.dims@[j] is Integer ==> l0[j] is Integer)
                    },
                    l0 == old(f).dims@,
                    f.ident == old(f).ident,
                    f.kind == old(f).kind,
                    *self == *old(self),
                decreases n - i,
            {
                self.visit_expr(&mut f.dims[i]);
                i = i + 1;
            }
        }
        proof {
            lemma_literals_kept(old(f).dims@, f.dims@);
        }
        let dims = match literal_dims_of(&f.dims) {
            Some(d) => d,
            None => {
                self.fail("attempt to retrieve an integer from a non-const expression");
                return;
            },
        };
        let ty = match f.kind {
            ExprKind::Int => Type::get_int(),
            ExprKind::Array => Type::get_pointer(Type::infer_from_dims(dims.as_slice())),
            ExprKind::Void => {
                self.fail("a parameter cannot be void");
                return;
            },
        };
        self.insert(f.ident.as_str(), ty);
    }

    fn visit_block(&mut self, b: &mut Block)
        ensures
            keeps(*old(self), *final(self)),
            forall|j: int|
                0 <= j < old(b).items@.len() && (#[trigger] old(b).items@[j]) is Decl ==> decl_recorded(
                    old(b).items@[j]->Decl_0,
                    *final(self),
                ),
        decreases *old(b),
    {
        {
            let ghost l0 = b.items@;
            let n = b.items.len();
            let mut i: usize = 0;
            while i < n
                invariant
                    n == b.items@.len(),
                    i <= n,
                    self.inv(),
                    forall|j: int| i <= j < n ==> b.items@[j] == l0[j],
                    l0 == old(b).items@,
                    l0.len() == n,
                    keeps(*old(self), *self),
                    forall|j: int| 0 <= j < i && (#[trigger] l0[j]) is Decl ==> decl_recorded(l0[j]->Decl_0, *self),
                decreases n - i,
            {
                proof {
                    assert(decreases_to!(*old(b) => old(b).items@[i as int])) by {
                        assert(decreases_to!(*old(b) => old(b).items));
                        assert(decreases_to!(old(b).items => old(b).items@));
                        assert(decreases_to!(old(b).items@ => old(b).items@[i as int]));
                    }
                }
                let ghost s0 = *self;
                self.visit_block_item(&mut b.items[i]);
                proof {
                    assert forall|j: int| 0 <= j < i + 1 && (#[trigger] l0[j]) is Decl implies decl_recorded(
                        l0[j]->Decl_0,
                        *self,
                    ) by {
                        if j < i {
                            lemma_decl_recorded_later(l0[j]->Decl_0, s0, *self);
                        }
                    }
                }
                i = i + 1;
            }
        }
    }

    fn visit_block_item(&mut self, b: &mut BlockItem)
        ensures
            keeps(*old(self), *final(self)),
            *old(b) is Decl ==> decl_recorded(old(b)->Decl_0, *final(self)),
        decreases *old(b),
    {
        match b {
            BlockItem::Decl(decl) => self.visit_decl(decl),
            BlockItem::Stmt(stmt) => self.visit_stmt(stmt),
        }
    }

    fn visit_stmt(&mut self, s: &mut Stmt)
        ensures
            keeps(*old(self), *final(self)),
            stmt_recorded(*old(s), *final(self)),
        decreases *old(s),
    {
        match s {
            Stmt::Assign(assign) => self.visit_assign(assign),
            Stmt::Block(block) => self.visit_block(block),
            Stmt::Branch(br) => self.visit_branch(br),
            Stmt::Expr(e) => {
                if let Some(e) = e {
                    self.visit_expr(e);
                }
            },
            Stmt::Return(ret) => self.visit_return(ret),
            Stmt::While(w) => self.visit_while(w),
            Stmt::Break(b) => self.visit_break(b),
            Stmt::Continue(c) => self.visit_continue(c),
        }
    }

    fn visit_assign(&mut self, a: &mut Assign)
        ensures
            *final(self) == *old(self),
    {
        self.visit_expr(&mut a.val);
        self.visit_lval(&mut a.lval);
    }

    fn visit_branch(&mut self, b: &mut Branch)
        ensures
            keeps(*old(self), *final(self)),
            stmt_recorded(*old(b).if_stmt, *final(self)),
            old(b).el_stmt matches Some(e) ==> stmt_recorded(*e, *final(self)),
        decreases *old(b),
    {
        self.visit_expr(&mut b.cond);
        self.visit_stmt(&mut b.if_stmt);
        let ghost s1 = *self;
        if let Some(el_stmt) = &mut b.el_stmt {
            self.visit_stmt(el_stmt);
        }
        proof {
            lemma_stmt_recorded_later(*old(b).if_stmt, s1, *self);
        }
    }

    fn visit_break(&mut self, b: &mut Break)
        ensures
            *final(self) == *old(self),
    {
    }

    fn visit_continue(&mut self, c: &mut Continue)
        ensures
            *final(self) == *old(self),
    {
    }

    fn visit_while(&mut self, w: &mut While)
        ensures
            keeps(*old(self), *final(self)),
            stmt_recorded(*old(w).stmt, *final(self)),
        decreases *old(w),
    {
        self.visit_expr(&mut w.cond);
        self.visit_stmt(&mut w.stmt);
    }

    fn visit_return(&mut self, r: &mut Return)
        ensures
            *final(self) == *old(self),
    {
        if let Some(e) = &mut r.ret_val {
            self.visit_expr(e);
        }
    }

    fn visit_expr(&mut self, e: &mut Expr)
        ensures
            *final(self) == *old(self),
            *old(e) is Integer ==> *final(e) == *old(e),
            *final(e) is Integer ==> *old(e) is Integer,
        decreases *old(e),
    {
        match e {
            Expr::Binary(bxp) => self.visit_binary_expr(bxp),
            Expr::Unary(uxp) => self.visit_unary_expr(uxp),
            Expr::LVal(lval) => self.visit_lval(lval),
            Expr::Integer(_) => {},
            Expr::Error => {},
        }
    }

    fn visit_binary_expr(&mut self, b: &mut BinaryExpr)
        ensures
            *final(self) == *old(self),
        decreases *old(b),
    {
        self.visit_expr(&mut b.lhs);
        self.visit_expr(&mut b.rhs);
    }

    fn visit_unary_expr(&mut self, u: &mut UnaryExpr)
        ensures
            *final(self) == *old(self),
        decreases *old(u),
    {
        match u {
            UnaryExpr::Unary(_, exp) => self.visit_expr(exp),
            UnaryExpr::Call(call) => self.visit_call(call),
        }
    }

    fn visit_call(&mut self, c: &mut Call)
        ensures
            *final(self) == *old(self),
        decreases *old(c),
    {
        {
            let ghost l0 = c.args@;
            let n = c.args.len();
            let mut i: usize = 0;
            while i < n
                invariant
                    n == c.args@.len(),
                    i <= n,
                    self.inv(),
                    forall|j: int| i <= j < n ==> c.args@[j] == l0[j],
                    l0 == old(c).args@,
                    l0.len() == n,
                    *self == *old(self),
                decreases n - i,
            {
                proof {
                    assert(decreases_to!(*old(c) => old(c).args@[i as int])) by {
                        assert(decreases_to!(*old(c) => old(c).args));
                        assert(decreases_to!(old(c).args => old(c).args@));
                        assert(decreases_to!(old(c).args@ => old(c).args@[i as int]));
                    }
                }
                self.visit_expr(&mut c.args[i]);
                i = i + 1;
            }
        }
    }

    fn visit_lval(&mut self, l: &mut LVal)
        ensures
            *final(self) == *old(self),
            final(l).ident == old(l).ident,
            literals_kept(old(l).dims@, final(l).dims@),
        decreases *old(l),
    {
        {
            let ghost l0 = l.dims@;
            let n = l.dims.len();
            let mut i: usize = 0;
            while i < n
                invariant
                    n == l.dims@.len(),
                    i <= n,
                    self.inv(),
                    forall|j: int| i <= j < n ==> l.dims@[j] == l0[j],
                    forall|j: int| 0 <= j < i ==> {
                        &&& (l0[j] is Integer ==> #[trigger] l.dims@[j] == l0[j])
                        &&& (l.dims@[j] is Integer ==> l0[j] is Integer)
                    },
                    l.ident == old(l).ident,
                    l0 == old(l).dims@,
                    l0.len() == n,
                    *self == *old(self),
                decreases n - i,
            {
                proof {
                    assert(decreases_to!(*old(l) => old(l).dims@[i as int])) by {
                        assert(decreases_to!(*old(l) => old(l).dims));
                        assert(decreases_to!(old(l).dims => old(l).dims@));
                        assert(decreases_to!(old(l).dims@ => old(l).dims@[i as int]));
                    }
                }
                self.visit_expr(&mut l.dims[i]);
                i = i + 1;
            }
        }
    }

    fn visit_initval(&mut self, e: &mut InitVal)
        ensures
            *final(self) == *old(self),
        decreases *old(e),
    {
        match e {
            InitVal::Expr(exp) => self.visit_expr(exp),
            InitVal::List(list) => {
            let ghost l0 = list@;
            let n = list.len();
            let mut i: usize = 0;
            while i < n
                invariant
                    n == list@.len(),
                    i <= n,
                    self.inv(),
                    forall|j: int| i <= j < n ==> list@[j] == l0[j],
                    l0 == old(e)->List_0@,
                    l0.len() == n,
                    *old(e) is List,
                    *self == *old(self),
                decreases n - i,
            {
                proof {
                    assert(decreases_to!(*old(e) => old(e)->List_0@[i as int])) by {
                        assert(decreases_to!(*old(e) => old(e)->List_0));
                        assert(decreases_to!(old(e)->List_0 => old(e)->List_0@));
                        assert(decreases_to!(old(e)->List_0@ => old(e)->List_0@[i as int]));
                    }
                }
                self.visit_initval(&mut list[i]);
                i = i + 1;
            }
            },
        }
    }
}


} // verus!
