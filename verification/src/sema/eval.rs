use vstd::prelude::*;

use crate::ast::exp::{
    binary_defined, binary_value, eval_binary, eval_unary, unary_defined, unary_value, BinaryExpr, BinaryOp, Expr,
    UnaryExpr, UnaryOp,
};
use crate::ast::exp::{Call, InitVal, LVal};
use crate::ast::visit::MutVisitor;
use crate::ast::{
    Assign, Block, BlockItem, Branch, Break, CompUnit, ConstDecl, Continue, Decl, ExprKind, FuncDef, FuncParam,
    GlobalItem, Return, Stmt, VarDecl, While,
};
use crate::codegen::context::str_eq;

verus! {

impl Expr {
    /// The value of a constant expression.
    pub fn get_i32(&self) -> (r: i32)
        requires
            *self is Integer,
        ensures
            r == self->Integer_0,
    {
        if let Self::Integer(i) = self {
            *i
        } else {
            proof { assert(false); }
            0
        }
    }
}

/// The values of the integer constants declared so far.
#[derive(Debug)]
pub struct Evaluator {
    consts: Vec<(String, i32)>,
    /// the first fault met by the pass that folds constants, if any
    pub error: Option<String>,
}

/// The constants of a list of declarations: a later one hides an earlier one.
pub open spec fn const_map(s: Seq<(String, i32)>) -> Map<Seq<char>, i32>
    decreases s.len(),
{
    if s.len() == 0 {
        Map::empty()
    } else {
        const_map(s.drop_last()).insert(s.last().0@, s.last().1)
    }
}

/// The value of the last declaration of `k` in `s`.
pub open spec fn const_lookup(s: Seq<(String, i32)>, k: Seq<char>) -> Option<i32>
    decreases s.len(),
{
    if s.len() == 0 {
        None
    } else if s.last().0@ == k {
        Some(s.last().1)
    } else {
        const_lookup(s.drop_last(), k)
    }
}

proof fn lemma_const_lookup(s: Seq<(String, i32)>, k: Seq<char>)
    ensures
        const_lookup(s, k) == (if const_map(s).contains_key(k) {
            Some(const_map(s)[k])
        } else {
            None
        }),
    decreases s.len(),
{
    if s.len() > 0 {
        lemma_const_lookup(s.drop_last(), k);
    }
}

impl View for Evaluator {
    type V = Map<Seq<char>, i32>;

    closed spec fn view(&self) -> Map<Seq<char>, i32> {
        const_map(self.consts@)
    }
}

impl Evaluator {
    /// The first fault met by the pass that folds constants, if any.
    pub closed spec fn fault(&self) -> Option<String> {
        self.error
    }

    pub fn new() -> (r: Self)
        ensures
            r@ == Map::<Seq<char>, i32>::empty(),
            r.fault() is None,
    {
        Evaluator { consts: Vec::new(), error: None }
    }

    /// Records the value of the constant `name`.
    pub fn insert(&mut self, name: &str, value: i32)
        ensures
            final(self)@ == old(self)@.insert(name@, value),
            final(self).fault() == old(self).fault(),
    {
        self.consts.push((name.to_owned(), value));
        proof {
            assert(self.consts@.drop_last() =~= old(self).consts@);
        }
    }

    /// The value of the constant `name`, if it is one.
    pub fn get(&self, name: &str) -> (r: Option<i32>)
        ensures
            r == (if self@.contains_key(name@) {
                Some(self@[name@])
            } else {
                None
            }),
    {
        let mut i = self.consts.len();
        proof {
            assert(self.consts@.subrange(0, i as int) =~= self.consts@);
            lemma_const_lookup(self.consts@, name@);
        }
        while i > 0
            invariant
                i <= self.consts@.len(),
                const_lookup(self.consts@, name@) == const_lookup(self.consts@.subrange(0, i as int), name@),
                const_lookup(self.consts@, name@) == (if self@.contains_key(name@) {
                    Some(self@[name@])
                } else {
                    None
                }),
            decreases i,
        {
            let ghost s = self.consts@.subrange(0, i as int);
            assert(s.last() == self.consts@[i - 1]);
            assert(s.drop_last() =~= self.consts@.subrange(0, i - 1));
            if str_eq(self.consts[i - 1].0.as_str(), name) {
                return Some(self.consts[i - 1].1);
            }
            i = i - 1;
        }
        None
    }

    /// Whether `name` is a constant.
    pub fn contains_key(&self, name: &str) -> (r: bool)
        ensures
            r == self@.contains_key(name@),
    {
        self.get(name).is_some()
    }
}

/// Whether an expression names a variable with the same identifier as another.
pub open spec fn same_lval(a: Expr, b: Expr) -> bool {
    &&& a is LVal
    &&& b is LVal
    &&& a->LVal_0.ident@ == b->LVal_0.ident@
}

/// The value of an expression that is known before the program runs, if it
/// is: literals and constants, operators on known values, `&&` and `||`
/// settled by one side, and comparisons (and `-`) of a name with itself.
pub open spec fn fold_expr(e: Expr, env: Map<Seq<char>, i32>) -> Option<i32>
    decreases e,
{
    match e {
        Expr::Integer(i) => Some(i),
        Expr::Unary(u) => fold_unary(u, env),
        Expr::Binary(b) => fold_binary(b, env),
        Expr::LVal(l) => if env.contains_key(l.ident@) {
            Some(env[l.ident@])
        } else {
            None
        },
        Expr::Error => None,
    }
}

pub open spec fn fold_unary(u: UnaryExpr, env: Map<Seq<char>, i32>) -> Option<i32>
    decreases u,
{
    match u {
        UnaryExpr::Unary(op, opr) => match fold_expr(*opr, env) {
            Some(x) => Some(unary_value(op, x as int) as i32),
            None => None,
        },
        UnaryExpr::Call(_) => None,
    }
}

pub open spec fn fold_binary(b: BinaryExpr, env: Map<Seq<char>, i32>) -> Option<i32>
    decreases b,
{
    let l = fold_expr(*b.lhs, env);
    let r = fold_expr(*b.rhs, env);
    if l is Some && r is Some {
        Some(binary_value(b.op, l->0 as int, r->0 as int) as i32)
    } else if b.op == BinaryOp::And && (l == Some(0i32) || r == Some(0i32)) {
        Some(0)
    } else if b.op == BinaryOp::Or && ((l is Some && l->0 != 0) || (r is Some && r->0 != 0)) {
        Some(1)
    } else if same_lval(*b.lhs, *b.rhs) {
        match b.op {
            BinaryOp::Eq | BinaryOp::Le | BinaryOp::Ge => Some(1),
            BinaryOp::Neq | BinaryOp::Lt | BinaryOp::Gt | BinaryOp::Sub => Some(0),
            _ => None,
        }
    } else {
        None
    }
}

/// Whether folding an expression computes within `i32` and meets no
/// placeholder left by the parser.
pub open spec fn fold_ok(e: Expr, env: Map<Seq<char>, i32>) -> bool
    decreases e,
{
    match e {
        Expr::Integer(_) => true,
        Expr::Unary(u) => fold_unary_ok(u, env),
        Expr::Binary(b) => fold_binary_ok(b, env),
        Expr::LVal(_) => true,
        Expr::Error => false,
    }
}

pub open spec fn fold_unary_ok(u: UnaryExpr, env: Map<Seq<char>, i32>) -> bool
    decreases u,
{
    match u {
        UnaryExpr::Unary(op, opr) => fold_ok(*opr, env) && match fold_expr(*opr, env) {
            Some(x) => unary_defined(op, x),
            None => true,
        },
        UnaryExpr::Call(_) => true,
    }
}

pub open spec fn fold_binary_ok(b: BinaryExpr, env: Map<Seq<char>, i32>) -> bool
    decreases b,
{
    &&& fold_ok(*b.lhs, env)
    &&& fold_ok(*b.rhs, env)
    &&& (fold_expr(*b.lhs, env) is Some && fold_expr(*b.rhs, env) is Some) ==> binary_defined(
        b.op,
        fold_expr(*b.lhs, env)->0,
        fold_expr(*b.rhs, env)->0,
    )
}

/// Evaluation of an expression before the program runs.
pub trait ConstEval {
    /// The value that evaluation gives, if any.
    spec fn folded(&self, env: Map<Seq<char>, i32>) -> Option<i32>;

    /// Whether evaluation stays within `i32` and meets no parser placeholder.
    spec fn folds_safely(&self, env: Map<Seq<char>, i32>) -> bool;

    fn const_eval(&self, eval: &Evaluator) -> (r: Option<i32>)
        requires
            self.folds_safely(eval@),
        ensures
            r == self.folded(eval@),
    ;
}

impl ConstEval for UnaryExpr {
    open spec fn folded(&self, env: Map<Seq<char>, i32>) -> Option<i32> {
        fold_unary(*self, env)
    }

    open spec fn folds_safely(&self, env: Map<Seq<char>, i32>) -> bool {
        fold_unary_ok(*self, env)
    }

    fn const_eval(&self, eval: &Evaluator) -> (r: Option<i32>) {
        const_eval_unary(self, eval)
    }
}

impl ConstEval for BinaryExpr {
    open spec fn folded(&self, env: Map<Seq<char>, i32>) -> Option<i32> {
        fold_binary(*self, env)
    }

    open spec fn folds_safely(&self, env: Map<Seq<char>, i32>) -> bool {
        fold_binary_ok(*self, env)
    }

    fn const_eval(&self, eval: &Evaluator) -> (r: Option<i32>) {
        const_eval_binary(self, eval)
    }
}

impl ConstEval for Expr {
    open spec fn folded(&self, env: Map<Seq<char>, i32>) -> Option<i32> {
        fold_expr(*self, env)
    }

    open spec fn folds_safely(&self, env: Map<Seq<char>, i32>) -> bool {
        fold_ok(*self, env)
    }

    fn const_eval(&self, eval: &Evaluator) -> (r: Option<i32>) {
        const_eval_expr(self, eval)
    }
}

/// The value of `e` known before the program runs, if any.
pub fn const_eval_expr(e: &Expr, eval: &Evaluator) -> (r: Option<i32>)
    requires
        fold_ok(*e, eval@),
    ensures
        r == fold_expr(*e, eval@),
    decreases e,
{
    match e {
        Expr::Integer(i) => Some(*i),
        Expr::Unary(uxp) => const_eval_unary(uxp, eval),
        Expr::Binary(bxp) => const_eval_binary(bxp, eval),
        Expr::LVal(lval) => eval.get(lval.ident.as_str()),
        Expr::Error => None,
    }
}

/// The value of a unary expression known before the program runs, if any.
pub fn const_eval_unary(u: &UnaryExpr, eval: &Evaluator) -> (r: Option<i32>)
    requires
        fold_unary_ok(*u, eval@),
    ensures
        r == fold_unary(*u, eval@),
    decreases u,
{
    match u {
        UnaryExpr::Unary(op, exp) => match const_eval_expr(exp, eval) {
            Some(opr) => Some(eval_unary(*op, opr)),
            None => None,
        },
        UnaryExpr::Call(_) => None,
    }
}

/// The value of a binary expression known before the program runs, if any.
pub fn const_eval_binary(b: &BinaryExpr, eval: &Evaluator) -> (r: Option<i32>)
    requires
        fold_binary_ok(*b, eval@),
    ensures
        r == fold_binary(*b, eval@),
    decreases b,
{
    let lhs = const_eval_expr(&b.lhs, eval);
    let rhs = const_eval_expr(&b.rhs, eval);
    if let (Some(l), Some(r)) = (lhs, rhs) {
        return Some(eval_binary(b.op, l, r));
    }
    if b.op == BinaryOp::And && (lhs == Some(0i32) || rhs == Some(0i32)) {
        return Some(0);
    }
    let lhs_true = match lhs {
        Some(i) => i != 0,
        None => false,
    };
    let rhs_true = match rhs {
        Some(i) => i != 0,
        None => false,
    };
    if b.op == BinaryOp::Or && (lhs_true || rhs_true) {
        return Some(1);
    }
    let same = match (&*b.lhs, &*b.rhs) {
        (Expr::LVal(l), Expr::LVal(r)) => str_eq(l.ident.as_str(), r.ident.as_str()),
        _ => false,
    };
    if same {
        match b.op {
            BinaryOp::Eq | BinaryOp::Le | BinaryOp::Ge => Some(1),
            BinaryOp::Neq | BinaryOp::Lt | BinaryOp::Gt | BinaryOp::Sub => Some(0),
            _ => None,
        }
    } else {
        None
    }
}


/// Whether `lhs op rhs` can be computed in `i32`.
fn binary_ok(op: BinaryOp, lhs: i32, rhs: i32) -> (r: bool)
    ensures
        r == binary_defined(op, lhs, rhs),
{
    match op {
        BinaryOp::Add => lhs.checked_add(rhs).is_some(),
        BinaryOp::Sub => lhs.checked_sub(rhs).is_some(),
        BinaryOp::Mul => lhs.checked_mul(rhs).is_some(),
        BinaryOp::Div | BinaryOp::Mod => rhs != 0 && !(lhs == i32::MIN && rhs == -1),
        _ => true,
    }
}

/// The value of `e` known before the program runs, if any, where folding it
/// stays within `i32` and meets no parser placeholder; `Err` where it does not.
pub fn const_eval_checked(e: &Expr, eval: &Evaluator) -> (r: Result<Option<i32>, ()>)
    ensures
        r is Ok <==> fold_ok(*e, eval@),
        r is Ok ==> r->Ok_0 == fold_expr(*e, eval@),
    decreases e,
{
    match e {
        Expr::Integer(i) => Ok(Some(*i)),
        Expr::Unary(u) => checked_unary(u, eval),
        Expr::Binary(b) => checked_binary(b, eval),
        Expr::LVal(l) => Ok(eval.get(l.ident.as_str())),
        Expr::Error => Err(()),
    }
}

fn checked_unary(u: &UnaryExpr, eval: &Evaluator) -> (r: Result<Option<i32>, ()>)
    ensures
        r is Ok <==> fold_unary_ok(*u, eval@),
        r is Ok ==> r->Ok_0 == fold_unary(*u, eval@),
    decreases u,
{
    match u {
        UnaryExpr::Unary(op, x) => match const_eval_checked(x, eval) {
            Err(()) => Err(()),
            Ok(None) => Ok(None),
            Ok(Some(v)) => {
                if *op == UnaryOp::Neg && v == i32::MIN {
                    Err(())
                } else {
                    Ok(Some(eval_unary(*op, v)))
                }
            },
        },
        UnaryExpr::Call(_) => Ok(None),
    }
}

fn checked_binary(b: &BinaryExpr, eval: &Evaluator) -> (r: Result<Option<i32>, ()>)
    ensures
        r is Ok <==> fold_binary_ok(*b, eval@),
        r is Ok ==> r->Ok_0 == fold_binary(*b, eval@),
    decreases b,
{
    let l = const_eval_checked(&b.lhs, eval);
    let r = const_eval_checked(&b.rhs, eval);
    match (l, r) {
        (Ok(lv), Ok(rv)) => {
            if let (Some(x), Some(y)) = (lv, rv) {
                if !binary_ok(b.op, x, y) {
                    return Err(());
                }
            }
            Ok(const_eval_binary(b, eval))
        },
        _ => Err(()),
    }
}

impl Evaluator {
    /// Records `msg` as the fault of the pass, unless one came first.
    fn fail(&mut self, msg: &str)
        ensures
            final(self)@ == old(self)@,
            old(self).fault() is Some ==> final(self).fault() == old(self).fault(),
            old(self).fault() is None ==> final(self).fault() is Some && final(self).fault()->0@ == msg@,
    {
        if self.error.is_none() {
            self.error = Some(msg.to_owned());
        }
    }
}

/// Whether `new` is `old` after folding in the environment `env`: an
/// integer stays, and an expression that folds becomes its value.
pub open spec fn expr_folded(old: Expr, new: Expr, env: Map<Seq<char>, i32>) -> bool {
    &&& old is Integer ==> new == old
    &&& fold_ok(old, env) && fold_expr(old, env) is Some ==> new == Expr::Integer(fold_expr(old, env)->0)
}

/// Whether `after` records the value of each constant of integer type that
/// `d` declares, or holds a fault.
pub open spec fn consts_recorded(d: Decl, after: Evaluator) -> bool {
    match d {
        Decl::ConstDecl(v) => forall|j: int|
            0 <= j < v@.len() && (#[trigger] v@[j]).kind == ExprKind::Int ==> after@.contains_key(v@[j].lval.ident@)
                || after.fault() is Some,
        Decl::VarDecl(_) => true,
    }
}

proof fn lemma_consts_recorded_later(d: Decl, a: Evaluator, b: Evaluator)
    requires
        consts_recorded(d, a),
        keeps(a, b),
    ensures
        consts_recorded(d, b),
{
    if let Decl::ConstDecl(v) = d {
        assert forall|j: int| 0 <= j < v@.len() && (#[trigger] v@[j]).kind == ExprKind::Int implies b@.contains_key(
            v@[j].lval.ident@,
        ) || b.fault() is Some by {
            if a@.contains_key(v@[j].lval.ident@) {
                assert(a@.dom().contains(v@[j].lval.ident@));
            }
        }
    }
}

/// Whether the statement `b` is `a` with the expressions that it holds
/// itself folded in the environment `env` (those of nested statements are
/// not told apart here).
pub open spec fn stmt_folded(a: Stmt, b: Stmt, env: Map<Seq<char>, i32>) -> bool {
    match (a, b) {
        (Stmt::Assign(x), Stmt::Assign(y)) => !env.contains_key(x.lval.ident@) ==> expr_folded(x.val, y.val, env)
            && lval_folded(x.lval, y.lval, env),
        (Stmt::Branch(x), Stmt::Branch(y)) => expr_folded(x.cond, y.cond, env),
        (Stmt::While(x), Stmt::While(y)) => expr_folded(x.cond, y.cond, env),
        (Stmt::Return(x), Stmt::Return(y)) => match (x.ret_val, y.ret_val) {
            (Some(c), Some(d)) => expr_folded(c, d, env),
            (None, None) => true,
            _ => false,
        },
        (Stmt::Expr(Some(c)), Stmt::Expr(Some(d))) => expr_folded(c, d, env),
        (Stmt::Expr(None), Stmt::Expr(None)) => true,
        (Stmt::Block(_), Stmt::Block(_)) => true,
        (Stmt::Break(_), Stmt::Break(_)) => true,
        (Stmt::Continue(_), Stmt::Continue(_)) => true,
        _ => false,
    }
}

/// Whether the state `new` of the pass keeps what `old` held: every constant
/// recorded stays recorded, and a fault once met stays the fault.
pub open spec fn keeps(old: Evaluator, new: Evaluator) -> bool {
    &&& old@.dom().subset_of(new@.dom())
    &&& old.fault() is Some ==> new.fault() == old.fault()
}

/// Whether the initializer `new` is `old` after folding: a single expression
/// is folded, a list keeps its length.
pub open spec fn initval_folded(old: InitVal, new: InitVal, env: Map<Seq<char>, i32>) -> bool {
    match (old, new) {
        (InitVal::Expr(a), InitVal::Expr(b)) => expr_folded(a, b, env),
        (InitVal::List(a), InitVal::List(b)) => a@.len() == b@.len(),
        _ => false,
    }
}

/// Whether the l-value `new` is `old` with its subscripts folded.
pub open spec fn lval_folded(old: LVal, new: LVal, env: Map<Seq<char>, i32>) -> bool {
    old.ident == new.ident && exprs_folded(old.dims@, new.dims@, env)
}

/// Whether each expression of `new` is that of `old` after folding.
pub open spec fn exprs_folded(old: Seq<Expr>, new: Seq<Expr>, env: Map<Seq<char>, i32>) -> bool {
    old.len() == new.len() && forall|j: int| 0 <= j < old.len() ==> expr_folded(old[j], #[trigger] new[j], env)
}

/// Folds the constant expressions of a program: each constant of integer
/// type is recorded, each expression whose value is known is replaced by it.
/// An assignment to a constant, an initializer that is no constant
/// expression, and folding that overflows are recorded as the fault.
impl MutVisitor for Evaluator {
    open spec fn inv(&self) -> bool {
        true
    }

    open spec fn comp_unit_visited(&self, n: CompUnit, after: Self, n2: CompUnit) -> bool {
        &&& keeps(*self, after)
        &&& forall|j: int|
            0 <= j < n.items@.len() && (#[trigger] n.items@[j]) is Decl ==> consts_recorded(n.items@[j]->Decl_0, after)
    }

    open spec fn global_item_visited(&self, n: GlobalItem, after: Self, n2: GlobalItem) -> bool {
        keeps(*self, after)
    }

    open spec fn decl_visited(&self, n: Decl, after: Self, n2: Decl) -> bool {
        keeps(*self, after)
    }

    open spec fn var_decl_visited(&self, n: VarDecl, after: Self, n2: VarDecl) -> bool {
        after@ == self@ && keeps(*self, after)
    }

    open spec fn const_decl_visited(&self, n: ConstDecl, after: Self, n2: ConstDecl) -> bool {
        keeps(*self, after)
    }

    open spec fn func_def_visited(&self, n: FuncDef, after: Self, n2: FuncDef) -> bool {
        keeps(*self, after)
    }

    open spec fn func_param_visited(&self, n: FuncParam, after: Self, n2: FuncParam) -> bool {
        after@ == self@ && keeps(*self, after)
    }

    open spec fn block_visited(&self, n: Block, after: Self, n2: Block) -> bool {
        keeps(*self, after)
    }

    open spec fn block_item_visited(&self, n: BlockItem, after: Self, n2: BlockItem) -> bool {
        keeps(*self, after)
    }

    open spec fn stmt_visited(&self, n: Stmt, after: Self, n2: Stmt) -> bool {
        keeps(*self, after)
    }

    open spec fn assign_visited(&self, n: Assign, after: Self, n2: Assign) -> bool {
        after@ == self@ && keeps(*self, after)
    }

    open spec fn branch_visited(&self, n: Branch, after: Self, n2: Branch) -> bool {
        keeps(*self, after)
    }

    open spec fn break_visited(&self, n: Break, after: Self, n2: Break) -> bool {
        after@ == self@ && keeps(*self, after)
    }

    open spec fn continue_visited(&self, n: Continue, after: Self, n2: Continue) -> bool {
        after@ == self@ && keeps(*self, after)
    }

    open spec fn while_visited(&self, n: While, after: Self, n2: While) -> bool {
        keeps(*self, after)
    }

    open spec fn return_visited(&self, n: Return, after: Self, n2: Return) -> bool {
        after@ == self@ && keeps(*self, after)
    }

    open spec fn expr_visited(&self, n: Expr, after: Self, n2: Expr) -> bool {
        after@ == self@ && keeps(*self, after)
    }

    open spec fn binary_expr_visited(&self, n: BinaryExpr, after: Self, n2: BinaryExpr) -> bool {
        after@ == self@ && keeps(*self, after)
    }

    open spec fn unary_expr_visited(&self, n: UnaryExpr, after: Self, n2: UnaryExpr) -> bool {
        after@ == self@ && keeps(*self, after)
    }

    open spec fn call_visited(&self, n: Call, after: Self, n2: Call) -> bool {
        after@ == self@ && keeps(*self, after)
    }

    open spec fn lval_visited(&self, n: LVal, after: Self, n2: LVal) -> bool {
        after@ == self@ && keeps(*self, after)
    }

    open spec fn initval_visited(&self, n: InitVal, after: Self, n2: InitVal) -> bool {
        after@ == self@ && keeps(*self, after)
    }

    fn visit_comp_unit(&mut self, c: &mut CompUnit)
        ensures
            keeps(*old(self), *final(self)),
            forall|j: int|
                0 <= j < old(c).items@.len() && (#[trigger] old(c).items@[j]) is Decl ==> consts_recorded(
                    old(c).items@[j]->Decl_0,
                    *final(self),
                ),
    {
        let ghost l0 = c.items@;
        let n = c.items.len();
        let mut i: usize = 0;
        while i < n
            invariant
                n == c.items@.len(),
                i <= n,
                self.inv(),
                keeps(*old(self), *self),
                l0 == old(c).items@,
                forall|j: int| i <= j < n ==> c.items@[j] == l0[j],
                forall|j: int| 0 <= j < i && (#[trigger] l0[j]) is Decl ==> consts_recorded(l0[j]->Decl_0, *self),
            decreases n - i,
        {
            let ghost s0 = *self;
            self.visit_global_item(&mut c.items[i]);
            proof {
                assert forall|j: int| 0 <= j < i + 1 && (#[trigger] l0[j]) is Decl implies consts_recorded(
                    l0[j]->Decl_0,
                    *self,
                ) by {
                    if j < i {
                        lemma_consts_recorded_later(l0[j]->Decl_0, s0, *self);
                    }
                }
            }
            i = i + 1;
        }
    }

    fn visit_global_item(&mut self, g: &mut GlobalItem)
        ensures
            keeps(*old(self), *final(self)),
            *old(g) is Decl ==> consts_recorded(old(g)->Decl_0, *final(self)),
    {
        match g {
            GlobalItem::Decl(decl) => self.visit_decl(decl),
            GlobalItem::Func(func) => self.visit_func_def(func),
        }
    }

    fn visit_decl(&mut self, d: &mut Decl)
        ensures
            keeps(*old(self), *final(self)),
            *old(d) is VarDecl ==> final(self)@ == old(self)@,
            consts_recorded(*old(d), *final(self)),
    {
        match d {
            Decl::ConstDecl(v) => {
            let ghost l0 = v@;
            let n = v.len();
            let mut i: usize = 0;
            while i < n
                invariant
                    n == v@.len(),
                    i <= n,
                    self.inv(),
                    keeps(*old(self), *self),
                    forall|j: int| i <= j < n ==> v@[j] == l0[j],
                    l0 == old(d)->ConstDecl_0@,
                    forall|j: int| 0 <= j < i && (#[trigger] l0[j]).kind == ExprKind::Int ==> self@.contains_key(l0[j].lval.ident@)
                        || self.fault() is Some,
                decreases n - i,
            {
                self.visit_const_decl(&mut v[i]);
                i = i + 1;
            }
            },
            Decl::VarDecl(v) => {
            let ghost l0 = v@;
            let n = v.len();
            let mut i: usize = 0;
            while i < n
                invariant
                    n == v@.len(),
                    i <= n,
                    self.inv(),
                    keeps(*old(self), *self),
                    forall|j: int| i <= j < n ==> v@[j] == l0[j],
                    self@ == old(self)@,
                decreases n - i,
            {
                self.visit_var_decl(&mut v[i]);
                i = i + 1;
            }
            },
        }
    }

    fn visit_var_decl(&mut self, v: &mut VarDecl)
        ensures
            keeps(*old(self), *final(self)),
            final(self)@ == old(self)@,
            final(v).kind == old(v).kind,
            lval_folded(old(v).lval, final(v).lval, old(self)@),
            match (old(v).init, final(v).init) {
                (Some(a), Some(b)) => initval_folded(a, b, old(self)@),
                (None, None) => true,
                _ => false,
            },
    {
        if let Some(init) = &mut v.init {
            self.visit_initval(init);
        }
        self.visit_lval(&mut v.lval);
    }

    fn visit_const_decl(&mut self, c: &mut ConstDecl)
        ensures
            keeps(*old(self), *final(self)),
            old(c).kind == ExprKind::Int ==> *final(c) == *old(c) && match old(c).init {
                InitVal::Expr(e) => if fold_ok(e, old(self)@) && fold_expr(e, old(self)@) is Some {
                    &&& final(self)@ == old(self)@.insert(old(c).lval.ident@, fold_expr(e, old(self)@)->0)
                    &&& final(self).fault() == old(self).fault()
                } else {
                    final(self)@ == old(self)@ && final(self).fault() is Some
                },
                InitVal::List(_) => final(self)@ == old(self)@ && final(self).fault() is Some,
            },
            old(c).kind != ExprKind::Int ==> {
                &&& final(self)@ == old(self)@
                &&& final(c).kind == old(c).kind
                &&& lval_folded(old(c).lval, final(c).lval, old(self)@)
                &&& initval_folded(old(c).init, final(c).init, old(self)@)
            },
    {
        if c.kind == ExprKind::Int {
            match &c.init {
                InitVal::Expr(e) => match const_eval_checked(e, self) {
                    Ok(Some(v)) => self.insert(c.lval.ident.as_str(), v),
                    _ => self.fail("the initializer of a constant is not a constant expression"),
                },
                InitVal::List(_) => self.fail("invalid initializer"),
            }
        } else {
            self.visit_initval(&mut c.init);
            self.visit_lval(&mut c.lval);
        }
    }

    fn visit_func_def(&mut self, f: &mut FuncDef)
        ensures
            keeps(*old(self), *final(self)),
            final(f).ident == old(f).ident,
            final(f).params@.len() == old(f).params@.len(),
            forall|j: int|
                0 <= j < old(f).params@.len() ==> (#[trigger] final(f).params@[j]).ident == old(f).params@[j].ident
                    && exprs_folded(old(f).params@[j].dims@, final(f).params@[j].dims@, old(self)@),
    {
        {
            let ghost l0 = f.params@;
            let n = f.params.len();
            let mut i: usize = 0;
            while i < n
                invariant
                    n == f.params@.len(),
                    i <= n,
                    self.inv(),
                    keeps(*old(self), *self),
                    forall|j: int| i <= j < n ==> f.params@[j] == l0[j],
                    l0 == old(f).params@,
                    f.ident == old(f).ident,
                    self@ == old(self)@,
                    forall|j: int|
                        0 <= j < i ==> (#[trigger] f.params@[j]).ident == l0[j].ident && exprs_folded(
                            l0[j].dims@,
                            f.params@[j].dims@,
                            old(self)@,
                        ),
                decreases n - i,
            {
                self.visit_func_param(&mut f.params[i]);
                i = i + 1;
            }
        }
        self.visit_block(&mut f.block);
    }

    fn visit_func_param(&mut self, f: &mut FuncParam)
        ensures
            keeps(*old(self), *final(self)),
            final(self)@ == old(self)@,
            final(f).kind == old(f).kind,
            final(f).ident == old(f).ident,
            exprs_folded(old(f).dims@, final(f).dims@, old(self)@),
    {
        {
            let ghost l0 = f.dims@;
            let n = f.dims.len();
            let mut i: usize = 0;
            while i < n
                invariant
                    n == f.dims@.len(),
                    i <= n,
                    self.inv(),
                    keeps(*old(self), *self),
                    forall|j: int| i <= j < n ==> f.dims@[j] == l0[j],
                    self@ == old(self)@,
                    l0 == old(f).dims@,
                    f.kind == old(f).kind,
                    f.ident == old(f).ident,
                    forall|j: int| 0 <= j < i ==> expr_folded(l0[j], #[trigger] f.dims@[j], old(self)@),
                decreases n - i,
            {
                self.visit_expr(&mut f.dims[i]);
                i = i + 1;
            }
        }
    }

    fn visit_block(&mut self, b: &mut Block)
        ensures
            keeps(*old(self), *final(self)),
            forall|j: int|
                0 <= j < old(b).items@.len() && (#[trigger] old(b).items@[j]) is Decl ==> consts_recorded(
                    old(b).items@[j]->Decl_0,
                    *final(self),
                ),
        decreases *old(b),
    {
        {
            let ghost l0 = b.items@;
            let n = b.items.len();
            let mut i: usize = 0;
            while i < n
                invariant
                    n == b.items@.len(),
                    i <= n,
                    self.inv(),
                    keeps(*old(self), *self),
                    forall|j: int| i <= j < n ==> b.items@[j] == l0[j],
                    l0 == old(b).items@,
                    l0.len() == n,
                    forall|j: int| 0 <= j < i && (#[trigger] l0[j]) is Decl ==> consts_recorded(l0[j]->Decl_0, *self),
                decreases n - i,
            {
                proof {
                    assert(decreases_to!(*old(b) => old(b).items@[i as int])) by {
                        assert(decreases_to!(*old(b) => old(b).items));
                        assert(decreases_to!(old(b).items => old(b).items@));
                        assert(decreases_to!(old(b).items@ => old(b).items@[i as int]));
                    }
                }
                let ghost s0 = *self;
                self.visit_block_item(&mut b.items[i]);
                proof {
                    assert forall|j: int| 0 <= j < i + 1 && (#[trigger] l0[j]) is Decl implies consts_recorded(
                        l0[j]->Decl_0,
                        *self,
                    ) by {
                        if j < i {
                            lemma_consts_recorded_later(l0[j]->Decl_0, s0, *self);
                        }
                    }
                }
                i = i + 1;
            }
        }
    }

    fn visit_block_item(&mut self, b: &mut BlockItem)
        ensures
            keeps(*old(self), *final(self)),
            *old(b) is Decl ==> consts_recorded(old(b)->Decl_0, *final(self)),
            *old(b) is Stmt ==> *final(b) is Stmt && stmt_folded(old(b)->Stmt_0, final(b)->Stmt_0, old(self)@),
        decreases *old(b),
    {
        match b {
            BlockItem::Decl(decl) => self.visit_decl(decl),
            BlockItem::Stmt(stmt) => self.visit_stmt(stmt),
        }
    }

    fn visit_stmt(&mut self, s: &mut Stmt)
        ensures
            keeps(*old(self), *final(self)),
            stmt_folded(*old(s), *final(s), old(self)@),
        decreases *old(s),
    {
        match s {
            Stmt::Assign(assign) => self.visit_assign(assign),
            Stmt::Block(block) => self.visit_block(block),
            Stmt::Branch(br) => self.visit_branch(br),
            Stmt::Expr(e) => {
                if let Some(e) = e {
                    self.visit_expr(e);
                }
            },
            Stmt::Return(ret) => self.visit_return(ret),
            Stmt::While(w) => self.visit_while(w),
            Stmt::Break(b) => self.visit_break(b),
            Stmt::Continue(c) => self.visit_continue(c),
        }
    }

    fn visit_assign(&mut self, a: &mut Assign)
        ensures
            keeps(*old(self), *final(self)),
            final(self)@ == old(self)@,
            old(self)@.contains_key(old(a).lval.ident@) ==> *final(a) == *old(a) && final(self).fault() is Some,
            !old(self)@.contains_key(old(a).lval.ident@) ==> {
                &&& expr_folded(old(a).val, final(a).val, old(self)@)
                &&& lval_folded(old(a).lval, final(a).lval, old(self)@)
            },
    {
        if self.contains_key(a.lval.ident.as_str()) {
            self.fail("attempt to assign a const value");
        } else {
            self.visit_expr(&mut a.val);
            self.visit_lval(&mut a.lval);
        }
    }

    fn visit_branch(&mut self, b: &mut Branch)
        ensures
            keeps(*old(self), *final(self)),
            expr_folded(old(b).cond, final(b).cond, old(self)@),
        decreases *old(b),
    {
        self.visit_expr(&mut b.cond);
        self.visit_stmt(&mut b.if_stmt);
        if let Some(el_stmt) = &mut b.el_stmt {
            self.visit_stmt(el_stmt);
        }
    }

    fn visit_break(&mut self, b: &mut Break)
        ensures
            keeps(*old(self), *final(self)),
            final(self)@ == old(self)@,
    {
    }

    fn visit_continue(&mut self, c: &mut Continue)
        ensures
            keeps(*old(self), *final(self)),
            final(self)@ == old(self)@,
    {
    }

    fn visit_while(&mut self, w: &mut While)
        ensures
            keeps(*old(self), *final(self)),
            expr_folded(old(w).cond, final(w).cond, old(self)@),
        decreases *old(w),
    {
        self.visit_expr(&mut w.cond);
        self.visit_stmt(&mut w.stmt);
    }

    fn visit_return(&mut self, r: &mut Return)
        ensures
            keeps(*old(self), *final(self)),
            final(self)@ == old(self)@,
            match (old(r).ret_val, final(r).ret_val) {
                (Some(c), Some(d)) => expr_folded(c, d, old(self)@),
                (None, None) => true,
                _ => false,
            },
    {
        if let Some(e) = &mut r.ret_val {
            self.visit_expr(e);
        }
    }

    fn visit_expr(&mut self, e: &mut Expr)
        ensures
            keeps(*old(self), *final(self)),
            final(self)@ == old(self)@,
            *old(e) is Integer ==> *final(e) == *old(e),
            fold_ok(*old(e), old(self)@) && fold_expr(*old(e), old(self)@) is Some ==> *final(e) == Expr::Integer(
                fold_expr(*old(e), old(self)@)->0,
            ),
        decreases *old(e),
    {
        if matches!(e, Expr::Integer(_)) {
            return;
        }
        match const_eval_checked(e, self) {
            Ok(Some(i)) => {
                *e = Expr::Integer(i);
                return;
            },
            Ok(None) => {},
            Err(()) => self.fail("expected an expression"),
        }
        match e {
            Expr::Binary(bxp) => self.visit_binary_expr(bxp),
            Expr::Unary(uxp) => self.visit_unary_expr(uxp),
            Expr::LVal(lval) => self.visit_lval(lval),
            Expr::Integer(_) => {},
            Expr::Error => {},
        }
    }

    fn visit_binary_expr(&mut self, b: &mut BinaryExpr)
        ensures
            keeps(*old(self), *final(self)),
            final(self)@ == old(self)@,
        decreases *old(b),
    {
        self.visit_expr(&mut b.lhs);
        self.visit_expr(&mut b.rhs);
    }

    fn visit_unary_expr(&mut self, u: &mut UnaryExpr)
        ensures
            keeps(*old(self), *final(self)),
            final(self)@ == old(self)@,
            match (*old(u), *final(u)) {
                (UnaryExpr::Unary(o1, a), UnaryExpr::Unary(o2, b)) => o1 == o2 && expr_folded(*a, *b, old(self)@),
                (UnaryExpr::Call(a), UnaryExpr::Call(b)) => a.ident == b.ident && exprs_folded(a.args@, b.args@, old(self)@),
                _ => false,
            },
        decreases *old(u),
    {
        match u {
            UnaryExpr::Unary(_, exp) => self.visit_expr(exp),
            UnaryExpr::Call(call) => self.visit_call(call),
        }
    }

    fn visit_call(&mut self, c: &mut Call)
        ensures
            keeps(*old(self), *final(self)),
            final(self)@ == old(self)@,
            final(c).ident == old(c).ident,
            exprs_folded(old(c).args@, final(c).args@, old(self)@),
        decreases *old(c),
    {
        {
            let ghost l0 = c.args@;
            let n = c.args.len();
            let mut i: usize = 0;
            while i < n
                invariant
                    n == c.args@.len(),
                    i <= n,
                    self.inv(),
                    keeps(*old(self), *self),
                    forall|j: int| i <= j < n ==> c.args@[j] == l0[j],
                    l0 == old(c).args@,
                    l0.len() == n,
                    self@ == old(self)@,
                    c.ident == old(c).ident,
                    forall|j: int| 0 <= j < i ==> expr_folded(l0[j], #[trigger] c.args@[j], old(self)@),
                decreases n - i,
            {
                proof {
                    assert(decreases_to!(*old(c) => old(c).args@[i as int])) by {
                        assert(decreases_to!(*old(c) => old(c).args));
                        assert(decreases_to!(old(c).args => old(c).args@));
                        assert(decreases_to!(old(c).args@ => old(c).args@[i as int]));
                    }
                }
                self.visit_expr(&mut c.args[i]);
                i = i + 1;
            }
        }
    }

    fn visit_lval(&mut self, l: &mut LVal)
        ensures
            keeps(*old(self), *final(self)),
            final(self)@ == old(self)@,
            final(l).ident == old(l).ident,
            exprs_folded(old(l).dims@, final(l).dims@, old(self)@),
        decreases *old(l),
    {
        {
            let ghost l0 = l.dims@;
            let n = l.dims.len();
            let mut i: usize = 0;
            while i < n
                invariant
                    n == l.dims@.len(),
                    i <= n,
                    self.inv(),
                    keeps(*old(self), *self),
                    forall|j: int| i <= j < n ==> l.dims@[j] == l0[j],
                    l0 == old(l).dims@,
                    l0.len() == n,
                    self@ == old(self)@,
                    l.ident == old(l).ident,
                    forall|j: int| 0 <= j < i ==> expr_folded(l0[j], #[trigger] l.dims@[j], old(self)@),
                decreases n - i,
            {
                proof {
                    assert(decreases_to!(*old(l) => old(l).dims@[i as int])) by {
                        assert(decreases_to!(*old(l) => old(l).dims));
                        assert(decreases_to!(old(l).dims => old(l).dims@));
                        assert(decreases_to!(old(l).dims@ => old(l).dims@[i as int]));
                    }
                }
                self.visit_expr(&mut l.dims[i]);
                i = i + 1;
            }
        }
    }

    fn visit_initval(&mut self, e: &mut InitVal)
        ensures
            keeps(*old(self), *final(self)),
            final(self)@ == old(self)@,
            initval_folded(*old(e), *final(e), old(self)@),
        decreases *old(e),
    {
        match e {
            InitVal::Expr(exp) => self.visit_expr(exp),
            InitVal::List(list) => {
            let ghost l0 = list@;
            let n = list.len();
            let mut i: usize = 0;
            while i < n
                invariant
                    n == list@.len(),
                    i <= n,
                    self.inv(),
                    keeps(*old(self), *self),
                    forall|j: int| i <= j < n ==> list@[j] == l0[j],
                    l0 == old(e)->List_0@,
                    l0.len() == n,
                    *old(e) is List,
                    self@ == old(self)@,
                decreases n - i,
            {
                proof {
                    assert(decreases_to!(*old(e) => old(e)->List_0@[i as int])) by {
                        assert(decreases_to!(*old(e) => old(e)->List_0));
                        assert(decreases_to!(old(e)->List_0 => old(e)->List_0@));
                        assert(decreases_to!(old(e)->List_0@ => old(e)->List_0@[i as int]));
                    }
                }
                self.visit_initval(&mut list[i]);
                i = i + 1;
            }
            },
        }
    }
}

} // verus!
