use vstd::prelude::*;

use super::exp::{BinaryExpr, Call, Expr, InitVal, LVal, UnaryExpr};
use super::{
    Assign, Block, BlockItem, Branch, Break, CompUnit, ConstDecl, Continue, Decl, FuncDef,
    FuncParam, GlobalItem, Return, Stmt, VarDecl, While,
};

verus! {

/// A pass over the syntax tree that may rewrite the nodes it visits.
/// Each `walk_` function visits the children of a node in order, and states
/// what it did through the relations that the visitor gives for each kind
/// of node.
pub trait MutVisitor: Sized {
    /// What the visitor keeps true of itself from one visit to the next.
    spec fn inv(&self) -> bool;

    /// What a visit of the compilation unit `n` does: the visitor goes from
    /// `self` to `after`, and the unit becomes `n2`.
    spec fn comp_unit_visited(&self, n: CompUnit, after: Self, n2: CompUnit) -> bool;

    /// What a visit of the node `n` does: the visitor goes from `self` to
    /// `after`, and the node becomes `n2`.
    spec fn global_item_visited(&self, n: GlobalItem, after: Self, n2: GlobalItem) -> bool;

    /// What a visit of the node `n` does: the visitor goes from `self` to
    /// `after`, and the node becomes `n2`.
    spec fn decl_visited(&self, n: Decl, after: Self, n2: Decl) -> bool;

    /// What a visit of the node `n` does: the visitor goes from `self` to
    /// `after`, and the node becomes `n2`.
    spec fn var_decl_visited(&self, n: VarDecl, after: Self, n2: VarDecl) -> bool;

    /// What a visit of the node `n` does: the visitor goes from `self` to
    /// `after`, and the node becomes `n2`.
    spec fn const_decl_visited(&self, n: ConstDecl, after: Self, n2: ConstDecl) -> bool;

    /// What a visit of the node `n` does: the visitor goes from `self` to
    /// `after`, and the node becomes `n2`.
    spec fn func_def_visited(&self, n: FuncDef, after: Self, n2: FuncDef) -> bool;

    /// What a visit of the node `n` does: the visitor goes from `self` to
    /// `after`, and the node becomes `n2`.
    spec fn func_param_visited(&self, n: FuncParam, after: Self, n2: FuncParam) -> bool;

    /// What a visit of the node `n` does: the visitor goes from `self` to
    /// `after`, and the node becomes `n2`.
    spec fn block_visited(&self, n: Block, after: Self, n2: Block) -> bool;

    /// What a visit of the node `n` does: the visitor goes from `self` to
    /// `after`, and the node becomes `n2`.
    spec fn block_item_visited(&self, n: BlockItem, after: Self, n2: BlockItem) -> bool;

    /// What a visit of the node `n` does: the visitor goes from `self` to
    /// `after`, and the node becomes `n2`.
    spec fn stmt_visited(&self, n: Stmt, after: Self, n2: Stmt) -> bool;

    /// What a visit of the node `n` does: the visitor goes from `self` to
    /// `after`, and the node becomes `n2`.
    spec fn assign_visited(&self, n: Assign, after: Self, n2: Assign) -> bool;

    /// What a visit of the node `n` does: the visitor goes from `self` to
    /// `after`, and the node becomes `n2`.
    spec fn branch_visited(&self, n: Branch, after: Self, n2: Branch) -> bool;

    /// What a visit of the node `n` does: the visitor goes from `self` to
    /// `after`, and the node becomes `n2`.
    spec fn break_visited(&self, n: Break, after: Self, n2: Break) -> bool;

    /// What a visit of the node `n` does: the visitor goes from `self` to
    /// `after`, and the node becomes `n2`.
    spec fn continue_visited(&self, n: Continue, after: Self, n2: Continue) -> bool;

    /// What a visit of the node `n` does: the visitor goes from `self` to
    /// `after`, and the node becomes `n2`.
    spec fn while_visited(&self, n: While, after: Self, n2: While) -> bool;

    /// What a visit of the node `n` does: the visitor goes from `self` to
    /// `after`, and the node becomes `n2`.
    spec fn return_visited(&self, n: Return, after: Self, n2: Return) -> bool;

    /// What a visit of the node `n` does: the visitor goes from `self` to
    /// `after`, and the node becomes `n2`.
    spec fn expr_visited(&self, n: Expr, after: Self, n2: Expr) -> bool;

    /// What a visit of the node `n` does: the visitor goes from `self` to
    /// `after`, and the node becomes `n2`.
    spec fn binary_expr_visited(&self, n: BinaryExpr, after: Self, n2: BinaryExpr) -> bool;

    /// What a visit of the node `n` does: the visitor goes from `self` to
    /// `after`, and the node becomes `n2`.
    spec fn unary_expr_visited(&self, n: UnaryExpr, after: Self, n2: UnaryExpr) -> bool;

    /// What a visit of the node `n` does: the visitor goes from `self` to
    /// `after`, and the node becomes `n2`.
    spec fn call_visited(&self, n: Call, after: Self, n2: Call) -> bool;

    /// What a visit of the node `n` does: the visitor goes from `self` to
    /// `after`, and the node becomes `n2`.
    spec fn lval_visited(&self, n: LVal, after: Self, n2: LVal) -> bool;

    /// What a visit of the node `n` does: the visitor goes from `self` to
    /// `after`, and the node becomes `n2`.
    spec fn initval_visited(&self, n: InitVal, after: Self, n2: InitVal) -> bool;

    fn visit_comp_unit(&mut self, c: &mut CompUnit)
        requires
            old(self).inv(),
        ensures
            final(self).inv(),
            old(self).comp_unit_visited(*old(c), *final(self), *final(c)),
    ;

    fn visit_global_item(&mut self, g: &mut GlobalItem)
        requires
            old(self).inv(),
        ensures
            final(self).inv(),
            old(self).global_item_visited(*old(g), *final(self), *final(g)),
    ;

    fn visit_decl(&mut self, d: &mut Decl)
        requires
            old(self).inv(),
        ensures
            final(self).inv(),
            old(self).decl_visited(*old(d), *final(self), *final(d)),
    ;

    fn visit_var_decl(&mut self, v: &mut VarDecl)
        requires
            old(self).inv(),
        ensures
            final(self).inv(),
            old(self).var_decl_visited(*old(v), *final(self), *final(v)),
    ;

    fn visit_const_decl(&mut self, c: &mut ConstDecl)
        requires
            old(self).inv(),
        ensures
            final(self).inv(),
            old(self).const_decl_visited(*old(c), *final(self), *final(c)),
    ;

    fn visit_func_def(&mut self, f: &mut FuncDef)
        requires
            old(self).inv(),
        ensures
            final(self).inv(),
            old(self).func_def_visited(*old(f), *final(self), *final(f)),
    ;

    fn visit_func_param(&mut self, f: &mut FuncParam)
        requires
            old(self).inv(),
        ensures
            final(self).inv(),
            old(self).func_param_visited(*old(f), *final(self), *final(f)),
    ;

    fn visit_block(&mut self, b: &mut Block)
        requires
            old(self).inv(),
        ensures
            final(self).inv(),
            old(self).block_visited(*old(b), *final(self), *final(b)),
    ;

    fn visit_block_item(&mut self, b: &mut BlockItem)
        requires
            old(self).inv(),
        ensures
            final(self).inv(),
            old(self).block_item_visited(*old(b), *final(self), *final(b)),
    ;

    fn visit_stmt(&mut self, s: &mut Stmt)
        requires
            old(self).inv(),
        ensures
            final(self).inv(),
            old(self).stmt_visited(*old(s), *final(self), *final(s)),
    ;

    fn visit_assign(&mut self, a: &mut Assign)
        requires
            old(self).inv(),
        ensures
            final(self).inv(),
            old(self).assign_visited(*old(a), *final(self), *final(a)),
    ;

    fn visit_branch(&mut self, b: &mut Branch)
        requires
            old(self).inv(),
        ensures
            final(self).inv(),
            old(self).branch_visited(*old(b), *final(self), *final(b)),
    ;

    fn visit_break(&mut self, b: &mut Break)
        requires
            old(self).inv(),
        ensures
            final(self).inv(),
            old(self).break_visited(*old(b), *final(self), *final(b)),
    ;

    fn visit_continue(&mut self, c: &mut Continue)
        requires
            old(self).inv(),
        ensures
            final(self).inv(),
            old(self).continue_visited(*old(c), *final(self), *final(c)),
    ;

    fn visit_while(&mut self, w: &mut While)
        requires
            old(self).inv(),
        ensures
            final(self).inv(),
            old(self).while_visited(*old(w), *final(self), *final(w)),
    ;

    fn visit_return(&mut self, r: &mut Return)
        requires
            old(self).inv(),
        ensures
            final(self).inv(),
            old(self).return_visited(*old(r), *final(self), *final(r)),
    ;

    fn visit_expr(&mut self, e: &mut Expr)
        requires
            old(self).inv(),
        ensures
            final(self).inv(),
            old(self).expr_visited(*old(e), *final(self), *final(e)),
    ;

    fn visit_binary_expr(&mut self, b: &mut BinaryExpr)
        requires
            old(self).inv(),
        ensures
            final(self).inv(),
            old(self).binary_expr_visited(*old(b), *final(self), *final(b)),
    ;

    fn visit_unary_expr(&mut self, u: &mut UnaryExpr)
        requires
            old(self).inv(),
        ensures
            final(self).inv(),
            old(self).unary_expr_visited(*old(u), *final(self), *final(u)),
    ;

    fn visit_call(&mut self, c: &mut Call)
        requires
            old(self).inv(),
        ensures
            final(self).inv(),
            old(self).call_visited(*old(c), *final(self), *final(c)),
    ;

    fn visit_lval(&mut self, l: &mut LVal)
        requires
            old(self).inv(),
        ensures
            final(self).inv(),
            old(self).lval_visited(*old(l), *final(self), *final(l)),
    ;

    fn visit_initval(&mut self, e: &mut InitVal)
        requires
            old(self).inv(),
        ensures
            final(self).inv(),
            old(self).initval_visited(*old(e), *final(self), *final(e)),
    ;
}

/// Whether the visitor went through the states `ss`, visiting each global
/// item of `before` in order and making it the one of `after`.
pub open spec fn global_items_visited<V: MutVisitor>(ss: Seq<V>, before: Seq<GlobalItem>, after: Seq<GlobalItem>) -> bool {
    &&& ss.len() == before.len() + 1
    &&& after.len() == before.len()
    &&& forall|i: int| 0 <= i < before.len() ==> #[trigger] ss[i].global_item_visited(before[i], ss[i + 1], after[i])
}

/// Whether the visitor went through the states `ss`, visiting each constant
/// declaration of `before` in order and making it the one of `after`.
pub open spec fn const_decls_visited<V: MutVisitor>(ss: Seq<V>, before: Seq<ConstDecl>, after: Seq<ConstDecl>) -> bool {
    &&& ss.len() == before.len() + 1
    &&& after.len() == before.len()
    &&& forall|i: int| 0 <= i < before.len() ==> #[trigger] ss[i].const_decl_visited(before[i], ss[i + 1], after[i])
}

/// Whether the visitor went through the states `ss`, visiting each variable
/// declaration of `before` in order and making it the one of `after`.
pub open spec fn var_decls_visited<V: MutVisitor>(ss: Seq<V>, before: Seq<VarDecl>, after: Seq<VarDecl>) -> bool {
    &&& ss.len() == before.len() + 1
    &&& after.len() == before.len()
    &&& forall|i: int| 0 <= i < before.len() ==> #[trigger] ss[i].var_decl_visited(before[i], ss[i + 1], after[i])
}

/// Whether the visitor went through the states `ss`, visiting each
/// parameter of `before` in order and making it the one of `after`.
pub open spec fn func_params_visited<V: MutVisitor>(ss: Seq<V>, before: Seq<FuncParam>, after: Seq<FuncParam>) -> bool {
    &&& ss.len() == before.len() + 1
    &&& after.len() == before.len()
    &&& forall|i: int| 0 <= i < before.len() ==> #[trigger] ss[i].func_param_visited(before[i], ss[i + 1], after[i])
}

/// Whether the visitor went through the states `ss`, visiting each block
/// item of `before` in order and making it the one of `after`.
pub open spec fn block_items_visited<V: MutVisitor>(ss: Seq<V>, before: Seq<BlockItem>, after: Seq<BlockItem>) -> bool {
    &&& ss.len() == before.len() + 1
    &&& after.len() == before.len()
    &&& forall|i: int| 0 <= i < before.len() ==> #[trigger] ss[i].block_item_visited(before[i], ss[i + 1], after[i])
}

/// Whether the visitor went through the states `ss`, visiting each
/// expression of `before` in order and making it the one of `after`.
pub open spec fn exprs_visited<V: MutVisitor>(ss: Seq<V>, before: Seq<Expr>, after: Seq<Expr>) -> bool {
    &&& ss.len() == before.len() + 1
    &&& after.len() == before.len()
    &&& forall|i: int| 0 <= i < before.len() ==> #[trigger] ss[i].expr_visited(before[i], ss[i + 1], after[i])
}

/// Whether the visitor went through the states `ss`, visiting each
/// initializer of `before` in order and making it the one of `after`.
pub open spec fn initvals_visited<V: MutVisitor>(ss: Seq<V>, before: Seq<InitVal>, after: Seq<InitVal>) -> bool {
    &&& ss.len() == before.len() + 1
    &&& after.len() == before.len()
    &&& forall|i: int| 0 <= i < before.len() ==> #[trigger] ss[i].initval_visited(before[i], ss[i + 1], after[i])
}

/// Visits every global item in order.
pub fn walk_comp_unit<V: MutVisitor>(visitor: &mut V, comp_unit: &mut CompUnit)
    requires
        old(visitor).inv(),
    ensures
        final(visitor).inv(),
        exists|ss: Seq<V>|
            ss[0] == *old(visitor) && ss.last() == *final(visitor) && #[trigger] global_items_visited(
                ss,
                old(comp_unit).items@,
                final(comp_unit).items@,
            ),
{
    let ghost l0 = comp_unit.items@;
    let ghost mut ss: Seq<V> = seq![*visitor];
    let n = comp_unit.items.len();
    let mut i: usize = 0;
    while i < n
        invariant
            n == comp_unit.items@.len(),
            i <= n,
            visitor.inv(),
            l0 == old(comp_unit).items@,
            l0.len() == n,
            ss.len() == i + 1,
            ss[0] == *old(visitor),
            ss.last() == *visitor,
            forall|j: int| i <= j < n ==> comp_unit.items@[j] == l0[j],
            forall|j: int| 0 <= j < i ==> #[trigger] ss[j].global_item_visited(l0[j], ss[j + 1], comp_unit.items@[j]),
        decreases n - i,
    {
        visitor.visit_global_item(&mut comp_unit.items[i]);
        proof {
            ss = ss.push(*visitor);
        }
        i = i + 1;
    }
    assert(global_items_visited(ss, l0, comp_unit.items@));
}

/// Visits the declaration or the function definition.
pub fn walk_global_item<V: MutVisitor>(visitor: &mut V, global_item: &mut GlobalItem)
    requires
        old(visitor).inv(),
    ensures
        final(visitor).inv(),
        match (*old(global_item), *final(global_item)) {
            (GlobalItem::Decl(a), GlobalItem::Decl(b)) => old(visitor).decl_visited(a, *final(visitor), b),
            (GlobalItem::Func(a), GlobalItem::Func(b)) => old(visitor).func_def_visited(a, *final(visitor), b),
            _ => false,
        },
{
    match global_item {
        GlobalItem::Decl(decl) => visitor.visit_decl(decl),
        GlobalItem::Func(func) => visitor.visit_func_def(func),
    }
}

/// Visits every declared constant or variable in order.
pub fn walk_decl<V: MutVisitor>(visitor: &mut V, decl: &mut Decl)
    requires
        old(visitor).inv(),
    ensures
        final(visitor).inv(),
        (*final(decl) is ConstDecl) == (*old(decl) is ConstDecl),
        *old(decl) is ConstDecl ==> exists|ss: Seq<V>|
            #![trigger ss.len()]
            ss[0] == *old(visitor) && ss.last() == *final(visitor) && const_decls_visited(ss, old(decl)->ConstDecl_0@, final(decl)->ConstDecl_0@),
        *old(decl) is VarDecl ==> exists|ss: Seq<V>|
            #![trigger ss.len()]
            ss[0] == *old(visitor) && ss.last() == *final(visitor) && var_decls_visited(ss, old(decl)->VarDecl_0@, final(decl)->VarDecl_0@),
{
    match decl {
        Decl::ConstDecl(const_decl) => {
            let ghost l0 = const_decl@;
            let ghost mut ss: Seq<V> = seq![*visitor];
            let n = const_decl.len();
            let mut i: usize = 0;
            while i < n
                invariant
                    n == const_decl@.len(),
                    i <= n,
                    visitor.inv(),
                    l0.len() == n,
                    ss.len() == i + 1,
                    ss[0] == *old(visitor),
                    ss.last() == *visitor,
                    forall|j: int| i <= j < n ==> const_decl@[j] == l0[j],
                    l0 == old(decl)->ConstDecl_0@,
                    forall|j: int| 0 <= j < i ==> #[trigger] ss[j].const_decl_visited(l0[j], ss[j + 1], const_decl@[j]),
                decreases n - i,
            {
                visitor.visit_const_decl(&mut const_decl[i]);
                proof {
                    ss = ss.push(*visitor);
                }
                i = i + 1;
            }
            assert(const_decls_visited(ss, l0, const_decl@));
        },
        Decl::VarDecl(var_decl) => {
            let ghost l0 = var_decl@;
            let ghost mut ss: Seq<V> = seq![*visitor];
            let n = var_decl.len();
            let mut i: usize = 0;
            while i < n
                invariant
                    n == var_decl@.len(),
                    i <= n,
                    visitor.inv(),
                    l0.len() == n,
                    ss.len() == i + 1,
                    ss[0] == *old(visitor),
                    ss.last() == *visitor,
                    forall|j: int| i <= j < n ==> var_decl@[j] == l0[j],
                    l0 == old(decl)->VarDecl_0@,
                    forall|j: int| 0 <= j < i ==> #[trigger] ss[j].var_decl_visited(l0[j], ss[j + 1], var_decl@[j]),
                decreases n - i,
            {
                visitor.visit_var_decl(&mut var_decl[i]);
                proof {
                    ss = ss.push(*visitor);
                }
                i = i + 1;
            }
            assert(var_decls_visited(ss, l0, var_decl@));
        },
    }
}

/// Visits the initializer, if any, and then the declared name.
pub fn walk_var_decl<V: MutVisitor>(visitor: &mut V, var_decl: &mut VarDecl)
    requires
        old(visitor).inv(),
    ensures
        final(visitor).inv(),
        final(var_decl).kind == old(var_decl).kind,
        exists|s: V|
            #![trigger s.lval_visited(old(var_decl).lval, *final(visitor), final(var_decl).lval)]
            s.lval_visited(old(var_decl).lval, *final(visitor), final(var_decl).lval) && match (
                old(var_decl).init,
                final(var_decl).init,
            ) {
                (Some(a), Some(b)) => old(visitor).initval_visited(a, s, b),
                (None, None) => s == *old(visitor),
                _ => false,
            },
{
    if let Some(initval) = &mut var_decl.init {
        visitor.visit_initval(initval);
    }
    let ghost s = *visitor;
    visitor.visit_lval(&mut var_decl.lval);
    assert(s.lval_visited(old(var_decl).lval, *visitor, var_decl.lval));
}

/// Visits the initializer and then the declared name.
pub fn walk_const_decl<V: MutVisitor>(visitor: &mut V, const_decl: &mut ConstDecl)
    requires
        old(visitor).inv(),
    ensures
        final(visitor).inv(),
        final(const_decl).kind == old(const_decl).kind,
        exists|s: V|
            old(visitor).initval_visited(old(const_decl).init, s, final(const_decl).init) && #[trigger] s.lval_visited(
                old(const_decl).lval,
                *final(visitor),
                final(const_decl).lval,
            ),
{
    visitor.visit_initval(&mut const_decl.init);
    let ghost s = *visitor;
    visitor.visit_lval(&mut const_decl.lval);
    assert(s.lval_visited(old(const_decl).lval, *visitor, const_decl.lval));
}

/// Visits the parameters in order and then the body.
pub fn walk_func_def<V: MutVisitor>(visitor: &mut V, func_def: &mut FuncDef)
    requires
        old(visitor).inv(),
    ensures
        final(visitor).inv(),
        final(func_def).ret_kind == old(func_def).ret_kind,
        final(func_def).ident == old(func_def).ident,
        exists|ss: Seq<V>|
            ss[0] == *old(visitor) && #[trigger] func_params_visited(ss, old(func_def).params@, final(func_def).params@)
                && ss.last().block_visited(old(func_def).block, *final(visitor), final(func_def).block),
{
    let ghost l0 = func_def.params@;
    let ghost mut ss: Seq<V> = seq![*visitor];
    let n = func_def.params.len();
    let mut i: usize = 0;
    while i < n
        invariant
            n == func_def.params@.len(),
            i <= n,
            visitor.inv(),
            func_def.ret_kind == old(func_def).ret_kind,
            func_def.ident == old(func_def).ident,
            func_def.block == old(func_def).block,
            l0 == old(func_def).params@,
            l0.len() == n,
            ss.len() == i + 1,
            ss[0] == *old(visitor),
            ss.last() == *visitor,
            forall|j: int| i <= j < n ==> func_def.params@[j] == l0[j],
            forall|j: int| 0 <= j < i ==> #[trigger] ss[j].func_param_visited(l0[j], ss[j + 1], func_def.params@[j]),
        decreases n - i,
    {
        visitor.visit_func_param(&mut func_def.params[i]);
        proof {
            ss = ss.push(*visitor);
        }
        i = i + 1;
    }
    assert(func_params_visited(ss, l0, func_def.params@));
    visitor.visit_block(&mut func_def.block);
    assert(ss[0] == *old(visitor) && func_params_visited(ss, old(func_def).params@, func_def.params@)
        && ss.last().block_visited(old(func_def).block, *visitor, func_def.block));
}

/// Visits the dimensions of an array parameter in order.
pub fn walk_func_param<V: MutVisitor>(visitor: &mut V, func_param: &mut FuncParam)
    requires
        old(visitor).inv(),
    ensures
        final(visitor).inv(),
        final(func_param).kind == old(func_param).kind,
        final(func_param).ident == old(func_param).ident,
        exists|ss: Seq<V>|
            ss[0] == *old(visitor) && ss.last() == *final(visitor) && #[trigger] exprs_visited(
                ss,
                old(func_param).dims@,
                final(func_param).dims@,
            ),
{
    let ghost l0 = func_param.dims@;
    let ghost mut ss: Seq<V> = seq![*visitor];
    let n = func_param.dims.len();
    let mut i: usize = 0;
    while i < n
        invariant
            n == func_param.dims@.len(),
            i <= n,
            visitor.inv(),
            func_param.kind == old(func_param).kind,
            func_param.ident == old(func_param).ident,
            l0 == old(func_param).dims@,
            l0.len() == n,
            ss.len() == i + 1,
            ss[0] == *old(visitor),
            ss.last() == *visitor,
            forall|j: int| i <= j < n ==> func_param.dims@[j] == l0[j],
            forall|j: int| 0 <= j < i ==> #[trigger] ss[j].expr_visited(l0[j], ss[j + 1], func_param.dims@[j]),
        decreases n - i,
    {
        visitor.visit_expr(&mut func_param.dims[i]);
        proof {
            ss = ss.push(*visitor);
        }
        i = i + 1;
    }
    assert(exprs_visited(ss, l0, func_param.dims@));
}

/// Visits the items of the block in order.
pub fn walk_block<V: MutVisitor>(visitor: &mut V, block: &mut Block)
    requires
        old(visitor).inv(),
    ensures
        final(visitor).inv(),
        exists|ss: Seq<V>|
            ss[0] == *old(visitor) && ss.last() == *final(visitor) && #[trigger] block_items_visited(
                ss,
                old(block).items@,
                final(block).items@,
            ),
{
    let ghost l0 = block.items@;
    let ghost mut ss: Seq<V> = seq![*visitor];
    let n = block.items.len();
    let mut i: usize = 0;
    while i < n
        invariant
            n == block.items@.len(),
            i <= n,
            visitor.inv(),
            l0 == old(block).items@,
            l0.len() == n,
            ss.len() == i + 1,
            ss[0] == *old(visitor),
            ss.last() == *visitor,
            forall|j: int| i <= j < n ==> block.items@[j] == l0[j],
            forall|j: int| 0 <= j < i ==> #[trigger] ss[j].block_item_visited(l0[j], ss[j + 1], block.items@[j]),
        decreases n - i,
    {
        visitor.visit_block_item(&mut block.items[i]);
        proof {
            ss = ss.push(*visitor);
        }
        i = i + 1;
    }
    assert(block_items_visited(ss, l0, block.items@));
}

/// Visits the declaration or the statement.
pub fn walk_block_item<V: MutVisitor>(visitor: &mut V, block_item: &mut BlockItem)
    requires
        old(visitor).inv(),
    ensures
        final(visitor).inv(),
        match (*old(block_item), *final(block_item)) {
            (BlockItem::Decl(a), BlockItem::Decl(b)) => old(visitor).decl_visited(a, *final(visitor), b),
            (BlockItem::Stmt(a), BlockItem::Stmt(b)) => old(visitor).stmt_visited(a, *final(visitor), b),
            _ => false,
        },
{
    match block_item {
        BlockItem::Decl(decl) => visitor.visit_decl(decl),
        BlockItem::Stmt(stmt) => visitor.visit_stmt(stmt),
    }
}

/// Visits the statement according to its kind.
pub fn walk_stmt<V: MutVisitor>(visitor: &mut V, stmt: &mut Stmt)
    requires
        old(visitor).inv(),
    ensures
        final(visitor).inv(),
        match (*old(stmt), *final(stmt)) {
            (Stmt::Assign(a), Stmt::Assign(b)) => old(visitor).assign_visited(a, *final(visitor), b),
            (Stmt::Block(a), Stmt::Block(b)) => old(visitor).block_visited(a, *final(visitor), b),
            (Stmt::Branch(a), Stmt::Branch(b)) => old(visitor).branch_visited(a, *final(visitor), b),
            (Stmt::Break(a), Stmt::Break(b)) => old(visitor).break_visited(a, *final(visitor), b),
            (Stmt::Continue(a), Stmt::Continue(b)) => old(visitor).continue_visited(a, *final(visitor), b),
            (Stmt::Expr(Some(a)), Stmt::Expr(Some(b))) => old(visitor).expr_visited(a, *final(visitor), b),
            (Stmt::Expr(None), Stmt::Expr(None)) => *final(visitor) == *old(visitor),
            (Stmt::While(a), Stmt::While(b)) => old(visitor).while_visited(a, *final(visitor), b),
            (Stmt::Return(a), Stmt::Return(b)) => old(visitor).return_visited(a, *final(visitor), b),
            _ => false,
        },
{
    match stmt {
        Stmt::Assign(assign) => visitor.visit_assign(assign),
        Stmt::Block(block) => visitor.visit_block(block),
        Stmt::Branch(br) => visitor.visit_branch(br),
        Stmt::Expr(e) => {
            if let Some(e) = e {
                visitor.visit_expr(e);
            }
        },
        Stmt::Return(ret) => visitor.visit_return(ret),
        Stmt::While(w) => visitor.visit_while(w),
        Stmt::Break(b) => visitor.visit_break(b),
        Stmt::Continue(c) => visitor.visit_continue(c),
    }
}

/// Visits the assigned value and then the assigned place.
pub fn walk_assign<V: MutVisitor>(visitor: &mut V, assign: &mut Assign)
    requires
        old(visitor).inv(),
    ensures
        final(visitor).inv(),
        exists|s: V|
            old(visitor).expr_visited(old(assign).val, s, final(assign).val) && #[trigger] s.lval_visited(
                old(assign).lval,
                *final(visitor),
                final(assign).lval,
            ),
{
    visitor.visit_expr(&mut assign.val);
    let ghost s = *visitor;
    visitor.visit_lval(&mut assign.lval);
    assert(s.lval_visited(old(assign).lval, *visitor, assign.lval));
}

/// Visits the condition, the `if` branch and the `else` branch if any.
pub fn walk_branch<V: MutVisitor>(visitor: &mut V, branch: &mut Branch)
    requires
        old(visitor).inv(),
    ensures
        final(visitor).inv(),
        exists|s1: V, s2: V|
            #![trigger old(visitor).expr_visited(old(branch).cond, s1, final(branch).cond), s1.stmt_visited(*old(branch).if_stmt, s2, *final(branch).if_stmt)]
            old(visitor).expr_visited(old(branch).cond, s1, final(branch).cond) && s1.stmt_visited(
                *old(branch).if_stmt,
                s2,
                *final(branch).if_stmt,
            ) && match (old(branch).el_stmt, final(branch).el_stmt) {
                (Some(a), Some(b)) => s2.stmt_visited(*a, *final(visitor), *b),
                (None, None) => *final(visitor) == s2,
                _ => false,
            },
{
    visitor.visit_expr(&mut branch.cond);
    let ghost s1 = *visitor;
    visitor.visit_stmt(&mut branch.if_stmt);
    let ghost s2 = *visitor;
    if let Some(el_stmt) = &mut branch.el_stmt {
        visitor.visit_stmt(el_stmt);
    }
    assert(old(visitor).expr_visited(old(branch).cond, s1, branch.cond));
    assert(s1.stmt_visited(*old(branch).if_stmt, s2, *branch.if_stmt));
}

/// Visits the condition and then the body.
pub fn walk_while<V: MutVisitor>(visitor: &mut V, w: &mut While)
    requires
        old(visitor).inv(),
    ensures
        final(visitor).inv(),
        exists|s: V|
            old(visitor).expr_visited(old(w).cond, s, final(w).cond) && #[trigger] s.stmt_visited(
                *old(w).stmt,
                *final(visitor),
                *final(w).stmt,
            ),
{
    visitor.visit_expr(&mut w.cond);
    let ghost s = *visitor;
    visitor.visit_stmt(&mut w.stmt);
    assert(s.stmt_visited(*old(w).stmt, *visitor, *w.stmt));
}

/// Visits the returned value, if any.
pub fn walk_return<V: MutVisitor>(visitor: &mut V, ret: &mut Return)
    requires
        old(visitor).inv(),
    ensures
        final(visitor).inv(),
        match (old(ret).ret_val, final(ret).ret_val) {
            (Some(a), Some(b)) => old(visitor).expr_visited(a, *final(visitor), b),
            (None, None) => *final(visitor) == *old(visitor),
            _ => false,
        },
{
    if let Some(e) = &mut ret.ret_val {
        visitor.visit_expr(e);
    }
}

/// Visits the expression according to its kind; a constant has nothing to visit.
pub fn walk_expr<V: MutVisitor>(visitor: &mut V, exp: &mut Expr)
    requires
        old(visitor).inv(),
        !(*old(exp) is Error),
    ensures
        final(visitor).inv(),
        match (*old(exp), *final(exp)) {
            (Expr::Binary(a), Expr::Binary(b)) => old(visitor).binary_expr_visited(a, *final(visitor), b),
            (Expr::Unary(a), Expr::Unary(b)) => old(visitor).unary_expr_visited(a, *final(visitor), b),
            (Expr::LVal(a), Expr::LVal(b)) => old(visitor).lval_visited(a, *final(visitor), b),
            (Expr::Integer(a), Expr::Integer(b)) => a == b && *final(visitor) == *old(visitor),
            _ => false,
        },
{
    match exp {
        Expr::Binary(bxp) => visitor.visit_binary_expr(bxp),
        Expr::Unary(uxp) => visitor.visit_unary_expr(uxp),
        Expr::LVal(lval) => visitor.visit_lval(lval),
        Expr::Integer(_) => {},
        Expr::Error => {},
    }
}

/// Visits both operands, the left one first.
pub fn walk_binary_expr<V: MutVisitor>(visitor: &mut V, bxp: &mut BinaryExpr)
    requires
        old(visitor).inv(),
    ensures
        final(visitor).inv(),
        final(bxp).op == old(bxp).op,
        exists|s: V|
            old(visitor).expr_visited(*old(bxp).lhs, s, *final(bxp).lhs) && #[trigger] s.expr_visited(
                *old(bxp).rhs,
                *final(visitor),
                *final(bxp).rhs,
            ),
{
    visitor.visit_expr(&mut bxp.lhs);
    let ghost s = *visitor;
    visitor.visit_expr(&mut bxp.rhs);
    assert(s.expr_visited(*old(bxp).rhs, *visitor, *bxp.rhs));
}

/// Visits the operand or the call.
pub fn walk_unary_expr<V: MutVisitor>(visitor: &mut V, uxp: &mut UnaryExpr)
    requires
        old(visitor).inv(),
    ensures
        final(visitor).inv(),
        match (*old(uxp), *final(uxp)) {
            (UnaryExpr::Unary(o1, a), UnaryExpr::Unary(o2, b)) => o1 == o2 && old(visitor).expr_visited(
                *a,
                *final(visitor),
                *b,
            ),
            (UnaryExpr::Call(a), UnaryExpr::Call(b)) => old(visitor).call_visited(a, *final(visitor), b),
            _ => false,
        },
{
    match uxp {
        UnaryExpr::Unary(_, exp) => visitor.visit_expr(exp),
        UnaryExpr::Call(call) => visitor.visit_call(call),
    }
}

/// Visits the arguments in order.
pub fn walk_call<V: MutVisitor>(visitor: &mut V, call: &mut Call)
    requires
        old(visitor).inv(),
    ensures
        final(visitor).inv(),
        final(call).ident == old(call).ident,
        exists|ss: Seq<V>|
            ss[0] == *old(visitor) && ss.last() == *final(visitor) && #[trigger] exprs_visited(
                ss,
                old(call).args@,
                final(call).args@,
            ),
{
    let ghost l0 = call.args@;
    let ghost mut ss: Seq<V> = seq![*visitor];
    let n = call.args.len();
    let mut i: usize = 0;
    while i < n
        invariant
            n == call.args@.len(),
            i <= n,
            visitor.inv(),
            call.ident == old(call).ident,
            l0 == old(call).args@,
            l0.len() == n,
            ss.len() == i + 1,
            ss[0] == *old(visitor),
            ss.last() == *visitor,
            forall|j: int| i <= j < n ==> call.args@[j] == l0[j],
            forall|j: int| 0 <= j < i ==> #[trigger] ss[j].expr_visited(l0[j], ss[j + 1], call.args@[j]),
        decreases n - i,
    {
        visitor.visit_expr(&mut call.args[i]);
        proof {
            ss = ss.push(*visitor);
        }
        i = i + 1;
    }
    assert(exprs_visited(ss, l0, call.args@));
}

/// Visits the indices in order.
pub fn walk_lval<V: MutVisitor>(visitor: &mut V, lval: &mut LVal)
    requires
        old(visitor).inv(),
    ensures
        final(visitor).inv(),
        final(lval).ident == old(lval).ident,
        exists|ss: Seq<V>|
            ss[0] == *old(visitor) && ss.last() == *final(visitor) && #[trigger] exprs_visited(
                ss,
                old(lval).dims@,
                final(lval).dims@,
            ),
{
    let ghost l0 = lval.dims@;
    let ghost mut ss: Seq<V> = seq![*visitor];
    let n = lval.dims.len();
    let mut i: usize = 0;
    while i < n
        invariant
            n == lval.dims@.len(),
            i <= n,
            visitor.inv(),
            lval.ident == old(lval).ident,
            l0 == old(lval).dims@,
            l0.len() == n,
            ss.len() == i + 1,
            ss[0] == *old(visitor),
            ss.last() == *visitor,
            forall|j: int| i <= j < n ==> lval.dims@[j] == l0[j],
            forall|j: int| 0 <= j < i ==> #[trigger] ss[j].expr_visited(l0[j], ss[j + 1], lval.dims@[j]),
        decreases n - i,
    {
        visitor.visit_expr(&mut lval.dims[i]);
        proof {
            ss = ss.push(*visitor);
        }
        i = i + 1;
    }
    assert(exprs_visited(ss, l0, lval.dims@));
}

/// Visits the expression, or every initializer of the list in order.
pub fn walk_initval<V: MutVisitor>(visitor: &mut V, initval: &mut InitVal)
    requires
        old(visitor).inv(),
    ensures
        final(visitor).inv(),
        (*final(initval) is Expr) == (*old(initval) is Expr),
        *old(initval) is Expr ==> old(visitor).expr_visited(old(initval)->Expr_0, *final(visitor), final(initval)->Expr_0),
        *old(initval) is List ==> exists|ss: Seq<V>|
            #![trigger ss.len()]
            ss[0] == *old(visitor) && ss.last() == *final(visitor) && initvals_visited(ss, old(initval)->List_0@, final(initval)->List_0@),
{
    match initval {
        InitVal::Expr(exp) => visitor.visit_expr(exp),
        InitVal::List(init_list) => {
            let ghost l0 = init_list@;
            let ghost mut ss: Seq<V> = seq![*visitor];
            let n = init_list.len();
            let mut i: usize = 0;
            while i < n
                invariant
                    n == init_list@.len(),
                    i <= n,
                    visitor.inv(),
                    l0.len() == n,
                    ss.len() == i + 1,
                    ss[0] == *old(visitor),
                    ss.last() == *visitor,
                    forall|j: int| i <= j < n ==> init_list@[j] == l0[j],
                    l0 == old(initval)->List_0@,
                    forall|j: int| 0 <= j < i ==> #[trigger] ss[j].initval_visited(l0[j], ss[j + 1], init_list@[j]),
                decreases n - i,
            {
                visitor.visit_initval(&mut init_list[i]);
                proof {
                    ss = ss.push(*visitor);
                }
                i = i + 1;
            }
            assert(initvals_visited(ss, l0, init_list@));
        },
    }
}

} // verus!
