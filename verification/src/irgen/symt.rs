use vstd::prelude::*;

use crate::codegen::context::str_eq;
use koopa::ir::Value;

verus! {

/// A handle of a value of the intermediate representation.
#[verifier::external_type_specification]
#[verifier::external_body]
pub struct ExValue(Value);

/// What a name stands for while the intermediate representation is built.
#[derive(Debug, Clone, Copy)]
pub enum Symbol {
    /// a constant and its value
    ConstVar(i32),
    /// a variable: where it is allocated, and whether it has been given a value
    Var { val: Value, init: bool },
}

/// Why a lookup or a declaration failed; each carries the name concerned.
#[derive(Debug)]
pub enum SymbolError {
    /// no visible scope declares the name
    NotDefined(String),
    /// the name is declared, but not as the kind of symbol asked for
    WrongKind(String),
    /// the current scope declares the name already
    Duplicate(String),
}

/// A scope and the scope that encloses it.
#[derive(Debug, Clone)]
pub struct SymbolTableNode {
    pub children: Vec<usize>,
    pub parent: Option<usize>,
}

impl SymbolTableNode {
    pub fn new() -> (r: Self)
        ensures
            r.children@.len() == 0,
            r.parent is None,
    {
        Self { children: Vec::new(), parent: None }
    }

    pub fn new_as_child(parent_id: usize) -> (r: Self)
        ensures
            r.children@.len() == 0,
            r.parent == Some(parent_id),
    {
        Self { children: Vec::new(), parent: Some(parent_id) }
    }
}

/// The scopes of a program, as a tree whose nodes are numbered in the order
/// in which they were opened; the names of each scope with their symbols.
#[derive(Debug)]
pub struct SymbolTable<'input> {
    global_node_id: usize,
    current_node_id: usize,
    nodes: Vec<SymbolTableNode>,
    data: Vec<Vec<(&'input str, Symbol)>>,
}

/// The symbol of the last entry of `scope` for `k`.
pub open spec fn scope_symbol(scope: Seq<(&str, Symbol)>, k: Seq<char>) -> Option<Symbol>
    decreases scope.len(),
{
    if scope.len() == 0 {
        None
    } else if scope.last().0@ == k {
        Some(scope.last().1)
    } else {
        scope_symbol(scope.drop_last(), k)
    }
}

impl<'input> SymbolTable<'input> {
    /// The scopes are a tree whose every node comes after its parent, and the
    /// current scope is one of them.
    pub closed spec fn wf(&self) -> bool {
        &&& self.nodes@.len() == self.data@.len()
        &&& self.current_node_id < self.nodes@.len()
        &&& forall|i: int|
            0 <= i < self.nodes@.len() ==> match (#[trigger] self.nodes@[i]).parent {
                Some(p) => p < i,
                None => true,
            }
    }

    /// The number of the current scope.
    pub closed spec fn current(&self) -> int {
        self.current_node_id as int
    }

    /// The scope that encloses scope `id`.
    pub closed spec fn parent_of(&self, id: int) -> Option<usize> {
        self.nodes@[id].parent
    }

    /// The number of scopes opened so far.
    pub closed spec fn num_scopes(&self) -> nat {
        self.nodes@.len()
    }

    /// The symbol that scope `id` itself gives `k`.
    pub closed spec fn declared_in(&self, id: int, k: Seq<char>) -> Option<Symbol> {
        scope_symbol(self.data@[id]@, k)
    }

    /// The symbol of `k` seen from scope `id`: its own, else the one seen
    /// from the enclosing scope.
    pub closed spec fn lookup_from(&self, id: int, k: Seq<char>) -> Option<Symbol>
        decreases id,
    {
        if !(0 <= id < self.nodes@.len()) {
            None
        } else {
            match scope_symbol(self.data@[id]@, k) {
                Some(s) => Some(s),
                None => match self.nodes@[id].parent {
                    Some(p) => if p < id {
                        self.lookup_from(p as int, k)
                    } else {
                        None
                    },
                    None => None,
                },
            }
        }
    }

    /// The scope, from scope `id` outwards, whose declaration of `k` is seen.
    pub closed spec fn found_in(&self, id: int, k: Seq<char>) -> Option<int>
        decreases id,
    {
        if !(0 <= id < self.nodes@.len()) {
            None
        } else {
            match scope_symbol(self.data@[id]@, k) {
                Some(_) => Some(id),
                None => match self.nodes@[id].parent {
                    Some(p) => if p < id {
                        self.found_in(p as int, k)
                    } else {
                        None
                    },
                    None => None,
                },
            }
        }
    }

    /// The symbol of `k` seen from the current scope.
    pub open spec fn lookup(&self, k: Seq<char>) -> Option<Symbol> {
        self.lookup_from(self.current(), k)
    }

    pub fn new() -> (r: Self)
        ensures
            r.wf(),
            r.current() == 1,
            r.num_scopes() == 2,
            r.parent_of(1) is None,
            forall|k: Seq<char>| r.lookup(k) is None,
    {
        let r = Self {
            global_node_id: 0,
            current_node_id: 1,
            nodes: vec![SymbolTableNode::new(), SymbolTableNode::new()],
            data: vec![Vec::new(), Vec::new()],
        };
        proof {
            assert forall|k: Seq<char>| r.lookup(k) is None by {
                assert(r.data@[1]@.len() == 0);
            }
        }
        r
    }

    /// Opens a new scope inside the current one.
    pub fn enter_scope(&mut self)
        requires
            old(self).wf(),
            old(self).num_scopes() < usize::MAX,
        ensures
            final(self).wf(),
            final(self).num_scopes() == old(self).num_scopes() + 1,
            final(self).current() == old(self).num_scopes(),
            final(self).parent_of(final(self).current()) == Some(old(self).current() as usize),
            forall|k: Seq<char>| #[trigger] final(self).lookup(k) == old(self).lookup(k),
            forall|id: int, k: Seq<char>|
                0 <= id < old(self).num_scopes() ==> #[trigger] final(self).lookup_from(id, k) == old(self).lookup_from(id, k),
            forall|id: int| 0 <= id < old(self).num_scopes() ==> #[trigger] final(self).parent_of(id) == old(self).parent_of(id),
    {
        let id = self.allocate_id();
        let cur = self.current_node_id;
        let node = &mut self.nodes[cur];
        node.children.push(id);
        self.nodes.push(SymbolTableNode::new_as_child(cur));
        self.data.push(Vec::new());
        self.current_node_id = id;
        proof {
            let o = old(self);
            assert forall|i: int| 0 <= i < o.nodes@.len() implies #[trigger] self.nodes@[i].parent == o.nodes@[i].parent by {
            }
            assert forall|i: int| 0 <= i < o.data@.len() implies #[trigger] self.data@[i] == o.data@[i] by {}
            assert forall|id2: int, k: Seq<char>| 0 <= id2 < o.nodes@.len() implies #[trigger] self.lookup_from(id2, k)
                == o.lookup_from(id2, k) by {
                lemma_lookup_frame(*o, *self, id2, k);
            }
            assert forall|k: Seq<char>| #[trigger] self.lookup(k) == o.lookup(k) by {
                assert(self.data@[id as int]@.len() == 0);
                assert(self.lookup_from(id as int, k) == self.lookup_from(cur as int, k));
                lemma_lookup_frame(*o, *self, cur as int, k);
            }
        }
    }

    /// Returns to the scope that encloses the current one.
    pub fn exit_scope(&mut self)
        requires
            old(self).wf(),
            old(self).parent_of(old(self).current()) is Some,
        ensures
            final(self).wf(),
            final(self).current() == old(self).parent_of(old(self).current())->0,
            final(self).num_scopes() == old(self).num_scopes(),
            forall|id: int, k: Seq<char>| #[trigger] final(self).lookup_from(id, k) == old(self).lookup_from(id, k),
            forall|id: int| #[trigger] final(self).parent_of(id) == old(self).parent_of(id),
    {
        let p = self.nodes[self.current_node_id].parent.unwrap();
        self.current_node_id = p;
        proof {
            assert(self.nodes@[old(self).current_node_id as int].parent == Some(p));
            assert forall|id: int, k: Seq<char>| #[trigger] self.lookup_from(id, k) == old(self).lookup_from(id, k) by {
                if 0 <= id < self.nodes@.len() {
                    lemma_lookup_frame(*old(self), *self, id, k);
                }
            }
        }
    }

    fn allocate_id(&self) -> (r: usize)
        ensures
            r == self.data@.len(),
    {
        self.data.len()
    }

    /// Finds the scope, from the current one outwards, that declares `name`,
    /// and the position of the declaration in it.
    fn find(&self, name: &str) -> (r: Option<(usize, usize)>)
        requires
            self.wf(),
        ensures
            match r {
                Some((id, j)) => {
                    &&& id < self.data@.len()
                    &&& j < self.data@[id as int]@.len()
                    &&& self.data@[id as int]@[j as int].0@ == name@
                    &&& self.lookup(name@) == Some(self.data@[id as int]@[j as int].1)
                    &&& scope_symbol(self.data@[id as int]@, name@) == Some(self.data@[id as int]@[j as int].1)
                    &&& self.found_in(self.current(), name@) == Some(id as int)
                    &&& forall|q: int| j < q < self.data@[id as int]@.len() ==> (#[trigger] self.data@[id as int]@[q]).0@ != name@
                },
                None => self.lookup(name@) is None,
            },
    {
        let mut id = self.current_node_id;
        loop
            invariant
                self.wf(),
                id < self.nodes@.len(),
                self.lookup(name@) == self.lookup_from(id as int, name@),
                self.found_in(self.current(), name@) == self.found_in(id as int, name@),
            decreases id,
        {
            match scope_find(&self.data[id], name) {
                Some(j) => {
                    return Some((id, j));
                },
                None => {},
            }
            match self.nodes[id].parent {
                Some(i) => {
                    proof {
                        assert(self.nodes@[id as int].parent == Some(i));
                    }
                    id = i;
                },
                None => {
                    return None;
                },
            }
        }
    }

    /// The symbol of `name` seen from the current scope.
    pub fn get(&self, name: &str) -> (r: Result<&Symbol, SymbolError>)
        requires
            self.wf(),
        ensures
            match r {
                Ok(s) => self.lookup(name@) == Some(*s),
                Err(e) => self.lookup(name@) is None && (e matches SymbolError::NotDefined(n) && n@ == name@),
            },
    {
        match self.find(name) {
            Some((id, j)) => Ok(&self.data[id][j].1),
            None => Err(SymbolError::NotDefined(name.to_owned())),
        }
    }

    /// The allocation of the variable `name`.
    pub fn get_from_var(&self, name: &str) -> (r: Result<Value, SymbolError>)
        requires
            self.wf(),
        ensures
            match self.lookup(name@) {
                Some(Symbol::Var { val, .. }) => r == Ok::<Value, SymbolError>(val),
                Some(Symbol::ConstVar(_)) => r matches Err(SymbolError::WrongKind(n)) && n@ == name@,
                None => r matches Err(SymbolError::NotDefined(n)) && n@ == name@,
            },
    {
        match self.get(name) {
            Ok(Symbol::Var { val, .. }) => Ok(*val),
            Ok(Symbol::ConstVar(_)) => Err(SymbolError::WrongKind(name.to_owned())),
            Err(e) => Err(e),
        }
    }

    /// The value of the constant `name`.
    pub fn get_from_const_var(&self, name: &str) -> (r: Result<i32, SymbolError>)
        requires
            self.wf(),
        ensures
            match self.lookup(name@) {
                Some(Symbol::ConstVar(i)) => r == Ok::<i32, SymbolError>(i),
                Some(Symbol::Var { .. }) => r matches Err(SymbolError::WrongKind(n)) && n@ == name@,
                None => r matches Err(SymbolError::NotDefined(n)) && n@ == name@,
            },
    {
        match self.get(name) {
            Ok(Symbol::ConstVar(i)) => Ok(*i),
            Ok(Symbol::Var { .. }) => Err(SymbolError::WrongKind(name.to_owned())),
            Err(e) => Err(e),
        }
    }

    /// Declares the variable `name` in the current scope.
    pub fn insert_var(&mut self, name: &'input str, val: Value, init: bool) -> (r: Result<(), SymbolError>)
        requires
            old(self).wf(),
        ensures
            final(self).wf(),
            final(self).current() == old(self).current(),
            final(self).num_scopes() == old(self).num_scopes(),
            final(self).declared_in(final(self).current(), name@) == Some(Symbol::Var { val, init }),
            final(self).lookup(name@) == Some(Symbol::Var { val, init }),
            r is Ok <==> old(self).declared_in(old(self).current(), name@) is None,
            r is Err ==> (r matches Err(SymbolError::Duplicate(n)) && n@ == name@),
            forall|id: int, k: Seq<char>|
                0 <= id < old(self).num_scopes() && (id != old(self).current() || k != name@) ==> #[trigger] final(self).declared_in(id, k) == old(
                    self,
                ).declared_in(id, k),
            forall|id: int| #[trigger] final(self).parent_of(id) == old(self).parent_of(id),
    {
        self.insert_symbol(name, Symbol::Var { val, init })
    }

    /// Declares the constant `name` in the current scope.
    pub fn insert_const_var(&mut self, name: &'input str, init: i32) -> (r: Result<(), SymbolError>)
        requires
            old(self).wf(),
        ensures
            final(self).wf(),
            final(self).current() == old(self).current(),
            final(self).num_scopes() == old(self).num_scopes(),
            final(self).declared_in(final(self).current(), name@) == Some(Symbol::ConstVar(init)),
            final(self).lookup(name@) == Some(Symbol::ConstVar(init)),
            r is Ok <==> old(self).declared_in(old(self).current(), name@) is None,
            r is Err ==> (r matches Err(SymbolError::Duplicate(n)) && n@ == name@),
            forall|id: int, k: Seq<char>|
                0 <= id < old(self).num_scopes() && (id != old(self).current() || k != name@) ==> #[trigger] final(self).declared_in(id, k) == old(
                    self,
                ).declared_in(id, k),
            forall|id: int| #[trigger] final(self).parent_of(id) == old(self).parent_of(id),
    {
        self.insert_symbol(name, Symbol::ConstVar(init))
    }

    /// Gives `name` the symbol `sym` in the current scope; a second
    /// declaration replaces the first and is reported.
    fn insert_symbol(&mut self, name: &'input str, sym: Symbol) -> (r: Result<(), SymbolError>)
        requires
            old(self).wf(),
        ensures
            final(self).wf(),
            final(self).current() == old(self).current(),
            final(self).num_scopes() == old(self).num_scopes(),
            final(self).declared_in(final(self).current(), name@) == Some(sym),
            final(self).lookup(name@) == Some(sym),
            r is Ok <==> old(self).declared_in(old(self).current(), name@) is None,
            r is Err ==> (r matches Err(SymbolError::Duplicate(n)) && n@ == name@),
            forall|id: int, k: Seq<char>|
                0 <= id < old(self).num_scopes() && (id != old(self).current() || k != name@) ==> #[trigger] final(self).declared_in(id, k) == old(
                    self,
                ).declared_in(id, k),
            forall|id: int| #[trigger] final(self).parent_of(id) == old(self).parent_of(id),
    {
        let cur = self.current_node_id;
        let existed = scope_find(&self.data[cur], name).is_some();
        let scope = &mut self.data[cur];
        scope.push((name, sym));
        proof {
            let o = old(self).data@[cur as int]@;
            assert(self.data@[cur as int]@.drop_last() =~= o);
            assert forall|id: int, k: Seq<char>| 0 <= id < old(self).num_scopes() && (id != cur || k != name@) implies #[trigger] self.declared_in(id, k)
                == old(self).declared_in(id, k) by {
                if id == cur {
                    assert(self.data@[cur as int]@.last().0@ == name@);
                    assert(self.data@[cur as int]@.drop_last() =~= o);
                } else {
                    assert(self.data@[id] == old(self).data@[id]);
                }
            }
        }
        if existed {
            Err(SymbolError::Duplicate(name.to_owned()))
        } else {
            Ok(())
        }
    }

    /// Records that the variable `name` has been given a value.
    pub fn initialize(&mut self, name: &str) -> (r: Result<(), SymbolError>)
        requires
            old(self).wf(),
        ensures
            final(self).wf(),
            final(self).current() == old(self).current(),
            final(self).num_scopes() == old(self).num_scopes(),
            forall|id: int| #[trigger] final(self).parent_of(id) == old(self).parent_of(id),
            match old(self).lookup(name@) {
                Some(Symbol::Var { val, .. }) => r is Ok && final(self).lookup(name@) == Some(
                    Symbol::Var { val, init: true },
                ),
                Some(Symbol::ConstVar(_)) => (r matches Err(SymbolError::WrongKind(n)) && n@ == name@)
                    && final(self).lookup(name@) == old(self).lookup(name@),
                None => (r matches Err(SymbolError::NotDefined(n)) && n@ == name@)
                    && final(self).lookup(name@) == old(self).lookup(name@),
            },
    {
        match self.find(name) {
            Some((id, j)) => {
                let (key, sym) = self.data[id][j];
                match sym {
                    Symbol::Var { val, .. } => {
                        let scope = &mut self.data[id];
                        scope.set(j, (key, Symbol::Var { val, init: true }));
                        proof {
                            lemma_scope_set(old(self).data@[id as int]@, j as int, name@, Symbol::Var { val, init: true });
                            lemma_lookup_update(*old(self), *self, old(self).current(), id as int, name@, Symbol::Var { val, init: true });
                        }
                        Ok(())
                    },
                    Symbol::ConstVar(_) => Err(SymbolError::WrongKind(name.to_owned())),
                }
            },
            None => Err(SymbolError::NotDefined(name.to_owned())),
        }
    }

    /// The number of the current scope.
    pub fn current_id(&self) -> (r: i32)
        requires
            self.current() <= i32::MAX,
        ensures
            r == self.current(),
    {
        self.current_node_id as i32
    }
}

/// The position of the last entry for `name` in a scope.
fn scope_find(scope: &Vec<(&str, Symbol)>, name: &str) -> (r: Option<usize>)
    ensures
        match r {
            Some(j) => j < scope@.len() && scope@[j as int].0@ == name@ && scope_symbol(scope@, name@) == Some(
                scope@[j as int].1,
            ) && forall|q: int| j < q < scope@.len() ==> (#[trigger] scope@[q]).0@ != name@,
            None => scope_symbol(scope@, name@) is None,
        },
{
    let mut j = scope.len();
    proof {
        assert(scope@.subrange(0, j as int) =~= scope@);
    }
    while j > 0
        invariant
            j <= scope@.len(),
            scope_symbol(scope@, name@) == scope_symbol(scope@.subrange(0, j as int), name@),
            forall|q: int| j <= q < scope@.len() ==> (#[trigger] scope@[q]).0@ != name@,
        decreases j,
    {
        let ghost s = scope@.subrange(0, j as int);
        assert(s.last() == scope@[j - 1]);
        assert(s.drop_last() =~= scope@.subrange(0, j - 1));
        if str_eq(scope[j - 1].0, name) {
            return Some(j - 1);
        }
        j = j - 1;
    }
    None
}

/// Replacing the symbol of the last entry for `k` changes what the scope gives `k` only.
proof fn lemma_scope_set(scope: Seq<(&str, Symbol)>, j: int, k: Seq<char>, sym: Symbol)
    requires
        0 <= j < scope.len(),
        scope[j].0@ == k,
        forall|q: int| j < q < scope.len() ==> (#[trigger] scope[q]).0@ != k,
    ensures
        scope_symbol(scope.update(j, (scope[j].0, sym)), k) == Some(sym),
        forall|k2: Seq<char>| k2 != k ==> #[trigger] scope_symbol(scope.update(j, (scope[j].0, sym)), k2) == scope_symbol(scope, k2),
    decreases scope.len(),
{
    let s2 = scope.update(j, (scope[j].0, sym));
    if j < scope.len() - 1 {
        assert(scope.last().0@ != k);
        assert(s2.drop_last() =~= scope.drop_last().update(j, (scope[j].0, sym)));
        lemma_scope_set(scope.drop_last(), j, k, sym);
        assert forall|k2: Seq<char>| k2 != k implies #[trigger] scope_symbol(s2, k2) == scope_symbol(scope, k2) by {
            assert(s2.last() == scope.last());
            assert(scope_symbol(s2.drop_last(), k2) == scope_symbol(scope.drop_last(), k2));
        }
    } else {
        assert(s2.drop_last() =~= scope.drop_last());
    }
}

/// Lookups in two tables with the same tree and the same scopes below `n` agree there.
proof fn lemma_lookup_frame(a: SymbolTable, b: SymbolTable, id: int, k: Seq<char>)
    requires
        a.nodes@.len() <= b.nodes@.len(),
        0 <= id < a.nodes@.len(),
        forall|i: int| 0 <= i < a.nodes@.len() ==> #[trigger] b.nodes@[i].parent == a.nodes@[i].parent,
        forall|i: int| 0 <= i < a.nodes@.len() ==> #[trigger] b.data@[i] == a.data@[i],
    ensures
        b.lookup_from(id, k) == a.lookup_from(id, k),
    decreases id,
{
    match scope_symbol(a.data@[id]@, k) {
        Some(_) => {},
        None => match a.nodes@[id].parent {
            Some(p) => if p < id {
                lemma_lookup_frame(a, b, p as int, k);
            },
            None => {},
        },
    }
}

/// Changing what scope `id` gives `k`, where `k` is found from scope `from`
/// on, changes what `k` is seen as from `from` accordingly.
proof fn lemma_lookup_update(a: SymbolTable, b: SymbolTable, from: int, id: int, k: Seq<char>, sym: Symbol)
    requires
        a.nodes@ == b.nodes@,
        b.data@.len() == a.data@.len(),
        a.nodes@.len() == a.data@.len(),
        0 <= id < a.data@.len(),
        forall|i: int| 0 <= i < a.data@.len() && i != id ==> #[trigger] b.data@[i] == a.data@[i],
        scope_symbol(b.data@[id]@, k) == Some(sym),
        a.found_in(from, k) == Some(id),
    ensures
        b.lookup_from(from, k) == Some(sym),
    decreases from,
{
    if from != id {
        assert(0 <= from < a.data@.len());
        assert(b.data@[from] == a.data@[from]);
        match a.nodes@[from].parent {
            Some(p) => {
                if p < from {
                    lemma_lookup_update(a, b, p as int, id, k, sym);
                }
            },
            None => {},
        }
    }
}

} // verus!
