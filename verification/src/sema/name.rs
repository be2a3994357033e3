use vstd::prelude::*;

use crate::ast::exp::{BinaryExpr, Call, Expr, InitVal, LVal, UnaryExpr};
use crate::ast::visit::MutVisitor;
use crate::ast::{
    Assign, Block, BlockItem, Branch, Break, CompUnit, ConstDecl, Continue, Decl, FuncDef, FuncParam, GlobalItem,
    Return, Stmt, VarDecl, While,
};
use crate::codegen::context::str_eq;
use crate::decimal::{dec_nat, lemma_dec_nat_injective, lemma_dec_nat_shape, push_dec};

verus! {

/// Gives every declared name a unique spelling: a name that is already taken
/// gets the smallest free numeric suffix.
#[derive(Debug)]
pub struct NameManager {
    /// the scopes, outermost first: each maps a name to its suffix
    mapping: Vec<Vec<(String, u32)>>,
    /// every spelling handed out so far
    pool: Vec<String>,
    /// the first fault met by the renaming pass, if any
    pub error: Option<String>,
}

/// The spelling of `name` with suffix `s`; suffix 0 leaves the name alone.
pub open spec fn cand(name: Seq<char>, s: nat) -> Seq<char> {
    if s == 0 {
        name
    } else {
        name + dec_nat(s)
    }
}

/// The suffix of `k` in one scope.
pub open spec fn scope_get(scope: Seq<(String, u32)>, k: Seq<char>) -> Option<u32>
    decreases scope.len(),
{
    if scope.len() == 0 {
        None
    } else if scope.last().0@ == k {
        Some(scope.last().1)
    } else {
        scope_get(scope.drop_last(), k)
    }
}

/// The suffix of `k` in the innermost scope that declares it.
pub open spec fn scopes_get(ms: Seq<Vec<(String, u32)>>, k: Seq<char>) -> Option<u32>
    decreases ms.len(),
{
    if ms.len() == 0 {
        None
    } else {
        match scope_get(ms.last()@, k) {
            Some(s) => Some(s),
            None => scopes_get(ms.drop_last(), k),
        }
    }
}

/// Whether `x` occurs in `p`.
pub open spec fn pool_contains(p: Seq<String>, x: Seq<char>) -> bool {
    exists|i: int| 0 <= i < p.len() && #[trigger] p[i]@ == x
}

/// Whether `x` is the spelling of `k` with one of the suffixes `0..=s`.
pub open spec fn is_cand_upto(x: Seq<char>, k: Seq<char>, s: nat) -> bool {
    exists|j: nat| j <= s && #[trigger] cand(k, j) == x
}

/// The number of entries of `p` that spell `k` with one of the suffixes `0..=s`.
pub open spec fn count_cands(p: Seq<String>, k: Seq<char>, s: nat) -> nat
    decreases p.len(),
{
    if p.len() == 0 {
        0
    } else {
        count_cands(p.drop_last(), k, s) + if is_cand_upto(p.last()@, k, s) {
            1nat
        } else {
            0nat
        }
    }
}

/// Whether no spelling occurs twice in `p`.
pub open spec fn pool_unique(p: Seq<String>) -> bool {
    forall|i: int, j: int| 0 <= i < p.len() && 0 <= j < p.len() && i != j ==> p[i]@ != p[j]@
}

/// Different suffixes give different spellings.
pub proof fn lemma_cand_injective(k: Seq<char>, a: nat, b: nat)
    requires
        cand(k, a) == cand(k, b),
    ensures
        a == b,
{
    lemma_dec_nat_shape(a);
    lemma_dec_nat_shape(b);
    if a > 0 && b > 0 {
        assert(dec_nat(a) =~= cand(k, a).subrange(k.len() as int, cand(k, a).len() as int));
        assert(dec_nat(b) =~= cand(k, b).subrange(k.len() as int, cand(k, b).len() as int));
        lemma_dec_nat_injective(a, b);
    } else if a > 0 {
        assert(cand(k, a).len() > cand(k, b).len());
    } else if b > 0 {
        assert(cand(k, b).len() > cand(k, a).len());
    }
}

proof fn lemma_count_le_len(p: Seq<String>, k: Seq<char>, s: nat)
    ensures
        count_cands(p, k, s) <= p.len(),
    decreases p.len(),
{
    if p.len() > 0 {
        lemma_count_le_len(p.drop_last(), k, s);
    }
}

proof fn lemma_count_same_without(p: Seq<String>, k: Seq<char>, s: nat)
    requires
        !pool_contains(p, cand(k, s + 1)),
    ensures
        count_cands(p, k, s + 1) == count_cands(p, k, s),
    decreases p.len(),
{
    if p.len() > 0 {
        let q = p.drop_last();
        assert(!pool_contains(q, cand(k, s + 1))) by {
            if pool_contains(q, cand(k, s + 1)) {
                let i = choose|i: int| 0 <= i < q.len() && #[trigger] q[i]@ == cand(k, s + 1);
                assert(p[i]@ == cand(k, s + 1));
            }
        }
        lemma_count_same_without(q, k, s);
        let x = p.last()@;
        assert(x != cand(k, s + 1)) by {
            assert(p[p.len() - 1]@ == x);
        }
        if is_cand_upto(x, k, s + 1) {
            let j = choose|j: nat| j <= s + 1 && #[trigger] cand(k, j) == x;
            assert(j != s + 1);
            assert(is_cand_upto(x, k, s));
        }
        if is_cand_upto(x, k, s) {
            let j = choose|j: nat| j <= s && #[trigger] cand(k, j) == x;
            assert(is_cand_upto(x, k, s + 1));
        }
    }
}

proof fn lemma_count_step(p: Seq<String>, k: Seq<char>, s: nat)
    requires
        pool_unique(p),
        pool_contains(p, cand(k, s + 1)),
    ensures
        count_cands(p, k, s + 1) == count_cands(p, k, s) + 1,
    decreases p.len(),
{
    let q = p.drop_last();
    let x = p.last()@;
    assert(pool_unique(q));
    if x == cand(k, s + 1) {
        assert(!pool_contains(q, cand(k, s + 1))) by {
            if pool_contains(q, cand(k, s + 1)) {
                let i = choose|i: int| 0 <= i < q.len() && #[trigger] q[i]@ == cand(k, s + 1);
                assert(p[i]@ == p[p.len() - 1]@);
            }
        }
        lemma_count_same_without(q, k, s);
        assert(is_cand_upto(x, k, s + 1));
        if is_cand_upto(x, k, s) {
            let j = choose|j: nat| j <= s && #[trigger] cand(k, j) == x;
            lemma_cand_injective(k, j, s + 1);
        }
    } else {
        assert(pool_contains(q, cand(k, s + 1))) by {
            let i = choose|i: int| 0 <= i < p.len() && #[trigger] p[i]@ == cand(k, s + 1);
            assert(i != p.len() - 1);
            assert(q[i]@ == cand(k, s + 1));
        }
        lemma_count_step(q, k, s);
        if is_cand_upto(x, k, s + 1) {
            let j = choose|j: nat| j <= s + 1 && #[trigger] cand(k, j) == x;
            assert(j != s + 1);
            assert(is_cand_upto(x, k, s));
        }
        if is_cand_upto(x, k, s) {
            let j = choose|j: nat| j <= s && #[trigger] cand(k, j) == x;
            assert(is_cand_upto(x, k, s + 1));
        }
    }
}

proof fn lemma_count_zero(p: Seq<String>, k: Seq<char>)
    requires
        pool_unique(p),
        pool_contains(p, k),
    ensures
        count_cands(p, k, 0) == 1,
    decreases p.len(),
{
    let q = p.drop_last();
    let x = p.last()@;
    assert(pool_unique(q));
    assert(is_cand_upto(x, k, 0) == (x == k)) by {
        if is_cand_upto(x, k, 0) {
            let j = choose|j: nat| j <= 0 && #[trigger] cand(k, j) == x;
        }
        if x == k {
            assert(cand(k, 0) == x);
        }
    }
    if x == k {
        assert(count_cands(q, k, 0) == 0) by {
            lemma_count_none(q, k);
        }
    } else {
        assert(pool_contains(q, k)) by {
            let i = choose|i: int| 0 <= i < p.len() && #[trigger] p[i]@ == k;
            assert(i != p.len() - 1);
            assert(q[i]@ == k);
        }
        lemma_count_zero(q, k);
    }
}

proof fn lemma_count_none(p: Seq<String>, k: Seq<char>)
    requires
        forall|i: int| 0 <= i < p.len() ==> p[i]@ != k,
    ensures
        count_cands(p, k, 0) == 0,
    decreases p.len(),
{
    if p.len() > 0 {
        lemma_count_none(p.drop_last(), k);
        if is_cand_upto(p.last()@, k, 0) {
            let j = choose|j: nat| j <= 0 && #[trigger] cand(k, j) == p.last()@;
            assert(p[p.len() - 1]@ == k);
        }
    }
}

/// All the spellings `cand(k, 0..=s)` are in a pool without repetitions: so `s` is below its size.
proof fn lemma_suffix_below_pool(p: Seq<String>, k: Seq<char>, s: nat)
    requires
        pool_unique(p),
        forall|j: nat| j <= s ==> pool_contains(p, #[trigger] cand(k, j)),
    ensures
        count_cands(p, k, s) == s + 1,
        s + 1 <= p.len(),
    decreases s,
{
    if s == 0 {
        assert(pool_contains(p, cand(k, 0)));
        lemma_count_zero(p, k);
    } else {
        lemma_suffix_below_pool(p, k, (s - 1) as nat);
        assert(pool_contains(p, cand(k, s)));
        lemma_count_step(p, k, (s - 1) as nat);
    }
    lemma_count_le_len(p, k, s);
}

impl NameManager {
    /// The open scopes, outermost first: each lists the names it declares
    /// with their suffixes.
    pub closed spec fn scopes(self) -> Seq<Vec<(String, u32)>> {
        self.mapping@
    }

    /// The number of open scopes.
    pub closed spec fn depth(self) -> nat {
        self.mapping@.len()
    }

    /// The suffix of `k` in the innermost open scope that declares it.
    pub closed spec fn suffix_of(self, k: Seq<char>) -> Option<u32> {
        scopes_get(self.mapping@, k)
    }

    /// Whether the innermost scope declares `k`.
    pub closed spec fn declared_here(self, k: Seq<char>) -> bool {
        self.mapping@.len() > 0 && scope_get(self.mapping@.last()@, k) is Some
    }

    /// Whether the spelling `x` has been handed out.
    pub closed spec fn taken(self, x: Seq<char>) -> bool {
        pool_contains(self.pool@, x)
    }

    /// The number of spellings handed out.
    pub closed spec fn num_taken(self) -> nat {
        self.pool@.len()
    }

    /// Whether `self` has the open scopes of `o`, each declaring what it did.
    pub closed spec fn same_scopes(self, o: NameManager) -> bool {
        self.mapping@ == o.mapping@
    }

    /// Whether `self` has the open scopes of `o`, but for what the innermost declares.
    pub closed spec fn same_outer_scopes(self, o: NameManager) -> bool {
        &&& self.mapping@.len() == o.mapping@.len()
        &&& self.mapping@.drop_last() == o.mapping@.drop_last()
    }

    /// Whether `self` has the open scopes of `o` and one more inside them.
    pub closed spec fn opened_scope(self, o: NameManager) -> bool {
        &&& self.mapping@.len() == o.mapping@.len() + 1
        &&& self.mapping@.drop_last() == o.mapping@
    }

    /// Whether `self` has the open scopes of `o` but its innermost.
    pub closed spec fn closed_scope(self, o: NameManager) -> bool {
        o.mapping@.len() > 0 ==> self.mapping@ == o.mapping@.drop_last()
    }

    /// Whether `self` keeps the fault of `o`, if `o` met one.
    pub open spec fn keeps_fault(self, o: NameManager) -> bool {
        o.fault() is Some ==> self.fault() == o.fault()
    }

    /// The invariant: every binding of every scope has its spelling, and all
    /// the smaller suffixes of its name, handed out; and each spelling once.
    pub closed spec fn wf(self) -> bool {
        &&& pool_unique(self.pool@)
        &&& forall|i: int, j: int|
            0 <= i < self.mapping@.len() && 0 <= j < self.mapping@[i]@.len() ==> forall|t: nat|
                t <= (#[trigger] self.mapping@[i]@[j]).1 ==> pool_contains(self.pool@, #[trigger] cand(self.mapping@[i]@[j].0@, t))
        &&& bindings_distinct(self.mapping@)
    }
}

/// The spelling that a binding gives its name.
pub open spec fn spelling(b: (String, u32)) -> Seq<char> {
    cand(b.0@, b.1 as nat)
}

/// Whether no two bindings of `ms`, in the same scope or not, share a spelling.
pub open spec fn bindings_distinct(ms: Seq<Vec<(String, u32)>>) -> bool {
    forall|i1: int, j1: int, i2: int, j2: int|
        0 <= i1 < ms.len() && 0 <= j1 < ms[i1]@.len() && 0 <= i2 < ms.len() && 0 <= j2 < ms[i2]@.len()
            && (i1 != i2 || j1 != j2) ==> spelling(#[trigger] ms[i1]@[j1]) != spelling(#[trigger] ms[i2]@[j2])
}

proof fn lemma_scope_get_some(scope: Seq<(String, u32)>, k: Seq<char>)
    requires
        scope_get(scope, k) is Some,
    ensures
        exists|j: int| 0 <= j < scope.len() && #[trigger] scope[j].0@ == k && scope[j].1 == scope_get(scope, k)->0,
    decreases scope.len(),
{
    if scope.last().0@ != k {
        lemma_scope_get_some(scope.drop_last(), k);
        let j = choose|j: int| 0 <= j < scope.len() - 1 && #[trigger] scope.drop_last()[j].0@ == k && scope.drop_last()[j].1 == scope_get(scope.drop_last(), k)->0;
        assert(scope[j].0@ == k);
    } else {
        assert(scope[scope.len() - 1].0@ == k);
    }
}

proof fn lemma_scopes_get_some(ms: Seq<Vec<(String, u32)>>, k: Seq<char>)
    requires
        scopes_get(ms, k) is Some,
    ensures
        exists|i: int, j: int| 0 <= i < ms.len() && 0 <= j < ms[i]@.len() && #[trigger] ms[i]@[j].0@ == k
            && ms[i]@[j].1 == scopes_get(ms, k)->0,
    decreases ms.len(),
{
    match scope_get(ms.last()@, k) {
        Some(s) => {
            lemma_scope_get_some(ms.last()@, k);
            let j = choose|j: int| 0 <= j < ms.last()@.len() && #[trigger] ms.last()@[j].0@ == k && ms.last()@[j].1 == s;
            assert(ms[ms.len() - 1]@[j].0@ == k);
        },
        None => {
            lemma_scopes_get_some(ms.drop_last(), k);
            let (i, j) = choose|i: int, j: int| 0 <= i < ms.len() - 1 && 0 <= j < ms.drop_last()[i]@.len()
                && #[trigger] ms.drop_last()[i]@[j].0@ == k && ms.drop_last()[i]@[j].1 == scopes_get(ms.drop_last(), k)->0;
            assert(ms[i]@[j].0@ == k);
        },
    }
}

impl NameManager {
    pub fn new() -> (r: Self)
        ensures
            r.wf(),
            r.depth() == 0,
            r.num_taken() == 0,
            forall|x: Seq<char>| !r.taken(x),
    {
        NameManager { mapping: Vec::new(), pool: Vec::new(), error: None }
    }

    /// Declares the functions of the runtime library in the innermost scope.
    pub fn install_lib(&mut self)
        requires
            old(self).wf(),
            old(self).depth() > 0,
            old(self).num_taken() + 8 < u32::MAX,
            forall|k: Seq<char>| is_lib_name(k) ==> !old(self).declared_here(k),
        ensures
            final(self).wf(),
            final(self).depth() == old(self).depth(),
            final(self).num_taken() == old(self).num_taken() + 8,
            forall|k: Seq<char>| is_lib_name(k) ==> #[trigger] final(self).declared_here(k),
            forall|k: Seq<char>| !is_lib_name(k) ==> #[trigger] final(self).suffix_of(k) == old(self).suffix_of(k),
            forall|k: Seq<char>| !is_lib_name(k) ==> #[trigger] final(self).declared_here(k) == old(self).declared_here(k),
            final(self).same_outer_scopes(*old(self)),
            final(self).fault() == old(self).fault(),
            (forall|k: Seq<char>| is_lib_name(k) ==> !old(self).taken(k)) ==> {
                &&& forall|k: Seq<char>| is_lib_name(k) ==> #[trigger] final(self).suffix_of(k) == Some(0u32)
                &&& forall|x: Seq<char>| #[trigger] final(self).taken(x) == (old(self).taken(x) || is_lib_name(x))
            },
    {
        let ghost fresh = forall|k: Seq<char>| is_lib_name(k) ==> !old(self).taken(k);
        proof {
            reveal_strlit("getint");
            reveal_strlit("getch");
            reveal_strlit("getarray");
            reveal_strlit("putint");
            reveal_strlit("putch");
            reveal_strlit("putarray");
            reveal_strlit("starttime");
            reveal_strlit("stoptime");
        }
        assert(!self.declared_here("getint"@)) by {
            assert(is_lib_name("getint"@));
        }
        assert(fresh ==> !self.taken("getint"@)) by {
            if fresh {
                assert(is_lib_name("getint"@));
            }
        }
        self.insert_name("getint");
        assert(fresh ==> self.suffix_of("getint"@) == Some(0u32));
        assert(!self.declared_here("getch"@)) by {
            assert(is_lib_name("getch"@));
            assert(!old(self).declared_here("getch"@));
            assert("getch"@ != "getint"@);
        }
        assert(fresh ==> !self.taken("getch"@)) by {
            if fresh {
                assert(is_lib_name("getch"@));
            }
        }
        self.insert_name("getch");
        assert(fresh ==> self.suffix_of("getch"@) == Some(0u32));
        assert(!self.declared_here("getarray"@)) by {
            assert(is_lib_name("getarray"@));
            assert(!old(self).declared_here("getarray"@));
            assert("getarray"@ != "getint"@);
            assert("getarray"@ != "getch"@);
        }
        assert(fresh ==> !self.taken("getarray"@)) by {
            if fresh {
                assert(is_lib_name("getarray"@));
            }
        }
        self.insert_name("getarray");
        assert(fresh ==> self.suffix_of("getarray"@) == Some(0u32));
        assert(!self.declared_here("putint"@)) by {
            assert(is_lib_name("putint"@));
            assert(!old(self).declared_here("putint"@));
            assert("putint"@[0] != "getint"@[0]);
            assert("putint"@ != "getint"@);
            assert("putint"@ != "getch"@);
            assert("putint"@ != "getarray"@);
        }
        assert(fresh ==> !self.taken("putint"@)) by {
            if fresh {
                assert(is_lib_name("putint"@));
            }
        }
        self.insert_name("putint");
        assert(fresh ==> self.suffix_of("putint"@) == Some(0u32));
        assert(!self.declared_here("putch"@)) by {
            assert(is_lib_name("putch"@));
            assert(!old(self).declared_here("putch"@));
            assert("putch"@ != "getint"@);
            assert("putch"@[0] != "getch"@[0]);
            assert("putch"@ != "getch"@);
            assert("putch"@ != "getarray"@);
            assert("putch"@ != "putint"@);
        }
        assert(fresh ==> !self.taken("putch"@)) by {
            if fresh {
                assert(is_lib_name("putch"@));
            }
        }
        self.insert_name("putch");
        assert(fresh ==> self.suffix_of("putch"@) == Some(0u32));
        assert(!self.declared_here("putarray"@)) by {
            assert(is_lib_name("putarray"@));
            assert(!old(self).declared_here("putarray"@));
            assert("putarray"@ != "getint"@);
            assert("putarray"@ != "getch"@);
            assert("putarray"@[0] != "getarray"@[0]);
            assert("putarray"@ != "getarray"@);
            assert("putarray"@ != "putint"@);
            assert("putarray"@ != "putch"@);
        }
        assert(fresh ==> !self.taken("putarray"@)) by {
            if fresh {
                assert(is_lib_name("putarray"@));
            }
        }
        self.insert_name("putarray");
        assert(fresh ==> self.suffix_of("putarray"@) == Some(0u32));
        assert(!self.declared_here("starttime"@)) by {
            assert(is_lib_name("starttime"@));
            assert(!old(self).declared_here("starttime"@));
            assert("starttime"@ != "getint"@);
            assert("starttime"@ != "getch"@);
            assert("starttime"@ != "getarray"@);
            assert("starttime"@ != "putint"@);
            assert("starttime"@ != "putch"@);
            assert("starttime"@ != "putarray"@);
        }
        assert(fresh ==> !self.taken("starttime"@)) by {
            if fresh {
                assert(is_lib_name("starttime"@));
            }
        }
        self.insert_name("starttime");
        assert(fresh ==> self.suffix_of("starttime"@) == Some(0u32));
        assert(!self.declared_here("stoptime"@)) by {
            assert(is_lib_name("stoptime"@));
            assert(!old(self).declared_here("stoptime"@));
            assert("stoptime"@ != "getint"@);
            assert("stoptime"@ != "getch"@);
            assert("stoptime"@[0] != "getarray"@[0]);
            assert("stoptime"@ != "getarray"@);
            assert("stoptime"@ != "putint"@);
            assert("stoptime"@ != "putch"@);
            assert("stoptime"@[0] != "putarray"@[0]);
            assert("stoptime"@ != "putarray"@);
            assert("stoptime"@ != "starttime"@);
        }
        assert(fresh ==> !self.taken("stoptime"@)) by {
            if fresh {
                assert(is_lib_name("stoptime"@));
            }
        }
        self.insert_name("stoptime");
        assert(fresh ==> self.suffix_of("stoptime"@) == Some(0u32));
    }

    pub fn enter_scope(&mut self)
        requires
            old(self).wf(),
        ensures
            final(self).wf(),
            final(self).depth() == old(self).depth() + 1,
            final(self).num_taken() == old(self).num_taken(),
            forall|x: Seq<char>| #[trigger] final(self).taken(x) == old(self).taken(x),
            forall|k: Seq<char>| #[trigger] final(self).suffix_of(k) == old(self).suffix_of(k),
            forall|k: Seq<char>| !#[trigger] final(self).declared_here(k),
            final(self).opened_scope(*old(self)),
            final(self).fault() == old(self).fault(),
    {
        self.mapping.push(Vec::new());
        proof {
            let m0 = old(self).mapping@;
            let m1 = self.mapping@;
            assert(m1.drop_last() =~= m0);
            assert forall|i: int| 0 <= i < m0.len() implies m1[i] == m0[i] by {}
            assert(m1[m0.len() as int]@.len() == 0);
            assert forall|k: Seq<char>| #[trigger] final(self).suffix_of(k) == old(self).suffix_of(k) by {
                assert(self.mapping@.drop_last() =~= old(self).mapping@);
            }
        }
    }

    pub fn exit_scope(&mut self)
        requires
            old(self).wf(),
        ensures
            final(self).wf(),
            final(self).depth() == if old(self).depth() > 0 { old(self).depth() - 1 } else { 0 },
            final(self).num_taken() == old(self).num_taken(),
            forall|x: Seq<char>| #[trigger] final(self).taken(x) == old(self).taken(x),
            final(self).closed_scope(*old(self)),
            old(self).depth() == 0 ==> final(self).same_scopes(*old(self)),
            final(self).fault() == old(self).fault(),
    {
        self.mapping.pop();
        proof {
            assert forall|i: int| 0 <= i < self.mapping@.len() implies self.mapping@[i] == old(self).mapping@[i] by {}
            assert forall|i: int, j: int|
                0 <= i < self.mapping@.len() && 0 <= j < self.mapping@[i]@.len() implies forall|t: nat|
                    t <= (#[trigger] self.mapping@[i]@[j]).1 ==> pool_contains(self.pool@, #[trigger] cand(self.mapping@[i]@[j].0@, t)) by {
                assert(self.mapping@[i] == old(self).mapping@[i]);
            }
        }
    }

    /// Whether the spelling `name` has been handed out.
    fn pool_has(&self, name: &str) -> (r: bool)
        ensures
            r == pool_contains(self.pool@, name@),
    {
        let mut i: usize = 0;
        while i < self.pool.len()
            invariant
                i <= self.pool@.len(),
                forall|j: int| 0 <= j < i ==> self.pool@[j]@ != name@,
            decreases self.pool@.len() - i,
        {
            if str_eq(self.pool[i].as_str(), name) {
                return true;
            }
            i = i + 1;
        }
        false
    }

    /// Declares `old_name` in the innermost scope under a spelling that has
    /// not been handed out yet: the name itself, or the name followed by the
    /// smallest suffix above the one of the visible declaration of the name.
    pub fn insert_name(&mut self, old_name: &str)
        requires
            old(self).wf(),
            old(self).depth() > 0,
            !old(self).declared_here(old_name@),
            old(self).num_taken() + 1 < u32::MAX,
        ensures
            final(self).wf(),
            final(self).fault() == old(self).fault(),
            final(self).depth() == old(self).depth(),
            final(self).num_taken() == old(self).num_taken() + 1,
            final(self).declared_here(old_name@),
            final(self).suffix_of(old_name@) is Some,
            !old(self).taken(cand(old_name@, final(self).suffix_of(old_name@)->0 as nat)),
            forall|x: Seq<char>| #[trigger] final(self).taken(x) == (old(self).taken(x) || x == cand(
                old_name@,
                final(self).suffix_of(old_name@)->0 as nat,
            )),
            forall|k: Seq<char>| k != old_name@ ==> #[trigger] final(self).suffix_of(k) == old(self).suffix_of(k),
            forall|k: Seq<char>| k != old_name@ ==> #[trigger] final(self).declared_here(k) == old(self).declared_here(k),
            final(self).same_outer_scopes(*old(self)),
            forall|t: nat| t < final(self).suffix_of(old_name@)->0 ==> old(self).taken(#[trigger] cand(old_name@, t)),
            old(self).suffix_of(old_name@) matches Some(k0) ==> k0 <= final(self).suffix_of(old_name@)->0,
            !old(self).taken(old_name@) ==> final(self).suffix_of(old_name@) == Some(0u32),
    {
        let ghost k = old_name@;
        let ghost p = self.pool@;
        let mut name = old_name.to_owned();
        let mut possible_suffix = self.get_suffix(old_name);
        let ghost k0 = possible_suffix;
        proof {
            if scopes_get(self.mapping@, k) is Some {
                lemma_scopes_get_some(self.mapping@, k);
                let (i, j) = choose|i: int, j: int| 0 <= i < self.mapping@.len() && 0 <= j < self.mapping@[i]@.len()
                    && #[trigger] self.mapping@[i]@[j].0@ == k && self.mapping@[i]@[j].1 == scopes_get(self.mapping@, k)->0;
                assert(forall|t: nat| t <= (self.mapping@[i]@[j]).1 ==> pool_contains(p, #[trigger] cand(k, t)));
            }
        }
        if self.pool_has(&name) {
            proof {
                assert(name@ == cand(k, 0));
                assert forall|t: nat| t <= possible_suffix implies pool_contains(p, #[trigger] cand(k, t)) by {
                    if t == 0 {
                        assert(cand(k, 0) == k);
                    }
                }
                lemma_suffix_below_pool(p, k, possible_suffix as nat);
            }
            loop
                invariant_except_break
                    possible_suffix + 1 <= p.len(),
                    forall|t: nat| t <= possible_suffix ==> pool_contains(p, #[trigger] cand(k, t)),
                invariant
                    k == old_name@,
                    k0 <= possible_suffix,
                    self.pool@ == p,
                    pool_unique(p),
                    p.len() + 1 < u32::MAX,
                ensures
                    name@ == cand(k, possible_suffix as nat),
                    !pool_contains(p, name@),
                    forall|t: nat| t < possible_suffix ==> pool_contains(p, #[trigger] cand(k, t)),
                decreases p.len() - possible_suffix,
            {
                possible_suffix = possible_suffix + 1;
                name = old_name.to_owned();
                push_dec(&mut name, possible_suffix as u64);
                if !self.pool_has(&name) {
                    break;
                }
                proof {
                    lemma_suffix_below_pool(p, k, possible_suffix as nat);
                }
            }
        } else {
            proof {
                if possible_suffix > 0 {
                    assert(pool_contains(p, cand(k, 0)));
                }
                assert(name@ == cand(k, possible_suffix as nat));
            }
        }
        let ghost s = possible_suffix;
        let ghost fresh = name@;
        self.pool.push(name);
        let mut scope = self.mapping.pop().unwrap();
        scope.push((old_name.to_owned(), possible_suffix));
        self.mapping.push(scope);
        proof {
            let m0 = old(self).mapping@;
            let m1 = self.mapping@;
            assert(m1.drop_last() =~= m0.drop_last());
            assert(m1.last()@.drop_last() =~= m0.last()@);
            assert(scope_get(m1.last()@, k) == Some(s));
            assert forall|x: Seq<char>| x != k implies scope_get(m1.last()@, x) == scope_get(m0.last()@, x) by {}
            assert forall|x: Seq<char>| x != k implies #[trigger] scopes_get(m1, x) == scopes_get(m0, x) by {
                assert(scope_get(m1.last()@, x) == scope_get(m0.last()@, x));
            }
            assert(scopes_get(m1, k) == Some(s));
            assert forall|x: Seq<char>| #[trigger] pool_contains(self.pool@, x) == (pool_contains(p, x) || x == fresh) by {
                if pool_contains(self.pool@, x) {
                    let i = choose|i: int| 0 <= i < self.pool@.len() && #[trigger] self.pool@[i]@ == x;
                    if i < p.len() {
                        assert(p[i]@ == x);
                    }
                }
                if pool_contains(p, x) {
                    let i = choose|i: int| 0 <= i < p.len() && #[trigger] p[i]@ == x;
                    assert(self.pool@[i]@ == x);
                }
                if x == fresh {
                    assert(self.pool@[p.len() as int]@ == x);
                }
            }
            assert(pool_unique(self.pool@)) by {
                assert forall|i: int, j: int| 0 <= i < self.pool@.len() && 0 <= j < self.pool@.len() && i != j
                    implies self.pool@[i]@ != self.pool@[j]@ by {
                    if i < p.len() && j < p.len() {
                        assert(p[i]@ != p[j]@);
                    } else if i < p.len() {
                        assert(p[i]@ == self.pool@[i]@);
                    } else {
                        assert(p[j]@ == self.pool@[j]@);
                    }
                }
            }
            assert forall|i: int, j: int|
                0 <= i < m1.len() && 0 <= j < m1[i]@.len() implies forall|t: nat|
                    t <= (#[trigger] m1[i]@[j]).1 ==> pool_contains(self.pool@, #[trigger] cand(m1[i]@[j].0@, t)) by {
                if i < m0.len() - 1 {
                    assert(m1[i] == m0[i]);
                    assert forall|t: nat| t <= m1[i]@[j].1 implies pool_contains(self.pool@, #[trigger] cand(m1[i]@[j].0@, t)) by {
                        assert(pool_contains(p, cand(m0[i]@[j].0@, t)));
                    }
                } else if j < m0.last()@.len() {
                    assert(m1[i]@[j] == m0[m0.len() - 1]@[j]);
                    assert forall|t: nat| t <= m1[i]@[j].1 implies pool_contains(self.pool@, #[trigger] cand(m1[i]@[j].0@, t)) by {
                        assert(pool_contains(p, cand(m0[m0.len() - 1]@[j].0@, t)));
                    }
                } else {
                    assert(m1[i]@[j].0@ == k && m1[i]@[j].1 == s);
                    assert forall|t: nat| t <= s implies pool_contains(self.pool@, #[trigger] cand(k, t)) by {
                        if t < s {
                            assert(pool_contains(p, cand(k, t)));
                        } else {
                            assert(cand(k, t) == fresh);
                        }
                    }
                }
            }
            let lasti = m0.len() - 1;
            let lastj = m0[lasti]@.len() as int;
            assert(m1[lasti]@[lastj].0@ == k && m1[lasti]@[lastj].1 == s);
            assert(spelling(m1[lasti]@[lastj]) == fresh);
            assert forall|i: int, j: int| 0 <= i < m1.len() && 0 <= j < m1[i]@.len() && (i != lasti || j != lastj)
                implies #[trigger] m1[i]@[j] == m0[i]@[j] && pool_contains(p, spelling(m1[i]@[j])) by {
                if i < lasti {
                    assert(m1[i] == m0[i]);
                } else {
                    assert(m1[i]@[j] == m0[lasti]@[j]);
                }
                let tt = m0[i]@[j].1 as nat;
                assert(tt <= m0[i]@[j].1);
                assert(pool_contains(p, cand(m0[i]@[j].0@, tt)));
            }
            assert(bindings_distinct(m1)) by {
                assert forall|i1: int, j1: int, i2: int, j2: int|
                    0 <= i1 < m1.len() && 0 <= j1 < m1[i1]@.len() && 0 <= i2 < m1.len() && 0 <= j2 < m1[i2]@.len()
                        && (i1 != i2 || j1 != j2) implies spelling(#[trigger] m1[i1]@[j1]) != spelling(#[trigger] m1[i2]@[j2]) by {
                    let a = (i1 != lasti || j1 != lastj);
                    let b = (i2 != lasti || j2 != lastj);
                    if a && b {
                        assert(m1[i1]@[j1] == m0[i1]@[j1]);
                        assert(m1[i2]@[j2] == m0[i2]@[j2]);
                    } else if a {
                        assert(m1[i1]@[j1] == m0[i1]@[j1]);
                        assert(pool_contains(p, spelling(m1[i1]@[j1])));
                    } else {
                        assert(m1[i2]@[j2] == m0[i2]@[j2]);
                        assert(pool_contains(p, spelling(m1[i2]@[j2])));
                    }
                }
            }
        }
    }

    /// Gives `name` the spelling of its innermost visible declaration.
    pub fn rename(&self, name: &mut String)
        requires
            self.suffix_of(old(name)@) is Some,
        ensures
            final(name)@ == cand(old(name)@, self.suffix_of(old(name)@)->0 as nat),
    {
        let suffix = self.get_suffix(name.as_str());
        if suffix != 0 {
            push_dec(name, suffix as u64);
        }
    }

    /// The suffix of the innermost visible declaration of `name`, or 0.
    fn get_suffix(&self, name: &str) -> (r: u32)
        ensures
            r == match self.suffix_of(name@) {
                Some(s) => s,
                None => 0,
            },
    {
        match self.find_suffix(name) {
            Some(s) => s,
            None => 0,
        }
    }

    /// The suffix of the innermost visible declaration of `name`, if any.
    fn find_suffix(&self, name: &str) -> (r: Option<u32>)
        ensures
            r == self.suffix_of(name@),
    {
        let mut i = self.mapping.len();
        proof {
            assert(self.mapping@.subrange(0, i as int) =~= self.mapping@);
        }
        while i > 0
            invariant
                i <= self.mapping@.len(),
                scopes_get(self.mapping@, name@) == scopes_get(self.mapping@.subrange(0, i as int), name@),
            decreases i,
        {
            let ghost ms = self.mapping@.subrange(0, i as int);
            assert(ms.last() == self.mapping@[i - 1]);
            assert(ms.drop_last() =~= self.mapping@.subrange(0, i - 1));
            match scope_lookup(&self.mapping[i - 1], name) {
                Some(s) => {
                    return Some(s);
                },
                None => {},
            }
            i = i - 1;
        }
        None
    }
}

/// The suffix of `name` in one scope.
fn scope_lookup(scope: &Vec<(String, u32)>, name: &str) -> (r: Option<u32>)
    ensures
        r == scope_get(scope@, name@),
{
    let mut j = scope.len();
    proof {
        assert(scope@.subrange(0, j as int) =~= scope@);
    }
    while j > 0
        invariant
            j <= scope@.len(),
            scope_get(scope@, name@) == scope_get(scope@.subrange(0, j as int), name@),
        decreases j,
    {
        let ghost s = scope@.subrange(0, j as int);
        assert(s.last() == scope@[j - 1]);
        assert(s.drop_last() =~= scope@.subrange(0, j - 1));
        if str_eq(scope[j - 1].0.as_str(), name) {
            return Some(scope[j - 1].1);
        }
        j = j - 1;
    }
    None
}


impl NameManager {
    /// The first fault met by the renaming pass, if any.
    pub closed spec fn fault(&self) -> Option<String> {
        self.error
    }

    /// Whether `k` can be declared in the innermost scope: one is open,
    /// spellings are left, and the scope does not declare `k` yet.
    pub open spec fn can_declare(&self, k: Seq<char>) -> bool {
        self.depth() > 0 && self.num_taken() < 0xffff_fff0 && !self.declared_here(k)
    }

    /// Whether `self` has the scopes and spellings of `o`.
    pub closed spec fn same_names(&self, o: NameManager) -> bool {
        self.mapping@ == o.mapping@ && self.pool@ == o.pool@
    }

    /// Whether `self` is `o` with the fault `msg` recorded, unless one came first.
    pub open spec fn failed_with(&self, o: NameManager, msg: Seq<char>) -> bool {
        &&& self.same_names(o)
        &&& o.fault() is Some ==> self.fault() == o.fault()
        &&& o.fault() is None ==> (self.fault() is Some && self.fault()->0@ == msg)
    }

    /// Records `msg` as the fault of the pass, unless one came first.
    fn fail(&mut self, msg: &str)
        requires
            old(self).wf(),
        ensures
            final(self).wf(),
            final(self).failed_with(*old(self), msg@),
    {
        if self.error.is_none() {
            self.error = Some(msg.to_owned());
        }
    }

    /// Declares `name` in the innermost scope, or records why it cannot be:
    /// no scope is open, or the scope declares the name already.
    fn declare(&mut self, name: &str)
        requires
            old(self).wf(),
        ensures
            final(self).wf(),
            old(self).depth() == 0 || old(self).num_taken() >= 0xffff_fff0 ==> final(self).failed_with(
                *old(self),
                "too many names"@,
            ),
            old(self).depth() > 0 && old(self).num_taken() < 0xffff_fff0 && old(self).declared_here(name@) ==> final(self).failed_with(
                *old(self),
                "redifinition of `"@ + name@ + "`"@,
            ),
            old(self).depth() > 0 && old(self).num_taken() < 0xffff_fff0 && !old(self).declared_here(name@) ==> {
                &&& final(self).fault() == old(self).fault()
                &&& final(self).depth() == old(self).depth()
                &&& final(self).declared_here(name@)
                &&& final(self).suffix_of(name@) is Some
                &&& !old(self).taken(cand(name@, final(self).suffix_of(name@)->0 as nat))
                &&& forall|k: Seq<char>| k != name@ ==> #[trigger] final(self).suffix_of(k) == old(self).suffix_of(k)
            },
            final(self).same_outer_scopes(*old(self)),
            final(self).keeps_fault(*old(self)),
            forall|k: Seq<char>| old(self).declared_here(k) ==> #[trigger] final(self).declared_here(k),
    {
        if self.mapping.len() == 0 || self.pool.len() >= 0xffff_fff0 {
            self.fail("too many names");
            return;
        }
        let last = self.mapping.len() - 1;
        if scope_lookup(&self.mapping[last], name).is_some() {
            let mut msg = "redifinition of `".to_owned();
            msg.append(name);
            msg.append("`");
            self.fail(msg.as_str());
            return;
        }
        self.insert_name(name);
    }

    /// Gives `name` the spelling of its visible declaration, or records that
    /// it has none.
    fn resolve(&mut self, name: &mut String)
        requires
            old(self).wf(),
        ensures
            final(self).wf(),
            old(self).suffix_of(old(name)@) matches Some(sfx) ==> *final(self) == *old(self) && final(name)@ == cand(
                old(name)@,
                sfx as nat,
            ),
            old(self).suffix_of(old(name)@) is None ==> final(self).failed_with(*old(self), "variable used before definition"@)
                && final(name)@ == old(name)@,
            final(self).same_scopes(*old(self)),
            final(self).keeps_fault(*old(self)),
    {
        match self.find_suffix(name.as_str()) {
            Some(_) => self.rename(name),
            None => self.fail("variable used before definition"),
        }
    }
}

/// Declaring names inside the innermost scope, one step after another,
/// leaves the outer scopes as they were.
pub proof fn lemma_same_outer_trans(a: NameManager, b: NameManager, c: NameManager)
    requires
        b.same_outer_scopes(a),
        c.same_outer_scopes(b),
    ensures
        c.same_outer_scopes(a),
{
}

/// Closing a scope restores the scopes that were open before it was
/// opened: every binding made inside it is gone and every outer binding is
/// visible again, while the spellings handed out meanwhile stay taken, so
/// that names made later stay apart from them.
pub proof fn lemma_scope_restored(a: NameManager, b: NameManager, c: NameManager, d: NameManager)
    requires
        b.opened_scope(a),
        c.same_outer_scopes(b),
        d.closed_scope(c),
        forall|x: Seq<char>| a.taken(x) ==> #[trigger] c.taken(x),
        forall|x: Seq<char>| #[trigger] d.taken(x) == c.taken(x),
    ensures
        d.same_scopes(a),
        d.scopes() == a.scopes(),
        d.depth() == a.depth(),
        forall|k: Seq<char>| #[trigger] d.suffix_of(k) == a.suffix_of(k),
        forall|x: Seq<char>| a.taken(x) ==> #[trigger] d.taken(x),
{
}

/// Whether the use `b` of a name is the use `a` with the spelling of the
/// declaration that `before` shows; where none is visible, the name stays and
/// `after` holds a fault.
pub open spec fn use_renamed(before: NameManager, a: Seq<char>, b: Seq<char>, after: NameManager) -> bool {
    match before.suffix_of(a) {
        Some(sfx) => b == cand(a, sfx as nat),
        None => b == a && after.fault() is Some,
    }
}

/// Whether the expression `b` is `a` after renaming, as far as the node
/// itself goes: the name that a use or a call names is renamed, and the kind
/// of the node and its operator stay.
pub open spec fn expr_renamed(before: NameManager, a: Expr, b: Expr, after: NameManager) -> bool {
    match (a, b) {
        (Expr::LVal(x), Expr::LVal(y)) => use_renamed(before, x.ident@, y.ident@, after),
        (Expr::Unary(x), Expr::Unary(y)) => unary_renamed(before, x, y, after),
        (Expr::Binary(x), Expr::Binary(y)) => x.op == y.op,
        (Expr::Integer(x), Expr::Integer(y)) => x == y,
        (Expr::Error, Expr::Error) => true,
        _ => false,
    }
}

/// Whether the unary expression `b` is `a` after renaming: the operator
/// stays, and a call names its function by the spelling of its declaration.
pub open spec fn unary_renamed(before: NameManager, a: UnaryExpr, b: UnaryExpr, after: NameManager) -> bool {
    match (a, b) {
        (UnaryExpr::Unary(o1, _), UnaryExpr::Unary(o2, _)) => o1 == o2,
        (UnaryExpr::Call(x), UnaryExpr::Call(y)) => use_renamed(before, x.ident@, y.ident@, after),
        _ => false,
    }
}

/// Renaming judged against `before` holds as well once the pass has moved
/// on from `mid` to `after`, keeping its fault.
proof fn lemma_renamed_later(before: NameManager, a: Expr, b: Expr, mid: NameManager, after: NameManager)
    requires
        expr_renamed(before, a, b, mid),
        after.keeps_fault(mid),
    ensures
        expr_renamed(before, a, b, after),
{
}

/// Two states with the same scopes see the same declarations.
proof fn lemma_same_names_suffix(x: NameManager, y: NameManager)
    requires
        x.same_names(y),
    ensures
        forall|k: Seq<char>| #[trigger] x.suffix_of(k) == y.suffix_of(k),
        forall|k: Seq<char>| #[trigger] x.declared_here(k) == y.declared_here(k),
{
}

/// Whether `after` declares in its innermost scope each name that `d`
/// declares, or holds a fault.
pub open spec fn decl_declared(d: Decl, after: NameManager) -> bool {
    match d {
        Decl::VarDecl(v) => forall|j: int|
            0 <= j < v@.len() ==> after.declared_here((#[trigger] v@[j]).lval.ident@) || after.fault() is Some,
        Decl::ConstDecl(v) => forall|j: int|
            0 <= j < v@.len() ==> after.declared_here((#[trigger] v@[j]).lval.ident@) || after.fault() is Some,
    }
}

/// Whether the statement `b` is `a` with the names that it holds itself
/// renamed against `before` (those of nested statements are not told apart
/// here); `after` holds the fault of a name without a declaration.
pub open spec fn stmt_renamed(before: NameManager, a: Stmt, b: Stmt, after: NameManager) -> bool {
    match (a, b) {
        (Stmt::Assign(x), Stmt::Assign(y)) => expr_renamed(before, x.val, y.val, after) && use_renamed(
            before,
            x.lval.ident@,
            y.lval.ident@,
            after,
        ),
        (Stmt::Branch(x), Stmt::Branch(y)) => expr_renamed(before, x.cond, y.cond, after),
        (Stmt::While(x), Stmt::While(y)) => expr_renamed(before, x.cond, y.cond, after),
        (Stmt::Return(x), Stmt::Return(y)) => match (x.ret_val, y.ret_val) {
            (Some(c), Some(d)) => expr_renamed(before, c, d, after),
            (None, None) => true,
            _ => false,
        },
        (Stmt::Expr(Some(c)), Stmt::Expr(Some(d))) => expr_renamed(before, c, d, after),
        (Stmt::Expr(None), Stmt::Expr(None)) => true,
        (Stmt::Block(_), Stmt::Block(_)) => true,
        (Stmt::Break(_), Stmt::Break(_)) => true,
        (Stmt::Continue(_), Stmt::Continue(_)) => true,
        _ => false,
    }
}

/// Renames every declared name so that no two declarations share a
/// spelling, and every use to the spelling of the declaration it sees. A
/// second declaration of a name in one scope and a use without a visible
/// declaration are recorded as the fault.
impl MutVisitor for NameManager {
    open spec fn inv(&self) -> bool {
        self.wf()
    }

    open spec fn comp_unit_visited(&self, n: CompUnit, after: Self, n2: CompUnit) -> bool {
        after.same_scopes(*self) && after.keeps_fault(*self)
    }

    open spec fn global_item_visited(&self, n: GlobalItem, after: Self, n2: GlobalItem) -> bool {
        after.same_outer_scopes(*self) && after.keeps_fault(*self)
    }

    open spec fn decl_visited(&self, n: Decl, after: Self, n2: Decl) -> bool {
        after.same_outer_scopes(*self) && after.keeps_fault(*self)
    }

    open spec fn var_decl_visited(&self, n: VarDecl, after: Self, n2: VarDecl) -> bool {
        after.same_outer_scopes(*self) && after.keeps_fault(*self)
    }

    open spec fn const_decl_visited(&self, n: ConstDecl, after: Self, n2: ConstDecl) -> bool {
        after.same_outer_scopes(*self) && after.keeps_fault(*self)
    }

    open spec fn func_def_visited(&self, n: FuncDef, after: Self, n2: FuncDef) -> bool {
        after.same_outer_scopes(*self) && after.keeps_fault(*self)
    }

    open spec fn func_param_visited(&self, n: FuncParam, after: Self, n2: FuncParam) -> bool {
        after.same_outer_scopes(*self) && after.keeps_fault(*self)
    }

    open spec fn block_visited(&self, n: Block, after: Self, n2: Block) -> bool {
        after.same_scopes(*self) && after.keeps_fault(*self)
    }

    open spec fn block_item_visited(&self, n: BlockItem, after: Self, n2: BlockItem) -> bool {
        after.same_outer_scopes(*self) && after.keeps_fault(*self)
    }

    open spec fn stmt_visited(&self, n: Stmt, after: Self, n2: Stmt) -> bool {
        after.same_scopes(*self) && after.keeps_fault(*self)
    }

    open spec fn assign_visited(&self, n: Assign, after: Self, n2: Assign) -> bool {
        after.same_scopes(*self) && after.keeps_fault(*self)
    }

    open spec fn branch_visited(&self, n: Branch, after: Self, n2: Branch) -> bool {
        after.same_scopes(*self) && after.keeps_fault(*self)
    }

    open spec fn break_visited(&self, n: Break, after: Self, n2: Break) -> bool {
        after.same_scopes(*self) && after.keeps_fault(*self)
    }

    open spec fn continue_visited(&self, n: Continue, after: Self, n2: Continue) -> bool {
        after.same_scopes(*self) && after.keeps_fault(*self)
    }

    open spec fn while_visited(&self, n: While, after: Self, n2: While) -> bool {
        after.same_scopes(*self) && after.keeps_fault(*self)
    }

    open spec fn return_visited(&self, n: Return, after: Self, n2: Return) -> bool {
        after.same_scopes(*self) && after.keeps_fault(*self)
    }

    open spec fn expr_visited(&self, n: Expr, after: Self, n2: Expr) -> bool {
        after.same_names(*self) && after.keeps_fault(*self)
    }

    open spec fn binary_expr_visited(&self, n: BinaryExpr, after: Self, n2: BinaryExpr) -> bool {
        after.same_names(*self) && after.keeps_fault(*self)
    }

    open spec fn unary_expr_visited(&self, n: UnaryExpr, after: Self, n2: UnaryExpr) -> bool {
        after.same_names(*self) && after.keeps_fault(*self)
    }

    open spec fn call_visited(&self, n: Call, after: Self, n2: Call) -> bool {
        after.same_names(*self) && after.keeps_fault(*self)
    }

    open spec fn lval_visited(&self, n: LVal, after: Self, n2: LVal) -> bool {
        after.same_names(*self) && after.keeps_fault(*self)
    }

    open spec fn initval_visited(&self, n: InitVal, after: Self, n2: InitVal) -> bool {
        after.same_names(*self) && after.keeps_fault(*self)
    }

    fn visit_comp_unit(&mut self, c: &mut CompUnit)
        ensures
            final(self).same_scopes(*old(self)),
            final(self).keeps_fault(*old(self)),
    {
        self.enter_scope();
        let ghost s1 = *self;
        if self.pool.len() < 0xffff_fff0 {
            self.install_lib();
        } else {
            self.fail("too many names");
        }
        self.declare("entry");
        self.declare("end");
        let n = c.items.len();
        let mut i: usize = 0;
        while i < n
            invariant
                n == c.items@.len(),
                i <= n,
                self.inv(),
                self.same_outer_scopes(s1),
                s1.opened_scope(*old(self)),
                self.keeps_fault(*old(self)),
            decreases n - i,
        {
            self.visit_global_item(&mut c.items[i]);
            i = i + 1;
        }
        self.exit_scope();
    }

    fn visit_global_item(&mut self, g: &mut GlobalItem)
        ensures
            final(self).same_outer_scopes(*old(self)),
            final(self).keeps_fault(*old(self)),
            *old(g) is Decl ==> decl_declared(old(g)->Decl_0, *final(self)),
            *old(g) is Func && old(self).can_declare(old(g)->Func_0.ident@) ==> final(self).declared_here(
                old(g)->Func_0.ident@,
            ),
            *old(g) is Func && !old(self).can_declare(old(g)->Func_0.ident@) ==> final(self).fault() is Some,
    {
        match g {
            GlobalItem::Decl(decl) => self.visit_decl(decl),
            GlobalItem::Func(func) => self.visit_func_def(func),
        }
    }

    fn visit_decl(&mut self, d: &mut Decl)
        ensures
            final(self).same_outer_scopes(*old(self)),
            final(self).keeps_fault(*old(self)),
            forall|k: Seq<char>| old(self).declared_here(k) ==> #[trigger] final(self).declared_here(k),
            decl_declared(*old(d), *final(self)),
    {
        match d {
            Decl::ConstDecl(v) => {
            let ghost l0 = v@;
            let n = v.len();
            let mut i: usize = 0;
            while i < n
                invariant
                    n == v@.len(),
                    i <= n,
                    self.inv(),
                    forall|j: int| i <= j < n ==> v@[j] == l0[j],
                    self.same_outer_scopes(*old(self)),
                    self.keeps_fault(*old(self)),
                    l0 == old(d)->ConstDecl_0@,
                    forall|k: Seq<char>| old(self).declared_here(k) ==> #[trigger] self.declared_here(k),
                    forall|j: int| 0 <= j < i ==> self.declared_here((#[trigger] l0[j]).lval.ident@) || self.fault() is Some,
                decreases n - i,
            {
                self.visit_const_decl(&mut v[i]);
                i = i + 1;
            }
            },
            Decl::VarDecl(v) => {
            let ghost l0 = v@;
            let n = v.len();
            let mut i: usize = 0;
            while i < n
                invariant
                    n == v@.len(),
                    i <= n,
                    self.inv(),
                    forall|j: int| i <= j < n ==> v@[j] == l0[j],
                    self.same_outer_scopes(*old(self)),
                    self.keeps_fault(*old(self)),
                    l0 == old(d)->VarDecl_0@,
                    forall|k: Seq<char>| old(self).declared_here(k) ==> #[trigger] self.declared_here(k),
                    forall|j: int| 0 <= j < i ==> self.declared_here((#[trigger] l0[j]).lval.ident@) || self.fault() is Some,
                decreases n - i,
            {
                self.visit_var_decl(&mut v[i]);
                i = i + 1;
            }
            },
        }
    }

    fn visit_var_decl(&mut self, v: &mut VarDecl)
        ensures
            final(self).same_outer_scopes(*old(self)),
            final(self).keeps_fault(*old(self)),
            forall|k: Seq<char>| old(self).declared_here(k) ==> #[trigger] final(self).declared_here(k),
            old(self).can_declare(old(v).lval.ident@) ==> final(self).declared_here(old(v).lval.ident@) && final(self).suffix_of(old(v).lval.ident@) is Some && final(v).lval.ident@ == cand(
                old(v).lval.ident@,
                final(self).suffix_of(old(v).lval.ident@)->0 as nat,
            ),
            !old(self).can_declare(old(v).lval.ident@) ==> final(self).fault() is Some,
    {
        if let Some(init) = &mut v.init {
            self.visit_initval(init);
        }
        let ghost s1 = *self;
        self.declare(v.lval.ident.as_str());
        let ghost s2 = *self;
        self.visit_lval(&mut v.lval);
        proof {
            lemma_same_names_suffix(s1, *old(self));
            lemma_same_names_suffix(*self, s2);
        }
    }

    fn visit_const_decl(&mut self, c: &mut ConstDecl)
        ensures
            final(self).same_outer_scopes(*old(self)),
            final(self).keeps_fault(*old(self)),
            forall|k: Seq<char>| old(self).declared_here(k) ==> #[trigger] final(self).declared_here(k),
            old(self).can_declare(old(c).lval.ident@) ==> final(self).declared_here(old(c).lval.ident@) && final(self).suffix_of(old(c).lval.ident@) is Some && final(c).lval.ident@ == cand(
                old(c).lval.ident@,
                final(self).suffix_of(old(c).lval.ident@)->0 as nat,
            ),
            !old(self).can_declare(old(c).lval.ident@) ==> final(self).fault() is Some,
    {
        self.visit_initval(&mut c.init);
        let ghost s1 = *self;
        self.declare(c.lval.ident.as_str());
        let ghost s2 = *self;
        self.visit_lval(&mut c.lval);
        proof {
            lemma_same_names_suffix(s1, *old(self));
            lemma_same_names_suffix(*self, s2);
        }
    }

    fn visit_func_def(&mut self, f: &mut FuncDef)
        ensures
            final(self).same_outer_scopes(*old(self)),
            final(self).keeps_fault(*old(self)),
            old(self).can_declare(old(f).ident@) ==> final(self).declared_here(old(f).ident@) && final(self).suffix_of(
                old(f).ident@,
            ) is Some && final(f).ident@ == cand(old(f).ident@, final(self).suffix_of(old(f).ident@)->0 as nat),
            !old(self).can_declare(old(f).ident@) ==> final(self).fault() is Some,
    {
        self.declare(f.ident.as_str());
        self.resolve(&mut f.ident);
        let ghost s0 = *self;
        let ghost s0_ident = f.ident;
        self.enter_scope();
        let ghost s1 = *self;
        {
            let ghost l0 = f.params@;
            let n = f.params.len();
            let mut i: usize = 0;
            while i < n
                invariant
                    n == f.params@.len(),
                    i <= n,
                    self.inv(),
                    forall|j: int| i <= j < n ==> f.params@[j] == l0[j],
                    self.same_outer_scopes(s1),
                    s1.opened_scope(s0),
                    s0.same_outer_scopes(*old(self)),
                    self.keeps_fault(*old(self)),
                    s1.keeps_fault(s0),
                    self.keeps_fault(s0),
                    f.ident == s0_ident,
                decreases n - i,
            {
                self.visit_func_param(&mut f.params[i]);
                i = i + 1;
            }
        }
        self.visit_block(&mut f.block);
        self.exit_scope();
    }

    fn visit_func_param(&mut self, f: &mut FuncParam)
        ensures
            final(self).same_outer_scopes(*old(self)),
            final(self).keeps_fault(*old(self)),
            forall|k: Seq<char>| old(self).declared_here(k) ==> #[trigger] final(self).declared_here(k),
            old(self).can_declare(old(f).ident@) ==> final(self).declared_here(old(f).ident@) && final(self).suffix_of(
                old(f).ident@,
            ) is Some && final(f).ident@ == cand(old(f).ident@, final(self).suffix_of(old(f).ident@)->0 as nat),
            !old(self).can_declare(old(f).ident@) ==> final(self).fault() is Some,
    {
        self.declare(f.ident.as_str());
        self.resolve(&mut f.ident);
    }

    fn visit_block(&mut self, b: &mut Block)
        ensures
            final(self).same_scopes(*old(self)),
            final(self).keeps_fault(*old(self)),
        decreases *old(b),
    {
        self.enter_scope();
        let ghost s1 = *self;
        {
            let ghost l0 = b.items@;
            let n = b.items.len();
            let mut i: usize = 0;
            while i < n
                invariant
                    n == b.items@.len(),
                    i <= n,
                    self.inv(),
                    forall|j: int| i <= j < n ==> b.items@[j] == l0[j],
                    self.same_outer_scopes(s1),
                    s1.opened_scope(*old(self)),
                    self.keeps_fault(*old(self)),
                    l0 == old(b).items@,
                    l0.len() == n,
                decreases n - i,
            {
                proof {
                    assert(decreases_to!(*old(b) => old(b).items@[i as int])) by {
                        assert(decreases_to!(*old(b) => old(b).items));
                        assert(decreases_to!(old(b).items => old(b).items@));
                        assert(decreases_to!(old(b).items@ => old(b).items@[i as int]));
                    }
                }
                self.visit_block_item(&mut b.items[i]);
                i = i + 1;
            }
        }
        self.exit_scope();
    }

    fn visit_block_item(&mut self, b: &mut BlockItem)
        ensures
            final(self).same_outer_scopes(*old(self)),
            final(self).keeps_fault(*old(self)),
            *old(b) is Decl ==> decl_declared(old(b)->Decl_0, *final(self)),
            *old(b) is Stmt ==> *final(b) is Stmt && stmt_renamed(*old(self), old(b)->Stmt_0, final(b)->Stmt_0, *final(self)),
        decreases *old(b),
    {
        match b {
            BlockItem::Decl(decl) => self.visit_decl(decl),
            BlockItem::Stmt(stmt) => self.visit_stmt(stmt),
        }
    }

    fn visit_stmt(&mut self, s: &mut Stmt)
        ensures
            final(self).same_scopes(*old(self)),
            final(self).keeps_fault(*old(self)),
            stmt_renamed(*old(self), *old(s), *final(s), *final(self)),
        decreases *old(s),
    {
        match s {
            Stmt::Assign(assign) => self.visit_assign(assign),
            Stmt::Block(block) => self.visit_block(block),
            Stmt::Branch(br) => self.visit_branch(br),
            Stmt::Expr(e) => {
                if let Some(e) = e {
                    self.visit_expr(e);
                }
            },
            Stmt::Return(ret) => self.visit_return(ret),
            Stmt::While(w) => self.visit_while(w),
            Stmt::Break(b) => self.visit_break(b),
            Stmt::Continue(c) => self.visit_continue(c),
        }
    }

    fn visit_assign(&mut self, a: &mut Assign)
        ensures
            final(self).same_scopes(*old(self)),
            final(self).keeps_fault(*old(self)),
            expr_renamed(*old(self), old(a).val, final(a).val, *final(self)),
            use_renamed(*old(self), old(a).lval.ident@, final(a).lval.ident@, *final(self)),
    {
        self.visit_expr(&mut a.val);
        let ghost s1 = *self;
        self.visit_lval(&mut a.lval);
        proof {
            lemma_same_names_suffix(s1, *old(self));
            lemma_renamed_later(*old(self), old(a).val, a.val, s1, *self);
        }
    }

    fn visit_branch(&mut self, b: &mut Branch)
        ensures
            final(self).same_scopes(*old(self)),
            final(self).keeps_fault(*old(self)),
            expr_renamed(*old(self), old(b).cond, final(b).cond, *final(self)),
        decreases *old(b),
    {
        self.visit_expr(&mut b.cond);
        let ghost s1 = *self;
        let ghost c1 = b.cond;
        self.visit_stmt(&mut b.if_stmt);
        if let Some(el_stmt) = &mut b.el_stmt {
            self.visit_stmt(el_stmt);
        }
        proof {
            lemma_renamed_later(*old(self), old(b).cond, c1, s1, *self);
        }
    }

    fn visit_break(&mut self, b: &mut Break)
        ensures
            final(self).same_scopes(*old(self)),
            final(self).keeps_fault(*old(self)),
    {
    }

    fn visit_continue(&mut self, c: &mut Continue)
        ensures
            final(self).same_scopes(*old(self)),
            final(self).keeps_fault(*old(self)),
    {
    }

    fn visit_while(&mut self, w: &mut While)
        ensures
            final(self).same_scopes(*old(self)),
            final(self).keeps_fault(*old(self)),
            expr_renamed(*old(self), old(w).cond, final(w).cond, *final(self)),
        decreases *old(w),
    {
        self.visit_expr(&mut w.cond);
        let ghost s1 = *self;
        self.visit_stmt(&mut w.stmt);
        proof {
            lemma_renamed_later(*old(self), old(w).cond, w.cond, s1, *self);
        }
    }

    fn visit_return(&mut self, r: &mut Return)
        ensures
            final(self).same_scopes(*old(self)),
            final(self).keeps_fault(*old(self)),
            match (old(r).ret_val, final(r).ret_val) {
                (Some(c), Some(d)) => expr_renamed(*old(self), c, d, *final(self)),
                (None, None) => true,
                _ => false,
            },
    {
        if let Some(e) = &mut r.ret_val {
            self.visit_expr(e);
        }
    }

    fn visit_expr(&mut self, e: &mut Expr)
        ensures
            final(self).same_names(*old(self)),
            old(self).fault() is Some ==> final(self).fault() == old(self).fault(),
            expr_renamed(*old(self), *old(e), *final(e), *final(self)),
        decreases *old(e),
    {
        match e {
            Expr::Binary(bxp) => self.visit_binary_expr(bxp),
            Expr::Unary(uxp) => self.visit_unary_expr(uxp),
            Expr::LVal(lval) => self.visit_lval(lval),
            Expr::Integer(_) => {},
            Expr::Error => {},
        }
    }

    fn visit_binary_expr(&mut self, b: &mut BinaryExpr)
        ensures
            final(self).same_names(*old(self)),
            old(self).fault() is Some ==> final(self).fault() == old(self).fault(),
            final(b).op == old(b).op,
        decreases *old(b),
    {
        self.visit_expr(&mut b.lhs);
        self.visit_expr(&mut b.rhs);
    }

    fn visit_unary_expr(&mut self, u: &mut UnaryExpr)
        ensures
            final(self).same_names(*old(self)),
            old(self).fault() is Some ==> final(self).fault() == old(self).fault(),
            unary_renamed(*old(self), *old(u), *final(u), *final(self)),
        decreases *old(u),
    {
        match u {
            UnaryExpr::Unary(_, exp) => self.visit_expr(exp),
            UnaryExpr::Call(call) => self.visit_call(call),
        }
    }

    fn visit_call(&mut self, c: &mut Call)
        ensures
            final(self).same_names(*old(self)),
            old(self).fault() is Some ==> final(self).fault() == old(self).fault(),
            old(self).suffix_of(old(c).ident@) matches Some(sfx) ==> final(c).ident@ == cand(old(c).ident@, sfx as nat),
            old(self).suffix_of(old(c).ident@) is None ==> final(c).ident@ == old(c).ident@ && final(self).fault() is Some,
        decreases *old(c),
    {
        self.resolve(&mut c.ident);
        let ghost s1 = *self;
        let ghost id1 = c.ident@;
        {
            let ghost l0 = c.args@;
            let n = c.args.len();
            let mut i: usize = 0;
            while i < n
                invariant
                    n == c.args@.len(),
                    i <= n,
                    self.inv(),
                    self.same_names(s1),
                    s1.fault() is Some ==> self.fault() == s1.fault(),
                    c.ident@ == id1,
                    forall|j: int| i <= j < n ==> c.args@[j] == l0[j],
                    l0 == old(c).args@,
                    l0.len() == n,
                decreases n - i,
            {
                proof {
                    assert(decreases_to!(*old(c) => old(c).args@[i as int])) by {
                        assert(decreases_to!(*old(c) => old(c).args));
                        assert(decreases_to!(old(c).args => old(c).args@));
                        assert(decreases_to!(old(c).args@ => old(c).args@[i as int]));
                    }
                }
                self.visit_expr(&mut c.args[i]);
                i = i + 1;
            }
        }
    }

    fn visit_lval(&mut self, l: &mut LVal)
        ensures
            final(self).same_names(*old(self)),
            old(self).fault() is Some ==> final(self).fault() == old(self).fault(),
            old(self).suffix_of(old(l).ident@) matches Some(sfx) ==> final(l).ident@ == cand(old(l).ident@, sfx as nat),
            old(self).suffix_of(old(l).ident@) is None ==> final(l).ident@ == old(l).ident@ && final(self).fault() is Some,
        decreases *old(l),
    {
        self.resolve(&mut l.ident);
        let ghost s1 = *self;
        let ghost id1 = l.ident@;
        {
            let ghost l0 = l.dims@;
            let n = l.dims.len();
            let mut i: usize = 0;
            while i < n
                invariant
                    n == l.dims@.len(),
                    i <= n,
                    self.inv(),
                    self.same_names(s1),
                    s1.fault() is Some ==> self.fault() == s1.fault(),
                    l.ident@ == id1,
                    forall|j: int| i <= j < n ==> l.dims@[j] == l0[j],
                    l0 == old(l).dims@,
                    l0.len() == n,
                decreases n - i,
            {
                proof {
                    assert(decreases_to!(*old(l) => old(l).dims@[i as int])) by {
                        assert(decreases_to!(*old(l) => old(l).dims));
                        assert(decreases_to!(old(l).dims => old(l).dims@));
                        assert(decreases_to!(old(l).dims@ => old(l).dims@[i as int]));
                    }
                }
                self.visit_expr(&mut l.dims[i]);
                i = i + 1;
            }
        }
    }

    fn visit_initval(&mut self, e: &mut InitVal)
        ensures
            final(self).same_names(*old(self)),
            old(self).fault() is Some ==> final(self).fault() == old(self).fault(),
            match (*old(e), *final(e)) {
                (InitVal::Expr(a), InitVal::Expr(b)) => expr_renamed(*old(self), a, b, *final(self)),
                (InitVal::List(a), InitVal::List(b)) => a@.len() == b@.len(),
                _ => false,
            },
        decreases *old(e),
    {
        match e {
            InitVal::Expr(exp) => self.visit_expr(exp),
            InitVal::List(list) => {
            let ghost l0 = list@;
            let n = list.len();
            let mut i: usize = 0;
            while i < n
                invariant
                    n == list@.len(),
                    i <= n,
                    self.inv(),
                    forall|j: int| i <= j < n ==> list@[j] == l0[j],
                    l0 == old(e)->List_0@,
                    l0.len() == n,
                    *old(e) is List,
                    self.same_names(*old(self)),
                    old(self).fault() is Some ==> self.fault() == old(self).fault(),
                decreases n - i,
            {
                proof {
                    assert(decreases_to!(*old(e) => old(e)->List_0@[i as int])) by {
                        assert(decreases_to!(*old(e) => old(e)->List_0));
                        assert(decreases_to!(old(e)->List_0 => old(e)->List_0@));
                        assert(decreases_to!(old(e)->List_0@ => old(e)->List_0@[i as int]));
                    }
                }
                self.visit_initval(&mut list[i]);
                i = i + 1;
            }
            },
        }
    }
}


/// Two different names that are both visible are renamed to different spellings.
pub proof fn lemma_visible_names_distinct(nm: NameManager, k1: Seq<char>, k2: Seq<char>)
    requires
        nm.wf(),
        nm.suffix_of(k1) is Some,
        nm.suffix_of(k2) is Some,
        k1 != k2,
    ensures
        cand(k1, nm.suffix_of(k1)->0 as nat) != cand(k2, nm.suffix_of(k2)->0 as nat),
{
    let ms = nm.mapping@;
    lemma_scopes_get_some(ms, k1);
    lemma_scopes_get_some(ms, k2);
    let (i1, j1) = choose|i: int, j: int| 0 <= i < ms.len() && 0 <= j < ms[i]@.len() && #[trigger] ms[i]@[j].0@ == k1
        && ms[i]@[j].1 == scopes_get(ms, k1)->0;
    let (i2, j2) = choose|i: int, j: int| 0 <= i < ms.len() && 0 <= j < ms[i]@.len() && #[trigger] ms[i]@[j].0@ == k2
        && ms[i]@[j].1 == scopes_get(ms, k2)->0;
    assert(spelling(ms[i1]@[j1]) != spelling(ms[i2]@[j2]));
}

/// The names of the functions of the runtime library.
pub open spec fn is_lib_name(k: Seq<char>) -> bool {
    k == "getint"@ || k == "getch"@ || k == "getarray"@ || k == "putint"@ || k == "putch"@
        || k == "putarray"@ || k == "starttime"@ || k == "stoptime"@
}

} // verus!
