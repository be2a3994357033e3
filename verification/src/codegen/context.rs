use vstd::prelude::*;

verus! {

/// The number of general purpose registers of RV32.
pub const NUM_REGS: usize = 32;

/// A general purpose register, identified by its index in the register file.
#[derive(Debug, Clone, Copy, PartialEq, Eq, Structural)]
pub struct RegID(pub usize);

/// Where a local value lives: in a register or at an offset from `sp`.
#[derive(Debug, Clone, Copy, PartialEq, Eq, Structural)]
pub enum Place {
    Reg(RegID),
    Mem(i32),
}

/// The location of a local value and whether it holds an address.
#[derive(Debug, Clone, Copy, PartialEq, Eq, Structural)]
pub struct LocalValue {
    pub place: Place,
    pub is_pointer: bool,
}

/// The ABI name of the register with index `i`.
pub open spec fn reg_name(i: int) -> Seq<char> {
    if i == 0 {
        seq!['z', 'e', 'r', 'o']
    } else if i == 1 {
        seq!['r', 'a']
    } else if i == 2 {
        seq!['s', 'p']
    } else if i == 3 {
        seq!['g', 'p']
    } else if i == 4 {
        seq!['t', 'p']
    } else if i == 5 {
        seq!['t', '0']
    } else if i == 6 {
        seq!['t', '1']
    } else if i == 7 {
        seq!['t', '2']
    } else if i == 8 {
        seq!['s', '0']
    } else if i == 9 {
        seq!['s', '1']
    } else if i == 10 {
        seq!['a', '0']
    } else if i == 11 {
        seq!['a', '1']
    } else if i == 12 {
        seq!['a', '2']
    } else if i == 13 {
        seq!['a', '3']
    } else if i == 14 {
        seq!['a', '4']
    } else if i == 15 {
        seq!['a', '5']
    } else if i == 16 {
        seq!['a', '6']
    } else if i == 17 {
        seq!['a', '7']
    } else if i == 18 {
        seq!['s', '2']
    } else if i == 19 {
        seq!['s', '3']
    } else if i == 20 {
        seq!['s', '4']
    } else if i == 21 {
        seq!['s', '5']
    } else if i == 22 {
        seq!['s', '6']
    } else if i == 23 {
        seq!['s', '7']
    } else if i == 24 {
        seq!['s', '8']
    } else if i == 25 {
        seq!['s', '9']
    } else if i == 26 {
        seq!['s', '1', '0']
    } else if i == 27 {
        seq!['s', '1', '1']
    } else if i == 28 {
        seq!['t', '3']
    } else if i == 29 {
        seq!['t', '4']
    } else if i == 30 {
        seq!['t', '5']
    } else if i == 31 {
        seq!['t', '6']
    } else {
        Seq::empty()
    }
}

/// Whether `name` is the ABI name of one of the registers.
pub open spec fn is_reg_name(name: Seq<char>) -> bool {
    exists|i: int| 0 <= i < NUM_REGS && #[trigger] reg_name(i) == name
}

/// The saved registers `s0`..`s11`.
pub open spec fn is_saved_index(i: int) -> bool {
    i == 8 || i == 9 || (18 <= i && i <= 27)
}

impl RegID {
    /// Whether the register is a callee-saved `s` register.
    pub fn is_saved_reg(&self) -> (r: bool)
        ensures
            r == is_saved_index(self.0 as int),
    {
        self.0 == 8 || self.0 == 9 || (18 <= self.0 && self.0 <= 27)
    }
}

/// Whether two strings hold the same characters.
pub fn str_eq(a: &str, b: &str) -> (r: bool)
    ensures
        r == (a@ == b@),
{
    let n = a.unicode_len();
    let m = b.unicode_len();
    if n != m {
        return false;
    }
    let mut i: usize = 0;
    while i < n
        invariant
            n == a@.len(),
            m == b@.len(),
            n == m,
            i <= n,
            forall|j: int| 0 <= j < i ==> a@[j] == b@[j],
        decreases n - i,
    {
        if a.get_char(i) != b.get_char(i) {
            return false;
        }
        i = i + 1;
    }
    assert(a@ =~= b@);
    true
}

/// Conversion of a register name into a register.
pub trait IntoID: Sized {
    /// Whether the conversion is defined on `self`.
    spec fn names_register(&self) -> bool;

    /// The index of the register that `self` names.
    spec fn register_index(&self) -> int;

    fn into_id(self) -> (r: RegID)
        requires
            self.names_register(),
        ensures
            r.0 as int == self.register_index(),
            r.0 < NUM_REGS,
    ;
}

/// Conversion of a register into its ABI name.
pub trait IntoName: Sized {
    /// Whether `self` denotes a register of the register file.
    spec fn is_register(&self) -> bool;

    /// The name of the register `self` denotes.
    spec fn name_of(&self) -> Seq<char>;

    fn into_name(self) -> (r: &'static str)
        requires
            self.is_register(),
        ensures
            r@ == self.name_of(),
    ;
}

impl IntoName for RegID {
    open spec fn is_register(&self) -> bool {
        self.0 < NUM_REGS
    }

    open spec fn name_of(&self) -> Seq<char> {
        reg_name(self.0 as int)
    }

    fn into_name(self) -> (r: &'static str) {
        match self.0 {
            0 => {
                proof { reveal_strlit("zero"); }
                "zero"
            },
            1 => {
                proof { reveal_strlit("ra"); }
                "ra"
            },
            2 => {
                proof { reveal_strlit("sp"); }
                "sp"
            },
            3 => {
                proof { reveal_strlit("gp"); }
                "gp"
            },
            4 => {
                proof { reveal_strlit("tp"); }
                "tp"
            },
            5 => {
                proof { reveal_strlit("t0"); }
                "t0"
            },
            6 => {
                proof { reveal_strlit("t1"); }
                "t1"
            },
            7 => {
                proof { reveal_strlit("t2"); }
                "t2"
            },
            8 => {
                proof { reveal_strlit("s0"); }
                "s0"
            },
            9 => {
                proof { reveal_strlit("s1"); }
                "s1"
            },
            10 => {
                proof { reveal_strlit("a0"); }
                "a0"
            },
            11 => {
                proof { reveal_strlit("a1"); }
                "a1"
            },
            12 => {
                proof { reveal_strlit("a2"); }
                "a2"
            },
            13 => {
                proof { reveal_strlit("a3"); }
                "a3"
            },
            14 => {
                proof { reveal_strlit("a4"); }
                "a4"
            },
            15 => {
                proof { reveal_strlit("a5"); }
                "a5"
            },
            16 => {
                proof { reveal_strlit("a6"); }
                "a6"
            },
            17 => {
                proof { reveal_strlit("a7"); }
                "a7"
            },
            18 => {
                proof { reveal_strlit("s2"); }
                "s2"
            },
            19 => {
                proof { reveal_strlit("s3"); }
                "s3"
            },
            20 => {
                proof { reveal_strlit("s4"); }
                "s4"
            },
            21 => {
                proof { reveal_strlit("s5"); }
                "s5"
            },
            22 => {
                proof { reveal_strlit("s6"); }
                "s6"
            },
            23 => {
                proof { reveal_strlit("s7"); }
                "s7"
            },
            24 => {
                proof { reveal_strlit("s8"); }
                "s8"
            },
            25 => {
                proof { reveal_strlit("s9"); }
                "s9"
            },
            26 => {
                proof { reveal_strlit("s10"); }
                "s10"
            },
            27 => {
                proof { reveal_strlit("s11"); }
                "s11"
            },
            28 => {
                proof { reveal_strlit("t3"); }
                "t3"
            },
            29 => {
                proof { reveal_strlit("t4"); }
                "t4"
            },
            30 => {
                proof { reveal_strlit("t5"); }
                "t5"
            },
            31 => {
                proof { reveal_strlit("t6"); }
                "t6"
            },
            _ => {
                proof { assert(false); }
                "zero"
            },
        }
    }
}

/// The index of the register named `name`, the first such index.
pub open spec fn reg_index(name: Seq<char>) -> int {
    choose|i: int| 0 <= i < NUM_REGS && reg_name(i) == name && forall|j: int| 0 <= j < i ==> reg_name(j) != name
}

/// The first register with a given name is the one `reg_index` picks.
pub proof fn lemma_reg_index(name: Seq<char>, i: int)
    requires
        0 <= i < NUM_REGS,
        reg_name(i) == name,
        forall|j: int| 0 <= j < i ==> reg_name(j) != name,
    ensures
        reg_index(name) == i,
{
    let k = reg_index(name);
    assert(0 <= k < NUM_REGS && reg_name(k) == name && forall|j: int| 0 <= j < k ==> reg_name(j) != name);
    if k < i {
        assert(reg_name(k) != name);
    }
    if i < k {
        assert(reg_name(i) != name);
    }
}

impl<'a> IntoID for &'a str {
    open spec fn names_register(&self) -> bool {
        is_reg_name(self@)
    }

    open spec fn register_index(&self) -> int {
        reg_index(self@)
    }

    fn into_id(self) -> (r: RegID) {
        let mut i: usize = 0;
        while i < NUM_REGS
            invariant
                i <= NUM_REGS,
                is_reg_name(self@),
                forall|j: int| 0 <= j < i ==> reg_name(j) != self@,
            decreases NUM_REGS - i,
        {
            let name = RegID(i).into_name();
            if str_eq(self, name) {
                proof { lemma_reg_index(self@, i as int); }
                return RegID(i);
            }
            i = i + 1;
        }
        proof {
            let k = choose|k: int| 0 <= k < NUM_REGS && #[trigger] reg_name(k) == self@;
            assert(reg_name(k) != self@);
        }
        RegID(0)
    }
}

/// The register named by the ABI name `name` (such as `t0` or `sp`), given its index.
pub(crate) fn named_reg(name: &str, Ghost(i): Ghost<int>) -> (r: RegID)
    requires
        0 <= i < NUM_REGS,
        reg_name(i) == name@,
        forall|j: int| 0 <= j < i ==> reg_name(j) != name@,
    ensures
        r.0 == i,
{
    proof { lemma_reg_index(name@, i); }
    name.into_id()
}

} // verus!
