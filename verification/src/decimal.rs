use vstd::prelude::*;

verus! {

/// The character of the decimal digit `d`.
pub open spec fn digit_char(d: int) -> char {
    if d == 0 {
        '0'
    } else if d == 1 {
        '1'
    } else if d == 2 {
        '2'
    } else if d == 3 {
        '3'
    } else if d == 4 {
        '4'
    } else if d == 5 {
        '5'
    } else if d == 6 {
        '6'
    } else if d == 7 {
        '7'
    } else if d == 8 {
        '8'
    } else if d == 9 {
        '9'
    } else {
        '0'
    }
}

/// The decimal representation of a natural number, without leading zeros.
pub open spec fn dec_nat(n: nat) -> Seq<char>
    decreases n,
{
    if n < 10 {
        seq![digit_char(n as int)]
    } else {
        dec_nat(n / 10).push(digit_char((n % 10) as int))
    }
}

/// The decimal representation of an integer, with a leading `-` when negative.
pub open spec fn dec_int(x: int) -> Seq<char> {
    if x < 0 {
        seq!['-'] + dec_nat((-x) as nat)
    } else {
        dec_nat(x as nat)
    }
}

/// The string of the decimal digit `d`.
pub fn digit_str(d: u64) -> (r: &'static str)
    requires
        d < 10,
    ensures
        r@ == seq![digit_char(d as int)],
{
    match d {
        0 => {
            proof { reveal_strlit("0"); }
            "0"
        },
        1 => {
            proof { reveal_strlit("1"); }
            "1"
        },
        2 => {
            proof { reveal_strlit("2"); }
            "2"
        },
        3 => {
            proof { reveal_strlit("3"); }
            "3"
        },
        4 => {
            proof { reveal_strlit("4"); }
            "4"
        },
        5 => {
            proof { reveal_strlit("5"); }
            "5"
        },
        6 => {
            proof { reveal_strlit("6"); }
            "6"
        },
        7 => {
            proof { reveal_strlit("7"); }
            "7"
        },
        8 => {
            proof { reveal_strlit("8"); }
            "8"
        },
        9 => {
            proof { reveal_strlit("9"); }
            "9"
        },
        _ => {
            proof { assert(false); }
            "0"
        },
    }
}

/// Appends the decimal representation of `n` to `s`.
pub fn push_dec(s: &mut String, n: u64)
    ensures
        final(s)@ == old(s)@ + dec_nat(n as nat),
    decreases n,
{
    if n >= 10 {
        push_dec(s, n / 10);
    }
    let d = digit_str(n % 10);
    s.append(d);
    proof {
        if n >= 10 {
            assert(old(s)@ + dec_nat(n as nat) =~= old(s)@ + dec_nat((n / 10) as nat) + seq![digit_char((n % 10) as int)]);
        } else {
            assert(old(s)@ + dec_nat(n as nat) =~= old(s)@ + seq![digit_char((n % 10) as int)]);
        }
    }
}

/// Appends the decimal representation of `x` to `s`.
pub fn push_int(s: &mut String, x: i64)
    ensures
        final(s)@ == old(s)@ + dec_int(x as int),
{
    if x < 0 {
        proof { reveal_strlit("-"); }
        s.append("-");
        let m: i128 = -(x as i128);
        push_dec(s, m as u64);
        assert(final(s)@ =~= old(s)@ + dec_int(x as int));
    } else {
        push_dec(s, x as u64);
    }
}

/// The decimal representation of `n` as a string.
pub fn dec_string(n: u64) -> (r: String)
    ensures
        r@ == dec_nat(n as nat),
{
    let mut s = String::new();
    push_dec(&mut s, n);
    assert(s@ =~= dec_nat(n as nat));
    s
}

/// A decimal representation is never empty and never starts with `-`.
pub proof fn lemma_dec_nat_shape(n: nat)
    ensures
        dec_nat(n).len() >= 1,
        dec_nat(n)[0] != '-',
    decreases n,
{
    if n >= 10 {
        lemma_dec_nat_shape(n / 10);
    }
}

/// Different digits have different characters.
pub proof fn lemma_digit_char_injective(x: int, y: int)
    requires
        0 <= x < 10,
        0 <= y < 10,
        digit_char(x) == digit_char(y),
    ensures
        x == y,
{
}

/// Different numbers have different decimal representations.
pub proof fn lemma_dec_nat_injective(a: nat, b: nat)
    requires
        dec_nat(a) == dec_nat(b),
    ensures
        a == b,
    decreases a + b,
{
    lemma_dec_nat_shape(a);
    lemma_dec_nat_shape(b);
    if a < 10 && b < 10 {
        assert(dec_nat(a)[0] == dec_nat(b)[0]);
        lemma_digit_char_injective(a as int, b as int);
    } else if a >= 10 && b >= 10 {
        let da = dec_nat(a / 10);
        let db = dec_nat(b / 10);
        assert(da == dec_nat(a).drop_last());
        assert(db == dec_nat(b).drop_last());
        lemma_dec_nat_injective(a / 10, b / 10);
        assert(dec_nat(a).last() == dec_nat(b).last());
        assert(dec_nat(a).last() == digit_char((a % 10) as int));
        assert(dec_nat(b).last() == digit_char((b % 10) as int));
        lemma_digit_char_injective((a % 10) as int, (b % 10) as int);
    } else if a < 10 {
        lemma_dec_nat_shape(b / 10);
        assert(dec_nat(b).len() >= 2);
    } else {
        lemma_dec_nat_shape(a / 10);
        assert(dec_nat(a).len() >= 2);
    }
}

} // verus!
