//! Human-readable byte counts (`9.7 GB`), computed exactly in integers.
use vstd::prelude::*;
use crate::text::{dec_chars, push_char, push_dec};

verus! {

/// `2^e`.
pub open spec fn p2(e: nat) -> nat
    decreases e,
{
    if e == 0 {
        1
    } else {
        2 * p2((e - 1) as nat)
    }
}

/// How many low bits must be dropped for `n` to fit in the 53-bit significand
/// of an `f64`.
pub open spec fn shift_for(n: nat) -> nat
    decreases n,
{
    if n < 0x20_0000_0000_0000 {
        0
    } else {
        1 + shift_for(n / 2)
    }
}

/// `n as f64`, as an exact integer: `n` rounded to the nearest value with a
/// 53-bit significand, ties to the even significand.
pub open spec fn nearest_f64(n: nat) -> nat {
    let pw = p2(shift_for(n));
    let m = n / pw;
    let r = n % pw;
    let m2 = if 2 * r > pw || (2 * r == pw && m % 2 == 1) {
        m + 1
    } else {
        m
    };
    m2 * pw
}

/// `a / d` rounded to the nearest integer, ties to even (how `{:.1}` rounds
/// the exact binary value it prints).
pub open spec fn round_half_even_div(a: nat, d: nat) -> nat {
    let q = a / d;
    let r = a % d;
    if 2 * r > d || (2 * r == d && q % 2 == 1) {
        q + 1
    } else {
        q
    }
}

/// The unit a value is printed in: the largest power of 1024 (up to TB) that
/// it reaches.
pub open spec fn unit_index(x: nat) -> nat {
    if x >= p2(40) {
        4
    } else if x >= p2(30) {
        3
    } else if x >= p2(20) {
        2
    } else if x >= p2(10) {
        1
    } else {
        0
    }
}

pub open spec fn unit_name(i: nat) -> Seq<char> {
    if i == 1 {
        seq!['K', 'B']
    } else if i == 2 {
        seq!['M', 'B']
    } else if i == 3 {
        seq!['G', 'B']
    } else {
        seq!['T', 'B']
    }
}

/// `humanize_bytes(n)`: below 1 KB the exact count and `B`; otherwise the
/// value (as the `f64` nearest `n`) in the largest unit it reaches, with one
/// decimal.
pub open spec fn humanize_spec(n: nat) -> Seq<char> {
    let x = nearest_f64(n);
    let i = unit_index(x);
    if i == 0 {
        dec_chars(n) + seq![' ', 'B']
    } else {
        let q = round_half_even_div(10 * x, p2(10 * i));
        dec_chars(q / 10) + seq!['.'] + dec_chars(q % 10) + seq![' '] + unit_name(i)
    }
}

proof fn lemma_p2_values()
    ensures
        p2(10) == 0x400,
        p2(20) == 0x10_0000,
        p2(30) == 0x4000_0000,
        p2(40) == 0x100_0000_0000,
{
    reveal_with_fuel(p2, 41);
}

proof fn lemma_p2_pos(e: nat)
    ensures
        p2(e) >= 1,
    decreases e,
{
    if e > 0 {
        lemma_p2_pos((e - 1) as nat);
    }
}

/// `n as f64` as an exact integer.
fn nearest_f64_exec(n: u64) -> (x: u128)
    ensures
        x == nearest_f64(n as nat),
        x < 0x4_0000_0000_0000_0000,
{
    let mut m: u128 = n as u128;
    let mut pw: u128 = 1;
    let ghost mut e: nat = 0;
    proof {
        assert(p2(0) == 1);
    }
    while m >= 0x20_0000_0000_0000
        invariant
            pw == p2(e),
            pw >= 1,
            m == (n as nat) / (pw as nat),
            shift_for(n as nat) == e + shift_for(m as nat),
            m * pw <= n,
            pw > 1 ==> m >= 0x10_0000_0000_0000,
        decreases m,
    {
        proof {
            vstd::arithmetic::div_mod::lemma_div_denominator(n as int, pw as int, 2);
            assert(m * pw <= n);
            assert(pw * 2 <= n) by (nonlinear_arith)
                requires
                    m >= 0x20_0000_0000_0000,
                    m * pw <= n,
                    pw >= 1,
            ;
            assert((m / 2) * (pw * 2) <= m * pw) by (nonlinear_arith)
                requires
                    pw >= 1,
            ;
        }
        m = m / 2;
        pw = pw * 2;
        proof {
            e = e + 1;
            assert(p2(e) == 2 * p2((e - 1) as nat));
        }
    }
    proof {
        assert(shift_for(m as nat) == 0);
        vstd::arithmetic::div_mod::lemma_fundamental_div_mod(n as int, pw as int);
    }
    let r: u128 = n as u128 - m * pw;
    proof {
        assert(r == (n as nat) % (pw as nat));
    }
    let m2: u128 = if 2 * r > pw || (2 * r == pw && m % 2 == 1) {
        m + 1
    } else {
        m
    };
    proof {
        assert(m2 <= 0x20_0000_0000_0000);
        assert(pw < 0x1000) by (nonlinear_arith)
            requires
                m * pw <= n,
                n < 0x1_0000_0000_0000_0000,
                pw > 1 ==> m >= 0x10_0000_0000_0000,
                pw >= 1,
        ;
        assert(m2 * pw < 0x20_0000_0000_0000 * 0x2000) by (nonlinear_arith)
            requires
                m2 <= 0x20_0000_0000_0000,
                pw < 0x1000,
        ;
    }
    let x = m2 * pw;
    x
}

/// Format a byte count as a short human-readable string (e.g. `9.7 GB`).
pub fn humanize_bytes(n: u64) -> (s: String)
    ensures
        s@ == humanize_spec(n as nat),
{
    let x = nearest_f64_exec(n);
    proof {
        lemma_p2_values();
    }
    let mut s = String::new();
    let (i, d): (u64, u128) = if x >= 0x100_0000_0000 {
        (4, 0x100_0000_0000)
    } else if x >= 0x4000_0000 {
        (3, 0x4000_0000)
    } else if x >= 0x10_0000 {
        (2, 0x10_0000)
    } else if x >= 0x400 {
        (1, 0x400)
    } else {
        (0, 1)
    };
    if i == 0 {
        push_dec(&mut s, n);
        push_char(&mut s, ' ');
        push_char(&mut s, 'B');
        proof {
            assert(s@ =~= humanize_spec(n as nat));
        }
        return s;
    }
    proof {
        assert(d == p2(10 * (i as nat))) by {
            reveal_with_fuel(p2, 41);
        }
    }
    let v10: u128 = x * 10;
    let q0: u128 = v10 / d;
    let r: u128 = v10 % d;
    let q: u128 = if 2 * r > d || (2 * r == d && q0 % 2 == 1) {
        q0 + 1
    } else {
        q0
    };
    proof {
        assert(q0 <= v10);
        assert(q <= v10 + 1);
        assert(q / 10 <= 0xffff_ffff_ffff_ffff);
    }
    push_dec(&mut s, (q / 10) as u64);
    push_char(&mut s, '.');
    push_dec(&mut s, (q % 10) as u64);
    push_char(&mut s, ' ');
    if i == 1 {
        push_char(&mut s, 'K');
    } else if i == 2 {
        push_char(&mut s, 'M');
    } else if i == 3 {
        push_char(&mut s, 'G');
    } else {
        push_char(&mut s, 'T');
    }
    push_char(&mut s, 'B');
    proof {
        assert(q == round_half_even_div(10 * (x as nat), p2(10 * (i as nat))));
        assert(s@ =~= humanize_spec(n as nat));
    }
    s
}

} // verus!
