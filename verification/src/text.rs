//! Character-level helpers shared by the path, naming and formatting code.
use vstd::prelude::*;

verus! {

/// `String::push` from std: appends one char, so the view grows by exactly that char.
#[verifier::external_body]
pub(crate) fn push_char(s: &mut String, c: char)
    ensures
        final(s)@ == old(s)@.push(c),
{
    s.push(c);
}

/// The chars of `s`, in order.
pub fn chars_of(s: &str) -> (v: Vec<char>)
    ensures
        v@ == s@,
{
    let mut v: Vec<char> = Vec::new();
    for c in it: s.chars()
        invariant
            v@ == it.seq().take(it.index() as int),
    {
        v.push(c);
    }
    v
}

/// Appends every char of `v` to `s`.
pub fn push_chars(s: &mut String, v: &Vec<char>)
    ensures
        final(s)@ == old(s)@ + v@,
{
    let ghost start = s@;
    for i in 0..v.len()
        invariant
            s@ == start + v@.take(i as int),
    {
        push_char(s, v[i]);
        assert(v@.take(i + 1) == v@.take(i as int).push(v@[i as int]));
    }
    assert(v@.take(v@.len() as int) == v@);
}

/// A `String` holding exactly the chars of `v`.
pub fn string_of(v: &Vec<char>) -> (s: String)
    ensures
        s@ == v@,
{
    let mut s = String::new();
    push_chars(&mut s, v);
    s
}

/// Appends every char of `t` to `s`.
pub fn push_str(s: &mut String, t: &str)
    ensures
        final(s)@ == old(s)@ + t@,
{
    let v = chars_of(t);
    push_chars(s, &v);
}

/// Char-wise equality of two string slices.
pub fn str_eq(a: &str, b: &str) -> (r: bool)
    ensures
        r == (a@ == b@),
{
    let x = chars_of(a);
    let y = chars_of(b);
    seq_chars_eq(&x, &y)
}

/// Char-wise equality of two char vectors.
pub fn seq_chars_eq(x: &Vec<char>, y: &Vec<char>) -> (r: bool)
    ensures
        r == (x@ == y@),
{
    if x.len() != y.len() {
        return false;
    }
    for i in 0..x.len()
        invariant
            x.len() == y.len(),
            forall|j: int| 0 <= j < i ==> x@[j] == y@[j],
    {
        if x[i] != y[i] {
            return false;
        }
    }
    assert(x@ =~= y@);
    true
}

/// The ASCII digit for `d` (`d < 10`).
pub open spec fn digit_char(d: nat) -> char {
    if d == 0 { '0' } else if d == 1 { '1' } else if d == 2 { '2' } else if d == 3 { '3' }
    else if d == 4 { '4' } else if d == 5 { '5' } else if d == 6 { '6' } else if d == 7 { '7' }
    else if d == 8 { '8' } else { '9' }
}

/// The ASCII digit for `d`.
pub fn digit(d: u64) -> (c: char)
    requires
        d < 10,
    ensures
        c == digit_char(d as nat),
{
    if d == 0 { '0' } else if d == 1 { '1' } else if d == 2 { '2' } else if d == 3 { '3' }
    else if d == 4 { '4' } else if d == 5 { '5' } else if d == 6 { '6' } else if d == 7 { '7' }
    else if d == 8 { '8' } else { '9' }
}

/// Decimal digits of `n`, most significant first, with no leading zeros ("0" for zero).
pub open spec fn dec_chars(n: nat) -> Seq<char>
    decreases n,
{
    if n < 10 {
        seq![digit_char(n)]
    } else {
        dec_chars(n / 10).push(digit_char(n % 10))
    }
}

/// Lowercase hex digit for `d` (`d < 16`).
pub open spec fn hex_char(d: nat) -> char {
    if d < 10 { digit_char(d) } else if d == 10 { 'a' } else if d == 11 { 'b' } else if d == 12 { 'c' }
    else if d == 13 { 'd' } else if d == 14 { 'e' } else { 'f' }
}

/// The lowercase hex digit for `d`.
pub fn hex_digit(d: u64) -> (c: char)
    requires
        d < 16,
    ensures
        c == hex_char(d as nat),
{
    if d < 10 { digit(d) } else if d == 10 { 'a' } else if d == 11 { 'b' } else if d == 12 { 'c' }
    else if d == 13 { 'd' } else if d == 14 { 'e' } else { 'f' }
}

/// The last `w` hex digits of `v`, zero-padded: `format!("{:0w$x}", v)` when `v < 16^w`.
pub open spec fn hex_fixed(v: nat, w: nat) -> Seq<char>
    decreases w,
{
    if w == 0 {
        Seq::empty()
    } else {
        hex_fixed(v / 16, (w - 1) as nat).push(hex_char(v % 16))
    }
}

/// `w` copies of `'0'`.
pub open spec fn zeros(w: nat) -> Seq<char>
    decreases w,
{
    if w == 0 {
        Seq::empty()
    } else {
        zeros((w - 1) as nat).push('0')
    }
}

/// `format!("{:0w$}", n)` for a non-negative `n`: the decimal digits of `n`,
/// left-padded with zeros up to width `w`.
pub open spec fn zero_padded(n: nat, w: nat) -> Seq<char> {
    if dec_chars(n).len() < w {
        zeros((w - dec_chars(n).len()) as nat) + dec_chars(n)
    } else {
        dec_chars(n)
    }
}

/// `format!("{:0w$}", n)` for a signed `n`: the sign counts toward the width.
pub open spec fn zero_padded_signed(n: int, w: nat) -> Seq<char> {
    if n < 0 {
        seq!['-'] + zero_padded((-n) as nat, if w > 0 { (w - 1) as nat } else { 0 })
    } else {
        zero_padded(n as nat, w)
    }
}

pub proof fn lemma_dec_chars_len_pos(n: nat)
    ensures
        dec_chars(n).len() >= 1,
    decreases n,
{
    if n >= 10 {
        lemma_dec_chars_len_pos(n / 10);
    }
}

/// Appends the decimal digits of `n`.
pub fn push_dec(s: &mut String, n: u64)
    ensures
        final(s)@ == old(s)@ + dec_chars(n as nat),
    decreases n,
{
    if n >= 10 {
        push_dec(s, n / 10);
    }
    push_char(s, digit(n % 10));
}

/// Appends `w` zeros.
pub fn push_zeros(s: &mut String, w: usize)
    ensures
        final(s)@ == old(s)@ + zeros(w as nat),
    decreases w,
{
    if w > 0 {
        push_zeros(s, w - 1);
        push_char(s, '0');
    }
}

/// Number of decimal digits of `n`.
pub fn dec_len(n: u64) -> (l: usize)
    ensures
        l as nat == dec_chars(n as nat).len(),
    decreases n,
{
    proof {
        lemma_dec_chars_len_pos(n as nat);
    }
    if n < 10 {
        1
    } else {
        let k = dec_len(n / 10);
        proof {
            lemma_dec_chars_len_pos((n / 10) as nat);
            lemma_u64_below_pow10_20(n);
            lemma_dec_len_bound(n as nat, 20);
        }
        k + 1
    }
}

pub open spec fn pow10(k: nat) -> nat
    decreases k,
{
    if k == 0 {
        1
    } else {
        10 * pow10((k - 1) as nat)
    }
}

proof fn lemma_dec_len_bound(n: nat, k: nat)
    requires
        n < pow10(k),
        k >= 1,
    ensures
        dec_chars(n).len() <= k,
    decreases n,
{
    if n >= 10 {
        assert(k >= 2) by {
            if k == 1 {
                assert(pow10(1) == 10 * pow10(0));
            }
        }
        assert(pow10(k) == 10 * pow10((k - 1) as nat));
        lemma_dec_len_bound(n / 10, (k - 1) as nat);
    }
}

proof fn lemma_u64_below_pow10_20(n: u64)
    ensures
        (n as nat) < pow10(20),
{
    reveal_with_fuel(pow10, 21);
}

/// Appends `format!("{:0w$}", n)`.
pub fn push_zero_padded(s: &mut String, n: u64, w: usize)
    ensures
        final(s)@ == old(s)@ + zero_padded(n as nat, w as nat),
{
    let l = dec_len(n);
    if l < w {
        push_zeros(s, w - l);
    }
    push_dec(s, n);
    proof {
        if l < w {
            assert(final(s)@ =~= old(s)@ + zero_padded(n as nat, w as nat));
        }
    }
}

/// Appends `format!("{:0w$}", n)` for a signed `n`.
pub fn push_zero_padded_signed(s: &mut String, n: i64, w: usize)
    ensures
        final(s)@ == old(s)@ + zero_padded_signed(n as int, w as nat),
{
    if n < 0 {
        push_char(s, '-');
        let m: u64 = if n == i64::MIN {
            9223372036854775808u64
        } else {
            (-n) as u64
        };
        push_zero_padded(s, m, if w > 0 { w - 1 } else { 0 });
        assert(final(s)@ =~= old(s)@ + zero_padded_signed(n as int, w as nat));
    } else {
        push_zero_padded(s, n as u64, w);
    }
}

/// Appends the last `w` lowercase hex digits of `v`.
pub fn push_hex_fixed(s: &mut String, v: u128, w: usize)
    ensures
        final(s)@ == old(s)@ + hex_fixed(v as nat, w as nat),
    decreases w,
{
    if w > 0 {
        push_hex_fixed(s, v / 16, w - 1);
        push_char(s, hex_digit((v % 16) as u64));
    }
}

/// `format!("{:032x}", v)`: the 128-bit value as 32 lowercase hex digits.
pub fn hex32(v: u128) -> (s: String)
    ensures
        s@ == hex_fixed(v as nat, 32),
        s@.len() == 32,
{
    let mut s = String::new();
    push_hex_fixed(&mut s, v, 32);
    proof {
        lemma_hex_fixed_len(v as nat, 32);
    }
    s
}

pub proof fn lemma_hex_fixed_len(v: nat, w: nat)
    ensures
        hex_fixed(v, w).len() == w,
    decreases w,
{
    if w > 0 {
        lemma_hex_fixed_len(v / 16, (w - 1) as nat);
    }
}

/// ASCII lowercase of one char; other chars are unchanged.
pub open spec fn ascii_lower(c: char) -> char {
    if 'A' <= c <= 'Z' {
        ((c as u32) + 32) as char
    } else {
        c
    }
}

/// `a.eq_ignore_ascii_case(b)`.
pub open spec fn eq_ignore_ascii_case_spec(a: Seq<char>, b: Seq<char>) -> bool {
    &&& a.len() == b.len()
    &&& forall|i: int| 0 <= i < a.len() ==> ascii_lower(#[trigger] a[i]) == ascii_lower(b[i])
}

pub fn to_ascii_lower(c: char) -> (r: char)
    ensures
        r == ascii_lower(c),
{
    if 'A' <= c && c <= 'Z' {
        let u: u32 = c as u32;
        let l: u8 = (u + 32) as u8;
        l as char
    } else {
        c
    }
}

/// `a.eq_ignore_ascii_case(b)`.
pub fn eq_ignore_ascii_case(a: &str, b: &str) -> (r: bool)
    ensures
        r == eq_ignore_ascii_case_spec(a@, b@),
{
    let x = chars_of(a);
    let y = chars_of(b);
    if x.len() != y.len() {
        return false;
    }
    for i in 0..x.len()
        invariant
            x.len() == y.len(),
            x@ == a@,
            y@ == b@,
            forall|j: int| 0 <= j < i ==> ascii_lower(#[trigger] x@[j]) == ascii_lower(y@[j]),
    {
        if to_ascii_lower(x[i]) != to_ascii_lower(y[i]) {
            return false;
        }
    }
    true
}

} // verus!
