//! Rendering of permission bits and of file sizes, as the tree view
//! shows them.

use vstd::prelude::*;
use crate::text::{decimal, digit_char, push_char, push_decimal};

verus! {

/// `rwx` notation of the three low bits of `v`, `-` for a clear bit.
pub open spec fn triplet(v: nat) -> Seq<char> {
    seq![
        if (v / 4) % 2 == 1 { 'r' } else { '-' },
        if (v / 2) % 2 == 1 { 'w' } else { '-' },
        if v % 2 == 1 { 'x' } else { '-' },
    ]
}

/// `rwxrwxrwx` notation of the user, group and other bits of a mode.
pub open spec fn permissions(mode: nat) -> Seq<char> {
    triplet((mode / 64) % 8) + triplet((mode / 8) % 8) + triplet(mode % 8)
}

/// Renders three permission bits.
pub fn fmt_triplet(val: u32) -> (res: String)
    ensures
        res@ == triplet((val % 8) as nat),
{
    let mut res = String::new();
    let r = val & 4 != 0;
    let w = val & 2 != 0;
    let x = val & 1 != 0;
    assert((val & 4 != 0) == (((val % 8) / 4) % 2 == 1)) by (bit_vector);
    assert((val & 2 != 0) == (((val % 8) / 2) % 2 == 1)) by (bit_vector);
    assert((val & 1 != 0) == ((val % 8) % 2 == 1)) by (bit_vector);
    push_char(&mut res, if r { 'r' } else { '-' });
    push_char(&mut res, if w { 'w' } else { '-' });
    push_char(&mut res, if x { 'x' } else { '-' });
    assert(res@ =~= triplet((val % 8) as nat));
    res
}

/// Renders the permission bits of a file mode.
pub fn format_permissions(mode: u32) -> (res: String)
    ensures
        res@ == permissions(mode as nat),
{
    let user = (mode >> 6) & 7;
    let group = (mode >> 3) & 7;
    let other = mode & 7;
    assert(((mode >> 6) & 7) == (mode / 64) % 8) by (bit_vector);
    assert(((mode >> 3) & 7) == (mode / 8) % 8) by (bit_vector);
    assert((mode & 7) == mode % 8) by (bit_vector);
    assert(user % 8 == user && group % 8 == group && other % 8 == other);
    let mut res = fmt_triplet(user);
    let g = fmt_triplet(group);
    let o = fmt_triplet(other);
    res.append(g.as_str());
    res.append(o.as_str());
    res
}

/// Powers of two.
pub open spec fn pow2(n: nat) -> nat
    decreases n,
{
    if n == 0 { 1 } else { 2 * pow2((n - 1) as nat) }
}

/// How many low bits of `n` a 53-bit significand cannot hold.
pub open spec fn excess_bits(n: nat) -> nat
    decreases n,
{
    if n < 0x20_0000_0000_0000 { 0 } else { 1 + excess_bits(n / 2) }
}

/// Rounding `q + r / d` (with `r < d`) to an integer, a tie going to the
/// even neighbour.
pub open spec fn round_half_even(q: nat, r: nat, d: nat) -> nat {
    if 2 * r > d || (2 * r == d && q % 2 == 1) {
        q + 1
    } else {
        q
    }
}

/// The value of `n` as a 64-bit float holds it: `n` rounded to 53
/// significant bits, ties to even.
pub open spec fn as_double(n: nat) -> nat {
    let p = pow2(excess_bits(n));
    round_half_even(n / p, n % p, p) * p
}

/// The unit of a size: how many times it is divided by 1024 (at most 3).
pub open spec fn unit_index(v: nat) -> nat {
    if v >= 1024 * 1024 * 1024 {
        3
    } else if v >= 1024 * 1024 {
        2
    } else if v >= 1024 {
        1
    } else {
        0
    }
}

pub open spec fn unit_divisor(k: nat) -> nat {
    if k == 0 { 1 } else if k == 1 { 1024 } else if k == 2 { 1024 * 1024 } else { 1024 * 1024 * 1024 }
}

pub open spec fn unit_name(k: nat) -> Seq<char> {
    if k == 0 { seq!['B'] } else if k == 1 { seq!['K', 'B'] } else if k == 2 { seq!['M', 'B'] } else { seq!['G', 'B'] }
}

/// The size in tenths of the chosen unit, rounded half to even.
pub open spec fn size_tenths(size: nat) -> nat {
    let v = as_double(size);
    let d = unit_divisor(unit_index(v));
    round_half_even((v * 10) / d, (v * 10) % d, d)
}

/// A size in B, KB, MB or GB with one decimal: the largest unit (up to GB)
/// that leaves at least 1, and the value rounded to tenths, ties to even.
pub open spec fn human_size(size: nat) -> Seq<char> {
    let t = size_tenths(size);
    decimal(t / 10) + seq!['.', digit_char(t % 10), ' '] + unit_name(unit_index(as_double(size)))
}

proof fn lemma_pow2_step(n: nat)
    ensures
        pow2(n + 1) == 2 * pow2(n),
        pow2(n) >= 1,
    decreases n,
{
    if n > 0 {
        lemma_pow2_step((n - 1) as nat);
    }
}

proof fn lemma_pow2_le(a: nat, b: nat)
    requires
        a <= b,
    ensures
        pow2(a) <= pow2(b),
    decreases b,
{
    lemma_pow2_step(b);
    if a < b {
        lemma_pow2_le(a, (b - 1) as nat);
        lemma_pow2_step((b - 1) as nat);
    }
}

proof fn lemma_excess_bound(m: nat, j: nat)
    requires
        m < 0x20_0000_0000_0000 * pow2(j),
    ensures
        excess_bits(m) <= j,
    decreases j,
{
    if m >= 0x20_0000_0000_0000 {
        if j == 0 {
            assert(pow2(0) == 1);
        } else {
            lemma_pow2_step((j - 1) as nat);
            lemma_excess_bound(m / 2, (j - 1) as nat);
        }
    }
}

proof fn lemma_excess_quotient(n: nat)
    ensures
        pow2(excess_bits(n)) >= 1,
        n / pow2(excess_bits(n)) < 0x20_0000_0000_0000,
    decreases n,
{
    lemma_pow2_step(excess_bits(n));
    if n >= 0x20_0000_0000_0000 {
        let e = excess_bits(n / 2);
        lemma_excess_quotient(n / 2);
        lemma_pow2_step(e);
        vstd::arithmetic::div_mod::lemma_div_denominator(n as int, 2, pow2(e) as int);
        assert(pow2(excess_bits(n)) == 2 * pow2(e));
    } else {
        assert(pow2(0) == 1);
    }
}

/// How many low bits of a `u64` do not fit a 53-bit significand.
fn excess_of(n: u64) -> (res: u32)
    ensures
        res == excess_bits(n as nat),
        res <= 11,
{
    proof {
        reveal_with_fuel(pow2, 12);
        lemma_excess_bound(n as nat, 11);
    }
    let mut m = n;
    let mut count: u32 = 0;
    while m >= 0x20_0000_0000_0000
        invariant
            excess_bits(n as nat) == count + excess_bits(m as nat),
            excess_bits(n as nat) <= 11,
        decreases m,
    {
        m = m / 2;
        count = count + 1;
    }
    count
}

/// The value a 64-bit float holds for `size`.
fn double_value(size: u64) -> (v: u128)
    ensures
        v == as_double(size as nat),
        v <= 0x1_0000_0000_0000_0000u128,
{
    let drop = excess_of(size);
    let mut p: u128 = 1;
    let mut i: u32 = 0;
    while i < drop
        invariant
            i <= drop <= 11,
            p == pow2(i as nat),
        decreases drop - i,
    {
        proof {
            lemma_pow2_step(i as nat);
            lemma_pow2_le((i + 1) as nat, 11);
            reveal_with_fuel(pow2, 12);
        }
        p = p * 2;
        i = i + 1;
    }
    proof {
        lemma_pow2_step(drop as nat);
        lemma_pow2_le(drop as nat, 11);
        reveal_with_fuel(pow2, 12);
        lemma_excess_quotient(size as nat);
    }
    let n = size as u128;
    let q = n / p;
    let r = n % p;
    let rounded = if 2 * r > p || (2 * r == p && q % 2 == 1) { q + 1 } else { q };
    assert(rounded * p <= 0x1_0000_0000_0000_0000u128) by (nonlinear_arith)
        requires rounded <= q + 1, q < 0x20_0000_0000_0000u128, p >= 1, p <= 2048;
    rounded * p
}

/// The unit index and the value in tenths of that unit.
fn tenths(v: u128) -> (res: (u32, u64))
    requires
        v <= 0x1_0000_0000_0000_0000u128,
    ensures
        res.0 == unit_index(v as nat),
        res.1 == round_half_even(
            ((v as nat) * 10) / unit_divisor(unit_index(v as nat)),
            ((v as nat) * 10) % unit_divisor(unit_index(v as nat)),
            unit_divisor(unit_index(v as nat)),
        ),
{
    let k: u32 = if v >= 1024 * 1024 * 1024 { 3 } else if v >= 1024 * 1024 { 2 } else if v >= 1024 { 1 } else { 0 };
    let d: u128 = if k == 0 { 1 } else if k == 1 { 1024 } else if k == 2 { 1024 * 1024 } else { 1024 * 1024 * 1024 };
    let tq = (v * 10) / d;
    let tr = (v * 10) % d;
    assert(tq <= 0xffff_ffff_ffff) by (nonlinear_arith)
        requires
            tq == (v as int * 10) / (d as int),
            d >= 1,
            v <= 0x1_0000_0000_0000_0000u128,
            v < 0x4000_0000 || d == 0x4000_0000;
    let t = if 2 * tr > d || (2 * tr == d && tq % 2 == 1) { tq + 1 } else { tq };
    (k, t as u64)
}

/// Renders a size as the tree view shows it, e.g. `1.5 KB`.
pub fn human_bytes(size: u64) -> (res: String)
    ensures
        res@ == human_size(size as nat),
{
    let v = double_value(size);
    let (k, t) = tenths(v);
    assert(t == size_tenths(size as nat));
    let mut res = String::new();
    push_decimal(&mut res, t / 10);
    push_char(&mut res, '.');
    push_char(&mut res, digit10(t % 10));
    push_char(&mut res, ' ');
    if k == 0 {
        push_char(&mut res, 'B');
    } else {
        push_char(&mut res, if k == 1 { 'K' } else if k == 2 { 'M' } else { 'G' });
        push_char(&mut res, 'B');
    }
    assert(res@ =~= human_size(size as nat));
    res
}

fn digit10(d: u64) -> (c: char)
    requires
        d < 10,
    ensures
        c == digit_char(d as nat),
{
    if d == 0 { '0' } else if d == 1 { '1' } else if d == 2 { '2' } else if d == 3 { '3' }
    else if d == 4 { '4' } else if d == 5 { '5' } else if d == 6 { '6' } else if d == 7 { '7' }
    else if d == 8 { '8' } else { '9' }
}

} // verus!
