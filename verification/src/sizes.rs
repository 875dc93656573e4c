//! Byte counts written in binary units with two decimals, the way an `f64`
//! quotient prints with `{:.2}`, computed exactly with integers.
use vstd::prelude::*;
use crate::text::{decimal, push_char, push_decimal};

verus! {

/// `2` to the power `e`.
pub open spec fn two_pow(e: nat) -> nat
    decreases e,
{
    if e == 0 {
        1
    } else {
        2 * two_pow((e - 1) as nat)
    }
}

/// The number of binary digits of `n` (none for zero).
pub open spec fn bit_length(n: nat) -> nat
    decreases n,
{
    if n == 0 {
        0
    } else {
        1 + bit_length(n / 2)
    }
}

/// `n / d` rounded to the nearest integer, halves to the even neighbour.
pub open spec fn div_round_even(n: nat, d: nat) -> nat
    recommends
        d > 0,
{
    let q = n / d;
    let r = n % d;
    if 2 * r > d || (2 * r == d && q % 2 == 1) {
        q + 1
    } else {
        q
    }
}

/// The value of `n` as an `f64`: `n` rounded to 53 significant bits, halves to
/// the even neighbour.
pub open spec fn f64_value(n: nat) -> nat {
    if bit_length(n) <= 53 {
        n
    } else {
        let s = (bit_length(n) - 53) as nat;
        div_round_even(n, two_pow(s)) * two_pow(s)
    }
}

/// The two decimal digits of `n` (below 100).
pub open spec fn two_digits(n: nat) -> Seq<char> {
    seq![(48 + n / 10) as char, (48 + n % 10) as char]
}

/// `n / 2^k` with two decimals, the last rounded half to even.
pub open spec fn two_decimals(n: nat, k: nat) -> Seq<char> {
    let hundredths = div_round_even(n * 100, two_pow(k));
    decimal(hundredths / 100) + seq!['.'] + two_digits(hundredths % 100)
}

/// `2^(a + b) == 2^a * 2^b`.
pub proof fn lemma_two_pow_adds(a: nat, b: nat)
    ensures
        two_pow(a + b) == two_pow(a) * two_pow(b),
    decreases a,
{
    let y = two_pow(b);
    if a > 0 {
        let c = (a - 1) as nat;
        lemma_two_pow_adds(c, b);
        let x = two_pow(c);
        assert(two_pow(a) == 2 * x);
        assert(two_pow(a + b) == 2 * two_pow(c + b));
        assert(two_pow(c + b) == x * y);
        assert(2 * (x * y) == (2 * x) * y) by (nonlinear_arith);
    } else {
        assert(two_pow(a) == 1);
        assert(1 * y == y) by (nonlinear_arith);
    }
}

/// Every power of two is at least one.
pub proof fn lemma_two_pow_positive(e: nat)
    ensures
        two_pow(e) >= 1,
    decreases e,
{
    if e > 0 {
        lemma_two_pow_positive((e - 1) as nat);
    }
}

/// A number is below two to the power of its bit length, and a bound `2^b` on
/// it bounds its bit length by `b`.
pub proof fn lemma_bit_length(n: nat, b: nat)
    ensures
        n < two_pow(bit_length(n)),
        n < two_pow(b) ==> bit_length(n) <= b,
    decreases n,
{
    if n > 0 {
        lemma_bit_length(n / 2, (b - 1) as nat);
        if b == 0 {
            assert(two_pow(b) == 1);
        }
    }
}

/// Computes the bit length of `n`.
fn bits_of(n: u64) -> (b: u32)
    ensures
        b == bit_length(n as nat),
        b <= 64,
{
    proof {
        lemma_bit_length(n as nat, 64);
        lemma_two_pow_64();
    }
    let mut m: u64 = n;
    let mut b: u32 = 0;
    while m > 0
        invariant
            bit_length(n as nat) == b + bit_length(m as nat),
            bit_length(n as nat) <= 64,
        decreases m,
    {
        m = m / 2;
        b = b + 1;
    }
    b
}

proof fn lemma_two_pow_64()
    ensures
        two_pow(64) == 0x1_0000_0000_0000_0000,
        two_pow(10) == 1024,
{
    reveal_with_fuel(two_pow, 65);
}

/// `2^a <= 2^b` when `a <= b`.
pub proof fn lemma_two_pow_monotone(a: nat, b: nat)
    requires
        a <= b,
    ensures
        two_pow(a) <= two_pow(b),
{
    lemma_two_pow_adds(a, (b - a) as nat);
    lemma_two_pow_positive((b - a) as nat);
    let x = two_pow(a);
    let y = two_pow((b - a) as nat);
    assert(x * y >= x) by (nonlinear_arith)
        requires
            y >= 1,
            x >= 0,
    ;
}

/// Computes `2^e`.
fn pow_of_two(e: u32) -> (p: u128)
    requires
        e <= 64,
    ensures
        p == two_pow(e as nat),
{
    proof {
        lemma_two_pow_64();
    }
    let mut p: u128 = 1;
    let mut i: u32 = 0;
    while i < e
        invariant
            i <= e <= 64,
            p == two_pow(i as nat),
            two_pow(64) == 0x1_0000_0000_0000_0000,
        decreases e - i,
    {
        proof {
            lemma_two_pow_monotone(i as nat, 64);
        }
        p = p * 2;
        i = i + 1;
    }
    p
}

/// The rounded value of a number of `b > 53` bits fits in 64 bits.
proof fn lemma_f64_value_bound(n: nat, b: nat, s: nat)
    requires
        b == bit_length(n),
        b <= 64,
        b > 53,
        s == b - 53,
    ensures
        n / two_pow(s) < two_pow(53),
        (n / two_pow(s) + 1) * two_pow(s) <= 0x1_0000_0000_0000_0000,
        two_pow(s) >= 1,
{
    lemma_bit_length(n, 64);
    lemma_two_pow_adds(s, 53);
    lemma_two_pow_monotone(b, 64);
    lemma_two_pow_positive(s);
    lemma_two_pow_64();
    let p = two_pow(s);
    let m = two_pow(53);
    let t = two_pow(b);
    assert(s + 53 == b);
    assert(t == p * m);
    assert(n < t);
    assert(t <= 0x1_0000_0000_0000_0000);
    lemma_quotient_bound(n, p, m);
}

proof fn lemma_quotient_bound(n: nat, p: nat, m: nat)
    requires
        n < p * m,
        p >= 1,
        p * m <= 0x1_0000_0000_0000_0000,
    ensures
        n / p < m,
        (n / p + 1) * p <= 0x1_0000_0000_0000_0000,
{
    assert(n / p < m) by (nonlinear_arith)
        requires
            n < p * m,
            p >= 1,
    ;
    assert((n / p + 1) * p <= p * m) by (nonlinear_arith)
        requires
            n / p < m,
            p >= 1,
    ;
}

/// Computes `n / d` rounded half to even.
fn divide_round_even(n: u128, d: u128) -> (q: u128)
    requires
        d > 0,
        n / d < u128::MAX,
    ensures
        q == div_round_even(n as nat, d as nat),
{
    let q = n / d;
    let r = n % d;
    if r > d - r || (r == d - r && q % 2 == 1) {
        q + 1
    } else {
        q
    }
}

/// Computes the value of `n` as an `f64`.
pub fn value_as_f64(n: u64) -> (v: u128)
    ensures
        v == f64_value(n as nat),
        v <= 0x1_0000_0000_0000_0000,
{
    let b = bits_of(n);
    if b <= 53 {
        return n as u128;
    }
    let s = b - 53;
    let p = pow_of_two(s);
    proof {
        lemma_f64_value_bound(n as nat, b as nat, s as nat);
    }
    let q = divide_round_even(n as u128, p);
    proof {
        let ghost bound = (n as nat) / (p as nat) + 1;
        assert(q <= bound);
        assert((q as nat) * (p as nat) <= bound * (p as nat)) by (nonlinear_arith)
            requires
                q <= bound,
        ;
    }
    q * p
}

/// Writes `n / 2^k` with two decimals onto `s`.
pub fn push_two_decimals(s: &mut String, n: u128, k: u32)
    requires
        10 <= k <= 64,
        n <= 0x1_0000_0000_0000_0000,
    ensures
        final(s)@ == old(s)@ + two_decimals(n as nat, k as nat),
{
    let d = pow_of_two(k);
    proof {
        lemma_two_pow_monotone(10, k as nat);
        lemma_two_pow_64();
        assert((n * 100) as nat / (d as nat) <= 0x1_0000_0000_0000_0000 * 100 / 1024) by (nonlinear_arith)
            requires
                n <= 0x1_0000_0000_0000_0000,
                d >= 1024,
        ;
    }
    let hundredths = divide_round_even(n * 100, d);
    let whole: u64 = (hundredths / 100) as u64;
    let cents: u8 = (hundredths % 100) as u8;
    push_decimal(s, whole);
    push_char(s, '.');
    push_char(s, ((48u8 + cents / 10) as char));
    push_char(s, ((48u8 + cents % 10) as char));
    proof {
        assert(s@ =~= old(s)@ + two_decimals(n as nat, k as nat));
    }
}

} // verus!
