//! Rounding to the nearest integer and to the nearest number that a double holds.
use vstd::arithmetic::div_mod::*;
use vstd::arithmetic::mul::*;
use vstd::prelude::*;

verus! {

/// The integers below this are doubles.
pub const DOUBLE_LIMIT: u128 = 0x20_0000_0000_0000;

/// The integer nearest to `num / den`; of two equally near ones, the even one.
pub open spec fn round_half_even(num: nat, den: nat) -> nat {
    let q = num / den;
    let r = num % den;
    if 2 * r < den {
        q
    } else if 2 * r > den {
        q + 1
    } else {
        q + q % 2
    }
}

/// The spacing of the doubles around an integer: the least power of two that brings it below
/// 2^53.
pub open spec fn double_spacing(n: nat) -> nat
    decreases n,
{
    if n < DOUBLE_LIMIT {
        1
    } else {
        2 * double_spacing(n / 2)
    }
}

/// The double nearest to an integer; of two equally near ones, that with the even significand.
pub open spec fn nearest_double(n: nat) -> nat {
    round_half_even(n, double_spacing(n)) * double_spacing(n)
}

/// Divides and rounds to the nearest integer, halves to even.
pub fn divide_rounded(num: u128, den: u128) -> (res: u128)
    requires
        0 < den,
        den <= 0x8000_0000_0000_0000_0000_0000_0000_0000,
        num < u128::MAX,
    ensures
        res == round_half_even(num as nat, den as nat),
{
    let q: u128 = num / den;
    let r: u128 = num % den;
    proof {
        lemma_fundamental_div_mod(num as int, den as int);
        assert(q <= num) by (nonlinear_arith)
            requires
                q == num / den,
                den > 0,
        ;
    }
    let rest: u128 = den - r;
    if r < rest {
        q
    } else if r > rest {
        q + 1
    } else {
        q + q % 2
    }
}

/// Rounding to the nearest integer keeps the order.
pub proof fn rounding_monotone(a: nat, b: nat, den: nat)
    requires
        a <= b,
        den > 0,
    ensures
        round_half_even(a, den) <= round_half_even(b, den),
{
    let (p, r) = (a / den, a % den);
    let (q, s) = (b / den, b % den);
    lemma_fundamental_div_mod(a as int, den as int);
    lemma_fundamental_div_mod(b as int, den as int);
    assert(p <= q) by {
        lemma_div_is_ordered(a as int, b as int, den as int);
    }
    if p == q {
        assert(r <= s);
    }
}

/// Rounding leaves an exact quotient alone.
pub proof fn rounding_exact(q: nat, den: nat)
    requires
        den > 0,
    ensures
        round_half_even(q * den, den) == q,
{
    lemma_mod_multiples_basic(q as int, den as int);
    lemma_div_multiples_vanish(q as int, den as int);
    assert(q * den == den * q) by (nonlinear_arith);
}

/// The double nearest to an integer.
pub fn to_double(n: u128) -> (res: u128)
    requires
        n <= 0x4000_0000_0000_0000_0000_0000_0000_0000,
    ensures
        res == nearest_double(n as nat),
        res <= 2 * n,
{
    let mut unit: u128 = 1;
    let mut m: u128 = n;
    proof {
        lemma_mul_basics(double_spacing(n as nat) as int);
    }
    while m >= 0x20_0000_0000_0000
        invariant
            n <= 0x4000_0000_0000_0000_0000_0000_0000_0000,
            1 <= unit,
            unit * m <= n,
            double_spacing(n as nat) == unit * double_spacing(m as nat),
        decreases m,
    {
        proof {
            let half = m / 2;
            assert(unit * 2 * half <= unit * m) by (nonlinear_arith)
                requires
                    half == m / 2,
                    unit >= 1,
            ;
            assert(unit * 2 <= unit * m) by (nonlinear_arith)
                requires
                    m >= 2,
                    unit >= 1,
            ;
            assert(unit * (2 * double_spacing(half as nat)) == unit * 2 * double_spacing(
                half as nat,
            )) by (nonlinear_arith);
        }
        unit = unit * 2;
        m = m / 2;
    }
    proof {
        lemma_mul_basics(unit as int);
        if m >= 1 {
            assert(unit <= unit * m) by (nonlinear_arith)
                requires
                    m >= 1,
                    unit >= 1,
            ;
        } else {
            lemma_spacing_small(n as nat, unit as nat, m as nat);
        }
    }
    let q: u128 = divide_rounded(n, unit);
    proof {
        lemma_fundamental_div_mod(n as int, unit as int);
        let d = n as int / unit as int;
        let r = n as int % unit as int;
        assert(q <= d + 1);
        assert(q == d || 2 * r >= unit);
        assert((d + 1) * unit == d * unit + unit) by (nonlinear_arith);
        assert(d * unit == unit * d) by (nonlinear_arith);
        assert(d >= 0) by {
            lemma_div_pos_is_pos(n as int, unit as int);
        }
        assert(q * unit <= 2 * n) by {
            if q == d {
            } else {
                assert(q == d + 1);
                assert(d * unit + unit <= d * unit + 2 * r);
                assert(d * unit >= 0) by (nonlinear_arith)
                    requires
                        d >= 0,
                        unit >= 1,
                ;
            }
        }
    }
    q * unit
}

/// A number that needs no halving is its own double.
proof fn lemma_spacing_small(n: nat, unit: nat, m: nat)
    requires
        m == 0,
        double_spacing(n) == unit * double_spacing(m),
    ensures
        unit <= n || n == 0 && unit == 1,
{
    lemma_spacing_bound(n);
    lemma_mul_basics(unit as int);
}

/// The spacing never exceeds the number.
proof fn lemma_spacing_bound(n: nat)
    ensures
        n > 0 ==> double_spacing(n) <= n,
        n == 0 ==> double_spacing(n) == 1,
    decreases n,
{
    if n >= DOUBLE_LIMIT {
        lemma_spacing_bound(n / 2);
    }
}

/// Integers below 2^53 are doubles.
pub proof fn small_integers_are_doubles(n: nat)
    requires
        n < DOUBLE_LIMIT,
    ensures
        nearest_double(n) == n,
{
    rounding_exact(n, 1);
    lemma_mul_basics(n as int);
}

/// A number is less than 2^53 spacings, and one that is not a small integer at least 2^52 of them.
pub proof fn lemma_spacing_range(n: nat)
    ensures
        double_spacing(n) >= 1,
        n < DOUBLE_LIMIT * double_spacing(n),
        n >= DOUBLE_LIMIT ==> 0x10_0000_0000_0000 * double_spacing(n) <= n,
    decreases n,
{
    if n >= DOUBLE_LIMIT {
        lemma_spacing_range(n / 2);
    }
}

/// Greater numbers have no closer doubles around them.
pub proof fn lemma_spacing_monotone(a: nat, b: nat)
    requires
        a <= b,
    ensures
        double_spacing(a) <= double_spacing(b),
        double_spacing(a) < double_spacing(b) ==> 2 * double_spacing(a) <= double_spacing(b),
    decreases b,
{
    if a >= DOUBLE_LIMIT {
        lemma_spacing_monotone(a / 2, b / 2);
    } else if b >= DOUBLE_LIMIT {
        lemma_spacing_range(b / 2);
    }
}

/// Rounding to a double keeps the order.
pub proof fn doubles_keep_order(a: nat, b: nat)
    requires
        a <= b,
    ensures
        nearest_double(a) <= nearest_double(b),
{
    let (s, t) = (double_spacing(a), double_spacing(b));
    let (q, r) = (round_half_even(a, s), round_half_even(b, t));
    lemma_spacing_monotone(a, b);
    lemma_spacing_range(a);
    lemma_spacing_range(b);
    if s == t {
        rounding_monotone(a, b, s);
        assert(q * s <= r * s) by (nonlinear_arith)
            requires
                q <= r,
        ;
    } else {
        let limit = DOUBLE_LIMIT as nat;
        rounding_exact(limit, s);
        rounding_monotone(a, limit * s, s);
        rounding_exact(limit / 2, t);
        rounding_monotone((limit / 2) * t, b, t);
        assert(q * s <= limit * s) by (nonlinear_arith)
            requires
                q <= limit,
        ;
        assert((limit / 2) * t <= r * t) by (nonlinear_arith)
            requires
                limit / 2 <= r,
        ;
    }
}

/// Rounding to a double makes a number greater by no more than one part in 2^52.
pub proof fn doubles_are_near(n: nat)
    ensures
        nearest_double(n) * 0x10_0000_0000_0000 <= n * 0x10_0000_0000_0001,
{
    if n < DOUBLE_LIMIT {
        small_integers_are_doubles(n);
    } else {
        let s = double_spacing(n);
        let q = round_half_even(n, s);
        lemma_spacing_range(n);
        lemma_fundamental_div_mod(n as int, s as int);
        let d = n / s;
        assert(q * s <= (d + 1) * s) by (nonlinear_arith)
            requires
                q <= d + 1,
        ;
        assert((d + 1) * s == s * d + s) by (nonlinear_arith);
    }
}

/// Rounding to a double makes a number smaller by no more than one part in 2^52.
pub proof fn doubles_are_not_far(n: nat)
    ensures
        n * 0x10_0000_0000_0000 <= nearest_double(n) * 0x10_0000_0000_0000 + n,
{
    if n < DOUBLE_LIMIT {
        small_integers_are_doubles(n);
    } else {
        let s = double_spacing(n);
        let q = round_half_even(n, s);
        lemma_spacing_range(n);
        lemma_fundamental_div_mod(n as int, s as int);
        lemma_mod_bound(n as int, s as int);
        let d = n / s;
        assert(q * s >= d * s) by (nonlinear_arith)
            requires
                q >= d,
        ;
        assert(d * s == s * d) by (nonlinear_arith);
    }
}

} // verus!
