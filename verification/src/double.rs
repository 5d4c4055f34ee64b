//! Arithmetic on doubles, in integers.
//!
//! Every double is a multiple of the least positive one, 2^-1074, and is stated here as the number
//! of times that it holds it. An operation gives the double nearest to the exact result; of two
//! equally near ones, that with the even significand. There is no greatest double here: a result
//! beyond the range of doubles is treated as if exponents had no limit.
use crate::rounding;
use vstd::arithmetic::div_mod::*;
use vstd::arithmetic::mul::*;
use vstd::arithmetic::power2::*;
use vstd::prelude::*;

verus! {

/// How often the least positive double goes into one.
pub open spec fn one() -> nat {
    pow2(1074)
}

/// The double nearest to `num / den`.
pub open spec fn rounded(num: nat, den: nat) -> nat {
    let s = rounding::double_spacing(num / den);
    rounding::round_half_even(num, den * s) * s
}

/// The double nearest to a sum.
pub open spec fn sum(a: nat, b: nat) -> nat {
    rounded(a + b, 1)
}

/// The double nearest to a difference.
pub open spec fn difference(a: nat, b: nat) -> nat {
    rounded((a - b) as nat, 1)
}

/// The double nearest to a product.
pub open spec fn product(a: nat, b: nat) -> nat {
    rounded(a * b, one())
}

/// The double nearest to a quotient.
pub open spec fn quotient(a: nat, b: nat) -> nat {
    rounded(a * one(), b)
}

/// The double nearest to an integer.
pub open spec fn of_integer(n: nat) -> nat {
    rounded(n * one(), 1)
}

/// A double that is not negative: `m` times a power of two.
#[derive(Debug, Clone, Copy, PartialEq, Eq, Structural)]
pub struct Double {
    pub m: u64,
    pub e: i32,
}

impl Double {
    /// How often the double holds the least positive one.
    pub open spec fn units(self) -> nat {
        self.m as nat * pow2((self.e + 1074) as nat)
    }

    /// The significand has no more than 53 bits, and the exponent is in range.
    pub open spec fn wf(self) -> bool {
        &&& self.m < 0x20_0000_0000_0000
        &&& -1074 <= self.e <= 2000
    }

    /// The significand has all of its 53 bits.
    pub open spec fn normal(self) -> bool {
        &&& self.wf()
        &&& self.m >= 0x10_0000_0000_0000
    }
}

pub proof fn lemma_spacing_scaled(n: nat, j: nat, hi: nat)
    requires
        hi >= 0x10_0000_0000_0000,
        n / pow2(j) == hi,
    ensures
        rounding::double_spacing(n) == pow2(j) * rounding::double_spacing(hi),
    decreases j,
{
    lemma2_to64();
    if j == 0 {
        assert(n / 1 == n);
        lemma_mul_basics(rounding::double_spacing(hi) as int);
    } else {
        let k = (j - 1) as nat;
        lemma_pow2_unfold(j);
        lemma_pow2_pos(k);
        lemma_div_denominator(n as int, 2, pow2(k) as int);
        lemma_spacing_scaled(n / 2, k, hi);
        lemma_fundamental_div_mod(n as int, pow2(j) as int);
        lemma_mod_bound(n as int, pow2(j) as int);
        assert(pow2(j) * hi >= 2 * hi) by (nonlinear_arith)
            requires
                pow2(j) == 2 * pow2(k),
                pow2(k) >= 1,
        ;
        let d = rounding::double_spacing(hi);
        assert(2 * (pow2(k) * d) == pow2(j) * d) by (nonlinear_arith)
            requires
                pow2(j) == 2 * pow2(k),
        ;
    }
}

/// A number with few bits is a multiple of the spacing of the doubles around it.
proof fn lemma_few_bits(m: nat, j: nat) -> (q: nat)
    requires
        m <= 0x20_0000_0000_0000,
    ensures
        m * pow2(j) == q * rounding::double_spacing(m * pow2(j)),
        rounding::double_spacing(m * pow2(j)) > 0,
    decreases j,
{
    lemma2_to64();
    let n = m * pow2(j);
    lemma_mul_basics(m as int);
    lemma_mul_basics(n as int);
    if n < rounding::DOUBLE_LIMIT {
        n
    } else if j == 0 {
        assert(n == m);
        assert(rounding::double_spacing(0x10_0000_0000_0000) == 1);
        assert(n == 0x20_0000_0000_0000);
        assert(rounding::double_spacing(n) == 2);
        0x10_0000_0000_0000
    } else {
        let k = (j - 1) as nat;
        lemma_pow2_unfold(j);
        let half = m * pow2(k);
        assert(n == 2 * half) by (nonlinear_arith)
            requires
                n == m * pow2(j),
                half == m * pow2(k),
                pow2(j) == 2 * pow2(k),
        ;
        let q = lemma_few_bits(m, k);
        let s = rounding::double_spacing(half);
        assert(n / 2 == half);
        assert(2 * (q * s) == q * (2 * s)) by (nonlinear_arith);
        q
    }
}

/// A number with few bits is its own double.
pub proof fn doubles_are_kept(m: nat, j: nat, den: nat)
    requires
        m <= 0x20_0000_0000_0000,
        den > 0,
    ensures
        rounded(m * pow2(j) * den, den) == m * pow2(j),
{
    let n = m * pow2(j);
    let q = lemma_few_bits(m, j);
    let s = rounding::double_spacing(n);
    assert(n * den == den * n) by (nonlinear_arith);
    lemma_div_multiples_vanish(n as int, den as int);
    assert((n * den) / den == n);
    assert(n * den == q * (den * s)) by (nonlinear_arith)
        requires
            n == q * s,
    ;
    assert(den * s > 0) by (nonlinear_arith)
        requires
            den > 0,
            s > 0,
    ;
    rounding::rounding_exact(q, den * s);
}

/// Rounding to a double keeps the order.
pub proof fn rounded_monotone(a: nat, b: nat, den: nat)
    requires
        a <= b,
        den > 0,
    ensures
        rounded(a, den) <= rounded(b, den),
{
    let (p, q) = (a / den, b / den);
    let (s, t) = (rounding::double_spacing(p), rounding::double_spacing(q));
    lemma_div_is_ordered(a as int, b as int, den as int);
    rounding::lemma_spacing_monotone(p, q);
    rounding::lemma_spacing_range(p);
    rounding::lemma_spacing_range(q);
    lemma_mul_strictly_positive(den as int, s as int);
    lemma_mul_strictly_positive(den as int, t as int);
    let (x, y) = (
        rounding::round_half_even(a, den * s),
        rounding::round_half_even(b, den * t),
    );
    if s == t {
        rounding::rounding_monotone(a, b, den * s);
        lemma_mul_inequality(x as int, y as int, s as int);
    } else {
        let limit: nat = 0x20_0000_0000_0000;
        let half: nat = 0x10_0000_0000_0000;
        lemma_fundamental_div_mod(a as int, den as int);
        lemma_mod_bound(a as int, den as int);
        lemma_fundamental_div_mod(b as int, den as int);
        lemma_mod_bound(b as int, den as int);
        assert(a <= limit * (den * s)) by (nonlinear_arith)
            requires
                a < den * p + den,
                p + 1 <= limit * s,
        ;
        assert(half * (den * t) <= b) by (nonlinear_arith)
            requires
                den * q <= b,
                half * t <= q,
        ;
        rounding::rounding_exact(limit, den * s);
        rounding::rounding_monotone(a, limit * (den * s), den * s);
        rounding::rounding_exact(half, den * t);
        rounding::rounding_monotone(half * (den * t), b, den * t);
        assert(x * s <= y * t) by (nonlinear_arith)
            requires
                x <= limit,
                half <= y,
                2 * s <= t,
                limit == 2 * half,
        ;
    }
}

/// How the remainder of a division compares with half the divisor, where the divisor is `2 * half`
/// times `w` and the remainder `r` times `w` and a little more.
proof fn lemma_half(w: nat, r: nat, half: nat, delta: nat)
    requires
        delta < w,
    ensures
        r > half ==> 2 * (w * r + delta) > w * (2 * half),
        r < half ==> 2 * (w * r + delta) < w * (2 * half),
        r == half ==> 2 * (w * r + delta) == w * (2 * half) + 2 * delta,
{
    assert(w * (2 * half) == 2 * (w * half)) by (nonlinear_arith);
    if r > half {
        assert(w * r >= w * half + w) by (nonlinear_arith)
            requires
                r >= half + 1,
        ;
    } else if r < half {
        assert(w * r + w <= w * half) by (nonlinear_arith)
            requires
                r + 1 <= half,
        ;
    }
}

/// Whether `num / den` is `hi` times a power of two, or a little more where `sticky` says so.
pub open spec fn stands_for(hi: nat, sticky: bool, j: nat, num: nat, den: nat) -> bool {
    let w = den * pow2(j);
    &&& den > 0
    &&& w * hi <= num < w * hi + w
    &&& sticky == (num != w * hi)
}

/// The rounding of a number whose leading bits are known.
proof fn lemma_fit(
    hi: nat,
    sticky: bool,
    j: nat,
    num: nat,
    den: nat,
    unit: nat,
    q: nat,
    up: bool,
)
    requires
        stands_for(hi, sticky, j, num, den),
        hi >= 0x20_0000_0000_0000,
        unit == rounding::double_spacing(hi),
        unit % 2 == 0,
        unit > 0,
        q == hi / unit,
        up == (hi % unit > unit / 2 || (hi % unit == unit / 2 && (sticky || q % 2 == 1))),
    ensures
        rounded(num, den) == (if up {
            q + 1
        } else {
            q
        }) * (unit * pow2(j)),
{
    let w = den * pow2(j);
    let r = hi % unit;
    let half = unit / 2;
    let delta = (num - w * hi) as nat;
    lemma_pow2_pos(j);
    lemma_mul_strictly_positive(den as int, pow2(j) as int);
    assert(w * hi == hi * w) by (nonlinear_arith);
    lemma_fundamental_div_mod_converse(num as int, w as int, hi as int, delta as int);
    lemma_div_denominator(num as int, den as int, pow2(j) as int);
    lemma_spacing_scaled(num / den, j, hi);
    let s = pow2(j) * unit;
    assert(rounding::double_spacing(num / den) == s);
    let d = den * s;
    assert(d == w * unit) by (nonlinear_arith)
        requires
            d == den * s,
            s == pow2(j) * unit,
            w == den * pow2(j),
    ;
    lemma_fundamental_div_mod(hi as int, unit as int);
    let rest = w * r + delta;
    assert(num == q * d + rest) by (nonlinear_arith)
        requires
            num == w * hi + delta,
            hi == unit * q + r,
            d == w * unit,
            rest == w * r + delta,
    ;
    assert(rest < d) by (nonlinear_arith)
        requires
            rest == w * r + delta,
            delta < w,
            r + 1 <= unit,
            d == w * unit,
    ;
    lemma_fundamental_div_mod_converse(num as int, d as int, q as int, rest as int);
    lemma_half(w, r, half, delta);
    assert(unit == 2 * half);
    assert(s == unit * pow2(j)) by (nonlinear_arith)
        requires
            s == pow2(j) * unit,
    ;
}

/// The double nearest to a number whose leading bits are known.
fn fit(hi: u128, sticky: bool, e: i32, Ghost(num): Ghost<nat>, Ghost(den): Ghost<nat>) -> (res:
    Double)
    requires
        -1074 <= e <= 1800,
        sticky ==> hi >= 0x20_0000_0000_0000,
        stands_for(hi as nat, sticky, (e + 1074) as nat, num, den),
    ensures
        res.wf(),
        res.units() == rounded(num, den),
        e <= res.e <= e + 76,
        hi >= 0x10_0000_0000_0000 ==> res.normal(),
{
    let ghost j = (e + 1074) as nat;
    if hi < 0x20_0000_0000_0000 {
        proof {
            let n = hi as nat * pow2(j);
            doubles_are_kept(hi as nat, j, den);
            assert(den * pow2(j) * hi == hi as nat * pow2(j) * den) by (nonlinear_arith);
        }
        return Double { m: hi as u64, e };
    }
    let mut unit: u128 = 1;
    let mut m: u128 = hi;
    let mut k: i32 = 0;
    proof {
        lemma2_to64();
        lemma_mul_basics(rounding::double_spacing(hi as nat) as int);
        assert(hi as nat / 1 == hi);
    }
    while m >= 0x20_0000_0000_0000
        invariant
            0 <= k <= 75,
            unit == pow2(k as nat),
            m == hi as nat / pow2(k as nat),
            hi >= 0x20_0000_0000_0000,
            k > 0 ==> m >= 0x10_0000_0000_0000,
            rounding::double_spacing(hi as nat) == unit * rounding::double_spacing(m as nat),
        decreases m,
    {
        proof {
            let u = pow2(k as nat);
            lemma_pow2_unfold((k + 1) as nat);
            lemma_pow2_pos(k as nat);
            lemma_div_denominator(hi as int, u as int, 2);
            assert(u * 2 == pow2((k + 1) as nat)) by (nonlinear_arith)
                requires
                    pow2((k + 1) as nat) == 2 * u,
            ;
            let h = rounding::double_spacing(m as nat / 2);
            assert(u * (2 * h) == u * 2 * h) by (nonlinear_arith);
            lemma_fundamental_div_mod(hi as int, u as int);
            lemma_mod_bound(hi as int, u as int);
            assert(u * 0x20_0000_0000_0000 <= hi) by (nonlinear_arith)
                requires
                    u * m <= hi,
                    m >= 0x20_0000_0000_0000,
                    u >= 1,
            ;
            lemma2_to64();
            lemma2_to64_rest();
            if k == 75 {
                lemma_pow2_adds(64, 11);
            }
        }
        unit = unit * 2;
        m = m / 2;
        k = k + 1;
    }
    proof {
        lemma_mul_basics(unit as int);
        lemma_pow2_unfold(k as nat);
        lemma_pow2_pos((k - 1) as nat);
    }
    let r: u128 = hi % unit;
    let half: u128 = unit / 2;
    let up: bool = r > half || (r == half && (sticky || m % 2 == 1));
    proof {
        lemma_fit(hi as nat, sticky, j, num, den, unit as nat, m as nat, up);
        lemma_pow2_adds(k as nat, j);
        assert((e + k + 1074) as nat == k as nat + j);
    }
    let q: u64 = if up {
        m as u64 + 1
    } else {
        m as u64
    };
    if q == 0x20_0000_0000_0000 {
        proof {
            let u = pow2(k as nat + j);
            lemma_pow2_unfold(k as nat + j + 1);
            assert(0x10_0000_0000_0000 * (2 * u) == 0x20_0000_0000_0000 * u) by (nonlinear_arith);
            assert((e + k + 1 + 1074) as nat == k as nat + j + 1);
        }
        Double { m: 0x10_0000_0000_0000, e: e + k + 1 }
    } else {
        Double { m: q, e: e + k }
    }
}

/// The same double with all bits of its significand.
pub fn normalized(d: Double) -> (res: Double)
    requires
        d.wf(),
        d.m > 0,
        d.e >= -1000,
    ensures
        res.normal(),
        res.units() == d.units(),
        d.e - 53 <= res.e <= d.e,
{
    let mut m: u64 = d.m;
    let mut e: i32 = d.e;
    let ghost total = d.units();
    let ghost mut k: int = 0;
    proof {
        lemma2_to64();
    }
    while m < 0x10_0000_0000_0000
        invariant
            0 < m < 0x20_0000_0000_0000,
            0 <= k <= 52,
            m >= pow2(k as nat),
            e == d.e - k,
            -1000 <= d.e <= 2000,
            m as nat * pow2((e + 1074) as nat) == total,
        decreases 0x20_0000_0000_0000 - m,
    {
        proof {
            let j = (e + 1074) as nat;
            lemma_pow2_unfold(j);
            lemma_pow2_unfold((k + 1) as nat);
            let h = pow2((j - 1) as nat);
            assert((2 * m) as nat * h == m as nat * (2 * h)) by (nonlinear_arith);
            lemma2_to64();
            lemma2_to64_rest();
        }
        m = m * 2;
        e = e - 1;
        proof {
            k = k + 1;
        }
    }
    Double { m, e }
}

/// The double nearest to an integer.
pub fn from_u64(n: u64) -> (res: Double)
    ensures
        res.wf(),
        res.units() == of_integer(n as nat),
        n > 0 ==> res.normal() && -53 <= res.e <= 76,
        n == 0 ==> res.m == 0 && res.e == -1074,
{
    proof {
        let u = pow2(1074);
        lemma_pow2_pos(1074);
        lemma_mul_basics(u as int);
        assert(n as nat * u == 1 * u * n) by (nonlinear_arith);
    }
    let d: Double = fit(n as u128, false, 0, Ghost(n as nat * one()), Ghost(1));
    if n == 0 {
        proof {
            doubles_are_kept(0, 1074, 1);
            lemma_mul_basics(pow2(1074) as int);
            lemma_mul_basics(pow2(0) as int);
            assert(0nat * pow2(1074) * 1 == 0);
            assert(n as nat * one() == 0);
        }
        return Double { m: 0, e: -1074 };
    }
    if d.m == 0 {
        proof {
            lemma_positive(n as nat);
        }
    }
    normalized(d)
}

/// The double nearest to a positive integer is not zero.
proof fn lemma_positive(n: nat)
    requires
        n > 0,
    ensures
        of_integer(n) > 0,
{
    let u = one();
    lemma_pow2_pos(1074);
    assert(u <= n * u) by (nonlinear_arith)
        requires
            n >= 1,
    ;
    rounded_monotone(u, n * u, 1);
    doubles_are_kept(1, 1074, 1);
    lemma_mul_basics(u as int);
}

/// The double nearest to a product.
pub fn mul(a: Double, b: Double) -> (res: Double)
    requires
        a.wf(),
        b.wf(),
        -1074 <= a.e + b.e <= 1800,
    ensures
        res.wf(),
        res.units() == product(a.units(), b.units()),
        a.normal() && b.normal() ==> res.normal(),
        a.e + b.e <= res.e <= a.e + b.e + 76,
{
    let ghost e = a.e + b.e;
    proof {
        assert(a.m as u128 * b.m as u128 <= 0x20_0000_0000_0000u128 * 0x20_0000_0000_0000u128)
            by (nonlinear_arith)
            requires
                a.m < 0x20_0000_0000_0000,
                b.m < 0x20_0000_0000_0000,
        ;
        if a.normal() && b.normal() {
            assert(a.m as nat * b.m as nat >= 0x10_0000_0000_0000nat * 0x10_0000_0000_0000nat)
                by (nonlinear_arith)
                requires
                    a.m >= 0x10_0000_0000_0000,
                    b.m >= 0x10_0000_0000_0000,
            ;
        }
        let (x, y) = ((a.e + 1074) as nat, (b.e + 1074) as nat);
        let j = (e + 1074) as nat;
        lemma_pow2_adds(x, y);
        lemma_pow2_adds(1074, j);
        assert(x + y == 1074 + j);
        lemma_pow2_pos(1074);
        lemma_pow2_pos(j);
        let (m, n) = (a.m as nat, b.m as nat);
        assert((m * pow2(x)) * (n * pow2(y)) == (m * n) * (pow2(x) * pow2(y))) by (nonlinear_arith);
        let w = pow2(1074) * pow2(j);
        assert(w * (m * n) == (m * n) * w) by (nonlinear_arith);
        lemma_mul_strictly_positive(pow2(1074) as int, pow2(j) as int);
    }
    let hi: u128 = a.m as u128 * b.m as u128;
    fit(hi, false, a.e + b.e, Ghost(a.units() * b.units()), Ghost(one()))
}

/// The double nearest to a quotient.
pub fn div(a: Double, b: Double) -> (res: Double)
    requires
        a.normal(),
        b.normal(),
        -1008 <= a.e - b.e <= 1800,
    ensures
        res.normal(),
        res.units() == quotient(a.units(), b.units()),
        a.e - b.e - 66 <= res.e <= a.e - b.e + 10,
{
    let top: u128 = a.m as u128 * 0x4_0000_0000_0000_0000;
    let hi: u128 = top / b.m as u128;
    let rest: u128 = top % b.m as u128;
    let ghost e = a.e - b.e - 66;
    proof {
        lemma_fundamental_div_mod(top as int, b.m as int);
        assert(hi >= 0x20_0000_0000_0000) by (nonlinear_arith)
            requires
                top == b.m * hi + rest,
                rest < b.m,
                b.m < 0x20_0000_0000_0000,
                top >= 0x10_0000_0000_0000 * 0x4_0000_0000_0000_0000,
        ;
        let (x, y) = ((a.e + 1074) as nat, (b.e + 1074) as nat);
        let j = (e + 1074) as nat;
        let (m, n) = (a.m as nat, b.m as nat);
        let v = pow2(y + j);
        lemma_pow2_adds(y, j);
        lemma_pow2_adds(x, 1074);
        lemma_pow2_adds(66, y + j);
        assert(66 + (y + j) == x + 1074);
        lemma2_to64();
        lemma_pow2_adds(64, 2);
        lemma_pow2_pos(y);
        lemma_pow2_pos(y + j);
        let num = m * pow2(x) * pow2(1074);
        let den = n * pow2(y);
        assert(num == m * (pow2(66) * v)) by (nonlinear_arith)
            requires
                num == m * pow2(x) * pow2(1074),
                pow2(x) * pow2(1074) == pow2(66) * v,
        ;
        assert(den * pow2(j) == n * v) by (nonlinear_arith)
            requires
                den == n * pow2(y),
                v == pow2(y) * pow2(j),
        ;
        assert(num == (n * v) * hi + rest * v) by (nonlinear_arith)
            requires
                num == m * (pow2(66) * v),
                m * pow2(66) == n * hi + rest,
        ;
        assert(rest * v < n * v) by (nonlinear_arith)
            requires
                rest < n,
                v > 0,
        ;
        assert(rest * v == 0 <==> rest == 0) by (nonlinear_arith)
            requires
                v > 0,
                rest >= 0,
        ;
        lemma_mul_strictly_positive(n as int, pow2(y) as int);
    }
    fit(hi, rest != 0, a.e - b.e - 66, Ghost(a.units() * one()), Ghost(b.units()))
}

/// A power of two.
pub fn power(k: i32) -> (res: u128)
    requires
        0 <= k <= 100,
    ensures
        res == pow2(k as nat),
        k <= 70 ==> res <= 0x40_0000_0000_0000_0000,
        res <= 0x10_0000_0000_0000_0000_0000_0000,
{
    let mut res: u128 = 1;
    let mut i: i32 = 0;
    proof {
        lemma2_to64();
        lemma2_to64_rest();
        lemma_pow2_adds(64, 6);
        lemma_pow2_adds(64, 36);
    }
    while i < k
        invariant
            0 <= i <= k <= 100,
            res == pow2(i as nat),
            pow2(100) == 0x10_0000_0000_0000_0000_0000_0000,
        decreases k - i,
    {
        proof {
            lemma_pow2_unfold((i + 1) as nat);
            if i + 1 < 100 {
                lemma_pow2_strictly_increases((i + 1) as nat, 100);
            }
        }
        res = res * 2;
        i = i + 1;
    }
    proof {
        if k < 100 {
            lemma_pow2_strictly_increases(k as nat, 100);
        }
        if k < 70 {
            lemma_pow2_strictly_increases(k as nat, 70);
        }
    }
    res
}

/// What a number is when so many of its bits are cut off, and whether there was anything in them.
fn shifted(m: u64, k: i32) -> (res: (u64, bool))
    requires
        k > 0,
        m < 0x20_0000_0000_0000,
    ensures
        res.0 == m as nat / pow2(k as nat),
        res.1 == (m as nat % pow2(k as nat) != 0),
        res.0 <= m,
{
    proof {
        lemma_pow2_pos(k as nat);
        lemma_div_nonincreasing(m as int, pow2(k as nat) as int);
    }
    if k > 60 {
        proof {
            lemma2_to64();
            lemma2_to64_rest();
            lemma_pow2_strictly_increases(60, k as nat);
            lemma_small_mod(m as nat, pow2(k as nat));
            lemma_basic_div(m as int, pow2(k as nat) as int);
        }
        (0, m != 0)
    } else {
        let unit: u128 = power(k);
        ((m as u128 / unit) as u64, m as u128 % unit != 0)
    }
}

/// A double as a multiple of a smaller power of two.
proof fn lemma_aligned(m: nat, j: nat, k: nat)
    ensures
        m * pow2(j + k) == (m * pow2(k)) * pow2(j),
{
    lemma_pow2_adds(j, k);
    assert(m * (pow2(j) * pow2(k)) == (m * pow2(k)) * pow2(j)) by (nonlinear_arith);
}

/// A number cut off below a power of two.
proof fn lemma_cut(m: nat, j: nat, k: nat)
    ensures
        m * pow2(j) == pow2(j + k) * (m / pow2(k)) + (m % pow2(k)) * pow2(j),
        (m % pow2(k)) * pow2(j) < pow2(j + k),
        (m % pow2(k)) * pow2(j) == 0 <==> m % pow2(k) == 0,
{
    lemma_pow2_adds(j, k);
    lemma_pow2_pos(j);
    lemma_pow2_pos(k);
    let (q, r, u, v) = (m / pow2(k), m % pow2(k), pow2(j), pow2(k));
    lemma_fundamental_div_mod(m as int, v as int);
    lemma_mod_bound(m as int, v as int);
    assert(m * u == (u * v) * q + r * u) by (nonlinear_arith)
        requires
            m == v * q + r,
    ;
    assert(r * u < u * v) by (nonlinear_arith)
        requires
            r < v,
            u > 0,
    ;
    assert(r * u == 0 <==> r == 0) by (nonlinear_arith)
        requires
            u > 0,
            r >= 0,
    ;
}

/// The double nearest to a sum; the first operand has the greater exponent.
pub fn add(a: Double, b: Double) -> (res: Double)
    requires
        a.normal(),
        b.wf(),
        b.e <= a.e <= 1800,
    ensures
        res.normal(),
        res.units() == sum(a.units(), b.units()),
        b.e <= res.e <= a.e + 76,
{
    let diff: i32 = a.e - b.e;
    let ghost num = a.units() + b.units();
    if diff <= 70 {
        let unit: u128 = power(diff);
        let ghost j = (b.e + 1074) as nat;
        proof {
            lemma_aligned(a.m as nat, j, diff as nat);
            assert((a.e + 1074) as nat == j + diff as nat);
            lemma_pow2_pos(j);
            lemma_pow2_pos(diff as nat);
            assert(a.m <= a.m * unit <= 0x20_0000_0000_0000 * 0x40_0000_0000_0000_0000)
                by (nonlinear_arith)
                requires
                    a.m < 0x20_0000_0000_0000,
                    1 <= unit <= 0x40_0000_0000_0000_0000,
            ;
            let h = a.m as nat * pow2(diff as nat);
            assert(num == (1 * pow2(j)) * (h + b.m)) by (nonlinear_arith)
                requires
                    num == h * pow2(j) + b.m as nat * pow2(j),
            ;
        }
        fit(a.m as u128 * unit + b.m as u128, false, b.e, Ghost(num), Ghost(1))
    } else {
        let k: i32 = diff - 70;
        let (low, lost): (u64, bool) = shifted(b.m, k);
        let ghost j = (a.e - 70 + 1074) as nat;
        proof {
            let i = (b.e + 1074) as nat;
            lemma_cut(b.m as nat, i, k as nat);
            assert(j == i + k as nat);
            lemma_aligned(a.m as nat, j, 70);
            assert((a.e + 1074) as nat == j + 70);
            lemma_pow2_pos(j);
            lemma2_to64();
            lemma2_to64_rest();
            lemma_pow2_adds(64, 6);
            let h = a.m as nat * pow2(70);
            let u = pow2(j);
            assert((1 * u) * (h + low) == h * u + u * low) by (nonlinear_arith);
        }
        fit(
            a.m as u128 * 0x40_0000_0000_0000_0000 + low as u128,
            lost,
            a.e - 70,
            Ghost(num),
            Ghost(1),
        )
    }
}

/// The double nearest to a difference; the first operand is greater, and so is its exponent, or they
/// are equal.
pub fn sub(a: Double, b: Double) -> (res: Double)
    requires
        a.wf(),
        b.wf(),
        b.e <= a.e <= 1800,
        a.units() > b.units(),
    ensures
        res.wf(),
        res.m > 0,
        res.units() == difference(a.units(), b.units()),
        b.e <= res.e <= a.e + 76,
{
    let diff: i32 = a.e - b.e;
    let ghost num = (a.units() - b.units()) as nat;
    proof {
        if a.m == 0 {
            assert(0 * pow2((a.e + 1074) as nat) == 0);
        }
    }
    if diff <= 70 {
        let unit: u128 = power(diff);
        let ghost j = (b.e + 1074) as nat;
        let ghost h = a.m as nat * pow2(diff as nat);
        proof {
            lemma_aligned(a.m as nat, j, diff as nat);
            assert((a.e + 1074) as nat == j + diff as nat);
            lemma_pow2_pos(j);
            lemma_pow2_pos(diff as nat);
            assert(a.m * unit <= 0x20_0000_0000_0000 * 0x40_0000_0000_0000_0000)
                by (nonlinear_arith)
                requires
                    a.m < 0x20_0000_0000_0000,
                    1 <= unit <= 0x40_0000_0000_0000_0000,
            ;
            assert(h > b.m) by (nonlinear_arith)
                requires
                    h * pow2(j) > b.m as nat * pow2(j),
            ;
            assert(num == (1 * pow2(j)) * (h - b.m)) by (nonlinear_arith)
                requires
                    num == h * pow2(j) - b.m as nat * pow2(j),
            ;
        }
        let res: Double = fit(a.m as u128 * unit - b.m as u128, false, b.e, Ghost(num), Ghost(1));
        proof {
            lemma_difference_positive(num, (h - b.m) as nat, j, res);
        }
        res
    } else {
        let k: i32 = diff - 70;
        let (low, lost): (u64, bool) = shifted(b.m, k);
        let ghost j = (a.e - 70 + 1074) as nat;
        let top: u128 = a.m as u128 * 0x40_0000_0000_0000_0000 - low as u128;
        let hi: u128 = if lost {
            top - 1
        } else {
            top
        };
        proof {
            let i = (b.e + 1074) as nat;
            lemma_cut(b.m as nat, i, k as nat);
            assert(j == i + k as nat);
            lemma_aligned(a.m as nat, j, 70);
            assert((a.e + 1074) as nat == j + 70);
            lemma_pow2_pos(j);
            lemma2_to64();
            lemma2_to64_rest();
            lemma_pow2_adds(64, 6);
            let h = a.m as nat * pow2(70);
            let u = pow2(j);
            assert((1 * u) * (h - low) == h * u - u * low) by (nonlinear_arith);
            assert((1 * u) * (h - low - 1) == h * u - u * low - u) by (nonlinear_arith);
        }
        fit(hi, lost, a.e - 70, Ghost(num), Ghost(1))
    }
}

/// A positive difference does not round to zero.
proof fn lemma_difference_positive(num: nat, h: nat, j: nat, res: Double)
    requires
        h > 0,
        num == (1 * pow2(j)) * h,
        res.units() == rounded(num, 1),
    ensures
        res.m > 0,
{
    let u = pow2(j);
    lemma_pow2_pos(j);
    assert(u <= num) by (nonlinear_arith)
        requires
            num == (1 * u) * h,
            h >= 1,
    ;
    rounded_monotone(u, num, 1);
    doubles_are_kept(1, j, 1);
    lemma_mul_basics(u as int);
    if res.m == 0 {
        assert(0 * pow2((res.e + 1074) as nat) == 0);
    }
}

/// The bits of a double, as a number: greater doubles have greater ones.
pub open spec fn bits(u: nat) -> nat
    decreases u,
{
    if u < 0x20_0000_0000_0000 {
        u
    } else {
        0x10_0000_0000_0000 + bits(u / 2)
    }
}

/// Whether a number of units is that of a double.
pub open spec fn is_double(u: nat) -> bool {
    exists|m: nat, j: nat| m < 0x20_0000_0000_0000 && u == #[trigger] times_power(m, j)
}

/// A number times a power of two.
pub open spec fn times_power(m: nat, j: nat) -> nat {
    m * pow2(j)
}

pub proof fn lemma_bits(m: nat, j: nat)
    requires
        0x10_0000_0000_0000 <= m < 0x20_0000_0000_0000,
    ensures
        bits(m * pow2(j)) == j * 0x10_0000_0000_0000 + m,
    decreases j,
{
    lemma2_to64();
    if j == 0 {
        lemma_mul_basics(m as int);
    } else {
        let k = (j - 1) as nat;
        lemma_pow2_unfold(j);
        lemma_pow2_pos(k);
        let half = m * pow2(k);
        assert(m * pow2(j) == 2 * half) by (nonlinear_arith)
            requires
                half == m * pow2(k),
                pow2(j) == 2 * pow2(k),
        ;
        assert(half >= m) by (nonlinear_arith)
            requires
                half == m * pow2(k),
                pow2(k) >= 1,
        ;
        lemma_bits(m, k);
    }
}

/// The order of doubles is that of their bits.
pub proof fn bits_keep_order(a: nat, b: nat)
    requires
        a < b,
    ensures
        bits(a) <= bits(b),
        is_double(a) && is_double(b) ==> bits(a) < bits(b),
    decreases b,
{
    if b >= 0x20_0000_0000_0000 {
        if a < 0x20_0000_0000_0000 {
            lemma_bits_large(b / 2);
        } else {
            if a / 2 < b / 2 {
                bits_keep_order(a / 2, b / 2);
            }
            if is_double(a) && is_double(b) {
                lemma_halved(a);
                lemma_halved(b);
            }
        }
    }
}

proof fn lemma_bits_large(u: nat)
    requires
        u >= 0x10_0000_0000_0000,
    ensures
        bits(u) >= 0x10_0000_0000_0000,
{
}

proof fn lemma_halved(u: nat)
    requires
        is_double(u),
        u >= 0x20_0000_0000_0000,
    ensures
        is_double(u / 2),
        u % 2 == 0,
{
    let (m, j) = choose|m: nat, j: nat|
        m < 0x20_0000_0000_0000 && u == #[trigger] times_power(m, j);
    lemma2_to64();
    if j == 0 {
        lemma_mul_basics(m as int);
    } else {
        let k = (j - 1) as nat;
        lemma_pow2_unfold(j);
        let half = times_power(m, k);
        assert(u == 2 * half) by (nonlinear_arith)
            requires
                u == m * pow2(j),
                half == m * pow2(k),
                pow2(j) == 2 * pow2(k),
        ;
    }
}

/// What is rounded is a double.
pub proof fn rounded_is_double(num: nat, den: nat)
    requires
        den > 0,
    ensures
        is_double(rounded(num, den)),
{
    let n = num / den;
    let s = rounding::double_spacing(n);
    let q = rounding::round_half_even(num, den * s);
    let j = lemma_spacing_power(n);
    rounding::lemma_spacing_range(n);
    lemma_mul_strictly_positive(den as int, s as int);
    lemma_div_denominator(num as int, den as int, s as int);
    lemma_fundamental_div_mod(n as int, s as int);
    lemma_mod_bound(n as int, s as int);
    assert(n / s < 0x20_0000_0000_0000) by (nonlinear_arith)
        requires
            s * (n / s) <= n,
            n < 0x20_0000_0000_0000 * s,
            s > 0,
    ;
    if q < 0x20_0000_0000_0000 {
        assert(rounded(num, den) == times_power(q, j));
    } else {
        lemma_pow2_unfold(j + 1);
        assert(q == 0x20_0000_0000_0000);
        assert(0x20_0000_0000_0000 * s == 0x10_0000_0000_0000 * (2 * s)) by (nonlinear_arith);
        assert(rounded(num, den) == times_power(0x10_0000_0000_0000, j + 1));
    }
}

proof fn lemma_spacing_power(n: nat) -> (j: nat)
    ensures
        rounding::double_spacing(n) == pow2(j),
    decreases n,
{
    lemma2_to64();
    if n < rounding::DOUBLE_LIMIT {
        0
    } else {
        let k = lemma_spacing_power(n / 2);
        lemma_pow2_unfold(k + 1);
        k + 1
    }
}

impl Double {
    /// The bits of the double.
    pub fn to_bits(self) -> (res: u64)
        requires
            self.normal() || self.m == 0,
        ensures
            res == bits(self.units()),
    {
        if self.m == 0 {
            proof {
                assert(0 * pow2((self.e + 1074) as nat) == 0);
            }
            return 0;
        }
        proof {
            lemma_bits(self.m as nat, (self.e + 1074) as nat);
        }
        (self.e + 1074) as u64 * 0x10_0000_0000_0000 + self.m
    }
}

/// A double is the one nearest to itself.
pub proof fn double_is_kept(u: nat)
    requires
        is_double(u),
    ensures
        rounded(u, 1) == u,
{
    let (m, j) = choose|m: nat, j: nat|
        m < 0x20_0000_0000_0000 && u == #[trigger] times_power(m, j);
    doubles_are_kept(m, j, 1);
    lemma_mul_basics(u as int);
}

/// The units of a double are those of a double.
pub proof fn lemma_units_are_double(d: Double)
    requires
        d.wf(),
    ensures
        is_double(d.units()),
{
    assert(d.units() == times_power(d.m as nat, (d.e + 1074) as nat));
}

/// The magnitude of infinity, as bits.
pub const INFINITY: u64 = 0x7ff0_0000_0000_0000;

/// The bits of a double without its sign.
pub open spec fn magnitude(b: u64) -> u64 {
    (b % 0x8000_0000_0000_0000) as u64
}

/// Whether the sign of a double is set.
pub open spec fn is_negative(b: u64) -> bool {
    b >= 0x8000_0000_0000_0000
}

/// Whether bits are those of no number.
pub open spec fn is_nan(b: u64) -> bool {
    magnitude(b) > INFINITY
}

/// Whether bits are those of an infinity.
pub open spec fn is_infinite(b: u64) -> bool {
    magnitude(b) == INFINITY
}

/// The units of a finite double with these bits and no sign.
pub open spec fn units_of(mag: u64) -> nat {
    let exponent = mag as nat / 0x10_0000_0000_0000;
    let fraction = mag as nat % 0x10_0000_0000_0000;
    if exponent == 0 {
        fraction
    } else {
        (0x10_0000_0000_0000 + fraction) * pow2((exponent - 1) as nat)
    }
}

/// The units of a finite double, with its sign.
pub open spec fn signed_units(b: u64) -> int {
    if is_negative(b) {
        -(units_of(magnitude(b)) as int)
    } else {
        units_of(magnitude(b)) as int
    }
}

/// Whether a double is at most another one, where both are numbers.
pub open spec fn at_most(a: u64, b: u64) -> bool {
    let x = if is_negative(a) {
        -(magnitude(a) as int)
    } else {
        magnitude(a) as int
    };
    let y = if is_negative(b) {
        -(magnitude(b) as int)
    } else {
        magnitude(b) as int
    };
    x <= y
}

/// The bits of a double are those that it is read from.
pub proof fn lemma_bits_of(mag: u64)
    requires
        mag < INFINITY,
    ensures
        bits(units_of(mag)) == mag,
        is_double(units_of(mag)),
{
    let exponent = mag as nat / 0x10_0000_0000_0000;
    let fraction = mag as nat % 0x10_0000_0000_0000;
    lemma2_to64();
    if exponent == 0 {
        lemma_mul_basics(fraction as int);
        assert(units_of(mag) == times_power(fraction, 0));
    } else {
        lemma_bits(0x10_0000_0000_0000 + fraction, (exponent - 1) as nat);
        assert(units_of(mag) == times_power(
            0x10_0000_0000_0000 + fraction,
            (exponent - 1) as nat,
        ));
    }
}

/// The order of finite doubles is that of their units.
pub proof fn lemma_magnitudes(a: u64, b: u64)
    requires
        a < INFINITY,
        b < INFINITY,
    ensures
        a < b <==> units_of(a) < units_of(b),
{
    lemma_bits_of(a);
    lemma_bits_of(b);
    if units_of(a) < units_of(b) {
        bits_keep_order(units_of(a), units_of(b));
    } else if units_of(b) < units_of(a) {
        bits_keep_order(units_of(b), units_of(a));
    }
}

/// The comparison of finite doubles is that of their values.
pub proof fn at_most_compares_values(a: u64, b: u64)
    requires
        magnitude(a) < INFINITY,
        magnitude(b) < INFINITY,
    ensures
        at_most(a, b) <==> signed_units(a) <= signed_units(b),
{
    lemma_magnitudes(magnitude(a), magnitude(b));
    lemma_magnitudes(magnitude(b), magnitude(a));
    lemma_magnitudes(magnitude(a), 0);
    lemma_magnitudes(0, magnitude(a));
    lemma_magnitudes(magnitude(b), 0);
    lemma_magnitudes(0, magnitude(b));
    assert(units_of(0) == 0);
}

/// The double with these bits and no sign.
pub fn from_magnitude(mag: u64) -> (res: Double)
    requires
        mag < INFINITY,
    ensures
        res.wf(),
        res.units() == units_of(mag),
        res.e == if mag < 0x20_0000_0000_0000 {
            -1074
        } else {
            mag as int / 0x10_0000_0000_0000 - 1075
        },
        mag >= 0x10_0000_0000_0000 ==> res.normal(),
        res.e <= 971,
        res.m == 0 ==> mag == 0,
{
    let exponent: u64 = mag / 0x10_0000_0000_0000;
    let fraction: u64 = mag % 0x10_0000_0000_0000;
    proof {
        lemma2_to64();
        lemma_mul_basics(fraction as int);
    }
    if exponent == 0 {
        Double { m: fraction, e: -1074 }
    } else {
        Double { m: 0x10_0000_0000_0000 + fraction, e: exponent as i32 - 1075 }
    }
}

/// Rounding a quotient does not depend on a factor of both its parts.
pub proof fn rounding_is_scaled(a: nat, b: nat, c: nat)
    requires
        b > 0,
        c > 0,
    ensures
        rounding::round_half_even(c * a, c * b) == rounding::round_half_even(a, b),
{
    let (q, r) = (a / b, a % b);
    lemma_fundamental_div_mod(a as int, b as int);
    lemma_mod_bound(a as int, b as int);
    lemma_mul_strictly_positive(c as int, b as int);
    assert(c * a == q * (c * b) + c * r) by (nonlinear_arith)
        requires
            a == b * q + r,
    ;
    assert(c * r < c * b) by (nonlinear_arith)
        requires
            r < b,
            c > 0,
    ;
    lemma_fundamental_div_mod_converse((c * a) as int, (c * b) as int, q as int, (c * r) as int);
    assert(2 * (c * r) == c * (2 * r)) by (nonlinear_arith);
    assert(c * (2 * r) < c * b <==> 2 * r < b) by (nonlinear_arith)
        requires
            c > 0,
    ;
    assert(c * (2 * r) > c * b <==> 2 * r > b) by (nonlinear_arith)
        requires
            c > 0,
    ;
}

/// Zero is its own double.
pub proof fn zero_is_kept(den: nat)
    requires
        den > 0,
    ensures
        rounded(0, den) == 0,
        of_integer(0) == 0,
{
    doubles_are_kept(0, 0, den);
    doubles_are_kept(0, 0, 1);
    lemma_mul_basics(den as int);
    lemma_mul_basics(one() as int);
    lemma_mul_basics(pow2(0) as int);
    lemma_mul_basics(1);
}

/// A small integer is its own double.
pub fn whole(n: u64) -> (res: Double)
    requires
        0 < n <= 0x20_0000_0000_0000,
    ensures
        res.normal(),
        res.units() == n * one(),
        -53 <= res.e <= 76,
{
    proof {
        doubles_are_kept(n as nat, 1074, 1);
        lemma_mul_basics((n * one()) as int);
    }
    from_u64(n)
}

/// A double is its own nearest one, on any scale.
pub proof fn double_is_kept_scaled(u: nat, den: nat)
    requires
        is_double(u),
        den > 0,
    ensures
        rounded(u * den, den) == u,
{
    let (m, j) = choose|m: nat, j: nat|
        m < 0x20_0000_0000_0000 && u == #[trigger] times_power(m, j);
    doubles_are_kept(m, j, den);
}

/// Rounding moves a number by no more than half the spacing of the doubles around it.
pub proof fn rounded_is_near(num: nat, den: nat)
    requires
        den > 0,
    ensures
        ({
            let s = rounding::double_spacing(num / den);
            &&& 2 * (rounded(num, den) * den) <= 2 * num + den * s
            &&& 2 * num <= 2 * (rounded(num, den) * den) + den * s
        }),
{
    let s = rounding::double_spacing(num / den);
    rounding::lemma_spacing_range(num / den);
    lemma_mul_strictly_positive(den as int, s as int);
    let d = den * s;
    let (q, r) = (num / d, num % d);
    lemma_fundamental_div_mod(num as int, d as int);
    lemma_mod_bound(num as int, d as int);
    let x = rounding::round_half_even(num, d);
    assert((x * s) * den == d * x) by (nonlinear_arith)
        requires
            d == den * s,
    ;
    if x == q + 1 {
        assert(d * (q + 1) == d * q + d) by (nonlinear_arith);
    }
}

/// The spacing of the doubles below a power of two.
pub proof fn lemma_spacing_at_most(n: nat, k: nat)
    requires
        n < pow2(53 + k),
    ensures
        rounding::double_spacing(n) <= pow2(k),
    decreases k,
{
    lemma2_to64();
    lemma2_to64_rest();
    lemma_pow2_pos(k);
    if n >= rounding::DOUBLE_LIMIT {
        lemma_pow2_unfold(53 + k);
        lemma_pow2_unfold(k);
        assert((53 + k - 1) as nat == 53 + (k - 1) as nat);
        lemma_spacing_at_most(n / 2, (k - 1) as nat);
    }
}

/// A number of at most a power of two is rounded to at most that power.
pub proof fn lemma_at_most(num: nat, den: nat, j: nat)
    requires
        den > 0,
        num <= pow2(j) * den,
    ensures
        rounded(num, den) <= pow2(j),
{
    rounded_monotone(num, pow2(j) * den, den);
    doubles_are_kept(1, j, den);
    lemma_mul_basics(pow2(j) as int);
}

/// A number of at least a power of two is rounded to at least that power.
pub proof fn lemma_at_least(num: nat, den: nat, j: nat)
    requires
        den > 0,
        num >= pow2(j) * den,
    ensures
        rounded(num, den) >= pow2(j),
{
    rounded_monotone(pow2(j) * den, num, den);
    doubles_are_kept(1, j, den);
    lemma_mul_basics(pow2(j) as int);
}

} // verus!
