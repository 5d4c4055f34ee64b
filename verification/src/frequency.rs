//! Thermal control of the sampling interval.
//!
//! Intervals are nanoseconds. Temperatures are degrees Celsius as doubles, given by their bits, and
//! the interval is lengthened as doubles are multiplied.
use crate::double;
use crate::double::Double;
use crate::rounding;
use vstd::arithmetic::div_mod::*;
use vstd::arithmetic::mul::*;
use vstd::arithmetic::power2::*;
use vstd::prelude::*;

verus! {

/// The longest interval: that of `std::time::Duration`.
pub const MAX_INTERVAL: u128 = 18_446_744_073_709_551_615_999_999_999;

/// The temperature that a sensor reports in thousandths of a degree, in degrees.
pub open spec fn degrees(millidegrees: u64) -> u64 {
    double::bits(
        double::quotient(double::of_integer(millidegrees as nat), 1000 * double::one()),
    ) as u64
}

/// The factor for a temperature that exceeds the threshold by so much: one, and twice a tenth of
/// the excess in degrees, but at most ten.
pub open spec fn factor(excess: nat) -> nat {
    let f = double::sum(double::one(), 2 * double::quotient(excess, 10 * double::one()));
    if f < 10 * double::one() {
        f
    } else {
        10 * double::one()
    }
}

/// The seconds of an interval, as a double: the whole ones, and the fraction.
pub open spec fn seconds(ns: nat) -> nat {
    double::sum(
        double::of_integer(ns / 1_000_000_000),
        double::quotient(
            double::of_integer(ns % 1_000_000_000),
            1_000_000_000 * double::one(),
        ),
    )
}

/// The interval of so many seconds, to the nearest nanosecond; of two equally near ones, the even
/// one.
pub open spec fn interval_of(seconds: nat) -> nat {
    rounding::round_half_even(seconds * 1_000_000_000, double::one())
}

/// An interval lengthened by a factor.
pub open spec fn lengthened(base: nat, factor: nat) -> nat {
    interval_of(double::product(seconds(base), factor))
}

/// The interval for a temperature: the base up to the threshold, and lengthened above it. Where the
/// excess is no finite number the factor is ten.
pub open spec fn backoff(base: nat, threshold: u64, temp: u64) -> nat {
    if double::is_nan(threshold) || double::is_nan(temp) {
        lengthened(base, 10 * double::one())
    } else if double::at_most(temp, threshold) {
        base
    } else if double::is_infinite(threshold) || double::is_infinite(temp) {
        lengthened(base, 10 * double::one())
    } else {
        lengthened(base, factor(excess(temp, threshold)))
    }
}

/// By how much a finite temperature exceeds a finite threshold.
pub open spec fn excess(temp: u64, threshold: u64) -> nat {
    double::rounded(
        (double::signed_units(temp) - double::signed_units(threshold)) as nat,
        1,
    )
}

/// The temperature that a sensor reports, in degrees.
pub fn to_degrees(millidegrees: u64) -> (res: u64)
    ensures
        res == degrees(millidegrees),
{
    if millidegrees == 0 {
        proof {
            lemma_pow2_pos(1074);
            double::zero_is_kept(1000 * double::one());
            lemma_mul_basics(double::one() as int);
        }
        return 0;
    }
    let thousand: Double = double::whole(1000);
    double::div(double::from_u64(millidegrees), thousand).to_bits()
}

/// A small excess leaves the factor at one.
proof fn lemma_small_excess(excess: nat)
    requires
        excess <= pow2(1014),
    ensures
        factor(excess) == double::one(),
{
    let (one, ten) = (double::one(), 10 * double::one());
    let p = pow2(1014);
    lemma_pow2_pos(1074);
    assert(excess * one <= p * ten) by (nonlinear_arith)
        requires
            excess <= p,
            ten == 10 * one,
    ;
    double::rounded_monotone(excess * one, p * ten, ten);
    double::doubles_are_kept(1, 1014, ten);
    lemma_mul_basics(p as int);
    let x = 2 * double::quotient(excess, ten);
    let u = pow2(1022);
    lemma_pow2_adds(1014, 8);
    lemma_pow2_adds(1022, 52);
    lemma2_to64();
    lemma2_to64_rest();
    lemma_pow2_pos(1014);
    assert(pow2(1022) * pow2(52) == 0x10_0000_0000_0000 * u) by (nonlinear_arith)
        requires
            pow2(52) == 0x10_0000_0000_0000,
            pow2(1022) == u,
    ;
    assert(pow2(1014) * pow2(8) == 256 * p) by (nonlinear_arith)
        requires
            pow2(8) == 256,
            pow2(1014) == p,
    ;
    assert(x < 256 * p / 2);
    let n = one + x;
    assert(n == 0x10_0000_0000_0000 * u + x);
    lemma_fundamental_div_mod_converse(n as int, u as int, 0x10_0000_0000_0000, x as int);
    double::lemma_spacing_scaled(n, 1022, 0x10_0000_0000_0000);
    assert(rounding::double_spacing(0x10_0000_0000_0000) == 1);
    assert(n / 1 == n);
    lemma_mul_basics(u as int);
}

/// The factor for an excess.
fn factor_of(d: Double) -> (res: Double)
    requires
        d.wf(),
        d.m > 0,
        d.e <= 1500,
    ensures
        res.normal(),
        res.units() == factor(d.units()),
        -300 <= res.e <= 100,
{
    let one: Double = double::whole(1);
    let ten: Double = double::whole(10);
    if d.e < -900 {
        proof {
            lemma_below(d, 1014);
            lemma_small_excess(d.units());
        }
        return one;
    }
    let n: Double = double::normalized(d);
    if n.e <= -113 {
        proof {
            lemma_below(n, 1014);
            lemma_small_excess(d.units());
        }
        return one;
    }
    let tenth: Double = double::div(n, ten);
    let twice: Double = Double { m: tenth.m, e: tenth.e + 1 };
    proof {
        let j = (tenth.e + 1074) as nat;
        lemma_pow2_unfold(j + 1);
        assert(tenth.m as nat * (2 * pow2(j)) == 2 * (tenth.m as nat * pow2(j)))
            by (nonlinear_arith);
        assert((twice.e + 1074) as nat == j + 1);
    }
    let f: Double = if twice.e <= one.e {
        crate::double::add(one, twice)
    } else {
        crate::double::add(twice, one)
    };
    proof {
        double::lemma_units_are_double(f);
        double::lemma_units_are_double(ten);
        if f.units() < ten.units() {
            double::bits_keep_order(f.units(), ten.units());
            lemma_exponent_at_most(f, ten);
        } else if ten.units() < f.units() {
            double::bits_keep_order(ten.units(), f.units());
        }
    }
    if f.to_bits() < ten.to_bits() {
        f
    } else {
        ten
    }
}

/// A smaller normal double has no greater exponent.
proof fn lemma_exponent_at_most(a: Double, b: Double)
    requires
        a.normal(),
        b.normal(),
        a.units() < b.units(),
    ensures
        a.e <= b.e,
{
    if a.e > b.e {
        let (i, j) = ((a.e + 1074) as nat, (b.e + 1074) as nat);
        lemma_pow2_unfold(j + 1);
        if j + 1 < i {
            lemma_pow2_strictly_increases(j + 1, i);
        }
        assert(a.m as nat * pow2(i) >= b.m as nat * pow2(j)) by (nonlinear_arith)
            requires
                a.m >= 0x10_0000_0000_0000,
                b.m < 0x20_0000_0000_0000,
                pow2(i) >= 2 * pow2(j),
        ;
    }
}

/// A double with a small exponent is small.
proof fn lemma_below(d: Double, k: nat)
    requires
        d.wf(),
        d.e + 1074 + 53 <= k,
    ensures
        d.units() <= pow2(k),
{
    let j = (d.e + 1074) as nat;
    lemma_pow2_adds(j, 53);
    lemma2_to64();
    lemma2_to64_rest();
    if j + 53 < k {
        lemma_pow2_strictly_increases(j + 53, k);
    }
    assert(d.m as nat * pow2(j) <= pow2(j) * pow2(53)) by (nonlinear_arith)
        requires
            d.m <= 0x20_0000_0000_0000,
            pow2(53) == 0x20_0000_0000_0000,
    ;
}

/// The seconds of an interval.
fn seconds_of(ns: u128) -> (res: Double)
    requires
        0 < ns <= MAX_INTERVAL,
    ensures
        res.normal(),
        res.units() == seconds(ns as nat),
        -200 <= res.e <= 220,
{
    let whole: u64 = (ns / 1_000_000_000) as u64;
    let nanos: u64 = (ns % 1_000_000_000) as u64;
    let s: Double = double::from_u64(whole);
    proof {
        lemma_pow2_pos(1074);
        double::zero_is_kept(1_000_000_000 * double::one());
        lemma_mul_basics(double::one() as int);
        double::lemma_units_are_double(s);
        double::double_is_kept(s.units());
    }
    if nanos == 0 {
        return s;
    }
    let giga: Double = double::whole(1_000_000_000);
    let x: Double = double::div(double::from_u64(nanos), giga);
    if whole == 0 {
        proof {
            double::lemma_units_are_double(x);
            double::double_is_kept(x.units());
        }
        x
    } else if x.e <= s.e {
        crate::double::add(s, x)
    } else {
        crate::double::add(x, s)
    }
}

/// The interval of so many seconds.
fn to_interval(z: Double) -> (res: u128)
    requires
        z.normal(),
        interval_of(z.units()) <= MAX_INTERVAL,
    ensures
        res == interval_of(z.units()),
{
    let n: u128 = z.m as u128 * 1_000_000_000;
    proof {
        lemma_pow2_pos(1074);
    }
    if z.e >= 0 {
        proof {
            let (p, u) = (pow2(z.e as nat), double::one());
            let q = n as nat * p;
            lemma_pow2_adds(z.e as nat, 1074);
            assert((z.m as nat * (p * u)) * 1_000_000_000 == q * u) by (nonlinear_arith)
                requires
                    n == z.m as nat * 1_000_000_000,
                    q == n as nat * p,
            ;
            rounding::rounding_exact(q, u);
            if z.e >= 13 {
                lemma2_to64();
                if z.e > 13 {
                    lemma_pow2_strictly_increases(13, z.e as nat);
                }
                assert(q >= 0x10_0000_0000_0000 * 1_000_000_000 * 8192) by (nonlinear_arith)
                    requires
                        n >= 0x10_0000_0000_0000 * 1_000_000_000,
                        p >= 8192,
                        q == n as nat * p,
                ;
            }
        }
        n * crate::double::power(z.e)
    } else if z.e < -100 {
        proof {
            lemma_vanishing(z);
        }
        0
    } else {
        let k: i32 = -z.e;
        proof {
            let (p, c) = (pow2(k as nat), pow2((1074 - k) as nat));
            lemma_pow2_pos(k as nat);
            lemma_pow2_pos((1074 - k) as nat);
            lemma_pow2_adds((1074 - k) as nat, k as nat);
            assert((z.m as nat * c) * 1_000_000_000 == c * n as nat) by (nonlinear_arith)
                requires
                    n == z.m as nat * 1_000_000_000,
            ;
            double::rounding_is_scaled(n as nat, p, c);
        }
        rounding::divide_rounded(n, crate::double::power(k))
    }
}

/// A double with a very small exponent stands for no nanosecond.
proof fn lemma_vanishing(z: Double)
    requires
        z.wf(),
        z.e < -100,
    ensures
        interval_of(z.units()) == 0,
{
    let j = (z.e + 1074) as nat;
    let num = z.units() * 1_000_000_000;
    lemma_below(z, j + 53);
    lemma2_to64();
    lemma2_to64_rest();
    lemma_pow2_adds(j + 53, 31);
    lemma_pow2_pos(j + 53);
    lemma_pow2_strictly_increases(j + 84, 1074);
    assert(z.units() * 1_000_000_000 * 2 <= pow2(j + 53) * pow2(31)) by (nonlinear_arith)
        requires
            z.units() <= pow2(j + 53),
            pow2(31) == 0x8000_0000,
    ;
    assert(2 * num < double::one());
    lemma_small_mod(num, double::one());
    lemma_basic_div(num as int, double::one() as int);
}

/// An interval lengthened by a factor.
fn lengthen(base: u128, f: Double) -> (res: u128)
    requires
        base <= MAX_INTERVAL,
        f.normal(),
        -300 <= f.e <= 100,
        lengthened(base as nat, f.units()) <= MAX_INTERVAL,
    ensures
        res == lengthened(base as nat, f.units()),
{
    if base == 0 {
        proof {
            lemma_pow2_pos(1074);
            double::zero_is_kept(1_000_000_000 * double::one());
            double::zero_is_kept(double::one());
            double::zero_is_kept(1);
            lemma_mul_basics(double::one() as int);
            lemma_mul_basics(f.units() as int);
            rounding::rounding_exact(0, double::one());
        }
        return 0;
    }
    to_interval(crate::double::mul(seconds_of(base), f))
}

/// Whether one temperature is at most another one.
fn is_at_most(a: u64, b: u64) -> (res: bool)
    ensures
        res == double::at_most(a, b),
{
    let (m, n): (u64, u64) = (a % 0x8000_0000_0000_0000, b % 0x8000_0000_0000_0000);
    match (a >= 0x8000_0000_0000_0000, b >= 0x8000_0000_0000_0000) {
        (false, false) => m <= n,
        (true, true) => n <= m,
        (true, false) => true,
        (false, true) => m == 0 && n == 0,
    }
}

/// By how much a finite temperature exceeds a finite threshold.
fn excess_of(temp: u64, threshold: u64) -> (res: Double)
    requires
        double::magnitude(temp) < double::INFINITY,
        double::magnitude(threshold) < double::INFINITY,
        !double::at_most(temp, threshold),
    ensures
        res.wf(),
        res.m > 0,
        res.e <= 1500,
        res.units() == excess(temp, threshold),
{
    let (m, n): (u64, u64) = (temp % 0x8000_0000_0000_0000, threshold % 0x8000_0000_0000_0000);
    let t: Double = double::from_magnitude(m);
    let h: Double = double::from_magnitude(n);
    proof {
        double::lemma_magnitudes(m, n);
        double::lemma_magnitudes(n, m);
    }
    if temp < 0x8000_0000_0000_0000 && threshold < 0x8000_0000_0000_0000 {
        crate::double::sub(t, h)
    } else if temp >= 0x8000_0000_0000_0000 {
        crate::double::sub(h, t)
    } else if m < 0x10_0000_0000_0000 && n < 0x10_0000_0000_0000 {
        let d: Double = Double { m: t.m + h.m, e: -1074 };
        proof {
            lemma2_to64();
            lemma_mul_basics(t.m as int);
            lemma_mul_basics(h.m as int);
            lemma_mul_basics(d.m as int);
            double::lemma_units_are_double(d);
            double::double_is_kept(d.units());
        }
        d
    } else if m >= n {
        crate::double::add(t, h)
    } else {
        crate::double::add(h, t)
    }
}

/// Lengthens the sampling interval while the machine is too hot.
pub struct FrequencyController {
    base_interval: u128,
    current_interval: u128,
    temp_threshold: u64,
}

impl FrequencyController {
    pub closed spec fn base(&self) -> nat {
        self.base_interval as nat
    }

    pub closed spec fn current(&self) -> nat {
        self.current_interval as nat
    }

    pub closed spec fn threshold(&self) -> u64 {
        self.temp_threshold
    }

    pub open spec fn wf(&self) -> bool {
        &&& self.base() <= MAX_INTERVAL
        &&& self.current() <= MAX_INTERVAL
    }

    /// A controller that samples at its base interval.
    pub fn new(base_interval: u128, temp_threshold: u64) -> (res: Self)
        requires
            base_interval <= MAX_INTERVAL,
        ensures
            res.wf(),
            res.base() == base_interval,
            res.current() == base_interval,
            res.threshold() == temp_threshold,
    {
        FrequencyController { base_interval, current_interval: base_interval, temp_threshold }
    }

    /// Sets the interval for the temperature just measured, and returns it. Nothing but that
    /// temperature counts: what was measured before leaves no trace.
    pub fn update(&mut self, current_temp: u64) -> (res: u128)
        requires
            old(self).wf(),
            backoff(old(self).base(), old(self).threshold(), current_temp) <= MAX_INTERVAL,
        ensures
            final(self).wf(),
            final(self).base() == old(self).base(),
            final(self).threshold() == old(self).threshold(),
            final(self).current() == backoff(
                old(self).base(),
                old(self).threshold(),
                current_temp,
            ),
            res == final(self).current(),
    {
        let m: u64 = current_temp % 0x8000_0000_0000_0000;
        let n: u64 = self.temp_threshold % 0x8000_0000_0000_0000;
        let number: bool = m <= double::INFINITY && n <= double::INFINITY;
        if number && is_at_most(current_temp, self.temp_threshold) {
            self.current_interval = self.base_interval;
        } else if m < double::INFINITY && n < double::INFINITY {
            let factor: Double = factor_of(excess_of(current_temp, self.temp_threshold));
            self.current_interval = lengthen(self.base_interval, factor);
        } else {
            self.current_interval = lengthen(self.base_interval, double::whole(10));
        }
        self.current_interval
    }

    /// The interval in force.
    pub fn current_interval(&self) -> (res: u128)
        ensures
            res == self.current(),
    {
        self.current_interval
    }

    /// Whether the interval in force is longer than the base.
    pub fn is_throttled(&self) -> (res: bool)
        ensures
            res == (self.current() > self.base()),
    {
        self.current_interval > self.base_interval
    }
}

/// The factor is at least one and at most ten.
pub proof fn factor_within_bounds(excess: nat)
    ensures
        double::one() <= factor(excess) <= 10 * double::one(),
{
    let one = double::one();
    let f = one + 2 * double::quotient(excess, 10 * one);
    double::doubles_are_kept(1, 1074, 1);
    lemma_mul_basics(one as int);
    double::rounded_monotone(one, f, 1);
}

/// A greater excess never gives a smaller factor.
pub proof fn factor_monotone(less: nat, more: nat)
    requires
        less <= more,
    ensures
        factor(less) <= factor(more),
{
    let one = double::one();
    lemma_pow2_pos(1074);
    lemma_mul_inequality(less as int, more as int, one as int);
    double::rounded_monotone(less * one, more * one, 10 * one);
    double::rounded_monotone(
        one + 2 * double::quotient(less, 10 * one),
        one + 2 * double::quotient(more, 10 * one),
        1,
    );
}

/// From forty-five degrees on the factor is ten.
pub proof fn factor_saturates(excess: nat)
    requires
        excess >= 45 * double::one(),
    ensures
        factor(excess) == 10 * double::one(),
{
    let (one, half) = (double::one(), pow2(1073));
    lemma_pow2_pos(1074);
    lemma_pow2_unfold(1074);
    lemma_mul_inequality((45 * one) as int, excess as int, one as int);
    double::rounded_monotone((45 * one) * one, excess * one, 10 * one);
    double::doubles_are_kept(9, 1073, 10 * one);
    assert((45 * one) * one == 9 * half * (10 * one)) by (nonlinear_arith)
        requires
            one == 2 * half,
    ;
    let f = one + 2 * double::quotient(excess, 10 * one);
    double::doubles_are_kept(10, 1074, 1);
    lemma_mul_basics((10 * one) as int);
    double::rounded_monotone(10 * one, f, 1);
}

/// A greater factor never gives a shorter interval.
pub proof fn lengthened_monotone(base: nat, less: nat, more: nat)
    requires
        less <= more,
    ensures
        lengthened(base, less) <= lengthened(base, more),
{
    let y = seconds(base);
    lemma_pow2_pos(1074);
    assert(y * less <= y * more) by (nonlinear_arith)
        requires
            less <= more,
    ;
    double::rounded_monotone(y * less, y * more, double::one());
    rounding::rounding_monotone(
        double::product(y, less) * 1_000_000_000,
        double::product(y, more) * 1_000_000_000,
        double::one(),
    );
}

/// Above the threshold a hotter machine is never sampled more often.
pub proof fn backoff_monotone(base: nat, threshold: u64, cooler: u64, hotter: u64)
    requires
        !double::is_nan(threshold),
        !double::is_nan(cooler),
        !double::is_nan(hotter),
        !double::at_most(cooler, threshold),
        double::at_most(cooler, hotter),
    ensures
        backoff(base, threshold, cooler) <= backoff(base, threshold, hotter),
{
    let ten = 10 * double::one();
    if double::is_infinite(threshold) || double::is_infinite(cooler) {
    } else {
        let a = excess(cooler, threshold);
        factor_within_bounds(a);
        if double::is_infinite(hotter) {
            lengthened_monotone(base, factor(a), ten);
        } else {
            let b = excess(hotter, threshold);
            double::at_most_compares_values(cooler, hotter);
            double::at_most_compares_values(cooler, threshold);
            double::rounded_monotone(
                (double::signed_units(cooler) - double::signed_units(threshold)) as nat,
                (double::signed_units(hotter) - double::signed_units(threshold)) as nat,
                1,
            );
            factor_monotone(a, b);
            lengthened_monotone(base, factor(a), factor(b));
        }
    }
}

/// From forty-five degrees above the threshold on, the interval grows no more.
pub proof fn backoff_saturates(base: nat, threshold: u64, temp: u64)
    requires
        double::magnitude(threshold) < double::INFINITY,
        double::magnitude(temp) < double::INFINITY,
        double::signed_units(temp) - double::signed_units(threshold) >= 45 * double::one(),
    ensures
        backoff(base, threshold, temp) == lengthened(base, 10 * double::one()),
{
    let one = double::one();
    lemma_pow2_pos(1074);
    double::at_most_compares_values(temp, threshold);
    double::doubles_are_kept(45, 1074, 1);
    lemma_mul_basics((45 * one) as int);
    double::rounded_monotone(
        45 * one,
        (double::signed_units(temp) - double::signed_units(threshold)) as nat,
        1,
    );
    factor_saturates(excess(temp, threshold));
}

/// How near the seconds of an interval come to it, where they are below a power of two.
proof fn lemma_seconds_near(base: nat, k: nat)
    requires
        k <= 23,
        base < pow2(k) * 1_000_000_000,
    ensures
        seconds(base) < (pow2(k) + 1) * double::one(),
        double::is_double(seconds(base)),
        2 * (seconds(base) * 1_000_000_000) <= 2 * (base * double::one()) + (pow2(k) + 1)
            * 1_000_000_000 * pow2(1021),
        2 * (base * double::one()) <= 2 * (seconds(base) * 1_000_000_000) + (pow2(k) + 1)
            * 1_000_000_000 * pow2(1021),
{
    let (one, u, c) = (double::one(), pow2(1021), pow2(k));
    let giga: nat = 1_000_000_000;
    let (s, nanos) = (base / giga, base % giga);
    lemma2_to64();
    lemma2_to64_rest();
    lemma_pow2_pos(1021);
    lemma_pow2_adds(53, 1021);
    if k < 23 {
        lemma_pow2_strictly_increases(k, 23);
    }
    assert(s < c);
    // The whole seconds are exact.
    double::doubles_are_kept(s, 1074, 1);
    lemma_mul_basics((s * one) as int);
    assert(double::of_integer(s) == s * one);
    double::doubles_are_kept(nanos, 1074, 1);
    lemma_mul_basics((nanos * one) as int);
    assert(double::of_integer(nanos) == nanos * one);
    // The fraction.
    let den = giga * one;
    let num = (nanos * one) * one;
    let x = double::quotient(nanos * one, den);
    assert(num == one * (nanos * one)) by (nonlinear_arith)
        requires
            num == (nanos * one) * one,
    ;
    assert(num < one * den) by (nonlinear_arith)
        requires
            num == (nanos * one) * one,
            nanos < giga,
            den == giga * one,
            one > 0,
    ;
    assert(one * den == den * one) by (nonlinear_arith);
    assert(num / den < one) by {
        lemma_div_by_multiple_is_strongly_ordered(num as int, (one * den) as int, one as int, den as int);
        lemma_div_multiples_vanish(one as int, den as int);
    }
    double::lemma_spacing_at_most(num / den, 1021);
    double::rounded_is_near(num, den);
    let t = rounding::double_spacing(num / den);
    assert(2 * (x * giga) <= 2 * (nanos * one) + giga * u && 2 * (nanos * one) <= 2 * (x * giga)
        + giga * u) by (nonlinear_arith)
        requires
            2 * (x * den) <= 2 * num + den * t,
            2 * num <= 2 * (x * den) + den * t,
            den == giga * one,
            num == (nanos * one) * one,
            t <= u,
            one > 0,
    ;
    assert(x < one) by (nonlinear_arith)
        requires
            2 * (x * giga) <= 2 * (nanos * one) + giga * u,
            nanos + 1 <= giga,
            giga == 1_000_000_000,
            one == 0x20_0000_0000_0000 * u,
            u > 0,
    ;
    // The sum.
    let n = s * one + x;
    let y = seconds(base);
    assert(n < c * one) by (nonlinear_arith)
        requires
            n == s * one + x,
            x < one,
            s + 1 <= c,
    ;
    lemma_pow2_adds(k, 1074);
    assert(n / 1 == n);
    double::lemma_spacing_at_most(n, 1021 + k);
    lemma_pow2_adds(k, 1021);
    double::rounded_is_near(n, 1);
    double::rounded_is_double(n, 1);
    lemma_mul_basics(y as int);
    let w = rounding::double_spacing(n);
    assert(w <= c * u);
    lemma_mul_basics(w as int);
    assert(2 * y <= 2 * n + w && 2 * n <= 2 * y + w);
    assert(base * one == s * one * giga + nanos * one) by (nonlinear_arith)
        requires
            base == s * giga + nanos,
    ;
    assert((c + 1) * giga * u == (c * u) * giga + giga * u) by (nonlinear_arith);
    assert(c * u <= one) by (nonlinear_arith)
        requires
            c <= 0x80_0000,
            one == 0x20_0000_0000_0000 * u,
    ;
    assert((c + 1) * one == c * one + one) by (nonlinear_arith);
}

/// Lengthening an interval of less than 2^23 seconds by the factor one leaves it alone.
pub proof fn factor_one_keeps(base: nat)
    requires
        base < 0x80_0000 * 1_000_000_000,
    ensures
        lengthened(base, double::one()) == base,
{
    let (one, u) = (double::one(), pow2(1021));
    lemma2_to64();
    lemma2_to64_rest();
    lemma_pow2_pos(1021);
    lemma_pow2_adds(53, 1021);
    lemma_seconds_near(base, 23);
    let y = seconds(base);
    assert((pow2(23) + 1) * 1_000_000_000 * u == 8_388_609_000_000_000 * u) by (nonlinear_arith)
        requires
            pow2(23) == 0x80_0000,
    ;
    assert(one == 0x20_0000_0000_0000 * u) by (nonlinear_arith)
        requires
            one == pow2(53) * u,
            pow2(53) == 0x20_0000_0000_0000,
    ;
    double::double_is_kept_scaled(y, one);
    lemma_nearest(y * 1_000_000_000, one, base);
}

/// The nearest integer.
proof fn lemma_nearest(num: nat, den: nat, n: nat)
    requires
        2 * num < 2 * (n * den) + den,
        2 * (n * den) < 2 * num + den,
    ensures
        rounding::round_half_even(num, den) == n,
{
    if num >= n * den {
        lemma_fundamental_div_mod_converse(num as int, den as int, n as int, num - n * den);
    } else {
        assert((n - 1) * den == n * den - den) by (nonlinear_arith);
        assert(n > 0) by (nonlinear_arith)
            requires
                num < n * den,
        ;
        lemma_fundamental_div_mod_converse(
            num as int,
            den as int,
            n - 1,
            num - (n - 1) * den,
        );
    }
}

/// Lengthening an interval of less than 2^18 seconds by the factor ten makes it ten times as long.
pub proof fn factor_ten_multiplies(base: nat)
    requires
        base < 0x4_0000 * 1_000_000_000,
    ensures
        lengthened(base, 10 * double::one()) == 10 * base,
{
    let (one, u) = (double::one(), pow2(1021));
    lemma2_to64();
    lemma2_to64_rest();
    lemma_pow2_pos(1021);
    lemma_pow2_adds(53, 1021);
    lemma_pow2_adds(22, 1074);
    lemma_pow2_adds(22, 1021);
    lemma_seconds_near(base, 18);
    let y = seconds(base);
    assert((pow2(18) + 1) * 1_000_000_000 * u == 262_145_000_000_000 * u) by (nonlinear_arith)
        requires
            pow2(18) == 0x4_0000,
    ;
    assert((pow2(18) + 1) * one == 262_145 * one) by (nonlinear_arith)
        requires
            pow2(18) == 0x4_0000,
    ;
    assert(one == 0x20_0000_0000_0000 * u) by (nonlinear_arith)
        requires
            one == pow2(53) * u,
            pow2(53) == 0x20_0000_0000_0000,
    ;
    assert(pow2(22) * one == 0x40_0000 * one && pow2(22) * u == 0x40_0000 * u) by (nonlinear_arith)
        requires
            pow2(22) == 0x40_0000,
    ;
    let num = y * (10 * one);
    assert(num == (10 * y) * one) by (nonlinear_arith)
        requires
            num == y * (10 * one),
    ;
    lemma_div_multiples_vanish((10 * y) as int, one as int);
    assert((10 * y) * one == one * (10 * y)) by (nonlinear_arith);
    assert(10 * y < pow2(1096));
    double::lemma_spacing_at_most(10 * y, 1043);
    double::rounded_is_near(num, one);
    let z = double::product(y, 10 * one);
    let s = rounding::double_spacing(10 * y);
    assert(2 * z <= 20 * y + s && 20 * y <= 2 * z + s) by (nonlinear_arith)
        requires
            2 * (z * one) <= 2 * num + one * s,
            2 * num <= 2 * (z * one) + one * s,
            num == (10 * y) * one,
            one > 0,
    ;
    assert((10 * base) * one == 10 * (base * one)) by (nonlinear_arith);
    assert(s <= 0x40_0000 * u);
    lemma_nearest(z * 1_000_000_000, one, 10 * base);
}

/// An interval of less than 2^18 seconds, about three days, never falls below its base and never
/// exceeds ten times the base.
pub proof fn backoff_within_bounds(base: nat, threshold: u64, temp: u64)
    requires
        base < 0x4_0000 * 1_000_000_000,
    ensures
        base <= backoff(base, threshold, temp) <= 10 * base,
{
    let one = double::one();
    factor_one_keeps(base);
    factor_ten_multiplies(base);
    let f = factor(excess(temp, threshold));
    factor_within_bounds(excess(temp, threshold));
    lengthened_monotone(base, one, f);
    lengthened_monotone(base, f, 10 * one);
}

/// An interval of less than 2^23 seconds, about three months, never falls below its base.
pub proof fn backoff_at_least_base(base: nat, threshold: u64, temp: u64)
    requires
        base < 0x80_0000 * 1_000_000_000,
    ensures
        base <= backoff(base, threshold, temp),
{
    let one = double::one();
    factor_one_keeps(base);
    let f = factor(excess(temp, threshold));
    factor_within_bounds(excess(temp, threshold));
    lengthened_monotone(base, one, f);
    lengthened_monotone(base, one, 10 * one);
}

/// An excess of 2^-10 degrees, less than the thousandth of a degree in which sensors count, shows:
/// the interval grows, as long as it is of at least ten microseconds and less than 2^18 seconds.
pub proof fn heat_throttles(base: nat, threshold: u64, temp: u64)
    requires
        10_000 <= base < 0x4_0000 * 1_000_000_000,
        double::magnitude(threshold) < double::INFINITY,
        double::magnitude(temp) < double::INFINITY,
        double::signed_units(temp) - double::signed_units(threshold) >= pow2(1064),
    ensures
        backoff(base, threshold, temp) > base,
{
    let one = double::one();
    let (v, least) = (pow2(1061), 8193 * pow2(1061));
    lemma2_to64();
    lemma_pow2_pos(1064);
    lemma_pow2_pos(1061);
    double::at_most_compares_values(temp, threshold);
    let d = (double::signed_units(temp) - double::signed_units(threshold)) as nat;
    lemma_mul_basics(pow2(1064) as int);
    double::lemma_at_least(d, 1, 1064);
    let e = excess(temp, threshold);
    lemma_pow2_adds(13, 1061);
    lemma_pow2_adds(1, 1060);
    lemma_pow2_adds(4, 1060);
    let p = pow2(1060);
    assert(e * one >= p * (10 * one)) by (nonlinear_arith)
        requires
            e >= 16 * p,
    ;
    double::lemma_at_least(e * one, 10 * one, 1060);
    double::doubles_are_kept(8193, 1061, 1);
    lemma_mul_basics(least as int);
    double::rounded_monotone(least, one + 2 * double::quotient(e, 10 * one), 1);
    assert(factor(e) >= least);
    lengthened_monotone(base, least, factor(e));
    lemma_lengthens(base);
}

/// What the rounding takes away is less than what the factor adds.
proof fn lemma_outweighs(exact: nat, y: nat, z: nat, s: nat, u: nat, one: nat)
    requires
        2 * exact <= 2 * (y * 1_000_000_000) + 262_145_000_000_000 * u,
        16_386 * y <= 8192 * (2 * z + s),
        s <= 0x10_0000 * u,
        one == 0x20_0000_0000_0000 * u,
        exact >= 10_000 * one,
    ensures
        z * 1_000_000_000 >= exact + one,
{
    let t = 1_000_000_000 * y;
    assert(16_386 * t <= 16_384 * (1_000_000_000 * z) + 8192 * (1_000_000_000 * s));
    assert(16_386 * exact <= 16_386 * t + 8193 * (262_145_000_000_000 * u));
    assert(8193 * (262_145_000_000_000 * u) + 8192 * (1_000_000_000 * s) <= 1200 * one);
}

/// A factor of 1 + 2^-13 lengthens an interval.
proof fn lemma_lengthens(base: nat)
    requires
        10_000 <= base < 0x4_0000 * 1_000_000_000,
    ensures
        lengthened(base, 8193 * pow2(1061)) > base,
{
    let (one, u, v) = (double::one(), pow2(1021), pow2(1061));
    lemma2_to64();
    lemma2_to64_rest();
    lemma_pow2_pos(1021);
    lemma_pow2_pos(1061);
    lemma_pow2_adds(53, 1021);
    lemma_pow2_adds(13, 1061);
    lemma_pow2_adds(20, 1074);
    lemma_pow2_adds(20, 1021);
    lemma_seconds_near(base, 18);
    let y = seconds(base);
    let num = y * (8193 * v);
    assert((pow2(18) + 1) * 1_000_000_000 * u == 262_145_000_000_000 * u) by (nonlinear_arith)
        requires
            pow2(18) == 0x4_0000,
    ;
    assert((pow2(18) + 1) * one == 262_145 * one) by (nonlinear_arith)
        requires
            pow2(18) == 0x4_0000,
    ;
    assert(8192 * num == (8193 * y) * one) by (nonlinear_arith)
        requires
            num == y * (8193 * v),
            one == 8192 * v,
    ;
    assert(num < (2 * y + 1) * one) by (nonlinear_arith)
        requires
            8192 * num == (8193 * y) * one,
            one > 0,
    ;
    let k = num / one;
    lemma_fundamental_div_mod(num as int, one as int);
    lemma_mod_bound(num as int, one as int);
    assert(k < 2 * y + 1) by (nonlinear_arith)
        requires
            num < (2 * y + 1) * one,
            num >= one * k,
            one > 0,
    ;
    double::lemma_spacing_at_most(k, 1041);
    double::rounded_is_near(num, one);
    let z = double::product(y, 8193 * v);
    let s = rounding::double_spacing(k);
    assert(16_386 * y <= 8192 * (2 * z + s)) by (nonlinear_arith)
        requires
            2 * num <= 2 * (z * one) + one * s,
            8192 * num == (8193 * y) * one,
            one > 0,
    ;
    let more = base + 1;
    assert(more * one == base * one + one) by (nonlinear_arith)
        requires
            more == base + 1,
    ;
    assert(base * one >= 10_000 * one) by (nonlinear_arith)
        requires
            base >= 10_000,
    ;
    assert(pow2(20) * u == 0x10_0000 * u && pow2(53) * u == 0x20_0000_0000_0000 * u)
        by (nonlinear_arith)
        requires
            pow2(20) == 0x10_0000,
            pow2(53) == 0x20_0000_0000_0000,
    ;
    assert(s <= 0x10_0000 * u);
    lemma_outweighs(base * one, y, z, s, u, one);
    rounding::rounding_exact(more, one);
    rounding::rounding_monotone(more * one, z * 1_000_000_000, one);
}

/// An interval of 64-bit milliseconds stays one that fits when it is lengthened.
pub proof fn milliseconds_never_overflow(millis: u64, threshold: u64, temp: u64)
    ensures
        backoff(millis as nat * 1_000_000, threshold, temp) <= MAX_INTERVAL,
{
    let base = millis as nat * 1_000_000;
    let ten = 10 * double::one();
    factor_within_bounds(excess(temp, threshold));
    lengthened_monotone(base, factor(excess(temp, threshold)), ten);
    lemma_seconds_at_most(base);
    let (one, y) = (double::one(), seconds(base));
    lemma2_to64();
    lemma2_to64_rest();
    lemma_pow2_pos(1074);
    lemma_pow2_adds(4, 1130);
    lemma_pow2_adds(60, 1074);
    let (p, q) = (pow2(1130), pow2(1134));
    assert(y * ten <= q * one) by (nonlinear_arith)
        requires
            y <= p,
            q == 16 * p,
            ten == 10 * one,
    ;
    double::lemma_at_most(y * ten, one, 1134);
    let n = pow2(60) * 1_000_000_000;
    assert(q * 1_000_000_000 == n * one) by (nonlinear_arith)
        requires
            q == pow2(60) * one,
            n == pow2(60) * 1_000_000_000,
    ;
    rounding::rounding_monotone(
        double::product(y, ten) * 1_000_000_000,
        q * 1_000_000_000,
        one,
    );
    rounding::rounding_exact(n, one);
}

/// The seconds of an interval of 64-bit milliseconds are below 2^56.
proof fn lemma_seconds_at_most(base: nat)
    requires
        base <= u64::MAX * 1_000_000,
    ensures
        seconds(base) <= pow2(1130),
{
    let one = double::one();
    let giga: nat = 1_000_000_000;
    let (s, nanos) = (base / giga, base % giga);
    lemma2_to64();
    lemma2_to64_rest();
    lemma_pow2_pos(1074);
    lemma_pow2_adds(55, 1074);
    lemma_pow2_adds(30, 1074);
    lemma_pow2_adds(1, 1074);
    lemma_pow2_adds(1, 1129);
    lemma_pow2_strictly_increases(1075, 1129);
    lemma_mul_basics(pow2(1129) as int);
    lemma_mul_basics(pow2(1104) as int);
    lemma_mul_basics(pow2(1130) as int);
    lemma_mul_inequality(s as int, pow2(55) as int, one as int);
    double::lemma_at_most(s * one, 1, 1129);
    lemma_mul_inequality(nanos as int, pow2(30) as int, one as int);
    double::lemma_at_most(nanos * one, 1, 1104);
    let n = double::of_integer(nanos);
    assert(n * one <= pow2(1075) * (giga * one)) by (nonlinear_arith)
        requires
            n <= 0x4000_0000 * one,
            pow2(1075) == 2 * one,
            giga == 1_000_000_000,
    ;
    double::lemma_at_most(n * one, giga * one, 1075);
    let x = double::quotient(n, giga * one);
    double::lemma_at_most(double::of_integer(s) + x, 1, 1130);
}

/// With every five degrees above the threshold the factor grows by one.
pub proof fn five_degrees_are_one_step(k: nat)
    requires
        k <= 9,
    ensures
        factor(5 * k * double::one()) == (k + 1) * double::one(),
{
    let (one, half) = (double::one(), pow2(1073));
    lemma_pow2_pos(1074);
    lemma_pow2_unfold(1074);
    double::doubles_are_kept(k, 1073, 10 * one);
    assert((5 * k * one) * one == k * half * (10 * one)) by (nonlinear_arith)
        requires
            one == 2 * half,
    ;
    let f = one + 2 * double::quotient(5 * k * one, 10 * one);
    assert(f == (k + 1) * one) by (nonlinear_arith)
        requires
            f == one + 2 * (k * half),
            one == 2 * half,
    ;
    double::doubles_are_kept(k + 1, 1074, 1);
    lemma_mul_basics(((k + 1) * one) as int);
    assert((k + 1) * one <= 10 * one) by (nonlinear_arith)
        requires
            k <= 9,
            one >= 0,
    ;
    assert((k + 1) * one < 10 * one || k == 9) by (nonlinear_arith)
        requires
            k <= 9,
            one > 0,
    ;
}

/// Whole degrees are reported as they are.
pub proof fn whole_degrees_are_exact(k: u64)
    requires
        k <= 1_000_000,
    ensures
        degrees((1000 * k) as u64) == double::bits(double::of_integer(k as nat)) as u64,
        double::of_integer(k as nat) == k * double::one(),
{
    let one = double::one();
    lemma_pow2_pos(1074);
    let m = (1000 * k) as nat;
    double::doubles_are_kept(m, 1074, 1);
    double::doubles_are_kept(k as nat, 1074, 1);
    lemma_mul_basics((m * one) as int);
    lemma_mul_basics((k * one) as int);
    assert(double::of_integer(m) == m * one);
    double::doubles_are_kept(k as nat, 1074, 1000 * one);
    assert((m * one) * one == k as nat * one * (1000 * one)) by (nonlinear_arith)
        requires
            m == 1000 * k,
    ;
}

} // verus!
