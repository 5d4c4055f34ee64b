//! Processor shares as doubles, by which processes are ranked.
use crate::double;
use crate::double::Double;
use crate::metrics::Quantity;
use vstd::arithmetic::mul::*;
use vstd::arithmetic::power2::*;
use vstd::prelude::*;

verus! {

/// Ticks for each tick that could pass in an interval, in percent, each step as doubles give it.
pub open spec fn percent(ticks: u64, ticks_per_sec: u64, elapsed_ns: u64) -> nat {
    let secs = double::quotient(
        double::of_integer(elapsed_ns as nat),
        1_000_000_000 * double::one(),
    );
    let limit = double::product(secs, double::of_integer(ticks_per_sec as nat));
    double::product(
        double::quotient(double::of_integer(ticks as nat), limit),
        100 * double::one(),
    )
}

/// The share of a processor that is shown, as a double. What is no share counts as none.
pub open spec fn units(q: Quantity) -> nat {
    match q {
        Quantity::TickShare { ticks, ticks_per_sec, elapsed_ns } => if ticks_per_sec > 0
            && elapsed_ns > 0 {
            percent(ticks, ticks_per_sec, elapsed_ns)
        } else {
            0
        },
        Quantity::Whole(n) => double::of_integer(n as nat),
        _ => 0,
    }
}

/// The number by which a share is ranked: the bits of its double.
pub open spec fn key(q: Quantity) -> u64 {
    double::bits(units(q)) as u64
}

/// The bits of the double nearest to an integer.
fn whole_key(n: u64) -> (res: u64)
    ensures
        res == double::bits(double::of_integer(n as nat)),
{
    double::from_u64(n).to_bits()
}

/// The number by which a share is ranked.
pub fn rank_key(q: &Quantity) -> (res: u64)
    ensures
        res == key(*q),
{
    match *q {
        Quantity::TickShare { ticks, ticks_per_sec, elapsed_ns } => {
            if ticks_per_sec == 0 || elapsed_ns == 0 {
                return 0;
            }
            let giga: Double = double::whole(1_000_000_000);
            let secs: Double = double::div(double::from_u64(elapsed_ns), giga);
            let limit: Double = crate::double::mul(secs, double::from_u64(ticks_per_sec));
            if ticks == 0 {
                proof {
                    lemma_no_ticks(ticks_per_sec, elapsed_ns);
                }
                return 0;
            }
            let ratio: Double = double::div(double::from_u64(ticks), limit);
            let hundred: Double = double::whole(100);
            crate::double::mul(ratio, hundred).to_bits()
        },
        Quantity::Whole(n) => whole_key(n),
        _ => 0,
    }
}

/// No ticks are a share of zero.
pub proof fn lemma_no_ticks(ticks_per_sec: u64, elapsed_ns: u64)
    requires
        ticks_per_sec > 0,
        elapsed_ns > 0,
    ensures
        percent(0, ticks_per_sec, elapsed_ns) == 0,
{
    let one = double::one();
    let secs = double::quotient(double::of_integer(elapsed_ns as nat), 1_000_000_000 * one);
    lemma_pow2_pos(1074);
    lemma_limit(ticks_per_sec, elapsed_ns);
    double::zero_is_kept(double::product(secs, double::of_integer(ticks_per_sec as nat)));
    double::zero_is_kept(one);
    lemma_mul_basics(one as int);
    lemma_mul_basics((100 * one) as int);
}

/// A share of none is zero.
pub proof fn lemma_none_is_zero()
    ensures
        units(Quantity::Whole(0)) == 0,
{
    double::zero_is_kept(1);
}

/// The ticks that could pass in an interval are more than none.
proof fn lemma_limit(ticks_per_sec: u64, elapsed_ns: u64)
    requires
        ticks_per_sec > 0,
        elapsed_ns > 0,
    ensures
        ({
            let secs = double::quotient(
                double::of_integer(elapsed_ns as nat),
                1_000_000_000 * double::one(),
            );
            double::product(secs, double::of_integer(ticks_per_sec as nat)) >= pow2(1044)
        }),
        pow2(1044) > 0,
{
    let one = double::one();
    let giga: nat = 1_000_000_000;
    let (n, t) = (double::of_integer(elapsed_ns as nat), double::of_integer(ticks_per_sec as nat));
    lemma2_to64();
    lemma_pow2_pos(1074);
    lemma_pow2_pos(1044);
    lemma_pow2_adds(30, 1044);
    assert(elapsed_ns * one >= one && ticks_per_sec * one >= one) by (nonlinear_arith)
        requires
            elapsed_ns > 0,
            ticks_per_sec > 0,
            one > 0,
    ;
    double::lemma_at_least(elapsed_ns as nat * one, 1, 1074);
    double::lemma_at_least(ticks_per_sec as nat * one, 1, 1074);
    let p = pow2(1044);
    assert(n * one >= p * (giga * one)) by (nonlinear_arith)
        requires
            n >= one,
            one == 0x4000_0000 * p,
            giga == 1_000_000_000,
    ;
    double::lemma_at_least(n * one, giga * one, 1044);
    let secs = double::quotient(n, giga * one);
    assert(secs * t >= p * one) by (nonlinear_arith)
        requires
            secs >= p,
            t >= one,
    ;
    double::lemma_at_least(secs * t, one, 1044);
}

/// A share is a double whose bits are those of a number.
proof fn lemma_share(q: Quantity)
    ensures
        double::is_double(units(q)),
        double::bits(units(q)) <= u64::MAX,
{
    let one = double::one();
    lemma2_to64();
    lemma2_to64_rest();
    lemma_pow2_pos(1074);
    lemma_pow2_adds(64, 1074);
    lemma_pow2_adds(52, 1123);
    lemma_pow2_strictly_increases(1138, 1175);
    double::lemma_bits(0x10_0000_0000_0000, 1123);
    assert(double::times_power(0, 0) == 0) by {
        lemma_mul_basics(pow2(0) as int);
    }
    assert(units(q) <= pow2(1175) && double::is_double(units(q))) by {
        match q {
            Quantity::TickShare { ticks, ticks_per_sec, elapsed_ns } => {
                if ticks_per_sec > 0 && elapsed_ns > 0 {
                    lemma_percent(ticks, ticks_per_sec, elapsed_ns);
                }
            },
            Quantity::Whole(n) => {
                lemma_integer(n);
            },
            _ => {},
        }
    }
    if units(q) < pow2(1175) {
        double::bits_keep_order(units(q), pow2(1175));
    }
}

proof fn lemma_integer(n: u64)
    ensures
        double::of_integer(n as nat) <= pow2(1138),
        double::is_double(double::of_integer(n as nat)),
{
    let one = double::one();
    lemma2_to64();
    lemma_pow2_pos(1074);
    lemma_pow2_adds(64, 1074);
    assert(n as nat * one <= pow2(64) * one) by (nonlinear_arith)
        requires
            n <= pow2(64),
    ;
    lemma_mul_basics(pow2(1138) as int);
    double::lemma_at_most(n as nat * one, 1, 1138);
    double::rounded_is_double(n as nat * one, 1);
}

proof fn lemma_percent(ticks: u64, ticks_per_sec: u64, elapsed_ns: u64)
    requires
        ticks_per_sec > 0,
        elapsed_ns > 0,
    ensures
        percent(ticks, ticks_per_sec, elapsed_ns) <= pow2(1175),
        double::is_double(percent(ticks, ticks_per_sec, elapsed_ns)),
{
    let one = double::one();
    let secs = double::quotient(double::of_integer(elapsed_ns as nat), 1_000_000_000 * one);
    let limit = double::product(secs, double::of_integer(ticks_per_sec as nat));
    let n = double::of_integer(ticks as nat);
    lemma2_to64();
    lemma_pow2_pos(1074);
    lemma_limit(ticks_per_sec, elapsed_ns);
    lemma_integer(ticks);
    lemma_pow2_adds(1168, 1044);
    lemma_pow2_adds(1138, 1074);
    let (a, b) = (pow2(1138), pow2(1168));
    assert(n * one <= b * limit) by (nonlinear_arith)
        requires
            n <= a,
            limit >= pow2(1044),
            b * pow2(1044) == a * one,
    ;
    double::lemma_at_most(n * one, limit, 1168);
    let ratio = double::quotient(n, limit);
    lemma_pow2_adds(7, 1168);
    let c = pow2(1175);
    assert(ratio * (100 * one) <= c * one) by (nonlinear_arith)
        requires
            ratio <= b,
            c == 128 * b,
    ;
    double::lemma_at_most(ratio * (100 * one), one, 1175);
    double::rounded_is_double(ratio * (100 * one), one);
}

/// The numbers by which shares are ranked order them as doubles are ordered.
pub proof fn keys_order_shares(a: Quantity, b: Quantity)
    ensures
        key(a) <= key(b) <==> units(a) <= units(b),
{
    lemma_share(a);
    lemma_share(b);
    if units(a) < units(b) {
        double::bits_keep_order(units(a), units(b));
    } else if units(b) < units(a) {
        double::bits_keep_order(units(b), units(a));
    }
}

/// Over one interval more ticks never give a smaller share.
pub proof fn more_ticks_never_rank_lower(
    less: u64,
    more: u64,
    ticks_per_sec: u64,
    elapsed_ns: u64,
)
    requires
        less <= more,
        ticks_per_sec > 0,
        elapsed_ns > 0,
    ensures
        percent(less, ticks_per_sec, elapsed_ns) <= percent(more, ticks_per_sec, elapsed_ns),
{
    let one = double::one();
    let secs = double::quotient(double::of_integer(elapsed_ns as nat), 1_000_000_000 * one);
    let limit = double::product(secs, double::of_integer(ticks_per_sec as nat));
    lemma_pow2_pos(1074);
    lemma_limit(ticks_per_sec, elapsed_ns);
    lemma_mul_inequality(less as int, more as int, one as int);
    double::rounded_monotone(less as nat * one, more as nat * one, 1);
    let (x, y) = (double::of_integer(less as nat), double::of_integer(more as nat));
    lemma_mul_inequality(x as int, y as int, one as int);
    double::rounded_monotone(x * one, y * one, limit);
    let (p, q) = (double::quotient(x, limit), double::quotient(y, limit));
    lemma_mul_inequality(p as int, q as int, (100 * one) as int);
    double::rounded_monotone(p * (100 * one), q * (100 * one), one);
}

} // verus!
