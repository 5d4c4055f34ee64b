//! Latency of disk requests.
//!
//! Where the kernel counts requests by latency in buckets, the buckets are evaluated. Elsewhere
//! the mean latency of each interval goes into a window per device, and the quantiles are those of
//! the window.
use crate::collector;
use crate::metrics;
use crate::metrics::{
    HistogramData, HistogramView, LatencySum, LatencySumView, Quantile, Quantity,
};
use crate::registry;
use crate::registry::Registry;
use crate::rounding;
use crate::soundness;
use vstd::arithmetic::power2::*;
use vstd::prelude::*;

verus! {

/// The counters of a disk.
#[derive(Debug, Clone, Copy, PartialEq, Eq, Structural)]
pub struct DiskRawStat {
    pub read_bytes: u64,
    pub write_bytes: u64,
    pub read_time_ms: u64,
    pub write_time_ms: u64,
    pub read_ios: u64,
    pub write_ios: u64,
    pub io_ticks_ms: u64,
}

/// The buckets in which the kernel counts requests: bucket `i` is for 2^i microseconds.
pub const BUCKETS: usize = 64;

/// The intervals that a window holds.
pub const WINDOW: usize = 256;

/// One, in the unit in which the fractions of a distribution are given: 2^-53.
pub const FRACTION_ONE: u128 = 0x20_0000_0000_0000;

/// The double nearest to one half.
pub const FRACTION_50: u128 = 0x10_0000_0000_0000;

/// The double nearest to nine tenths.
pub const FRACTION_90: u128 = 0x1c_cccc_cccc_cccd;

/// The double nearest to 95 hundredths.
pub const FRACTION_95: u128 = 0x1e_6666_6666_6666;

/// The double nearest to 99 hundredths.
pub const FRACTION_99: u128 = 0x1f_ae14_7ae1_47ae;

/// The time that requests took in an interval, in milliseconds, and their number.
#[derive(Debug, Clone, Copy, PartialEq, Eq, Structural)]
pub struct Latency {
    pub time_ms: u64,
    pub ios: u64,
}

/// Whether the mean of `a` is at most that of `b`.
pub open spec fn at_most(a: Latency, b: Latency) -> bool {
    a.time_ms * b.ios <= b.time_ms * a.ios
}

/// The requests between two readings of the counters; without an earlier reading none are known.
pub open spec fn interval(prev: Option<DiskRawStat>, cur: DiskRawStat) -> Latency {
    match prev {
        Some(p) => Latency {
            time_ms: cur.read_time_ms.wrapping_sub(p.read_time_ms).wrapping_add(
                cur.write_time_ms.wrapping_sub(p.write_time_ms),
            ),
            ios: cur.read_ios.wrapping_sub(p.read_ios).wrapping_add(
                cur.write_ios.wrapping_sub(p.write_ios),
            ),
        },
        None => Latency { time_ms: 0, ios: 0 },
    }
}

/// A window with one more interval, without the oldest ones that no longer fit.
pub open spec fn recent(window: Seq<Latency>, latest: Latency) -> Seq<Latency> {
    let all = window.push(latest);
    if all.len() > WINDOW {
        all.skip(all.len() - WINDOW)
    } else {
        all
    }
}

/// How many of the leading intervals have at most a given mean.
pub open spec fn slot(sorted: Seq<Latency>, x: Latency) -> int
    decreases sorted.len(),
{
    if sorted.len() == 0 || !at_most(sorted[0], x) {
        0
    } else {
        1 + slot(sorted.skip(1), x)
    }
}

/// The intervals by ascending mean; where means are equal, as they came.
pub open spec fn ascending(window: Seq<Latency>) -> Seq<Latency>
    decreases window.len(),
{
    if window.len() == 0 {
        Seq::empty()
    } else {
        let before = ascending(window.drop_last());
        before.insert(slot(before, window.last()), window.last())
    }
}

/// A quantile of the window.
pub open spec fn window_quantile(sorted: Seq<Latency>, percent: u32) -> Quantile {
    let at = sorted.len() * percent / 100;
    let x = sorted[if at < sorted.len() {
        at as int
    } else {
        sorted.len() - 1
    }];
    Quantile { percent, value: Quantity::Quotient { num: x.time_ms, den: x.ios } }
}

/// The distribution that a window shows, with the count and the sum of its latest interval.
pub open spec fn window_histogram(window: Seq<Latency>, latest: Latency) -> HistogramView {
    let sorted = ascending(window);
    HistogramView {
        count: latest.ios,
        sum: LatencySumView::Millis(latest.time_ms),
        quantiles: seq![
            window_quantile(sorted, 50),
            window_quantile(sorted, 90),
            window_quantile(sorted, 95),
            window_quantile(sorted, 99),
        ],
    }
}

/// The requests in all buckets; the sum wraps around at 64 bits.
pub open spec fn bucket_total(buckets: Seq<u64>) -> u64
    decreases buckets.len(),
{
    if buckets.len() == 0 {
        0
    } else {
        bucket_total(buckets.drop_last()).wrapping_add(buckets.last())
    }
}

/// The number of requests that a fraction of them amounts to, computed in doubles and cut off.
pub open spec fn fraction_of(count: u64, fraction: u128) -> u64 {
    let product = rounding::nearest_double(count as nat) * fraction as nat;
    let whole = rounding::nearest_double(product) / (FRACTION_ONE as nat);
    if whole <= u64::MAX {
        whole as u64
    } else {
        u64::MAX
    }
}

/// The first bucket by which so many requests are counted.
pub open spec fn reaches(buckets: Seq<u64>, target: u64, from: int) -> Option<int>
    decreases buckets.len() - from,
{
    if from < 0 || from >= buckets.len() {
        None
    } else if bucket_total(buckets.take(from + 1)) >= target {
        Some(from)
    } else {
        reaches(buckets, target, from + 1)
    }
}

/// A quantile of the buckets, in milliseconds; none where no bucket reaches it.
pub open spec fn bucket_quantile(buckets: Seq<u64>, percent: u32, fraction: u128) -> Seq<Quantile> {
    match reaches(buckets, fraction_of(bucket_total(buckets), fraction), 0) {
        Some(i) => seq![
            Quantile {
                percent,
                value: Quantity::Quotient { num: pow2(i as nat) as u64, den: 1000 },
            },
        ],
        None => Seq::empty(),
    }
}

/// The distribution that the buckets show.
pub open spec fn bucket_histogram(buckets: Seq<u64>) -> HistogramView {
    HistogramView {
        count: bucket_total(buckets),
        sum: LatencySumView::Buckets(buckets),
        quantiles: bucket_quantile(buckets, 50, FRACTION_50) + bucket_quantile(
            buckets,
            90,
            FRACTION_90,
        ) + bucket_quantile(buckets, 95, FRACTION_95) + bucket_quantile(buckets, 99, FRACTION_99),
    }
}

/// The window of a device.
pub open spec fn window_of(history: Seq<(Seq<char>, Seq<Latency>)>, device: Seq<char>) -> Seq<
    Latency,
> {
    match registry::lookup(history, device) {
        Some(window) => window,
        None => Seq::empty(),
    }
}

/// The distribution for a device, and the windows afterwards. Buckets that hold requests are
/// preferred; an interval without requests shows none and leaves the windows alone.
pub open spec fn measured(
    history: Seq<(Seq<char>, Seq<Latency>)>,
    device: Seq<char>,
    prev: Option<DiskRawStat>,
    cur: DiskRawStat,
    buckets: Option<Seq<u64>>,
) -> (HistogramView, Seq<(Seq<char>, Seq<Latency>)>) {
    let latest = interval(prev, cur);
    if buckets is Some && bucket_total(buckets->0) != 0 {
        (bucket_histogram(buckets->0), history)
    } else if latest.ios == 0 {
        (metrics::no_latency(), history)
    } else {
        let window = recent(window_of(history, device), latest);
        (window_histogram(window, latest), registry::with_entry(history, device, window))
    }
}

proof fn lemma_slot(sorted: Seq<Latency>, x: Latency)
    ensures
        0 <= slot(sorted, x) <= sorted.len(),
        forall|i: int| 0 <= i < slot(sorted, x) ==> at_most(#[trigger] sorted[i], x),
        slot(sorted, x) < sorted.len() ==> !at_most(sorted[slot(sorted, x)], x),
    decreases sorted.len(),
{
    if sorted.len() > 0 && at_most(sorted[0], x) {
        lemma_slot(sorted.skip(1), x);
        assert forall|i: int| 0 <= i < slot(sorted, x) implies at_most(#[trigger] sorted[i], x) by {
            if i > 0 {
                assert(sorted[i] == sorted.skip(1)[i - 1]);
            }
        }
    }
}

proof fn lemma_slot_is(sorted: Seq<Latency>, x: Latency, at: int)
    requires
        0 <= at <= sorted.len(),
        forall|i: int| 0 <= i < at ==> at_most(#[trigger] sorted[i], x),
        at < sorted.len() ==> !at_most(sorted[at], x),
    ensures
        slot(sorted, x) == at,
{
    lemma_slot(sorted, x);
    let s = slot(sorted, x);
    if s < at {
        assert(at_most(sorted[s], x));
    }
    if at < s {
        assert(at_most(sorted[at], x));
    }
}

/// Means are ordered: of three intervals with requests, the order carries over.
pub proof fn at_most_transitive(a: Latency, b: Latency, c: Latency)
    requires
        a.ios > 0,
        b.ios > 0,
        c.ios > 0,
        at_most(a, b),
        at_most(b, c),
    ensures
        at_most(a, c),
{
    let (at, ai, bt, bi, ct, ci) = (
        a.time_ms as int,
        a.ios as int,
        b.time_ms as int,
        b.ios as int,
        c.time_ms as int,
        c.ios as int,
    );
    assert(at * ci <= ct * ai) by (nonlinear_arith)
        requires
            at * bi <= bt * ai,
            bt * ci <= ct * bi,
            ai > 0,
            bi > 0,
            ci > 0,
            at >= 0,
            bt >= 0,
            ct >= 0,
    {
        assert((at * ci) * bi == (at * bi) * ci);
        assert((at * bi) * ci <= (bt * ai) * ci);
        assert((bt * ai) * ci == (bt * ci) * ai);
        assert((bt * ci) * ai <= (ct * bi) * ai);
        assert((ct * bi) * ai == (ct * ai) * bi);
    }
}

/// Whether every interval has requests.
pub open spec fn busy(window: Seq<Latency>) -> bool {
    forall|i: int| 0 <= i < window.len() ==> (#[trigger] window[i]).ios > 0
}

/// Sorting a window keeps its intervals and puts them in ascending order.
pub proof fn ascending_is_sorted(window: Seq<Latency>)
    requires
        busy(window),
    ensures
        ascending(window).len() == window.len(),
        ascending(window).to_multiset() == window.to_multiset(),
        busy(ascending(window)),
        forall|i: int, j: int|
            0 <= i < j < window.len() ==> at_most(
                #[trigger] ascending(window)[i],
                #[trigger] ascending(window)[j],
            ),
    decreases window.len(),
{
    if window.len() > 0 {
        let shorter = window.drop_last();
        let x = window.last();
        let before = ascending(shorter);
        let at = slot(before, x);
        let sorted = ascending(window);
        assert forall|i: int| 0 <= i < shorter.len() implies (#[trigger] shorter[i]).ios > 0 by {
            assert(shorter[i] == window[i]);
        }
        ascending_is_sorted(shorter);
        lemma_slot(before, x);
        assert(x == window[window.len() - 1]);
        assert forall|i: int, j: int| 0 <= i < j < window.len() implies at_most(
            #[trigger] sorted[i],
            #[trigger] sorted[j],
        ) by {
            let bi = if i < at {
                i
            } else {
                i - 1
            };
            let bj = if j < at {
                j
            } else {
                j - 1
            };
            if i == at {
                assert(sorted[j] == before[bj]);
                if bj > at {
                    assert(at_most(before[at], before[bj]));
                    at_most_transitive(x, before[at], before[bj]);
                }
            } else if j == at {
                assert(sorted[i] == before[bi]);
                assert(at_most(before[bi], x));
            } else {
                assert(at_most(before[bi], before[bj]));
            }
        }
        assert forall|i: int| 0 <= i < sorted.len() implies (#[trigger] sorted[i]).ios > 0 by {
            if i < at {
                assert(sorted[i] == before[i]);
            } else if i > at {
                assert(sorted[i] == before[i - 1]);
            }
        }
        assert(sorted.remove(at) =~= before);
        assert(sorted[at] == x);
        vstd::seq_lib::to_multiset_remove(sorted, at);
        broadcast use vstd::seq_lib::group_to_multiset_ensures;

        assert(sorted.contains(x));
        assert(before.to_multiset().insert(x) =~= sorted.to_multiset());
        assert(window =~= shorter.push(x));
        vstd::seq_lib::to_multiset_build(shorter, x);
    } else {
        assert(ascending(window) =~= window);
    }
}

/// Whether the mean of `a` is at most that of `b`.
fn mean_at_most(a: &Latency, b: &Latency) -> (res: bool)
    ensures
        res == at_most(*a, *b),
{
    proof {
        lemma_product_fits(a.time_ms, b.ios);
        lemma_product_fits(b.time_ms, a.ios);
    }
    a.time_ms as u128 * b.ios as u128 <= b.time_ms as u128 * a.ios as u128
}

proof fn lemma_product_fits(a: u64, b: u64)
    ensures
        0 <= a * b <= u128::MAX,
{
    assert(0 <= a * b <= 0xffff_ffff_ffff_ffff * 0xffff_ffff_ffff_ffff) by (nonlinear_arith)
        requires
            0 <= a <= 0xffff_ffff_ffff_ffff,
            0 <= b <= 0xffff_ffff_ffff_ffff,
    ;
}

/// The intervals of a window by ascending mean.
pub fn sort_ascending(window: &Vec<Latency>) -> (res: Vec<Latency>)
    ensures
        res@ == ascending(window@),
{
    let mut sorted: Vec<Latency> = Vec::new();
    let mut n: usize = 0;
    assert(sorted@ =~= ascending(window@.take(0)));
    while n < window.len()
        invariant
            0 <= n <= window@.len(),
            sorted@ == ascending(window@.take(n as int)),
        decreases window@.len() - n,
    {
        let x: Latency = window[n];
        let mut at: usize = 0;
        while at < sorted.len() && mean_at_most(&sorted[at], &x)
            invariant
                0 <= at <= sorted@.len(),
                forall|i: int| 0 <= i < at ==> at_most(#[trigger] sorted@[i], x),
            decreases sorted@.len() - at,
        {
            at = at + 1;
        }
        proof {
            lemma_slot_is(sorted@, x, at as int);
            assert(window@.take(n + 1).drop_last() =~= window@.take(n as int));
        }
        sorted.insert(at, x);
        n = n + 1;
    }
    assert(window@.take(n as int) =~= window@);
    sorted
}

proof fn lemma_ascending_len(window: Seq<Latency>)
    ensures
        ascending(window).len() == window.len(),
    decreases window.len(),
{
    if window.len() > 0 {
        lemma_ascending_len(window.drop_last());
        lemma_slot(ascending(window.drop_last()), window.last());
    }
}

/// A quantile of a sorted window.
fn quantile(sorted: &Vec<Latency>, percent: u32) -> (res: Quantile)
    requires
        0 < sorted@.len() <= WINDOW,
        percent <= 100,
    ensures
        res == window_quantile(sorted@, percent),
{
    let len: usize = sorted.len();
    assert(0 <= len * percent <= 25600) by (nonlinear_arith)
        requires
            0 <= len <= 256,
            0 <= percent <= 100,
    ;
    let at: usize = len * percent as usize / 100;
    let x: &Latency = &sorted[if at < len {
        at
    } else {
        len - 1
    }];
    Quantile { percent, value: Quantity::Quotient { num: x.time_ms, den: x.ios } }
}

/// The requests in all buckets.
fn sum_buckets(buckets: &Vec<u64>) -> (res: u64)
    ensures
        res == bucket_total(buckets@),
{
    let mut total: u64 = 0;
    let mut i: usize = 0;
    while i < buckets.len()
        invariant
            0 <= i <= buckets@.len(),
            total == bucket_total(buckets@.take(i as int)),
        decreases buckets@.len() - i,
    {
        assert(buckets@.take(i + 1).drop_last() =~= buckets@.take(i as int));
        total = total.wrapping_add(buckets[i]);
        i = i + 1;
    }
    assert(buckets@.take(i as int) =~= buckets@);
    total
}

/// The number of requests that a fraction of them amounts to.
pub fn scale(count: u64, fraction: u128) -> (res: u64)
    requires
        fraction <= FRACTION_ONE,
    ensures
        res == fraction_of(count, fraction),
{
    let whole: u128 = rounding::to_double(count as u128);
    assert(whole * fraction <= 0x2_0000_0000_0000_0000 * 0x20_0000_0000_0000) by (nonlinear_arith)
        requires
            0 <= whole <= 0x2_0000_0000_0000_0000,
            0 <= fraction <= 0x20_0000_0000_0000,
    ;
    assert(0 <= whole * fraction) by (nonlinear_arith)
        requires
            0 <= whole,
            0 <= fraction,
    ;
    let product: u128 = rounding::to_double(whole * fraction);
    let target: u128 = product / FRACTION_ONE;
    if target <= 0xffff_ffff_ffff_ffff {
        target as u64
    } else {
        u64::MAX
    }
}

/// The first bucket by which so many requests are counted.
fn find_bucket(buckets: &Vec<u64>, target: u64) -> (res: Option<usize>)
    ensures
        match res {
            Some(i) => reaches(buckets@, target, 0) == Some(i as int) && i < buckets@.len(),
            None => reaches(buckets@, target, 0) is None,
        },
{
    let mut running: u64 = 0;
    let mut i: usize = 0;
    while i < buckets.len()
        invariant
            0 <= i <= buckets@.len(),
            running == bucket_total(buckets@.take(i as int)),
            reaches(buckets@, target, 0) == reaches(buckets@, target, i as int),
        decreases buckets@.len() - i,
    {
        assert(buckets@.take(i + 1).drop_last() =~= buckets@.take(i as int));
        running = running.wrapping_add(buckets[i]);
        if running >= target {
            return Some(i);
        }
        i = i + 1;
    }
    None
}

/// Appends a quantile of the buckets, where a bucket reaches it.
fn push_quantile(out: &mut Vec<Quantile>, buckets: &Vec<u64>, percent: u32, fraction: u128)
    requires
        buckets@.len() <= BUCKETS,
        fraction <= FRACTION_ONE,
    ensures
        final(out)@ == old(out)@ + bucket_quantile(buckets@, percent, fraction),
{
    let target: u64 = scale(sum_buckets(buckets), fraction);
    match find_bucket(buckets, target) {
        Some(i) => {
            proof {
                vstd::bits::lemma_u64_pow2_no_overflow(i as nat);
                vstd::bits::lemma_u64_shl_is_mul(1, i as u64);
            }
            let micros: u64 = 1u64 << (i as u64);
            out.push(Quantile { percent, value: Quantity::Quotient { num: micros, den: 1000 } });
            assert(out@ =~= old(out)@ + bucket_quantile(buckets@, percent, fraction));
        },
        None => {
            assert(out@ =~= old(out)@ + bucket_quantile(buckets@, percent, fraction));
        },
    }
}

/// The distribution that the buckets show; none where they hold no requests.
pub fn read_bpf_histogram(buckets: &Vec<u64>) -> (res: Option<HistogramData>)
    requires
        buckets@.len() <= BUCKETS,
    ensures
        bucket_total(buckets@) == 0 ==> res is None,
        bucket_total(buckets@) != 0 ==> (res matches Some(h) && h@ == bucket_histogram(buckets@)),
{
    let count: u64 = sum_buckets(buckets);
    if count == 0 {
        return None;
    }
    let mut quantiles: Vec<Quantile> = Vec::new();
    push_quantile(&mut quantiles, buckets, 50, FRACTION_50);
    push_quantile(&mut quantiles, buckets, 90, FRACTION_90);
    push_quantile(&mut quantiles, buckets, 95, FRACTION_95);
    push_quantile(&mut quantiles, buckets, 99, FRACTION_99);
    let res = HistogramData {
        count,
        sum: LatencySum::Buckets(metrics::copy_u64s(buckets)),
        quantiles,
    };
    assert(res@.quantiles =~= bucket_histogram(buckets@).quantiles);
    Some(res)
}

/// The descriptors of the maps that a tracer in the kernel fills, and whether it is attached.
#[derive(Debug, Clone, Copy, PartialEq, Eq, Structural)]
pub struct TracerHandles {
    pub histogram_fd: i32,
    pub start_map_fd: i32,
    pub attached: bool,
}

/// Follows the latency of disk requests.
pub struct IoLatencyTracker {
    history: Registry<Vec<Latency>>,
    tracer: TracerHandles,
}

/// The windows in a registry.
pub open spec fn windows(entries: Seq<(Seq<char>, Vec<Latency>)>) -> Seq<(Seq<char>, Seq<Latency>)> {
    Seq::new(entries.len(), |i: int| (entries[i].0, entries[i].1@))
}

/// Whether buckets can be read: the tracer is attached and has a map for them.
pub open spec fn has_buckets(tracer: TracerHandles) -> bool {
    tracer.attached && tracer.histogram_fd >= 0
}

impl IoLatencyTracker {
    /// The windows by device.
    pub closed spec fn devices(&self) -> Seq<(Seq<char>, Seq<Latency>)> {
        windows(self.history@)
    }

    /// The tracer in the kernel.
    pub closed spec fn handles(&self) -> TracerHandles {
        self.tracer
    }

    /// A tracker without windows.
    pub fn new(tracer: TracerHandles) -> (res: Self)
        ensures
            res.devices() == Seq::<(Seq<char>, Seq<Latency>)>::empty(),
            res.handles() == tracer,
    {
        let res = IoLatencyTracker { history: Registry::new(), tracer };
        assert(res.devices() =~= Seq::empty());
        res
    }

    /// The descriptor of the map with the buckets, where they can be read.
    pub fn bucket_source(&self) -> (res: Option<i32>)
        ensures
            res == if has_buckets(self.handles()) {
                Some(self.handles().histogram_fd)
            } else {
                None
            },
    {
        if self.tracer.attached && self.tracer.histogram_fd >= 0 {
            Some(self.tracer.histogram_fd)
        } else {
            None
        }
    }

    /// The distribution for a device, from its counters and, where the tracer has them, from the
    /// buckets.
    pub fn compute_latency(
        &mut self,
        device: &str,
        prev: Option<&DiskRawStat>,
        cur: &DiskRawStat,
        buckets: Option<&Vec<u64>>,
    ) -> (res: HistogramData)
        requires
            buckets matches Some(b) ==> b@.len() <= BUCKETS,
        ensures
            ({
                let (view, windows) = measured(
                    old(self).devices(),
                    device@,
                    match prev {
                        Some(p) => Some(*p),
                        None => None,
                    },
                    *cur,
                    match buckets {
                        Some(b) if has_buckets(old(self).handles()) => Some(b@),
                        _ => None,
                    },
                );
                &&& res@ == view
                &&& final(self).devices() == windows
                &&& final(self).handles() == old(self).handles()
            }),
    {
        if self.tracer.attached && self.tracer.histogram_fd >= 0 {
            match buckets {
                Some(b) => {
                    match read_bpf_histogram(b) {
                        Some(histogram) => {
                            return histogram;
                        },
                        None => {},
                    }
                },
                None => {},
            }
        }
        let latest: Latency = match prev {
            Some(p) => Latency {
                time_ms: cur.read_time_ms.wrapping_sub(p.read_time_ms).wrapping_add(
                    cur.write_time_ms.wrapping_sub(p.write_time_ms),
                ),
                ios: cur.read_ios.wrapping_sub(p.read_ios).wrapping_add(
                    cur.write_ios.wrapping_sub(p.write_ios),
                ),
            },
            None => Latency { time_ms: 0, ios: 0 },
        };
        if latest.ios == 0 {
            return HistogramData::none();
        }
        let window: Vec<Latency> = self.slide(device, latest);
        let sorted: Vec<Latency> = sort_ascending(&window);
        proof {
            lemma_ascending_len(window@);
        }
        let mut quantiles: Vec<Quantile> = Vec::new();
        quantiles.push(quantile(&sorted, 50));
        quantiles.push(quantile(&sorted, 90));
        quantiles.push(quantile(&sorted, 95));
        quantiles.push(quantile(&sorted, 99));
        let res = HistogramData {
            count: latest.ios,
            sum: LatencySum::Millis(latest.time_ms),
            quantiles,
        };
        assert(res@.quantiles =~= window_histogram(window@, latest).quantiles);
        res
    }

    /// Puts an interval into the window of a device and gives back the window.
    fn slide(&mut self, device: &str, latest: Latency) -> (window: Vec<Latency>)
        ensures
            window@ == recent(window_of(old(self).devices(), device@), latest),
            0 < window@.len() <= WINDOW,
            final(self).devices() == registry::with_entry(
                old(self).devices(),
                device@,
                window@,
            ),
            final(self).handles() == old(self).handles(),
    {
        let ghost entries = self.history@;
        let mut window: Vec<Latency> = match self.history.get(device) {
            Some(w) => vstd::slice::slice_to_vec(w.as_slice()),
            None => Vec::new(),
        };
        proof {
            registry::lemma_index_of_names(entries, windows(entries), device@);
            registry::lemma_index_of(entries, device@);
            assert(window@ =~= window_of(windows(entries), device@));
        }
        window.push(latest);
        if window.len() > WINDOW {
            let from: usize = window.len() - WINDOW;
            let kept: Vec<Latency> = window.split_off(from);
            assert(kept@ =~= recent(window_of(windows(entries), device@), latest));
            window = kept;
        }
        let copy: Vec<Latency> = vstd::slice::slice_to_vec(window.as_slice());
        self.history.insert(device.to_owned(), copy);
        proof {
            let after = registry::with_entry(entries, device@, copy);
            assert(windows(after) =~= registry::with_entry(windows(entries), device@, window@));
        }
        window
    }
}

/// The quantiles of a window are means of its intervals, and a greater percentage never has a
/// smaller one.
pub proof fn quantiles_ascend(window: Seq<Latency>, p: u32, q: u32)
    requires
        busy(window),
        window.len() > 0,
        p <= q <= 100,
    ensures
        ({
            let sorted = ascending(window);
            let a = window_quantile(sorted, p).value;
            let b = window_quantile(sorted, q).value;
            &&& a.defined() && b.defined()
            &&& a.numerator() * b.denominator() <= b.numerator() * a.denominator()
            &&& exists|i: int|
                0 <= i < window.len() && a == (Quantity::Quotient {
                    num: (#[trigger] window[i]).time_ms,
                    den: window[i].ios,
                })
        }),
{
    let sorted = ascending(window);
    ascending_is_sorted(window);
    let n = sorted.len() as int;
    assert(n * p <= n * q) by (nonlinear_arith)
        requires
            n > 0,
            p <= q,
    ;
    let (x, y) = (n * p / 100, n * q / 100);
    let (i, j) = (
        if x < n {
            x
        } else {
            n - 1
        },
        if y < n {
            y
        } else {
            n - 1
        },
    );
    assert(0 <= n * p) by (nonlinear_arith)
        requires
            n > 0,
            p >= 0,
    ;
    assert(0 <= i <= j < n);
    if i < j {
        assert(at_most(sorted[i], sorted[j]));
    }
    broadcast use vstd::seq_lib::group_to_multiset_ensures;

    assert(sorted.to_multiset().contains(sorted[i])) by {
        assert(sorted.contains(sorted[i]));
    }
    assert(window.contains(sorted[i]));
}

/// Whether every window holds only intervals with requests, and no more of them than fit.
pub open spec fn windows_sound(history: Seq<(Seq<char>, Seq<Latency>)>) -> bool {
    forall|i: int|
        0 <= i < history.len() ==> busy((#[trigger] history[i]).1) && history[i].1.len() <= WINDOW
}

/// A measurement keeps the windows sound, and every quantile that it shows has a value.
pub proof fn measurements_have_values(
    history: Seq<(Seq<char>, Seq<Latency>)>,
    device: Seq<char>,
    prev: Option<DiskRawStat>,
    cur: DiskRawStat,
    buckets: Option<Seq<u64>>,
)
    requires
        windows_sound(history),
    ensures
        ({
            let (shown, after) = measured(history, device, prev, cur, buckets);
            &&& soundness::histogram_defined(shown)
            &&& windows_sound(after)
        }),
{
    let latest = interval(prev, cur);
    if buckets is Some && bucket_total(buckets->0) != 0 {
    } else if latest.ios > 0 {
        let before = window_of(history, device);
        let window = recent(before, latest);
        let after = registry::with_entry(history, device, window);
        registry::lemma_index_of(history, device);
        assert(busy(before));
        assert forall|i: int| 0 <= i < window.len() implies (#[trigger] window[i]).ios > 0 by {
            let all = before.push(latest);
            let k = if all.len() > WINDOW {
                i + (all.len() - WINDOW)
            } else {
                i
            };
            assert(window[i] == all[k]);
            if k < before.len() {
                assert(before[k].ios > 0);
            }
        }
        ascending_is_sorted(window);
        let sorted = ascending(window);
        assert forall|i: int| 0 <= i < after.len() implies busy((#[trigger] after[i]).1)
            && after[i].1.len() <= WINDOW by {
            if i < history.len() && after[i] != (device, window) {
                assert(after[i] == history[i]);
            }
        }
        assert(sorted.len() > 0);
        assert forall|p: u32| p <= 100 implies (#[trigger] window_quantile(
            sorted,
            p,
        )).value.defined() by {
            lemma_quantile_index(sorted.len(), p);
        }
    }
}

proof fn lemma_quantile_index(len: nat, p: u32)
    requires
        len > 0,
    ensures
        0 <= len * p / 100,
{
    assert(0 <= len * p) by (nonlinear_arith)
        requires
            len > 0,
            p >= 0,
    ;
}

/// The requests in all buckets, without a limit.
pub open spec fn bucket_sum(buckets: Seq<u64>) -> nat
    decreases buckets.len(),
{
    if buckets.len() == 0 {
        0
    } else {
        bucket_sum(buckets.drop_last()) + buckets.last() as nat
    }
}

proof fn lemma_bucket_sum(buckets: Seq<u64>)
    requires
        bucket_sum(buckets) <= u64::MAX,
    ensures
        bucket_total(buckets) == bucket_sum(buckets),
    decreases buckets.len(),
{
    if buckets.len() > 0 {
        lemma_bucket_sum(buckets.drop_last());
    }
}

proof fn lemma_reaches(buckets: Seq<u64>, target: u64, from: int)
    requires
        0 <= from <= buckets.len(),
    ensures
        match reaches(buckets, target, from) {
            Some(i) => {
                &&& from <= i < buckets.len()
                &&& forall|k: int|
                    from <= k < i ==> bucket_total(#[trigger] buckets.take(k + 1)) < target
                &&& bucket_total(buckets.take(i + 1)) >= target
            },
            None => forall|k: int|
                from <= k < buckets.len() ==> bucket_total(#[trigger] buckets.take(k + 1)) < target,
        },
    decreases buckets.len() - from,
{
    if from < buckets.len() && bucket_total(buckets.take(from + 1)) < target {
        lemma_reaches(buckets, target, from + 1);
    }
}

proof fn lemma_fraction_monotone(count: u64, smaller: u128, greater: u128)
    requires
        smaller <= greater,
    ensures
        fraction_of(count, smaller) <= fraction_of(count, greater),
{
    let n = rounding::nearest_double(count as nat);
    let (a, b) = (n * smaller as nat, n * greater as nat);
    assert(a <= b) by (nonlinear_arith)
        requires
            a == n * smaller as nat,
            b == n * greater as nat,
            smaller <= greater,
    ;
    rounding::doubles_keep_order(a, b);
}

/// Up to ninety-nine hundredths, rounding never makes a fraction greater than the whole.
proof fn lemma_fraction_at_most(count: u64, fraction: u128)
    requires
        fraction <= FRACTION_99,
    ensures
        fraction_of(count, fraction) <= count,
{
    let unit: nat = 0x10_0000_0000_0000;
    let c = count as nat;
    let f = fraction as nat;
    let n = rounding::nearest_double(c);
    let p = n * f;
    let m = rounding::nearest_double(p);
    rounding::doubles_are_near(c);
    rounding::doubles_are_near(p);
    assert(m * unit * unit <= c * ((unit + 1) * (unit + 1) * f)) by (nonlinear_arith)
        requires
            n * unit <= c * (unit + 1),
            m * unit <= p * (unit + 1),
            p == n * f,
    {
        assert(m * unit * unit <= n * f * (unit + 1) * unit);
        assert(n * f * (unit + 1) * unit == (n * unit) * (f * (unit + 1)));
        assert((n * unit) * (f * (unit + 1)) <= c * (unit + 1) * (f * (unit + 1)));
        assert(c * (unit + 1) * (f * (unit + 1)) == c * ((unit + 1) * (unit + 1) * f));
    }
    assert((unit + 1) * (unit + 1) * f <= unit * unit * (2 * unit)) by (nonlinear_arith)
        requires
            unit == 0x10_0000_0000_0000,
            f <= 0x1f_ae14_7ae1_47ae,
    ;
    assert(m <= c * (2 * unit)) by (nonlinear_arith)
        requires
            m * unit * unit <= c * ((unit + 1) * (unit + 1) * f),
            (unit + 1) * (unit + 1) * f <= unit * unit * (2 * unit),
            unit > 0,
    {
        assert(c * ((unit + 1) * (unit + 1) * f) <= c * (unit * unit * (2 * unit)));
        assert(c * (unit * unit * (2 * unit)) == c * (2 * unit) * (unit * unit));
        assert(m * (unit * unit) <= c * (2 * unit) * (unit * unit));
    }
    assert(m / (2 * unit) <= c) by (nonlinear_arith)
        requires
            m <= c * (2 * unit),
            unit > 0,
    ;
}

/// Where the buckets show a quantile they also show every lower one, and none of these is greater.
pub proof fn bucket_quantiles_ascend(
    buckets: Seq<u64>,
    p: u32,
    smaller: u128,
    q: u32,
    greater: u128,
)
    requires
        buckets.len() <= BUCKETS,
        smaller <= greater,
        bucket_quantile(buckets, q, greater).len() > 0,
    ensures
        bucket_quantile(buckets, p, smaller).len() == 1,
        bucket_quantile(buckets, p, smaller)[0].value.numerator() <= bucket_quantile(
            buckets,
            q,
            greater,
        )[0].value.numerator(),
{
    let total = bucket_total(buckets);
    let (low, high) = (fraction_of(total, smaller), fraction_of(total, greater));
    lemma_fraction_monotone(total, smaller, greater);
    lemma_reaches(buckets, low, 0);
    lemma_reaches(buckets, high, 0);
    let j = reaches(buckets, high, 0)->0;
    assert(bucket_total(buckets.take(j + 1)) >= low);
    let i = reaches(buckets, low, 0)->0;
    assert(i <= j);
    lemma_pow2(63);
    lemma2_to64();
    lemma2_to64_rest();
    if i < j {
        lemma_pow2_strictly_increases(i as nat, j as nat);
    }
    if j < 63 {
        lemma_pow2_strictly_increases(j as nat, 63);
    }
}

/// Where the requests in all buckets can be counted in 64 bits, the buckets show all quantiles.
pub proof fn buckets_show_all_quantiles(buckets: Seq<u64>)
    requires
        0 < bucket_sum(buckets) <= u64::MAX,
    ensures
        bucket_histogram(buckets).count == bucket_sum(buckets),
        bucket_histogram(buckets).quantiles.len() == 4,
{
    let total = bucket_total(buckets);
    let last = buckets.len() - 1;
    lemma_bucket_sum(buckets);
    assert(buckets.take(last + 1) =~= buckets);
    lemma_fraction_at_most(total, FRACTION_50);
    lemma_fraction_at_most(total, FRACTION_90);
    lemma_fraction_at_most(total, FRACTION_95);
    lemma_fraction_at_most(total, FRACTION_99);
    lemma_reaches(buckets, fraction_of(total, FRACTION_50), 0);
    lemma_reaches(buckets, fraction_of(total, FRACTION_90), 0);
    lemma_reaches(buckets, fraction_of(total, FRACTION_95), 0);
    lemma_reaches(buckets, fraction_of(total, FRACTION_99), 0);
}

/// The requests between two readings are those read and those written, and so is their time.
pub proof fn intervals_count_reads_and_writes(
    p: DiskRawStat,
    reads: u64,
    writes: u64,
    read_ms: u64,
    write_ms: u64,
)
    requires
        p.read_ios + reads <= u64::MAX,
        p.write_ios + writes <= u64::MAX,
        p.read_time_ms + read_ms <= u64::MAX,
        p.write_time_ms + write_ms <= u64::MAX,
        reads + writes <= u64::MAX,
        read_ms + write_ms <= u64::MAX,
    ensures
        forall|c: DiskRawStat|
            {
                &&& c.read_ios == p.read_ios + reads
                &&& c.write_ios == p.write_ios + writes
                &&& c.read_time_ms == p.read_time_ms + read_ms
                &&& c.write_time_ms == p.write_time_ms + write_ms
            } ==> {
                &&& (#[trigger] interval(Some(p), c)).ios == reads + writes
                &&& interval(Some(p), c).time_ms == read_ms + write_ms
            },
{
}

/// A measurement that is made for a device.
#[verifier::ext_equal]
pub struct Measurement {
    pub device: Seq<char>,
    pub prev: Option<DiskRawStat>,
    pub cur: DiskRawStat,
    pub buckets: Option<Seq<u64>>,
}

/// The windows after some measurements, one after the other.
pub open spec fn windows_after(made: Seq<Measurement>) -> Seq<(Seq<char>, Seq<Latency>)>
    decreases made.len(),
{
    if made.len() == 0 {
        Seq::empty()
    } else {
        let m = made.last();
        measured(windows_after(made.drop_last()), m.device, m.prev, m.cur, m.buckets).1
    }
}

/// The intervals with requests that were measured under a name, but for those that the kernel
/// counted in buckets.
pub open spec fn intervals_of(made: Seq<Measurement>, device: Seq<char>) -> Seq<Latency>
    decreases made.len(),
{
    if made.len() == 0 {
        Seq::empty()
    } else {
        let before = intervals_of(made.drop_last(), device);
        let m = made.last();
        let counted = m.buckets is Some && bucket_total(m.buckets->0) != 0;
        if m.device == device && !counted && interval(m.prev, m.cur).ios > 0 {
            before.push(interval(m.prev, m.cur))
        } else {
            before
        }
    }
}

/// The last intervals of a list, up to 256.
pub open spec fn latest_of(list: Seq<Latency>) -> Seq<Latency> {
    if list.len() > 256 {
        list.skip(list.len() - 256)
    } else {
        list
    }
}

/// After any measurements the window of a device holds the last 256 intervals that were measured
/// under its name, whatever was measured for other devices in between.
pub proof fn windows_hold_their_own_intervals(made: Seq<Measurement>, device: Seq<char>)
    ensures
        registry::lookup(windows_after(made), device) == if intervals_of(made, device).len() == 0 {
            None
        } else {
            Some(latest_of(intervals_of(made, device)))
        },
    decreases made.len(),
{
    if made.len() > 0 {
        let m = made.last();
        let shorter = made.drop_last();
        let before = windows_after(shorter);
        windows_hold_their_own_intervals(shorter, device);
        windows_hold_their_own_intervals(shorter, m.device);
        let latest = interval(m.prev, m.cur);
        if m.buckets is Some && bucket_total(m.buckets->0) != 0 {
        } else if latest.ios > 0 {
            let window = recent(window_of(before, m.device), latest);
            registry::entry_put(before, m.device, window, device);
            if m.device == device {
                let own = intervals_of(shorter, device);
                assert(window =~= latest_of(own.push(latest)));
            }
        }
    } else {
        registry::lemma_index_of(windows_after(made), device);
    }
}

/// What is measured for a device depends on its own window and on no other one, and leaves the
/// windows of all other devices as they were.
pub proof fn devices_do_not_mix(
    a: Seq<(Seq<char>, Seq<Latency>)>,
    b: Seq<(Seq<char>, Seq<Latency>)>,
    m: Measurement,
    other: Seq<char>,
)
    requires
        registry::lookup(a, m.device) == registry::lookup(b, m.device),
    ensures
        measured(a, m.device, m.prev, m.cur, m.buckets).0 == measured(
            b,
            m.device,
            m.prev,
            m.cur,
            m.buckets,
        ).0,
        registry::lookup(measured(a, m.device, m.prev, m.cur, m.buckets).1, m.device)
            == registry::lookup(measured(b, m.device, m.prev, m.cur, m.buckets).1, m.device),
        other != m.device ==> registry::lookup(
            measured(a, m.device, m.prev, m.cur, m.buckets).1,
            other,
        ) == registry::lookup(a, other),
{
    let latest = interval(m.prev, m.cur);
    let wa = recent(window_of(a, m.device), latest);
    let wb = recent(window_of(b, m.device), latest);
    registry::entry_put(a, m.device, wa, other);
    registry::entry_put(b, m.device, wb, other);
}

/// How many of some intervals have at most the mean of another one.
pub open spec fn count_up_to(window: Seq<Latency>, x: Latency) -> nat
    decreases window.len(),
{
    if window.len() == 0 {
        0
    } else {
        count_up_to(window.drop_last(), x) + if at_most(window.last(), x) {
            1nat
        } else {
            0nat
        }
    }
}

/// How many of some intervals have a smaller mean than another one.
pub open spec fn count_below(window: Seq<Latency>, x: Latency) -> nat
    decreases window.len(),
{
    if window.len() == 0 {
        0
    } else {
        count_below(window.drop_last(), x) + if at_most(x, window.last()) {
            0nat
        } else {
            1nat
        }
    }
}

proof fn lemma_counts_insert(s: Seq<Latency>, at: int, y: Latency, x: Latency)
    requires
        0 <= at <= s.len(),
    ensures
        count_up_to(s.insert(at, y), x) == count_up_to(s, x) + if at_most(y, x) {
            1nat
        } else {
            0nat
        },
        count_below(s.insert(at, y), x) == count_below(s, x) + if at_most(x, y) {
            0nat
        } else {
            1nat
        },
    decreases s.len(),
{
    let t = s.insert(at, y);
    if at == s.len() {
        assert(t.drop_last() =~= s);
        assert(t.last() == y);
    } else {
        assert(t.drop_last() =~= s.drop_last().insert(at, y));
        assert(t.last() == s.last());
        lemma_counts_insert(s.drop_last(), at, y, x);
    }
}

proof fn lemma_counts_sorted(window: Seq<Latency>, x: Latency)
    ensures
        count_up_to(ascending(window), x) == count_up_to(window, x),
        count_below(ascending(window), x) == count_below(window, x),
    decreases window.len(),
{
    if window.len() > 0 {
        let before = ascending(window.drop_last());
        lemma_counts_sorted(window.drop_last(), x);
        lemma_slot(before, window.last());
        lemma_counts_insert(before, slot(before, window.last()), window.last(), x);
    }
}

proof fn lemma_counts_prefix(sorted: Seq<Latency>, x: Latency, n: int)
    requires
        0 <= n <= sorted.len(),
        forall|i: int| 0 <= i < n ==> at_most(#[trigger] sorted[i], x),
    ensures
        count_up_to(sorted, x) >= n,
    decreases sorted.len(),
{
    if sorted.len() > 0 {
        let s = sorted.drop_last();
        let k = if n < sorted.len() {
            n
        } else {
            n - 1
        };
        assert forall|i: int| 0 <= i < k implies at_most(#[trigger] s[i], x) by {
            assert(s[i] == sorted[i]);
        }
        lemma_counts_prefix(s, x, k);
        if n == sorted.len() {
            assert(at_most(sorted[n - 1], x));
        }
    }
}

proof fn lemma_counts_suffix(sorted: Seq<Latency>, x: Latency, n: int)
    requires
        0 <= n <= sorted.len(),
        forall|i: int| n <= i < sorted.len() ==> at_most(x, #[trigger] sorted[i]),
    ensures
        count_below(sorted, x) <= n,
    decreases sorted.len(),
{
    if sorted.len() > 0 {
        let s = sorted.drop_last();
        let k = if n < sorted.len() {
            n
        } else {
            n - 1
        };
        assert forall|i: int| k <= i < s.len() implies at_most(x, #[trigger] s[i]) by {
            assert(s[i] == sorted[i]);
        }
        lemma_counts_suffix(s, x, k);
        if n < sorted.len() {
            assert(at_most(x, sorted[sorted.len() - 1]));
        }
    }
}

/// Whether a value is the mean of an interval of a window, such that no more than so many percent
/// of the window are below it, and more than that are up to it.
pub open spec fn is_quantile(window: Seq<Latency>, q: Quantile, percent: u32) -> bool {
    &&& q.percent == percent
    &&& exists|i: int|
        {
            &&& 0 <= i < window.len()
            &&& q.value.is_fraction((#[trigger] window[i]).time_ms as int, window[i].ios as int)
            &&& 100 * count_below(window, window[i]) <= percent * window.len()
            &&& 100 * count_up_to(window, window[i]) > percent * window.len()
        }
}

/// The distribution of a window has its median and its quantiles at 90, 95 and 99 percent, and the
/// requests of its latest interval.
pub proof fn windows_show_their_quantiles(window: Seq<Latency>, latest: Latency)
    requires
        busy(window),
        window.len() > 0,
    ensures
        ({
            let h = window_histogram(window, latest);
            &&& h.count == latest.ios
            &&& h.sum == LatencySumView::Millis(latest.time_ms)
            &&& h.quantiles.len() == 4
            &&& is_quantile(window, h.quantiles[0], 50)
            &&& is_quantile(window, h.quantiles[1], 90)
            &&& is_quantile(window, h.quantiles[2], 95)
            &&& is_quantile(window, h.quantiles[3], 99)
        }),
{
    lemma_quantile(window, 50);
    lemma_quantile(window, 90);
    lemma_quantile(window, 95);
    lemma_quantile(window, 99);
}

proof fn lemma_quantile(window: Seq<Latency>, percent: u32)
    requires
        busy(window),
        window.len() > 0,
        percent < 100,
    ensures
        is_quantile(window, window_quantile(ascending(window), percent), percent),
{
    let sorted = ascending(window);
    let n = window.len() as int;
    ascending_is_sorted(window);
    let at = n * percent / 100;
    assert(0 <= n * percent < 100 * n) by (nonlinear_arith)
        requires
            n > 0,
            percent < 100,
            percent >= 0,
    ;
    let x = sorted[at];
    assert forall|i: int| 0 <= i < at + 1 implies at_most(#[trigger] sorted[i], x) by {
        if i < at {
            assert(at_most(sorted[i], sorted[at]));
        }
    }
    assert forall|i: int| at <= i < sorted.len() implies at_most(x, #[trigger] sorted[i]) by {
        if i > at {
            assert(at_most(sorted[at], sorted[i]));
        }
    }
    lemma_counts_prefix(sorted, x, at + 1);
    lemma_counts_suffix(sorted, x, at);
    lemma_counts_sorted(window, x);
    broadcast use vstd::seq_lib::group_to_multiset_ensures;

    assert(sorted.to_multiset().contains(x)) by {
        assert(sorted.contains(x));
    }
    assert(window.contains(x));
    let i = choose|i: int| 0 <= i < window.len() && window[i] == x;
    assert(percent * window.len() == n * percent) by (nonlinear_arith)
        requires
            n == window.len(),
    ;
    assert(window_quantile(sorted, percent).value.is_fraction(
        window[i].time_ms as int,
        window[i].ios as int,
    ));
}

/// Without an earlier reading, and without a request since, a device shows no latency and every
/// window stays as it was.
pub proof fn idle_devices_show_nothing(
    history: Seq<(Seq<char>, Seq<Latency>)>,
    device: Seq<char>,
    prev: Option<DiskRawStat>,
    cur: DiskRawStat,
)
    requires
        prev matches Some(p) ==> p.read_ios == cur.read_ios && p.write_ios == cur.write_ios,
    ensures
        measured(history, device, prev, cur, None).0.count == 0,
        measured(history, device, prev, cur, None).0.quantiles.len() == 0,
        measured(history, device, prev, cur, None).1 == history,
{
}

/// A measurement shows the quantiles of the window that it leaves behind for the device, and the
/// requests since the earlier reading.
pub proof fn measurements_show_their_window(
    history: Seq<(Seq<char>, Seq<Latency>)>,
    device: Seq<char>,
    prev: Option<DiskRawStat>,
    cur: DiskRawStat,
)
    requires
        windows_sound(history),
        interval(prev, cur).ios > 0,
    ensures
        ({
            let (shown, after) = measured(history, device, prev, cur, None);
            let window = registry::lookup(after, device)->0;
            &&& registry::lookup(after, device) is Some
            &&& window.len() > 0 && window.last() == interval(prev, cur)
            &&& shown.count == interval(prev, cur).ios
            &&& shown.sum == LatencySumView::Millis(interval(prev, cur).time_ms)
            &&& shown.quantiles.len() == 4
            &&& is_quantile(window, shown.quantiles[0], 50)
            &&& is_quantile(window, shown.quantiles[1], 90)
            &&& is_quantile(window, shown.quantiles[2], 95)
            &&& is_quantile(window, shown.quantiles[3], 99)
        }),
{
    let latest = interval(prev, cur);
    let window = recent(window_of(history, device), latest);
    measurements_have_values(history, device, prev, cur, None);
    registry::lemma_index_of(history, device);
    registry::entry_put(history, device, window, device);
    let after = registry::with_entry(history, device, window);
    registry::lemma_index_of(after, device);
    assert(busy(window)) by {
        assert(after[registry::index_of(after, device)].1 == window);
    }
    windows_show_their_quantiles(window, latest);
}

/// Whether a value is that of a bucket, such that the requests up to it are no fewer than so many
/// percent of all, but for one request, and those before it are fewer.
pub open spec fn is_bucket_quantile(buckets: Seq<u64>, q: Quantile, percent: u32) -> bool {
    &&& q.percent == percent
    &&& exists|i: int|
        {
            &&& 0 <= i < buckets.len()
            &&& q.value.is_fraction(pow2(i as nat) as int, 1000)
            &&& 100 * (#[trigger] bucket_sum(buckets.take(i + 1)) + 1) >= percent * bucket_sum(
                buckets,
            )
            &&& i > 0 ==> 100 * (bucket_sum(buckets.take(i)) + 1) <= percent * bucket_sum(buckets)
        }
}

/// Where there are fewer than 2^43 requests in the buckets, they show the median and the quantiles
/// at 90, 95 and 99 percent of them, in milliseconds, where bucket `i` stands for 2^i
/// microseconds. The windows stay as they were.
pub proof fn buckets_show_their_quantiles(
    history: Seq<(Seq<char>, Seq<Latency>)>,
    device: Seq<char>,
    prev: Option<DiskRawStat>,
    cur: DiskRawStat,
    buckets: Seq<u64>,
)
    requires
        buckets.len() <= 64,
        0 < bucket_sum(buckets) < 0x800_0000_0000,
    ensures
        ({
            let (h, after) = measured(history, device, prev, cur, Some(buckets));
            &&& after == history
            &&& h.count == bucket_sum(buckets)
            &&& h.sum == LatencySumView::Buckets(buckets)
            &&& h.quantiles.len() == 4
            &&& is_bucket_quantile(buckets, h.quantiles[0], 50)
            &&& is_bucket_quantile(buckets, h.quantiles[1], 90)
            &&& is_bucket_quantile(buckets, h.quantiles[2], 95)
            &&& is_bucket_quantile(buckets, h.quantiles[3], 99)
        }),
{
    lemma_bucket_sum(buckets);
    buckets_show_all_quantiles(buckets);
    lemma_bucket_quantile(buckets, 50, FRACTION_50);
    lemma_bucket_quantile(buckets, 90, FRACTION_90);
    lemma_bucket_quantile(buckets, 95, FRACTION_95);
    lemma_bucket_quantile(buckets, 99, FRACTION_99);
}

/// Buckets without requests are as good as none.
pub proof fn empty_buckets_do_not_count(
    history: Seq<(Seq<char>, Seq<Latency>)>,
    m: Measurement,
    buckets: Seq<u64>,
)
    requires
        bucket_sum(buckets) == 0,
    ensures
        measured(history, m.device, m.prev, m.cur, Some(buckets)) == measured(
            history,
            m.device,
            m.prev,
            m.cur,
            None,
        ),
{
    lemma_bucket_sum(buckets);
}

proof fn lemma_bucket_prefix(buckets: Seq<u64>, k: int)
    requires
        0 <= k <= buckets.len(),
    ensures
        bucket_sum(buckets.take(k)) <= bucket_sum(buckets),
    decreases buckets.len(),
{
    if k == buckets.len() {
        assert(buckets.take(k) =~= buckets);
    } else {
        lemma_bucket_prefix(buckets.drop_last(), k);
        assert(buckets.drop_last().take(k) =~= buckets.take(k));
    }
}

proof fn lemma_bucket_quantile(buckets: Seq<u64>, percent: u32, fraction: u128)
    requires
        buckets.len() <= 64,
        0 < bucket_sum(buckets) < 0x800_0000_0000,
        percent <= 99,
        fraction <= FRACTION_99,
        percent * 0x20_0000_0000_0000 - 50 <= 100 * fraction <= percent * 0x20_0000_0000_0000 + 50,
    ensures
        bucket_quantile(buckets, percent, fraction).len() == 1,
        is_bucket_quantile(buckets, bucket_quantile(buckets, percent, fraction)[0], percent),
{
    let total = bucket_total(buckets);
    let last = buckets.len() - 1;
    lemma_bucket_sum(buckets);
    assert(buckets.take(last + 1) =~= buckets);
    lemma_fraction_at_most(total, fraction);
    let target = fraction_of(total, fraction);
    lemma_reaches(buckets, target, 0);
    lemma_fraction_is_near(total, percent, fraction);
    let i = reaches(buckets, target, 0)->0;
    assert(bucket_total(buckets.take(last + 1)) >= target);
    lemma_bucket_prefix(buckets, i + 1);
    lemma_bucket_sum(buckets.take(i + 1));
    lemma_bucket_prefix(buckets, i);
    lemma_bucket_sum(buckets.take(i));
    if i > 0 {
        assert(buckets.take((i - 1) + 1) =~= buckets.take(i));
    }
    lemma2_to64();
    lemma2_to64_rest();
    if i < 63 {
        lemma_pow2_strictly_increases(i as nat, 63);
    }
    let q = bucket_quantile(buckets, percent, fraction)[0];
    assert(q.value.is_fraction(pow2(i as nat) as int, 1000));
}

/// A fraction of a number of requests is its percentage of them, cut off.
proof fn lemma_fraction_is_near(count: u64, percent: u32, fraction: u128)
    requires
        count < 0x800_0000_0000,
        percent <= 99,
        percent * 0x20_0000_0000_0000 - 50 <= 100 * fraction <= percent * 0x20_0000_0000_0000 + 50,
    ensures
        100 * fraction_of(count, fraction) <= percent * count,
        100 * (fraction_of(count, fraction) + 1) >= percent * count,
{
    let (c, f, p) = (count as int, fraction as int, percent as int);
    let n = c * f;
    rounding::small_integers_are_doubles(count as nat);
    rounding::doubles_are_near(n as nat);
    rounding::doubles_are_not_far(n as nat);
    let m = rounding::nearest_double(n as nat) as int;
    assert(c * (p * 0x20_0000_0000_0000 - 50) <= 100 * n <= c * (p * 0x20_0000_0000_0000 + 50))
        by (nonlinear_arith)
        requires
            n == c * f,
            p * 0x20_0000_0000_0000 - 50 <= 100 * f <= p * 0x20_0000_0000_0000 + 50,
            c >= 0,
    ;
    let pc = p * c;
    assert(c * (p * 0x20_0000_0000_0000 - 50) == pc * 0x20_0000_0000_0000 - 50 * c && c * (p
        * 0x20_0000_0000_0000 + 50) == pc * 0x20_0000_0000_0000 + 50 * c) by (nonlinear_arith)
        requires
            pc == p * c,
    ;
    assert(0 <= pc <= 99 * c) by (nonlinear_arith)
        requires
            pc == p * c,
            0 <= p <= 99,
            c >= 0,
    ;
    let t = m / 0x20_0000_0000_0000;
    assert(m < 0x20_0000_0000_0000 * (t + 1) && m >= 0x20_0000_0000_0000 * t);
    assert(100 * t <= pc);
    assert(100 * (t + 1) >= pc);
    assert(t <= u64::MAX);
    assert(count as nat * fraction as nat == n);
}

/// Counters may come back to zero: what counts is by how much they went on, reads and writes
/// together and reduced to 64 bits.
pub proof fn counters_may_wrap(p: DiskRawStat, c: DiskRawStat)
    ensures
        interval(Some(p), c).ios == collector::low_bits(
            collector::grown(p.read_ios, c.read_ios) + collector::grown(p.write_ios, c.write_ios),
        ),
        interval(Some(p), c).time_ms == collector::low_bits(
            collector::grown(p.read_time_ms, c.read_time_ms) + collector::grown(
                p.write_time_ms,
                c.write_time_ms,
            ),
        ),
{
    let reads = collector::grown(p.read_ios, c.read_ios);
    let times = collector::grown(p.read_time_ms, c.read_time_ms);
    collector::lemma_low_bits(
        reads,
        reads as u64,
        collector::grown(p.write_ios, c.write_ios) as u64,
    );
    collector::lemma_low_bits(
        times,
        times as u64,
        collector::grown(p.write_time_ms, c.write_time_ms) as u64,
    );
}

} // verus!
