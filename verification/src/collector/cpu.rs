//! Processor load, from the tick counters of `/proc/stat`.
use crate::bytes;
use crate::collector;
use crate::collector::{CollectorError, FileRead};
use crate::metrics::{CoreMetrics, CpuMetrics, CpuView, Quantity};
use crate::platform::linux;
use crate::soundness;
use vstd::prelude::*;

verus! {

/// The tick counters of a processor, or of all of them together.
#[derive(Debug, Clone, Copy, PartialEq, Eq, Structural)]
pub struct CpuRawStat {
    pub user: u64,
    pub nice: u64,
    pub system: u64,
    pub idle: u64,
    pub iowait: u64,
    pub irq: u64,
    pub softirq: u64,
    pub steal: u64,
}

/// The number of spaces that a byte sequence starts with.
pub open spec fn space_run(data: Seq<u8>) -> int
    decreases data.len(),
{
    if data.len() == 0 || data[0] != 32 {
        0
    } else {
        1 + space_run(data.skip(1))
    }
}

/// Reads `count` numbers, each after any spaces. What is not there reads as zero, and reading
/// does not go past a byte that is neither a digit nor a space.
pub open spec fn numbers(data: Seq<u8>, count: nat) -> Seq<u64>
    decreases count,
{
    if count == 0 {
        Seq::empty()
    } else {
        let rest = data.skip(space_run(data));
        seq![linux::leading_number(rest)] + numbers(
            rest.skip(linux::digit_run(rest)),
            (count - 1) as nat,
        )
    }
}

/// The counters on a line: the first eight numbers after its label, which ends at a space.
pub open spec fn line_stat(line: Seq<u8>) -> CpuRawStat {
    let label = line.skip(3);
    let n = numbers(label.skip(bytes::find_either(label, 32, 10)), 8);
    CpuRawStat {
        user: n[0],
        nice: n[1],
        system: n[2],
        idle: n[3],
        iowait: n[4],
        irq: n[5],
        softirq: n[6],
        steal: n[7],
    }
}

/// Whether data starts with the label of a processor and something after it.
pub open spec fn at_cpu_line(data: Seq<u8>) -> bool {
    data.len() > 3 && data[0] == 99 && data[1] == 112 && data[2] == 117
}

/// The counters of all lines that start with `cpu`, in order.
pub open spec fn cpu_stats(data: Seq<u8>) -> Seq<CpuRawStat>
    decreases data.len(),
{
    if data.len() == 0 {
        Seq::empty()
    } else {
        let n = bytes::find_either(data, 10, 10);
        let rest = if 0 <= n < data.len() {
            cpu_stats(data.skip(n + 1))
        } else {
            Seq::empty()
        };
        if at_cpu_line(data) {
            seq![line_stat(data.take(n))] + rest
        } else {
            rest
        }
    }
}

/// A processor of which nothing but idleness is known.
pub open spec fn idle_core(core_id: u32) -> CoreMetrics {
    CoreMetrics {
        core_id,
        user_pct: Quantity::Whole(0),
        system_pct: Quantity::Whole(0),
        softirq_pct: Quantity::Whole(0),
        hardirq_pct: Quantity::Whole(0),
        idle_pct: Quantity::Whole(100),
        iowait_pct: Quantity::Whole(0),
        steal_pct: Quantity::Whole(0),
    }
}

/// The ticks in user mode between two readings, niced or not.
pub open spec fn user_ticks(prev: CpuRawStat, cur: CpuRawStat) -> u64 {
    cur.user.wrapping_sub(prev.user).wrapping_add(cur.nice.wrapping_sub(prev.nice))
}

/// All ticks between two readings. Counters and their sums wrap around at 64 bits.
pub open spec fn total_ticks(prev: CpuRawStat, cur: CpuRawStat) -> u64 {
    user_ticks(prev, cur).wrapping_add(cur.system.wrapping_sub(prev.system)).wrapping_add(
        cur.idle.wrapping_sub(prev.idle),
    ).wrapping_add(cur.iowait.wrapping_sub(prev.iowait)).wrapping_add(
        cur.irq.wrapping_sub(prev.irq),
    ).wrapping_add(cur.softirq.wrapping_sub(prev.softirq)).wrapping_add(
        cur.steal.wrapping_sub(prev.steal),
    )
}

/// How a processor spent its time between two readings.
pub open spec fn core_load(prev: CpuRawStat, cur: CpuRawStat, core_id: u32) -> CoreMetrics {
    let whole = total_ticks(prev, cur);
    if whole == 0 {
        idle_core(core_id)
    } else {
        CoreMetrics {
            core_id,
            user_pct: Quantity::Percent { part: user_ticks(prev, cur), whole },
            system_pct: Quantity::Percent { part: cur.system.wrapping_sub(prev.system), whole },
            softirq_pct: Quantity::Percent { part: cur.softirq.wrapping_sub(prev.softirq), whole },
            hardirq_pct: Quantity::Percent { part: cur.irq.wrapping_sub(prev.irq), whole },
            idle_pct: Quantity::Percent { part: cur.idle.wrapping_sub(prev.idle), whole },
            iowait_pct: Quantity::Percent { part: cur.iowait.wrapping_sub(prev.iowait), whole },
            steal_pct: Quantity::Percent { part: cur.steal.wrapping_sub(prev.steal), whole },
        }
    }
}

/// The load between two readings. The first counters of a reading are those of all processors
/// together; a processor counts where both readings have it.
pub open spec fn load(prev: Seq<CpuRawStat>, cur: Seq<CpuRawStat>) -> CpuView {
    let both = if prev.len() < cur.len() {
        prev.len()
    } else {
        cur.len()
    };
    CpuView {
        per_core: Seq::new(
            if both > 0 {
                (both - 1) as nat
            } else {
                0
            },
            |i: int| core_load(prev[i + 1], cur[i + 1], i as u32),
        ),
        total: if both > 0 {
            core_load(prev[0], cur[0], 0)
        } else {
            idle_core(0)
        },
    }
}

/// The load after a first reading: all processors idle.
pub open spec fn first_load(count: nat) -> CpuView {
    CpuView {
        per_core: Seq::new(
            if count > 0 {
                (count - 1) as nat
            } else {
                0
            },
            |i: int| idle_core(i as u32),
        ),
        total: idle_core(0),
    }
}

/// Turns successive readings of `/proc/stat` into processor load.
pub struct CpuCollector {
    prev_stats: Option<Vec<CpuRawStat>>,
}

impl CpuCollector {
    /// The counters of the last successful reading.
    pub closed spec fn previous(&self) -> Option<Seq<CpuRawStat>> {
        match self.prev_stats {
            Some(v) => Some(v@),
            None => None,
        }
    }

    /// A collector that has read nothing yet.
    pub fn new() -> (res: Self)
        ensures
            res.previous() is None,
    {
        CpuCollector { prev_stats: None }
    }

    /// The load since the last reading. A reading that fails, or that holds no counters, leaves
    /// the collector as it was.
    pub fn collect(&mut self, stat: FileRead<'_>) -> (res: Result<CpuMetrics, CollectorError>)
        ensures
            match stat {
                Err(e) => res == Err::<CpuMetrics, _>(CollectorError::Io(e)),
                Ok(data) => if cpu_stats(data@).len() == 0 {
                    res matches Err(CollectorError::Parse(m)) && m@ == "no cpu stats"@
                } else {
                    res matches Ok(m) && m@ == match old(self).previous() {
                        Some(prev) => load(prev, cpu_stats(data@)),
                        None => first_load(cpu_stats(data@).len()),
                    }
                },
            },
            final(self).previous() == match stat {
                Ok(data) => if cpu_stats(data@).len() == 0 {
                    old(self).previous()
                } else {
                    Some(cpu_stats(data@))
                },
                Err(e) => old(self).previous(),
            },
    {
        let data: &[u8] = match stat {
            Ok(data) => data,
            Err(e) => {
                return Err(CollectorError::Io(e));
            },
        };
        let current: Vec<CpuRawStat> = match parse_stat_bytes(data) {
            Ok(stats) => stats,
            Err(e) => {
                return Err(e);
            },
        };
        let result: CpuMetrics = match &self.prev_stats {
            Some(prev) => compute_delta(prev, &current),
            None => zero_metrics(current.len()),
        };
        self.prev_stats = Some(current);
        Ok(result)
    }
}

/// Where the spaces at or after `from` end.
fn skip_spaces(data: &[u8], from: usize) -> (at: usize)
    requires
        from <= data@.len(),
    ensures
        from <= at <= data@.len(),
        at - from == space_run(data@.skip(from as int)),
{
    let mut at: usize = from;
    while at < data.len() && data[at] == 32
        invariant
            from <= at <= data@.len(),
            space_run(data@.skip(from as int)) == (at - from) + space_run(data@.skip(at as int)),
        decreases data@.len() - at,
    {
        assert(data@.skip(at as int).skip(1) =~= data@.skip(at + 1));
        at = at + 1;
    }
    at
}

/// Where the digits at or after `from` end.
fn skip_digits(data: &[u8], from: usize) -> (at: usize)
    requires
        from <= data@.len(),
    ensures
        from <= at <= data@.len(),
        at - from == linux::digit_run(data@.skip(from as int)),
{
    let mut at: usize = from;
    while at < data.len() && data[at] >= 48 && data[at] <= 57
        invariant
            from <= at <= data@.len(),
            linux::digit_run(data@.skip(from as int)) == (at - from) + linux::digit_run(
                data@.skip(at as int),
            ),
        decreases data@.len() - at,
    {
        assert(data@.skip(at as int).skip(1) =~= data@.skip(at + 1));
        at = at + 1;
    }
    at
}

/// Reads eight numbers from `from` on.
fn parse_numbers(data: &[u8], from: usize) -> (res: Vec<u64>)
    requires
        from <= data@.len(),
    ensures
        res@ == numbers(data@.skip(from as int), 8),
        res@.len() == 8,
{
    let mut res: Vec<u64> = Vec::new();
    let mut pos: usize = from;
    let ghost whole = numbers(data@.skip(from as int), 8);
    assert(res@ + whole =~= whole);
    while res.len() < 8
        invariant
            from <= pos <= data@.len(),
            res@.len() <= 8,
            res@ + numbers(data@.skip(pos as int), (8 - res@.len()) as nat) == whole,
        decreases 8 - res@.len(),
    {
        let start: usize = skip_spaces(data, pos);
        let end: usize = skip_digits(data, start);
        let ghost before = res@;
        let ghost rest = data@.skip(start as int);
        proof {
            assert(data@.skip(pos as int).skip(start - pos) =~= rest);
            assert(rest.skip(end - start) =~= data@.skip(end as int));
            linux::lemma_digit_run(rest);
        }
        let value: u64 = linux::parse_u64_from_bytes(
            vstd::slice::slice_subrange(data, start, end),
        );
        proof {
            let run = data@.subrange(start as int, end as int);
            assert(run =~= rest.take(end - start));
            assert(forall|i: int| 0 <= i < run.len() ==> run[i] == rest[i]);
            linux::lemma_digit_run_is(run, run.len() as int);
            assert(run.take(run.len() as int) =~= run);
            assert(value == linux::leading_number(rest));
        }
        res.push(value);
        proof {
            let tail = numbers(data@.skip(end as int), (8 - res@.len()) as nat);
            assert(before + (seq![value] + tail) =~= res@ + tail);
        }
        pos = end;
    }
    proof {
        assert(res@ + Seq::<u64>::empty() =~= res@);
    }
    res
}

/// The counters on a line.
fn parse_line(line: &[u8]) -> (res: CpuRawStat)
    requires
        line@.len() >= 3,
    ensures
        res == line_stat(line@),
{
    let at: usize = bytes::position_either(line, 3, 32, 10);
    let n: Vec<u64> = parse_numbers(line, at);
    proof {
        assert(line@.skip(3).skip(at - 3) =~= line@.skip(at as int));
    }
    CpuRawStat {
        user: n[0],
        nice: n[1],
        system: n[2],
        idle: n[3],
        iowait: n[4],
        irq: n[5],
        softirq: n[6],
        steal: n[7],
    }
}

/// The counters in the contents of `/proc/stat`.
pub fn parse_stat_bytes(data: &[u8]) -> (res: Result<Vec<CpuRawStat>, CollectorError>)
    ensures
        cpu_stats(data@).len() == 0 ==> (res matches Err(CollectorError::Parse(m)) && m@
            == "no cpu stats"@),
        cpu_stats(data@).len() > 0 ==> (res matches Ok(v) && v@ == cpu_stats(data@)),
{
    let mut stats: Vec<CpuRawStat> = Vec::with_capacity(16);
    let mut pos: usize = 0;
    proof {
        assert(data@.skip(0) =~= data@);
        assert(stats@ + cpu_stats(data@) =~= cpu_stats(data@));
    }
    while pos < data.len()
        invariant
            0 <= pos <= data@.len(),
            stats@ + cpu_stats(data@.skip(pos as int)) == cpu_stats(data@),
        decreases data@.len() - pos,
    {
        let end: usize = bytes::position_either(data, pos, 10, 10);
        let ghost rest = data@.skip(pos as int);
        let ghost before = stats@;
        let ghost after = if end < data@.len() {
            cpu_stats(data@.skip(end + 1))
        } else {
            Seq::empty()
        };
        proof {
            if end < data@.len() {
                assert(rest.skip(end - pos + 1) =~= data@.skip(end + 1));
            }
        }
        if data.len() - pos > 3 && data[pos] == 99 && data[pos + 1] == 112 && data[pos + 2] == 117 {
            proof {
                bytes::lemma_find_either(rest, 10, 10);
                assert(rest[0] == 99 && rest[1] == 112 && rest[2] == 117);
                assert(end - pos >= 3) by {
                    if end - pos < 3 {
                        assert(rest[end - pos] == 10);
                    }
                }
            }
            let line: &[u8] = vstd::slice::slice_subrange(data, pos, end);
            stats.push(parse_line(line));
            proof {
                assert(line@ =~= rest.take(end - pos));
                assert(at_cpu_line(rest));
                assert(before + (seq![line_stat(line@)] + after) =~= stats@ + after);
            }
        } else {
            assert(!at_cpu_line(rest));
        }
        if end < data.len() {
            pos = end + 1;
        } else {
            pos = end;
            assert(data@.skip(end as int) =~= Seq::<u8>::empty());
        }
    }
    proof {
        assert(data@.skip(pos as int) =~= Seq::<u8>::empty());
        assert(stats@ + Seq::<CpuRawStat>::empty() =~= stats@);
    }
    if stats.is_empty() {
        return Err(CollectorError::Parse("no cpu stats".to_owned()));
    }
    Ok(stats)
}

/// A processor of which nothing but idleness is known.
fn zero_core(core_id: u32) -> (res: CoreMetrics)
    ensures
        res == idle_core(core_id),
{
    CoreMetrics {
        core_id,
        user_pct: Quantity::Whole(0),
        system_pct: Quantity::Whole(0),
        softirq_pct: Quantity::Whole(0),
        hardirq_pct: Quantity::Whole(0),
        idle_pct: Quantity::Whole(100),
        iowait_pct: Quantity::Whole(0),
        steal_pct: Quantity::Whole(0),
    }
}

/// The load of one processor between two readings.
pub fn stat_to_pct(prev: &CpuRawStat, cur: &CpuRawStat, core_id: u32) -> (res: CoreMetrics)
    ensures
        res == core_load(*prev, *cur, core_id),
{
    let d_user: u64 = cur.user.wrapping_sub(prev.user).wrapping_add(
        cur.nice.wrapping_sub(prev.nice),
    );
    let d_sys: u64 = cur.system.wrapping_sub(prev.system);
    let d_idle: u64 = cur.idle.wrapping_sub(prev.idle);
    let d_iowait: u64 = cur.iowait.wrapping_sub(prev.iowait);
    let d_irq: u64 = cur.irq.wrapping_sub(prev.irq);
    let d_softirq: u64 = cur.softirq.wrapping_sub(prev.softirq);
    let d_steal: u64 = cur.steal.wrapping_sub(prev.steal);
    let whole: u64 = d_user.wrapping_add(d_sys).wrapping_add(d_idle).wrapping_add(
        d_iowait,
    ).wrapping_add(d_irq).wrapping_add(d_softirq).wrapping_add(d_steal);
    if whole == 0 {
        return zero_core(core_id);
    }
    CoreMetrics {
        core_id,
        user_pct: Quantity::Percent { part: d_user, whole },
        system_pct: Quantity::Percent { part: d_sys, whole },
        softirq_pct: Quantity::Percent { part: d_softirq, whole },
        hardirq_pct: Quantity::Percent { part: d_irq, whole },
        idle_pct: Quantity::Percent { part: d_idle, whole },
        iowait_pct: Quantity::Percent { part: d_iowait, whole },
        steal_pct: Quantity::Percent { part: d_steal, whole },
    }
}

/// The load between two readings.
pub fn compute_delta(prev: &Vec<CpuRawStat>, current: &Vec<CpuRawStat>) -> (res: CpuMetrics)
    ensures
        res@ == load(prev@, current@),
{
    let mut per_core: Vec<CoreMetrics> = Vec::new();
    let mut i: usize = 1;
    while i < current.len() && i < prev.len()
        invariant
            1 <= i,
            per_core@.len() == i - 1,
            i == 1 || i <= current@.len() && i <= prev@.len(),
            forall|j: int|
                0 <= j < i - 1 ==> #[trigger] per_core@[j] == core_load(
                    prev@[j + 1],
                    current@[j + 1],
                    j as u32,
                ),
        decreases current@.len() - i,
    {
        per_core.push(stat_to_pct(&prev[i], &current[i], (i - 1) as u32));
        i = i + 1;
    }
    let total: CoreMetrics = if prev.len() > 0 && current.len() > 0 {
        stat_to_pct(&prev[0], &current[0], 0)
    } else {
        zero_core(0)
    };
    assert(per_core@ =~= load(prev@, current@).per_core);
    CpuMetrics { per_core, total }
}

/// The load after a first reading.
pub fn zero_metrics(count: usize) -> (res: CpuMetrics)
    ensures
        res@ == first_load(count as nat),
{
    let mut per_core: Vec<CoreMetrics> = Vec::new();
    let mut i: usize = 0;
    while count > 0 && i < count - 1
        invariant
            per_core@.len() == i,
            i == 0 || i <= count - 1,
            forall|j: int| 0 <= j < i ==> #[trigger] per_core@[j] == idle_core(j as u32),
        decreases count - i,
    {
        per_core.push(zero_core(i as u32));
        i = i + 1;
    }
    assert(per_core@ =~= first_load(count as nat).per_core);
    CpuMetrics { per_core, total: zero_core(0) }
}

/// Whether all ticks between two readings together fit a counter.
pub open spec fn ticks_fit(prev: CpuRawStat, cur: CpuRawStat) -> bool {
    cur.user.wrapping_sub(prev.user) + cur.nice.wrapping_sub(prev.nice) + cur.system.wrapping_sub(
        prev.system,
    ) + cur.idle.wrapping_sub(prev.idle) + cur.iowait.wrapping_sub(prev.iowait)
        + cur.irq.wrapping_sub(prev.irq) + cur.softirq.wrapping_sub(prev.softirq)
        + cur.steal.wrapping_sub(prev.steal) <= u64::MAX
}

/// The percentages of a processor add up to exactly one hundred, as long as the ticks between the
/// two readings fit a counter.
pub proof fn percentages_add_up(prev: CpuRawStat, cur: CpuRawStat, core_id: u32)
    requires
        ticks_fit(prev, cur),
    ensures
        ({
            let m = core_load(prev, cur, core_id);
            let d = m.idle_pct.denominator();
            &&& m.idle_pct.defined()
            &&& m.user_pct.defined()
            &&& m.system_pct.defined()
            &&& m.softirq_pct.defined()
            &&& m.hardirq_pct.defined()
            &&& m.iowait_pct.defined()
            &&& m.steal_pct.defined()
            &&& m.user_pct.denominator() == d
            &&& m.system_pct.denominator() == d
            &&& m.softirq_pct.denominator() == d
            &&& m.hardirq_pct.denominator() == d
            &&& m.iowait_pct.denominator() == d
            &&& m.steal_pct.denominator() == d
            &&& m.user_pct.numerator() + m.system_pct.numerator() + m.softirq_pct.numerator()
                + m.hardirq_pct.numerator() + m.idle_pct.numerator() + m.iowait_pct.numerator()
                + m.steal_pct.numerator() == 100 * d
        }),
{
}

/// A first reading, and a second one in which no counter moved, show every processor idle.
pub proof fn standstill_is_idle(stat: CpuRawStat, core_id: u32)
    ensures
        core_load(stat, stat, core_id) == idle_core(core_id),
{
}

/// Whatever the counters show, every percentage of every processor has a value.
pub proof fn load_has_values(prev: Option<Seq<CpuRawStat>>, cur: Seq<CpuRawStat>)
    ensures
        ({
            let m = match prev {
                Some(p) => load(p, cur),
                None => first_load(cur.len()),
            };
            &&& soundness::core_defined(m.total)
            &&& forall|i: int|
                0 <= i < m.per_core.len() ==> soundness::core_defined(#[trigger] m.per_core[i])
        }),
{
}

/// All ticks that a line of counters holds.
pub open spec fn all_ticks(s: CpuRawStat) -> int {
    s.user + s.nice + s.system + s.idle + s.iowait + s.irq + s.softirq + s.steal
}

/// Whether no counter went back, and what they counted together fits a counter.
pub open spec fn went_on(p: CpuRawStat, c: CpuRawStat) -> bool {
    &&& c.user >= p.user
    &&& c.nice >= p.nice
    &&& c.system >= p.system
    &&& c.idle >= p.idle
    &&& c.iowait >= p.iowait
    &&& c.irq >= p.irq
    &&& c.softirq >= p.softirq
    &&& c.steal >= p.steal
    &&& all_ticks(c) - all_ticks(p) <= u64::MAX
}

/// Whether a processor shows how the ticks between two lines of counters were spent.
pub open spec fn shows_growth(m: CoreMetrics, p: CpuRawStat, c: CpuRawStat) -> bool {
    let whole = all_ticks(c) - all_ticks(p);
    if whole > 0 {
        &&& m.user_pct.is_fraction(100 * ((c.user + c.nice) - (p.user + p.nice)), whole)
        &&& m.system_pct.is_fraction(100 * (c.system - p.system), whole)
        &&& m.softirq_pct.is_fraction(100 * (c.softirq - p.softirq), whole)
        &&& m.hardirq_pct.is_fraction(100 * (c.irq - p.irq), whole)
        &&& m.idle_pct.is_fraction(100 * (c.idle - p.idle), whole)
        &&& m.iowait_pct.is_fraction(100 * (c.iowait - p.iowait), whole)
        &&& m.steal_pct.is_fraction(100 * (c.steal - p.steal), whole)
    } else {
        shows_idleness(m)
    }
}

/// Whether a processor shows nothing but idleness.
pub open spec fn shows_idleness(m: CoreMetrics) -> bool {
    &&& m.idle_pct.is_fraction(100, 1)
    &&& m.user_pct.is_fraction(0, 1)
    &&& m.system_pct.is_fraction(0, 1)
    &&& m.softirq_pct.is_fraction(0, 1)
    &&& m.hardirq_pct.is_fraction(0, 1)
    &&& m.iowait_pct.is_fraction(0, 1)
    &&& m.steal_pct.is_fraction(0, 1)
}

/// Every processor shows how its own ticks were spent since the earlier reading, in percent of
/// them: the counters of the other lines do not count. The first line is that of all processors
/// together, and there are as many processors as both readings have lines after it.
pub proof fn processors_show_their_own_ticks(prev: Seq<CpuRawStat>, cur: Seq<CpuRawStat>)
    requires
        prev.len() > 0,
        cur.len() > 0,
    ensures
        ({
            let m = load(prev, cur);
            &&& m.per_core.len() + 1 == if prev.len() < cur.len() {
                prev.len()
            } else {
                cur.len()
            }
            &&& went_on(prev[0], cur[0]) ==> shows_growth(m.total, prev[0], cur[0])
            &&& forall|k: int|
                0 <= k < m.per_core.len() ==> {
                    &&& k <= u32::MAX ==> (#[trigger] m.per_core[k]).core_id == k
                    &&& went_on(prev[k + 1], cur[k + 1]) ==> shows_growth(
                        m.per_core[k],
                        prev[k + 1],
                        cur[k + 1],
                    )
                }
        }),
{
}

/// What a processor shows depends on its own line in the two readings, and on no other line.
pub proof fn processors_do_not_mix(
    prev: Seq<CpuRawStat>,
    cur: Seq<CpuRawStat>,
    other_prev: Seq<CpuRawStat>,
    other_cur: Seq<CpuRawStat>,
    k: int,
)
    requires
        0 <= k < prev.len(),
        k < cur.len(),
        k < other_prev.len(),
        k < other_cur.len(),
        prev[k] == other_prev[k],
        cur[k] == other_cur[k],
    ensures
        k == 0 ==> load(prev, cur).total == load(other_prev, other_cur).total,
        k > 0 ==> load(prev, cur).per_core[k - 1] == load(other_prev, other_cur).per_core[k - 1],
{
}

/// Where only one counter of a processor moved, all of its time was spent that way.
pub proof fn one_counter_takes_all(prev: Seq<CpuRawStat>, cur: Seq<CpuRawStat>, k: int, n: u64)
    requires
        0 <= k < u32::MAX,
        k + 1 < prev.len(),
        k + 1 < cur.len(),
        0 < n,
    ensures
        ({
            let m = load(prev, cur).per_core[k];
            let (p, c) = (prev[k + 1], cur[k + 1]);
            &&& p.user + n == c.user && c == (CpuRawStat { user: c.user, ..p })
                ==> m.user_pct.is_fraction(100, 1)
            &&& p.nice + n == c.nice && c == (CpuRawStat { nice: c.nice, ..p })
                ==> m.user_pct.is_fraction(100, 1)
            &&& p.system + n == c.system && c == (CpuRawStat { system: c.system, ..p })
                ==> m.system_pct.is_fraction(100, 1)
            &&& p.idle + n == c.idle && c == (CpuRawStat { idle: c.idle, ..p })
                ==> m.idle_pct.is_fraction(100, 1)
            &&& p.iowait + n == c.iowait && c == (CpuRawStat { iowait: c.iowait, ..p })
                ==> m.iowait_pct.is_fraction(100, 1)
            &&& p.irq + n == c.irq && c == (CpuRawStat { irq: c.irq, ..p })
                ==> m.hardirq_pct.is_fraction(100, 1)
            &&& p.softirq + n == c.softirq && c == (CpuRawStat { softirq: c.softirq, ..p })
                ==> m.softirq_pct.is_fraction(100, 1)
            &&& p.steal + n == c.steal && c == (CpuRawStat { steal: c.steal, ..p })
                ==> m.steal_pct.is_fraction(100, 1)
        }),
{
}

/// A first reading shows every processor that it has a line for, all of them idle.
pub proof fn first_reading_is_idle(count: nat)
    requires
        count > 0,
    ensures
        ({
            let m = first_load(count);
            &&& m.per_core.len() + 1 == count
            &&& shows_idleness(m.total)
            &&& forall|k: int|
                0 <= k < m.per_core.len() ==> {
                    &&& shows_idleness(#[trigger] m.per_core[k])
                    &&& k <= u32::MAX ==> m.per_core[k].core_id == k
                }
        }),
{
}

/// Counters may come back to zero: what counts is by how much they went on. All ticks together are
/// reduced to 64 bits.
pub proof fn counters_may_wrap(p: CpuRawStat, c: CpuRawStat, core_id: u32)
    ensures
        ({
            let m = core_load(p, c, core_id);
            let user = collector::grown(p.user, c.user) + collector::grown(p.nice, c.nice);
            let system = collector::grown(p.system, c.system);
            let idle = collector::grown(p.idle, c.idle);
            let iowait = collector::grown(p.iowait, c.iowait);
            let irq = collector::grown(p.irq, c.irq);
            let softirq = collector::grown(p.softirq, c.softirq);
            let steal = collector::grown(p.steal, c.steal);
            let whole = collector::low_bits(
                user + system + idle + iowait + irq + softirq + steal,
            );
            &&& m.core_id == core_id
            &&& whole == 0 ==> shows_idleness(m)
            &&& whole > 0 ==> {
                &&& m.user_pct.is_fraction(100 * collector::low_bits(user), whole)
                &&& m.system_pct.is_fraction(100 * system, whole)
                &&& m.softirq_pct.is_fraction(100 * softirq, whole)
                &&& m.hardirq_pct.is_fraction(100 * irq, whole)
                &&& m.idle_pct.is_fraction(100 * idle, whole)
                &&& m.iowait_pct.is_fraction(100 * iowait, whole)
                &&& m.steal_pct.is_fraction(100 * steal, whole)
            }
        }),
{
    let user = collector::grown(p.user, c.user);
    let nice = collector::grown(p.nice, c.nice);
    let system = collector::grown(p.system, c.system);
    let idle = collector::grown(p.idle, c.idle);
    let iowait = collector::grown(p.iowait, c.iowait);
    let irq = collector::grown(p.irq, c.irq);
    let softirq = collector::grown(p.softirq, c.softirq);
    let steal = collector::grown(p.steal, c.steal);
    let s1 = user_ticks(p, c);
    collector::lemma_low_bits(user, user as u64, nice as u64);
    let s2 = s1.wrapping_add(system as u64);
    collector::lemma_low_bits(user + nice, s1, system as u64);
    let s3 = s2.wrapping_add(idle as u64);
    collector::lemma_low_bits(user + nice + system, s2, idle as u64);
    let s4 = s3.wrapping_add(iowait as u64);
    collector::lemma_low_bits(user + nice + system + idle, s3, iowait as u64);
    let s5 = s4.wrapping_add(irq as u64);
    collector::lemma_low_bits(user + nice + system + idle + iowait, s4, irq as u64);
    let s6 = s5.wrapping_add(softirq as u64);
    collector::lemma_low_bits(user + nice + system + idle + iowait + irq, s5, softirq as u64);
    collector::lemma_low_bits(
        user + nice + system + idle + iowait + irq + softirq,
        s6,
        steal as u64,
    );
    assert(total_ticks(p, c) == s6.wrapping_add(steal as u64));
}

} // verus!
