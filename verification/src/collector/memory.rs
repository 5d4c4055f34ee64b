//! Memory usage, from `/proc/meminfo` and `/proc/vmstat`.
use crate::collector;
use crate::collector::{CollectorError, TextRead};
use crate::metrics;
use crate::metrics::{MemoryMetrics, Quantity};
use crate::text;
use vstd::prelude::*;

verus! {

/// The bytes in a page of swapped memory.
pub const PAGE_SIZE: u64 = 4096;

/// The number beside a label: the second word of the last line that has two words and starts
/// with the label. It is zero where there is no such line or the word is not a number.
pub open spec fn entry(lines: Seq<Seq<char>>, label: Seq<char>) -> u64
    decreases lines.len(),
{
    if lines.len() == 0 {
        0
    } else {
        let words = text::words(lines.last());
        if words.len() >= 2 && words[0] == label {
            match text::parsed_u64(words[1]) {
                Some(n) => n,
                None => 0,
            }
        } else {
            entry(lines.drop_last(), label)
        }
    }
}

/// A number of kibibytes in bytes, reduced to 64 bits.
pub open spec fn kilobytes(n: u64) -> u64 {
    n.wrapping_mul(1024)
}

/// The bytes that a text reports in kibibytes beside a label.
pub open spec fn reported_bytes(text: Seq<char>, label: Seq<char>) -> u64 {
    kilobytes(entry(text::text_lines(text), label))
}

/// The pages swapped in and out so far, and when they were counted.
#[derive(Debug, Clone, Copy, PartialEq, Eq, Structural)]
pub struct SwapCount {
    pub pages_in: u64,
    pub pages_out: u64,
    pub time_ns: u64,
}

/// The counts that the contents of `/proc/vmstat` show.
pub open spec fn swap_count(vmstat: Seq<char>, now_ns: u64) -> SwapCount {
    SwapCount {
        pages_in: entry(text::text_lines(vmstat), "pswpin"@),
        pages_out: entry(text::text_lines(vmstat), "pswpout"@),
        time_ns: now_ns,
    }
}

/// The bytes per second between two counts, in and out; zero where there is no earlier count or
/// no time has passed.
pub open spec fn swap_rates(prev: Option<SwapCount>, cur: SwapCount) -> (Quantity, Quantity) {
    match prev {
        Some(p) => (
            metrics::per_second(
                cur.pages_in.wrapping_sub(p.pages_in),
                PAGE_SIZE,
                collector::excess(cur.time_ns, p.time_ns),
            ),
            metrics::per_second(
                cur.pages_out.wrapping_sub(p.pages_out),
                PAGE_SIZE,
                collector::excess(cur.time_ns, p.time_ns),
            ),
        ),
        None => (Quantity::Whole(0), Quantity::Whole(0)),
    }
}

/// The usage that the two files show. Memory is in use where it is neither free nor a cache; the
/// sum of the latter is reduced to 64 bits.
pub open spec fn usage(
    meminfo: Seq<char>,
    vmstat: Seq<char>,
    now_ns: u64,
    prev: Option<SwapCount>,
) -> MemoryMetrics {
    let rates = swap_rates(prev, swap_count(vmstat, now_ns));
    let total = reported_bytes(meminfo, "MemTotal:"@);
    let free = reported_bytes(meminfo, "MemFree:"@);
    let buffers = reported_bytes(meminfo, "Buffers:"@);
    let cached = reported_bytes(meminfo, "Cached:"@);
    let swap_total = reported_bytes(meminfo, "SwapTotal:"@);
    MemoryMetrics {
        total_bytes: total,
        used_bytes: collector::excess(total, free.wrapping_add(buffers).wrapping_add(cached)),
        available_bytes: reported_bytes(meminfo, "MemAvailable:"@),
        cached_bytes: cached,
        buffers_bytes: buffers,
        swap_total_bytes: swap_total,
        swap_used_bytes: collector::excess(swap_total, reported_bytes(meminfo, "SwapFree:"@)),
        swap_in_rate: rates.0,
        swap_out_rate: rates.1,
    }
}

/// The number beside a label.
fn find_entry(lines: &Vec<&[char]>, label: &str) -> (res: u64)
    ensures
        res == entry(text::char_contents(lines@), label@),
{
    let ghost all = text::char_contents(lines@);
    let mut res: u64 = 0;
    let mut i: usize = 0;
    while i < lines.len()
        invariant
            0 <= i <= lines@.len(),
            all == text::char_contents(lines@),
            res == entry(all.take(i as int), label@),
        decreases lines@.len() - i,
    {
        let words: Vec<&[char]> = text::split_words(lines[i]);
        proof {
            assert(all.take(i + 1).drop_last() =~= all.take(i as int));
            assert(all.take(i + 1).last() == lines@[i as int]@);
            assert(text::char_contents(words@).len() == words@.len());
            assert(words@.len() > 0 ==> text::char_contents(words@)[0] == words@[0]@);
            assert(words@.len() > 1 ==> text::char_contents(words@)[1] == words@[1]@);
        }
        if words.len() >= 2 && text::chars_are(words[0], label) {
            res = match text::parse_u64(words[1]) {
                Some(n) => n,
                None => 0,
            };
        }
        i = i + 1;
    }
    assert(all.take(lines@.len() as int) =~= all);
    res
}

/// Turns successive readings of the two files into memory usage.
pub struct MemoryCollector {
    prev_swap: Option<SwapCount>,
}

impl MemoryCollector {
    /// The swap counts of the last successful reading.
    pub closed spec fn previous(&self) -> Option<SwapCount> {
        self.prev_swap
    }

    /// A collector that has read nothing yet.
    pub fn new() -> (res: Self)
        ensures
            res.previous() is None,
    {
        MemoryCollector { prev_swap: None }
    }

    /// The memory usage that the contents of `/proc/meminfo` and `/proc/vmstat` show. Where one of
    /// them could not be read the collector stays as it was.
    pub fn collect(
        &mut self,
        meminfo: TextRead<'_>,
        vmstat: TextRead<'_>,
        now_ns: u64,
    ) -> (res: Result<MemoryMetrics, CollectorError>)
        ensures
            match (meminfo, vmstat) {
                (Err(e), _) => res == Err::<MemoryMetrics, _>(CollectorError::Io(e)),
                (Ok(m), Err(e)) => res == Err::<MemoryMetrics, _>(CollectorError::Io(e)),
                (Ok(m), Ok(v)) => res == Ok::<_, CollectorError>(
                    usage(m@, v@, now_ns, old(self).previous()),
                ),
            },
            final(self).previous() == match (meminfo, vmstat) {
                (Ok(m), Ok(v)) => Some(swap_count(v@, now_ns)),
                _ => old(self).previous(),
            },
    {
        let meminfo: &str = match meminfo {
            Ok(s) => s,
            Err(e) => {
                return Err(CollectorError::Io(e));
            },
        };
        let chars: Vec<char> = text::chars_of(meminfo);
        let lines: Vec<&[char]> = text::split_text_lines(chars.as_slice());
        let total: u64 = find_entry(&lines, "MemTotal:").wrapping_mul(1024);
        let free: u64 = find_entry(&lines, "MemFree:").wrapping_mul(1024);
        let available: u64 = find_entry(&lines, "MemAvailable:").wrapping_mul(1024);
        let buffers: u64 = find_entry(&lines, "Buffers:").wrapping_mul(1024);
        let cached: u64 = find_entry(&lines, "Cached:").wrapping_mul(1024);
        let swap_total: u64 = find_entry(&lines, "SwapTotal:").wrapping_mul(1024);
        let swap_free: u64 = find_entry(&lines, "SwapFree:").wrapping_mul(1024);
        let (swap_in_rate, swap_out_rate) = match self.compute_swap_rates(vmstat, now_ns) {
            Ok(rates) => rates,
            Err(e) => {
                return Err(e);
            },
        };
        Ok(
            MemoryMetrics {
                total_bytes: total,
                used_bytes: total.saturating_sub(free.wrapping_add(buffers).wrapping_add(cached)),
                available_bytes: available,
                cached_bytes: cached,
                buffers_bytes: buffers,
                swap_total_bytes: swap_total,
                swap_used_bytes: swap_total.saturating_sub(swap_free),
                swap_in_rate,
                swap_out_rate,
            },
        )
    }

    /// The swap traffic since the last reading.
    fn compute_swap_rates(&mut self, vmstat: TextRead<'_>, now_ns: u64) -> (res: Result<
        (Quantity, Quantity),
        CollectorError,
    >)
        ensures
            match vmstat {
                Err(e) => res == Err::<(Quantity, Quantity), _>(CollectorError::Io(e)),
                Ok(v) => res == Ok::<_, CollectorError>(
                    swap_rates(old(self).previous(), swap_count(v@, now_ns)),
                ),
            },
            final(self).previous() == match vmstat {
                Ok(v) => Some(swap_count(v@, now_ns)),
                Err(e) => old(self).previous(),
            },
    {
        let vmstat: &str = match vmstat {
            Ok(s) => s,
            Err(e) => {
                return Err(CollectorError::Io(e));
            },
        };
        let chars: Vec<char> = text::chars_of(vmstat);
        let lines: Vec<&[char]> = text::split_text_lines(chars.as_slice());
        let cur = SwapCount {
            pages_in: find_entry(&lines, "pswpin"),
            pages_out: find_entry(&lines, "pswpout"),
            time_ns: now_ns,
        };
        let rates: (Quantity, Quantity) = match self.prev_swap {
            Some(prev) => {
                let elapsed_ns: u64 = now_ns.saturating_sub(prev.time_ns);
                (
                    Quantity::rate(
                        cur.pages_in.wrapping_sub(prev.pages_in),
                        PAGE_SIZE,
                        elapsed_ns,
                    ),
                    Quantity::rate(
                        cur.pages_out.wrapping_sub(prev.pages_out),
                        PAGE_SIZE,
                        elapsed_ns,
                    ),
                )
            },
            None => (Quantity::zero(), Quantity::zero()),
        };
        self.prev_swap = Some(cur);
        Ok(rates)
    }
}

/// No more memory and no more swap is in use than there is, and both rates have a value.
pub proof fn usage_within_total(
    meminfo: Seq<char>,
    vmstat: Seq<char>,
    now_ns: u64,
    prev: Option<SwapCount>,
)
    ensures
        ({
            let m = usage(meminfo, vmstat, now_ns, prev);
            &&& m.used_bytes <= m.total_bytes
            &&& m.swap_used_bytes <= m.swap_total_bytes
            &&& m.swap_in_rate.defined()
            &&& m.swap_out_rate.defined()
        }),
{
}

/// Whether text is a label: not empty, and without white space.
pub open spec fn is_label(s: Seq<char>) -> bool {
    &&& s.len() > 0
    &&& forall|i: int| 0 <= i < s.len() ==> !text::is_space(#[trigger] s[i])
}

/// A number beside a label, as the kernel writes it, with a unit behind it or nothing.
pub struct Entry {
    pub label: Seq<char>,
    pub gap: nat,
    pub value: u64,
    pub unit: Seq<char>,
}

impl Entry {
    /// The line of the entry.
    pub open spec fn line(self) -> Seq<char> {
        self.label + text::spaces(self.gap as int) + text::decimal(self.value as nat) + self.unit
    }

    /// Whether the line is such as the kernel writes.
    pub open spec fn is_written(self) -> bool {
        &&& is_label(self.label)
        &&& self.gap > 0
        &&& self.unit == Seq::<char>::empty() || self.unit == " kB"@
    }
}

/// The lines of some entries.
pub open spec fn entry_lines(entries: Seq<Entry>) -> Seq<Seq<char>> {
    Seq::new(entries.len(), |i: int| entries[i].line())
}

/// Whether entries are such as the kernel writes, and no label comes twice.
pub open spec fn are_written(entries: Seq<Entry>) -> bool {
    &&& forall|i: int| 0 <= i < entries.len() ==> (#[trigger] entries[i]).is_written()
    &&& forall|i: int, j: int|
        0 <= i < j < entries.len() ==> (#[trigger] entries[i]).label != (
        #[trigger] entries[j]).label
}

/// Whether there is an entry with a label and a value.
pub open spec fn says(entries: Seq<Entry>, label: Seq<char>, value: u64) -> bool {
    exists|i: int|
        0 <= i < entries.len() && (#[trigger] entries[i]).label == label && entries[i].value
            == value
}

proof fn lemma_words_word(w: Seq<char>, rest: Seq<char>)
    requires
        is_label(w),
        rest.len() > 0 ==> text::is_space(rest[0]),
    ensures
        text::words(w + rest) == seq![w] + text::words(rest),
{
    let all = w + rest;
    let n = text::word_len(all);
    text::lemma_word_len(all);
    assert(n == w.len()) by {
        if n < w.len() {
            assert(all[n] == w[n]);
        }
        if n > w.len() {
            assert(all[w.len() as int] == rest[0]);
        }
    }
    assert(all[0] == w[0]);
    assert(all.take(n) =~= w);
    assert(all.skip(n) =~= rest);
}

proof fn lemma_words_spaces(k: nat, rest: Seq<char>)
    ensures
        text::words(text::spaces(k as int) + rest) == text::words(rest),
    decreases k,
{
    let all = text::spaces(k as int) + rest;
    if k == 0 {
        assert(all =~= rest);
    } else {
        assert(all[0] == ' ');
        assert(all.skip(1) =~= text::spaces(k - 1) + rest);
        lemma_words_spaces((k - 1) as nat, rest);
    }
}

proof fn lemma_decimal_is_label(n: nat)
    ensures
        is_label(text::decimal(n)),
{
    text::decimals_have_their_value(n);
    assert forall|i: int| 0 <= i < text::decimal(n).len() implies !text::is_space(
        #[trigger] text::decimal(n)[i],
    ) by {
        assert(text::is_digit(text::decimal(n)[i]));
    }
}

proof fn lemma_entry_line(e: Entry)
    requires
        e.is_written(),
    ensures
        text::words(e.line()).len() >= 2,
        text::words(e.line())[0] == e.label,
        text::words(e.line())[1] == text::decimal(e.value as nat),
        text::on_one_line(e.line()),
{
    let d = text::decimal(e.value as nat);
    let rest = text::spaces(e.gap as int) + (d + e.unit);
    reveal_strlit(" kB");
    lemma_decimal_is_label(e.value as nat);
    lemma_words_word(d, e.unit);
    lemma_words_spaces(e.gap, d + e.unit);
    assert(rest[0] == ' ');
    lemma_words_word(e.label, rest);
    assert(e.line() =~= e.label + rest);
    let line = e.line();
    assert forall|i: int| 0 <= i < line.len() implies #[trigger] line[i] != '\n' by {
        let a = e.label.len() as int;
        let b = a + e.gap;
        let c = b + d.len();
        if i < a {
            assert(line[i] == e.label[i]);
            assert(!text::is_space(e.label[i]));
        } else if i < b {
            assert(line[i] == ' ');
        } else if i < c {
            assert(line[i] == d[i - b]);
            assert(!text::is_space(d[i - b]));
        } else {
            assert(line[i] == e.unit[i - c]);
        }
    }
}

proof fn lemma_entries(entries: Seq<Entry>, label: Seq<char>, value: u64)
    requires
        are_written(entries),
    ensures
        says(entries, label, value) ==> entry(entry_lines(entries), label) == value,
        (forall|i: int| 0 <= i < entries.len() ==> (#[trigger] entries[i]).label != label)
            ==> entry(entry_lines(entries), label) == 0,
    decreases entries.len(),
{
    if entries.len() > 0 {
        let shorter = entries.drop_last();
        let e = entries.last();
        assert forall|i: int| 0 <= i < shorter.len() implies (
        #[trigger] shorter[i]).is_written() by {
            assert(shorter[i] == entries[i]);
        }
        assert forall|i: int, j: int| 0 <= i < j < shorter.len() implies (
        #[trigger] shorter[i]).label != (#[trigger] shorter[j]).label by {
            assert(shorter[i] == entries[i] && shorter[j] == entries[j]);
        }
        lemma_entries(shorter, label, value);
        assert(entry_lines(entries).drop_last() =~= entry_lines(shorter));
        assert(entries[entries.len() - 1].is_written());
        lemma_entry_line(e);
        text::numbers_are_read_back(e.value);
        if says(entries, label, value) && e.label != label {
            let i = choose|i: int|
                0 <= i < entries.len() && (#[trigger] entries[i]).label == label
                    && entries[i].value == value;
            assert(shorter[i] == entries[i]);
            assert(says(shorter, label, value));
        }
        if says(entries, label, value) && e.label == label {
            let i = choose|i: int|
                0 <= i < entries.len() && (#[trigger] entries[i]).label == label
                    && entries[i].value == value;
            if i < entries.len() - 1 {
                assert(entries[i].label != entries[entries.len() - 1].label);
            }
        }
        if forall|i: int| 0 <= i < entries.len() ==> (#[trigger] entries[i]).label != label {
            assert forall|i: int| 0 <= i < shorter.len() implies (#[trigger] shorter[i]).label
                != label by {
                assert(shorter[i] == entries[i]);
            }
            assert(entries[entries.len() - 1].label != label);
        }
    }
}

/// The contents of a file with some entries.
pub open spec fn entry_file(entries: Seq<Entry>) -> Seq<char> {
    text::file_text(entry_lines(entries))
}

proof fn lemma_entry_file(entries: Seq<Entry>)
    requires
        are_written(entries),
    ensures
        text::text_lines(entry_file(entries)) == entry_lines(entries),
{
    let lines = entry_lines(entries);
    assert forall|i: int| 0 <= i < lines.len() implies text::on_one_line(#[trigger] lines[i]) by {
        assert(entries[i].is_written());
        lemma_entry_line(entries[i]);
    }
    text::text_lines_are_read_back(lines);
}

/// What `/proc/meminfo` says in kibibytes is shown in bytes, each number under the name that stands
/// beside it. In use is what is neither free nor a cache, and of the swap space what is not free.
pub proof fn memory_is_what_the_kernel_says(
    meminfo: Seq<Entry>,
    vmstat: Seq<char>,
    now_ns: u64,
    prev: Option<SwapCount>,
    total: u64,
    free: u64,
    available: u64,
    buffers: u64,
    cached: u64,
    swap_total: u64,
    swap_free: u64,
)
    requires
        are_written(meminfo),
        says(meminfo, "MemTotal:"@, total),
        says(meminfo, "MemFree:"@, free),
        says(meminfo, "MemAvailable:"@, available),
        says(meminfo, "Buffers:"@, buffers),
        says(meminfo, "Cached:"@, cached),
        says(meminfo, "SwapTotal:"@, swap_total),
        says(meminfo, "SwapFree:"@, swap_free),
        total * 1024 <= u64::MAX,
        available * 1024 <= u64::MAX,
        (free + buffers + cached) * 1024 <= u64::MAX,
        swap_total * 1024 <= u64::MAX,
        swap_free * 1024 <= u64::MAX,
    ensures
        ({
            let m = usage(entry_file(meminfo), vmstat, now_ns, prev);
            &&& m.total_bytes == total * 1024
            &&& m.available_bytes == available * 1024
            &&& m.buffers_bytes == buffers * 1024
            &&& m.cached_bytes == cached * 1024
            &&& free + buffers + cached <= total ==> m.used_bytes == (total - free - buffers
                - cached) * 1024
            &&& free + buffers + cached > total ==> m.used_bytes == 0
            &&& m.swap_total_bytes == swap_total * 1024
            &&& swap_free <= swap_total ==> m.swap_used_bytes == (swap_total - swap_free) * 1024
            &&& swap_free > swap_total ==> m.swap_used_bytes == 0
        }),
{
    let m = entry_file(meminfo);
    lemma_reported(meminfo, "MemTotal:"@, total);
    lemma_reported(meminfo, "MemFree:"@, free);
    lemma_reported(meminfo, "MemAvailable:"@, available);
    lemma_reported(meminfo, "Buffers:"@, buffers);
    lemma_reported(meminfo, "Cached:"@, cached);
    lemma_reported(meminfo, "SwapTotal:"@, swap_total);
    lemma_reported(meminfo, "SwapFree:"@, swap_free);
    lemma_used(m, vmstat, now_ns, prev);
}

proof fn lemma_reported(entries: Seq<Entry>, label: Seq<char>, value: u64)
    requires
        are_written(entries),
        says(entries, label, value),
        value * 1024 <= u64::MAX,
    ensures
        reported_bytes(entry_file(entries), label) == value * 1024,
{
    lemma_entry_file(entries);
    lemma_entries(entries, label, value);
}

proof fn lemma_used(meminfo: Seq<char>, vmstat: Seq<char>, now_ns: u64, prev: Option<SwapCount>)
    ensures
        ({
            let m = usage(meminfo, vmstat, now_ns, prev);
            let total = reported_bytes(meminfo, "MemTotal:"@);
            let rest = reported_bytes(meminfo, "MemFree:"@) + reported_bytes(meminfo, "Buffers:"@)
                + reported_bytes(meminfo, "Cached:"@);
            let swap = reported_bytes(meminfo, "SwapTotal:"@);
            let free = reported_bytes(meminfo, "SwapFree:"@);
            &&& m.total_bytes == total
            &&& m.available_bytes == reported_bytes(meminfo, "MemAvailable:"@)
            &&& m.buffers_bytes == reported_bytes(meminfo, "Buffers:"@)
            &&& m.cached_bytes == reported_bytes(meminfo, "Cached:"@)
            &&& rest <= u64::MAX ==> m.used_bytes == if total > rest {
                total - rest
            } else {
                0
            }
            &&& m.swap_total_bytes == swap
            &&& m.swap_used_bytes == if swap > free {
                swap - free
            } else {
                0
            }
        }),
{
}

/// What the kernel does not say is zero.
pub proof fn what_is_not_said_is_zero(meminfo: Seq<Entry>, label: Seq<char>)
    requires
        are_written(meminfo),
        forall|i: int| 0 <= i < meminfo.len() ==> (#[trigger] meminfo[i]).label != label,
    ensures
        reported_bytes(entry_file(meminfo), label) == 0,
{
    lemma_entry_file(meminfo);
    lemma_entries(meminfo, label, 0);
}

/// The swap traffic is the pages that `/proc/vmstat` has counted since the earlier reading, 4096
/// bytes each, for each second that passed; what came in is told from what went out.
pub proof fn swap_traffic_is_what_was_counted(
    meminfo: Seq<char>,
    vmstat: Seq<Entry>,
    now_ns: u64,
    prev: SwapCount,
    pages_in: u64,
    pages_out: u64,
)
    requires
        are_written(vmstat),
        prev.pages_in + pages_in <= u64::MAX,
        prev.pages_out + pages_out <= u64::MAX,
        says(vmstat, "pswpin"@, (prev.pages_in + pages_in) as u64),
        says(vmstat, "pswpout"@, (prev.pages_out + pages_out) as u64),
        now_ns > prev.time_ns,
    ensures
        ({
            let m = usage(meminfo, entry_file(vmstat), now_ns, Some(prev));
            let ns = now_ns - prev.time_ns;
            &&& m.swap_in_rate.is_fraction(pages_in * 4096 * 1_000_000_000, ns)
            &&& m.swap_out_rate.is_fraction(pages_out * 4096 * 1_000_000_000, ns)
            &&& swap_count(entry_file(vmstat), now_ns) == (SwapCount {
                pages_in: (prev.pages_in + pages_in) as u64,
                pages_out: (prev.pages_out + pages_out) as u64,
                time_ns: now_ns,
            })
        }),
{
    lemma_entry_file(vmstat);
    lemma_entries(vmstat, "pswpin"@, (prev.pages_in + pages_in) as u64);
    lemma_entries(vmstat, "pswpout"@, (prev.pages_out + pages_out) as u64);
}

/// Without an earlier reading, and where no time has passed, there is no swap traffic.
pub proof fn first_reading_has_no_traffic(
    meminfo: Seq<char>,
    vmstat: Seq<char>,
    now_ns: u64,
    prev: Option<SwapCount>,
)
    requires
        prev matches Some(p) ==> p.time_ns >= now_ns,
    ensures
        usage(meminfo, vmstat, now_ns, prev).swap_in_rate.is_fraction(0, 1),
        usage(meminfo, vmstat, now_ns, prev).swap_out_rate.is_fraction(0, 1),
{
}

/// Counters may come back to zero: what counts is by how many pages they went on.
pub proof fn pages_may_wrap(prev: SwapCount, cur: SwapCount)
    requires
        prev.time_ns < cur.time_ns,
    ensures
        swap_rates(Some(prev), cur).0.is_fraction(
            collector::grown(prev.pages_in, cur.pages_in) * 4096 * 1_000_000_000,
            cur.time_ns - prev.time_ns,
        ),
        swap_rates(Some(prev), cur).1.is_fraction(
            collector::grown(prev.pages_out, cur.pages_out) * 4096 * 1_000_000_000,
            cur.time_ns - prev.time_ns,
        ),
{
}

} // verus!
