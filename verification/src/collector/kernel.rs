//! What the kernel writes into its files, and that it is read as it was meant.
use crate::bytes;
use crate::collector::cpu;
use crate::collector::cpu::CpuRawStat;
use crate::collector::disk;
use crate::collector::network;
use crate::collector::process;
use crate::platform::linux;
use crate::registry;
use crate::text;
use vstd::prelude::*;
use vstd::utf8::*;

verus! {

/// A number in decimal.
pub open spec fn number(n: nat) -> Seq<u8>
    decreases n,
{
    if n < 10 {
        seq![(48 + n) as u8]
    } else {
        number(n / 10).push((48 + n % 10) as u8)
    }
}

/// Numbers in decimal.
pub open spec fn numerals(values: Seq<u64>) -> Seq<Seq<u8>> {
    Seq::new(values.len(), |i: int| number(values[i] as nat))
}

/// A run of spaces.
pub open spec fn blanks(n: nat) -> Seq<u8> {
    Seq::new(n, |i: int| 32u8)
}

/// Words with spaces before, between and behind them.
pub open spec fn spaced(words: Seq<Seq<u8>>, gaps: Seq<nat>) -> Seq<u8>
    decreases words.len(),
{
    if words.len() == 0 {
        blanks(gaps[0])
    } else {
        blanks(gaps[0]) + words[0] + spaced(words.skip(1), gaps.skip(1))
    }
}

/// Whether there are gaps for so many words, with at least one space between two of them.
pub open spec fn are_gaps(gaps: Seq<nat>, count: nat) -> bool {
    &&& gaps.len() == count + 1
    &&& forall|i: int| 1 <= i < count ==> #[trigger] gaps[i] > 0
}

/// Whether bytes are a word: not empty, and without a space or a line feed.
pub open spec fn is_word(w: Seq<u8>) -> bool {
    &&& w.len() > 0
    &&& forall|i: int| 0 <= i < w.len() ==> #[trigger] w[i] != 32 && w[i] != 10
}

/// Whether all are words.
pub open spec fn are_words(words: Seq<Seq<u8>>) -> bool {
    forall|i: int| 0 <= i < words.len() ==> is_word(#[trigger] words[i])
}

/// Lines, each with the line feed that ends it.
pub open spec fn file_of(lines: Seq<Seq<u8>>) -> Seq<u8>
    decreases lines.len(),
{
    if lines.len() == 0 {
        Seq::empty()
    } else {
        lines[0] + seq![10u8] + file_of(lines.skip(1))
    }
}

/// Whether bytes have no line feed in them.
pub open spec fn on_one_line(data: Seq<u8>) -> bool {
    forall|i: int| 0 <= i < data.len() ==> #[trigger] data[i] != 10
}

/// Whether no line has a line feed in it.
pub open spec fn are_lines(lines: Seq<Seq<u8>>) -> bool {
    forall|i: int| 0 <= i < lines.len() ==> on_one_line(#[trigger] lines[i])
}

/// A number has digits and nothing else, and they have its value.
pub proof fn lemma_number(n: nat)
    ensures
        number(n).len() > 0,
        forall|i: int| 0 <= i < number(n).len() ==> linux::is_digit_byte(#[trigger] number(n)[i]),
        linux::digits_value(number(n)) == n,
        is_word(number(n)),
    decreases n,
{
    if n >= 10 {
        lemma_number(n / 10);
        let s = number(n);
        assert(s.drop_last() =~= number(n / 10));
        assert forall|i: int| 0 <= i < s.len() implies linux::is_digit_byte(#[trigger] s[i]) by {
            if i < number(n / 10).len() {
                assert(s[i] == number(n / 10)[i]);
            }
        }
    } else {
        let s = number(n);
        assert(s.drop_last() =~= Seq::<u8>::empty());
        assert(linux::digits_value(s.drop_last()) == 0);
    }
    assert forall|i: int| 0 <= i < number(n).len() implies #[trigger] number(n)[i] != 32
        && number(n)[i] != 10 by {
        assert(linux::is_digit_byte(number(n)[i]));
    }
}

/// A number that the kernel writes is read back, whatever follows that is no digit.
pub proof fn numbers_are_read_back(n: u64, rest: Seq<u8>)
    requires
        rest.len() > 0 ==> !linux::is_digit_byte(rest[0]),
    ensures
        linux::leading_number(number(n as nat) + rest) == n,
        linux::digit_run(number(n as nat) + rest) == number(n as nat).len(),
{
    let d = number(n as nat);
    let data = d + rest;
    lemma_number(n as nat);
    assert forall|i: int| 0 <= i < d.len() implies linux::is_digit_byte(data[i]) by {
        assert(data[i] == d[i]);
    }
    if d.len() < data.len() {
        assert(data[d.len() as int] == rest[0]);
    }
    linux::lemma_digit_run_is(data, d.len() as int);
    assert(data.take(d.len() as int) =~= d);
}

/// A number by itself is read back.
pub proof fn lemma_number_alone(n: u64)
    ensures
        linux::leading_number(number(n as nat)) == n,
{
    numbers_are_read_back(n, Seq::empty());
    assert(number(n as nat) + Seq::<u8>::empty() =~= number(n as nat));
}

proof fn lemma_fields_blanks(k: nat, data: Seq<u8>)
    ensures
        bytes::fields(blanks(k) + data) == bytes::fields(data),
    decreases k,
{
    let all = blanks(k) + data;
    if k == 0 {
        assert(all =~= data);
    } else {
        assert(all[0] == 32);
        assert(all.skip(1) =~= blanks((k - 1) as nat) + data);
        lemma_fields_blanks((k - 1) as nat, data);
    }
}

proof fn lemma_fields_word(w: Seq<u8>, rest: Seq<u8>)
    requires
        is_word(w),
        rest.len() > 0 ==> rest[0] == 32,
    ensures
        bytes::fields(w + rest) == seq![w] + bytes::fields(rest),
{
    let all = w + rest;
    assert forall|i: int| 0 <= i < w.len() implies all[i] != 32 by {
        assert(all[i] == w[i]);
    }
    if rest.len() > 0 {
        assert(all[w.len() as int] == rest[0]);
    }
    bytes::lemma_find_either_is(all, 32, 32, w.len() as int);
    if rest.len() > 0 {
        assert(all.take(w.len() as int) =~= w);
        assert(all.skip(w.len() as int + 1) =~= rest.skip(1));
        assert(bytes::find_either(rest, 32, 32) == 0);
    } else {
        assert(all =~= w);
        assert(seq![w] + Seq::<Seq<u8>>::empty() =~= seq![w]);
    }
}

proof fn lemma_spaced_head(words: Seq<Seq<u8>>, gaps: Seq<nat>)
    requires
        gaps.len() == words.len() + 1,
        gaps[0] > 0 || words.len() == 0,
    ensures
        spaced(words, gaps).len() > 0 ==> spaced(words, gaps)[0] == 32,
{
    if words.len() > 0 {
        assert((blanks(gaps[0]) + words[0])[0] == 32);
    }
}

/// The words of a line are its fields, however many spaces stand round them.
pub proof fn words_are_read_back(words: Seq<Seq<u8>>, gaps: Seq<nat>)
    requires
        are_words(words),
        are_gaps(gaps, words.len()),
    ensures
        bytes::fields(spaced(words, gaps)) == words,
    decreases words.len(),
{
    if words.len() == 0 {
        lemma_fields_blanks(gaps[0], Seq::empty());
        assert(blanks(gaps[0]) + Seq::<u8>::empty() =~= blanks(gaps[0]));
        assert(words =~= Seq::empty());
    } else {
        let (tail, more) = (words.skip(1), gaps.skip(1));
        assert forall|i: int| 0 <= i < tail.len() implies is_word(#[trigger] tail[i]) by {
            assert(tail[i] == words[i + 1]);
        }
        assert forall|i: int| 1 <= i < tail.len() implies #[trigger] more[i] > 0 by {
            assert(more[i] == gaps[i + 1]);
        }
        words_are_read_back(tail, more);
        let rest = spaced(tail, more);
        if tail.len() > 0 {
            assert(gaps[1] > 0);
        }
        lemma_spaced_head(tail, more);
        lemma_fields_word(words[0], rest);
        lemma_fields_blanks(gaps[0], words[0] + rest);
        assert(blanks(gaps[0]) + words[0] + rest =~= blanks(gaps[0]) + (words[0] + rest));
        assert(seq![words[0]] + tail =~= words);
    }
}

proof fn lemma_spaced_on_one_line(words: Seq<Seq<u8>>, gaps: Seq<nat>)
    requires
        are_words(words),
        gaps.len() == words.len() + 1,
    ensures
        on_one_line(spaced(words, gaps)),
    decreases words.len(),
{
    if words.len() > 0 {
        let (tail, more) = (words.skip(1), gaps.skip(1));
        assert forall|i: int| 0 <= i < tail.len() implies is_word(#[trigger] tail[i]) by {
            assert(tail[i] == words[i + 1]);
        }
        lemma_spaced_on_one_line(tail, more);
        let all = spaced(words, gaps);
        let head = blanks(gaps[0]) + words[0];
        assert forall|i: int| 0 <= i < all.len() implies #[trigger] all[i] != 10 by {
            if i < gaps[0] {
                assert(all[i] == 32);
            } else if i < head.len() {
                assert(all[i] == words[0][i - gaps[0]]);
            } else {
                assert(all[i] == spaced(tail, more)[i - head.len()]);
            }
        }
    }
}

/// The lines of a file are those that were written.
pub proof fn lines_are_read_back(lines: Seq<Seq<u8>>)
    requires
        are_lines(lines),
    ensures
        bytes::lines(file_of(lines)) == lines,
    decreases lines.len(),
{
    if lines.len() > 0 {
        let data = file_of(lines);
        let tail = lines.skip(1);
        let n = lines[0].len() as int;
        assert forall|i: int| 0 <= i < tail.len() implies on_one_line(#[trigger] tail[i]) by {
            assert(tail[i] == lines[i + 1]);
        }
        lines_are_read_back(tail);
        assert forall|i: int| 0 <= i < n implies data[i] != 10 by {
            assert(data[i] == lines[0][i]);
        }
        assert(data[n] == 10);
        bytes::lemma_find_either_is(data, 10, 10, n);
        assert(data.take(n) =~= lines[0]);
        assert(data.skip(n + 1) =~= file_of(tail));
        assert(seq![lines[0]] + tail =~= lines);
    } else {
        assert(lines =~= Seq::empty());
    }
}

// ---------------------------------------------------------------------------------------------
// Processors

/// The counters of a line of `/proc/stat`, in the order in which they are written, and those behind
/// them.
pub open spec fn cpu_values(s: CpuRawStat, more: Seq<u64>) -> Seq<u64> {
    seq![s.user, s.nice, s.system, s.idle, s.iowait, s.irq, s.softirq, s.steal] + more
}

/// A line of `/proc/stat`: `cpu`, the number of a processor or nothing, and the counters.
pub open spec fn cpu_line(label: Seq<u8>, s: CpuRawStat, more: Seq<u64>, gaps: Seq<nat>) -> Seq<u8> {
    seq![99u8, 112, 117] + label + spaced(numerals(cpu_values(s, more)), gaps)
}

/// Whether a label can follow `cpu`: it has no space and no line feed in it.
pub open spec fn is_label(label: Seq<u8>) -> bool {
    forall|i: int| 0 <= i < label.len() ==> #[trigger] label[i] != 32 && label[i] != 10
}

proof fn lemma_space_run(k: nat, rest: Seq<u8>)
    requires
        rest.len() > 0 ==> rest[0] != 32,
    ensures
        cpu::space_run(blanks(k) + rest) == k,
    decreases k,
{
    let all = blanks(k) + rest;
    if k == 0 {
        assert(all =~= rest);
    } else {
        assert(all[0] == 32);
        assert(all.skip(1) =~= blanks((k - 1) as nat) + rest);
        lemma_space_run((k - 1) as nat, rest);
    }
}

proof fn lemma_numbers(values: Seq<u64>, gaps: Seq<nat>, count: nat)
    requires
        count <= values.len(),
        are_gaps(gaps, values.len()),
    ensures
        cpu::numbers(spaced(numerals(values), gaps), count) == values.take(count as int),
    decreases count,
{
    let all = spaced(numerals(values), gaps);
    if count == 0 {
        assert(values.take(0) =~= Seq::empty());
    } else {
        let tail = values.skip(1);
        let more = gaps.skip(1);
        let own = number(values[0] as nat);
        assert(numerals(values).skip(1) =~= numerals(tail));
        assert forall|i: int| 1 <= i < tail.len() implies #[trigger] more[i] > 0 by {
            assert(more[i] == gaps[i + 1]);
        }
        let rest = spaced(numerals(tail), more);
        if tail.len() > 0 {
            assert(gaps[1] > 0);
        }
        lemma_spaced_head(numerals(tail), more);
        lemma_number(values[0] as nat);
        lemma_space_run(gaps[0], own + rest);
        assert(own[0] != 32);
        assert(all =~= blanks(gaps[0]) + (own + rest));
        assert(all.skip(gaps[0] as int) =~= own + rest);
        numbers_are_read_back(values[0], rest);
        assert((own + rest).skip(own.len() as int) =~= rest);
        lemma_numbers(tail, more, (count - 1) as nat);
        assert(seq![values[0]] + tail.take(count - 1) =~= values.take(count as int));
    }
}

proof fn lemma_numerals_are_words(values: Seq<u64>)
    ensures
        are_words(numerals(values)),
{
    assert forall|i: int| 0 <= i < values.len() implies is_word(#[trigger] numerals(values)[i]) by {
        lemma_number(values[i] as nat);
    }
}

/// The counters of a processor are read from the line that the kernel writes for it: each is what
/// it is written as.
pub proof fn cpu_lines_are_read_back(
    label: Seq<u8>,
    s: CpuRawStat,
    more: Seq<u64>,
    gaps: Seq<nat>,
)
    requires
        is_label(label),
        are_gaps(gaps, 8 + more.len()),
        gaps[0] > 0,
    ensures
        cpu::line_stat(cpu_line(label, s, more, gaps)) == s,
        on_one_line(cpu_line(label, s, more, gaps)),
        cpu::at_cpu_line(cpu_line(label, s, more, gaps)),
{
    let values = cpu_values(s, more);
    let tail = spaced(numerals(values), gaps);
    let line = cpu_line(label, s, more, gaps);
    let rest = label + tail;
    assert(line.skip(3) =~= rest);
    lemma_spaced_head(numerals(values), gaps);
    lemma_number(s.user as nat);
    assert(tail.len() > 0) by {
        assert(numerals(values)[0] == number(s.user as nat));
    }
    assert forall|i: int| 0 <= i < label.len() implies rest[i] != 32 && rest[i] != 10 by {
        assert(rest[i] == label[i]);
    }
    assert(rest[label.len() as int] == tail[0]);
    bytes::lemma_find_either_is(rest, 32, 10, label.len() as int);
    assert(rest.skip(label.len() as int) =~= tail);
    lemma_numbers(values, gaps, 8);
    lemma_numerals_are_words(values);
    lemma_spaced_on_one_line(numerals(values), gaps);
    assert forall|i: int| 0 <= i < line.len() implies #[trigger] line[i] != 10 by {
        if i >= 3 {
            assert(line[i] == rest[i - 3]);
            if i - 3 >= label.len() {
                assert(line[i] == tail[i - 3 - label.len()]);
            }
        }
    }
}

/// Of the lines of `/proc/stat`, those of processors count, in order, and no others do.
pub proof fn cpu_files_are_read_line_by_line(line: Seq<u8>, rest: Seq<u8>)
    requires
        on_one_line(line),
        cpu::at_cpu_line(line) || line.len() > 3,
    ensures
        cpu::cpu_stats(line + seq![10u8] + rest) == if cpu::at_cpu_line(line) {
            seq![cpu::line_stat(line)] + cpu::cpu_stats(rest)
        } else {
            cpu::cpu_stats(rest)
        },
{
    let data = line + seq![10u8] + rest;
    let n = line.len() as int;
    assert forall|i: int| 0 <= i < n implies data[i] != 10 by {
        assert(data[i] == line[i]);
    }
    assert(data[n] == 10);
    bytes::lemma_find_either_is(data, 10, 10, n);
    assert(data.take(n) =~= line);
    assert(data.skip(n + 1) =~= rest);
    assert(data[0] == line[0] && data[1] == line[1] && data[2] == line[2]);
}

// ---------------------------------------------------------------------------------------------
// Disks

/// What the kernel writes for a disk in `/proc/diskstats`, in the order in which it is written.
pub struct DiskLine {
    pub major: u64,
    pub minor: u64,
    pub name: Seq<u8>,
    pub reads: u64,
    pub reads_merged: u64,
    pub sectors_read: u64,
    pub ms_reading: u64,
    pub writes: u64,
    pub writes_merged: u64,
    pub sectors_written: u64,
    pub ms_writing: u64,
    pub in_flight: u64,
    pub ms_busy: u64,
    pub ms_weighted: u64,
}

impl DiskLine {
    /// The words on the line, and those behind them.
    pub open spec fn words(self, more: Seq<u64>) -> Seq<Seq<u8>> {
        seq![
            number(self.major as nat),
            number(self.minor as nat),
            self.name,
            number(self.reads as nat),
            number(self.reads_merged as nat),
            number(self.sectors_read as nat),
            number(self.ms_reading as nat),
            number(self.writes as nat),
            number(self.writes_merged as nat),
            number(self.sectors_written as nat),
            number(self.ms_writing as nat),
            number(self.in_flight as nat),
            number(self.ms_busy as nat),
            number(self.ms_weighted as nat),
        ] + numerals(more)
    }
}

/// The counters of a disk are read from the line that the kernel writes for it: requests and times
/// as they are, and sectors as 512 bytes each.
pub proof fn disk_lines_are_read_back(d: DiskLine, more: Seq<u64>, gaps: Seq<nat>)
    requires
        is_word(d.name),
        are_gaps(gaps, 14 + more.len()),
        d.sectors_read * 512 <= u64::MAX,
        d.sectors_written * 512 <= u64::MAX,
    ensures
        on_one_line(spaced(d.words(more), gaps)),
        disk::disk_line(spaced(d.words(more), gaps)) matches Some((name, s)) && {
            &&& name == text::lossy_text(d.name)
            &&& s.read_ios == d.reads
            &&& s.write_ios == d.writes
            &&& s.read_bytes == d.sectors_read * 512
            &&& s.write_bytes == d.sectors_written * 512
            &&& s.read_time_ms == d.ms_reading
            &&& s.write_time_ms == d.ms_writing
            &&& s.io_ticks_ms == d.ms_busy
        },
{
    let words = d.words(more);
    lemma_number(d.major as nat);
    lemma_number(d.minor as nat);
    lemma_number(d.reads as nat);
    lemma_number(d.reads_merged as nat);
    lemma_number(d.sectors_read as nat);
    lemma_number(d.ms_reading as nat);
    lemma_number(d.writes as nat);
    lemma_number(d.writes_merged as nat);
    lemma_number(d.sectors_written as nat);
    lemma_number(d.ms_writing as nat);
    lemma_number(d.in_flight as nat);
    lemma_number(d.ms_busy as nat);
    lemma_number(d.ms_weighted as nat);
    lemma_numerals_are_words(more);
    assert forall|i: int| 0 <= i < words.len() implies is_word(#[trigger] words[i]) by {
        if i >= 14 {
            assert(words[i] == numerals(more)[i - 14]);
        }
    }
    words_are_read_back(words, gaps);
    lemma_spaced_on_one_line(words, gaps);
    lemma_number_alone(d.reads);
    lemma_number_alone(d.sectors_read);
    lemma_number_alone(d.ms_reading);
    lemma_number_alone(d.writes);
    lemma_number_alone(d.sectors_written);
    lemma_number_alone(d.ms_writing);
    lemma_number_alone(d.ms_busy);
}

/// Of several lines for one disk the last one counts, and lines for other disks do not matter.
pub proof fn disks_are_read_line_by_line(lines: Seq<Seq<u8>>, name: Seq<char>)
    requires
        are_lines(lines),
        lines.len() > 0,
    ensures
        ({
            let all = disk::disks(file_of(lines));
            let before = disk::disks(file_of(lines.drop_last()));
            registry::lookup(all, name) == match disk::disk_line(lines.last()) {
                Some((own, stat)) if own == name => Some(stat),
                _ => registry::lookup(before, name),
            }
        }),
{
    assert forall|i: int| 0 <= i < lines.drop_last().len() implies on_one_line(
        #[trigger] lines.drop_last()[i],
    ) by {
        assert(lines.drop_last()[i] == lines[i]);
    }
    lines_are_read_back(lines);
    lines_are_read_back(lines.drop_last());
    match disk::disk_line(lines.last()) {
        Some((own, stat)) => {
            registry::entry_put(disk::disks_on(lines.drop_last()), own, stat, name);
        },
        None => {},
    }
}

// ---------------------------------------------------------------------------------------------
// Interfaces

/// Bytes, packets, errors and drops: the first columns of a direction.
pub open spec fn direction(bytes: u64, packets: u64, errors: u64, drops: u64, more: Seq<u64>) -> Seq<
    u64,
> {
    seq![bytes, packets, errors, drops] + more
}

/// The counters of an interface are read from the line that the kernel writes for it: eight columns
/// for what was received and eight for what was sent, of which the first four are bytes, packets,
/// errors and drops.
pub proof fn interface_lines_are_read_back(
    name: Seq<char>,
    rx: network::IfaceRaw,
    rx_more: Seq<u64>,
    tx_more: Seq<u64>,
    pad: nat,
    gaps: Seq<nat>,
)
    requires
        rx_more.len() == 4,
        tx_more.len() == 4,
        are_gaps(gaps, 16),
        name.len() > 0,
        is_ascii_chars(name),
        forall|i: int|
            0 <= i < name.len() ==> #[trigger] name[i] != ':' && !text::is_space(name[i]),
    ensures
        ({
            let values = direction(rx.rx_bytes, rx.rx_packets, rx.rx_errors, rx.rx_dropped, rx_more)
                + direction(rx.tx_bytes, rx.tx_packets, rx.tx_errors, rx.tx_dropped, tx_more);
            let line = blanks(pad) + encode_utf8(name) + seq![58u8] + spaced(
                numerals(values),
                gaps,
            );
            network::interface_line(line) == Some((name, rx))
        }),
{
    let values = direction(rx.rx_bytes, rx.rx_packets, rx.rx_errors, rx.rx_dropped, rx_more)
        + direction(rx.tx_bytes, rx.tx_packets, rx.tx_errors, rx.tx_dropped, tx_more);
    let head = blanks(pad) + encode_utf8(name);
    let tail = spaced(numerals(values), gaps);
    let line = head + seq![58u8] + tail;
    is_ascii_chars_encode_utf8(name);
    let padded = text::spaces(pad as int) + name;
    lemma_padded(pad, name);
    assert(encode_utf8(padded) == head);
    encode_utf8_valid_utf8(padded);
    encode_utf8_decode_utf8(padded);
    assert forall|i: int| 0 <= i < head.len() implies line[i] != 58 by {
        assert(line[i] == head[i]);
        if i >= pad {
            assert(head[i] == encode_utf8(name)[i - pad]);
            assert(name[i - pad] != ':');
        }
    }
    assert(line[head.len() as int] == 58);
    bytes::lemma_find_either_is(line, 58, 58, head.len() as int);
    assert(line.take(head.len() as int) =~= head);
    assert(line.skip(head.len() as int + 1) =~= tail);
    lemma_trim_padded(pad, name);
    lemma_numerals_are_words(values);
    words_are_read_back(numerals(values), gaps);
    lemma_number_alone(rx.rx_bytes);
    lemma_number_alone(rx.rx_packets);
    lemma_number_alone(rx.rx_errors);
    lemma_number_alone(rx.rx_dropped);
    lemma_number_alone(rx.tx_bytes);
    lemma_number_alone(rx.tx_packets);
    lemma_number_alone(rx.tx_errors);
    lemma_number_alone(rx.tx_dropped);
}

/// Text of ASCII characters after spaces.
proof fn lemma_padded(pad: nat, name: Seq<char>)
    requires
        is_ascii_chars(name),
    ensures
        encode_utf8(text::spaces(pad as int) + name) == blanks(pad) + encode_utf8(name),
{
    let all = text::spaces(pad as int) + name;
    assert(is_ascii_chars(all)) by {
        assert forall|i: int| 0 <= i < all.len() implies '\0' <= #[trigger] all[i] <= '\u{7f}' by {
            if i >= pad {
                assert(all[i] == name[i - pad]);
            }
        }
    }
    is_ascii_chars_encode_utf8(all);
    is_ascii_chars_encode_utf8(name);
    assert forall|i: int| 0 <= i < all.len() implies encode_utf8(all)[i] == (blanks(pad)
        + encode_utf8(name))[i] by {
        if i >= pad {
            assert(all[i] == name[i - pad]);
        } else {
            assert(all[i] == ' ');
        }
    }
    assert(encode_utf8(all) =~= blanks(pad) + encode_utf8(name));
}

/// Text without white space, after spaces.
proof fn lemma_trim_padded(pad: nat, name: Seq<char>)
    requires
        name.len() > 0,
        forall|i: int| 0 <= i < name.len() ==> !text::is_space(#[trigger] name[i]),
    ensures
        text::trimmed(text::spaces(pad as int) + name) == name,
    decreases pad,
{
    let all = text::spaces(pad as int) + name;
    if pad == 0 {
        assert(all =~= name);
        assert(!text::is_space(name[0]));
        assert(!text::is_space(name[name.len() - 1]));
    } else {
        assert(all[0] == ' ');
        assert(all.skip(1) =~= text::spaces(pad - 1) + name);
        lemma_trim_padded((pad - 1) as nat, name);
    }
}

// ---------------------------------------------------------------------------------------------
// Processes

/// What the kernel writes for a process in its `stat` file behind the name, in the order in which
/// it is written.
pub struct StatLine {
    pub state: Seq<u8>,
    pub ppid: u64,
    /// From the process group to the major faults of the children.
    pub before_times: Seq<Seq<u8>>,
    pub utime: u64,
    pub stime: u64,
    /// The times of the children, the priority and the nice value.
    pub after_times: Seq<Seq<u8>>,
    pub threads: u64,
    /// The interval timer, the start time and the virtual memory.
    pub before_rss: Seq<Seq<u8>>,
    pub rss: u64,
    pub more: Seq<Seq<u8>>,
}

impl StatLine {
    /// The words on the line.
    pub open spec fn words(self) -> Seq<Seq<u8>> {
        seq![self.state, number(self.ppid as nat)] + self.before_times + seq![
            number(self.utime as nat),
            number(self.stime as nat),
        ] + self.after_times + seq![number(self.threads as nat)] + self.before_rss + seq![
            number(self.rss as nat),
        ] + self.more
    }

    /// Whether there are as many words as the kernel writes, none of which holds a parenthesis.
    pub open spec fn is_written(self) -> bool {
        &&& self.before_times.len() == 9
        &&& self.after_times.len() == 4
        &&& self.before_rss.len() == 3
        &&& are_words(self.words())
        &&& forall|i: int|
            0 <= i < self.words().len() ==> has_no_parenthesis(#[trigger] self.words()[i])
    }
}

/// Whether bytes hold no closing parenthesis.
pub open spec fn has_no_parenthesis(w: Seq<u8>) -> bool {
    forall|i: int| 0 <= i < w.len() ==> #[trigger] w[i] != 41
}

/// The contents of a `stat` file: the number of the process, its name in parentheses, and the words
/// behind it.
pub open spec fn stat_file(pid: u64, name: Seq<u8>, s: StatLine, gaps: Seq<nat>) -> Seq<u8> {
    number(pid as nat) + seq![32u8, 40] + name + seq![41u8, 32] + spaced(s.words(), gaps)
}

proof fn lemma_spaced_has_no_parenthesis(words: Seq<Seq<u8>>, gaps: Seq<nat>)
    requires
        gaps.len() == words.len() + 1,
        forall|i: int| 0 <= i < words.len() ==> has_no_parenthesis(#[trigger] words[i]),
    ensures
        has_no_parenthesis(spaced(words, gaps)),
    decreases words.len(),
{
    if words.len() > 0 {
        let (tail, more) = (words.skip(1), gaps.skip(1));
        assert forall|i: int| 0 <= i < tail.len() implies has_no_parenthesis(
            #[trigger] tail[i],
        ) by {
            assert(tail[i] == words[i + 1]);
        }
        lemma_spaced_has_no_parenthesis(tail, more);
        let all = spaced(words, gaps);
        let head = blanks(gaps[0]) + words[0];
        assert(has_no_parenthesis(words[0]));
        assert forall|i: int| 0 <= i < all.len() implies #[trigger] all[i] != 41 by {
            if i < gaps[0] {
                assert(all[i] == 32);
            } else if i < head.len() {
                assert(all[i] == words[0][i - gaps[0]]);
            } else {
                assert(all[i] == spaced(tail, more)[i - head.len()]);
            }
        }
    }
}

/// A process is read from the `stat` file that the kernel writes for it, whatever its name holds:
/// its parent, its state, its threads, the pages that it has in memory, and the time that it spent
/// in user mode and in the kernel.
pub proof fn stat_files_are_read_back(
    pid: u32,
    name: Seq<u8>,
    s: StatLine,
    gaps: Seq<nat>,
    prev: Option<process::ProcTicks>,
    elapsed_ns: u64,
)
    requires
        s.is_written(),
        are_gaps(gaps, s.words().len()),
        s.ppid <= u32::MAX,
        s.threads <= u32::MAX,
        s.rss * 4096 <= u64::MAX,
    ensures
        ({
            let data = stat_file(pid as u64, name, s, gaps);
            let p = process::stat_process(pid, data, prev, elapsed_ns);
            let now = process::ProcTicks { utime: s.utime, stime: s.stime };
            &&& process::comm_ordered(data)
            &&& process::stat_fault(data) is None
            &&& process::stat_ticks(data) == now
            &&& p.pid == pid
            &&& p.ppid == s.ppid
            &&& p.name == text::lossy_text(name)
            &&& valid_utf8(s.state) ==> p.state == decode_utf8(s.state)
            &&& p.threads == s.threads
            &&& p.mem_bytes == s.rss * 4096
            &&& p.cpu_pct == process::processor_share(prev, now, elapsed_ns)
        }),
{
    let data = stat_file(pid as u64, name, s, gaps);
    let words = s.words();
    let own = number(pid as nat);
    let open = own.len() + 1;
    let close = open + 1 + name.len();
    let tail = spaced(words, gaps);
    lemma_number(pid as nat);
    assert forall|i: int| 0 <= i < open implies data[i] != 40 by {
        if i < own.len() {
            assert(data[i] == own[i]);
            assert(linux::is_digit_byte(own[i]));
        } else {
            assert(data[i] == 32);
        }
    }
    assert(data[open as int] == 40);
    bytes::lemma_find_either_is(data, 40, 40, open as int);
    assert(data[close as int] == 41);
    lemma_spaced_has_no_parenthesis(words, gaps);
    assert forall|i: int| close < i < data.len() implies data[i] != 41 by {
        if i > close + 1 {
            assert(data[i] == tail[i - (close + 2)]);
        }
    }
    process::lemma_last_index(data, 41);
    let at = process::last_index(data, 41);
    assert(at == close);
    assert(process::comm(data) =~= name);
    words_are_read_back(words, gaps);
    assert(words[0] == s.state);
    assert(tail.len() > 0) by {
        if tail.len() == 0 {
            assert(bytes::fields(tail) =~= Seq::empty());
        }
    }
    assert(data.skip(close as int + 2) =~= tail);
    assert(words[1] == number(s.ppid as nat));
    assert(words[11] == number(s.utime as nat));
    assert(words[12] == number(s.stime as nat));
    assert(words[17] == number(s.threads as nat));
    assert(words[21] == number(s.rss as nat));
    lemma_number_alone(s.ppid);
    lemma_number_alone(s.utime);
    lemma_number_alone(s.stime);
    lemma_number_alone(s.threads);
    lemma_number_alone(s.rss);
}

// ---------------------------------------------------------------------------------------------
// Mounts

proof fn lemma_piece(w: Seq<u8>, rest: Seq<u8>)
    requires
        forall|i: int| 0 <= i < w.len() ==> #[trigger] w[i] != 32,
    ensures
        bytes::pieces(w + seq![32u8] + rest, 32) == seq![w] + bytes::pieces(rest, 32),
{
    let all = w + seq![32u8] + rest;
    let n = w.len() as int;
    assert forall|i: int| 0 <= i < n implies all[i] != 32 by {
        assert(all[i] == w[i]);
    }
    assert(all[n] == 32);
    bytes::lemma_find_either_is(all, 32, 32, n);
    assert(all.take(n) =~= w);
    assert(all.skip(n + 1) =~= rest);
}

/// A mount is read from the line that the kernel writes for it: device, mount point and type of the
/// file system. It counts where the type is one of those that are reported.
pub proof fn mount_lines_are_read_back(
    device: Seq<u8>,
    point: Seq<u8>,
    fs_type: Seq<char>,
    more: Seq<u8>,
)
    requires
        is_word(device),
        is_word(point),
        is_ascii_chars(fs_type),
        is_word(encode_utf8(fs_type)),
    ensures
        ({
            let line = device + seq![32u8] + (point + seq![32u8] + (encode_utf8(fs_type) + seq![
                32u8,
            ] + more));
            match disk::mount_line(line) {
                Some(m) => {
                    &&& disk::is_reported(fs_type)
                    &&& m.device == text::lossy_text(device)
                    &&& m.mount_point == text::lossy_text(point)
                    &&& m.fs_type == fs_type
                },
                None => !disk::is_reported(fs_type),
            }
        }),
{
    let kind = encode_utf8(fs_type);
    lemma_piece(kind, more);
    lemma_piece(point, kind + seq![32u8] + more);
    lemma_piece(device, point + seq![32u8] + (kind + seq![32u8] + more));
    encode_utf8_valid_utf8(fs_type);
    encode_utf8_decode_utf8(fs_type);
    let line = device + seq![32u8] + (point + seq![32u8] + (kind + seq![32u8] + more));
    let p = bytes::pieces(line, 32);
    let last = bytes::pieces(more, 32);
    assert(p =~= seq![device] + (seq![point] + (seq![kind] + last)));
    assert(p.len() >= 3);
    assert(p[0] == device && p[1] == point && p[2] == kind);
}

// ---------------------------------------------------------------------------------------------
// Connections

/// Whether no heading stands twice.
pub open spec fn are_distinct(headings: Seq<Seq<u8>>) -> bool {
    forall|i: int, j: int| 0 <= i < j < headings.len() ==> headings[i] != headings[j]
}

/// The number under a heading is that in the same place on the line of values.
pub proof fn values_stand_under_their_headings(
    headings: Seq<Seq<u8>>,
    values: Seq<Seq<u8>>,
    heading: Seq<char>,
    i: int,
)
    requires
        are_distinct(headings),
        0 <= i < headings.len() <= values.len(),
        headings[i] == encode_utf8(heading),
    ensures
        network::column(headings, values, heading) == linux::leading_number(values[i]),
    decreases headings.len(),
{
    if i < headings.len() - 1 {
        let shorter = headings.drop_last();
        assert(headings.last() != encode_utf8(heading));
        assert forall|a: int, b: int| 0 <= a < b < shorter.len() implies shorter[a] != shorter[b] by {
            assert(shorter[a] == headings[a] && shorter[b] == headings[b]);
        }
        values_stand_under_their_headings(shorter, values, heading, i);
    }
}

/// The counters of the transmission control protocol are those under their headings.
pub proof fn tcp_counters_are_read_back(headings: Seq<Seq<u8>>, values: Seq<u64>, i: int)
    requires
        are_distinct(headings),
        0 <= i < headings.len() == values.len(),
    ensures
        ({
            let t = network::tcp_columns(headings, numerals(values));
            &&& headings[i] == encode_utf8("CurrEstab"@) ==> t.curr_estab == values[i]
            &&& headings[i] == encode_utf8("RetransSegs"@) ==> t.retrans_segs == values[i]
            &&& headings[i] == encode_utf8("OutSegs"@) ==> t.out_segs == values[i]
            &&& headings[i] == encode_utf8("InErrs"@) ==> t.in_errs == values[i]
            &&& headings[i] == encode_utf8("InSegs"@) ==> t.in_segs == values[i]
        }),
{
    let v = numerals(values);
    lemma_number_alone(values[i]);
    assert(v[i] == number(values[i] as nat));
    if headings[i] == encode_utf8("CurrEstab"@) {
        values_stand_under_their_headings(headings, v, "CurrEstab"@, i);
    }
    if headings[i] == encode_utf8("RetransSegs"@) {
        values_stand_under_their_headings(headings, v, "RetransSegs"@, i);
    }
    if headings[i] == encode_utf8("OutSegs"@) {
        values_stand_under_their_headings(headings, v, "OutSegs"@, i);
    }
    if headings[i] == encode_utf8("InErrs"@) {
        values_stand_under_their_headings(headings, v, "InErrs"@, i);
    }
    if headings[i] == encode_utf8("InSegs"@) {
        values_stand_under_their_headings(headings, v, "InSegs"@, i);
    }
}

/// The counters come from the first line that starts with `Tcp:` and from the line behind it,
/// whatever stands before and behind.
pub proof fn tcp_lines_are_found(
    before: Seq<Seq<u8>>,
    headings: Seq<u8>,
    values: Seq<u8>,
    rest: Seq<u8>,
)
    requires
        are_lines(before),
        on_one_line(headings),
        on_one_line(values),
        bytes::begins_with(headings, "Tcp:"@),
        forall|i: int|
            0 <= i < before.len() ==> !bytes::begins_with(#[trigger] before[i], "Tcp:"@),
    ensures
        network::tcp_stat(
            file_of(before) + (headings + seq![10u8] + (values + seq![10u8] + rest)),
        ) == network::tcp_columns(bytes::pieces(headings, 32), bytes::pieces(values, 32)),
    decreases before.len(),
{
    let tail = values + seq![10u8] + rest;
    let own = headings + seq![10u8] + tail;
    if before.len() == 0 {
        let data = file_of(before) + own;
        assert(data =~= own);
        lemma_first_line(headings, tail);
        lemma_first_line(values, rest);
    } else {
        let more = before.skip(1);
        assert forall|i: int| 0 <= i < more.len() implies on_one_line(#[trigger] more[i])
            && !bytes::begins_with(more[i], "Tcp:"@) by {
            assert(more[i] == before[i + 1]);
        }
        tcp_lines_are_found(more, headings, values, rest);
        let data = file_of(before) + own;
        let next = file_of(more) + own;
        assert(data =~= before[0] + seq![10u8] + next);
        lemma_first_line(before[0], next);
    }
}

proof fn lemma_first_line(line: Seq<u8>, rest: Seq<u8>)
    requires
        on_one_line(line),
    ensures
        ({
            let data = line + seq![10u8] + rest;
            let n = bytes::find_either(data, 10, 10);
            &&& n == line.len() < data.len()
            &&& data.take(n) == line
            &&& data.skip(n + 1) == rest
        }),
{
    let data = line + seq![10u8] + rest;
    let n = line.len() as int;
    assert forall|i: int| 0 <= i < n implies data[i] != 10 by {
        assert(data[i] == line[i]);
    }
    assert(data[n] == 10);
    bytes::lemma_find_either_is(data, 10, 10, n);
    assert(data.take(n) =~= line);
    assert(data.skip(n + 1) =~= rest);
}

// ---------------------------------------------------------------------------------------------
// Control groups

/// The processors that a group may use are the quota divided by the period that its file holds.
pub proof fn processor_limits_are_read_back(quota: u64, period: u64, file: Vec<u8>)
    requires
        file@ == number(quota as nat) + seq![32u8] + number(period as nat) + seq![10u8],
    ensures
        period > 0 ==> (process::cpu_limit(Some(file)) matches Some(q) && q.is_fraction(
            quota as int,
            period as int,
        )),
        period == 0 ==> process::cpu_limit(Some(file)) is None,
{
    let (a, b) = (number(quota as nat), number(period as nat));
    let data = file@;
    lemma_number(quota as nat);
    lemma_number(period as nat);
    lemma_number_alone(quota);
    lemma_number_alone(period);
    lemma_not_max(data);
    assert forall|i: int| 0 <= i < a.len() implies data[i] != 32 && data[i] != 10 by {
        assert(data[i] == a[i]);
        assert(linux::is_digit_byte(a[i]));
    }
    assert(data[a.len() as int] == 32);
    bytes::lemma_find_either_is(data, 32, 10, a.len() as int);
    assert(data.take(a.len() as int) =~= a);
    let rest = data.skip(a.len() as int + 1);
    assert(rest =~= b + seq![10u8]);
    assert forall|i: int| 0 <= i < b.len() implies rest[i] != 32 && rest[i] != 10 by {
        assert(rest[i] == b[i]);
        assert(linux::is_digit_byte(b[i]));
    }
    assert(rest[b.len() as int] == 10);
    bytes::lemma_find_either_is(rest, 32, 10, b.len() as int);
    assert(rest.take(b.len() as int) =~= b);
    let end = rest.skip(b.len() as int + 1);
    assert(end =~= Seq::empty());
    assert(bytes::fields_by(end, 32, 10) =~= Seq::empty());
    assert(bytes::fields_by(rest, 32, 10) =~= seq![b]);
    assert(bytes::fields_by(data, 32, 10) =~= seq![a] + seq![b]);
}

/// What starts with a digit does not start with `max`.
proof fn lemma_not_max(data: Seq<u8>)
    requires
        data.len() > 0,
        linux::is_digit_byte(data[0]),
    ensures
        !bytes::begins_with(data, "max"@),
        !bytes::begins_with(data, "default "@),
{
    reveal_strlit("max");
    reveal_strlit("default ");
    is_ascii_chars_encode_utf8("max"@);
    is_ascii_chars_encode_utf8("default "@);
    assert("max"@[0] == 'm');
    assert("default "@[0] == 'd');
    if bytes::begins_with(data, "max"@) {
        assert(data.take(3)[0] == data[0]);
    }
    if bytes::begins_with(data, "default "@) {
        assert(data.take(8)[0] == data[0]);
    }
}

/// A limit on memory, and what is used of it, is the number that its file holds; `max` is no limit.
pub proof fn memory_limits_are_read_back(n: u64, file: Vec<u8>)
    ensures
        file@ == number(n as nat) + seq![10u8] ==> process::limit_value(Some(file)) == Some(n),
        bytes::begins_with(file@, "max"@) ==> process::limit_value(Some(file)) is None,
{
    if file@ == number(n as nat) + seq![10u8] {
        lemma_number(n as nat);
        assert(file@[0] == number(n as nat)[0]);
        lemma_not_max(file@);
        numbers_are_read_back(n, seq![10u8]);
    }
}

/// A weight is the number that its file holds, with or without the word `default` before it.
pub proof fn weights_are_read_back(n: u32, file: Vec<u8>)
    requires
        file@ == number(n as nat) + seq![10u8] || file@ == encode_utf8("default "@) + (number(
            n as nat,
        ) + seq![10u8]),
    ensures
        process::weight(Some(file)) == Some(n),
{
    let own = number(n as nat) + seq![10u8];
    lemma_number(n as nat);
    numbers_are_read_back(n as u64, seq![10u8]);
    assert(own[0] == number(n as nat)[0]);
    lemma_not_max(own);
    reveal_strlit("default ");
    is_ascii_chars_encode_utf8("default "@);
    if file@ != own {
        assert(file@.take(8) =~= encode_utf8("default "@));
        assert(file@.skip(8) =~= own);
    }
}

/// A control group takes each of its limits from the file that is named after it.
pub proof fn groups_take_their_own_files(data: Seq<u8>, files: process::CgroupFiles)
    ensures
        ({
            let g = process::group(Some(data), files);
            &&& process::has_files(g.path) ==> {
                &&& g.cpu_limit_cores == process::cpu_limit(files.cpu_max)
                &&& g.memory_limit_bytes == process::limit_value(files.memory_max)
                &&& g.memory_usage_bytes == process::limit_value(files.memory_current)
                &&& g.io_weight == process::weight(files.io_weight)
            }
            &&& !process::has_files(g.path) ==> {
                &&& g.cpu_limit_cores is None
                &&& g.memory_limit_bytes is None
                &&& g.memory_usage_bytes is None
                &&& g.io_weight is None
            }
        }),
{
}

/// The path of a group is what stands behind `0::`, on the first line that starts so.
pub proof fn group_paths_are_read_back(before: Seq<Seq<u8>>, path: Seq<char>, rest: Seq<Seq<u8>>)
    requires
        forall|i: int|
            0 <= i < before.len() ==> !bytes::begins_with(#[trigger] before[i], "0::"@),
    ensures
        process::group_path(
            before + seq![encode_utf8("0::"@) + encode_utf8(path)] + rest,
        ) == text::trimmed(text::lossy_text(encode_utf8(path))),
    decreases before.len(),
{
    let own = encode_utf8("0::"@) + encode_utf8(path);
    let all = before + seq![own] + rest;
    reveal_strlit("0::");
    is_ascii_chars_encode_utf8("0::"@);
    if before.len() == 0 {
        assert(all[0] == own);
        assert(own.take(3) =~= encode_utf8("0::"@));
        assert(own.skip(3) =~= encode_utf8(path));
    } else {
        let more = before.skip(1);
        assert forall|i: int| 0 <= i < more.len() implies !bytes::begins_with(
            #[trigger] more[i],
            "0::"@,
        ) by {
            assert(more[i] == before[i + 1]);
        }
        group_paths_are_read_back(more, path, rest);
        assert(all[0] == before[0]);
        assert(all.skip(1) =~= more + seq![own] + rest);
    }
}

/// The directories under `/proc` that are named by a number are processes, in the order in which
/// they are listed; those that do not begin with a digit are not.
pub proof fn processes_are_listed(names: Seq<Seq<u8>>, pid: u32, other: Seq<u8>)
    requires
        pid > 0,
        other.len() > 0,
        !linux::is_digit_byte(other[0]),
    ensures
        process::named_pids(names.push(number(pid as nat))) == process::named_pids(names).push(pid),
        process::named_pids(names.push(other)) == process::named_pids(names),
{
    lemma_number_alone(pid as u64);
    assert(names.push(number(pid as nat)).drop_last() =~= names);
    assert(names.push(other).drop_last() =~= names);
    linux::lemma_digit_run_is(other, 0);
    assert(other.take(0) =~= Seq::empty());
}

/// The first two lines on the interfaces are headings, whatever they hold; every other line counts.
pub proof fn two_headings_are_skipped(first: Seq<u8>, second: Seq<u8>, lines: Seq<Seq<u8>>)
    requires
        on_one_line(first),
        on_one_line(second),
        are_lines(lines),
    ensures
        network::interfaces(file_of(seq![first, second] + lines)) == network::interfaces_on(lines),
{
    let all = seq![first, second] + lines;
    assert forall|i: int| 0 <= i < all.len() implies on_one_line(#[trigger] all[i]) by {
        if i >= 2 {
            assert(all[i] == lines[i - 2]);
        }
    }
    lines_are_read_back(all);
    assert(all.skip(2) =~= lines);
    if lines.len() == 0 {
        assert(lines =~= Seq::empty());
    }
}

} // verus!
