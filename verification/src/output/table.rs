//! A dashboard for a terminal.
use crate::metrics::{
    CoreMetrics, CpuMetrics, DiskDevice, DiskMetrics, HistogramData, MemoryMetrics, NetworkInterface,
    NetworkMetrics, ProcessInfo, ProcessMetrics, Quantile, SystemSnapshot,
};
use crate::output::OutputBackend;
use crate::rounding;
use crate::text;
use vstd::prelude::*;
use vstd::utf8::*;

verus! {

/// The processes that are shown.
pub const SHOWN_PROCESSES: usize = 10;

/// The longest bar.
pub const BAR_WIDTH: usize = 20;

pub const KILO: u128 = 1024;

pub const MEGA: u128 = 0x10_0000;

pub const GIGA: u128 = 0x4000_0000;

pub const TERA: u128 = 0x100_0000_0000;

pub const PETA: u128 = 0x4_0000_0000_0000;

/// The unit in which a number of bytes is shown: the first in which it is below 1024.
pub open spec fn unit_size(d: nat) -> nat {
    if d < KILO {
        1
    } else if d < MEGA {
        KILO as nat
    } else if d < GIGA {
        MEGA as nat
    } else if d < TERA {
        GIGA as nat
    } else if d < PETA {
        TERA as nat
    } else {
        PETA as nat
    }
}

/// The letters for a unit.
pub open spec fn unit_name(d: nat) -> Seq<char> {
    if d < KILO {
        "B"@
    } else if d < MEGA {
        "KB"@
    } else if d < GIGA {
        "MB"@
    } else if d < TERA {
        "GB"@
    } else if d < PETA {
        "TB"@
    } else {
        "PB"@
    }
}

/// A number of bytes in a fitting unit, to one decimal. The number is first taken as a double; the
/// last digit is rounded to the nearest, halves to even.
pub open spec fn human(bytes: u64) -> Seq<char> {
    let d = rounding::nearest_double(bytes as nat);
    let tenths = rounding::round_half_even(10 * d, unit_size(d));
    text::decimal(tenths / 10) + "."@ + text::decimal(tenths % 10) + unit_name(d)
}

/// Whether text can be cut to so many bytes: it is short enough, or a character ends where it is
/// cut.
pub open spec fn can_cut(s: Seq<char>, max: int) -> bool {
    encode_utf8(s).len() <= max || (max >= 1 && is_char_boundary(encode_utf8(s), max - 1))
}

/// Text cut to so many bytes, with a mark in place of what is cut off.
pub open spec fn cut(s: Seq<char>, max: int) -> Seq<char> {
    if encode_utf8(s).len() <= max {
        s
    } else {
        decode_utf8(encode_utf8(s).subrange(0, max - 1)) + "…"@
    }
}

/// The figures for a core: the length of its bar, and its load to one decimal.
#[derive(Debug)]
pub struct CoreFigures {
    pub bar: usize,
    pub busy: String,
}

/// The figures for a disk: bytes per second, and its latencies to one decimal.
#[derive(Debug)]
pub struct DiskFigures {
    pub read: u64,
    pub write: u64,
    pub latencies: Vec<String>,
}

/// The figures for an interface: bytes per second.
#[derive(Debug, Clone, Copy)]
pub struct InterfaceFigures {
    pub rx: u64,
    pub tx: u64,
}

/// The readings of a snapshot in floating point, as they are shown: percentages and temperatures
/// to one decimal, the shares of segments to three, and rates in whole bytes per second.
#[derive(Debug)]
pub struct TableFigures {
    pub max_temp: String,
    pub user: String,
    pub system: String,
    pub softirq: String,
    pub hardirq: String,
    pub idle: String,
    pub cores: Vec<CoreFigures>,
    pub swap_in: u64,
    pub swap_out: u64,
    pub disks: Vec<DiskFigures>,
    pub retransmit: String,
    pub loss: String,
    pub interfaces: Vec<InterfaceFigures>,
    pub processes: Vec<String>,
}

/// How many processes are shown.
pub open spec fn shown(processes: nat) -> nat {
    if processes < SHOWN_PROCESSES {
        processes
    } else {
        SHOWN_PROCESSES as nat
    }
}

/// Whether there are figures for all that is shown.
pub open spec fn complete(s: SystemSnapshot, f: TableFigures) -> bool {
    &&& f.cores@.len() == s.cpu.per_core@.len()
    &&& f.disks@.len() == s.disk.devices@.len()
    &&& forall|i: int|
        0 <= i < s.disk.devices@.len() ==> (#[trigger] f.disks@[i]).latencies@.len()
            == s.disk.devices@[i].io_latency.quantiles@.len()
    &&& f.interfaces@.len() == s.network.interfaces@.len()
    &&& f.processes@.len() >= shown(s.processes.processes@.len())
}

/// Whether all texts that are shown cut off can be.
pub open spec fn can_show(s: SystemSnapshot) -> bool {
    &&& forall|i: int|
        0 <= i < s.disk.devices@.len() ==> can_cut(
            (#[trigger] s.disk.devices@[i]).mount_point@,
            20,
        )
    &&& forall|i: int|
        0 <= i < shown(s.processes.processes@.len()) ==> can_cut(
            (#[trigger] s.processes.processes@[i]).name@,
            16,
        ) && can_cut(s.processes.processes@[i].cgroup.path@, 20)
}

/// The heading of a part.
pub open spec fn heading(name: Seq<char>) -> Seq<char> {
    "\x1b[1;33m── "@ + name + " ──\x1b[0m\n"@
}

pub open spec fn header_text(s: SystemSnapshot, f: TableFigures) -> Seq<char> {
    "\x1b[2J\x1b[H\x1b[1;36m=== SysPulse Monitor === "@ + s.hostname@ + "\x1b[0m\nThermal: "@
        + f.max_temp@ + "°C max\n\n"@
}

/// A bar.
pub open spec fn bar(len: int) -> Seq<char> {
    Seq::new(
        if len < BAR_WIDTH {
            len as nat
        } else {
            BAR_WIDTH as nat
        },
        |i: int| '█',
    )
}

pub open spec fn core_text(core: CoreMetrics, f: CoreFigures) -> Seq<char> {
    "  core"@ + text::flush_right(text::decimal(core.core_id as nat), 2) + ": ["@
        + text::flush_left(bar(f.bar as int), 20) + "] "@ + f.busy@ + "%\n"@
}

pub open spec fn cores_text(cores: Seq<CoreMetrics>, f: Seq<CoreFigures>) -> Seq<char>
    decreases cores.len(),
{
    if cores.len() == 0 {
        Seq::empty()
    } else {
        cores_text(cores.drop_last(), f) + core_text(cores.last(), f[cores.len() - 1])
    }
}

pub open spec fn cpu_text(cores: Seq<CoreMetrics>, f: TableFigures) -> Seq<char> {
    heading("CPU"@) + "  Total: usr="@ + f.user@ + "% sys="@ + f.system@ + "% sirq="@ + f.softirq@
        + "% hirq="@ + f.hardirq@ + "% idle="@ + f.idle@ + "%\n"@ + cores_text(cores, f.cores@)
        + "\n"@
}

pub open spec fn memory_text(m: MemoryMetrics, f: TableFigures) -> Seq<char> {
    heading("Memory"@) + "  Total: "@ + human(m.total_bytes) + " | Used: "@ + human(m.used_bytes)
        + " | Avail: "@ + human(m.available_bytes) + " | Cached: "@ + human(m.cached_bytes)
        + "\n  Swap: "@ + human(m.swap_used_bytes) + "/"@ + human(m.swap_total_bytes) + " | In: "@
        + human(f.swap_in) + "/s Out: "@ + human(f.swap_out) + "/s\n\n"@
}

/// The latencies of a disk.
pub open spec fn latencies_text(quantiles: Seq<Quantile>, f: Seq<String>) -> Seq<char>
    decreases quantiles.len(),
{
    if quantiles.len() == 0 {
        Seq::empty()
    } else {
        latencies_text(quantiles.drop_last(), f) + " p"@ + text::decimal(
            quantiles.last().percent as nat,
        ) + "="@ + f[quantiles.len() - 1]@ + "ms"@
    }
}

/// The line with the latencies of a disk; none where there are none.
pub open spec fn latency_text(quantiles: Seq<Quantile>, f: Seq<String>) -> Seq<char> {
    if quantiles.len() > 0 {
        "    latency:"@ + latencies_text(quantiles, f) + "\n"@
    } else {
        Seq::empty()
    }
}

pub open spec fn device_text(d: DiskDevice, f: DiskFigures) -> Seq<char> {
    "  "@ + text::flush_left(cut(d.mount_point@, 20), 20) + " "@ + text::flush_left(
        d.fs_type@,
        8,
    ) + " "@ + text::flush_right(human(d.total_bytes), 10) + " "@ + text::flush_right(
        human(d.used_bytes),
        10,
    ) + " "@ + text::flush_right(human(f.read), 10) + " "@ + text::flush_right(human(f.write), 10)
        + "\n"@ + latency_text(d.io_latency.quantiles@, f.latencies@)
}

pub open spec fn devices_text(devices: Seq<DiskDevice>, f: Seq<DiskFigures>) -> Seq<char>
    decreases devices.len(),
{
    if devices.len() == 0 {
        Seq::empty()
    } else {
        devices_text(devices.drop_last(), f) + device_text(devices.last(), f[devices.len() - 1])
    }
}

pub open spec fn disk_text(devices: Seq<DiskDevice>, f: TableFigures) -> Seq<char> {
    heading("Disk"@) + "  "@ + text::flush_left("DEVICE"@, 20) + " "@ + text::flush_left("FS"@, 8)
        + " "@ + text::flush_right("TOTAL"@, 10) + " "@ + text::flush_right("USED"@, 10) + " "@
        + text::flush_right("RD/s"@, 10) + " "@ + text::flush_right("WR/s"@, 10) + "\n"@
        + devices_text(devices, f.disks@) + "\n"@
}

pub open spec fn interface_text(n: NetworkInterface, f: InterfaceFigures) -> Seq<char> {
    "  "@ + n.name@ + ": rx="@ + human(f.rx) + "/s tx="@ + human(f.tx) + "/s drop_rx="@
        + text::decimal(n.rx_dropped as nat) + " drop_tx="@ + text::decimal(n.tx_dropped as nat)
        + "\n"@
}

pub open spec fn interfaces_text(interfaces: Seq<NetworkInterface>, f: Seq<InterfaceFigures>) -> Seq<
    char,
>
    decreases interfaces.len(),
{
    if interfaces.len() == 0 {
        Seq::empty()
    } else {
        interfaces_text(interfaces.drop_last(), f) + interface_text(
            interfaces.last(),
            f[interfaces.len() - 1],
        )
    }
}

pub open spec fn network_text(n: NetworkMetrics, f: TableFigures) -> Seq<char> {
    heading("Network"@) + "  TCP conns: "@ + text::decimal(n.tcp_connections as nat)
        + " | Retransmit: "@ + f.retransmit@ + "% | Loss: "@ + f.loss@ + "%\n"@ + interfaces_text(
        n.interfaces@,
        f.interfaces@,
    ) + "\n"@
}

pub open spec fn process_text(p: ProcessInfo, cpu: Seq<char>) -> Seq<char> {
    "  "@ + text::flush_right(text::decimal(p.pid as nat), 6) + " "@ + text::flush_right(
        text::decimal(p.ppid as nat),
        6,
    ) + " "@ + text::flush_left(cut(p.name@, 16), 16) + " "@ + text::flush_right(cpu, 5) + "% "@
        + text::flush_right(human(p.mem_bytes), 10) + " "@ + text::flush_right(
        text::decimal(p.open_fds as nat),
        6,
    ) + " "@ + text::flush_left(cut(p.cgroup.path@, 20), 20) + "\n"@
}

pub open spec fn processes_text(processes: Seq<ProcessInfo>, f: Seq<String>) -> Seq<char>
    decreases processes.len(),
{
    if processes.len() == 0 {
        Seq::empty()
    } else {
        processes_text(processes.drop_last(), f) + process_text(
            processes.last(),
            f[processes.len() - 1]@,
        )
    }
}

pub open spec fn top_text(processes: Seq<ProcessInfo>, f: TableFigures) -> Seq<char> {
    heading("Top Processes"@) + "  "@ + text::flush_right("PID"@, 6) + " "@ + text::flush_right(
        "PPID"@,
        6,
    ) + " "@ + text::flush_left("NAME"@, 16) + " "@ + text::flush_right("CPU%"@, 6) + " "@
        + text::flush_right("MEM"@, 10) + " "@ + text::flush_right("FDs"@, 6) + " "@
        + text::flush_left("CGROUP"@, 20) + "\n"@ + processes_text(
        processes.take(shown(processes.len()) as int),
        f.processes@,
    )
}

/// The dashboard for a snapshot.
pub open spec fn dashboard(s: SystemSnapshot, f: TableFigures) -> Seq<char> {
    header_text(s, f) + cpu_text(s.cpu.per_core@, f) + memory_text(s.memory, f) + disk_text(
        s.disk.devices@,
        f,
    ) + network_text(s.network, f) + top_text(s.processes.processes@, f)
}

/// Shows snapshots in a terminal.
pub struct TableBackend;

impl TableBackend {
    /// The format; it keeps nothing between snapshots.
    pub fn new() -> (res: Self)
        ensures
            res == TableBackend,
    {
        TableBackend
    }

    /// A number of bytes in a fitting unit.
    pub fn human_bytes(bytes: u64) -> (res: String)
        ensures
            res@ == human(bytes),
    {
        let d: u128 = rounding::to_double(bytes as u128);
        let (size, unit): (u128, &'static str) = if d < KILO {
            (1, "B")
        } else if d < MEGA {
            (KILO, "KB")
        } else if d < GIGA {
            (MEGA, "MB")
        } else if d < TERA {
            (GIGA, "GB")
        } else if d < PETA {
            (TERA, "TB")
        } else {
            (PETA, "PB")
        };
        let tenths: u128 = rounding::divide_rounded(10 * d, size);
        proof {
            lemma_tenths_small(10 * d as nat, size as nat);
        }
        let mut out: String = text::decimal_string((tenths / 10) as u64);
        out.append(".");
        text::push_decimal(&mut out, (tenths % 10) as u64);
        out.append(unit);
        out
    }

    /// Whether text can be cut to so many bytes.
    pub fn can_truncate(s: &str, max: usize) -> (res: bool)
        ensures
            res == can_cut(s@, max as int),
    {
        let bytes: &[u8] = s.as_bytes();
        bytes.len() <= max || (max >= 1 && s.is_char_boundary(max - 1))
    }

    /// Text cut to so many bytes, with a mark in place of what is cut off.
    pub fn truncate(s: &str, max: usize) -> (res: String)
        requires
            can_cut(s@, max as int),
        ensures
            res@ == cut(s@, max as int),
    {
        let bytes: &[u8] = s.as_bytes();
        if bytes.len() <= max {
            return s.to_owned();
        }
        let (kept, rest): (&str, &str) = s.split_at(max - 1);
        proof {
            encode_utf8_decode_utf8(kept@);
        }
        let mut out: String = kept.to_owned();
        out.append("…");
        out
    }
}

/// A quotient of moderate size stays so when it is rounded.
proof fn lemma_tenths_small(num: nat, den: nat)
    requires
        num <= 0x20_0000_0000_0000_0000,
        den > 0,
    ensures
        rounding::round_half_even(num, den) <= num + 1,
{
    assert(num / den <= num) by (nonlinear_arith)
        requires
            den > 0,
            num >= 0,
    ;
}

impl OutputBackend for TableBackend {
    fn name(&self) -> (res: &'static str)
        ensures
            res@ == "table"@,
    {
        "table"
    }
}

fn heading_line(name: &str) -> (res: String)
    ensures
        res@ == heading(name@),
{
    let mut out: String = "\x1b[1;33m── ".to_owned();
    out.append(name);
    out.append(" ──\x1b[0m\n");
    out
}

fn push_human(buf: &mut String, bytes: u64)
    ensures
        final(buf)@ == old(buf)@ + human(bytes),
{
    buf.append(TableBackend::human_bytes(bytes).as_str());
}

fn push_human_right(buf: &mut String, bytes: u64, width: usize)
    ensures
        final(buf)@ == old(buf)@ + text::flush_right(human(bytes), width as int),
{
    text::push_right(buf, TableBackend::human_bytes(bytes).as_str(), width);
}

fn push_decimal_right(buf: &mut String, n: u64, width: usize)
    ensures
        final(buf)@ == old(buf)@ + text::flush_right(text::decimal(n as nat), width as int),
{
    text::push_right(buf, text::decimal_string(n).as_str(), width);
}

fn header_part(s: &SystemSnapshot, f: &TableFigures) -> (res: String)
    ensures
        res@ == header_text(*s, *f),
{
    let mut out: String = "\x1b[2J\x1b[H\x1b[1;36m=== SysPulse Monitor === ".to_owned();
    out.append(s.hostname.as_str());
    out.append("\x1b[0m\nThermal: ");
    out.append(f.max_temp.as_str());
    out.append("°C max\n\n");
    out
}

fn make_bar(len: usize) -> (res: String)
    ensures
        res@ == bar(len as int),
{
    let n: usize = if len < BAR_WIDTH {
        len
    } else {
        BAR_WIDTH
    };
    let mut out: String = String::new();
    let mut i: usize = 0;
    while i < n
        invariant
            0 <= i <= n <= BAR_WIDTH,
            out@ == bar(i as int),
        decreases n - i,
    {
        out.push('█');
        i = i + 1;
        assert(out@ =~= bar(i as int));
    }
    assert(out@ =~= bar(len as int));
    out
}

fn core_line(core: &CoreMetrics, f: &CoreFigures) -> (res: String)
    ensures
        res@ == core_text(*core, *f),
{
    let mut out: String = "  core".to_owned();
    push_decimal_right(&mut out, core.core_id as u64, 2);
    out.append(": [");
    text::push_left(&mut out, make_bar(f.bar).as_str(), 20);
    out.append("] ");
    out.append(f.busy.as_str());
    out.append("%\n");
    out
}

fn core_lines(cores: &Vec<CoreMetrics>, f: &Vec<CoreFigures>) -> (res: String)
    requires
        f@.len() == cores@.len(),
    ensures
        res@ == cores_text(cores@, f@),
{
    let mut out: String = String::new();
    let mut i: usize = 0;
    while i < cores.len()
        invariant
            0 <= i <= cores@.len(),
            f@.len() == cores@.len(),
            out@ == cores_text(cores@.take(i as int), f@),
        decreases cores@.len() - i,
    {
        assert(cores@.take(i + 1).drop_last() =~= cores@.take(i as int));
        out.append(core_line(&cores[i], &f[i]).as_str());
        i = i + 1;
    }
    assert(cores@.take(i as int) =~= cores@);
    out
}

fn cpu_part(cpu: &CpuMetrics, f: &TableFigures) -> (res: String)
    requires
        f.cores@.len() == cpu.per_core@.len(),
    ensures
        res@ == cpu_text(cpu.per_core@, *f),
{
    let mut out: String = heading_line("CPU");
    out.append("  Total: usr=");
    out.append(f.user.as_str());
    out.append("% sys=");
    out.append(f.system.as_str());
    out.append("% sirq=");
    out.append(f.softirq.as_str());
    out.append("% hirq=");
    out.append(f.hardirq.as_str());
    out.append("% idle=");
    out.append(f.idle.as_str());
    out.append("%\n");
    out.append(core_lines(&cpu.per_core, &f.cores).as_str());
    out.append("\n");
    out
}

fn memory_part(m: &MemoryMetrics, f: &TableFigures) -> (res: String)
    ensures
        res@ == memory_text(*m, *f),
{
    let mut out: String = heading_line("Memory");
    out.append("  Total: ");
    push_human(&mut out, m.total_bytes);
    out.append(" | Used: ");
    push_human(&mut out, m.used_bytes);
    out.append(" | Avail: ");
    push_human(&mut out, m.available_bytes);
    out.append(" | Cached: ");
    push_human(&mut out, m.cached_bytes);
    out.append("\n  Swap: ");
    push_human(&mut out, m.swap_used_bytes);
    out.append("/");
    push_human(&mut out, m.swap_total_bytes);
    out.append(" | In: ");
    push_human(&mut out, f.swap_in);
    out.append("/s Out: ");
    push_human(&mut out, f.swap_out);
    out.append("/s\n\n");
    out
}

fn latency_list(quantiles: &Vec<Quantile>, f: &Vec<String>) -> (res: String)
    requires
        f@.len() == quantiles@.len(),
    ensures
        res@ == latencies_text(quantiles@, f@),
{
    let mut out: String = String::new();
    let mut i: usize = 0;
    while i < quantiles.len()
        invariant
            0 <= i <= quantiles@.len(),
            f@.len() == quantiles@.len(),
            out@ == latencies_text(quantiles@.take(i as int), f@),
        decreases quantiles@.len() - i,
    {
        assert(quantiles@.take(i + 1).drop_last() =~= quantiles@.take(i as int));
        out.append(" p");
        text::push_decimal(&mut out, quantiles[i].percent as u64);
        out.append("=");
        out.append(f[i].as_str());
        out.append("ms");
        i = i + 1;
    }
    assert(quantiles@.take(i as int) =~= quantiles@);
    out
}

fn latency_line(histogram: &HistogramData, f: &Vec<String>) -> (res: String)
    requires
        f@.len() == histogram.quantiles@.len(),
    ensures
        res@ == latency_text(histogram.quantiles@, f@),
{
    if histogram.quantiles.len() == 0 {
        return String::new();
    }
    let mut out: String = "    latency:".to_owned();
    out.append(latency_list(&histogram.quantiles, f).as_str());
    out.append("\n");
    out
}

fn device_line(d: &DiskDevice, f: &DiskFigures) -> (res: String)
    requires
        can_cut(d.mount_point@, 20),
        f.latencies@.len() == d.io_latency.quantiles@.len(),
    ensures
        res@ == device_text(*d, *f),
{
    let mut out: String = "  ".to_owned();
    text::push_left(&mut out, TableBackend::truncate(d.mount_point.as_str(), 20).as_str(), 20);
    out.append(" ");
    text::push_left(&mut out, d.fs_type.as_str(), 8);
    out.append(" ");
    push_human_right(&mut out, d.total_bytes, 10);
    out.append(" ");
    push_human_right(&mut out, d.used_bytes, 10);
    out.append(" ");
    push_human_right(&mut out, f.read, 10);
    out.append(" ");
    push_human_right(&mut out, f.write, 10);
    out.append("\n");
    out.append(latency_line(&d.io_latency, &f.latencies).as_str());
    out
}

fn device_lines(devices: &Vec<DiskDevice>, f: &Vec<DiskFigures>) -> (res: String)
    requires
        f@.len() == devices@.len(),
        forall|i: int|
            0 <= i < devices@.len() ==> (#[trigger] f@[i]).latencies@.len()
                == devices@[i].io_latency.quantiles@.len(),
        forall|i: int|
            0 <= i < devices@.len() ==> can_cut((#[trigger] devices@[i]).mount_point@, 20),
    ensures
        res@ == devices_text(devices@, f@),
{
    let mut out: String = String::new();
    let mut i: usize = 0;
    while i < devices.len()
        invariant
            0 <= i <= devices@.len(),
            f@.len() == devices@.len(),
            forall|j: int|
                0 <= j < devices@.len() ==> (#[trigger] f@[j]).latencies@.len()
                    == devices@[j].io_latency.quantiles@.len(),
            forall|j: int|
                0 <= j < devices@.len() ==> can_cut((#[trigger] devices@[j]).mount_point@, 20),
            out@ == devices_text(devices@.take(i as int), f@),
        decreases devices@.len() - i,
    {
        assert(devices@.take(i + 1).drop_last() =~= devices@.take(i as int));
        assert(can_cut(devices@[i as int].mount_point@, 20));
        assert(f@[i as int].latencies@.len() == devices@[i as int].io_latency.quantiles@.len());
        out.append(device_line(&devices[i], &f[i]).as_str());
        i = i + 1;
    }
    assert(devices@.take(i as int) =~= devices@);
    out
}

fn disk_part(disk: &DiskMetrics, f: &TableFigures) -> (res: String)
    requires
        f.disks@.len() == disk.devices@.len(),
        forall|i: int|
            0 <= i < disk.devices@.len() ==> (#[trigger] f.disks@[i]).latencies@.len()
                == disk.devices@[i].io_latency.quantiles@.len(),
        forall|i: int|
            0 <= i < disk.devices@.len() ==> can_cut(
                (#[trigger] disk.devices@[i]).mount_point@,
                20,
            ),
    ensures
        res@ == disk_text(disk.devices@, *f),
{
    let mut out: String = heading_line("Disk");
    out.append("  ");
    text::push_left(&mut out, "DEVICE", 20);
    out.append(" ");
    text::push_left(&mut out, "FS", 8);
    out.append(" ");
    text::push_right(&mut out, "TOTAL", 10);
    out.append(" ");
    text::push_right(&mut out, "USED", 10);
    out.append(" ");
    text::push_right(&mut out, "RD/s", 10);
    out.append(" ");
    text::push_right(&mut out, "WR/s", 10);
    out.append("\n");
    out.append(device_lines(&disk.devices, &f.disks).as_str());
    out.append("\n");
    out
}

fn interface_line(n: &NetworkInterface, f: &InterfaceFigures) -> (res: String)
    ensures
        res@ == interface_text(*n, *f),
{
    let mut out: String = "  ".to_owned();
    out.append(n.name.as_str());
    out.append(": rx=");
    push_human(&mut out, f.rx);
    out.append("/s tx=");
    push_human(&mut out, f.tx);
    out.append("/s drop_rx=");
    text::push_decimal(&mut out, n.rx_dropped);
    out.append(" drop_tx=");
    text::push_decimal(&mut out, n.tx_dropped);
    out.append("\n");
    out
}

fn interface_lines(interfaces: &Vec<NetworkInterface>, f: &Vec<InterfaceFigures>) -> (res: String)
    requires
        f@.len() == interfaces@.len(),
    ensures
        res@ == interfaces_text(interfaces@, f@),
{
    let mut out: String = String::new();
    let mut i: usize = 0;
    while i < interfaces.len()
        invariant
            0 <= i <= interfaces@.len(),
            f@.len() == interfaces@.len(),
            out@ == interfaces_text(interfaces@.take(i as int), f@),
        decreases interfaces@.len() - i,
    {
        assert(interfaces@.take(i + 1).drop_last() =~= interfaces@.take(i as int));
        out.append(interface_line(&interfaces[i], &f[i]).as_str());
        i = i + 1;
    }
    assert(interfaces@.take(i as int) =~= interfaces@);
    out
}

fn network_part(n: &NetworkMetrics, f: &TableFigures) -> (res: String)
    requires
        f.interfaces@.len() == n.interfaces@.len(),
    ensures
        res@ == network_text(*n, *f),
{
    let mut out: String = heading_line("Network");
    out.append("  TCP conns: ");
    text::push_decimal(&mut out, n.tcp_connections);
    out.append(" | Retransmit: ");
    out.append(f.retransmit.as_str());
    out.append("% | Loss: ");
    out.append(f.loss.as_str());
    out.append("%\n");
    out.append(interface_lines(&n.interfaces, &f.interfaces).as_str());
    out.append("\n");
    out
}

fn process_line(p: &ProcessInfo, cpu: &str) -> (res: String)
    requires
        can_cut(p.name@, 16),
        can_cut(p.cgroup.path@, 20),
    ensures
        res@ == process_text(*p, cpu@),
{
    let mut out: String = "  ".to_owned();
    push_decimal_right(&mut out, p.pid as u64, 6);
    out.append(" ");
    push_decimal_right(&mut out, p.ppid as u64, 6);
    out.append(" ");
    text::push_left(&mut out, TableBackend::truncate(p.name.as_str(), 16).as_str(), 16);
    out.append(" ");
    text::push_right(&mut out, cpu, 5);
    out.append("% ");
    push_human_right(&mut out, p.mem_bytes, 10);
    out.append(" ");
    push_decimal_right(&mut out, p.open_fds, 6);
    out.append(" ");
    text::push_left(&mut out, TableBackend::truncate(p.cgroup.path.as_str(), 20).as_str(), 20);
    out.append("\n");
    out
}

fn process_lines(processes: &Vec<ProcessInfo>, f: &Vec<String>) -> (res: String)
    requires
        f@.len() >= shown(processes@.len()),
        forall|i: int|
            0 <= i < shown(processes@.len()) ==> can_cut((#[trigger] processes@[i]).name@, 16)
                && can_cut(processes@[i].cgroup.path@, 20),
    ensures
        res@ == processes_text(processes@.take(shown(processes@.len()) as int), f@),
{
    let ghost all = processes@;
    let ghost listed = all.take(shown(all.len()) as int);
    let mut out: String = String::new();
    let mut i: usize = 0;
    while i < processes.len() && i < SHOWN_PROCESSES
        invariant
            0 <= i <= shown(all.len()),
            all == processes@,
            listed == all.take(shown(all.len()) as int),
            f@.len() >= shown(all.len()),
            forall|j: int|
                0 <= j < shown(all.len()) ==> can_cut((#[trigger] all[j]).name@, 16) && can_cut(
                    all[j].cgroup.path@,
                    20,
                ),
            out@ == processes_text(listed.take(i as int), f@),
        decreases all.len() - i,
    {
        assert(listed.take(i + 1).drop_last() =~= listed.take(i as int));
        assert(can_cut(all[i as int].name@, 16));
        out.append(process_line(&processes[i], f[i].as_str()).as_str());
        i = i + 1;
    }
    assert(listed.take(i as int) =~= listed);
    out
}

fn top_part(processes: &ProcessMetrics, f: &TableFigures) -> (res: String)
    requires
        f.processes@.len() >= shown(processes.processes@.len()),
        forall|i: int|
            0 <= i < shown(processes.processes@.len()) ==> can_cut(
                (#[trigger] processes.processes@[i]).name@,
                16,
            ) && can_cut(processes.processes@[i].cgroup.path@, 20),
    ensures
        res@ == top_text(processes.processes@, *f),
{
    let mut out: String = heading_line("Top Processes");
    out.append("  ");
    text::push_right(&mut out, "PID", 6);
    out.append(" ");
    text::push_right(&mut out, "PPID", 6);
    out.append(" ");
    text::push_left(&mut out, "NAME", 16);
    out.append(" ");
    text::push_right(&mut out, "CPU%", 6);
    out.append(" ");
    text::push_right(&mut out, "MEM", 10);
    out.append(" ");
    text::push_right(&mut out, "FDs", 6);
    out.append(" ");
    text::push_left(&mut out, "CGROUP", 20);
    out.append("\n");
    out.append(process_lines(&processes.processes, &f.processes).as_str());
    out
}

impl TableBackend {
    /// Whether all texts that are shown cut off can be.
    pub fn can_render(snapshot: &SystemSnapshot) -> (res: bool)
        ensures
            res == can_show(*snapshot),
    {
        let devices: &Vec<DiskDevice> = &snapshot.disk.devices;
        let mut i: usize = 0;
        while i < devices.len()
            invariant
                0 <= i <= devices@.len(),
                devices@ == snapshot.disk.devices@,
                forall|j: int|
                    0 <= j < i ==> can_cut((#[trigger] devices@[j]).mount_point@, 20),
            decreases devices@.len() - i,
        {
            if !TableBackend::can_truncate(devices[i].mount_point.as_str(), 20) {
                assert(!can_cut(snapshot.disk.devices@[i as int].mount_point@, 20));
                return false;
            }
            i = i + 1;
        }
        let processes: &Vec<ProcessInfo> = &snapshot.processes.processes;
        let mut k: usize = 0;
        while k < processes.len() && k < SHOWN_PROCESSES
            invariant
                0 <= k <= shown(processes@.len()),
                processes@ == snapshot.processes.processes@,
                forall|j: int|
                    0 <= j < k ==> can_cut((#[trigger] processes@[j]).name@, 16) && can_cut(
                        processes@[j].cgroup.path@,
                        20,
                    ),
            decreases processes@.len() - k,
        {
            let p: &ProcessInfo = &processes[k];
            if !TableBackend::can_truncate(p.name.as_str(), 16) || !TableBackend::can_truncate(
                p.cgroup.path.as_str(),
                20,
            ) {
                assert(snapshot.processes.processes@[k as int] == *p);
                return false;
            }
            k = k + 1;
        }
        true
    }

    /// The dashboard for a snapshot, with figures for all that is shown.
    pub fn render(&self, snapshot: &SystemSnapshot, figures: &TableFigures) -> (res: String)
        requires
            complete(*snapshot, *figures),
            can_show(*snapshot),
        ensures
            res@ == dashboard(*snapshot, *figures),
    {
        let mut buf: String = header_part(snapshot, figures);
        buf.append(cpu_part(&snapshot.cpu, figures).as_str());
        buf.append(memory_part(&snapshot.memory, figures).as_str());
        buf.append(disk_part(&snapshot.disk, figures).as_str());
        buf.append(network_part(&snapshot.network, figures).as_str());
        buf.append(top_part(&snapshot.processes, figures).as_str());
        buf
    }
}

/// Fewer than 1024 bytes, or as many kibibytes, are shown exactly.
pub proof fn whole_units_are_exact(n: u64)
    requires
        n < 1024,
    ensures
        human(n) == text::decimal(n as nat) + "."@ + text::decimal(0) + "B"@,
        human((n * 1024) as u64) == if n == 0 {
            text::decimal(0) + "."@ + text::decimal(0) + "B"@
        } else {
            text::decimal(n as nat) + "."@ + text::decimal(0) + "KB"@
        },
{
    rounding::small_integers_are_doubles(n as nat);
    rounding::small_integers_are_doubles((n * 1024) as nat);
    rounding::rounding_exact((10 * n) as nat, 1);
    rounding::rounding_exact((10 * n) as nat, 1024);
}

/// Whether a number of bytes is shown in a unit: the greatest of six, each 1024 times the one
/// before, that is not greater than the number.
pub open spec fn is_unit_of(n: u64, unit: nat, name: Seq<char>) -> bool {
    ||| unit == 1 && name == "B"@ && n < 1024
    ||| unit == 1024 && name == "KB"@ && 1024 <= n && n < 1_048_576
    ||| unit == 1_048_576 && name == "MB"@ && 1_048_576 <= n && n < 1_073_741_824
    ||| unit == 1_073_741_824 && name == "GB"@ && 1_073_741_824 <= n && n < 1_099_511_627_776
    ||| unit == 1_099_511_627_776 && name == "TB"@ && 1_099_511_627_776 <= n && n
        < 1_125_899_906_842_624
    ||| unit == 1_125_899_906_842_624 && name == "PB"@ && 1_125_899_906_842_624 <= n
}

/// Whether some text is so many tenths of a unit, and these are as near to a number of bytes as
/// tenths can be.
pub open spec fn is_tenths(s: Seq<char>, n: u64, tenths: nat, unit: nat, name: Seq<char>) -> bool {
    &&& s == text::decimal(tenths / 10) + "."@ + text::decimal(tenths % 10) + name
    &&& 2 * (10 * n - tenths * unit) <= unit
    &&& 2 * (tenths * unit - 10 * n) <= unit
}

/// A number of bytes that a double holds is shown in its unit, to the nearest tenth of it.
pub proof fn sizes_are_shown_to_the_tenth(n: u64, unit: nat, name: Seq<char>)
    requires
        n < 0x20_0000_0000_0000,
        is_unit_of(n, unit, name),
    ensures
        exists|tenths: nat| is_tenths(human(n), n, tenths, unit, name),
{
    rounding::small_integers_are_doubles(n as nat);
    let num = (10 * n) as nat;
    let tenths = rounding::round_half_even(num, unit);
    assert(unit_size(n as nat) == unit && unit_name(n as nat) == name);
    let (q, r) = (num / unit, num % unit);
    vstd::arithmetic::div_mod::lemma_fundamental_div_mod(num as int, unit as int);
    vstd::arithmetic::div_mod::lemma_mod_bound(num as int, unit as int);
    assert(unit * q == q * unit) by (nonlinear_arith);
    assert((q + 1) * unit == q * unit + unit) by (nonlinear_arith);
    assert(tenths == q || tenths == q + 1);
    assert(is_tenths(human(n), n, tenths, unit, name));
}

} // verus!
