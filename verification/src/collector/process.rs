//! Processes, from `/proc` and the control group file system.
//!
//! A collection has three steps. The numbers of all processes come out of the directory records of
//! `/proc`; their `stat` files are surveyed; and of the busiest ones the open files and the control
//! groups are filled in.
use crate::bytes;
use crate::collector;
use crate::collector::{CollectorError, FileRead, IoError};
use crate::metrics;
use crate::metrics::{CgroupInfo, CgroupView, ProcessInfo, ProcessMetrics, ProcessView, Quantity};
use crate::platform::linux;
use crate::platform::linux::syscall;
use crate::ranking;
use crate::share;
use crate::soundness;
use crate::text;
use std::collections::HashMap;
use vstd::prelude::*;

verus! {

/// The bytes in a page of resident memory.
pub const PAGE_SIZE: u64 = 4096;

/// The clock ticks per second in which the kernel counts processor time.
pub const CLOCK_TICKS_PER_SEC: u64 = 100;

/// An interval this short, in nanoseconds, shows no processor share.
pub const SHORTEST_INTERVAL: u64 = 1_000_000;

/// The number of processes that are reported.
pub const MAX_PROCESSES: usize = 50;

/// The processor time of a process, in clock ticks.
#[derive(Debug, Clone, Copy, PartialEq, Eq, Structural)]
pub struct ProcTicks {
    pub utime: u64,
    pub stime: u64,
}

/// A number reduced to 32 bits.
pub open spec fn low_u32(n: u64) -> u32 {
    (n % 0x1_0000_0000) as u32
}

/// The process number that a directory entry names: the digits it starts with, reduced to 32
/// bits. Zero is no process.
pub open spec fn named_pid(name: Seq<u8>) -> u32 {
    low_u32(linux::leading_number(name))
}

/// The process numbers among some names.
pub open spec fn named_pids(names: Seq<Seq<u8>>) -> Seq<u32>
    decreases names.len(),
{
    if names.len() == 0 {
        Seq::empty()
    } else {
        let before = named_pids(names.drop_last());
        if named_pid(names.last()) > 0 {
            before.push(named_pid(names.last()))
        } else {
            before
        }
    }
}

/// Appends the process numbers in a chunk of directory records.
pub fn push_pids(pids: &mut Vec<u32>, chunk: &[u8])
    ensures
        final(pids)@ == old(pids)@ + named_pids(syscall::entry_names(chunk@)),
{
    let names: Vec<&[u8]> = syscall::split_entries(chunk);
    let ghost all = syscall::entry_names(chunk@);
    let mut i: usize = 0;
    assert(pids@ + Seq::<u32>::empty() =~= pids@);
    while i < names.len()
        invariant
            0 <= i <= names@.len(),
            all == bytes::contents(names@),
            pids@ == old(pids)@ + named_pids(all.take(i as int)),
        decreases names@.len() - i,
    {
        let pid: u32 = (linux::parse_u64_from_bytes(names[i]) % 0x1_0000_0000) as u32;
        proof {
            assert(all.take(i + 1).drop_last() =~= all.take(i as int));
            assert(all.take(i + 1).last() == names@[i as int]@);
        }
        if pid > 0 {
            pids.push(pid);
            assert(pids@ =~= old(pids)@ + named_pids(all.take(i + 1)));
        }
        i = i + 1;
    }
    assert(all.take(names@.len() as int) =~= all);
}

/// The path of a file of a process, with the byte that ends it for the kernel.
pub open spec fn proc_path(pid: u32, file: Seq<char>) -> Seq<char> {
    "/proc/"@ + text::decimal(pid as nat) + "/"@ + file + "\0"@
}

/// The path of a file of a process.
pub fn format_proc_path(pid: u32, file: &str) -> (res: String)
    ensures
        res@ == proc_path(pid, file@),
{
    let mut path: String = "/proc/".to_owned();
    text::push_decimal(&mut path, pid as u64);
    path.append("/");
    path.append(file);
    path.append("\0");
    path
}

/// The index of the last byte equal to `b`, or -1 where there is none.
pub open spec fn last_index(data: Seq<u8>, b: u8) -> int
    decreases data.len(),
{
    if data.len() == 0 {
        -1
    } else if data.last() == b {
        data.len() - 1
    } else {
        last_index(data.drop_last(), b)
    }
}

/// Where the name of a process opens: at the first opening parenthesis.
pub open spec fn comm_open(stat: Seq<u8>) -> int {
    bytes::find_either(stat, 40, 40)
}

/// Where the name of a process closes: at the last closing parenthesis, as the name may itself
/// hold parentheses.
pub open spec fn comm_close(stat: Seq<u8>) -> int {
    last_index(stat, 41)
}

/// Whether the two parentheses, where both are there, come in this order.
pub open spec fn comm_ordered(stat: Seq<u8>) -> bool {
    comm_open(stat) < stat.len() && comm_close(stat) >= 0 ==> comm_open(stat) < comm_close(stat)
}

/// What stands in the parentheses.
pub open spec fn comm(stat: Seq<u8>) -> Seq<u8> {
    stat.subrange(comm_open(stat) + 1, comm_close(stat))
}

/// What follows the closing parenthesis and the byte after it.
pub open spec fn after_comm(stat: Seq<u8>) -> Seq<u8> {
    if comm_close(stat) + 2 < stat.len() {
        stat.skip(comm_close(stat) + 2)
    } else {
        Seq::empty()
    }
}

/// The share of a processor that a process used since an earlier count of its ticks. Over too
/// short an interval, and where there is no earlier count, it shows none.
pub open spec fn processor_share(prev: Option<ProcTicks>, cur: ProcTicks, elapsed_ns: u64) -> Quantity {
    match prev {
        Some(p) if elapsed_ns > SHORTEST_INTERVAL => Quantity::TickShare {
            ticks: cur.utime.wrapping_sub(p.utime).wrapping_add(cur.stime.wrapping_sub(p.stime)),
            ticks_per_sec: CLOCK_TICKS_PER_SEC,
            elapsed_ns,
        },
        _ => Quantity::Whole(0),
    }
}

/// The processor time on a `stat` line.
pub open spec fn stat_ticks(stat: Seq<u8>) -> ProcTicks {
    let f = bytes::fields(after_comm(stat));
    ProcTicks { utime: linux::leading_number(f[11]), stime: linux::leading_number(f[12]) }
}

/// The process on a `stat` line, before its files and control group are looked at.
pub open spec fn stat_process(
    pid: u32,
    stat: Seq<u8>,
    prev: Option<ProcTicks>,
    elapsed_ns: u64,
) -> ProcessView {
    let f = bytes::fields(after_comm(stat));
    ProcessView {
        pid,
        ppid: low_u32(linux::leading_number(f[1])),
        name: text::lossy_text(comm(stat)),
        state: text::text_or(f[0], "?"@),
        cpu_pct: processor_share(prev, stat_ticks(stat), elapsed_ns),
        mem_bytes: linux::leading_number(f[21]).wrapping_mul(PAGE_SIZE),
        open_fds: 0,
        threads: low_u32(linux::leading_number(f[17])),
        cgroup: metrics::bare_cgroup(Seq::empty()),
        children: Seq::empty(),
    }
}

/// What is wrong with a `stat` line, if anything.
pub open spec fn stat_fault(stat: Seq<u8>) -> Option<Seq<char>> {
    if comm_open(stat) == stat.len() {
        Some("no ("@)
    } else if comm_close(stat) < 0 {
        Some("no )"@)
    } else if bytes::fields(after_comm(stat)).len() < 22 {
        Some("stat too short"@)
    } else {
        None
    }
}

pub proof fn lemma_last_index(data: Seq<u8>, b: u8)
    ensures
        -1 <= last_index(data, b) < data.len(),
        last_index(data, b) >= 0 ==> data[last_index(data, b)] == b,
        forall|i: int| last_index(data, b) < i < data.len() ==> data[i] != b,
    decreases data.len(),
{
    if data.len() > 0 && data.last() != b {
        let before = data.drop_last();
        lemma_last_index(before, b);
        assert forall|i: int| last_index(data, b) < i < data.len() implies data[i] != b by {
            if i < before.len() {
                assert(before[i] == data[i]);
            }
        }
    }
}

/// The index of the last byte equal to `b`.
fn rposition(data: &[u8], b: u8) -> (res: Option<usize>)
    ensures
        match res {
            Some(i) => i == last_index(data@, b) && i < data@.len(),
            None => last_index(data@, b) < 0,
        },
{
    let mut i: usize = data.len();
    assert(data@.take(i as int) =~= data@);
    while i > 0
        invariant
            0 <= i <= data@.len(),
            last_index(data@, b) == last_index(data@.take(i as int), b),
        decreases i,
    {
        assert(data@.take(i as int).drop_last() =~= data@.take(i - 1));
        i = i - 1;
        if data[i] == b {
            return Some(i);
        }
    }
    None
}

/// Whether the parentheses round the name of a process come in order.
pub fn comm_is_ordered(stat: &[u8]) -> (res: bool)
    ensures
        res == comm_ordered(stat@),
{
    let open: usize = bytes::position_either(stat, 0, 40, 40);
    assert(stat@.skip(0) =~= stat@);
    match rposition(stat, 41) {
        Some(close) => open == stat.len() || open < close,
        None => true,
    }
}

/// The name of a process, and what follows it.
pub fn parse_comm<'a>(stat: &'a [u8]) -> (res: Result<(String, &'a [u8]), CollectorError>)
    requires
        comm_ordered(stat@),
    ensures
        comm_open(stat@) == stat@.len() ==> (res matches Err(CollectorError::Parse(m)) && m@
            == "no ("@),
        comm_open(stat@) < stat@.len() && comm_close(stat@) < 0 ==> (res matches Err(
            CollectorError::Parse(m),
        ) && m@ == "no )"@),
        comm_open(stat@) < stat@.len() && comm_close(stat@) >= 0 ==> (res matches Ok((name, rest))
            && name@ == text::lossy_text(comm(stat@)) && rest@ == after_comm(stat@)),
        comm_open(stat@) <= stat@.len(),
{
    let open: usize = bytes::position_either(stat, 0, 40, 40);
    assert(stat@.skip(0) =~= stat@);
    if open == stat.len() {
        return Err(CollectorError::Parse("no (".to_owned()));
    }
    let close: usize = match rposition(stat, 41) {
        Some(i) => i,
        None => {
            return Err(CollectorError::Parse("no )".to_owned()));
        },
    };
    let name: String = text::from_utf8_lossy(
        vstd::slice::slice_subrange(stat, open + 1, close),
    );
    let len: usize = stat.len();
    let rest: &'a [u8] = if len >= 2 && close < len - 2 {
        let rest: &'a [u8] = vstd::slice::slice_subrange(stat, close + 2, len);
        assert(rest@ =~= stat@.skip(close + 2));
        rest
    } else {
        let rest: &'a [u8] = vstd::slice::slice_subrange(stat, len, len);
        assert(rest@ =~= Seq::<u8>::empty());
        rest
    };
    Ok((name, rest))
}

/// What the control group file system holds of a group; nothing for a file that could not be read
/// or is empty.
pub struct CgroupFiles {
    pub cpu_max: Option<Vec<u8>>,
    pub memory_max: Option<Vec<u8>>,
    pub memory_current: Option<Vec<u8>>,
    pub io_weight: Option<Vec<u8>>,
}

/// The path of the control group in the contents of a `cgroup` file: what follows `0::` on the
/// first line that starts so, and the empty path where there is none.
pub open spec fn group_path(lines: Seq<Seq<u8>>) -> Seq<char>
    decreases lines.len(),
{
    if lines.len() == 0 {
        Seq::empty()
    } else if bytes::begins_with(lines[0], "0::"@) {
        text::trimmed(text::lossy_text(lines[0].skip(3)))
    } else {
        group_path(lines.skip(1))
    }
}

/// Whether a control group has files of its own: the root has none.
pub open spec fn has_files(path: Seq<char>) -> bool {
    path.len() > 0 && path != "/"@
}

/// The path of a file of a control group, with the byte that ends it for the kernel.
pub open spec fn group_file(path: Seq<char>, file: Seq<char>) -> Seq<char> {
    "/sys/fs/cgroup"@ + path + "/"@ + file + "\0"@
}

/// The processors that a group may use: a quota and a period, of which the first may be `max`.
pub open spec fn cpu_limit(data: Option<Vec<u8>>) -> Option<Quantity> {
    match data {
        Some(d) => {
            let f = bytes::fields_by(d@, 32, 10);
            if bytes::begins_with(d@, "max"@) || f.len() < 2 || linux::leading_number(f[1]) == 0 {
                None
            } else {
                Some(
                    Quantity::Quotient {
                        num: linux::leading_number(f[0]),
                        den: linux::leading_number(f[1]),
                    },
                )
            }
        },
        None => None,
    }
}

/// A number, or `max` for no limit.
pub open spec fn limit_value(data: Option<Vec<u8>>) -> Option<u64> {
    match data {
        Some(d) => if bytes::begins_with(d@, "max"@) {
            None
        } else {
            Some(linux::leading_number(d@))
        },
        None => None,
    }
}

/// A weight, with or without the word `default` before it.
pub open spec fn weight(data: Option<Vec<u8>>) -> Option<u32> {
    match data {
        Some(d) => Some(
            low_u32(
                linux::leading_number(
                    if bytes::begins_with(d@, "default "@) {
                        d@.skip(8)
                    } else {
                        d@
                    },
                ),
            ),
        ),
        None => None,
    }
}

/// The control group of a process whose `cgroup` file holds `data`, where it could be read.
pub open spec fn group(data: Option<Seq<u8>>, files: CgroupFiles) -> CgroupView {
    match data {
        Some(d) => {
            let path = group_path(bytes::lines(d));
            if has_files(path) {
                CgroupView {
                    path,
                    cpu_limit_cores: cpu_limit(files.cpu_max),
                    memory_limit_bytes: limit_value(files.memory_max),
                    memory_usage_bytes: limit_value(files.memory_current),
                    io_weight: weight(files.io_weight),
                }
            } else {
                metrics::bare_cgroup(path)
            }
        },
        None => metrics::bare_cgroup(Seq::empty()),
    }
}

/// The path of the control group in the contents of a `cgroup` file.
pub fn cgroup_path(data: &[u8]) -> (res: String)
    ensures
        res@ == group_path(bytes::lines(data@)),
{
    let lines: Vec<&[u8]> = bytes::split_lines(data);
    let ghost all = bytes::lines(data@);
    let mut i: usize = 0;
    assert(all.skip(0) =~= all);
    while i < lines.len()
        invariant
            0 <= i <= lines@.len(),
            all == bytes::contents(lines@),
            all == bytes::lines(data@),
            group_path(all) == group_path(all.skip(i as int)),
        decreases lines@.len() - i,
    {
        let line: &[u8] = lines[i];
        proof {
            assert(all.skip(i as int)[0] == line@);
            assert(all.skip(i as int).skip(1) =~= all.skip(i + 1));
        }
        if bytes::starts_with(line, "0::") {
            proof {
                lemma_ascii_prefix_len(line@);
            }
            let rest: &[u8] = vstd::slice::slice_subrange(line, 3, line.len());
            assert(rest@ =~= line@.skip(3));
            return text::trim(text::from_utf8_lossy(rest).as_str());
        }
        i = i + 1;
    }
    String::new()
}

/// The prefixes that are looked for are as long in bytes as in characters.
proof fn lemma_ascii_prefix_len(data: Seq<u8>)
    ensures
        bytes::begins_with(data, "0::"@) ==> data.len() >= 3,
        bytes::begins_with(data, "default "@) ==> data.len() >= 8,
{
    reveal_strlit("0::");
    reveal_strlit("default ");
    vstd::utf8::is_ascii_chars_encode_utf8("0::"@);
    vstd::utf8::is_ascii_chars_encode_utf8("default "@);
}

/// Whether a control group has files of its own.
pub fn cgroup_has_files(path: &str) -> (res: bool)
    ensures
        res == has_files(path@),
{
    !path.is_empty() && !text::same_text(path, "/")
}

/// The path of a file of a control group.
pub fn cgroup_file(path: &str, file: &str) -> (res: String)
    ensures
        res@ == group_file(path@, file@),
{
    let mut out: String = "/sys/fs/cgroup".to_owned();
    out.append(path);
    out.append("/");
    out.append(file);
    out.append("\0");
    out
}

fn read_cgroup_cpu_limit(data: &Option<Vec<u8>>) -> (res: Option<Quantity>)
    ensures
        res == cpu_limit(*data),
{
    match data {
        Some(d) => {
            if bytes::starts_with(d.as_slice(), "max") {
                return None;
            }
            let fields: Vec<&[u8]> = bytes::split_fields_by(d.as_slice(), 32, 10);
            let ghost f = bytes::fields_by(d@, 32, 10);
            assert(f.len() == fields@.len());
            if fields.len() < 2 {
                return None;
            }
            assert(f[0] == fields@[0]@ && f[1] == fields@[1]@);
            let quota: u64 = linux::parse_u64_from_bytes(fields[0]);
            let period: u64 = linux::parse_u64_from_bytes(fields[1]);
            if period > 0 {
                Some(Quantity::Quotient { num: quota, den: period })
            } else {
                None
            }
        },
        None => None,
    }
}

fn read_cgroup_value(data: &Option<Vec<u8>>) -> (res: Option<u64>)
    ensures
        res == limit_value(*data),
{
    match data {
        Some(d) => if bytes::starts_with(d.as_slice(), "max") {
            None
        } else {
            Some(linux::parse_u64_from_bytes(d.as_slice()))
        },
        None => None,
    }
}

fn read_cgroup_io_weight(data: &Option<Vec<u8>>) -> (res: Option<u32>)
    ensures
        res == weight(*data),
{
    match data {
        Some(d) => {
            let start: usize = if bytes::starts_with(d.as_slice(), "default ") {
                8
            } else {
                0
            };
            proof {
                lemma_ascii_prefix_len(d@);
                assert(d@.skip(0) =~= d@);
            }
            let rest: &[u8] = vstd::slice::slice_subrange(d.as_slice(), start, d.len());
            assert(rest@ =~= d@.skip(start as int));
            Some((linux::parse_u64_from_bytes(rest) % 0x1_0000_0000) as u32)
        },
        None => None,
    }
}

/// The control group of a process, from its `cgroup` file and the files of the group.
pub fn read_cgroup(data: Option<&[u8]>, files: &CgroupFiles) -> (res: CgroupInfo)
    ensures
        res@ == group(
            match data {
                Some(d) => Some(d@),
                None => None,
            },
            *files,
        ),
{
    match data {
        Some(d) => {
            let path: String = cgroup_path(d);
            if !cgroup_has_files(path.as_str()) {
                return CgroupInfo::bare(path);
            }
            CgroupInfo {
                path,
                cpu_limit_cores: read_cgroup_cpu_limit(&files.cpu_max),
                memory_limit_bytes: read_cgroup_value(&files.memory_max),
                memory_usage_bytes: read_cgroup_value(&files.memory_current),
                io_weight: read_cgroup_io_weight(&files.io_weight),
            }
        },
        None => CgroupInfo::default(),
    }
}

/// The `stat` file of a process, as far as it could be read.
pub struct ProcStat {
    pub pid: u32,
    pub stat: Result<Vec<u8>, IoError>,
}

/// Whether a listed process has a readable and sound `stat` file.
pub open spec fn is_sound(p: ProcStat) -> bool {
    p.stat matches Ok(data) && stat_fault(data@) is None
}

/// The listed processes that count, in order, each with its ticks.
pub open spec fn survey(list: Seq<ProcStat>, prev: Map<u32, ProcTicks>, elapsed_ns: u64) -> Seq<
    (ProcessView, ProcTicks),
>
    decreases list.len(),
{
    if list.len() == 0 {
        Seq::empty()
    } else {
        let before = survey(list.drop_last(), prev, elapsed_ns);
        let p = list.last();
        if is_sound(p) {
            before.push(
                (
                    stat_process(p.pid, p.stat->Ok_0@, earlier_ticks(prev, p.pid), elapsed_ns),
                    stat_ticks(p.stat->Ok_0@),
                ),
            )
        } else {
            before
        }
    }
}

/// What is known of the ticks of a process.
pub open spec fn earlier_ticks(prev: Map<u32, ProcTicks>, pid: u32) -> Option<ProcTicks> {
    if prev.dom().contains(pid) {
        Some(prev[pid])
    } else {
        None
    }
}

/// The ticks by process number; of two processes with one number the later counts.
pub open spec fn ticks_by_pid(found: Seq<(ProcessView, ProcTicks)>) -> Map<u32, ProcTicks>
    decreases found.len(),
{
    if found.len() == 0 {
        Map::empty()
    } else {
        ticks_by_pid(found.drop_last()).insert(found.last().0.pid, found.last().1)
    }
}

/// The numbers of the processes whose parent is `pid`, in order.
pub open spec fn children_of(found: Seq<(ProcessView, ProcTicks)>, pid: u32) -> Seq<u32>
    decreases found.len(),
{
    if found.len() == 0 {
        Seq::empty()
    } else {
        let before = children_of(found.drop_last(), pid);
        if found.last().0.ppid == pid {
            before.push(found.last().0.pid)
        } else {
            before
        }
    }
}

/// The processes with their children.
pub open spec fn families(found: Seq<(ProcessView, ProcTicks)>) -> Seq<ProcessView> {
    Seq::new(
        found.len(),
        |i: int|
            ProcessView { children: children_of(found, found[i].0.pid), ..found[i].0 },
    )
}

/// Turns successive surveys of `/proc` into process metrics.
pub struct ProcessCollector {
    prev_ticks: HashMap<u32, ProcTicks>,
    prev_time_ns: Option<u64>,
}

impl ProcessCollector {
    /// The ticks of the last survey, by process number.
    pub closed spec fn ticks(&self) -> Map<u32, ProcTicks> {
        self.prev_ticks@
    }

    /// When the last survey was made.
    pub closed spec fn time_ns(&self) -> Option<u64> {
        self.prev_time_ns
    }

    /// A collector that has surveyed nothing yet.
    pub fn new() -> (res: Self)
        ensures
            res.ticks() == Map::<u32, ProcTicks>::empty(),
            res.time_ns() is None,
    {
        ProcessCollector { prev_ticks: HashMap::new(), prev_time_ns: None }
    }

    /// The process whose `stat` file was read, without its files and control group, and its ticks.
    pub fn read_process_fast(&self, pid: u32, stat: FileRead<'_>, elapsed_ns: u64) -> (res: Result<
        (ProcessInfo, ProcTicks),
        CollectorError,
    >)
        requires
            stat matches Ok(data) ==> comm_ordered(data@),
        ensures
            match stat {
                Err(e) => res == Err::<(ProcessInfo, ProcTicks), _>(CollectorError::Io(e)),
                Ok(data) => match stat_fault(data@) {
                    Some(fault) => res matches Err(CollectorError::Parse(m)) && m@ == fault,
                    None => res matches Ok((info, ticks)) && info@ == stat_process(
                        pid,
                        data@,
                        earlier_ticks(self.ticks(), pid),
                        elapsed_ns,
                    ) && ticks == stat_ticks(data@),
                },
            },
    {
        broadcast use vstd::std_specs::hash::group_hash_axioms;

        let data: &[u8] = match stat {
            Ok(data) => data,
            Err(e) => {
                return Err(CollectorError::Io(e));
            },
        };
        let (name, rest): (String, &[u8]) = match parse_comm(data) {
            Ok(parts) => parts,
            Err(e) => {
                return Err(e);
            },
        };
        let fields: Vec<&[u8]> = bytes::split_fields(rest);
        let ghost f = bytes::fields(after_comm(data@));
        assert(f.len() == fields@.len());
        if fields.len() < 22 {
            return Err(CollectorError::Parse("stat too short".to_owned()));
        }
        assert(forall|i: int| 0 <= i < fields@.len() ==> f[i] == #[trigger] fields@[i]@);
        let ticks = ProcTicks {
            utime: linux::parse_u64_from_bytes(fields[11]),
            stime: linux::parse_u64_from_bytes(fields[12]),
        };
        let cpu_pct: Quantity = match self.prev_ticks.get(&pid) {
            Some(prev) if elapsed_ns > SHORTEST_INTERVAL => Quantity::TickShare {
                ticks: ticks.utime.wrapping_sub(prev.utime).wrapping_add(
                    ticks.stime.wrapping_sub(prev.stime),
                ),
                ticks_per_sec: CLOCK_TICKS_PER_SEC,
                elapsed_ns,
            },
            _ => Quantity::zero(),
        };
        let info = ProcessInfo {
            pid,
            ppid: (linux::parse_u64_from_bytes(fields[1]) % 0x1_0000_0000) as u32,
            name,
            state: text::utf8_or(fields[0], "?"),
            cpu_pct,
            mem_bytes: linux::parse_u64_from_bytes(fields[21]).wrapping_mul(PAGE_SIZE),
            open_fds: 0,
            threads: (linux::parse_u64_from_bytes(fields[17]) % 0x1_0000_0000) as u32,
            cgroup: CgroupInfo::default(),
            children: Vec::new(),
        };
        assert(info@.children =~= Seq::<u32>::empty());
        Ok((info, ticks))
    }

    /// The process whose `stat` file was read, with its open files and its control group, and its
    /// ticks.
    pub fn read_process(
        &self,
        pid: u32,
        stat: FileRead<'_>,
        elapsed_ns: u64,
        open_fds: u64,
        cgroup: CgroupInfo,
    ) -> (res: Result<(ProcessInfo, ProcTicks), CollectorError>)
        requires
            stat matches Ok(data) ==> comm_ordered(data@),
        ensures
            match stat {
                Err(e) => res == Err::<(ProcessInfo, ProcTicks), _>(CollectorError::Io(e)),
                Ok(data) => match stat_fault(data@) {
                    Some(fault) => res matches Err(CollectorError::Parse(m)) && m@ == fault,
                    None => res matches Ok((info, ticks)) && info@ == with_details(
                        stat_process(
                            pid,
                            data@,
                            earlier_ticks(self.ticks(), pid),
                            elapsed_ns,
                        ),
                        open_fds,
                        cgroup@,
                    ) && ticks == stat_ticks(data@),
                },
            },
    {
        match self.read_process_fast(pid, stat, elapsed_ns) {
            Ok((mut info, ticks)) => {
                info.open_fds = open_fds;
                info.cgroup = cgroup;
                Ok((info, ticks))
            },
            Err(e) => Err(e),
        }
    }

    /// All processes with a readable and sound `stat` file, each with its children. Where `/proc`
    /// could not be listed the collector stays as it was.
    pub fn find_all(&mut self, listing: Result<&Vec<ProcStat>, IoError>, now_ns: u64) -> (res:
        Result<Vec<ProcessInfo>, CollectorError>)
        requires
            listing matches Ok(list) ==> forall|i: int|
                0 <= i < list@.len() ==> ((#[trigger] list@[i]).stat matches Ok(data)
                    ==> comm_ordered(data@)),
        ensures
            match listing {
                Err(e) => {
                    &&& res == Err::<Vec<ProcessInfo>, _>(CollectorError::Io(e))
                    &&& final(self).ticks() == old(self).ticks()
                    &&& final(self).time_ns() == old(self).time_ns()
                },
                Ok(list) => {
                    let found = survey(
                        list@,
                        old(self).ticks(),
                        collector::elapsed(old(self).time_ns(), now_ns),
                    );
                    &&& res matches Ok(v) && metrics::process_views(v@) == families(found)
                    &&& final(self).ticks() == ticks_by_pid(found)
                    &&& final(self).time_ns() == Some(now_ns)
                },
            },
    {
        broadcast use vstd::std_specs::hash::group_hash_axioms;

        let elapsed_ns: u64 = collector::elapsed_since(self.prev_time_ns, now_ns);
        let list: &Vec<ProcStat> = match listing {
            Ok(list) => list,
            Err(e) => {
                return Err(CollectorError::Io(e));
            },
        };
        let mut infos: Vec<ProcessInfo> = Vec::new();
        let mut new_ticks: HashMap<u32, ProcTicks> = HashMap::new();
        let mut children_map: HashMap<u32, Vec<u32>> = HashMap::new();
        let ghost mut found = Seq::<(ProcessView, ProcTicks)>::empty();
        let mut i: usize = 0;
        while i < list.len()
            invariant
                0 <= i <= list@.len(),
                self.ticks() == old(self).ticks(),
                forall|j: int|
                    0 <= j < list@.len() ==> ((#[trigger] list@[j]).stat matches Ok(data)
                        ==> comm_ordered(data@)),
                found == survey(list@.take(i as int), self.ticks(), elapsed_ns),
                infos@.len() == found.len(),
                forall|j: int| 0 <= j < infos@.len() ==> (#[trigger] infos@[j])@ == found[j].0,
                new_ticks@ == ticks_by_pid(found),
                forall|p: u32| #[trigger]
                    children_of(found, p) == if children_map@.dom().contains(p) {
                        children_map@[p]@
                    } else {
                        Seq::empty()
                    },
            decreases list@.len() - i,
        {
            let p: &ProcStat = &list[i];
            proof {
                assert(list@.take(i + 1).drop_last() =~= list@.take(i as int));
                assert(list@.take(i + 1).last() == list@[i as int]);
            }
            match &p.stat {
                Ok(data) => {
                    match self.read_process_fast(p.pid, Ok(data.as_slice()), elapsed_ns) {
                        Ok((info, ticks)) => {
                            let ghost before = found;
                            let ghost map_before = children_map@;
                            let ghost entry = (info@, ticks);
                            proof {
                                found = before.push(entry);
                                assert(found.drop_last() =~= before);
                            }
                            let mut siblings: Vec<u32> = match children_map.remove(&info.ppid) {
                                Some(v) => v,
                                None => Vec::new(),
                            };
                            let ghost siblings_before = siblings@;
                            assert(siblings_before =~= children_of(before, info.ppid));
                            siblings.push(info.pid);
                            children_map.insert(info.ppid, siblings);
                            new_ticks.insert(info.pid, ticks);
                            proof {
                                assert forall|q: u32| #[trigger]
                                    children_of(found, q) == if children_map@.dom().contains(q) {
                                        children_map@[q]@
                                    } else {
                                        Seq::empty()
                                    } by {
                                    assert(children_of(before, q) == if map_before.dom().contains(
                                        q,
                                    ) {
                                        map_before[q]@
                                    } else {
                                        Seq::empty()
                                    });
                                }
                            }
                            infos.push(info);
                        },
                        Err(e) => {},
                    }
                },
                Err(e) => {},
            }
            i = i + 1;
        }
        assert(list@.take(list@.len() as int) =~= list@);
        proof {
            lemma_survey_has_no_children(list@, self.ticks(), elapsed_ns);
        }
        let processes: Vec<ProcessInfo> = attach_children(infos, &children_map, Ghost(found));
        self.prev_ticks = new_ticks;
        self.prev_time_ns = Some(now_ns);
        Ok(processes)
    }

    /// The busiest processes. A first survey, in which no process has a share yet, does not leave
    /// out the process that asks.
    pub fn collect(
        &mut self,
        listing: Result<&Vec<ProcStat>, IoError>,
        now_ns: u64,
        own: u32,
    ) -> (res: Result<ProcessMetrics, CollectorError>)
        requires
            listing matches Ok(list) ==> forall|i: int|
                0 <= i < list@.len() ==> ((#[trigger] list@[i]).stat matches Ok(data)
                    ==> comm_ordered(data@)),
        ensures
            match listing {
                Err(e) => {
                    &&& res == Err::<ProcessMetrics, _>(CollectorError::Io(e))
                    &&& final(self).ticks() == old(self).ticks()
                    &&& final(self).time_ns() == old(self).time_ns()
                },
                Ok(list) => {
                    let found = survey(
                        list@,
                        old(self).ticks(),
                        collector::elapsed(old(self).time_ns(), now_ns),
                    );
                    &&& res matches Ok(m) && m@ == top(
                        families(found),
                        kept_process(old(self).time_ns(), own),
                    )
                    &&& final(self).ticks() == ticks_by_pid(found)
                    &&& final(self).time_ns() == Some(now_ns)
                },
            },
    {
        let own: Option<u32> = match self.prev_time_ns {
            Some(_) => None,
            None => Some(own),
        };
        match self.find_all(listing, now_ns) {
            Ok(all) => Ok(busiest(&all, own)),
            Err(e) => Err(e),
        }
    }
}

/// The process that is not left out: on a first survey the one that asks.
pub open spec fn kept_process(time_ns: Option<u64>, own: u32) -> Option<u32> {
    match time_ns {
        Some(t) => None,
        None => Some(own),
    }
}

/// A process with its open files and its control group.
pub open spec fn with_details(p: ProcessView, open_fds: u64, cgroup: CgroupView) -> ProcessView {
    ProcessView { open_fds, cgroup, ..p }
}

/// A process with its open files and the control group that its files show.
pub open spec fn filled_in(
    p: ProcessView,
    open_fds: u64,
    data: Option<Seq<u8>>,
    files: CgroupFiles,
) -> ProcessView {
    with_details(p, open_fds, group(data, files))
}

/// Gives each process its children.
fn attach_children(
    infos: Vec<ProcessInfo>,
    children_map: &HashMap<u32, Vec<u32>>,
    Ghost(found): Ghost<Seq<(ProcessView, ProcTicks)>>,
) -> (res: Vec<ProcessInfo>)
    requires
        infos@.len() == found.len(),
        forall|j: int| 0 <= j < infos@.len() ==> (#[trigger] infos@[j])@ == found[j].0,
        forall|p: u32| #[trigger]
            children_of(found, p) == if children_map@.dom().contains(p) {
                children_map@[p]@
            } else {
                Seq::empty()
            },
        forall|j: int|
            0 <= j < found.len() ==> (#[trigger] found[j]).0.children == Seq::<u32>::empty(),
    ensures
        metrics::process_views(res@) == families(found),
{
    broadcast use vstd::std_specs::hash::group_hash_axioms;

    let mut infos = infos;
    let mut i: usize = 0;
    while i < infos.len()
        invariant
            0 <= i <= infos@.len(),
            infos@.len() == found.len(),
            forall|j: int|
                0 <= j < i ==> (#[trigger] infos@[j])@ == families(found)[j],
            forall|j: int| i <= j < infos@.len() ==> (#[trigger] infos@[j])@ == found[j].0,
            forall|p: u32| #[trigger]
                children_of(found, p) == if children_map@.dom().contains(p) {
                    children_map@[p]@
                } else {
                    Seq::empty()
                },
            forall|j: int|
                0 <= j < found.len() ==> (#[trigger] found[j]).0.children == Seq::<u32>::empty(),
        decreases infos@.len() - i,
    {
        proof {
            let own = children_of(found, found[i as int].0.pid);
            assert(infos@[i as int]@ == found[i as int].0);
        }
        match children_map.get(&infos[i].pid) {
            Some(children) => {
                infos[i].children = vstd::slice::slice_to_vec(children.as_slice());
            },
            None => {},
        }
        assert(infos@[i as int]@ == families(found)[i as int]);
        i = i + 1;
    }
    assert(metrics::process_views(infos@) =~= families(found));
    infos
}

proof fn lemma_survey_has_no_children(
    list: Seq<ProcStat>,
    prev: Map<u32, ProcTicks>,
    elapsed_ns: u64,
)
    ensures
        forall|j: int|
            0 <= j < survey(list, prev, elapsed_ns).len() ==> (#[trigger] survey(
                list,
                prev,
                elapsed_ns,
            )[j]).0.children == Seq::<u32>::empty(),
    decreases list.len(),
{
    if list.len() > 0 {
        lemma_survey_has_no_children(list.drop_last(), prev, elapsed_ns);
    }
}

/// The number by which a process is ranked: that of its processor share.
pub open spec fn share_key(p: ProcessView) -> u64 {
    share::key(p.cpu_pct)
}

/// The numbers by which processes are ranked.
pub open spec fn share_keys(processes: Seq<ProcessView>) -> Seq<u64> {
    Seq::new(processes.len(), |i: int| share_key(processes[i]))
}

/// Whether the processor share of `a`, as a double, is at most that of `b`.
pub open spec fn share_at_most(a: ProcessView, b: ProcessView) -> bool {
    share::units(a.cpu_pct) <= share::units(b.cpu_pct)
}

/// Whether a share is one over an interval, or none at all.
pub open spec fn is_share_over(q: Quantity, elapsed_ns: u64) -> bool {
    match q {
        Quantity::TickShare { ticks, ticks_per_sec, elapsed_ns: e } => ticks_per_sec
            == CLOCK_TICKS_PER_SEC && e == elapsed_ns && e > 0,
        Quantity::Whole(n) => n == 0,
        _ => false,
    }
}

/// Whether all processor shares are over an interval.
pub open spec fn shares_over(processes: Seq<ProcessView>, elapsed_ns: u64) -> bool {
    forall|i: int|
        0 <= i < processes.len() ==> is_share_over((#[trigger] processes[i]).cpu_pct, elapsed_ns)
}

/// The numbers by which processes are ranked. They order the processes exactly as their shares do.
pub fn rank_keys(processes: &Vec<ProcessInfo>) -> (keys: Vec<u64>)
    ensures
        keys@ == share_keys(metrics::process_views(processes@)),
        forall|a: int, b: int|
            0 <= a < keys@.len() && 0 <= b < keys@.len() ==> (#[trigger] keys@[a]
                <= #[trigger] keys@[b] <==> share_at_most(processes@[a]@, processes@[b]@)),
{
    let mut keys: Vec<u64> = Vec::new();
    let mut i: usize = 0;
    while i < processes.len()
        invariant
            0 <= i <= processes@.len(),
            keys@.len() == i,
            forall|j: int| 0 <= j < i ==> #[trigger] keys@[j] == share_key(processes@[j]@),
        decreases processes@.len() - i,
    {
        keys.push(share::rank_key(&processes[i].cpu_pct));
        i = i + 1;
    }
    proof {
        assert(keys@ =~= share_keys(metrics::process_views(processes@)));
        assert forall|a: int, b: int|
            0 <= a < keys@.len() && 0 <= b < keys@.len() implies (#[trigger] keys@[a]
            <= #[trigger] keys@[b] <==> share_at_most(processes@[a]@, processes@[b]@)) by {
            share::keys_order_shares(processes@[a].cpu_pct, processes@[b].cpu_pct);
        }
    }
    keys
}

/// Where the first process with a number stands in an order, or the length of the order where there
/// is none.
pub open spec fn place_of(processes: Seq<ProcessView>, order: Seq<int>, pid: Option<u32>) -> int
    decreases order.len(),
{
    if order.len() == 0 || pid == Some(processes[order[0]].pid) {
        0
    } else {
        1 + place_of(processes, order.skip(1), pid)
    }
}

/// How many of some processes are reported.
pub open spec fn reported(count: nat) -> nat {
    if count < MAX_PROCESSES {
        count
    } else {
        MAX_PROCESSES as nat
    }
}

/// The indices of the processes that are reported: those with the greatest shares, in descending
/// order of their shares and otherwise as they came. A process of interest that would be cut off
/// takes the last place where its share is not smaller than that of the process there.
pub open spec fn picks(processes: Seq<ProcessView>, own: Option<u32>) -> Seq<int> {
    let keys = share_keys(processes);
    let order = ranking::descending(keys);
    let n = reported(order.len());
    let at = place_of(processes, order, own);
    if 0 < n <= at < order.len() && keys[order[at]] == keys[order[n - 1]] {
        order.take(n as int).update(n - 1, order[at])
    } else {
        order.take(n as int)
    }
}

/// The processes that are reported.
pub open spec fn top(processes: Seq<ProcessView>, own: Option<u32>) -> Seq<ProcessView> {
    Seq::new(picks(processes, own).len(), |i: int| processes[picks(processes, own)[i]])
}

proof fn lemma_place_of(processes: Seq<ProcessView>, order: Seq<int>, pid: Option<u32>)
    ensures
        0 <= place_of(processes, order, pid) <= order.len(),
        forall|i: int|
            0 <= i < place_of(processes, order, pid) ==> pid != Some(processes[#[trigger] order[i]].pid),
        place_of(processes, order, pid) < order.len() ==> pid == Some(
            processes[order[place_of(processes, order, pid)]].pid,
        ),
    decreases order.len(),
{
    if order.len() > 0 && pid != Some(processes[order[0]].pid) {
        lemma_place_of(processes, order.skip(1), pid);
        let n = place_of(processes, order, pid);
        assert forall|i: int| 0 <= i < n implies pid != Some(processes[#[trigger] order[i]].pid) by {
            if i > 0 {
                assert(order[i] == order.skip(1)[i - 1]);
            }
        }
        if n < order.len() {
            assert(order[n] == order.skip(1)[n - 1]);
        }
    }
}

proof fn lemma_place_of_is(processes: Seq<ProcessView>, order: Seq<int>, pid: Option<u32>, at: int)
    requires
        0 <= at <= order.len(),
        forall|i: int| 0 <= i < at ==> pid != Some(processes[#[trigger] order[i]].pid),
        at < order.len() ==> pid == Some(processes[order[at]].pid),
    ensures
        place_of(processes, order, pid) == at,
{
    lemma_place_of(processes, order, pid);
    let n = place_of(processes, order, pid);
    if n < at {
        assert(pid != Some(processes[order[n]].pid));
    }
    if at < n {
        assert(pid != Some(processes[order[at]].pid));
    }
}

/// The indices of the processes that are reported.
fn pick(processes: &Vec<ProcessInfo>, own: Option<u32>) -> (res: Vec<usize>)
    ensures
        ranking::as_ints(res@) == picks(metrics::process_views(processes@), own),
        forall|i: int| 0 <= i < res@.len() ==> #[trigger] res@[i] < processes@.len(),
{
    let keys: Vec<u64> = rank_keys(processes);
    let order: Vec<usize> = ranking::order_descending(&keys);
    let ghost views = metrics::process_views(processes@);
    let ghost indices = ranking::descending(keys@);
    let mut at: usize = 0;
    while at < order.len() && own != Some(processes[order[at]].pid)
        invariant
            0 <= at <= order@.len(),
            order@.len() == processes@.len(),
            keys@.len() == processes@.len(),
            views == metrics::process_views(processes@),
            indices == ranking::as_ints(order@),
            forall|j: int| 0 <= j < order@.len() ==> #[trigger] order@[j] < keys@.len(),
            forall|j: int| 0 <= j < at ==> own != Some(views[#[trigger] indices[j]].pid),
        decreases order@.len() - at,
    {
        assert(views[indices[at as int]].pid == processes@[order@[at as int] as int].pid);
        at = at + 1;
    }
    proof {
        if at < order@.len() {
            assert(views[indices[at as int]].pid == processes@[order@[at as int] as int].pid);
        }
        lemma_place_of_is(views, indices, own, at as int);
    }
    let n: usize = if order.len() < MAX_PROCESSES {
        order.len()
    } else {
        MAX_PROCESSES
    };
    let mut res: Vec<usize> = Vec::new();
    let mut i: usize = 0;
    while i < n
        invariant
            0 <= i <= n <= order@.len(),
            res@ == order@.take(i as int),
        decreases n - i,
    {
        res.push(order[i]);
        i = i + 1;
        assert(order@.take(i as int) =~= order@.take(i - 1).push(order@[i - 1]));
    }
    assert(ranking::as_ints(res@) =~= indices.take(n as int));
    if n > 0 && at >= n && at < order.len() && keys[order[at]] == keys[order[n - 1]] {
        res[n - 1] = order[at];
        assert(ranking::as_ints(res@) =~= indices.take(n as int).update(n - 1, indices[at as int]));
    }
    res
}

/// The busiest processes, most busy first. A process of interest is not cut off in favour of one
/// that is no busier.
pub fn busiest(processes: &Vec<ProcessInfo>, own: Option<u32>) -> (res: ProcessMetrics)
    ensures
        res@ == top(metrics::process_views(processes@), own),
{
    let order: Vec<usize> = pick(processes, own);
    let ghost views = metrics::process_views(processes@);
    let mut picked: Vec<ProcessInfo> = Vec::new();
    let mut i: usize = 0;
    while i < order.len()
        invariant
            0 <= i <= order@.len(),
            forall|j: int| 0 <= j < order@.len() ==> #[trigger] order@[j] < processes@.len(),
            picked@.len() == i,
            forall|j: int|
                0 <= j < i ==> (#[trigger] picked@[j])@ == processes@[order@[j] as int]@,
        decreases order@.len() - i,
    {
        picked.push(processes[order[i]].clone());
        i = i + 1;
    }
    let res = ProcessMetrics { processes: picked };
    proof {
        let ints = ranking::as_ints(order@);
        assert(res@ =~= top(views, own)) by {
            assert(res@.len() == ints.len());
            assert forall|j: int| 0 <= j < ints.len() implies res@[j] == top(views, own)[j] by {
                assert(ints[j] == order@[j]);
            }
        }
    }
    res
}

/// The open files and the control group of a process.
pub struct ProcessDetails {
    pub open_fds: u64,
    pub cgroup: CgroupInfo,
}

/// Processes with their details.
pub open spec fn detailed(processes: Seq<ProcessView>, details: Seq<ProcessDetails>) -> Seq<
    ProcessView,
> {
    Seq::new(
        processes.len(),
        |i: int| with_details(processes[i], details[i].open_fds, details[i].cgroup@),
    )
}

/// Fills in the open files and the control groups of processes.
pub fn add_details(metrics: ProcessMetrics, details: &Vec<ProcessDetails>) -> (res: ProcessMetrics)
    requires
        metrics@.len() == details@.len(),
    ensures
        res@ == detailed(metrics@, details@),
{
    let ghost before = metrics@;
    let mut processes: Vec<ProcessInfo> = metrics.processes;
    let mut i: usize = 0;
    while i < processes.len()
        invariant
            0 <= i <= processes@.len(),
            processes@.len() == details@.len(),
            before.len() == details@.len(),
            forall|j: int|
                0 <= j < i ==> (#[trigger] processes@[j])@ == detailed(before, details@)[j],
            forall|j: int| i <= j < processes@.len() ==> (#[trigger] processes@[j])@ == before[j],
        decreases processes@.len() - i,
    {
        assert(processes@[i as int]@ == before[i as int]);
        processes[i].open_fds = details[i].open_fds;
        processes[i].cgroup = details[i].cgroup.clone();
        assert(processes@[i as int]@ == detailed(before, details@)[i as int]);
        i = i + 1;
    }
    let res = ProcessMetrics { processes };
    assert(res@ =~= detailed(before, details@));
    res
}

/// No more processes than the limit are reported. They come in descending order of their shares,
/// and none that is left out has a greater share than one that is reported.
pub proof fn busiest_come_first(processes: Seq<ProcessView>, own: Option<u32>)
    ensures
        top(processes, own).len() == reported(processes.len()),
        forall|i: int, j: int|
            0 <= i < j < top(processes, own).len() ==> share_at_most(
                #[trigger] top(processes, own)[j],
                #[trigger] top(processes, own)[i],
            ),
        forall|i: int, k: int|
            0 <= i < top(processes, own).len() && 0 <= k < processes.len() && !picks(
                processes,
                own,
            ).contains(k) ==> share_at_most(
                #[trigger] processes[k],
                #[trigger] top(processes, own)[i],
            ),
{
    let keys = share_keys(processes);
    let order = ranking::descending(keys);
    let picked = picks(processes, own);
    ranking::descending_is_an_order(keys);
    lemma_place_of(processes, order, own);
    lemma_picks(processes, own);
    assert forall|i: int, j: int| 0 <= i < j < picked.len() implies share_at_most(
        #[trigger] top(processes, own)[j],
        #[trigger] top(processes, own)[i],
    ) by {
        assert(keys[picked[i]] == keys[order[i]] && keys[picked[j]] == keys[order[j]]);
        assert(ranking::ahead(keys, order[i], order[j]));
        share::keys_order_shares(processes[picked[j]].cpu_pct, processes[picked[i]].cpu_pct);
    }
    assert forall|i: int, k: int|
        0 <= i < picked.len() && 0 <= k < processes.len() && !picked.contains(k) implies share_at_most(
        #[trigger] processes[k],
        #[trigger] top(processes, own)[i],
    ) by {
        assert(order.contains(k));
        let at = choose|at: int| 0 <= at < order.len() && order[at] == k;
        let n = picked.len();
        if at < n - 1 {
            assert(picked[at] == k);
        }
        assert(keys[picked[i]] == keys[order[i]]);
        if i < at {
            assert(ranking::ahead(keys, order[i], order[at]));
        }
        share::keys_order_shares(processes[k].cpu_pct, processes[picked[i]].cpu_pct);
    }
}

/// What is picked has the keys of the first places, and is in range.
proof fn lemma_picks(processes: Seq<ProcessView>, own: Option<u32>)
    ensures
        ({
            let keys = share_keys(processes);
            let order = ranking::descending(keys);
            let picked = picks(processes, own);
            &&& picked.len() == reported(processes.len())
            &&& picked.len() <= order.len()
            &&& forall|i: int|
                0 <= i < picked.len() ==> 0 <= #[trigger] picked[i] < processes.len()
                    && keys[picked[i]] == keys[order[i]]
            &&& forall|i: int| 0 <= i < picked.len() - 1 ==> #[trigger] picked[i] == order[i]
        }),
{
    let keys = share_keys(processes);
    let order = ranking::descending(keys);
    ranking::descending_is_an_order(keys);
    lemma_place_of(processes, order, own);
    let n = reported(order.len());
    let at = place_of(processes, order, own);
    let picked = picks(processes, own);
    assert forall|i: int| 0 <= i < picked.len() implies 0 <= #[trigger] picked[i] < processes.len()
        && keys[picked[i]] == keys[order[i]] by {
        assert(0 <= order[i] < keys.len());
        if 0 < n <= at < order.len() {
            assert(0 <= order[at] < keys.len());
        }
    }
}

/// The process that asks is reported, as long as it was found and is no less busy than some process
/// that is reported.
pub proof fn own_process_is_kept(processes: Seq<ProcessView>, own: u32, k: int, i: int)
    requires
        0 <= k < processes.len(),
        processes[k].pid == own,
        0 <= i < top(processes, Some(own)).len(),
        share_at_most(top(processes, Some(own))[i], processes[k]),
    ensures
        exists|j: int|
            0 <= j < top(processes, Some(own)).len() && (#[trigger] top(processes, Some(own))[j]).pid == own,
{
    let keys = share_keys(processes);
    let order = ranking::descending(keys);
    let picked = picks(processes, Some(own));
    let n = picked.len() as int;
    let at = place_of(processes, order, Some(own));
    ranking::descending_is_an_order(keys);
    lemma_place_of(processes, order, Some(own));
    lemma_picks(processes, Some(own));
    assert(order.contains(k));
    let place = choose|place: int| 0 <= place < order.len() && order[place] == k;
    assert(at <= place) by {
        if place < at {
            assert(processes[order[place]].pid != own);
        }
    }
    if at < n {
        if at < n - 1 {
            assert(picked[at] == order[at]);
        } else {
            assert(picked[n - 1] == order[n - 1]);
        }
        assert(top(processes, Some(own))[at].pid == own);
    } else {
        share::keys_order_shares(processes[picked[i]].cpu_pct, processes[k].cpu_pct);
        assert(keys[picked[i]] == keys[order[i]]);
        if i < n - 1 {
            assert(ranking::ahead(keys, order[i], order[n - 1]));
        }
        assert(ranking::ahead(keys, order[n - 1], order[at]));
        if at < place {
            assert(ranking::ahead(keys, order[at], order[place]));
        }
        assert(keys[order[at]] == keys[order[n - 1]]);
        assert(picked[n - 1] == order[at]);
        assert(top(processes, Some(own))[n - 1].pid == own);
    }
}

/// A first survey reports the process that asks, wherever in the list it stands.
pub proof fn first_survey_reports_own_process(list: Seq<ProcStat>, own: u32, k: int)
    requires
        0 <= k < list.len(),
        list[k].pid == own,
        is_sound(list[k]),
    ensures
        ({
            let shown = top(
                families(survey(list, Map::empty(), 0)),
                kept_process(None, own),
            );
            exists|j: int| 0 <= j < shown.len() && (#[trigger] shown[j]).pid == own
        }),
{
    let found = survey(list, Map::empty(), 0);
    let processes = families(found);
    lemma_first_survey_holds(list, k);
    let at = choose|at: int|
        0 <= at < found.len() && (#[trigger] found[at]).0.pid == own;
    assert(processes[at].pid == own);
    lemma_families_over(list, Map::empty(), 0);
    lemma_picks(processes, Some(own));
    let first = top(processes, Some(own))[0];
    assert(first == processes[picks(processes, Some(own))[0]]);
    assert(is_share_over(first.cpu_pct, 0));
    assert(is_share_over(processes[at].cpu_pct, 0));
    own_process_is_kept(processes, own, at, 0);
}

/// Every sound process of a list is in a survey of it.
proof fn lemma_first_survey_holds(list: Seq<ProcStat>, k: int)
    requires
        0 <= k < list.len(),
        is_sound(list[k]),
    ensures
        ({
            let found = survey(list, Map::empty(), 0);
            exists|at: int| 0 <= at < found.len() && (#[trigger] found[at]).0.pid == list[k].pid
        }),
    decreases list.len(),
{
    let found = survey(list, Map::empty(), 0);
    if k == list.len() - 1 {
        assert(found[found.len() - 1].0.pid == list[k].pid);
    } else {
        let before = survey(list.drop_last(), Map::empty(), 0);
        lemma_first_survey_holds(list.drop_last(), k);
        assert(list.drop_last()[k] == list[k]);
        let at = choose|at: int| 0 <= at < before.len() && (#[trigger] before[at]).0.pid
            == list[k].pid;
        assert(found[at] == before[at]);
    }
}

/// All shares of a survey are over the time that has passed.
proof fn lemma_survey_over(list: Seq<ProcStat>, prev: Map<u32, ProcTicks>, elapsed_ns: u64)
    ensures
        forall|i: int|
            0 <= i < survey(list, prev, elapsed_ns).len() ==> is_share_over(
                (#[trigger] survey(list, prev, elapsed_ns)[i]).0.cpu_pct,
                elapsed_ns,
            ),
    decreases list.len(),
{
    if list.len() > 0 {
        lemma_survey_over(list.drop_last(), prev, elapsed_ns);
    }
}

/// All shares that a survey shows are over the time that has passed.
proof fn lemma_families_over(
    list: Seq<ProcStat>,
    prev: Map<u32, ProcTicks>,
    elapsed_ns: u64,
)
    ensures
        shares_over(families(survey(list, prev, elapsed_ns)), elapsed_ns),
{
    let found = survey(list, prev, elapsed_ns);
    lemma_survey_over(list, prev, elapsed_ns);
    assert forall|i: int| 0 <= i < families(found).len() implies is_share_over(
        (#[trigger] families(found)[i]).cpu_pct,
        elapsed_ns,
    ) by {
        assert(is_share_over(found[i].0.cpu_pct, elapsed_ns));
    }
}

/// Every process that is found, ranked and filled in has a processor share with a value, and so has
/// the limit of its control group.
pub proof fn processes_have_values(
    list: Seq<ProcStat>,
    prev: Map<u32, ProcTicks>,
    elapsed_ns: u64,
    own: Option<u32>,
    data: Option<Seq<u8>>,
    files: CgroupFiles,
    open_fds: u64,
)
    ensures
        ({
            let shown = top(families(survey(list, prev, elapsed_ns)), own);
            forall|i: int|
                0 <= i < shown.len() ==> soundness::process_defined(
                    with_details(#[trigger] shown[i], open_fds, group(data, files)),
                )
        }),
{
    let processes = families(survey(list, prev, elapsed_ns));
    let shown = top(processes, own);
    lemma_families_over(list, prev, elapsed_ns);
    lemma_picks(processes, own);
    assert forall|i: int| 0 <= i < shown.len() implies soundness::process_defined(
        with_details(#[trigger] shown[i], open_fds, group(data, files)),
    ) by {
        let k = picks(processes, own)[i];
        assert(is_share_over(processes[k].cpu_pct, elapsed_ns));
        assert(elapsed_ns > 0 ==> elapsed_ns * CLOCK_TICKS_PER_SEC > 0) by (nonlinear_arith)
            requires
                CLOCK_TICKS_PER_SEC == 100,
        ;
    }
}

/// Of two processes of one survey, the one with the greater exact share never ranks below the other.
pub proof fn greater_shares_never_rank_lower(a: ProcessView, b: ProcessView, elapsed_ns: u64)
    requires
        is_share_over(a.cpu_pct, elapsed_ns),
        is_share_over(b.cpu_pct, elapsed_ns),
        a.cpu_pct.numerator() * b.cpu_pct.denominator() <= b.cpu_pct.numerator()
            * a.cpu_pct.denominator(),
    ensures
        share_key(a) <= share_key(b),
{
    share::keys_order_shares(a.cpu_pct, b.cpu_pct);
    share::lemma_none_is_zero();
    match (a.cpu_pct, b.cpu_pct) {
        (Quantity::TickShare { ticks: x, .. }, Quantity::TickShare { ticks: y, .. }) => {
            let d = elapsed_ns * CLOCK_TICKS_PER_SEC;
            assert(x <= y) by (nonlinear_arith)
                requires
                    (100_000_000_000 * x) * d <= (100_000_000_000 * y) * d,
                    d == elapsed_ns * CLOCK_TICKS_PER_SEC,
                    elapsed_ns > 0,
                    CLOCK_TICKS_PER_SEC == 100,
            ;
            share::more_ticks_never_rank_lower(x, y, CLOCK_TICKS_PER_SEC, elapsed_ns);
        },
        (Quantity::TickShare { ticks: x, .. }, _) => {
            assert(0 * (elapsed_ns * CLOCK_TICKS_PER_SEC) == 0) by (nonlinear_arith);
            assert(x == 0);
            share::lemma_no_ticks(CLOCK_TICKS_PER_SEC, elapsed_ns);
        },
        _ => {},
    }
}

/// Over more than a millisecond the share of a process is the time that it spent in user mode and
/// in the kernel, in hundredths of a second, in percent of the time that passed.
pub proof fn shares_count_user_and_kernel_time(
    before: ProcTicks,
    user: u64,
    kernel: u64,
    elapsed_ns: u64,
)
    requires
        before.utime + user <= u64::MAX,
        before.stime + kernel <= u64::MAX,
        user + kernel <= u64::MAX,
        elapsed_ns > 1_000_000,
    ensures
        ({
            let now = ProcTicks {
                utime: (before.utime + user) as u64,
                stime: (before.stime + kernel) as u64,
            };
            processor_share(Some(before), now, elapsed_ns).is_fraction(
                100 * ((user + kernel) * 10_000_000),
                elapsed_ns as int,
            )
        }),
{
    let (n, e) = ((user + kernel) as int, elapsed_ns as int);
    assert((100_000_000_000 * n) * e == (100 * (n * 10_000_000)) * (e * 100) && e * 100 > 0)
        by (nonlinear_arith)
        requires
            e > 0,
    ;
}

/// A tick in the kernel counts as much as one in user mode.
pub proof fn ticks_count_alike(before: ProcTicks, now: ProcTicks, elapsed_ns: u64)
    requires
        before.utime <= now.utime < u64::MAX,
        before.stime <= now.stime < u64::MAX,
        (now.utime - before.utime) + (now.stime - before.stime) < u64::MAX,
        elapsed_ns > 1_000_000,
    ensures
        ({
            let none = processor_share(Some(before), now, elapsed_ns);
            let user = processor_share(
                Some(before),
                ProcTicks { utime: (now.utime + 1) as u64, stime: now.stime },
                elapsed_ns,
            );
            let kernel = processor_share(
                Some(before),
                ProcTicks { utime: now.utime, stime: (now.stime + 1) as u64 },
                elapsed_ns,
            );
            &&& user == kernel
            &&& none.denominator() == user.denominator()
            &&& none.numerator() < user.numerator()
        }),
{
}

/// A process without an earlier count, and any process over at most a millisecond, shows no share.
pub proof fn no_share_without_a_past(
    before: Option<ProcTicks>,
    now: ProcTicks,
    elapsed_ns: u64,
)
    requires
        before is None || elapsed_ns <= 1_000_000,
    ensures
        processor_share(before, now, elapsed_ns).is_fraction(0, 1),
{
}

/// The children of a process are the processes that name it as their parent, and no others.
pub proof fn children_name_their_parent(
    found: Seq<(ProcessView, ProcTicks)>,
    i: int,
    child: u32,
)
    requires
        0 <= i < found.len(),
    ensures
        families(found).len() == found.len(),
        families(found)[i].pid == found[i].0.pid,
        families(found)[i].children.contains(child) <==> exists|j: int|
            0 <= j < found.len() && (#[trigger] found[j]).0.pid == child && found[j].0.ppid
                == found[i].0.pid,
{
    lemma_children(found, found[i].0.pid, child);
}

proof fn lemma_children(found: Seq<(ProcessView, ProcTicks)>, pid: u32, child: u32)
    ensures
        children_of(found, pid).contains(child) <==> exists|j: int|
            0 <= j < found.len() && (#[trigger] found[j]).0.pid == child && found[j].0.ppid == pid,
    decreases found.len(),
{
    let all = children_of(found, pid);
    if found.len() > 0 {
        let shorter = found.drop_last();
        let before = children_of(shorter, pid);
        let last = found.len() - 1;
        lemma_children(shorter, pid, child);
        if all.contains(child) {
            let k = choose|k: int| 0 <= k < all.len() && all[k] == child;
            if found.last().0.ppid == pid && k == before.len() {
                assert(found[last].0.pid == child);
            } else {
                assert(before[k] == child);
                assert(before.contains(child));
                let j = choose|j: int|
                    0 <= j < shorter.len() && (#[trigger] shorter[j]).0.pid == child
                        && shorter[j].0.ppid == pid;
                assert(found[j] == shorter[j]);
            }
        }
        if exists|j: int|
            0 <= j < found.len() && (#[trigger] found[j]).0.pid == child && found[j].0.ppid
                == pid {
            let j = choose|j: int|
                0 <= j < found.len() && (#[trigger] found[j]).0.pid == child && found[j].0.ppid
                    == pid;
            if j == last {
                assert(all[before.len() as int] == child);
            } else {
                assert(shorter[j] == found[j]);
                assert(before.contains(child));
                let k = choose|k: int| 0 <= k < before.len() && before[k] == child;
                assert(all[k] == child);
            }
        }
    }
}

/// How many of some listed processes have a readable and sound `stat` file.
pub open spec fn sound_count(list: Seq<ProcStat>) -> nat
    decreases list.len(),
{
    if list.len() == 0 {
        0
    } else {
        sound_count(list.drop_last()) + if is_sound(list.last()) {
            1nat
        } else {
            0nat
        }
    }
}

/// Every listed process with a sound `stat` file is found once, in its place, with what its own
/// file shows; its share is that since the earlier count for the same number.
pub proof fn surveys_find_every_process(
    list: Seq<ProcStat>,
    prev: Map<u32, ProcTicks>,
    elapsed_ns: u64,
    i: int,
)
    requires
        0 <= i < list.len(),
    ensures
        ({
            let found = survey(list, prev, elapsed_ns);
            let at = sound_count(list.take(i)) as int;
            let pid = list[i].pid;
            &&& found.len() == sound_count(list)
            &&& is_sound(list[i]) ==> {
                let now = stat_ticks(list[i].stat->Ok_0@);
                &&& at < found.len()
                &&& found[at].0 == stat_process(
                    pid,
                    list[i].stat->Ok_0@,
                    if prev.dom().contains(pid) {
                        Some(prev[pid])
                    } else {
                        None
                    },
                    elapsed_ns,
                )
                &&& found[at].0.pid == pid
                &&& found[at].1 == now
                &&& prev.dom().contains(pid) ==> found[at].0.cpu_pct == processor_share(
                    Some(prev[pid]),
                    now,
                    elapsed_ns,
                )
                &&& !prev.dom().contains(pid) ==> found[at].0.cpu_pct.is_fraction(0, 1)
            }
        }),
    decreases list.len(),
{
    let shorter = list.drop_last();
    lemma_survey_len(list, prev, elapsed_ns);
    lemma_survey_len(shorter, prev, elapsed_ns);
    if i < list.len() - 1 {
        surveys_find_every_process(shorter, prev, elapsed_ns, i);
        assert(shorter.take(i) =~= list.take(i));
        assert(shorter[i] == list[i]);
        if is_sound(list[i]) {
            let at = sound_count(list.take(i)) as int;
            assert(survey(list, prev, elapsed_ns)[at] == survey(shorter, prev, elapsed_ns)[at]);
        }
    } else {
        assert(list.take(i) =~= shorter);
    }
}

proof fn lemma_survey_len(list: Seq<ProcStat>, prev: Map<u32, ProcTicks>, elapsed_ns: u64)
    ensures
        survey(list, prev, elapsed_ns).len() == sound_count(list),
    decreases list.len(),
{
    if list.len() > 0 {
        lemma_survey_len(list.drop_last(), prev, elapsed_ns);
    }
}

/// What is remembered of a process for the next survey is its own count, and nothing is remembered
/// of a process that was not found.
pub proof fn counts_are_remembered(found: Seq<(ProcessView, ProcTicks)>, i: int)
    requires
        0 <= i < found.len(),
        forall|j: int| i < j < found.len() ==> (#[trigger] found[j]).0.pid != found[i].0.pid,
    ensures
        ticks_by_pid(found).dom().contains(found[i].0.pid),
        ticks_by_pid(found)[found[i].0.pid] == found[i].1,
    decreases found.len(),
{
    if i < found.len() - 1 {
        let shorter = found.drop_last();
        assert forall|j: int| i < j < shorter.len() implies (#[trigger] shorter[j]).0.pid
            != shorter[i].0.pid by {
            assert(shorter[j] == found[j]);
        }
        counts_are_remembered(shorter, i);
        assert(found[found.len() - 1].0.pid != found[i].0.pid);
    }
}

/// Nothing is remembered of a process that was not found.
pub proof fn nothing_else_is_remembered(found: Seq<(ProcessView, ProcTicks)>, pid: u32)
    requires
        forall|j: int| 0 <= j < found.len() ==> (#[trigger] found[j]).0.pid != pid,
    ensures
        !ticks_by_pid(found).dom().contains(pid),
    decreases found.len(),
{
    if found.len() > 0 {
        let shorter = found.drop_last();
        assert forall|j: int| 0 <= j < shorter.len() implies (#[trigger] shorter[j]).0.pid
            != pid by {
            assert(shorter[j] == found[j]);
        }
        nothing_else_is_remembered(shorter, pid);
        assert(found[found.len() - 1].0.pid != pid);
    }
}

/// The details of a process are its own: the open files and the control group that were read for it.
pub proof fn details_are_their_own(
    processes: Seq<ProcessView>,
    details: Seq<ProcessDetails>,
    i: int,
)
    requires
        0 <= i < processes.len(),
    ensures
        ({
            let d = detailed(processes, details);
            &&& d.len() == processes.len()
            &&& d[i].open_fds == details[i].open_fds
            &&& d[i].cgroup == details[i].cgroup@
            &&& d[i].pid == processes[i].pid
            &&& d[i].ppid == processes[i].ppid
            &&& d[i].name == processes[i].name
            &&& d[i].state == processes[i].state
            &&& d[i].cpu_pct == processes[i].cpu_pct
            &&& d[i].mem_bytes == processes[i].mem_bytes
            &&& d[i].threads == processes[i].threads
            &&& d[i].children == processes[i].children
        }),
{
}

/// All processes are reported where there are up to fifty, and otherwise fifty of them; each is one
/// of those found.
pub proof fn fifty_are_reported(processes: Seq<ProcessView>, own: Option<u32>, i: int)
    ensures
        processes.len() <= 50 ==> top(processes, own).len() == processes.len(),
        processes.len() > 50 ==> top(processes, own).len() == 50,
        0 <= i < top(processes, own).len() ==> processes.contains(top(processes, own)[i]),
{
    busiest_come_first(processes, own);
    lemma_picks(processes, own);
    if 0 <= i < top(processes, own).len() {
        assert(processes[picks(processes, own)[i]] == top(processes, own)[i]);
    }
}

/// Counters may come back to zero: what counts is by how much they went on, together and reduced to
/// 64 bits.
pub proof fn ticks_may_wrap(before: ProcTicks, now: ProcTicks, elapsed_ns: u64)
    requires
        elapsed_ns > 1_000_000,
    ensures
        processor_share(Some(before), now, elapsed_ns).is_fraction(
            1_000_000_000 * collector::low_bits(
                collector::grown(before.utime, now.utime) + collector::grown(
                    before.stime,
                    now.stime,
                ),
            ),
            elapsed_ns as int,
        ),
{
    let user = collector::grown(before.utime, now.utime);
    let kernel = collector::grown(before.stime, now.stime);
    collector::lemma_low_bits(user, user as u64, kernel as u64);
    let (n, e) = (collector::low_bits(user + kernel), elapsed_ns as int);
    assert((100_000_000_000 * n) * e == (1_000_000_000 * n) * (e * 100) && e * 100 > 0)
        by (nonlinear_arith)
        requires
            e > 0,
    ;
}

} // verus!
