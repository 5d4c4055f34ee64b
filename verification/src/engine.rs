//! One cycle of monitoring: what is collected and when, what the snapshot holds, and how long to
//! wait for the next one.
//!
//! A cycle first takes the readings that every snapshot has anew. Disks and processes are looked at
//! less often; in between, the snapshot holds what was found last.
use crate::collector;
use crate::collector::cpu;
use crate::collector::cpu::{CpuCollector, CpuRawStat};
use crate::collector::disk;
use crate::collector::disk::{DiskCollector, DiskContext, MountSample};
use crate::collector::latency;
use crate::collector::latency::{DiskRawStat, Latency, TracerHandles};
use crate::collector::memory;
use crate::collector::memory::{MemoryCollector, SwapCount};
use crate::collector::network;
use crate::collector::network::{NetworkCollector, NetworkReading};
use crate::collector::process;
use crate::collector::process::{CgroupFiles, ProcStat, ProcTicks, ProcessCollector};
use crate::collector::thermal;
use crate::collector::thermal::{ThermalCollector, ZoneReading};
use crate::collector::{CollectorError, FileRead, IoError, TextRead};
use crate::frequency;
use crate::frequency::FrequencyController;
use crate::metrics;
use crate::metrics::{
    CpuMetrics, CpuView, DeviceView, DiskMetrics, MemoryMetrics, NetworkMetrics, ProcessInfo,
    ProcessMetrics, ProcessView, SnapshotView, SystemSnapshot, ThermalInfo, Timestamp,
};
use crate::output::OutputRouter;
use crate::registry;
use crate::soundness;
use crate::text;
use vstd::prelude::*;

verus! {

/// Disks and processes are looked at no more often than this, in nanoseconds.
pub const SLOW_INTERVAL: u64 = 500_000_000;

/// What a cycle measures anew every time.
pub struct Readings {
    pub thermal: ThermalInfo,
    pub cpu: CpuMetrics,
    pub memory: MemoryMetrics,
    pub network: NetworkMetrics,
}

/// The files for these measurements, and when the memory and the network were read.
pub struct FastInputs<'a> {
    pub zones: &'a Vec<ZoneReading>,
    pub stat: FileRead<'a>,
    pub meminfo: TextRead<'a>,
    pub vmstat: TextRead<'a>,
    pub memory_ns: u64,
    pub net_dev: FileRead<'a>,
    pub snmp: FileRead<'a>,
    pub network_ns: u64,
}

/// The files for the disks, what was found out about the mounts, and when the files were read.
pub struct DiskInputs<'a> {
    pub mounts: FileRead<'a>,
    pub diskstats: FileRead<'a>,
    pub samples: &'a Vec<MountSample>,
    pub now_ns: u64,
}

/// What an engine remembers from cycle to cycle.
#[verifier::ext_equal]
pub struct EngineState {
    pub cpu: Option<Seq<CpuRawStat>>,
    pub memory: Option<SwapCount>,
    pub network: NetworkReading,
    pub disks: Seq<(Seq<char>, DiskRawStat)>,
    pub disk_ns: Option<u64>,
    pub windows: Seq<(Seq<char>, Seq<Latency>)>,
    pub tracer: TracerHandles,
    pub ticks: Map<u32, ProcTicks>,
    pub ticks_ns: Option<u64>,
    pub hostname: Seq<char>,
    pub interval_ns: u128,
    pub last_disk_ns: u64,
    pub last_process_ns: u64,
    pub cached_disk: Seq<DeviceView>,
    pub cached_processes: Seq<ProcessView>,
    pub base: nat,
    pub current: nat,
    pub threshold: u64,
}

/// What is wrong with the readings for the processors, if anything.
pub open spec fn cpu_fault(stat: FileRead<'_>) -> Option<Seq<char>> {
    match stat {
        Err(e) => Some("IO error: "@ + e.message@),
        Ok(data) => if cpu::cpu_stats(data@).len() == 0 {
            Some("Parse error: "@ + "no cpu stats"@)
        } else {
            None
        },
    }
}

/// What is wrong with the readings for the memory, if anything.
pub open spec fn memory_fault(meminfo: TextRead<'_>, vmstat: TextRead<'_>) -> Option<Seq<char>> {
    match (meminfo, vmstat) {
        (Err(e), _) => Some("IO error: "@ + e.message@),
        (Ok(m), Err(e)) => Some("IO error: "@ + e.message@),
        (Ok(m), Ok(v)) => None,
    }
}

/// What is wrong with the readings for the network, if anything.
pub open spec fn network_fault(net_dev: FileRead<'_>) -> Option<Seq<char>> {
    match net_dev {
        Err(e) => Some("IO error: "@ + e.message@),
        Ok(data) => None,
    }
}

/// What is wrong with the readings for the disks, if anything.
pub open spec fn disk_fault(input: DiskInputs<'_>) -> Option<Seq<char>> {
    match (input.mounts, input.diskstats) {
        (Err(e), _) => Some("IO error: "@ + e.message@),
        (Ok(m), Err(e)) => Some("IO error: "@ + e.message@),
        (Ok(m), Ok(d)) => None,
    }
}

/// The load that a sound reading shows.
pub open spec fn cpu_shown(prev: Option<Seq<CpuRawStat>>, stat: FileRead<'_>) -> CpuView {
    let stats = cpu::cpu_stats(stat->Ok_0@);
    match prev {
        Some(p) => cpu::load(p, stats),
        None => cpu::first_load(stats.len()),
    }
}

/// The state after a sound reading of the processors.
pub open spec fn after_cpu(s: EngineState, input: FastInputs<'_>) -> EngineState {
    EngineState { cpu: Some(cpu::cpu_stats(input.stat->Ok_0@)), ..s }
}

/// The state after a sound reading of the memory, too.
pub open spec fn after_memory(s: EngineState, input: FastInputs<'_>) -> EngineState {
    EngineState {
        memory: Some(memory::swap_count(input.vmstat->Ok_0@, input.memory_ns)),
        ..after_cpu(s, input)
    }
}

/// The state after a sound reading of the network, too.
pub open spec fn after_network(s: EngineState, input: FastInputs<'_>) -> EngineState {
    EngineState {
        network: network::reading(input.net_dev->Ok_0@, input.snmp, input.network_ns),
        ..after_memory(s, input)
    }
}

/// Whether enough time has passed since disks or processes were last looked at. The limit is the
/// sampling interval, reduced to 64 bits, where that is longer than the least one.
pub open spec fn is_due(last_ns: u64, now_ns: u64, interval_ns: u128) -> bool {
    let interval = (interval_ns % 0x1_0000_0000_0000_0000) as u64;
    let limit = if interval > SLOW_INTERVAL {
        interval
    } else {
        SLOW_INTERVAL
    };
    collector::excess(now_ns, last_ns) >= limit
}

/// Whether there is a sample for every mount, with no more buckets than there can be.
pub open spec fn disk_inputs_fit(input: DiskInputs<'_>) -> bool {
    &&& input.mounts matches Ok(data) ==> input.samples@.len() == disk::mounts(data@).len()
    &&& forall|i: int|
        0 <= i < input.samples@.len() ==> ((#[trigger] input.samples@[i]).buckets matches Some(b)
            ==> b@.len() <= latency::BUCKETS)
}

/// What a reading of the disks is compared with.
pub open spec fn disk_context(s: EngineState, input: DiskInputs<'_>) -> DiskContext {
    DiskContext {
        prev: s.disks,
        cur: disk::disks(input.diskstats->Ok_0@),
        elapsed_ns: collector::elapsed(s.disk_ns, input.now_ns),
        tracer: s.tracer,
    }
}

/// The devices that a sound reading of the disks shows.
pub open spec fn disk_shown(s: EngineState, input: DiskInputs<'_>) -> Seq<DeviceView> {
    disk::devices(
        disk_context(s, input),
        s.windows,
        disk::mounts(input.mounts->Ok_0@),
        input.samples@,
    ).0
}

/// The state after a sound reading of the disks at a time.
pub open spec fn after_disk(s: EngineState, input: DiskInputs<'_>, now_ns: u64) -> EngineState {
    EngineState {
        disks: disk::disks(input.diskstats->Ok_0@),
        disk_ns: Some(input.now_ns),
        windows: disk::devices(
            disk_context(s, input),
            s.windows,
            disk::mounts(input.mounts->Ok_0@),
            input.samples@,
        ).1,
        last_disk_ns: now_ns,
        cached_disk: disk_shown(s, input),
        ..s
    }
}

/// The processes that a survey shows.
pub open spec fn survey_shown(s: EngineState, list: Seq<ProcStat>, time_ns: u64) -> Seq<
    (ProcessView, ProcTicks),
> {
    process::survey(list, s.ticks, collector::elapsed(s.ticks_ns, time_ns))
}

/// The busiest processes that a survey shows.
pub open spec fn processes_shown(s: EngineState, list: Seq<ProcStat>, time_ns: u64, own: u32) -> Seq<
    ProcessView,
> {
    process::top(
        process::families(survey_shown(s, list, time_ns)),
        process::kept_process(s.ticks_ns, own),
    )
}

/// The state after a survey of the processes at a time.
pub open spec fn after_survey(s: EngineState, list: Seq<ProcStat>, time_ns: u64, now_ns: u64) -> EngineState {
    EngineState {
        ticks: process::ticks_by_pid(survey_shown(s, list, time_ns)),
        ticks_ns: Some(time_ns),
        last_process_ns: now_ns,
        ..s
    }
}

/// The view of the processes just found, where there are any.
pub open spec fn shown_processes(found: Option<ProcessMetrics>) -> Option<Seq<ProcessView>> {
    match found {
        Some(p) => Some(p@),
        None => None,
    }
}

/// The state once the processes just found, where there are any, are remembered.
pub open spec fn after_processes(s: EngineState, found: Option<Seq<ProcessView>>) -> EngineState {
    match found {
        Some(p) => EngineState { cached_processes: p, ..s },
        None => s,
    }
}

/// What there is on the disks, or what is wrong with their readings, and the state afterwards.
pub open spec fn disks_taken(s: EngineState, input: Option<DiskInputs<'_>>, now_ns: u64) -> (
    Result<Seq<DeviceView>, Seq<char>>,
    EngineState,
) {
    if !is_due(s.last_disk_ns, now_ns, s.interval_ns) {
        (Ok(s.cached_disk), s)
    } else {
        match disk_fault(input->0) {
            Some(fault) => (Err(fault), EngineState { last_disk_ns: now_ns, ..s }),
            None => (Ok(disk_shown(s, input->0)), after_disk(s, input->0, now_ns)),
        }
    }
}

/// How long to wait before the next cycle, and whether that is longer than usual.
#[derive(Debug, Clone, Copy, PartialEq, Eq, Structural)]
pub struct Pause {
    pub interval_ns: u128,
    pub throttled: bool,
}

/// An error with the name of the part that it came from.
fn named_error(part: &str, e: &CollectorError) -> (res: String)
    ensures
        res@ == part@ + collector::error_text(*e),
{
    part.to_owned().concat(e.message().as_str())
}

/// Watches a machine.
pub struct Engine {
    cpu: CpuCollector,
    memory: MemoryCollector,
    disk: DiskCollector,
    network: NetworkCollector,
    process: ProcessCollector,
    thermal: ThermalCollector,
    freq_ctrl: FrequencyController,
    output: OutputRouter,
    hostname: String,
    interval_ns: u128,
    last_process_ns: u64,
    last_disk_ns: u64,
    cached_processes: ProcessMetrics,
    cached_disk: DiskMetrics,
}

impl View for Engine {
    type V = EngineState;

    closed spec fn view(&self) -> EngineState {
        EngineState {
            cpu: self.cpu.previous(),
            memory: self.memory.previous(),
            network: self.network.previous(),
            disks: self.disk.previous(),
            disk_ns: self.disk.time_ns(),
            windows: self.disk.windows(),
            tracer: self.disk.tracer(),
            ticks: self.process.ticks(),
            ticks_ns: self.process.time_ns(),
            hostname: self.hostname@,
            interval_ns: self.interval_ns,
            last_disk_ns: self.last_disk_ns,
            last_process_ns: self.last_process_ns,
            cached_disk: self.cached_disk@,
            cached_processes: self.cached_processes@,
            base: self.freq_ctrl.base(),
            current: self.freq_ctrl.current(),
            threshold: self.freq_ctrl.threshold(),
        }
    }
}

impl Engine {
    /// The intervals are such as a duration can hold.
    pub open spec fn wf(&self) -> bool {
        &&& self@.base <= frequency::MAX_INTERVAL
        &&& self@.current <= frequency::MAX_INTERVAL
    }

    /// The formats and endpoints for output.
    pub closed spec fn router(&self) -> OutputRouter {
        self.output
    }

    /// An engine that has seen nothing yet.
    pub fn new(
        interval_ns: u128,
        temp_threshold: u64,
        hostname: String,
        tracer: TracerHandles,
        output: OutputRouter,
    ) -> (res: Self)
        requires
            interval_ns <= frequency::MAX_INTERVAL,
        ensures
            res.wf(),
            res.router() == output,
            res@ == (EngineState {
                cpu: None,
                memory: None,
                network: NetworkReading { interfaces: Seq::empty(), tcp: None, time_ns: None },
                disks: Seq::empty(),
                disk_ns: None,
                windows: Seq::empty(),
                tracer,
                ticks: Map::empty(),
                ticks_ns: None,
                hostname: hostname@,
                interval_ns,
                last_disk_ns: 0,
                last_process_ns: 0,
                cached_disk: Seq::empty(),
                cached_processes: Seq::empty(),
                base: interval_ns as nat,
                current: interval_ns as nat,
                threshold: temp_threshold,
            }),
    {
        let res = Engine {
            cpu: CpuCollector::new(),
            memory: MemoryCollector::new(),
            disk: DiskCollector::new(tracer),
            network: NetworkCollector::new(),
            process: ProcessCollector::new(),
            thermal: ThermalCollector::new(),
            freq_ctrl: FrequencyController::new(interval_ns, temp_threshold),
            output,
            hostname,
            interval_ns,
            last_process_ns: 0,
            last_disk_ns: 0,
            cached_processes: ProcessMetrics { processes: Vec::new() },
            cached_disk: DiskMetrics { devices: Vec::new() },
        };
        assert(res@.cached_disk =~= Seq::empty());
        assert(res@.cached_processes =~= Seq::empty());
        res
    }

    /// The formats and endpoints for output.
    pub fn output_router(&self) -> (res: &OutputRouter)
        ensures
            *res == self.router(),
    {
        &self.output
    }

    /// The descriptor of the map with the latency buckets, where they can be read.
    pub fn bucket_source(&self) -> (res: Option<i32>)
        ensures
            res == if latency::has_buckets(self@.tracer) {
                Some(self@.tracer.histogram_fd)
            } else {
                None
            },
    {
        self.disk.bucket_source()
    }

    /// The name of the host that the contents of `/etc/hostname` give, without space around it.
    pub fn host_name(contents: TextRead<'_>) -> (res: String)
        ensures
            res@ == text::trimmed(
                match contents {
                    Ok(s) => s@,
                    Err(e) => "unknown"@,
                },
            ),
    {
        text::trim(
            match contents {
                Ok(s) => s,
                Err(e) => "unknown",
            },
        )
    }

    /// The readings that a cycle takes anew. The first of the processors, the memory and the
    /// network that fails ends the cycle, with what came before it remembered.
    pub fn take_readings(&mut self, input: FastInputs<'_>) -> (res: Result<Readings, String>)
        requires
            old(self).wf(),
            input.snmp matches Ok(data) ==> network::tcp_headings_whole(data@),
        ensures
            final(self).wf(),
            final(self).router() == old(self).router(),
            match (
                cpu_fault(input.stat),
                memory_fault(input.meminfo, input.vmstat),
                network_fault(input.net_dev),
            ) {
                (Some(fault), _, _) => {
                    &&& res matches Err(m) && m@ == "cpu: "@ + fault
                    &&& final(self)@ == old(self)@
                },
                (None, Some(fault), _) => {
                    &&& res matches Err(m) && m@ == "memory: "@ + fault
                    &&& final(self)@ == after_cpu(old(self)@, input)
                },
                (None, None, Some(fault)) => {
                    &&& res matches Err(m) && m@ == "network: "@ + fault
                    &&& final(self)@ == after_memory(old(self)@, input)
                },
                (None, None, None) => {
                    &&& final(self)@ == after_network(old(self)@, input)
                    &&& res matches Ok(r) && r.thermal@ == thermal::temperatures(input.zones@)
                        && r.cpu@ == cpu_shown(old(self)@.cpu, input.stat) && r.memory
                        == memory::usage(
                        input.meminfo->Ok_0@,
                        input.vmstat->Ok_0@,
                        input.memory_ns,
                        old(self)@.memory,
                    ) && r.network@ == network::activity(
                        old(self)@.network,
                        final(self)@.network,
                    )
                },
            },
    {
        let thermal: ThermalInfo = match self.thermal.collect(input.zones) {
            Ok(t) => t,
            Err(e) => ThermalInfo { zones: Vec::new(), max_temp_millidegrees: 0 },
        };
        let cpu: CpuMetrics = match self.cpu.collect(input.stat) {
            Ok(m) => m,
            Err(e) => {
                return Err(named_error("cpu: ", &e));
            },
        };
        let memory: MemoryMetrics = match self.memory.collect(
            input.meminfo,
            input.vmstat,
            input.memory_ns,
        ) {
            Ok(m) => m,
            Err(e) => {
                return Err(named_error("memory: ", &e));
            },
        };
        let network: NetworkMetrics = match self.network.collect(
            input.net_dev,
            input.snmp,
            input.network_ns,
        ) {
            Ok(m) => m,
            Err(e) => {
                return Err(named_error("network: ", &e));
            },
        };
        Ok(Readings { thermal, cpu, memory, network })
    }

    fn due(&self, last_ns: u64, now_ns: u64) -> (res: bool)
        ensures
            res == is_due(last_ns, now_ns, self@.interval_ns),
    {
        let interval: u64 = (self.interval_ns % 0x1_0000_0000_0000_0000) as u64;
        let limit: u64 = if interval > SLOW_INTERVAL {
            interval
        } else {
            SLOW_INTERVAL
        };
        now_ns.saturating_sub(last_ns) >= limit
    }

    /// Whether the disks are to be looked at.
    pub fn disk_due(&self, now_ns: u64) -> (res: bool)
        ensures
            res == is_due(self@.last_disk_ns, now_ns, self@.interval_ns),
    {
        self.due(self.last_disk_ns, now_ns)
    }

    /// Whether the processes are to be looked at.
    pub fn processes_due(&self, now_ns: u64) -> (res: bool)
        ensures
            res == is_due(self@.last_process_ns, now_ns, self@.interval_ns),
    {
        self.due(self.last_process_ns, now_ns)
    }

    /// What there is on the disks. They are looked at where that is due, and even where that fails
    /// it counts as having been done; otherwise what was found last is given again.
    pub fn take_disks(&mut self, input: Option<DiskInputs<'_>>, now_ns: u64) -> (res: Result<
        DiskMetrics,
        String,
    >)
        requires
            old(self).wf(),
            is_due(old(self)@.last_disk_ns, now_ns, old(self)@.interval_ns) ==> input is Some,
            input matches Some(i) ==> disk_inputs_fit(i),
        ensures
            final(self).wf(),
            final(self).router() == old(self).router(),
            if is_due(old(self)@.last_disk_ns, now_ns, old(self)@.interval_ns) {
                match disk_fault(input->0) {
                    Some(fault) => {
                        &&& res matches Err(m) && m@ == "disk: "@ + fault
                        &&& final(self)@ == (EngineState { last_disk_ns: now_ns, ..old(self)@ })
                    },
                    None => {
                        &&& res matches Ok(d) && d@ == disk_shown(old(self)@, input->0)
                        &&& final(self)@ == after_disk(old(self)@, input->0, now_ns)
                    },
                }
            } else {
                &&& res matches Ok(d) && d@ == old(self)@.cached_disk
                &&& final(self)@ == old(self)@
            },
    {
        if !self.disk_due(now_ns) {
            return Ok(self.cached_disk.clone());
        }
        match input {
            Some(input) => {
                self.last_disk_ns = now_ns;
                match self.disk.collect(
                    input.mounts,
                    input.diskstats,
                    input.samples,
                    input.now_ns,
                ) {
                    Ok(found) => {
                        self.cached_disk = found.clone();
                        Ok(found)
                    },
                    Err(e) => Err(named_error("disk: ", &e)),
                }
            },
            None => Ok(self.cached_disk.clone()),
        }
    }

    /// What follows the readings of a cycle: what there is on the disks, and whether the processes
    /// are to be looked at. A failure with the disks ends the cycle, and nothing is known of the
    /// processes that was not known before.
    pub fn after_readings(&mut self, disk: Option<DiskInputs<'_>>, now_ns: u64) -> (res: Result<
        (DiskMetrics, bool),
        String,
    >)
        requires
            old(self).wf(),
            is_due(old(self)@.last_disk_ns, now_ns, old(self)@.interval_ns) ==> disk is Some,
            disk matches Some(i) ==> disk_inputs_fit(i),
        ensures
            final(self).wf(),
            final(self).router() == old(self).router(),
            final(self)@.ticks == old(self)@.ticks,
            final(self)@.ticks_ns == old(self)@.ticks_ns,
            final(self)@.last_process_ns == old(self)@.last_process_ns,
            final(self)@.cached_processes == old(self)@.cached_processes,
            match disks_taken(old(self)@, disk, now_ns) {
                (Ok(devices), state) => {
                    &&& res matches Ok((d, due)) && d@ == devices && due == is_due(
                        old(self)@.last_process_ns,
                        now_ns,
                        old(self)@.interval_ns,
                    )
                    &&& final(self)@ == state
                },
                (Err(fault), state) => {
                    &&& res matches Err(m) && m@ == "disk: "@ + fault
                    &&& final(self)@ == state
                },
            },
    {
        match self.take_disks(disk, now_ns) {
            Ok(d) => Ok((d, self.processes_due(now_ns))),
            Err(e) => Err(e),
        }
    }

    /// Surveys the processes, of which `own` is the one that asks. Even where that fails it counts
    /// as having been done.
    pub fn survey_processes(
        &mut self,
        listing: Result<&Vec<ProcStat>, IoError>,
        time_ns: u64,
        now_ns: u64,
        own: u32,
    ) -> (res: Result<ProcessMetrics, String>)
        requires
            old(self).wf(),
            listing matches Ok(list) ==> forall|i: int|
                0 <= i < list@.len() ==> ((#[trigger] list@[i]).stat matches Ok(data)
                    ==> process::comm_ordered(data@)),
        ensures
            final(self).wf(),
            final(self).router() == old(self).router(),
            match listing {
                Err(e) => {
                    &&& res matches Err(m) && m@ == "process: "@ + ("IO error: "@ + e.message@)
                    &&& final(self)@ == (EngineState { last_process_ns: now_ns, ..old(self)@ })
                },
                Ok(list) => {
                    &&& res matches Ok(m) && m@ == processes_shown(
                        old(self)@,
                        list@,
                        time_ns,
                        own,
                    )
                    &&& final(self)@ == after_survey(old(self)@, list@, time_ns, now_ns)
                },
            },
    {
        self.last_process_ns = now_ns;
        match self.process.collect(listing, time_ns, own) {
            Ok(found) => Ok(found),
            Err(e) => Err(named_error("process: ", &e)),
        }
    }

    /// The processes for a snapshot: those just found, which are remembered, or else what was found
    /// last.
    pub fn take_processes(&mut self, found: Option<ProcessMetrics>) -> (res: ProcessMetrics)
        requires
            old(self).wf(),
        ensures
            final(self).wf(),
            final(self).router() == old(self).router(),
            match found {
                Some(p) => {
                    &&& res@ == p@
                    &&& final(self)@ == (EngineState { cached_processes: p@, ..old(self)@ })
                },
                None => {
                    &&& res@ == old(self)@.cached_processes
                    &&& final(self)@ == old(self)@
                },
            },
    {
        match found {
            Some(p) => {
                self.cached_processes = p.clone();
                p
            },
            None => self.cached_processes.clone(),
        }
    }

    /// The snapshot of a cycle.
    pub fn snapshot(
        &self,
        timestamp: Timestamp,
        readings: Readings,
        disk: DiskMetrics,
        processes: ProcessMetrics,
    ) -> (res: SystemSnapshot)
        ensures
            res@ == (SnapshotView {
                timestamp: timestamp.0,
                hostname: self@.hostname,
                cpu: readings.cpu@,
                memory: readings.memory,
                disk: disk@,
                network: readings.network@,
                processes: processes@,
                thermal: readings.thermal@,
            }),
    {
        SystemSnapshot {
            timestamp,
            hostname: self.hostname.clone(),
            cpu: readings.cpu,
            memory: readings.memory,
            disk,
            network: readings.network,
            processes,
            thermal: readings.thermal,
        }
    }

    /// Ends a cycle: the snapshot holds the readings, what there is on the disks, and the processes
    /// just found, which are remembered, or else those found last.
    pub fn finish(
        &mut self,
        timestamp: Timestamp,
        readings: Readings,
        disk: DiskMetrics,
        found: Option<ProcessMetrics>,
    ) -> (res: SystemSnapshot)
        requires
            old(self).wf(),
        ensures
            final(self).wf(),
            final(self).router() == old(self).router(),
            final(self)@ == after_processes(old(self)@, shown_processes(found)),
            res@ == (SnapshotView {
                timestamp: timestamp.0,
                hostname: old(self)@.hostname,
                cpu: readings.cpu@,
                memory: readings.memory,
                disk: disk@,
                network: readings.network@,
                processes: final(self)@.cached_processes,
                thermal: readings.thermal@,
            }),
    {
        let processes: ProcessMetrics = self.take_processes(found);
        self.snapshot(timestamp, readings, disk, processes)
    }

    /// How long to wait after a cycle: after a snapshot as its highest temperature demands, and
    /// after a failure as before.
    pub fn pause(&mut self, max_temp_millidegrees: Option<u64>) -> (res: Pause)
        requires
            old(self).wf(),
            max_temp_millidegrees matches Some(temp) ==> frequency::backoff(
                old(self)@.base,
                old(self)@.threshold,
                frequency::degrees(temp),
            ) <= frequency::MAX_INTERVAL,
        ensures
            final(self).wf(),
            final(self).router() == old(self).router(),
            match max_temp_millidegrees {
                Some(temp) => {
                    let current = frequency::backoff(
                        old(self)@.base,
                        old(self)@.threshold,
                        frequency::degrees(temp),
                    );
                    &&& final(self)@ == (EngineState { current, ..old(self)@ })
                    &&& res.interval_ns == current
                    &&& res.throttled == (current > old(self)@.base)
                },
                None => {
                    &&& final(self)@ == old(self)@
                    &&& res.interval_ns == old(self)@.current
                    &&& !res.throttled
                },
            },
    {
        match max_temp_millidegrees {
            Some(temp) => {
                let interval_ns: u128 = self.freq_ctrl.update(frequency::to_degrees(temp));
                Pause { interval_ns, throttled: self.freq_ctrl.is_throttled() }
            },
            None => Pause { interval_ns: self.freq_ctrl.current_interval(), throttled: false },
        }
    }
}

/// Once the disks or the processes were looked at, they are left alone for at least half a second,
/// and for as long as the sampling interval where that fits 64 bits.
pub proof fn slow_parts_rest(last_ns: u64, now_ns: u64, interval_ns: u128)
    requires
        is_due(last_ns, now_ns, interval_ns),
    ensures
        now_ns - last_ns >= SLOW_INTERVAL,
        interval_ns <= u64::MAX ==> now_ns - last_ns >= interval_ns,
        !is_due(now_ns, now_ns, interval_ns),
{
}

/// Whether what is kept between cycles is sound: the latency windows hold only intervals with
/// requests, and every reading that is kept has a value.
pub open spec fn state_sound(s: EngineState) -> bool {
    &&& latency::windows_sound(s.windows)
    &&& forall|i: int|
        0 <= i < s.cached_disk.len() ==> soundness::device_defined(#[trigger] s.cached_disk[i])
    &&& forall|i: int|
        0 <= i < s.cached_processes.len() ==> soundness::process_defined(
            #[trigger] s.cached_processes[i],
        )
}

/// What a survey shows, once it is filled in, for every process that is shown, keeps the state
/// sound when it is remembered.
pub proof fn surveys_keep_the_state_sound(
    s: EngineState,
    list: Seq<ProcStat>,
    time_ns: u64,
    now_ns: u64,
    own: u32,
    found: Seq<ProcessView>,
)
    requires
        state_sound(s),
        is_filled_in(found, processes_shown(s, list, time_ns, own)),
    ensures
        state_sound(after_survey(s, list, time_ns, now_ns)),
        state_sound(after_processes(after_survey(s, list, time_ns, now_ns), Some(found))),
        forall|i: int| 0 <= i < found.len() ==> soundness::process_defined(#[trigger] found[i]),
{
    let shown = processes_shown(s, list, time_ns, own);
    assert forall|i: int| 0 <= i < found.len() implies soundness::process_defined(
        #[trigger] found[i],
    ) by {
        let (open_fds, data, files) = choose|
            open_fds: u64,
            data: Option<Seq<u8>>,
            files: CgroupFiles,
        |
            found[i] == #[trigger] process::filled_in(shown[i], open_fds, data, files);
        process::processes_have_values(
            list,
            s.ticks,
            collector::elapsed(s.ticks_ns, time_ns),
            process::kept_process(s.ticks_ns, own),
            data,
            files,
            open_fds,
        );
        assert(process::filled_in(shown[i], open_fds, data, files) == process::with_details(
            shown[i],
            open_fds,
            process::group(data, files),
        ));
    }
}

/// Whether processes are some others with their open files and their control groups.
pub open spec fn is_filled_in(found: Seq<ProcessView>, shown: Seq<ProcessView>) -> bool {
    &&& found.len() == shown.len()
    &&& forall|i: int|
        0 <= i < found.len() ==> exists|
            open_fds: u64,
            data: Option<Seq<u8>>,
            files: CgroupFiles,
        |
            #[trigger] found[i] == #[trigger] process::filled_in(shown[i], open_fds, data, files)
}

/// A sound state stays sound through a cycle, and the snapshot of the cycle has no division by zero
/// in it: whether the disks and the processes in it are those kept, or those just found and filled
/// in.
pub proof fn snapshots_have_values(
    s: EngineState,
    fast: FastInputs<'_>,
    slow: DiskInputs<'_>,
    now_ns: u64,
    list: Seq<ProcStat>,
    time_ns: u64,
    own: u32,
    snapshot: SnapshotView,
)
    requires
        state_sound(s),
        snapshot.cpu == cpu_shown(s.cpu, fast.stat),
        snapshot.memory == memory::usage(
            fast.meminfo->Ok_0@,
            fast.vmstat->Ok_0@,
            fast.memory_ns,
            s.memory,
        ),
        snapshot.network == network::activity(s.network, after_network(s, fast).network),
        snapshot.disk == s.cached_disk || snapshot.disk == after_disk(s, slow, now_ns).cached_disk,
        snapshot.processes == s.cached_processes || is_filled_in(
            snapshot.processes,
            processes_shown(s, list, time_ns, own),
        ),
    ensures
        state_sound(after_network(s, fast)),
        state_sound(after_disk(s, slow, now_ns)),
        state_sound(after_processes(s, Some(snapshot.processes))),
        soundness::snapshot_defined(snapshot),
{
    cpu::load_has_values(s.cpu, cpu::cpu_stats(fast.stat->Ok_0@));
    memory::usage_within_total(
        fast.meminfo->Ok_0@,
        fast.vmstat->Ok_0@,
        fast.memory_ns,
        s.memory,
    );
    network::loopback_is_left_out(s.network, after_network(s, fast).network);
    disk::devices_match_mounts(
        disk_context(s, slow),
        s.windows,
        crate::bytes::lines(slow.mounts->Ok_0@),
        slow.samples@,
    );
    if snapshot.processes != s.cached_processes {
        surveys_keep_the_state_sound(s, list, time_ns, now_ns, own, snapshot.processes);
    }
}

/// Disks and processes are looked at again exactly when at least half a second and the sampling
/// interval have passed.
pub proof fn slow_parts_are_due(last_ns: u64, now_ns: u64, interval_ns: u128)
    requires
        interval_ns <= u64::MAX,
    ensures
        is_due(last_ns, now_ns, interval_ns) <==> now_ns - last_ns >= 500_000_000 && now_ns
            - last_ns >= interval_ns,
{
}

/// A second cycle shows what happened since the first one: its counters are compared with those
/// that the first one read, and over the time between the two.
pub proof fn cycles_follow_on(
    s: EngineState,
    first: FastInputs<'_>,
    second: FastInputs<'_>,
)
    requires
        first.stat is Ok,
        second.stat is Ok,
        cpu::cpu_stats(first.stat->Ok_0@).len() > 0,
        cpu::cpu_stats(second.stat->Ok_0@).len() > 0,
    ensures
        ({
            let t = after_network(s, first);
            let (a, b) = (
                cpu::cpu_stats(first.stat->Ok_0@),
                cpu::cpu_stats(second.stat->Ok_0@),
            );
            let shown = cpu_shown(t.cpu, second.stat);
            &&& cpu::went_on(a[0], b[0]) ==> cpu::shows_growth(shown.total, a[0], b[0])
            &&& forall|k: int|
                0 <= k < a.len() - 1 && k < b.len() - 1 && cpu::went_on(a[k + 1], b[k + 1])
                    ==> cpu::shows_growth(#[trigger] shown.per_core[k], a[k + 1], b[k + 1])
            &&& t.memory matches Some(c) && c.time_ns == first.memory_ns && c.pages_in
                == memory::entry(crate::text::text_lines(first.vmstat->Ok_0@), "pswpin"@)
                && c.pages_out == memory::entry(
                crate::text::text_lines(first.vmstat->Ok_0@),
                "pswpout"@,
            )
            &&& t.network.interfaces == network::interfaces(first.net_dev->Ok_0@)
            &&& t.network.time_ns == Some(first.network_ns)
            &&& first.snmp matches Ok(data) ==> t.network.tcp == Some(network::tcp_stat(data@))
            &&& t.hostname == s.hostname && t.disks == s.disks && t.ticks == s.ticks
                && t.cached_disk == s.cached_disk && t.cached_processes == s.cached_processes
                && t.last_disk_ns == s.last_disk_ns && t.last_process_ns == s.last_process_ns
        }),
{
    cpu::processors_show_their_own_ticks(
        cpu::cpu_stats(first.stat->Ok_0@),
        cpu::cpu_stats(second.stat->Ok_0@),
    );
}

/// Disks that are looked at are remembered, with their counters and the time of their reading, and
/// the clock of the processes does not move; until they are due again they are shown as they were.
pub proof fn disks_are_remembered(
    s: EngineState,
    input: DiskInputs<'_>,
    now_ns: u64,
    later_ns: u64,
    later: Option<DiskInputs<'_>>,
)
    requires
        is_due(s.last_disk_ns, now_ns, s.interval_ns),
        input.mounts is Ok,
        input.diskstats is Ok,
        later_ns < now_ns + 500_000_000,
    ensures
        ({
            let (shown, t) = disks_taken(s, Some(input), now_ns);
            &&& shown is Ok
            &&& disks_taken(t, later, later_ns) == (shown, t)
            &&& t.disks == disk::disks(input.diskstats->Ok_0@)
            &&& t.disk_ns == Some(input.now_ns)
            &&& t.last_disk_ns == now_ns
            &&& t.last_process_ns == s.last_process_ns
            &&& t.cpu == s.cpu && t.memory == s.memory && t.network == s.network && t.ticks
                == s.ticks
        }),
{
}

/// Where the disks cannot be read, what is known of them stays, and they are not looked at again
/// before they are due.
pub proof fn disk_failures_change_nothing(
    s: EngineState,
    input: DiskInputs<'_>,
    now_ns: u64,
)
    requires
        is_due(s.last_disk_ns, now_ns, s.interval_ns),
        input.mounts is Err || input.diskstats is Err,
    ensures
        ({
            let (shown, t) = disks_taken(s, Some(input), now_ns);
            &&& shown is Err
            &&& t.disks == s.disks && t.windows == s.windows && t.disk_ns == s.disk_ns
            &&& t.cached_disk == s.cached_disk
            &&& t.last_disk_ns == now_ns
        }),
{
}

/// A survey is compared with the one before: what a process used since then is its share, over the
/// time between the two.
pub proof fn surveys_follow_on(
    s: EngineState,
    first: Seq<ProcStat>,
    first_ns: u64,
    second: Seq<ProcStat>,
    second_ns: u64,
    now_ns: u64,
    i: int,
    j: int,
)
    requires
        first_ns <= second_ns,
        0 <= i < first.len(),
        0 <= j < second.len(),
        process::is_sound(first[i]),
        process::is_sound(second[j]),
        first[i].pid == second[j].pid,
        forall|k: int| i < k < first.len() ==> (#[trigger] first[k]).pid != first[i].pid,
    ensures
        ({
            let t = after_survey(s, first, first_ns, now_ns);
            let found = survey_shown(t, second, second_ns);
            let at = process::sound_count(second.take(j)) as int;
            &&& at < found.len()
            &&& found[at].0.pid == second[j].pid
            &&& found[at].0.cpu_pct == process::processor_share(
                Some(process::stat_ticks(first[i].stat->Ok_0@)),
                process::stat_ticks(second[j].stat->Ok_0@),
                (second_ns - first_ns) as u64,
            )
        }),
{
    let before = survey_shown(s, first, first_ns);
    let ns = collector::elapsed(s.ticks_ns, first_ns);
    let at = process::sound_count(first.take(i)) as int;
    process::surveys_find_every_process(first, s.ticks, ns, i);
    lemma_later_pids(first, s.ticks, ns, i);
    process::counts_are_remembered(before, at);
    let t = after_survey(s, first, first_ns, now_ns);
    process::surveys_find_every_process(
        second,
        t.ticks,
        collector::elapsed(t.ticks_ns, second_ns),
        j,
    );
}

/// What a survey finds behind a process comes from behind it in the list.
proof fn lemma_later_pids(
    list: Seq<ProcStat>,
    prev: Map<u32, ProcTicks>,
    elapsed_ns: u64,
    i: int,
)
    requires
        0 <= i < list.len(),
        process::is_sound(list[i]),
        forall|k: int| i < k < list.len() ==> (#[trigger] list[k]).pid != list[i].pid,
    ensures
        ({
            let found = process::survey(list, prev, elapsed_ns);
            let at = process::sound_count(list.take(i)) as int;
            forall|k: int| at < k < found.len() ==> (#[trigger] found[k]).0.pid != list[i].pid
        }),
    decreases list.len(),
{
    let found = process::survey(list, prev, elapsed_ns);
    let shorter = list.drop_last();
    let at = process::sound_count(list.take(i)) as int;
    process::surveys_find_every_process(list, prev, elapsed_ns, i);
    if i < list.len() - 1 {
        assert(shorter.take(i) =~= list.take(i));
        assert(shorter[i] == list[i]);
        assert forall|k: int| i < k < shorter.len() implies (#[trigger] shorter[k]).pid
            != shorter[i].pid by {
            assert(shorter[k] == list[k]);
        }
        lemma_later_pids(shorter, prev, elapsed_ns, i);
        let before = process::survey(shorter, prev, elapsed_ns);
        assert forall|k: int| at < k < found.len() implies (#[trigger] found[k]).0.pid
            != list[i].pid by {
            if k < before.len() {
                assert(found[k] == before[k]);
            } else {
                assert(list[list.len() - 1].pid != list[i].pid);
            }
        }
    } else {
        assert(list.take(i) =~= shorter);
        process::surveys_find_every_process(list, prev, elapsed_ns, i);
    }
}

/// Disks that are read a second time show what happened since the first time: every mount is
/// compared with what the first reading had for the same disk, over the time between the two.
pub proof fn disks_follow_on(
    s: EngineState,
    first: DiskInputs<'_>,
    second: DiskInputs<'_>,
    now_ns: u64,
    i: int,
)
    requires
        first.diskstats is Ok,
        second.diskstats is Ok,
        second.mounts is Ok,
        first.now_ns <= second.now_ns,
        0 <= i < disk::mounts(second.mounts->Ok_0@).len(),
    ensures
        ({
            let shown = disk_shown(after_disk(s, first, now_ns), second);
            let m = disk::mounts(second.mounts->Ok_0@);
            let name = disk::base_name(m[i].device);
            &&& shown.len() == m.len()
            &&& disk::shows_mount(
                shown[i],
                m[i],
                second.samples@[i].fs,
                registry::lookup(disk::disks(first.diskstats->Ok_0@), name),
                registry::lookup(disk::disks(second.diskstats->Ok_0@), name),
                (second.now_ns - first.now_ns) as u64,
            )
        }),
{
    let t = after_disk(s, first, now_ns);
    disk::mounts_show_their_own_disk(
        disk_context(t, second),
        t.windows,
        disk::mounts(second.mounts->Ok_0@),
        second.samples@,
        i,
    );
}

/// The windows of the latencies go on from reading to reading, and the tracer stays the same.
pub proof fn windows_go_on(s: EngineState, input: DiskInputs<'_>, now_ns: u64)
    ensures
        ({
            let t = after_disk(s, input, now_ns);
            let ctx = DiskContext {
                prev: s.disks,
                cur: disk::disks(input.diskstats->Ok_0@),
                elapsed_ns: match s.disk_ns {
                    Some(before) if before <= input.now_ns => (input.now_ns - before) as u64,
                    _ => 0,
                },
                tracer: s.tracer,
            };
            let taken = disk::devices(
                ctx,
                s.windows,
                disk::mounts(input.mounts->Ok_0@),
                input.samples@,
            );
            &&& t.windows == taken.1
            &&& t.cached_disk == taken.0
            &&& t.tracer == s.tracer
        }),
{
}

/// On the first survey the process that asks is not left out; later on it is treated like others.
pub proof fn surveys_show_the_busiest(
    s: EngineState,
    list: Seq<ProcStat>,
    time_ns: u64,
    own: u32,
)
    ensures
        s.ticks_ns is None ==> processes_shown(s, list, time_ns, own) == process::top(
            process::families(process::survey(list, s.ticks, 0)),
            Some(own),
        ),
        s.ticks_ns matches Some(before) ==> before <= time_ns ==> processes_shown(
            s,
            list,
            time_ns,
            own,
        ) == process::top(
            process::families(process::survey(list, s.ticks, (time_ns - before) as u64)),
            None,
        ),
{
}

} // verus!
