//! What is measured: readings, snapshots of the system, and the metric points made of them.
//!
//! Readings are exact. A reading that is a fraction keeps its operands; a front end evaluates it
//! in floating point when it is shown or sent.
use crate::tags::Tags;
use vstd::prelude::*;

verus! {

/// Nanoseconds since the Unix epoch.
#[derive(Debug, Clone, Copy, PartialEq, Eq, Structural)]
pub struct Timestamp(pub u64);

impl Timestamp {
    /// The timestamp for what the system clock shows: the nanoseconds since the epoch, or nothing
    /// where the clock stands before it.
    pub fn now(since_epoch: Option<u128>) -> (res: Self)
        ensures
            since_epoch is None ==> res.0 == 0,
            since_epoch matches Some(ns) ==> res.0 as int == ns % 0x1_0000_0000_0000_0000,
    {
        match since_epoch {
            Some(ns) => Timestamp((ns % 0x1_0000_0000_0000_0000) as u64),
            None => Timestamp(0),
        }
    }

    /// The timestamp in nanoseconds.
    pub fn as_nanos(&self) -> (res: u64)
        ensures
            res == self.0,
    {
        self.0
    }
}

/// An exact reading.
#[derive(Debug, Clone, Copy, PartialEq, Eq, Structural)]
pub enum Quantity {
    /// A whole number.
    Whole(u64),
    /// `part` as a percentage of `whole`.
    Percent { part: u64, whole: u64 },
    /// `num` divided by `den`.
    Quotient { num: u64, den: u64 },
    /// `amount` times `unit`, per second, over an interval in nanoseconds.
    PerSecond { amount: u64, unit: u64, elapsed_ns: u64 },
    /// Processor time in clock ticks as a percentage of an interval in nanoseconds.
    TickShare { ticks: u64, ticks_per_sec: u64, elapsed_ns: u64 },
}

impl Quantity {
    /// The numerator of the value.
    pub open spec fn numerator(self) -> int {
        match self {
            Quantity::Whole(n) => n as int,
            Quantity::Percent { part, whole } => 100 * part,
            Quantity::Quotient { num, den } => num as int,
            Quantity::PerSecond { amount, unit, elapsed_ns } => 1_000_000_000 * (amount * unit),
            Quantity::TickShare { ticks, ticks_per_sec, elapsed_ns } => 100_000_000_000 * ticks,
        }
    }

    /// The denominator of the value.
    pub open spec fn denominator(self) -> int {
        match self {
            Quantity::Whole(n) => 1,
            Quantity::Percent { part, whole } => whole as int,
            Quantity::Quotient { num, den } => den as int,
            Quantity::PerSecond { amount, unit, elapsed_ns } => elapsed_ns as int,
            Quantity::TickShare { ticks, ticks_per_sec, elapsed_ns } => elapsed_ns * ticks_per_sec,
        }
    }

    /// Whether the reading has a value: no division by zero.
    pub open spec fn defined(self) -> bool {
        self.denominator() > 0
    }

    /// Whether the value is that of a fraction.
    pub open spec fn is_fraction(self, num: int, den: int) -> bool {
        self.defined() && self.numerator() * den == num * self.denominator()
    }

    /// Zero.
    pub fn zero() -> (res: Self)
        ensures
            res == Quantity::Whole(0),
    {
        Quantity::Whole(0)
    }

    /// A rate per second over an interval; zero over an empty one.
    pub fn rate(amount: u64, unit: u64, elapsed_ns: u64) -> (res: Self)
        ensures
            res == per_second(amount, unit, elapsed_ns),
    {
        if elapsed_ns > 0 {
            Quantity::PerSecond { amount, unit, elapsed_ns }
        } else {
            Quantity::Whole(0)
        }
    }

    /// A percentage; zero of nothing.
    pub fn percent(part: u64, whole: u64) -> (res: Self)
        ensures
            res == percentage(part, whole),
    {
        if whole > 0 {
            Quantity::Percent { part, whole }
        } else {
            Quantity::Whole(0)
        }
    }
}

/// A rate per second over an interval; zero over an empty one.
pub open spec fn per_second(amount: u64, unit: u64, elapsed_ns: u64) -> Quantity {
    if elapsed_ns > 0 {
        Quantity::PerSecond { amount, unit, elapsed_ns }
    } else {
        Quantity::Whole(0)
    }
}

/// A percentage; zero of nothing.
pub open spec fn percentage(part: u64, whole: u64) -> Quantity {
    if whole > 0 {
        Quantity::Percent { part, whole }
    } else {
        Quantity::Whole(0)
    }
}

/// A quantile of a distribution.
#[derive(Debug, Clone, Copy, PartialEq, Eq, Structural)]
pub struct Quantile {
    pub percent: u32,
    pub value: Quantity,
}

/// The sum of all observations of a histogram, in milliseconds.
#[derive(Debug)]
pub enum LatencySum {
    /// A number of milliseconds.
    Millis(u64),
    /// Counts by bucket, where an observation in bucket `i` weighs 2^i microseconds.
    Buckets(Vec<u64>),
}

#[verifier::ext_equal]
pub enum LatencySumView {
    Millis(u64),
    Buckets(Seq<u64>),
}

impl View for LatencySum {
    type V = LatencySumView;

    open spec fn view(&self) -> LatencySumView {
        match self {
            LatencySum::Millis(n) => LatencySumView::Millis(*n),
            LatencySum::Buckets(b) => LatencySumView::Buckets(b@),
        }
    }
}

/// A distribution of latencies.
#[derive(Debug)]
pub struct HistogramData {
    pub count: u64,
    pub sum: LatencySum,
    pub quantiles: Vec<Quantile>,
}

#[verifier::ext_equal]
pub struct HistogramView {
    pub count: u64,
    pub sum: LatencySumView,
    pub quantiles: Seq<Quantile>,
}

impl View for HistogramData {
    type V = HistogramView;

    open spec fn view(&self) -> HistogramView {
        HistogramView { count: self.count, sum: self.sum@, quantiles: self.quantiles@ }
    }
}

/// A distribution without observations.
pub open spec fn no_latency() -> HistogramView {
    HistogramView { count: 0, sum: LatencySumView::Millis(0), quantiles: Seq::empty() }
}

impl HistogramData {
    /// A distribution without observations.
    pub fn none() -> (res: Self)
        ensures
            res@ == no_latency(),
    {
        HistogramData { count: 0, sum: LatencySum::Millis(0), quantiles: Vec::new() }
    }
}

/// Copies a list of numbers.
pub fn copy_u64s(v: &Vec<u64>) -> (res: Vec<u64>)
    ensures
        res@ == v@,
{
    vstd::slice::slice_to_vec(v.as_slice())
}

impl Clone for HistogramData {
    fn clone(&self) -> (res: Self)
        ensures
            res@ == self@,
    {
        let sum: LatencySum = match &self.sum {
            LatencySum::Millis(n) => LatencySum::Millis(*n),
            LatencySum::Buckets(b) => LatencySum::Buckets(copy_u64s(b)),
        };
        let quantiles: Vec<Quantile> = vstd::slice::slice_to_vec(self.quantiles.as_slice());
        HistogramData { count: self.count, sum, quantiles }
    }
}

/// The value of a metric point.
#[derive(Debug)]
pub enum MetricValue {
    Gauge(Quantity),
    Counter(u64),
    Histogram(HistogramData),
}

#[verifier::ext_equal]
pub enum ValueView {
    Gauge(Quantity),
    Counter(u64),
    Histogram(HistogramView),
}

impl View for MetricValue {
    type V = ValueView;

    open spec fn view(&self) -> ValueView {
        match self {
            MetricValue::Gauge(q) => ValueView::Gauge(*q),
            MetricValue::Counter(n) => ValueView::Counter(*n),
            MetricValue::Histogram(h) => ValueView::Histogram(h@),
        }
    }
}

/// A named, tagged value at a point in time.
#[derive(Debug)]
pub struct MetricPoint {
    pub name: String,
    pub tags: Tags,
    pub value: MetricValue,
    pub timestamp: Timestamp,
    pub unit: &'static str,
}

#[verifier::ext_equal]
pub struct PointView {
    pub name: Seq<char>,
    pub tags: Map<Seq<char>, Seq<char>>,
    pub value: ValueView,
    pub timestamp: u64,
    pub unit: Seq<char>,
}

impl View for MetricPoint {
    type V = PointView;

    open spec fn view(&self) -> PointView {
        PointView {
            name: self.name@,
            tags: self.tags@,
            value: self.value@,
            timestamp: self.timestamp.0,
            unit: self.unit@,
        }
    }
}

/// The load of all processors.
#[derive(Debug, Clone)]
pub struct CpuMetrics {
    pub per_core: Vec<CoreMetrics>,
    pub total: CoreMetrics,
}

/// How a processor spent its time.
#[derive(Debug, Clone, Copy, PartialEq, Eq, Structural)]
pub struct CoreMetrics {
    pub core_id: u32,
    pub user_pct: Quantity,
    pub system_pct: Quantity,
    pub softirq_pct: Quantity,
    pub hardirq_pct: Quantity,
    pub idle_pct: Quantity,
    pub iowait_pct: Quantity,
    pub steal_pct: Quantity,
}

#[derive(Debug, Clone, Copy, PartialEq, Eq, Structural)]
pub struct MemoryMetrics {
    pub total_bytes: u64,
    pub used_bytes: u64,
    pub available_bytes: u64,
    pub cached_bytes: u64,
    pub buffers_bytes: u64,
    pub swap_total_bytes: u64,
    pub swap_used_bytes: u64,
    pub swap_in_rate: Quantity,
    pub swap_out_rate: Quantity,
}

#[derive(Debug)]
pub struct DiskMetrics {
    pub devices: Vec<DiskDevice>,
}

/// A mounted file system and the traffic of its device.
#[derive(Debug)]
pub struct DiskDevice {
    pub name: String,
    pub mount_point: String,
    pub fs_type: String,
    pub total_bytes: u64,
    pub used_bytes: u64,
    pub available_bytes: u64,
    pub read_bytes_per_sec: Quantity,
    pub write_bytes_per_sec: Quantity,
    pub io_latency: HistogramData,
}

#[verifier::ext_equal]
pub struct DeviceView {
    pub name: Seq<char>,
    pub mount_point: Seq<char>,
    pub fs_type: Seq<char>,
    pub total_bytes: u64,
    pub used_bytes: u64,
    pub available_bytes: u64,
    pub read_bytes_per_sec: Quantity,
    pub write_bytes_per_sec: Quantity,
    pub io_latency: HistogramView,
}

impl View for DiskDevice {
    type V = DeviceView;

    open spec fn view(&self) -> DeviceView {
        DeviceView {
            name: self.name@,
            mount_point: self.mount_point@,
            fs_type: self.fs_type@,
            total_bytes: self.total_bytes,
            used_bytes: self.used_bytes,
            available_bytes: self.available_bytes,
            read_bytes_per_sec: self.read_bytes_per_sec,
            write_bytes_per_sec: self.write_bytes_per_sec,
            io_latency: self.io_latency@,
        }
    }
}

impl Clone for DiskDevice {
    fn clone(&self) -> (res: Self)
        ensures
            res@ == self@,
    {
        DiskDevice {
            name: self.name.clone(),
            mount_point: self.mount_point.clone(),
            fs_type: self.fs_type.clone(),
            total_bytes: self.total_bytes,
            used_bytes: self.used_bytes,
            available_bytes: self.available_bytes,
            read_bytes_per_sec: self.read_bytes_per_sec,
            write_bytes_per_sec: self.write_bytes_per_sec,
            io_latency: self.io_latency.clone(),
        }
    }
}

impl View for DiskMetrics {
    type V = Seq<DeviceView>;

    open spec fn view(&self) -> Seq<DeviceView> {
        Seq::new(self.devices@.len(), |i: int| self.devices@[i]@)
    }
}

impl Clone for DiskMetrics {
    fn clone(&self) -> (res: Self)
        ensures
            res@ == self@,
    {
        let mut devices: Vec<DiskDevice> = Vec::new();
        let mut i: usize = 0;
        while i < self.devices.len()
            invariant
                0 <= i <= self.devices@.len(),
                devices@.len() == i,
                forall|j: int| 0 <= j < i ==> (#[trigger] devices@[j])@ == self.devices@[j]@,
            decreases self.devices@.len() - i,
        {
            let device: DiskDevice = self.devices[i].clone();
            devices.push(device);
            i = i + 1;
        }
        let res = DiskMetrics { devices };
        assert(res@ =~= self@);
        res
    }
}

#[derive(Debug)]
pub struct NetworkMetrics {
    pub interfaces: Vec<NetworkInterface>,
    pub tcp_connections: u64,
    pub tcp_retransmit_rate: Quantity,
    pub packet_loss_rate: Quantity,
}

/// The traffic of a network interface.
#[derive(Debug)]
pub struct NetworkInterface {
    pub name: String,
    pub rx_bytes_per_sec: Quantity,
    pub tx_bytes_per_sec: Quantity,
    pub rx_packets_per_sec: Quantity,
    pub tx_packets_per_sec: Quantity,
    pub rx_errors: u64,
    pub tx_errors: u64,
    pub rx_dropped: u64,
    pub tx_dropped: u64,
}

#[verifier::ext_equal]
pub struct InterfaceView {
    pub name: Seq<char>,
    pub rx_bytes_per_sec: Quantity,
    pub tx_bytes_per_sec: Quantity,
    pub rx_packets_per_sec: Quantity,
    pub tx_packets_per_sec: Quantity,
    pub rx_errors: u64,
    pub tx_errors: u64,
    pub rx_dropped: u64,
    pub tx_dropped: u64,
}

impl View for NetworkInterface {
    type V = InterfaceView;

    open spec fn view(&self) -> InterfaceView {
        InterfaceView {
            name: self.name@,
            rx_bytes_per_sec: self.rx_bytes_per_sec,
            tx_bytes_per_sec: self.tx_bytes_per_sec,
            rx_packets_per_sec: self.rx_packets_per_sec,
            tx_packets_per_sec: self.tx_packets_per_sec,
            rx_errors: self.rx_errors,
            tx_errors: self.tx_errors,
            rx_dropped: self.rx_dropped,
            tx_dropped: self.tx_dropped,
        }
    }
}

#[verifier::ext_equal]
pub struct NetworkView {
    pub interfaces: Seq<InterfaceView>,
    pub tcp_connections: u64,
    pub tcp_retransmit_rate: Quantity,
    pub packet_loss_rate: Quantity,
}

impl View for NetworkMetrics {
    type V = NetworkView;

    open spec fn view(&self) -> NetworkView {
        NetworkView {
            interfaces: Seq::new(self.interfaces@.len(), |i: int| self.interfaces@[i]@),
            tcp_connections: self.tcp_connections,
            tcp_retransmit_rate: self.tcp_retransmit_rate,
            packet_loss_rate: self.packet_loss_rate,
        }
    }
}

#[derive(Debug)]
pub struct ProcessMetrics {
    pub processes: Vec<ProcessInfo>,
}

/// A process.
#[derive(Debug)]
pub struct ProcessInfo {
    pub pid: u32,
    pub ppid: u32,
    pub name: String,
    pub state: String,
    pub cpu_pct: Quantity,
    pub mem_bytes: u64,
    pub open_fds: u64,
    pub threads: u32,
    pub cgroup: CgroupInfo,
    pub children: Vec<u32>,
}

/// The control group of a process and its limits.
#[derive(Debug)]
pub struct CgroupInfo {
    pub path: String,
    pub cpu_limit_cores: Option<Quantity>,
    pub memory_limit_bytes: Option<u64>,
    pub memory_usage_bytes: Option<u64>,
    pub io_weight: Option<u32>,
}

#[verifier::ext_equal]
pub struct CgroupView {
    pub path: Seq<char>,
    pub cpu_limit_cores: Option<Quantity>,
    pub memory_limit_bytes: Option<u64>,
    pub memory_usage_bytes: Option<u64>,
    pub io_weight: Option<u32>,
}

impl View for CgroupInfo {
    type V = CgroupView;

    open spec fn view(&self) -> CgroupView {
        CgroupView {
            path: self.path@,
            cpu_limit_cores: self.cpu_limit_cores,
            memory_limit_bytes: self.memory_limit_bytes,
            memory_usage_bytes: self.memory_usage_bytes,
            io_weight: self.io_weight,
        }
    }
}

/// A control group of which only the path is known.
pub open spec fn bare_cgroup(path: Seq<char>) -> CgroupView {
    CgroupView {
        path,
        cpu_limit_cores: None,
        memory_limit_bytes: None,
        memory_usage_bytes: None,
        io_weight: None,
    }
}

impl CgroupInfo {
    /// A control group of which only the path is known.
    pub fn bare(path: String) -> (res: Self)
        ensures
            res@ == bare_cgroup(path@),
    {
        CgroupInfo {
            path,
            cpu_limit_cores: None,
            memory_limit_bytes: None,
            memory_usage_bytes: None,
            io_weight: None,
        }
    }
}

impl Default for CgroupInfo {
    fn default() -> (res: Self)
        ensures
            res@ == bare_cgroup(Seq::empty()),
    {
        CgroupInfo::bare(String::new())
    }
}

impl Clone for CgroupInfo {
    fn clone(&self) -> (res: Self)
        ensures
            res@ == self@,
    {
        CgroupInfo {
            path: self.path.clone(),
            cpu_limit_cores: self.cpu_limit_cores,
            memory_limit_bytes: self.memory_limit_bytes,
            memory_usage_bytes: self.memory_usage_bytes,
            io_weight: self.io_weight,
        }
    }
}

#[verifier::ext_equal]
pub struct ProcessView {
    pub pid: u32,
    pub ppid: u32,
    pub name: Seq<char>,
    pub state: Seq<char>,
    pub cpu_pct: Quantity,
    pub mem_bytes: u64,
    pub open_fds: u64,
    pub threads: u32,
    pub cgroup: CgroupView,
    pub children: Seq<u32>,
}

impl View for ProcessInfo {
    type V = ProcessView;

    open spec fn view(&self) -> ProcessView {
        ProcessView {
            pid: self.pid,
            ppid: self.ppid,
            name: self.name@,
            state: self.state@,
            cpu_pct: self.cpu_pct,
            mem_bytes: self.mem_bytes,
            open_fds: self.open_fds,
            threads: self.threads,
            cgroup: self.cgroup@,
            children: self.children@,
        }
    }
}

impl Clone for ProcessInfo {
    fn clone(&self) -> (res: Self)
        ensures
            res@ == self@,
    {
        ProcessInfo {
            pid: self.pid,
            ppid: self.ppid,
            name: self.name.clone(),
            state: self.state.clone(),
            cpu_pct: self.cpu_pct,
            mem_bytes: self.mem_bytes,
            open_fds: self.open_fds,
            threads: self.threads,
            cgroup: self.cgroup.clone(),
            children: vstd::slice::slice_to_vec(self.children.as_slice()),
        }
    }
}

/// The views of a list of processes.
pub open spec fn process_views(v: Seq<ProcessInfo>) -> Seq<ProcessView> {
    Seq::new(v.len(), |i: int| v[i]@)
}

impl View for ProcessMetrics {
    type V = Seq<ProcessView>;

    open spec fn view(&self) -> Seq<ProcessView> {
        process_views(self.processes@)
    }
}

impl Clone for ProcessMetrics {
    fn clone(&self) -> (res: Self)
        ensures
            res@ == self@,
    {
        let mut processes: Vec<ProcessInfo> = Vec::new();
        let mut i: usize = 0;
        while i < self.processes.len()
            invariant
                0 <= i <= self.processes@.len(),
                processes@.len() == i,
                forall|j: int| 0 <= j < i ==> (#[trigger] processes@[j])@ == self.processes@[j]@,
            decreases self.processes@.len() - i,
        {
            let process: ProcessInfo = self.processes[i].clone();
            processes.push(process);
            i = i + 1;
        }
        let res = ProcessMetrics { processes };
        assert(res@ =~= self@);
        res
    }
}

/// Temperatures, in thousandths of a degree Celsius.
#[derive(Debug)]
pub struct ThermalInfo {
    pub zones: Vec<ThermalZone>,
    pub max_temp_millidegrees: u64,
}

/// A temperature sensor.
#[derive(Debug)]
pub struct ThermalZone {
    pub name: String,
    pub temp_millidegrees: u64,
    pub zone_type: String,
}

#[verifier::ext_equal]
pub struct ZoneView {
    pub name: Seq<char>,
    pub temp_millidegrees: u64,
    pub zone_type: Seq<char>,
}

impl View for ThermalZone {
    type V = ZoneView;

    open spec fn view(&self) -> ZoneView {
        ZoneView {
            name: self.name@,
            temp_millidegrees: self.temp_millidegrees,
            zone_type: self.zone_type@,
        }
    }
}

#[verifier::ext_equal]
pub struct ThermalView {
    pub zones: Seq<ZoneView>,
    pub max_temp_millidegrees: u64,
}

impl View for ThermalInfo {
    type V = ThermalView;

    open spec fn view(&self) -> ThermalView {
        ThermalView {
            zones: Seq::new(self.zones@.len(), |i: int| self.zones@[i]@),
            max_temp_millidegrees: self.max_temp_millidegrees,
        }
    }
}

/// A temperature in thousandths of a degree as a reading in degrees.
pub open spec fn celsius(millidegrees: u64) -> Quantity {
    Quantity::Quotient { num: millidegrees, den: 1000 }
}

#[verifier::ext_equal]
pub struct CpuView {
    pub per_core: Seq<CoreMetrics>,
    pub total: CoreMetrics,
}

impl View for CpuMetrics {
    type V = CpuView;

    open spec fn view(&self) -> CpuView {
        CpuView { per_core: self.per_core@, total: self.total }
    }
}

/// Everything that was measured at one time.
#[derive(Debug)]
pub struct SystemSnapshot {
    pub timestamp: Timestamp,
    pub hostname: String,
    pub cpu: CpuMetrics,
    pub memory: MemoryMetrics,
    pub disk: DiskMetrics,
    pub network: NetworkMetrics,
    pub processes: ProcessMetrics,
    pub thermal: ThermalInfo,
}

#[verifier::ext_equal]
pub struct SnapshotView {
    pub timestamp: u64,
    pub hostname: Seq<char>,
    pub cpu: CpuView,
    pub memory: MemoryMetrics,
    pub disk: Seq<DeviceView>,
    pub network: NetworkView,
    pub processes: Seq<ProcessView>,
    pub thermal: ThermalView,
}

impl View for SystemSnapshot {
    type V = SnapshotView;

    open spec fn view(&self) -> SnapshotView {
        SnapshotView {
            timestamp: self.timestamp.0,
            hostname: self.hostname@,
            cpu: self.cpu@,
            memory: self.memory,
            disk: self.disk@,
            network: self.network@,
            processes: self.processes@,
            thermal: self.thermal@,
        }
    }
}

/// A rate is the amount times the unit in a second, a percentage is a hundred times the part over
/// the whole, and a temperature is a thousandth of what the sensor shows. Without an interval, and
/// of nothing, they are zero.
pub proof fn readings_are_fractions(a: u64, b: u64, elapsed_ns: u64)
    ensures
        elapsed_ns > 0 ==> per_second(a, b, elapsed_ns).is_fraction(
            a * b * 1_000_000_000,
            elapsed_ns as int,
        ),
        elapsed_ns == 0 ==> per_second(a, b, elapsed_ns).is_fraction(0, 1),
        b > 0 ==> percentage(a, b).is_fraction(100 * a, b as int),
        b == 0 ==> percentage(a, b).is_fraction(0, 1),
        celsius(a).is_fraction(a as int, 1000),
{
}

} // verus!
