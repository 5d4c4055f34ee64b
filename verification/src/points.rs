//! Metric points: a snapshot as a flat list of named, tagged values.
use crate::metrics::{
    CgroupInfo, CgroupView, CoreMetrics, CpuView, DeviceView, DiskDevice, InterfaceView, MemoryMetrics,
    MetricPoint, MetricValue, NetworkInterface, NetworkMetrics, NetworkView, PointView,
    ProcessInfo, ProcessView, Quantity, SnapshotView, SystemSnapshot, ThermalInfo, ThermalView,
    ThermalZone, Timestamp, ValueView, ZoneView,
};
use crate::tags::Tags;
use crate::text;
use vstd::prelude::*;

verus! {

pub type TagMap = Map<Seq<char>, Seq<char>>;

/// A point that holds a gauge.
pub open spec fn gauge(
    name: Seq<char>,
    tags: TagMap,
    value: Quantity,
    ts: u64,
    unit: Seq<char>,
) -> PointView {
    PointView { name, tags, value: ValueView::Gauge(value), timestamp: ts, unit }
}

/// The tags that every point of a host carries.
pub open spec fn host_tags(hostname: Seq<char>) -> TagMap {
    Map::<Seq<char>, Seq<char>>::empty().insert("host"@, hostname)
}

pub open spec fn core_points(core: CoreMetrics, tags: TagMap, ts: u64) -> Seq<PointView> {
    seq![
        gauge("cpu.user"@, tags, core.user_pct, ts, "percent"@),
        gauge("cpu.system"@, tags, core.system_pct, ts, "percent"@),
        gauge("cpu.softirq"@, tags, core.softirq_pct, ts, "percent"@),
        gauge("cpu.hardirq"@, tags, core.hardirq_pct, ts, "percent"@),
        gauge("cpu.idle"@, tags, core.idle_pct, ts, "percent"@),
        gauge("cpu.iowait"@, tags, core.iowait_pct, ts, "percent"@),
        gauge("cpu.steal"@, tags, core.steal_pct, ts, "percent"@),
    ]
}

/// The points of each core, which is named by its number.
pub open spec fn per_core_points(cores: Seq<CoreMetrics>, host: TagMap, ts: u64) -> Seq<PointView>
    decreases cores.len(),
{
    if cores.len() == 0 {
        Seq::empty()
    } else {
        per_core_points(cores.drop_last(), host, ts) + core_points(
            cores.last(),
            host.insert("core"@, text::decimal(cores.last().core_id as nat)),
            ts,
        )
    }
}

pub open spec fn cpu_points(cpu: CpuView, host: TagMap, ts: u64) -> Seq<PointView> {
    per_core_points(cpu.per_core, host, ts) + core_points(
        cpu.total,
        host.insert("core"@, "total"@),
        ts,
    )
}

pub open spec fn memory_points(m: MemoryMetrics, host: TagMap, ts: u64) -> Seq<PointView> {
    seq![
        gauge("memory.total"@, host, Quantity::Whole(m.total_bytes), ts, "bytes"@),
        gauge("memory.used"@, host, Quantity::Whole(m.used_bytes), ts, "bytes"@),
        gauge("memory.available"@, host, Quantity::Whole(m.available_bytes), ts, "bytes"@),
        gauge("memory.cached"@, host, Quantity::Whole(m.cached_bytes), ts, "bytes"@),
        gauge("memory.buffers"@, host, Quantity::Whole(m.buffers_bytes), ts, "bytes"@),
        gauge("memory.swap_total"@, host, Quantity::Whole(m.swap_total_bytes), ts, "bytes"@),
        gauge("memory.swap_used"@, host, Quantity::Whole(m.swap_used_bytes), ts, "bytes"@),
        gauge("memory.swap_in_rate"@, host, m.swap_in_rate, ts, "bytes/s"@),
        gauge("memory.swap_out_rate"@, host, m.swap_out_rate, ts, "bytes/s"@),
    ]
}

pub open spec fn device_tags(d: DeviceView, host: TagMap) -> TagMap {
    host.insert("device"@, d.name).insert("mount"@, d.mount_point).insert("fstype"@, d.fs_type)
}

pub open spec fn device_points(d: DeviceView, host: TagMap, ts: u64) -> Seq<PointView> {
    let tags = device_tags(d, host);
    seq![
        gauge("disk.total"@, tags, Quantity::Whole(d.total_bytes), ts, "bytes"@),
        gauge("disk.used"@, tags, Quantity::Whole(d.used_bytes), ts, "bytes"@),
        gauge("disk.available"@, tags, Quantity::Whole(d.available_bytes), ts, "bytes"@),
        gauge("disk.read_bytes_per_sec"@, tags, d.read_bytes_per_sec, ts, "bytes/s"@),
        gauge("disk.write_bytes_per_sec"@, tags, d.write_bytes_per_sec, ts, "bytes/s"@),
    ] + if d.io_latency.quantiles.len() > 0 {
        seq![
            PointView {
                name: "disk.io_latency"@,
                tags,
                value: ValueView::Histogram(d.io_latency),
                timestamp: ts,
                unit: "ms"@,
            },
        ]
    } else {
        Seq::empty()
    }
}

pub open spec fn disk_points(devices: Seq<DeviceView>, host: TagMap, ts: u64) -> Seq<PointView>
    decreases devices.len(),
{
    if devices.len() == 0 {
        Seq::empty()
    } else {
        disk_points(devices.drop_last(), host, ts) + device_points(devices.last(), host, ts)
    }
}

pub open spec fn interface_points(n: InterfaceView, host: TagMap, ts: u64) -> Seq<PointView> {
    let tags = host.insert("interface"@, n.name);
    seq![
        gauge("net.rx_bytes_per_sec"@, tags, n.rx_bytes_per_sec, ts, "bytes/s"@),
        gauge("net.tx_bytes_per_sec"@, tags, n.tx_bytes_per_sec, ts, "bytes/s"@),
        gauge("net.rx_packets_per_sec"@, tags, n.rx_packets_per_sec, ts, "packets/s"@),
        gauge("net.tx_packets_per_sec"@, tags, n.tx_packets_per_sec, ts, "packets/s"@),
        gauge("net.rx_errors"@, tags, Quantity::Whole(n.rx_errors), ts, "count"@),
        gauge("net.tx_errors"@, tags, Quantity::Whole(n.tx_errors), ts, "count"@),
        gauge("net.rx_dropped"@, tags, Quantity::Whole(n.rx_dropped), ts, "count"@),
        gauge("net.tx_dropped"@, tags, Quantity::Whole(n.tx_dropped), ts, "count"@),
    ]
}

pub open spec fn per_interface_points(
    interfaces: Seq<InterfaceView>,
    host: TagMap,
    ts: u64,
) -> Seq<PointView>
    decreases interfaces.len(),
{
    if interfaces.len() == 0 {
        Seq::empty()
    } else {
        per_interface_points(interfaces.drop_last(), host, ts) + interface_points(
            interfaces.last(),
            host,
            ts,
        )
    }
}

pub open spec fn network_points(n: NetworkView, host: TagMap, ts: u64) -> Seq<PointView> {
    per_interface_points(n.interfaces, host, ts) + seq![
        gauge("net.tcp_connections"@, host, Quantity::Whole(n.tcp_connections), ts, "count"@),
        gauge("net.tcp_retransmit_rate"@, host, n.tcp_retransmit_rate, ts, "percent"@),
        gauge("net.packet_loss_rate"@, host, n.packet_loss_rate, ts, "percent"@),
    ]
}

pub open spec fn zone_point(z: ZoneView, host: TagMap, ts: u64) -> PointView {
    gauge(
        "thermal.temp"@,
        host.insert("zone"@, z.name).insert("type"@, z.zone_type),
        crate::metrics::celsius(z.temp_millidegrees),
        ts,
        "celsius"@,
    )
}

pub open spec fn thermal_points(t: ThermalView, host: TagMap, ts: u64) -> Seq<PointView> {
    Seq::new(t.zones.len(), |i: int| zone_point(t.zones[i], host, ts)).push(
        gauge(
            "thermal.max_temp"@,
            host,
            crate::metrics::celsius(t.max_temp_millidegrees),
            ts,
            "celsius"@,
        ),
    )
}

/// The tags of a process; the control group is named where it has a path.
pub open spec fn process_tags(p: ProcessView, host: TagMap) -> TagMap {
    let tags = host.insert("pid"@, text::decimal(p.pid as nat)).insert("name"@, p.name).insert(
        "ppid"@,
        text::decimal(p.ppid as nat),
    ).insert("state"@, p.state);
    if p.cgroup.path.len() > 0 {
        tags.insert("cgroup"@, p.cgroup.path)
    } else {
        tags
    }
}

/// Numbers in decimal, separated by commas.
pub open spec fn comma_list(ids: Seq<u32>) -> Seq<char>
    decreases ids.len(),
{
    if ids.len() == 0 {
        Seq::empty()
    } else if ids.len() == 1 {
        text::decimal(ids[0] as nat)
    } else {
        comma_list(ids.drop_last()).push(',') + text::decimal(ids.last() as nat)
    }
}

/// At most one point: that of an optional reading.
pub open spec fn optional_gauge(
    name: Seq<char>,
    tags: TagMap,
    value: Option<Quantity>,
    ts: u64,
    unit: Seq<char>,
) -> Seq<PointView> {
    match value {
        Some(q) => seq![gauge(name, tags, q, ts, unit)],
        None => Seq::empty(),
    }
}

pub open spec fn whole_option(n: Option<u64>) -> Option<Quantity> {
    match n {
        Some(v) => Some(Quantity::Whole(v)),
        None => None,
    }
}

/// What a process uses.
pub open spec fn usage_points(p: ProcessView, tags: TagMap, ts: u64) -> Seq<PointView> {
    seq![
        gauge("process.cpu"@, tags, p.cpu_pct, ts, "percent"@),
        gauge("process.memory"@, tags, Quantity::Whole(p.mem_bytes), ts, "bytes"@),
        gauge("process.open_fds"@, tags, Quantity::Whole(p.open_fds), ts, "count"@),
        gauge("process.threads"@, tags, Quantity::Whole(p.threads as u64), ts, "count"@),
    ]
}

/// The limits of the control group, as far as there are any.
pub open spec fn limit_points(c: CgroupView, tags: TagMap, ts: u64) -> Seq<PointView> {
    optional_gauge("process.cgroup.cpu_limit"@, tags, c.cpu_limit_cores, ts, "cores"@)
        + optional_gauge(
        "process.cgroup.memory_limit"@,
        tags,
        whole_option(c.memory_limit_bytes),
        ts,
        "bytes"@,
    ) + optional_gauge(
        "process.cgroup.memory_usage"@,
        tags,
        whole_option(c.memory_usage_bytes),
        ts,
        "bytes"@,
    ) + optional_gauge(
        "process.cgroup.io_weight"@,
        tags,
        match c.io_weight {
            Some(w) => Some(Quantity::Whole(w as u64)),
            None => None,
        },
        ts,
        "weight"@,
    )
}

/// The number of children, tagged with their ids, where there are any.
pub open spec fn children_points(children: Seq<u32>, tags: TagMap, ts: u64) -> Seq<PointView> {
    optional_gauge(
        "process.children_count"@,
        tags.insert("children"@, comma_list(children)),
        if children.len() > 0 {
            Some(Quantity::Whole(children.len() as u64))
        } else {
            None
        },
        ts,
        "count"@,
    )
}

pub open spec fn process_points(p: ProcessView, host: TagMap, ts: u64) -> Seq<PointView> {
    let tags = process_tags(p, host);
    usage_points(p, tags, ts) + limit_points(p.cgroup, tags, ts) + children_points(
        p.children,
        tags,
        ts,
    )
}

pub open spec fn all_process_points(ps: Seq<ProcessView>, host: TagMap, ts: u64) -> Seq<PointView>
    decreases ps.len(),
{
    if ps.len() == 0 {
        Seq::empty()
    } else {
        all_process_points(ps.drop_last(), host, ts) + process_points(ps.last(), host, ts)
    }
}

/// The points of a snapshot, in order: processors, memory, disks, network, temperatures,
/// processes.
pub open spec fn snapshot_points(s: SnapshotView) -> Seq<PointView> {
    let host = host_tags(s.hostname);
    let ts = s.timestamp;
    cpu_points(s.cpu, host, ts) + memory_points(s.memory, host, ts) + disk_points(s.disk, host, ts)
        + network_points(s.network, host, ts) + thermal_points(s.thermal, host, ts)
        + all_process_points(s.processes, host, ts)
}

/// The views of a list of points.
pub open spec fn point_views(points: Seq<MetricPoint>) -> Seq<PointView> {
    Seq::new(points.len(), |i: int| points[i]@)
}

/// Whether the tags of all points are in order.
pub open spec fn tags_ordered(points: Seq<MetricPoint>) -> bool {
    forall|i: int| 0 <= i < points.len() ==> (#[trigger] points[i]).tags.wf()
}

fn push_point(points: &mut Vec<MetricPoint>, point: MetricPoint)
    requires
        tags_ordered(old(points)@),
        point.tags.wf(),
    ensures
        tags_ordered(final(points)@),
        point_views(final(points)@) == point_views(old(points)@).push(point@),
{
    points.push(point);
    assert(point_views(points@) =~= point_views(old(points)@).push(point@));
}

fn push_gauge(
    points: &mut Vec<MetricPoint>,
    name: &str,
    tags: &Tags,
    value: Quantity,
    ts: Timestamp,
    unit: &'static str,
)
    requires
        tags_ordered(old(points)@),
        tags.wf(),
    ensures
        tags_ordered(final(points)@),
        point_views(final(points)@) == point_views(old(points)@).push(
            gauge(name@, tags@, value, ts.0, unit@),
        ),
{
    push_point(
        points,
        MetricPoint {
            name: name.to_owned(),
            tags: tags.clone(),
            value: MetricValue::Gauge(value),
            timestamp: ts,
            unit,
        },
    );
}

fn push_optional(
    points: &mut Vec<MetricPoint>,
    name: &str,
    tags: &Tags,
    value: Option<Quantity>,
    ts: Timestamp,
    unit: &'static str,
)
    requires
        tags_ordered(old(points)@),
        tags.wf(),
    ensures
        tags_ordered(final(points)@),
        point_views(final(points)@) == point_views(old(points)@) + optional_gauge(
            name@,
            tags@,
            value,
            ts.0,
            unit@,
        ),
{
    match value {
        Some(q) => {
            push_gauge(points, name, tags, q, ts, unit);
            assert(point_views(points@) =~= point_views(old(points)@) + seq![
                gauge(name@, tags@, q, ts.0, unit@),
            ]);
        },
        None => {
            assert(point_views(points@) =~= point_views(old(points)@) + Seq::<PointView>::empty());
        },
    }
}

fn push_core(points: &mut Vec<MetricPoint>, core: &CoreMetrics, tags: &Tags, ts: Timestamp)
    requires
        tags_ordered(old(points)@),
        tags.wf(),
    ensures
        tags_ordered(final(points)@),
        point_views(final(points)@) == point_views(old(points)@) + core_points(*core, tags@, ts.0),
{
    push_gauge(points, "cpu.user", tags, core.user_pct, ts, "percent");
    push_gauge(points, "cpu.system", tags, core.system_pct, ts, "percent");
    push_gauge(points, "cpu.softirq", tags, core.softirq_pct, ts, "percent");
    push_gauge(points, "cpu.hardirq", tags, core.hardirq_pct, ts, "percent");
    push_gauge(points, "cpu.idle", tags, core.idle_pct, ts, "percent");
    push_gauge(points, "cpu.iowait", tags, core.iowait_pct, ts, "percent");
    push_gauge(points, "cpu.steal", tags, core.steal_pct, ts, "percent");
    assert(point_views(points@) =~= point_views(old(points)@) + core_points(*core, tags@, ts.0));
}

fn push_cores(points: &mut Vec<MetricPoint>, cores: &Vec<CoreMetrics>, host: &Tags, ts: Timestamp)
    requires
        tags_ordered(old(points)@),
        host.wf(),
    ensures
        tags_ordered(final(points)@),
        point_views(final(points)@) == point_views(old(points)@) + per_core_points(
            cores@,
            host@,
            ts.0,
        ),
{
    let mut i: usize = 0;
    let ghost start = point_views(points@);
    proof {
        assert(cores@.take(0) =~= Seq::<CoreMetrics>::empty());
        assert(start + Seq::<PointView>::empty() =~= start);
    }
    while i < cores.len()
        invariant
            0 <= i <= cores@.len(),
            tags_ordered(points@),
            host.wf(),
            point_views(points@) == start + per_core_points(cores@.take(i as int), host@, ts.0),
        decreases cores@.len() - i,
    {
        let mut tags: Tags = host.clone();
        tags.insert("core".to_owned(), text::decimal_string(cores[i].core_id as u64));
        let ghost before = point_views(points@);
        push_core(points, &cores[i], &tags, ts);
        proof {
            let now = cores@.take(i + 1);
            assert(now.drop_last() =~= cores@.take(i as int));
            assert(now.last() == cores@[i as int]);
            assert(point_views(points@) =~= start + per_core_points(now, host@, ts.0));
        }
        i = i + 1;
    }
    assert(cores@.take(i as int) =~= cores@);
}

fn push_memory(points: &mut Vec<MetricPoint>, m: &MemoryMetrics, host: &Tags, ts: Timestamp)
    requires
        tags_ordered(old(points)@),
        host.wf(),
    ensures
        tags_ordered(final(points)@),
        point_views(final(points)@) == point_views(old(points)@) + memory_points(*m, host@, ts.0),
{
    push_gauge(points, "memory.total", host, Quantity::Whole(m.total_bytes), ts, "bytes");
    push_gauge(points, "memory.used", host, Quantity::Whole(m.used_bytes), ts, "bytes");
    push_gauge(points, "memory.available", host, Quantity::Whole(m.available_bytes), ts, "bytes");
    push_gauge(points, "memory.cached", host, Quantity::Whole(m.cached_bytes), ts, "bytes");
    push_gauge(points, "memory.buffers", host, Quantity::Whole(m.buffers_bytes), ts, "bytes");
    push_gauge(points, "memory.swap_total", host, Quantity::Whole(m.swap_total_bytes), ts, "bytes");
    push_gauge(points, "memory.swap_used", host, Quantity::Whole(m.swap_used_bytes), ts, "bytes");
    push_gauge(points, "memory.swap_in_rate", host, m.swap_in_rate, ts, "bytes/s");
    push_gauge(points, "memory.swap_out_rate", host, m.swap_out_rate, ts, "bytes/s");
    assert(point_views(points@) =~= point_views(old(points)@) + memory_points(*m, host@, ts.0));
}

fn push_device(points: &mut Vec<MetricPoint>, d: &DiskDevice, host: &Tags, ts: Timestamp)
    requires
        tags_ordered(old(points)@),
        host.wf(),
    ensures
        tags_ordered(final(points)@),
        point_views(final(points)@) == point_views(old(points)@) + device_points(d@, host@, ts.0),
{
    let mut tags: Tags = host.clone();
    tags.insert("device".to_owned(), d.name.clone());
    tags.insert("mount".to_owned(), d.mount_point.clone());
    tags.insert("fstype".to_owned(), d.fs_type.clone());
    push_gauge(points, "disk.total", &tags, Quantity::Whole(d.total_bytes), ts, "bytes");
    push_gauge(points, "disk.used", &tags, Quantity::Whole(d.used_bytes), ts, "bytes");
    push_gauge(points, "disk.available", &tags, Quantity::Whole(d.available_bytes), ts, "bytes");
    push_gauge(points, "disk.read_bytes_per_sec", &tags, d.read_bytes_per_sec, ts, "bytes/s");
    push_gauge(points, "disk.write_bytes_per_sec", &tags, d.write_bytes_per_sec, ts, "bytes/s");
    if d.io_latency.quantiles.len() > 0 {
        push_point(
            points,
            MetricPoint {
                name: "disk.io_latency".to_owned(),
                tags,
                value: MetricValue::Histogram(d.io_latency.clone()),
                timestamp: ts,
                unit: "ms",
            },
        );
    }
    assert(point_views(points@) =~= point_views(old(points)@) + device_points(d@, host@, ts.0));
}

fn push_devices(points: &mut Vec<MetricPoint>, devices: &Vec<DiskDevice>, host: &Tags, ts: Timestamp)
    requires
        tags_ordered(old(points)@),
        host.wf(),
    ensures
        tags_ordered(final(points)@),
        point_views(final(points)@) == point_views(old(points)@) + disk_points(
            Seq::new(devices@.len(), |i: int| devices@[i]@),
            host@,
            ts.0,
        ),
{
    let ghost all = Seq::new(devices@.len(), |i: int| devices@[i]@);
    let mut i: usize = 0;
    let ghost start = point_views(points@);
    proof {
        assert(all.take(0) =~= Seq::<DeviceView>::empty());
        assert(start + Seq::<PointView>::empty() =~= start);
    }
    while i < devices.len()
        invariant
            0 <= i <= devices@.len(),
            all == Seq::new(devices@.len(), |i: int| devices@[i]@),
            tags_ordered(points@),
            host.wf(),
            point_views(points@) == start + disk_points(all.take(i as int), host@, ts.0),
        decreases devices@.len() - i,
    {
        push_device(points, &devices[i], host, ts);
        proof {
            let now = all.take(i + 1);
            assert(now.drop_last() =~= all.take(i as int));
            assert(now.last() == devices@[i as int]@);
            assert(point_views(points@) =~= start + disk_points(now, host@, ts.0));
        }
        i = i + 1;
    }
    assert(all.take(i as int) =~= all);
}

fn push_interface(points: &mut Vec<MetricPoint>, n: &NetworkInterface, host: &Tags, ts: Timestamp)
    requires
        tags_ordered(old(points)@),
        host.wf(),
    ensures
        tags_ordered(final(points)@),
        point_views(final(points)@) == point_views(old(points)@) + interface_points(
            n@,
            host@,
            ts.0,
        ),
{
    let mut tags: Tags = host.clone();
    tags.insert("interface".to_owned(), n.name.clone());
    push_gauge(points, "net.rx_bytes_per_sec", &tags, n.rx_bytes_per_sec, ts, "bytes/s");
    push_gauge(points, "net.tx_bytes_per_sec", &tags, n.tx_bytes_per_sec, ts, "bytes/s");
    push_gauge(points, "net.rx_packets_per_sec", &tags, n.rx_packets_per_sec, ts, "packets/s");
    push_gauge(points, "net.tx_packets_per_sec", &tags, n.tx_packets_per_sec, ts, "packets/s");
    push_gauge(points, "net.rx_errors", &tags, Quantity::Whole(n.rx_errors), ts, "count");
    push_gauge(points, "net.tx_errors", &tags, Quantity::Whole(n.tx_errors), ts, "count");
    push_gauge(points, "net.rx_dropped", &tags, Quantity::Whole(n.rx_dropped), ts, "count");
    push_gauge(points, "net.tx_dropped", &tags, Quantity::Whole(n.tx_dropped), ts, "count");
    assert(point_views(points@) =~= point_views(old(points)@) + interface_points(n@, host@, ts.0));
}

fn push_network(points: &mut Vec<MetricPoint>, n: &NetworkMetrics, host: &Tags, ts: Timestamp)
    requires
        tags_ordered(old(points)@),
        host.wf(),
    ensures
        tags_ordered(final(points)@),
        point_views(final(points)@) == point_views(old(points)@) + network_points(n@, host@, ts.0),
{
    let ghost all = n@.interfaces;
    let mut i: usize = 0;
    let ghost start = point_views(points@);
    proof {
        assert(all.take(0) =~= Seq::<InterfaceView>::empty());
        assert(start + Seq::<PointView>::empty() =~= start);
    }
    while i < n.interfaces.len()
        invariant
            0 <= i <= n.interfaces@.len(),
            all == n@.interfaces,
            tags_ordered(points@),
            host.wf(),
            point_views(points@) == start + per_interface_points(all.take(i as int), host@, ts.0),
        decreases n.interfaces@.len() - i,
    {
        push_interface(points, &n.interfaces[i], host, ts);
        proof {
            let now = all.take(i + 1);
            assert(now.drop_last() =~= all.take(i as int));
            assert(now.last() == n.interfaces@[i as int]@);
            assert(point_views(points@) =~= start + per_interface_points(now, host@, ts.0));
        }
        i = i + 1;
    }
    assert(all.take(i as int) =~= all);
    push_gauge(
        points,
        "net.tcp_connections",
        host,
        Quantity::Whole(n.tcp_connections),
        ts,
        "count",
    );
    push_gauge(points, "net.tcp_retransmit_rate", host, n.tcp_retransmit_rate, ts, "percent");
    push_gauge(points, "net.packet_loss_rate", host, n.packet_loss_rate, ts, "percent");
    assert(point_views(points@) =~= start + network_points(n@, host@, ts.0));
}

fn push_thermal(points: &mut Vec<MetricPoint>, t: &ThermalInfo, host: &Tags, ts: Timestamp)
    requires
        tags_ordered(old(points)@),
        host.wf(),
    ensures
        tags_ordered(final(points)@),
        point_views(final(points)@) == point_views(old(points)@) + thermal_points(t@, host@, ts.0),
{
    let mut i: usize = 0;
    let ghost start = point_views(points@);
    let ghost zones = Seq::new(t@.zones.len(), |i: int| zone_point(t@.zones[i], host@, ts.0));
    proof {
        assert(start + zones.take(0) =~= start);
    }
    while i < t.zones.len()
        invariant
            0 <= i <= t.zones@.len(),
            zones == Seq::new(t@.zones.len(), |i: int| zone_point(t@.zones[i], host@, ts.0)),
            tags_ordered(points@),
            host.wf(),
            point_views(points@) == start + zones.take(i as int),
        decreases t.zones@.len() - i,
    {
        let z: &ThermalZone = &t.zones[i];
        let mut tags: Tags = host.clone();
        tags.insert("zone".to_owned(), z.name.clone());
        tags.insert("type".to_owned(), z.zone_type.clone());
        push_gauge(
            points,
            "thermal.temp",
            &tags,
            Quantity::Quotient { num: z.temp_millidegrees, den: 1000 },
            ts,
            "celsius",
        );
        proof {
            assert(zones[i as int] == zone_point(z@, host@, ts.0));
            assert(start + zones.take(i + 1) =~= (start + zones.take(i as int)).push(
                zones[i as int],
            ));
        }
        i = i + 1;
    }
    assert(zones.take(i as int) =~= zones);
    push_gauge(
        points,
        "thermal.max_temp",
        host,
        Quantity::Quotient { num: t.max_temp_millidegrees, den: 1000 },
        ts,
        "celsius",
    );
    assert(point_views(points@) =~= start + thermal_points(t@, host@, ts.0));
}

/// Numbers in decimal, separated by commas.
fn join_ids(ids: &Vec<u32>) -> (res: String)
    ensures
        res@ == comma_list(ids@),
{
    let mut buf: String = String::new();
    let mut i: usize = 0;
    assert(ids@.take(0) =~= Seq::<u32>::empty());
    while i < ids.len()
        invariant
            0 <= i <= ids@.len(),
            buf@ == comma_list(ids@.take(i as int)),
        decreases ids@.len() - i,
    {
        proof {
            let now = ids@.take(i + 1);
            assert(now.drop_last() =~= ids@.take(i as int));
            assert(now.last() == ids@[i as int]);
        }
        if i > 0 {
            buf.push(',');
        }
        text::push_decimal(&mut buf, ids[i] as u64);
        proof {
            if i == 0 {
                assert(buf@ =~= text::decimal(ids@[0] as nat));
                assert(ids@.take(1)[0] == ids@[0]);
            }
        }
        i = i + 1;
    }
    assert(ids@.take(i as int) =~= ids@);
    buf
}

fn tags_of_process(p: &ProcessInfo, host: &Tags) -> (tags: Tags)
    requires
        host.wf(),
    ensures
        tags.wf(),
        tags@ == process_tags(p@, host@),
{
    let mut tags: Tags = host.clone();
    tags.insert("pid".to_owned(), text::decimal_string(p.pid as u64));
    tags.insert("name".to_owned(), p.name.clone());
    tags.insert("ppid".to_owned(), text::decimal_string(p.ppid as u64));
    tags.insert("state".to_owned(), p.state.clone());
    if !p.cgroup.path.as_str().is_empty() {
        tags.insert("cgroup".to_owned(), p.cgroup.path.clone());
    }
    tags
}

fn push_usage(points: &mut Vec<MetricPoint>, p: &ProcessInfo, tags: &Tags, ts: Timestamp)
    requires
        tags_ordered(old(points)@),
        tags.wf(),
    ensures
        tags_ordered(final(points)@),
        point_views(final(points)@) == point_views(old(points)@) + usage_points(p@, tags@, ts.0),
{
    push_gauge(points, "process.cpu", tags, p.cpu_pct, ts, "percent");
    push_gauge(points, "process.memory", tags, Quantity::Whole(p.mem_bytes), ts, "bytes");
    push_gauge(points, "process.open_fds", tags, Quantity::Whole(p.open_fds), ts, "count");
    push_gauge(points, "process.threads", tags, Quantity::Whole(p.threads as u64), ts, "count");
    assert(point_views(points@) =~= point_views(old(points)@) + usage_points(p@, tags@, ts.0));
}

fn push_limits(points: &mut Vec<MetricPoint>, c: &CgroupInfo, tags: &Tags, ts: Timestamp)
    requires
        tags_ordered(old(points)@),
        tags.wf(),
    ensures
        tags_ordered(final(points)@),
        point_views(final(points)@) == point_views(old(points)@) + limit_points(c@, tags@, ts.0),
{
    let memory_limit: Option<Quantity> = match c.memory_limit_bytes {
        Some(n) => Some(Quantity::Whole(n)),
        None => None,
    };
    let memory_usage: Option<Quantity> = match c.memory_usage_bytes {
        Some(n) => Some(Quantity::Whole(n)),
        None => None,
    };
    let io_weight: Option<Quantity> = match c.io_weight {
        Some(w) => Some(Quantity::Whole(w as u64)),
        None => None,
    };
    push_optional(points, "process.cgroup.cpu_limit", tags, c.cpu_limit_cores, ts, "cores");
    push_optional(points, "process.cgroup.memory_limit", tags, memory_limit, ts, "bytes");
    push_optional(points, "process.cgroup.memory_usage", tags, memory_usage, ts, "bytes");
    push_optional(points, "process.cgroup.io_weight", tags, io_weight, ts, "weight");
    assert(point_views(points@) =~= point_views(old(points)@) + limit_points(c@, tags@, ts.0));
}

fn push_children(points: &mut Vec<MetricPoint>, children: &Vec<u32>, tags: &Tags, ts: Timestamp)
    requires
        tags_ordered(old(points)@),
        tags.wf(),
    ensures
        tags_ordered(final(points)@),
        point_views(final(points)@) == point_views(old(points)@) + children_points(
            children@,
            tags@,
            ts.0,
        ),
{
    let count: Option<Quantity> = if children.len() > 0 {
        Some(Quantity::Whole(children.len() as u64))
    } else {
        None
    };
    let mut ctags: Tags = tags.clone();
    ctags.insert("children".to_owned(), join_ids(children));
    push_optional(points, "process.children_count", &ctags, count, ts, "count");
}

fn push_process(points: &mut Vec<MetricPoint>, p: &ProcessInfo, host: &Tags, ts: Timestamp)
    requires
        tags_ordered(old(points)@),
        host.wf(),
    ensures
        tags_ordered(final(points)@),
        point_views(final(points)@) == point_views(old(points)@) + process_points(p@, host@, ts.0),
{
    let tags: Tags = tags_of_process(p, host);
    push_usage(points, p, &tags, ts);
    push_limits(points, &p.cgroup, &tags, ts);
    push_children(points, &p.children, &tags, ts);
    assert(point_views(points@) =~= point_views(old(points)@) + process_points(p@, host@, ts.0));
}

fn push_processes(
    points: &mut Vec<MetricPoint>,
    processes: &Vec<ProcessInfo>,
    host: &Tags,
    ts: Timestamp,
)
    requires
        tags_ordered(old(points)@),
        host.wf(),
    ensures
        tags_ordered(final(points)@),
        point_views(final(points)@) == point_views(old(points)@) + all_process_points(
            crate::metrics::process_views(processes@),
            host@,
            ts.0,
        ),
{
    let ghost all = crate::metrics::process_views(processes@);
    let mut i: usize = 0;
    let ghost start = point_views(points@);
    proof {
        assert(all.take(0) =~= Seq::<ProcessView>::empty());
        assert(start + Seq::<PointView>::empty() =~= start);
    }
    while i < processes.len()
        invariant
            0 <= i <= processes@.len(),
            all == crate::metrics::process_views(processes@),
            tags_ordered(points@),
            host.wf(),
            point_views(points@) == start + all_process_points(all.take(i as int), host@, ts.0),
        decreases processes@.len() - i,
    {
        push_process(points, &processes[i], host, ts);
        proof {
            let now = all.take(i + 1);
            assert(now.drop_last() =~= all.take(i as int));
            assert(now.last() == processes@[i as int]@);
            assert(point_views(points@) =~= start + all_process_points(now, host@, ts.0));
        }
        i = i + 1;
    }
    assert(all.take(i as int) =~= all);
}

impl SystemSnapshot {
    /// The snapshot as metric points.
    pub fn to_metric_points(&self) -> (res: Vec<MetricPoint>)
        ensures
            point_views(res@) == snapshot_points(self@),
            tags_ordered(res@),
    {
        let mut points: Vec<MetricPoint> = Vec::with_capacity(512);
        let ts: Timestamp = self.timestamp;
        let mut host: Tags = Tags::new();
        host.insert("host".to_owned(), self.hostname.clone());
        let ghost none = point_views(points@);
        push_cores(&mut points, &self.cpu.per_core, &host, ts);
        let mut total: Tags = host.clone();
        total.insert("core".to_owned(), "total".to_owned());
        push_core(&mut points, &self.cpu.total, &total, ts);
        push_memory(&mut points, &self.memory, &host, ts);
        push_devices(&mut points, &self.disk.devices, &host, ts);
        push_network(&mut points, &self.network, &host, ts);
        push_thermal(&mut points, &self.thermal, &host, ts);
        push_processes(&mut points, &self.processes.processes, &host, ts);
        proof {
            assert(none =~= Seq::<PointView>::empty());
            assert(point_views(points@) =~= snapshot_points(self@));
        }
        points
    }
}

/// The children of a process are listed in their order, with a comma between two of them.
pub proof fn children_are_listed(ids: Seq<u32>, id: u32)
    ensures
        comma_list(seq![id]) == text::decimal(id as nat),
        ids.len() > 0 ==> comma_list(ids.push(id)) == comma_list(ids) + ","@ + text::decimal(
            id as nat,
        ),
{
    let one = seq![id];
    assert(one.drop_last() =~= Seq::empty());
    assert(one.last() == id);
    assert(ids.push(id).drop_last() =~= ids);
    assert(comma_list(one) =~= text::decimal(id as nat));
    reveal_strlit(",");
    assert(comma_list(ids).push(',') =~= comma_list(ids) + ","@);
}

} // verus!
