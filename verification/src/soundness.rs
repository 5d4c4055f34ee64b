//! What holds of the metric points of every snapshot.
use crate::metrics::{
    CgroupView, CoreMetrics, DeviceView, HistogramView, InterfaceView, MemoryMetrics, NetworkView,
    PointView, ProcessView, Quantity, SnapshotView, ThermalView, ValueView,
};
use crate::points;
use vstd::prelude::*;

verus! {

/// Whether a name can stand in a line: it is not empty and has no space in it.
pub open spec fn is_word(name: Seq<char>) -> bool {
    &&& name.len() > 0
    &&& forall|i: int| 0 <= i < name.len() ==> #[trigger] name[i] != ' '
}

/// Whether all quantiles have a value.
pub open spec fn histogram_defined(h: HistogramView) -> bool {
    forall|i: int| 0 <= i < h.quantiles.len() ==> (#[trigger] h.quantiles[i]).value.defined()
}

/// Whether a value has no division by zero in it.
pub open spec fn value_defined(value: ValueView) -> bool {
    match value {
        ValueView::Gauge(q) => q.defined(),
        ValueView::Counter(n) => true,
        ValueView::Histogram(h) => histogram_defined(h),
    }
}

pub open spec fn core_defined(c: CoreMetrics) -> bool {
    &&& c.user_pct.defined()
    &&& c.system_pct.defined()
    &&& c.softirq_pct.defined()
    &&& c.hardirq_pct.defined()
    &&& c.idle_pct.defined()
    &&& c.iowait_pct.defined()
    &&& c.steal_pct.defined()
}

pub open spec fn device_defined(d: DeviceView) -> bool {
    &&& d.read_bytes_per_sec.defined()
    &&& d.write_bytes_per_sec.defined()
    &&& histogram_defined(d.io_latency)
}

pub open spec fn interface_defined(n: InterfaceView) -> bool {
    &&& n.rx_bytes_per_sec.defined()
    &&& n.tx_bytes_per_sec.defined()
    &&& n.rx_packets_per_sec.defined()
    &&& n.tx_packets_per_sec.defined()
}

pub open spec fn process_defined(p: ProcessView) -> bool {
    &&& p.cpu_pct.defined()
    &&& p.cgroup.cpu_limit_cores matches Some(q) ==> q.defined()
}

/// Whether no reading of a snapshot has a division by zero in it.
pub open spec fn snapshot_defined(s: SnapshotView) -> bool {
    &&& core_defined(s.cpu.total)
    &&& forall|i: int| 0 <= i < s.cpu.per_core.len() ==> core_defined(#[trigger] s.cpu.per_core[i])
    &&& s.memory.swap_in_rate.defined()
    &&& s.memory.swap_out_rate.defined()
    &&& forall|i: int| 0 <= i < s.disk.len() ==> device_defined(#[trigger] s.disk[i])
    &&& forall|i: int|
        0 <= i < s.network.interfaces.len() ==> interface_defined(
            #[trigger] s.network.interfaces[i],
        )
    &&& s.network.tcp_retransmit_rate.defined()
    &&& s.network.packet_loss_rate.defined()
    &&& forall|i: int| 0 <= i < s.processes.len() ==> process_defined(#[trigger] s.processes[i])
}

/// Whether tags name the host.
pub open spec fn names_host(tags: points::TagMap, hostname: Seq<char>) -> bool {
    tags.dom().contains("host"@) && tags["host"@] == hostname
}

/// Whether a point has a proper name and unit, the time and the host of its snapshot, and, where
/// readings are to have values, a value.
pub open spec fn sound(p: PointView, ts: u64, hostname: Seq<char>, valued: bool) -> bool {
    &&& is_word(p.name)
    &&& is_word(p.unit)
    &&& p.timestamp == ts
    &&& names_host(p.tags, hostname)
    &&& valued ==> value_defined(p.value)
}

/// Whether all points are sound.
pub open spec fn all_sound(
    list: Seq<PointView>,
    ts: u64,
    hostname: Seq<char>,
    valued: bool,
) -> bool {
    forall|i: int| 0 <= i < list.len() ==> sound(#[trigger] list[i], ts, hostname, valued)
}

proof fn lemma_both(a: Seq<PointView>, b: Seq<PointView>, ts: u64, h: Seq<char>, v: bool)
    requires
        all_sound(a, ts, h, v),
        all_sound(b, ts, h, v),
    ensures
        all_sound(a + b, ts, h, v),
{
    assert forall|i: int| 0 <= i < (a + b).len() implies sound(#[trigger] (a + b)[i], ts, h, v) by {
        if i < a.len() {
            assert((a + b)[i] == a[i]);
        } else {
            assert((a + b)[i] == b[i - a.len()]);
        }
    }
}

/// No other tag has the name of the host tag.
proof fn lemma_tag_names()
    ensures
        "core"@ != "host"@,
        "device"@ != "host"@,
        "mount"@ != "host"@,
        "fstype"@ != "host"@,
        "interface"@ != "host"@,
        "zone"@ != "host"@,
        "type"@ != "host"@,
        "pid"@ != "host"@,
        "name"@ != "host"@,
        "ppid"@ != "host"@,
        "state"@ != "host"@,
        "cgroup"@ != "host"@,
        "children"@ != "host"@,
{
    reveal_strlit("host");
    reveal_strlit("core");
    reveal_strlit("device");
    reveal_strlit("mount");
    reveal_strlit("fstype");
    reveal_strlit("interface");
    reveal_strlit("zone");
    reveal_strlit("type");
    reveal_strlit("pid");
    reveal_strlit("name");
    reveal_strlit("ppid");
    reveal_strlit("state");
    reveal_strlit("cgroup");
    reveal_strlit("children");
    assert("host"@[0] == 'h');
    assert("core"@[0] == 'c');
    assert("zone"@[0] == 'z');
    assert("type"@[0] == 't');
    assert("name"@[0] == 'n');
    assert("ppid"@[0] == 'p');
}

/// All units are words.
proof fn lemma_units()
    ensures
        is_word("percent"@),
        is_word("bytes"@),
        is_word("bytes/s"@),
        is_word("packets/s"@),
        is_word("count"@),
        is_word("celsius"@),
        is_word("cores"@),
        is_word("weight"@),
        is_word("ms"@),
{
    reveal_strlit("percent");
    reveal_strlit("bytes");
    reveal_strlit("bytes/s");
    reveal_strlit("packets/s");
    reveal_strlit("count");
    reveal_strlit("celsius");
    reveal_strlit("cores");
    reveal_strlit("weight");
    reveal_strlit("ms");
}

proof fn lemma_core_points(core: CoreMetrics, tags: points::TagMap, ts: u64, h: Seq<char>, v: bool)
    requires
        names_host(tags, h),
        v ==> core_defined(core),
    ensures
        all_sound(points::core_points(core, tags, ts), ts, h, v),
{
    lemma_units();
    reveal_strlit("cpu.user");
    reveal_strlit("cpu.system");
    reveal_strlit("cpu.softirq");
    reveal_strlit("cpu.hardirq");
    reveal_strlit("cpu.idle");
    reveal_strlit("cpu.iowait");
    reveal_strlit("cpu.steal");
    assert(is_word("cpu.user"@));
    assert(is_word("cpu.system"@));
    assert(is_word("cpu.softirq"@));
    assert(is_word("cpu.hardirq"@));
    assert(is_word("cpu.idle"@));
    assert(is_word("cpu.iowait"@));
    assert(is_word("cpu.steal"@));
}

proof fn lemma_cores(
    cores: Seq<CoreMetrics>,
    host: points::TagMap,
    ts: u64,
    h: Seq<char>,
    v: bool,
)
    requires
        names_host(host, h),
        v ==> forall|i: int| 0 <= i < cores.len() ==> core_defined(#[trigger] cores[i]),
    ensures
        all_sound(points::per_core_points(cores, host, ts), ts, h, v),
    decreases cores.len(),
{
    if cores.len() > 0 {
        lemma_tag_names();
        let tags = host.insert("core"@, crate::text::decimal(cores.last().core_id as nat));
        assert(cores.last() == cores[cores.len() - 1]);
        assert forall|i: int| v && 0 <= i < cores.drop_last().len() implies core_defined(
            #[trigger] cores.drop_last()[i],
        ) by {
            assert(cores.drop_last()[i] == cores[i]);
        }
        lemma_cores(cores.drop_last(), host, ts, h, v);
        lemma_core_points(cores.last(), tags, ts, h, v);
        lemma_both(
            points::per_core_points(cores.drop_last(), host, ts),
            points::core_points(cores.last(), tags, ts),
            ts,
            h,
            v,
        );
    }
}

proof fn lemma_memory(m: MemoryMetrics, host: points::TagMap, ts: u64, h: Seq<char>, v: bool)
    requires
        names_host(host, h),
        v ==> m.swap_in_rate.defined() && m.swap_out_rate.defined(),
    ensures
        all_sound(points::memory_points(m, host, ts), ts, h, v),
{
    lemma_units();
    reveal_strlit("memory.total");
    reveal_strlit("memory.used");
    reveal_strlit("memory.available");
    reveal_strlit("memory.cached");
    reveal_strlit("memory.buffers");
    reveal_strlit("memory.swap_total");
    reveal_strlit("memory.swap_used");
    reveal_strlit("memory.swap_in_rate");
    reveal_strlit("memory.swap_out_rate");
    assert(is_word("memory.total"@));
    assert(is_word("memory.used"@));
    assert(is_word("memory.available"@));
    assert(is_word("memory.cached"@));
    assert(is_word("memory.buffers"@));
    assert(is_word("memory.swap_total"@));
    assert(is_word("memory.swap_used"@));
    assert(is_word("memory.swap_in_rate"@));
    assert(is_word("memory.swap_out_rate"@));
}

proof fn lemma_device(d: DeviceView, host: points::TagMap, ts: u64, h: Seq<char>, v: bool)
    requires
        names_host(host, h),
        v ==> device_defined(d),
    ensures
        all_sound(points::device_points(d, host, ts), ts, h, v),
{
    lemma_units();
    lemma_tag_names();
    reveal_strlit("disk.total");
    reveal_strlit("disk.used");
    reveal_strlit("disk.available");
    reveal_strlit("disk.read_bytes_per_sec");
    reveal_strlit("disk.write_bytes_per_sec");
    reveal_strlit("disk.io_latency");
    assert(is_word("disk.total"@));
    assert(is_word("disk.used"@));
    assert(is_word("disk.available"@));
    assert(is_word("disk.read_bytes_per_sec"@));
    assert(is_word("disk.write_bytes_per_sec"@));
    assert(is_word("disk.io_latency"@));
    assert(names_host(points::device_tags(d, host), h));
}

proof fn lemma_devices(
    devices: Seq<DeviceView>,
    host: points::TagMap,
    ts: u64,
    h: Seq<char>,
    v: bool,
)
    requires
        names_host(host, h),
        v ==> forall|i: int| 0 <= i < devices.len() ==> device_defined(#[trigger] devices[i]),
    ensures
        all_sound(points::disk_points(devices, host, ts), ts, h, v),
    decreases devices.len(),
{
    if devices.len() > 0 {
        assert(devices.last() == devices[devices.len() - 1]);
        assert forall|i: int| v && 0 <= i < devices.drop_last().len() implies device_defined(
            #[trigger] devices.drop_last()[i],
        ) by {
            assert(devices.drop_last()[i] == devices[i]);
        }
        lemma_devices(devices.drop_last(), host, ts, h, v);
        lemma_device(devices.last(), host, ts, h, v);
        lemma_both(
            points::disk_points(devices.drop_last(), host, ts),
            points::device_points(devices.last(), host, ts),
            ts,
            h,
            v,
        );
    }
}

proof fn lemma_interface(n: InterfaceView, host: points::TagMap, ts: u64, h: Seq<char>, v: bool)
    requires
        names_host(host, h),
        v ==> interface_defined(n),
    ensures
        all_sound(points::interface_points(n, host, ts), ts, h, v),
{
    lemma_units();
    lemma_tag_names();
    reveal_strlit("net.rx_bytes_per_sec");
    reveal_strlit("net.tx_bytes_per_sec");
    reveal_strlit("net.rx_packets_per_sec");
    reveal_strlit("net.tx_packets_per_sec");
    reveal_strlit("net.rx_errors");
    reveal_strlit("net.tx_errors");
    reveal_strlit("net.rx_dropped");
    reveal_strlit("net.tx_dropped");
    assert(is_word("net.rx_bytes_per_sec"@));
    assert(is_word("net.tx_bytes_per_sec"@));
    assert(is_word("net.rx_packets_per_sec"@));
    assert(is_word("net.tx_packets_per_sec"@));
    assert(is_word("net.rx_errors"@));
    assert(is_word("net.tx_errors"@));
    assert(is_word("net.rx_dropped"@));
    assert(is_word("net.tx_dropped"@));
    assert(names_host(host.insert("interface"@, n.name), h));
}

proof fn lemma_interfaces(
    interfaces: Seq<InterfaceView>,
    host: points::TagMap,
    ts: u64,
    h: Seq<char>,
    v: bool,
)
    requires
        names_host(host, h),
        v ==> forall|i: int|
            0 <= i < interfaces.len() ==> interface_defined(#[trigger] interfaces[i]),
    ensures
        all_sound(points::per_interface_points(interfaces, host, ts), ts, h, v),
    decreases interfaces.len(),
{
    if interfaces.len() > 0 {
        assert(interfaces.last() == interfaces[interfaces.len() - 1]);
        assert forall|i: int| v && 0 <= i < interfaces.drop_last().len() implies interface_defined(
            #[trigger] interfaces.drop_last()[i],
        ) by {
            assert(interfaces.drop_last()[i] == interfaces[i]);
        }
        lemma_interfaces(interfaces.drop_last(), host, ts, h, v);
        lemma_interface(interfaces.last(), host, ts, h, v);
        lemma_both(
            points::per_interface_points(interfaces.drop_last(), host, ts),
            points::interface_points(interfaces.last(), host, ts),
            ts,
            h,
            v,
        );
    }
}

proof fn lemma_network(n: NetworkView, host: points::TagMap, ts: u64, h: Seq<char>, v: bool)
    requires
        names_host(host, h),
        v ==> forall|i: int|
            0 <= i < n.interfaces.len() ==> interface_defined(#[trigger] n.interfaces[i]),
        v ==> n.tcp_retransmit_rate.defined() && n.packet_loss_rate.defined(),
    ensures
        all_sound(points::network_points(n, host, ts), ts, h, v),
{
    lemma_units();
    reveal_strlit("net.tcp_connections");
    reveal_strlit("net.tcp_retransmit_rate");
    reveal_strlit("net.packet_loss_rate");
    assert(is_word("net.tcp_connections"@));
    assert(is_word("net.tcp_retransmit_rate"@));
    assert(is_word("net.packet_loss_rate"@));
    lemma_interfaces(n.interfaces, host, ts, h, v);
    let totals = seq![
        points::gauge(
            "net.tcp_connections"@,
            host,
            Quantity::Whole(n.tcp_connections),
            ts,
            "count"@,
        ),
        points::gauge("net.tcp_retransmit_rate"@, host, n.tcp_retransmit_rate, ts, "percent"@),
        points::gauge("net.packet_loss_rate"@, host, n.packet_loss_rate, ts, "percent"@),
    ];
    assert(all_sound(totals, ts, h, v));
    lemma_both(points::per_interface_points(n.interfaces, host, ts), totals, ts, h, v);
}

proof fn lemma_thermal(t: ThermalView, host: points::TagMap, ts: u64, h: Seq<char>, v: bool)
    requires
        names_host(host, h),
    ensures
        all_sound(points::thermal_points(t, host, ts), ts, h, v),
{
    lemma_units();
    lemma_tag_names();
    reveal_strlit("thermal.temp");
    reveal_strlit("thermal.max_temp");
    assert(is_word("thermal.temp"@));
    assert(is_word("thermal.max_temp"@));
    let list = points::thermal_points(t, host, ts);
    assert forall|i: int| 0 <= i < list.len() implies sound(#[trigger] list[i], ts, h, v) by {
        if i < t.zones.len() {
            assert(list[i] == points::zone_point(t.zones[i], host, ts));
        }
    }
}

proof fn lemma_usage(p: ProcessView, tags: points::TagMap, ts: u64, h: Seq<char>, v: bool)
    requires
        names_host(tags, h),
        v ==> process_defined(p),
    ensures
        all_sound(points::usage_points(p, tags, ts), ts, h, v),
{
    lemma_units();
    reveal_strlit("process.cpu");
    reveal_strlit("process.memory");
    reveal_strlit("process.open_fds");
    reveal_strlit("process.threads");
    assert(is_word("process.cpu"@));
    assert(is_word("process.memory"@));
    assert(is_word("process.open_fds"@));
    assert(is_word("process.threads"@));
}

proof fn lemma_limits(c: CgroupView, tags: points::TagMap, ts: u64, h: Seq<char>, v: bool)
    requires
        names_host(tags, h),
        v ==> (c.cpu_limit_cores matches Some(q) ==> q.defined()),
    ensures
        all_sound(points::limit_points(c, tags, ts), ts, h, v),
{
    lemma_units();
    reveal_strlit("process.cgroup.cpu_limit");
    reveal_strlit("process.cgroup.memory_limit");
    reveal_strlit("process.cgroup.memory_usage");
    reveal_strlit("process.cgroup.io_weight");
    assert(is_word("process.cgroup.cpu_limit"@));
    assert(is_word("process.cgroup.memory_limit"@));
    assert(is_word("process.cgroup.memory_usage"@));
    assert(is_word("process.cgroup.io_weight"@));
    let a = points::optional_gauge(
        "process.cgroup.cpu_limit"@,
        tags,
        c.cpu_limit_cores,
        ts,
        "cores"@,
    );
    let b = points::optional_gauge(
        "process.cgroup.memory_limit"@,
        tags,
        points::whole_option(c.memory_limit_bytes),
        ts,
        "bytes"@,
    );
    let d = points::optional_gauge(
        "process.cgroup.memory_usage"@,
        tags,
        points::whole_option(c.memory_usage_bytes),
        ts,
        "bytes"@,
    );
    let e = points::optional_gauge(
        "process.cgroup.io_weight"@,
        tags,
        match c.io_weight {
            Some(w) => Some(Quantity::Whole(w as u64)),
            None => None,
        },
        ts,
        "weight"@,
    );
    assert(all_sound(a, ts, h, v));
    assert(all_sound(b, ts, h, v));
    assert(all_sound(d, ts, h, v));
    assert(all_sound(e, ts, h, v));
    lemma_both(a, b, ts, h, v);
    lemma_both(a + b, d, ts, h, v);
    lemma_both(a + b + d, e, ts, h, v);
}

proof fn lemma_process(p: ProcessView, host: points::TagMap, ts: u64, h: Seq<char>, v: bool)
    requires
        names_host(host, h),
        v ==> process_defined(p),
    ensures
        all_sound(points::process_points(p, host, ts), ts, h, v),
{
    lemma_units();
    lemma_tag_names();
    reveal_strlit("process.children_count");
    assert(is_word("process.children_count"@));
    let tags = points::process_tags(p, host);
    assert(names_host(tags, h));
    let c = points::children_points(p.children, tags, ts);
    assert(all_sound(c, ts, h, v));
    lemma_usage(p, tags, ts, h, v);
    lemma_limits(p.cgroup, tags, ts, h, v);
    let a = points::usage_points(p, tags, ts);
    let b = points::limit_points(p.cgroup, tags, ts);
    lemma_both(a, b, ts, h, v);
    lemma_both(a + b, c, ts, h, v);
}

proof fn lemma_processes(
    ps: Seq<ProcessView>,
    host: points::TagMap,
    ts: u64,
    h: Seq<char>,
    v: bool,
)
    requires
        names_host(host, h),
        v ==> forall|i: int| 0 <= i < ps.len() ==> process_defined(#[trigger] ps[i]),
    ensures
        all_sound(points::all_process_points(ps, host, ts), ts, h, v),
    decreases ps.len(),
{
    if ps.len() > 0 {
        assert(ps.last() == ps[ps.len() - 1]);
        assert forall|i: int| v && 0 <= i < ps.drop_last().len() implies process_defined(
            #[trigger] ps.drop_last()[i],
        ) by {
            assert(ps.drop_last()[i] == ps[i]);
        }
        lemma_processes(ps.drop_last(), host, ts, h, v);
        lemma_process(ps.last(), host, ts, h, v);
        lemma_both(
            points::all_process_points(ps.drop_last(), host, ts),
            points::process_points(ps.last(), host, ts),
            ts,
            h,
            v,
        );
    }
}

/// Every point of a snapshot has a name and a unit without spaces, the time of the snapshot and
/// the name of its host.
pub proof fn points_are_sound(s: SnapshotView)
    ensures
        all_sound(points::snapshot_points(s), s.timestamp, s.hostname, false),
{
    lemma_snapshot(s, false);
}

/// Where no reading of a snapshot has a division by zero in it, no point has.
pub proof fn points_have_values(s: SnapshotView)
    requires
        snapshot_defined(s),
    ensures
        forall|i: int|
            0 <= i < points::snapshot_points(s).len() ==> value_defined(
                (#[trigger] points::snapshot_points(s)[i]).value,
            ),
{
    lemma_snapshot(s, true);
}

proof fn lemma_snapshot(s: SnapshotView, v: bool)
    requires
        v ==> snapshot_defined(s),
    ensures
        all_sound(points::snapshot_points(s), s.timestamp, s.hostname, v),
{
    let (ts, h) = (s.timestamp, s.hostname);
    let host = points::host_tags(h);
    let total_tags = host.insert("core"@, "total"@);
    lemma_tag_names();
    lemma_cores(s.cpu.per_core, host, ts, h, v);
    lemma_core_points(s.cpu.total, total_tags, ts, h, v);
    lemma_both(
        points::per_core_points(s.cpu.per_core, host, ts),
        points::core_points(s.cpu.total, total_tags, ts),
        ts,
        h,
        v,
    );
    lemma_memory(s.memory, host, ts, h, v);
    lemma_devices(s.disk, host, ts, h, v);
    lemma_network(s.network, host, ts, h, v);
    lemma_thermal(s.thermal, host, ts, h, v);
    lemma_processes(s.processes, host, ts, h, v);
    let a = points::cpu_points(s.cpu, host, ts);
    let b = points::memory_points(s.memory, host, ts);
    let c = points::disk_points(s.disk, host, ts);
    let d = points::network_points(s.network, host, ts);
    let e = points::thermal_points(s.thermal, host, ts);
    let f = points::all_process_points(s.processes, host, ts);
    lemma_both(a, b, ts, h, v);
    lemma_both(a + b, c, ts, h, v);
    lemma_both(a + b + c, d, ts, h, v);
    lemma_both(a + b + c + d, e, ts, h, v);
    lemma_both(a + b + c + d + e, f, ts, h, v);
}

} // verus!
