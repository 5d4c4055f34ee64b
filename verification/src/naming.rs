//! What the name of a metric point says of the snapshot that it is made of.
use crate::metrics::{
    CgroupView, CoreMetrics, DeviceView, InterfaceView, MemoryMetrics, PointView, ProcessView,
    Quantity, SnapshotView, ValueView, ZoneView,
};
use crate::points;
use crate::points::TagMap;
use crate::text;
use vstd::prelude::*;

verus! {

/// The points with a name, in order.
pub open spec fn named(list: Seq<PointView>, name: Seq<char>) -> Seq<PointView>
    decreases list.len(),
{
    if list.len() == 0 {
        Seq::empty()
    } else {
        let before = named(list.drop_last(), name);
        if list.last().name == name {
            before.push(list.last())
        } else {
            before
        }
    }
}

/// What tells the names of points apart: their length, and three of their letters.
pub open spec fn mark(name: Seq<char>) -> (int, char, char, char) {
    (name.len() as int, name[0], name[4], name[name.len() - 2])
}

/// The marks of the names that start with `cpu`.
proof fn lemma_marks_c()
    ensures
        mark("cpu.user"@) == (8int, 'c', 'u', 'e'),
        mark("cpu.system"@) == (10int, 'c', 's', 'e'),
        mark("cpu.softirq"@) == (11int, 'c', 's', 'r'),
        mark("cpu.hardirq"@) == (11int, 'c', 'h', 'r'),
        mark("cpu.idle"@) == (8int, 'c', 'i', 'l'),
        mark("cpu.iowait"@) == (10int, 'c', 'i', 'i'),
        mark("cpu.steal"@) == (9int, 'c', 's', 'a'),
{
    reveal_strlit("cpu.user");
    reveal_strlit("cpu.system");
    reveal_strlit("cpu.softirq");
    reveal_strlit("cpu.hardirq");
    reveal_strlit("cpu.idle");
    reveal_strlit("cpu.iowait");
    reveal_strlit("cpu.steal");
}

/// The marks of the names that start with `memory`.
proof fn lemma_marks_m()
    ensures
        mark("memory.total"@) == (12int, 'm', 'r', 'a'),
        mark("memory.used"@) == (11int, 'm', 'r', 'e'),
        mark("memory.available"@) == (16int, 'm', 'r', 'l'),
        mark("memory.cached"@) == (13int, 'm', 'r', 'e'),
        mark("memory.buffers"@) == (14int, 'm', 'r', 'r'),
        mark("memory.swap_total"@) == (17int, 'm', 'r', 'a'),
        mark("memory.swap_used"@) == (16int, 'm', 'r', 'e'),
        mark("memory.swap_in_rate"@) == (19int, 'm', 'r', 't'),
        mark("memory.swap_out_rate"@) == (20int, 'm', 'r', 't'),
{
    reveal_strlit("memory.total");
    reveal_strlit("memory.used");
    reveal_strlit("memory.available");
    reveal_strlit("memory.cached");
    reveal_strlit("memory.buffers");
    reveal_strlit("memory.swap_total");
    reveal_strlit("memory.swap_used");
    reveal_strlit("memory.swap_in_rate");
    reveal_strlit("memory.swap_out_rate");
}

/// The marks of the names that start with `disk`.
proof fn lemma_marks_d()
    ensures
        mark("disk.total"@) == (10int, 'd', '.', 'a'),
        mark("disk.used"@) == (9int, 'd', '.', 'e'),
        mark("disk.available"@) == (14int, 'd', '.', 'l'),
        mark("disk.read_bytes_per_sec"@) == (23int, 'd', '.', 'e'),
        mark("disk.write_bytes_per_sec"@) == (24int, 'd', '.', 'e'),
        mark("disk.io_latency"@) == (15int, 'd', '.', 'c'),
{
    reveal_strlit("disk.total");
    reveal_strlit("disk.used");
    reveal_strlit("disk.available");
    reveal_strlit("disk.read_bytes_per_sec");
    reveal_strlit("disk.write_bytes_per_sec");
    reveal_strlit("disk.io_latency");
}

/// The marks of the names that start with `net`.
proof fn lemma_marks_n()
    ensures
        mark("net.rx_bytes_per_sec"@) == (20int, 'n', 'r', 'e'),
        mark("net.tx_bytes_per_sec"@) == (20int, 'n', 't', 'e'),
        mark("net.rx_packets_per_sec"@) == (22int, 'n', 'r', 'e'),
        mark("net.tx_packets_per_sec"@) == (22int, 'n', 't', 'e'),
        mark("net.rx_errors"@) == (13int, 'n', 'r', 'r'),
        mark("net.tx_errors"@) == (13int, 'n', 't', 'r'),
        mark("net.rx_dropped"@) == (14int, 'n', 'r', 'e'),
        mark("net.tx_dropped"@) == (14int, 'n', 't', 'e'),
        mark("net.tcp_connections"@) == (19int, 'n', 't', 'n'),
        mark("net.tcp_retransmit_rate"@) == (23int, 'n', 't', 't'),
        mark("net.packet_loss_rate"@) == (20int, 'n', 'p', 't'),
{
    reveal_strlit("net.rx_bytes_per_sec");
    reveal_strlit("net.tx_bytes_per_sec");
    reveal_strlit("net.rx_packets_per_sec");
    reveal_strlit("net.tx_packets_per_sec");
    reveal_strlit("net.rx_errors");
    reveal_strlit("net.tx_errors");
    reveal_strlit("net.rx_dropped");
    reveal_strlit("net.tx_dropped");
    reveal_strlit("net.tcp_connections");
    reveal_strlit("net.tcp_retransmit_rate");
    reveal_strlit("net.packet_loss_rate");
}

/// The marks of the names that start with `thermal`.
proof fn lemma_marks_t()
    ensures
        mark("thermal.temp"@) == (12int, 't', 'm', 'm'),
        mark("thermal.max_temp"@) == (16int, 't', 'm', 'm'),
{
    reveal_strlit("thermal.temp");
    reveal_strlit("thermal.max_temp");
}

/// The marks of the names that start with `process`.
proof fn lemma_marks_p()
    ensures
        mark("process.cpu"@) == (11int, 'p', 'e', 'p'),
        mark("process.memory"@) == (14int, 'p', 'e', 'r'),
        mark("process.open_fds"@) == (16int, 'p', 'e', 'd'),
        mark("process.threads"@) == (15int, 'p', 'e', 'd'),
        mark("process.cgroup.cpu_limit"@) == (24int, 'p', 'e', 'i'),
        mark("process.cgroup.memory_limit"@) == (27int, 'p', 'e', 'i'),
        mark("process.cgroup.memory_usage"@) == (27int, 'p', 'e', 'g'),
        mark("process.cgroup.io_weight"@) == (24int, 'p', 'e', 'h'),
        mark("process.children_count"@) == (22int, 'p', 'e', 'n'),
{
    reveal_strlit("process.cpu");
    reveal_strlit("process.memory");
    reveal_strlit("process.open_fds");
    reveal_strlit("process.threads");
    reveal_strlit("process.cgroup.cpu_limit");
    reveal_strlit("process.cgroup.memory_limit");
    reveal_strlit("process.cgroup.memory_usage");
    reveal_strlit("process.cgroup.io_weight");
    reveal_strlit("process.children_count");
}

proof fn lemma_named_both(a: Seq<PointView>, b: Seq<PointView>, name: Seq<char>)
    ensures
        named(a + b, name) == named(a, name) + named(b, name),
    decreases b.len(),
{
    if b.len() == 0 {
        assert(a + b =~= a);
        assert(named(a, name) + named(b, name) =~= named(a, name));
    } else {
        assert((a + b).drop_last() =~= a + b.drop_last());
        assert((a + b).last() == b.last());
        lemma_named_both(a, b.drop_last(), name);
        assert(named(a + b, name) =~= named(a, name) + named(b, name));
    }
}

proof fn lemma_named_none(list: Seq<PointView>, name: Seq<char>)
    requires
        forall|i: int| 0 <= i < list.len() ==> (#[trigger] list[i]).name != name,
    ensures
        named(list, name) == Seq::<PointView>::empty(),
    decreases list.len(),
{
    if list.len() > 0 {
        assert forall|i: int| 0 <= i < list.drop_last().len() implies (
        #[trigger] list.drop_last()[i]).name != name by {
            assert(list.drop_last()[i] == list[i]);
        }
        lemma_named_none(list.drop_last(), name);
    }
}

proof fn lemma_named_one(list: Seq<PointView>, k: int, name: Seq<char>)
    requires
        0 <= k < list.len(),
        list[k].name == name,
        forall|i: int| 0 <= i < list.len() && i != k ==> (#[trigger] list[i]).name != name,
    ensures
        named(list, name) == seq![list[k]],
    decreases list.len(),
{
    let shorter = list.drop_last();
    assert forall|i: int| 0 <= i < shorter.len() && i != k implies (#[trigger] shorter[i]).name
        != name by {
        assert(shorter[i] == list[i]);
    }
    if k == list.len() - 1 {
        lemma_named_none(shorter, name);
        assert(named(list, name) =~= seq![list[k]]);
    } else {
        lemma_named_one(shorter, k, name);
    }
}

/// Whether the names of all points start with a letter.
pub open spec fn start_with(list: Seq<PointView>, c: char) -> bool {
    forall|i: int| 0 <= i < list.len() ==> mark((#[trigger] list[i]).name).1 == c
}

proof fn lemma_start_both(a: Seq<PointView>, b: Seq<PointView>, c: char)
    requires
        start_with(a, c),
        start_with(b, c),
    ensures
        start_with(a + b, c),
{
    assert forall|i: int| 0 <= i < (a + b).len() implies mark((#[trigger] (a + b)[i]).name).1
        == c by {
        if i < a.len() {
            assert((a + b)[i] == a[i]);
        } else {
            assert((a + b)[i] == b[i - a.len()]);
        }
    }
}

/// What is reported in several points.
pub trait Reported: Sized {
    /// What the points with a name show of it, and in which unit.
    spec fn reading(self, name: Seq<char>) -> Option<(ValueView, Seq<char>)>;

    /// Whether tags say which one it is.
    spec fn is_meant_by(self, tags: TagMap) -> bool;
}

/// Whether tags have a value under a name.
pub open spec fn has_tag(tags: TagMap, name: Seq<char>, value: Seq<char>) -> bool {
    tags.dom().contains(name) && tags[name] == value
}

/// Whether points show, in order, what is reported under a name, each of what it is named after.
pub open spec fn shows_each<T: Reported>(list: Seq<PointView>, items: Seq<T>, name: Seq<char>) -> bool
    decreases items.len(),
{
    if items.len() == 0 {
        list.len() == 0
    } else {
        match items.last().reading(name) {
            Some((value, unit)) => {
                &&& list.len() > 0
                &&& list.last().value == value
                &&& list.last().unit == unit
                &&& items.last().is_meant_by(list.last().tags)
                &&& shows_each(list.drop_last(), items.drop_last(), name)
            },
            None => shows_each(list, items.drop_last(), name),
        }
    }
}

/// Whether the points of one thing show what is reported of it under a name.
pub open spec fn shows_one<T: Reported>(list: Seq<PointView>, item: T, name: Seq<char>) -> bool {
    match item.reading(name) {
        Some((value, unit)) => {
            &&& named(list, name).len() == 1
            &&& named(list, name)[0].value == value
            &&& named(list, name)[0].unit == unit
            &&& item.is_meant_by(named(list, name)[0].tags)
        },
        None => named(list, name).len() == 0,
    }
}

proof fn lemma_shows_one_more<T: Reported>(
    before: Seq<PointView>,
    list: Seq<PointView>,
    items: Seq<T>,
    name: Seq<char>,
)
    requires
        items.len() > 0,
        shows_each(named(before, name), items.drop_last(), name),
        shows_one(list, items.last(), name),
    ensures
        shows_each(named(before + list, name), items, name),
{
    lemma_named_both(before, list, name);
    let (a, b) = (named(before, name), named(list, name));
    match items.last().reading(name) {
        Some(r) => {
            assert((a + b).drop_last() =~= a);
            assert((a + b).last() == b[0]);
        },
        None => {
            assert(a + b =~= a);
        },
    }
}

/// Whether exactly one point has a name, with a value and a unit.
pub open spec fn only(list: Seq<PointView>, name: Seq<char>, value: Quantity, unit: Seq<char>) -> bool {
    &&& named(list, name).len() == 1
    &&& named(list, name)[0].value == ValueView::Gauge(value)
    &&& named(list, name)[0].unit == unit
}

impl Reported for CoreMetrics {
    open spec fn reading(self, name: Seq<char>) -> Option<(ValueView, Seq<char>)> {
        if name == "cpu.user"@ {
            Some((ValueView::Gauge(self.user_pct), "percent"@))
        } else if name == "cpu.system"@ {
            Some((ValueView::Gauge(self.system_pct), "percent"@))
        } else if name == "cpu.softirq"@ {
            Some((ValueView::Gauge(self.softirq_pct), "percent"@))
        } else if name == "cpu.hardirq"@ {
            Some((ValueView::Gauge(self.hardirq_pct), "percent"@))
        } else if name == "cpu.idle"@ {
            Some((ValueView::Gauge(self.idle_pct), "percent"@))
        } else if name == "cpu.iowait"@ {
            Some((ValueView::Gauge(self.iowait_pct), "percent"@))
        } else if name == "cpu.steal"@ {
            Some((ValueView::Gauge(self.steal_pct), "percent"@))
        } else {
            None
        }
    }

    open spec fn is_meant_by(self, tags: TagMap) -> bool {
        has_tag(tags, "core"@, text::decimal(self.core_id as nat))
    }
}

proof fn lemma_core(core: CoreMetrics, tags: TagMap, ts: u64, name: Seq<char>)
    ensures
        start_with(points::core_points(core, tags, ts), 'c'),
        match core.reading(name) {
            Some((value, unit)) => {
                let n = named(points::core_points(core, tags, ts), name);
                n.len() == 1 && n[0].value == value && n[0].unit == unit && n[0].tags == tags
            },
            None => named(points::core_points(core, tags, ts), name).len() == 0,
        },
{
    lemma_marks_c();
    let list = points::core_points(core, tags, ts);
    if name == "cpu.user"@ {
        lemma_named_one(list, 0, name);
    } else if name == "cpu.system"@ {
        lemma_named_one(list, 1, name);
    } else if name == "cpu.softirq"@ {
        lemma_named_one(list, 2, name);
    } else if name == "cpu.hardirq"@ {
        lemma_named_one(list, 3, name);
    } else if name == "cpu.idle"@ {
        lemma_named_one(list, 4, name);
    } else if name == "cpu.iowait"@ {
        lemma_named_one(list, 5, name);
    } else if name == "cpu.steal"@ {
        lemma_named_one(list, 6, name);
    } else {
        lemma_named_none(list, name);
    }
}

proof fn lemma_cores(cores: Seq<CoreMetrics>, host: TagMap, ts: u64, name: Seq<char>)
    ensures
        start_with(points::per_core_points(cores, host, ts), 'c'),
        shows_each(named(points::per_core_points(cores, host, ts), name), cores, name),
    decreases cores.len(),
{
    if cores.len() > 0 {
        let before = points::per_core_points(cores.drop_last(), host, ts);
        let tags = host.insert("core"@, text::decimal(cores.last().core_id as nat));
        let list = points::core_points(cores.last(), tags, ts);
        lemma_cores(cores.drop_last(), host, ts, name);
        lemma_core(cores.last(), tags, ts, name);
        lemma_shows_one_more(before, list, cores, name);
        lemma_start_both(before, list, 'c');
    }
}

impl Reported for DeviceView {
    open spec fn reading(self, name: Seq<char>) -> Option<(ValueView, Seq<char>)> {
        if name == "disk.total"@ {
            Some((ValueView::Gauge(Quantity::Whole(self.total_bytes)), "bytes"@))
        } else if name == "disk.used"@ {
            Some((ValueView::Gauge(Quantity::Whole(self.used_bytes)), "bytes"@))
        } else if name == "disk.available"@ {
            Some((ValueView::Gauge(Quantity::Whole(self.available_bytes)), "bytes"@))
        } else if name == "disk.read_bytes_per_sec"@ {
            Some((ValueView::Gauge(self.read_bytes_per_sec), "bytes/s"@))
        } else if name == "disk.write_bytes_per_sec"@ {
            Some((ValueView::Gauge(self.write_bytes_per_sec), "bytes/s"@))
        } else if name == "disk.io_latency"@ && self.io_latency.quantiles.len() > 0 {
            Some((ValueView::Histogram(self.io_latency), "ms"@))
        } else {
            None
        }
    }

    open spec fn is_meant_by(self, tags: TagMap) -> bool {
        &&& has_tag(tags, "device"@, self.name)
        &&& has_tag(tags, "mount"@, self.mount_point)
        &&& has_tag(tags, "fstype"@, self.fs_type)
    }
}

/// No two tags have one name.
proof fn lemma_tag_names()
    ensures
        "device"@.len() == 6 && "device"@[0] == 'd',
        "mount"@.len() == 5 && "mount"@[0] == 'm',
        "fstype"@.len() == 6 && "fstype"@[0] == 'f',
        "zone"@.len() == 4 && "zone"@[0] == 'z',
        "type"@.len() == 4 && "type"@[0] == 't',
        "pid"@.len() == 3,
        "name"@.len() == 4 && "name"@[0] == 'n',
        "ppid"@.len() == 4 && "ppid"@[0] == 'p',
        "state"@.len() == 5 && "state"@[0] == 's',
        "cgroup"@.len() == 6 && "cgroup"@[0] == 'c',
        "children"@.len() == 8,
{
    reveal_strlit("device");
    reveal_strlit("mount");
    reveal_strlit("fstype");
    reveal_strlit("zone");
    reveal_strlit("type");
    reveal_strlit("pid");
    reveal_strlit("name");
    reveal_strlit("ppid");
    reveal_strlit("state");
    reveal_strlit("cgroup");
    reveal_strlit("children");
}

proof fn lemma_device(d: DeviceView, host: TagMap, ts: u64, name: Seq<char>)
    ensures
        start_with(points::device_points(d, host, ts), 'd'),
        shows_one(points::device_points(d, host, ts), d, name),
{
    lemma_marks_d();
    lemma_tag_names();
    let list = points::device_points(d, host, ts);
    if name == "disk.total"@ {
        lemma_named_one(list, 0, name);
    } else if name == "disk.used"@ {
        lemma_named_one(list, 1, name);
    } else if name == "disk.available"@ {
        lemma_named_one(list, 2, name);
    } else if name == "disk.read_bytes_per_sec"@ {
        lemma_named_one(list, 3, name);
    } else if name == "disk.write_bytes_per_sec"@ {
        lemma_named_one(list, 4, name);
    } else if name == "disk.io_latency"@ && d.io_latency.quantiles.len() > 0 {
        lemma_named_one(list, 5, name);
    } else {
        lemma_named_none(list, name);
    }
}

proof fn lemma_devices(devices: Seq<DeviceView>, host: TagMap, ts: u64, name: Seq<char>)
    ensures
        start_with(points::disk_points(devices, host, ts), 'd'),
        shows_each(named(points::disk_points(devices, host, ts), name), devices, name),
    decreases devices.len(),
{
    if devices.len() > 0 {
        let before = points::disk_points(devices.drop_last(), host, ts);
        let list = points::device_points(devices.last(), host, ts);
        lemma_devices(devices.drop_last(), host, ts, name);
        lemma_device(devices.last(), host, ts, name);
        lemma_shows_one_more(before, list, devices, name);
        lemma_start_both(before, list, 'd');
    }
}

impl Reported for InterfaceView {
    open spec fn reading(self, name: Seq<char>) -> Option<(ValueView, Seq<char>)> {
        if name == "net.rx_bytes_per_sec"@ {
            Some((ValueView::Gauge(self.rx_bytes_per_sec), "bytes/s"@))
        } else if name == "net.tx_bytes_per_sec"@ {
            Some((ValueView::Gauge(self.tx_bytes_per_sec), "bytes/s"@))
        } else if name == "net.rx_packets_per_sec"@ {
            Some((ValueView::Gauge(self.rx_packets_per_sec), "packets/s"@))
        } else if name == "net.tx_packets_per_sec"@ {
            Some((ValueView::Gauge(self.tx_packets_per_sec), "packets/s"@))
        } else if name == "net.rx_errors"@ {
            Some((ValueView::Gauge(Quantity::Whole(self.rx_errors)), "count"@))
        } else if name == "net.tx_errors"@ {
            Some((ValueView::Gauge(Quantity::Whole(self.tx_errors)), "count"@))
        } else if name == "net.rx_dropped"@ {
            Some((ValueView::Gauge(Quantity::Whole(self.rx_dropped)), "count"@))
        } else if name == "net.tx_dropped"@ {
            Some((ValueView::Gauge(Quantity::Whole(self.tx_dropped)), "count"@))
        } else {
            None
        }
    }

    open spec fn is_meant_by(self, tags: TagMap) -> bool {
        has_tag(tags, "interface"@, self.name)
    }
}

proof fn lemma_interface(n: InterfaceView, host: TagMap, ts: u64, name: Seq<char>)
    ensures
        start_with(points::interface_points(n, host, ts), 'n'),
        shows_one(points::interface_points(n, host, ts), n, name),
{
    lemma_marks_n();
    let list = points::interface_points(n, host, ts);
    if name == "net.rx_bytes_per_sec"@ {
        lemma_named_one(list, 0, name);
    } else if name == "net.tx_bytes_per_sec"@ {
        lemma_named_one(list, 1, name);
    } else if name == "net.rx_packets_per_sec"@ {
        lemma_named_one(list, 2, name);
    } else if name == "net.tx_packets_per_sec"@ {
        lemma_named_one(list, 3, name);
    } else if name == "net.rx_errors"@ {
        lemma_named_one(list, 4, name);
    } else if name == "net.tx_errors"@ {
        lemma_named_one(list, 5, name);
    } else if name == "net.rx_dropped"@ {
        lemma_named_one(list, 6, name);
    } else if name == "net.tx_dropped"@ {
        lemma_named_one(list, 7, name);
    } else {
        lemma_named_none(list, name);
    }
}

proof fn lemma_interfaces(items: Seq<InterfaceView>, host: TagMap, ts: u64, name: Seq<char>)
    ensures
        start_with(points::per_interface_points(items, host, ts), 'n'),
        shows_each(named(points::per_interface_points(items, host, ts), name), items, name),
    decreases items.len(),
{
    if items.len() > 0 {
        let before = points::per_interface_points(items.drop_last(), host, ts);
        let list = points::interface_points(items.last(), host, ts);
        lemma_interfaces(items.drop_last(), host, ts, name);
        lemma_interface(items.last(), host, ts, name);
        lemma_shows_one_more(before, list, items, name);
        lemma_start_both(before, list, 'n');
    }
}

impl Reported for ZoneView {
    open spec fn reading(self, name: Seq<char>) -> Option<(ValueView, Seq<char>)> {
        if name == "thermal.temp"@ {
            Some(
                (
                    ValueView::Gauge(Quantity::Quotient { num: self.temp_millidegrees, den: 1000 }),
                    "celsius"@,
                ),
            )
        } else {
            None
        }
    }

    open spec fn is_meant_by(self, tags: TagMap) -> bool {
        &&& has_tag(tags, "zone"@, self.name)
        &&& has_tag(tags, "type"@, self.zone_type)
    }
}

/// The points of some sensors.
pub open spec fn zone_points(zones: Seq<ZoneView>, host: TagMap, ts: u64) -> Seq<PointView> {
    Seq::new(zones.len(), |i: int| points::zone_point(zones[i], host, ts))
}

proof fn lemma_zones(zones: Seq<ZoneView>, host: TagMap, ts: u64, name: Seq<char>)
    ensures
        start_with(zone_points(zones, host, ts), 't'),
        shows_each(named(zone_points(zones, host, ts), name), zones, name),
    decreases zones.len(),
{
    lemma_marks_t();
    lemma_tag_names();
    if zones.len() > 0 {
        let before = zone_points(zones.drop_last(), host, ts);
        let list = seq![points::zone_point(zones.last(), host, ts)];
        lemma_zones(zones.drop_last(), host, ts, name);
        if name == "thermal.temp"@ {
            lemma_named_one(list, 0, name);
        } else {
            lemma_named_none(list, name);
        }
        lemma_shows_one_more(before, list, zones, name);
        lemma_start_both(before, list, 't');
        assert(zone_points(zones, host, ts) =~= before + list);
    }
}

impl Reported for ProcessView {
    open spec fn reading(self, name: Seq<char>) -> Option<(ValueView, Seq<char>)> {
        if name == "process.cpu"@ {
            Some((ValueView::Gauge(self.cpu_pct), "percent"@))
        } else if name == "process.memory"@ {
            Some((ValueView::Gauge(Quantity::Whole(self.mem_bytes)), "bytes"@))
        } else if name == "process.open_fds"@ {
            Some((ValueView::Gauge(Quantity::Whole(self.open_fds)), "count"@))
        } else if name == "process.threads"@ {
            Some((ValueView::Gauge(Quantity::Whole(self.threads as u64)), "count"@))
        } else if name == "process.cgroup.cpu_limit"@ && self.cgroup.cpu_limit_cores is Some {
            Some((ValueView::Gauge(self.cgroup.cpu_limit_cores->0), "cores"@))
        } else if name == "process.cgroup.memory_limit"@ && self.cgroup.memory_limit_bytes is Some {
            Some(
                (
                    ValueView::Gauge(Quantity::Whole(self.cgroup.memory_limit_bytes->0)),
                    "bytes"@,
                ),
            )
        } else if name == "process.cgroup.memory_usage"@ && self.cgroup.memory_usage_bytes is Some {
            Some(
                (
                    ValueView::Gauge(Quantity::Whole(self.cgroup.memory_usage_bytes->0)),
                    "bytes"@,
                ),
            )
        } else if name == "process.cgroup.io_weight"@ && self.cgroup.io_weight is Some {
            Some((ValueView::Gauge(Quantity::Whole(self.cgroup.io_weight->0 as u64)), "weight"@))
        } else if name == "process.children_count"@ && self.children.len() > 0 {
            Some((ValueView::Gauge(Quantity::Whole(self.children.len() as u64)), "count"@))
        } else {
            None
        }
    }

    open spec fn is_meant_by(self, tags: TagMap) -> bool {
        &&& has_tag(tags, "pid"@, text::decimal(self.pid as nat))
        &&& has_tag(tags, "ppid"@, text::decimal(self.ppid as nat))
        &&& has_tag(tags, "name"@, self.name)
        &&& has_tag(tags, "state"@, self.state)
        &&& self.cgroup.path.len() > 0 ==> has_tag(tags, "cgroup"@, self.cgroup.path)
    }
}

proof fn lemma_usage(p: ProcessView, tags: TagMap, ts: u64, name: Seq<char>)
    ensures
        ({
            let list = points::usage_points(p, tags, ts);
            &&& start_with(list, 'p')
            &&& name == "process.cpu"@ ==> named(list, name) == seq![list[0]]
            &&& name == "process.memory"@ ==> named(list, name) == seq![list[1]]
            &&& name == "process.open_fds"@ ==> named(list, name) == seq![list[2]]
            &&& name == "process.threads"@ ==> named(list, name) == seq![list[3]]
            &&& name != "process.cpu"@ && name != "process.memory"@ && name
                != "process.open_fds"@ && name != "process.threads"@ ==> named(list, name)
                == Seq::<PointView>::empty()
        }),
{
    lemma_marks_p();
    let list = points::usage_points(p, tags, ts);
    if name == "process.cpu"@ {
        lemma_named_one(list, 0, name);
    } else if name == "process.memory"@ {
        lemma_named_one(list, 1, name);
    } else if name == "process.open_fds"@ {
        lemma_named_one(list, 2, name);
    } else if name == "process.threads"@ {
        lemma_named_one(list, 3, name);
    } else {
        lemma_named_none(list, name);
    }
}

proof fn lemma_optional(
    own: Seq<char>,
    tags: TagMap,
    value: Option<Quantity>,
    ts: u64,
    unit: Seq<char>,
    name: Seq<char>,
)
    ensures
        ({
            let list = points::optional_gauge(own, tags, value, ts, unit);
            named(list, name) == if name == own {
                list
            } else {
                Seq::empty()
            }
        }),
{
    let list = points::optional_gauge(own, tags, value, ts, unit);
    if name == own && value is Some {
        lemma_named_one(list, 0, name);
        assert(seq![list[0]] =~= list);
    } else {
        lemma_named_none(list, name);
        assert(value is None ==> list =~= Seq::empty());
    }
}

proof fn lemma_limits(c: CgroupView, tags: TagMap, ts: u64, name: Seq<char>)
    ensures
        start_with(points::limit_points(c, tags, ts), 'p'),
        named(points::limit_points(c, tags, ts), name) == if name == "process.cgroup.cpu_limit"@ {
            points::optional_gauge(name, tags, c.cpu_limit_cores, ts, "cores"@)
        } else if name == "process.cgroup.memory_limit"@ {
            points::optional_gauge(name, tags, points::whole_option(c.memory_limit_bytes), ts, "bytes"@)
        } else if name == "process.cgroup.memory_usage"@ {
            points::optional_gauge(name, tags, points::whole_option(c.memory_usage_bytes), ts, "bytes"@)
        } else if name == "process.cgroup.io_weight"@ {
            points::optional_gauge(
                name,
                tags,
                match c.io_weight {
                    Some(w) => Some(Quantity::Whole(w as u64)),
                    None => None,
                },
                ts,
                "weight"@,
            )
        } else {
            Seq::empty()
        },
{
    lemma_marks_p();
    let weight = match c.io_weight {
        Some(w) => Some(Quantity::Whole(w as u64)),
        None => None,
    };
    let limit = points::whole_option(c.memory_limit_bytes);
    let usage = points::whole_option(c.memory_usage_bytes);
    let (n1, n2, n3, n4) = (
        "process.cgroup.cpu_limit"@,
        "process.cgroup.memory_limit"@,
        "process.cgroup.memory_usage"@,
        "process.cgroup.io_weight"@,
    );
    let a = points::optional_gauge(n1, tags, c.cpu_limit_cores, ts, "cores"@);
    let b = points::optional_gauge(n2, tags, limit, ts, "bytes"@);
    let d = points::optional_gauge(n3, tags, usage, ts, "bytes"@);
    let e = points::optional_gauge(n4, tags, weight, ts, "weight"@);
    lemma_optional(n1, tags, c.cpu_limit_cores, ts, "cores"@, name);
    lemma_optional(n2, tags, limit, ts, "bytes"@, name);
    lemma_optional(n3, tags, usage, ts, "bytes"@, name);
    lemma_optional(n4, tags, weight, ts, "weight"@, name);
    lemma_named_both(a, b, name);
    lemma_named_both(a + b, d, name);
    lemma_named_both(a + b + d, e, name);
    lemma_start_both(a, b, 'p');
    lemma_start_both(a + b, d, 'p');
    lemma_start_both(a + b + d, e, 'p');
    assert(points::limit_points(c, tags, ts) == a + b + d + e);
    assert(named(points::limit_points(c, tags, ts), name) =~= named(a, name) + named(b, name)
        + named(d, name) + named(e, name));
}

proof fn lemma_process(p: ProcessView, host: TagMap, ts: u64, name: Seq<char>)
    ensures
        start_with(points::process_points(p, host, ts), 'p'),
        shows_one(points::process_points(p, host, ts), p, name),
{
    lemma_marks_p();
    lemma_tag_names();
    let tags = points::process_tags(p, host);
    let a = points::usage_points(p, tags, ts);
    let b = points::limit_points(p.cgroup, tags, ts);
    let c = points::children_points(p.children, tags, ts);
    let own = "process.children_count"@;
    let ctags = tags.insert("children"@, points::comma_list(p.children));
    let count = if p.children.len() > 0 {
        Some(Quantity::Whole(p.children.len() as u64))
    } else {
        None
    };
    lemma_usage(p, tags, ts, name);
    lemma_limits(p.cgroup, tags, ts, name);
    lemma_optional(own, ctags, count, ts, "count"@, name);
    lemma_named_both(a, b, name);
    lemma_named_both(a + b, c, name);
    lemma_start_both(a, b, 'p');
    lemma_start_both(a + b, c, 'p');
    assert(p.is_meant_by(tags));
    assert(p.is_meant_by(ctags));
    assert(named(a + b + c, name) =~= named(a, name) + named(b, name) + named(c, name));
}

proof fn lemma_processes(items: Seq<ProcessView>, host: TagMap, ts: u64, name: Seq<char>)
    ensures
        start_with(points::all_process_points(items, host, ts), 'p'),
        shows_each(named(points::all_process_points(items, host, ts), name), items, name),
    decreases items.len(),
{
    if items.len() > 0 {
        let before = points::all_process_points(items.drop_last(), host, ts);
        let list = points::process_points(items.last(), host, ts);
        lemma_processes(items.drop_last(), host, ts, name);
        lemma_process(items.last(), host, ts, name);
        lemma_shows_one_more(before, list, items, name);
        lemma_start_both(before, list, 'p');
    }
}

proof fn lemma_other_start(list: Seq<PointView>, c: char, name: Seq<char>)
    requires
        start_with(list, c),
        mark(name).1 != c,
    ensures
        named(list, name) == Seq::<PointView>::empty(),
{
    assert forall|i: int| 0 <= i < list.len() implies (#[trigger] list[i]).name != name by {
        assert(mark(list[i].name).1 == c);
    }
    lemma_named_none(list, name);
}

/// The parts that the points of a snapshot come in, and with which letter their names start.
proof fn lemma_parts(s: SnapshotView, name: Seq<char>)
    ensures
        ({
            let (h, t) = (points::host_tags(s.hostname), s.timestamp);
            let all = named(points::snapshot_points(s), name);
            &&& mark(name).1 == 'c' ==> all == named(points::cpu_points(s.cpu, h, t), name)
            &&& mark(name).1 == 'm' ==> all == named(points::memory_points(s.memory, h, t), name)
            &&& mark(name).1 == 'd' ==> all == named(points::disk_points(s.disk, h, t), name)
            &&& mark(name).1 == 'n' ==> all == named(points::network_points(s.network, h, t), name)
            &&& mark(name).1 == 't' ==> all == named(points::thermal_points(s.thermal, h, t), name)
            &&& mark(name).1 == 'p' ==> all == named(
                points::all_process_points(s.processes, h, t),
                name,
            )
        }),
{
    let (h, t) = (points::host_tags(s.hostname), s.timestamp);
    let a = points::cpu_points(s.cpu, h, t);
    let b = points::memory_points(s.memory, h, t);
    let c = points::disk_points(s.disk, h, t);
    let d = points::network_points(s.network, h, t);
    let e = points::thermal_points(s.thermal, h, t);
    let f = points::all_process_points(s.processes, h, t);
    lemma_named_both(a, b, name);
    lemma_named_both(a + b, c, name);
    lemma_named_both(a + b + c, d, name);
    lemma_named_both(a + b + c + d, e, name);
    lemma_named_both(a + b + c + d + e, f, name);
    let total = h.insert("core"@, "total"@);
    lemma_cores(s.cpu.per_core, h, t, name);
    lemma_core(s.cpu.total, total, t, name);
    lemma_start_both(
        points::per_core_points(s.cpu.per_core, h, t),
        points::core_points(s.cpu.total, total, t),
        'c',
    );
    lemma_marks_m();
    lemma_marks_n();
    lemma_marks_t();
    lemma_devices(s.disk, h, t, name);
    lemma_interfaces(s.network.interfaces, h, t, name);
    let g = points::per_interface_points(s.network.interfaces, h, t);
    let tcp = d.skip(g.len() as int);
    assert(d =~= g + tcp);
    assert(start_with(tcp, 'n'));
    lemma_start_both(g, tcp, 'n');
    lemma_zones(s.thermal.zones, h, t, name);
    let zones = zone_points(s.thermal.zones, h, t);
    let top = seq![e.last()];
    assert(e =~= zones + top);
    lemma_start_both(zones, top, 't');
    lemma_processes(s.processes, h, t, name);
    if mark(name).1 != 'c' {
        lemma_other_start(a, 'c', name);
    }
    if mark(name).1 != 'm' {
        lemma_other_start(b, 'm', name);
    }
    if mark(name).1 != 'd' {
        lemma_other_start(c, 'd', name);
    }
    if mark(name).1 != 'n' {
        lemma_other_start(d, 'n', name);
    }
    if mark(name).1 != 't' {
        lemma_other_start(e, 't', name);
    }
    if mark(name).1 != 'p' {
        lemma_other_start(f, 'p', name);
    }
    let all = named(points::snapshot_points(s), name);
    assert(all =~= named(a, name) + named(b, name) + named(c, name) + named(d, name) + named(
        e,
        name,
    ) + named(f, name));
}

/// Every part of the memory is shown by the one point that is named after it.
pub proof fn memory_points_say_what_they_are_named_after(s: SnapshotView)
    ensures
        ({
            let list = points::snapshot_points(s);
            let m = s.memory;
            &&& only(list, "memory.total"@, Quantity::Whole(m.total_bytes), "bytes"@)
            &&& only(list, "memory.used"@, Quantity::Whole(m.used_bytes), "bytes"@)
            &&& only(list, "memory.available"@, Quantity::Whole(m.available_bytes), "bytes"@)
            &&& only(list, "memory.cached"@, Quantity::Whole(m.cached_bytes), "bytes"@)
            &&& only(list, "memory.buffers"@, Quantity::Whole(m.buffers_bytes), "bytes"@)
            &&& only(list, "memory.swap_total"@, Quantity::Whole(m.swap_total_bytes), "bytes"@)
            &&& only(list, "memory.swap_used"@, Quantity::Whole(m.swap_used_bytes), "bytes"@)
            &&& only(list, "memory.swap_in_rate"@, m.swap_in_rate, "bytes/s"@)
            &&& only(list, "memory.swap_out_rate"@, m.swap_out_rate, "bytes/s"@)
        }),
{
    let list = points::memory_points(s.memory, points::host_tags(s.hostname), s.timestamp);
    lemma_marks_m();
    lemma_named_one(list, 0, "memory.total"@);
    lemma_named_one(list, 1, "memory.used"@);
    lemma_named_one(list, 2, "memory.available"@);
    lemma_named_one(list, 3, "memory.cached"@);
    lemma_named_one(list, 4, "memory.buffers"@);
    lemma_named_one(list, 5, "memory.swap_total"@);
    lemma_named_one(list, 6, "memory.swap_used"@);
    lemma_named_one(list, 7, "memory.swap_in_rate"@);
    lemma_named_one(list, 8, "memory.swap_out_rate"@);
    lemma_parts(s, "memory.total"@);
    lemma_parts(s, "memory.used"@);
    lemma_parts(s, "memory.available"@);
    lemma_parts(s, "memory.cached"@);
    lemma_parts(s, "memory.buffers"@);
    lemma_parts(s, "memory.swap_total"@);
    lemma_parts(s, "memory.swap_used"@);
    lemma_parts(s, "memory.swap_in_rate"@);
    lemma_parts(s, "memory.swap_out_rate"@);
}

/// Two snapshots that differ in the memory in use alone differ in no point but the one that is
/// named after it.
pub proof fn only_the_named_point_changes(s: SnapshotView, used: u64, i: int)
    requires
        0 <= i < points::snapshot_points(s).len(),
    ensures
        ({
            let other = SnapshotView {
                memory: MemoryMetrics { used_bytes: used, ..s.memory },
                ..s
            };
            let (a, b) = (points::snapshot_points(s), points::snapshot_points(other));
            &&& a.len() == b.len()
            &&& a[i].name != "memory.used"@ ==> a[i] == b[i]
            &&& a[i].name == "memory.used"@ ==> b[i].value == ValueView::Gauge(
                Quantity::Whole(used),
            )
        }),
{
    let other = SnapshotView { memory: MemoryMetrics { used_bytes: used, ..s.memory }, ..s };
    let (h, t) = (points::host_tags(s.hostname), s.timestamp);
    let before = points::cpu_points(s.cpu, h, t);
    let (x, y) = (
        points::memory_points(s.memory, h, t),
        points::memory_points(other.memory, h, t),
    );
    let (a, b) = (points::snapshot_points(s), points::snapshot_points(other));
    let n = before.len() as int;
    assert(a.len() == b.len());
    if n <= i < n + 9 {
        assert(a[i] == x[i - n] && b[i] == y[i - n]);
        lemma_marks_m();
    } else {
        lemma_marks_m();
        assert(a[i] == b[i]);
        if a[i].name == "memory.used"@ {
            lemma_other_place(s, i);
        }
    }
}

/// The points outside the part on the memory are not named after the memory.
proof fn lemma_other_place(s: SnapshotView, i: int)
    requires
        ({
            let n = points::cpu_points(
                s.cpu,
                points::host_tags(s.hostname),
                s.timestamp,
            ).len();
            0 <= i < points::snapshot_points(s).len() && !(n <= i < n + 9)
        }),
    ensures
        points::snapshot_points(s)[i].name != "memory.used"@,
{
    let (h, t) = (points::host_tags(s.hostname), s.timestamp);
    let name = "memory.used"@;
    let a = points::cpu_points(s.cpu, h, t);
    let b = points::memory_points(s.memory, h, t);
    let all = points::snapshot_points(s);
    lemma_marks_m();
    if all[i].name == name {
        let n = a.len() as int;
        let list = points::memory_points(s.memory, h, t);
        assert(all[n + 1] == list[1]);
        memory_points_say_what_they_are_named_after(s);
        lemma_two(all, name, i, n + 1);
    }
}

/// Two points with a name are more than one.
proof fn lemma_two(list: Seq<PointView>, name: Seq<char>, i: int, j: int)
    requires
        0 <= i < list.len(),
        0 <= j < list.len(),
        i != j,
        list[i].name == name,
        list[j].name == name,
    ensures
        named(list, name).len() >= 2,
    decreases list.len(),
{
    let last = list.len() - 1;
    if i == last {
        lemma_some(list.drop_last(), name, j);
    } else if j == last {
        lemma_some(list.drop_last(), name, i);
    } else {
        lemma_two(list.drop_last(), name, i, j);
    }
}

proof fn lemma_some(list: Seq<PointView>, name: Seq<char>, i: int)
    requires
        0 <= i < list.len(),
        list[i].name == name,
    ensures
        named(list, name).len() >= 1,
    decreases list.len(),
{
    if i < list.len() - 1 {
        lemma_some(list.drop_last(), name, i);
    }
}

/// Every reading of a processor is shown, processor by processor and then for all together, by the
/// points that are named after it, and these say which processor is meant.
pub proof fn processor_points_say_what_they_are_named_after(s: SnapshotView, name: Seq<char>)
    requires
        s.cpu.total.reading(name) is Some,
    ensures
        ({
            let list = named(points::snapshot_points(s), name);
            &&& list.len() == s.cpu.per_core.len() + 1
            &&& shows_each(list.drop_last(), s.cpu.per_core, name)
            &&& (list.last().value, list.last().unit) == s.cpu.total.reading(name)->0
            &&& has_tag(list.last().tags, "core"@, "total"@)
        }),
{
    let (h, t) = (points::host_tags(s.hostname), s.timestamp);
    let total = h.insert("core"@, "total"@);
    lemma_marks_c();
    lemma_parts(s, name);
    lemma_cores(s.cpu.per_core, h, t, name);
    lemma_core(s.cpu.total, total, t, name);
    let a = points::per_core_points(s.cpu.per_core, h, t);
    let b = points::core_points(s.cpu.total, total, t);
    lemma_named_both(a, b, name);
    lemma_shown_len(named(a, name), s.cpu.per_core, name);
    assert((named(a, name) + named(b, name)).drop_last() =~= named(a, name));
}

proof fn lemma_shown_len(list: Seq<PointView>, cores: Seq<CoreMetrics>, name: Seq<char>)
    requires
        shows_each(list, cores, name),
        name == "cpu.user"@ || name == "cpu.system"@ || name == "cpu.softirq"@ || name
            == "cpu.hardirq"@ || name == "cpu.idle"@ || name == "cpu.iowait"@ || name
            == "cpu.steal"@,
    ensures
        list.len() == cores.len(),
    decreases cores.len(),
{
    if cores.len() > 0 {
        lemma_shown_len(list.drop_last(), cores.drop_last(), name);
    }
}

/// Every reading of a disk is shown, disk by disk, by the points that are named after it, and these
/// say which disk is meant.
pub proof fn disk_points_say_what_they_are_named_after(s: SnapshotView, name: Seq<char>)
    requires
        name == "disk.total"@ || name == "disk.used"@ || name == "disk.available"@ || name
            == "disk.read_bytes_per_sec"@ || name == "disk.write_bytes_per_sec"@ || name
            == "disk.io_latency"@,
    ensures
        shows_each(named(points::snapshot_points(s), name), s.disk, name),
{
    lemma_marks_d();
    lemma_parts(s, name);
    lemma_devices(s.disk, points::host_tags(s.hostname), s.timestamp, name);
}

/// Every reading of an interface is shown, interface by interface, by the points that are named
/// after it, and these say which interface is meant.
pub proof fn interface_points_say_what_they_are_named_after(s: SnapshotView, name: Seq<char>)
    requires
        name == "net.rx_bytes_per_sec"@ || name == "net.tx_bytes_per_sec"@ || name
            == "net.rx_packets_per_sec"@ || name == "net.tx_packets_per_sec"@ || name
            == "net.rx_errors"@ || name == "net.tx_errors"@ || name == "net.rx_dropped"@ || name
            == "net.tx_dropped"@,
    ensures
        shows_each(named(points::snapshot_points(s), name), s.network.interfaces, name),
{
    let (h, t) = (points::host_tags(s.hostname), s.timestamp);
    let a = points::per_interface_points(s.network.interfaces, h, t);
    let all = points::network_points(s.network, h, t);
    let tcp = all.skip(a.len() as int);
    lemma_marks_n();
    lemma_parts(s, name);
    lemma_interfaces(s.network.interfaces, h, t, name);
    assert(all =~= a + tcp);
    lemma_named_none(tcp, name);
    lemma_named_both(a, tcp, name);
    assert(named(a, name) + Seq::<PointView>::empty() =~= named(a, name));
}

/// The connections and the two rates of the network are shown by the points named after them.
pub proof fn network_points_say_what_they_are_named_after(s: SnapshotView)
    ensures
        ({
            let list = points::snapshot_points(s);
            let n = s.network;
            &&& only(list, "net.tcp_connections"@, Quantity::Whole(n.tcp_connections), "count"@)
            &&& only(list, "net.tcp_retransmit_rate"@, n.tcp_retransmit_rate, "percent"@)
            &&& only(list, "net.packet_loss_rate"@, n.packet_loss_rate, "percent"@)
        }),
{
    lemma_marks_n();
    lemma_tcp(s, "net.tcp_connections"@, 0);
    lemma_tcp(s, "net.tcp_retransmit_rate"@, 1);
    lemma_tcp(s, "net.packet_loss_rate"@, 2);
}

proof fn lemma_tcp(s: SnapshotView, name: Seq<char>, k: int)
    requires
        k == 0 ==> name == "net.tcp_connections"@,
        k == 1 ==> name == "net.tcp_retransmit_rate"@,
        k == 2 ==> name == "net.packet_loss_rate"@,
        0 <= k < 3,
    ensures
        ({
            let all = points::network_points(
                s.network,
                points::host_tags(s.hostname),
                s.timestamp,
            );
            named(points::snapshot_points(s), name) == seq![all[all.len() - 3 + k]]
        }),
{
    let (h, t) = (points::host_tags(s.hostname), s.timestamp);
    let a = points::per_interface_points(s.network.interfaces, h, t);
    let all = points::network_points(s.network, h, t);
    let tcp = all.skip(a.len() as int);
    lemma_marks_n();
    lemma_parts(s, name);
    lemma_interfaces(s.network.interfaces, h, t, name);
    assert(all =~= a + tcp);
    lemma_named_one(tcp, k, name);
    lemma_named_both(a, tcp, name);
    lemma_nothing_shown(named(a, name), s.network.interfaces, name);
    assert(Seq::<PointView>::empty() + seq![tcp[k]] =~= seq![tcp[k]]);
}

proof fn lemma_nothing_shown(list: Seq<PointView>, items: Seq<InterfaceView>, name: Seq<char>)
    requires
        shows_each(list, items, name),
        forall|n: InterfaceView| (#[trigger] n.reading(name)) is None,
    ensures
        list == Seq::<PointView>::empty(),
    decreases items.len(),
{
    if items.len() > 0 {
        lemma_nothing_shown(list, items.drop_last(), name);
    } else {
        assert(list =~= Seq::empty());
    }
}

/// The temperatures of all sensors, and the highest one, are shown in degrees by the points named
/// after them, and these say which sensor is meant.
pub proof fn thermal_points_say_what_they_are_named_after(s: SnapshotView)
    ensures
        shows_each(
            named(points::snapshot_points(s), "thermal.temp"@),
            s.thermal.zones,
            "thermal.temp"@,
        ),
        only(
            points::snapshot_points(s),
            "thermal.max_temp"@,
            Quantity::Quotient { num: s.thermal.max_temp_millidegrees, den: 1000 },
            "celsius"@,
        ),
{
    let (h, t) = (points::host_tags(s.hostname), s.timestamp);
    let (x, y) = ("thermal.temp"@, "thermal.max_temp"@);
    let all = points::thermal_points(s.thermal, h, t);
    let zones = zone_points(s.thermal.zones, h, t);
    let top = seq![all.last()];
    assert(all =~= zones + top);
    lemma_marks_t();
    lemma_parts(s, x);
    lemma_parts(s, y);
    lemma_zones(s.thermal.zones, h, t, x);
    lemma_named_both(zones, top, x);
    lemma_named_both(zones, top, y);
    lemma_named_none(top, x);
    lemma_named_one(top, 0, y);
    lemma_named_none(zones, y);
    assert(named(zones, x) + Seq::<PointView>::empty() =~= named(zones, x));
    assert(Seq::<PointView>::empty() + seq![top[0]] =~= seq![top[0]]);
}

/// Every reading of a process is shown, process by process and where it has it, by the points that
/// are named after it, and these say which process is meant.
pub proof fn process_points_say_what_they_are_named_after(s: SnapshotView, name: Seq<char>)
    requires
        name == "process.cpu"@ || name == "process.memory"@ || name == "process.open_fds"@ || name
            == "process.threads"@ || name == "process.cgroup.cpu_limit"@ || name
            == "process.cgroup.memory_limit"@ || name == "process.cgroup.memory_usage"@ || name
            == "process.cgroup.io_weight"@ || name == "process.children_count"@,
    ensures
        shows_each(named(points::snapshot_points(s), name), s.processes, name),
{
    lemma_marks_p();
    lemma_parts(s, name);
    lemma_processes(s.processes, points::host_tags(s.hostname), s.timestamp, name);
}

} // verus!
