//! Collectors on the contents of kernel files.
use syspulse::collector::bpf::{
    bpf_insn, build_done_prog, build_start_prog, Stage, Step, Unneeded,
};
use syspulse::collector::cpu::{parse_stat_bytes, CpuCollector};
use syspulse::collector::disk::{
    device_name, parse_diskstats, parse_mounts, statvfs, DiskCollector, FsStat, MountSample,
};
use syspulse::collector::latency::{
    read_bpf_histogram, scale, DiskRawStat, IoLatencyTracker, TracerHandles, FRACTION_50,
    FRACTION_90, FRACTION_95, FRACTION_99,
};
use syspulse::collector::memory::MemoryCollector;
use syspulse::collector::network::{
    parse_net_dev, parse_snmp, tcp_headings_are_whole, NetworkCollector,
};
use syspulse::collector::process::{
    add_details, busiest, cgroup_file, cgroup_has_files, cgroup_path, comm_is_ordered,
    format_proc_path, parse_comm, push_pids, rank_keys, read_cgroup, CgroupFiles, ProcStat, ProcTicks,
    ProcessCollector, ProcessDetails,
};
use syspulse::collector::thermal::{temp_path, type_path, ThermalCollector, ZoneReading};
use syspulse::collector::{CollectorError, IoError};
use syspulse::metrics::{CgroupInfo, CoreMetrics, LatencySum, ProcessMetrics, Quantile, Quantity};

const SECOND: u64 = 1_000_000_000;

fn missing() -> IoError {
    IoError { code: Some(2), message: "No such file or directory".to_string() }
}

fn value(q: &Quantity) -> f64 {
    match *q {
        Quantity::Whole(n) => n as f64,
        Quantity::Percent { part, whole } => (part as f64 / whole as f64) * 100.0,
        Quantity::Quotient { num, den } => num as f64 / den as f64,
        Quantity::PerSecond { amount, unit, elapsed_ns } => {
            (amount as f64 * unit as f64) / (elapsed_ns as f64 / 1e9)
        }
        Quantity::TickShare { ticks, ticks_per_sec, elapsed_ns } => {
            (ticks as f64 / ((elapsed_ns as f64 / 1e9) * ticks_per_sec as f64)) * 100.0
        }
    }
}

const STAT_1: &[u8] = b"cpu  100 10 50 800 20 5 10 5 0 0\n\
cpu0 60 5 30 390 10 3 5 2 0 0\n\
cpu1 40 5 20 410 10 2 5 3 0 0\n\
intr 12345 0 0\n\
ctxt 999\n";

const STAT_2: &[u8] = b"cpu  140 20 70 900 30 6 18 16 0 0\n\
cpu0 80 10 40 440 15 3 9 8 0 0\n\
cpu1 60 10 30 460 15 3 9 8 0 0\n\
intr 12999 0 0\n";

#[test]
fn test_cpu_collector_first_sample_returns_zeros() {
    let mut cpu = CpuCollector::new();
    let result = cpu.collect(Ok(STAT_1));
    let metrics = result.unwrap();
    assert_eq!(value(&metrics.total.idle_pct), 100.0);
    assert_eq!(value(&metrics.total.user_pct), 0.0);
    assert_eq!(metrics.per_core.len(), 2);
    assert_eq!(metrics.per_core[1].core_id, 1);
    assert_eq!(metrics.per_core[1].idle_pct, Quantity::Whole(100));
}

fn sum(m: &CoreMetrics) -> f64 {
    value(&m.user_pct)
        + value(&m.system_pct)
        + value(&m.idle_pct)
        + value(&m.iowait_pct)
        + value(&m.softirq_pct)
        + value(&m.hardirq_pct)
        + value(&m.steal_pct)
}

#[test]
fn test_cpu_collector_two_samples() {
    let mut cpu = CpuCollector::new();
    let _ = cpu.collect(Ok(STAT_1));
    let metrics = cpu.collect(Ok(STAT_2)).unwrap();
    let total = sum(&metrics.total);
    assert!((total - 100.0).abs() < 0.1, "CPU percentages should sum to ~100, got {}", total);
    for core in &metrics.per_core {
        assert!((sum(core) - 100.0).abs() < 0.1);
    }
}

#[test]
fn cpu_percentages_are_exact() {
    let mut cpu = CpuCollector::new();
    let _ = cpu.collect(Ok(STAT_1));
    let m = cpu.collect(Ok(STAT_2)).unwrap();
    assert_eq!(m.total.user_pct, Quantity::Percent { part: 50, whole: 200 });
    assert_eq!(m.total.system_pct, Quantity::Percent { part: 20, whole: 200 });
    assert_eq!(m.total.idle_pct, Quantity::Percent { part: 100, whole: 200 });
    assert_eq!(m.total.iowait_pct, Quantity::Percent { part: 10, whole: 200 });
    assert_eq!(m.total.hardirq_pct, Quantity::Percent { part: 1, whole: 200 });
    assert_eq!(m.total.softirq_pct, Quantity::Percent { part: 8, whole: 200 });
    assert_eq!(m.total.steal_pct, Quantity::Percent { part: 11, whole: 200 });
}

#[test]
fn cpu_counters_wrap_around() {
    let mut cpu = CpuCollector::new();
    let _ = cpu.collect(Ok(b"cpu 18446744073709551610 0 0 0 0 0 0 0\n"));
    let m = cpu.collect(Ok(b"cpu 4 0 0 10 0 0 0 0\n")).unwrap();
    assert_eq!(m.total.user_pct, Quantity::Percent { part: 10, whole: 20 });
}

#[test]
fn cpu_at_a_standstill_is_idle() {
    let mut cpu = CpuCollector::new();
    let _ = cpu.collect(Ok(STAT_1));
    let m = cpu.collect(Ok(STAT_1)).unwrap();
    assert_eq!(m.total.idle_pct, Quantity::Whole(100));
    assert_eq!(m.total.user_pct, Quantity::Whole(0));
}

#[test]
fn cpu_lines_are_read_as_they_stand() {
    let stats = parse_stat_bytes(b"xcpu 1\ncpu 1 2\ncpu7\ncpufreq 5 x6 7\ncpu").unwrap();
    assert_eq!(stats.len(), 3);
    assert_eq!((stats[0].user, stats[0].nice, stats[0].system), (1, 2, 0));
    assert_eq!((stats[1].user, stats[1].steal), (0, 0));
    assert_eq!((stats[2].user, stats[2].nice, stats[2].system), (5, 0, 0));
}

#[test]
fn cpu_failures_leave_the_collector_alone() {
    let mut cpu = CpuCollector::new();
    let _ = cpu.collect(Ok(STAT_1));
    match cpu.collect(Ok(b"intr 5\ncpu")) {
        Err(CollectorError::Parse(m)) => assert_eq!(m, "no cpu stats"),
        other => panic!("{:?}", other),
    }
    match cpu.collect(Err(missing())) {
        Err(CollectorError::Io(e)) => assert_eq!(e.code, Some(2)),
        other => panic!("{:?}", other),
    }
    let m = cpu.collect(Ok(STAT_2)).unwrap();
    assert_eq!(m.total.user_pct, Quantity::Percent { part: 50, whole: 200 });
}

const MEMINFO: &str = "MemTotal:       16384000 kB\n\
MemFree:         4096000 kB\n\
MemAvailable:    9000000 kB\n\
Buffers:          500000 kB\n\
Cached:          3000000 kB\n\
SwapCached:           12 kB\n\
SwapTotal:       2048000 kB\n\
SwapFree:        2000000 kB\n\
HugePages_Total:       0\n";

#[test]
fn test_memory_collector_sanity() {
    let mut mem = MemoryCollector::new();
    let metrics = mem.collect(Ok(MEMINFO), Ok("pswpin 5\npswpout 7\n"), SECOND).unwrap();
    assert!(metrics.total_bytes > 0);
    assert!(metrics.available_bytes <= metrics.total_bytes);
    assert!(metrics.used_bytes <= metrics.total_bytes);
}

#[test]
fn memory_is_counted_in_bytes() {
    let mut mem = MemoryCollector::new();
    let m = mem.collect(Ok(MEMINFO), Ok("pswpin 5\npswpout 7\n"), SECOND).unwrap();
    assert_eq!(m.total_bytes, 16384000 * 1024);
    assert_eq!(m.used_bytes, (16384000 - 4096000 - 500000 - 3000000) * 1024);
    assert_eq!(m.available_bytes, 9000000 * 1024);
    assert_eq!(m.cached_bytes, 3000000 * 1024);
    assert_eq!(m.buffers_bytes, 500000 * 1024);
    assert_eq!(m.swap_total_bytes, 2048000 * 1024);
    assert_eq!(m.swap_used_bytes, 48000 * 1024);
    assert_eq!(m.swap_in_rate, Quantity::Whole(0));
    let m = mem.collect(Ok(MEMINFO), Ok("pswpin 15\npswpout 7\n"), 3 * SECOND).unwrap();
    assert_eq!(value(&m.swap_in_rate), 10.0 * 4096.0 / 2.0);
    assert_eq!(value(&m.swap_out_rate), 0.0);
    let m = mem.collect(Ok(MEMINFO), Ok("pswpin 25\n"), 2 * SECOND).unwrap();
    assert_eq!(m.swap_in_rate, Quantity::Whole(0));
}

#[test]
fn memory_entries_are_read_as_they_stand() {
    let mut mem = MemoryCollector::new();
    let text = "MemTotal:\t100 kB\r\nMemTotal: 200 kB\nMemFree: many kB\nBuffers:\nCached: 300";
    let m = mem.collect(Ok(text), Ok(""), 0).unwrap();
    assert_eq!(m.total_bytes, 200 * 1024);
    assert_eq!(m.cached_bytes, 300 * 1024);
    assert_eq!(m.buffers_bytes, 0);
    assert_eq!(m.used_bytes, 0);
}

#[test]
fn memory_failures_are_reported() {
    let mut mem = MemoryCollector::new();
    assert!(matches!(mem.collect(Err(missing()), Ok(""), 0), Err(CollectorError::Io(_))));
    assert!(matches!(mem.collect(Ok(MEMINFO), Err(missing()), 0), Err(CollectorError::Io(_))));
}

const NET_1: &[u8] = b"Inter-|   Receive                            |  Transmit\n \
face |bytes    packets errs drop fifo frame compressed multicast|bytes\n    \
lo:  500 5 0 0 0 0 0 0 500 5 0 0 0 0 0 0\n  \
eth0: 1000 10 1 2 0 0 0 0 2000 20 3 4 0 0 0 0\n";

const NET_2: &[u8] = b"h\nh\n    \
lo:  900 9 0 0 0 0 0 0 900 9 0 0 0 0 0 0\n  \
eth0:3000 30 1 2 0 0 0 0 6000 60 3 5 0 0 0 0\n  \
new: 1 1 1 1 1 1 1 1 1 1 1 1 1 1 1 1\n";

const SNMP_1: &[u8] = b"Ip: Forwarding\nIp: 1\n\
Tcp: RtoAlgorithm CurrEstab InSegs OutSegs RetransSegs InErrs\n\
Tcp: 1 17 1000 2000 10 1\nUdp: x\nUdp: 1\n";

const SNMP_2: &[u8] = b"Tcp: CurrEstab InSegs OutSegs RetransSegs InErrs\nTcp: 19 1500 2400 30 6\n";

#[test]
fn test_network_collector_no_loopback() {
    let mut net = NetworkCollector::new();
    let _ = net.collect(Ok(NET_1), Ok(SNMP_1), SECOND);
    let metrics = net.collect(Ok(NET_2), Ok(SNMP_2), 3 * SECOND).unwrap();
    assert!(!metrics.interfaces.is_empty());
    for iface in &metrics.interfaces {
        assert_ne!(iface.name, "lo", "loopback should be excluded");
    }
}

#[test]
fn network_rates_are_exact() {
    let mut net = NetworkCollector::new();
    let m = net.collect(Ok(NET_1), Ok(SNMP_1), SECOND).unwrap();
    assert_eq!(m.interfaces.len(), 1);
    assert_eq!(m.interfaces[0].rx_bytes_per_sec, Quantity::Whole(0));
    assert_eq!(m.tcp_connections, 17);
    assert_eq!(m.tcp_retransmit_rate, Quantity::Whole(0));
    let m = net.collect(Ok(NET_2), Ok(SNMP_2), 3 * SECOND).unwrap();
    assert_eq!(m.interfaces.len(), 2);
    let eth = &m.interfaces[0];
    assert_eq!(eth.name, "eth0");
    assert_eq!(value(&eth.rx_bytes_per_sec), 1000.0);
    assert_eq!(value(&eth.tx_bytes_per_sec), 2000.0);
    assert_eq!(value(&eth.rx_packets_per_sec), 10.0);
    assert_eq!(value(&eth.tx_packets_per_sec), 20.0);
    assert_eq!((eth.rx_errors, eth.rx_dropped, eth.tx_errors, eth.tx_dropped), (1, 2, 3, 5));
    assert_eq!(m.interfaces[1].name, "new");
    assert_eq!(m.interfaces[1].rx_bytes_per_sec, Quantity::Whole(0));
    assert_eq!(m.tcp_connections, 19);
    assert_eq!(m.tcp_retransmit_rate, Quantity::Percent { part: 20, whole: 400 });
    assert_eq!(m.packet_loss_rate, Quantity::Percent { part: 5, whole: 500 });
}

#[test]
fn network_without_counters() {
    let mut net = NetworkCollector::new();
    let m = net.collect(Ok(NET_1), Err(missing()), SECOND).unwrap();
    assert_eq!(m.tcp_connections, 0);
    assert!(matches!(net.collect(Err(missing()), Ok(SNMP_1), 0), Err(CollectorError::Io(_))));
}

#[test]
fn interface_lines_that_do_not_count() {
    let table = parse_net_dev(
        b"1\n2\nno colon 1 2 3\n : 1 2 3 4 5 6 7 8 9 10 11 12 13 14 15 16\n\
short: 1 2 3\na: 1 2 3 4 5 6 7 8 9 10 11 12 13 14 15 16\n\
a: 9 2 3 4 5 6 7 8 9 10 11 12 13 14 15 16",
    );
    assert_eq!(table.len(), 1);
    assert_eq!(table.name(0), "a");
    assert_eq!(table.value(0).rx_bytes, 9);
    assert!(table.get("short").is_none());
}

#[test]
fn headings_need_a_line_of_values() {
    assert!(tcp_headings_are_whole(SNMP_1));
    assert!(tcp_headings_are_whole(b""));
    assert!(tcp_headings_are_whole(b"Tcp: InSegs\n"));
    assert!(!tcp_headings_are_whole(b"Ip: 1\nTcp: InSegs"));
    assert_eq!(parse_snmp(b"Tcp: InSegs\n").in_segs, 0);
    assert_eq!(parse_snmp(b"Tcp: InSegs OutSegs\nTcp: 4").in_segs, 4);
    assert_eq!(parse_snmp(b"Udp: InSegs\nUdp: 4\n").in_segs, 0);
}

const MOUNTS: &[u8] = b"/dev/sda1 / ext4 rw,relatime 0 0\n\
proc /proc proc rw 0 0\n\
tmpfs /run tmpfs rw 0 0\n\
/dev/mapper/vg-home /home xfs rw 0 0\n\
broken\n";

const DISKS_1: &[u8] = b"   8       0 sda 1 2 3 4 5 6 7 8 9 10 11\n\
   8       1 sda1 100 0 2000 50 200 0 4000 150 0 300 400\n\
   8       2 short 1 2 3\n";

const DISKS_2: &[u8] = b"   8       1 sda1 110 0 4000 80 220 0 8000 270 0 500 600\n";

fn samples(buckets: Option<Vec<u64>>) -> Vec<MountSample> {
    let fs = FsStat { fragment_size: 4096, blocks: 1000, free: 400, available: 300 };
    vec![
        MountSample { fs: Some(fs), buckets },
        MountSample { fs: None, buckets: None },
        MountSample { fs: Some(fs), buckets: None },
    ]
}

fn no_tracer() -> TracerHandles {
    TracerHandles { histogram_fd: -1, start_map_fd: -1, attached: false }
}

#[test]
fn test_disk_collector_finds_filesystems() {
    let mut disk = DiskCollector::new(no_tracer());
    let metrics = disk.collect(Ok(MOUNTS), Ok(DISKS_1), &samples(None), SECOND).unwrap();
    assert_eq!(metrics.devices.len(), 3);
    for dev in &metrics.devices {
        assert!(!dev.fs_type.is_empty());
        assert!(!dev.mount_point.is_empty());
    }
}

#[test]
fn mounts_are_filtered_by_type() {
    let mounts = parse_mounts(MOUNTS);
    let points: Vec<&str> = mounts.iter().map(|m| m.mount_point.as_str()).collect();
    assert_eq!(points, ["/", "/run", "/home"]);
    assert_eq!(mounts[2].device, "/dev/mapper/vg-home");
    assert_eq!(mounts[2].fs_type, "xfs");
    assert!(parse_mounts(b"a b \xffext4 c\na ext4\n").is_empty());
    assert_eq!(parse_mounts(b"a  ext4\n")[0].mount_point, "");
    let lossy = parse_mounts(b"d\xffv /m ext3\n");
    assert_eq!(lossy[0].device, "d\u{fffd}v");
}

#[test]
fn disk_counters_are_read() {
    let stats = parse_diskstats(DISKS_1);
    assert_eq!(stats.len(), 2);
    let s = stats.get("sda1").unwrap();
    assert_eq!((s.read_ios, s.read_bytes, s.read_time_ms), (100, 2000 * 512, 50));
    assert_eq!((s.write_ios, s.write_bytes, s.write_time_ms), (200, 4000 * 512, 150));
    assert_eq!(s.io_ticks_ms, 300);
}

#[test]
fn device_names_are_base_names() {
    assert_eq!(device_name("/dev/sda1"), "sda1");
    assert_eq!(device_name("tmpfs"), "tmpfs");
    assert_eq!(device_name("/dev/"), "");
}

#[test]
fn file_system_usage() {
    let fs = FsStat { fragment_size: 4096, blocks: 1000, free: 400, available: 300 };
    assert_eq!(statvfs(&Some(fs)), (4096000, 600 * 4096, 300 * 4096));
    assert_eq!(statvfs(&None), (0, 0, 0));
}

#[test]
fn disk_traffic_and_latency() {
    let mut disk = DiskCollector::new(no_tracer());
    let m = disk.collect(Ok(MOUNTS), Ok(DISKS_1), &samples(None), SECOND).unwrap();
    assert_eq!(m.devices[0].read_bytes_per_sec, Quantity::Whole(0));
    assert_eq!(m.devices[0].io_latency.count, 0);
    assert!(m.devices[0].io_latency.quantiles.is_empty());
    let m = disk.collect(Ok(MOUNTS), Ok(DISKS_2), &samples(None), 3 * SECOND).unwrap();
    let d = &m.devices[0];
    assert_eq!((d.total_bytes, d.used_bytes, d.available_bytes), (4096000, 2457600, 1228800));
    assert_eq!(value(&d.read_bytes_per_sec), 2000.0 * 512.0 / 2.0);
    assert_eq!(value(&d.write_bytes_per_sec), 4000.0 * 512.0 / 2.0);
    assert_eq!(d.io_latency.count, 30);
    assert!(matches!(d.io_latency.sum, LatencySum::Millis(150)));
    let percents: Vec<u32> = d.io_latency.quantiles.iter().map(|q| q.percent).collect();
    assert_eq!(percents, [50, 90, 95, 99]);
    assert_eq!(value(&d.io_latency.quantiles[0].value), 5.0);
    assert_eq!(m.devices[2].io_latency.count, 0);
    assert!(disk.collect(Err(missing()), Ok(DISKS_2), &samples(None), 0).is_err());
    assert!(disk.collect(Ok(MOUNTS), Err(missing()), &samples(None), 0).is_err());
}

fn disk_stat(time: u64, ios: u64) -> DiskRawStat {
    DiskRawStat {
        read_bytes: 0,
        write_bytes: 0,
        read_time_ms: time,
        write_time_ms: 0,
        read_ios: ios,
        write_ios: 0,
        io_ticks_ms: 0,
    }
}

#[test]
fn latency_windows_slide() {
    let mut tracker = IoLatencyTracker::new(no_tracer());
    let mut time = 0;
    let mut prev = disk_stat(0, 0);
    let mut expected = Vec::new();
    for i in 0..400u64 {
        let step = (i * 7919) % 1000;
        time += step;
        let cur = disk_stat(time, i + 1);
        let h = tracker.compute_latency("sda", Some(&prev), &cur, None);
        expected.push(step);
        let from = expected.len().saturating_sub(256);
        let mut sorted = expected[from..].to_vec();
        sorted.sort();
        let len = sorted.len();
        let pick = |p: usize| sorted[(len * p / 100).min(len - 1)];
        for (q, p) in h.quantiles.iter().zip([50usize, 90, 95, 99]) {
            assert_eq!(q.percent as usize, p);
            assert_eq!(value(&q.value), pick(p) as f64);
        }
        prev = cur;
    }
    assert_eq!(tracker.compute_latency("sdb", None, &prev, None).count, 0);
}

#[test]
fn latency_means_are_compared_exactly() {
    let mut tracker = IoLatencyTracker::new(no_tracer());
    let zero = disk_stat(0, 0);
    tracker.compute_latency("d", Some(&zero), &disk_stat(1, 3), None);
    let h = tracker.compute_latency("d", Some(&zero), &disk_stat(1, 2), None);
    assert_eq!(
        h.quantiles[0],
        Quantile { percent: 50, value: Quantity::Quotient { num: 1, den: 2 } }
    );
    let h = tracker.compute_latency("d", Some(&zero), &disk_stat(1, 4), None);
    assert_eq!(h.quantiles[0].value, Quantity::Quotient { num: 1, den: 3 });
}

#[test]
fn buckets_are_preferred() {
    let attached = TracerHandles { histogram_fd: 3, start_map_fd: 4, attached: true };
    let mut buckets = vec![0u64; 64];
    buckets[3] = 60;
    buckets[10] = 40;
    let mut tracker = IoLatencyTracker::new(attached);
    assert_eq!(tracker.bucket_source(), Some(3));
    let zero = disk_stat(0, 0);
    let h = tracker.compute_latency("d", Some(&zero), &disk_stat(9, 3), Some(&buckets));
    assert_eq!(h.count, 100);
    let values: Vec<f64> = h.quantiles.iter().map(|q| value(&q.value)).collect();
    assert_eq!(values, [0.008, 1.024, 1.024, 1.024]);
    assert!(matches!(h.sum, LatencySum::Buckets(ref b) if b[10] == 40));
    let h = tracker.compute_latency("d", Some(&zero), &disk_stat(9, 3), Some(&vec![0; 64]));
    assert_eq!(h.count, 3);
    let mut plain = IoLatencyTracker::new(no_tracer());
    assert_eq!(plain.bucket_source(), None);
    let h = plain.compute_latency("d", Some(&zero), &disk_stat(9, 3), Some(&buckets));
    assert_eq!(h.count, 3);
    assert!(read_bpf_histogram(&vec![0; 64]).is_none());
}

#[test]
fn buckets_show_ascending_quantiles() {
    let mut buckets = vec![0u64; 64];
    buckets[3] = 60;
    buckets[7] = 31;
    buckets[10] = 6;
    buckets[20] = 3;
    let h = read_bpf_histogram(&buckets).unwrap();
    assert_eq!(h.count, 100);
    let shown: Vec<(u32, f64)> = h.quantiles.iter().map(|q| (q.percent, value(&q.value))).collect();
    assert_eq!(shown, vec![(50, 0.008), (90, 0.128), (95, 1.024), (99, 1048.576)]);

    let full = vec![u64::MAX / 64; 64];
    let h = read_bpf_histogram(&full).unwrap();
    assert_eq!(h.quantiles.len(), 4);
}

#[test]
fn fractions_agree_with_floating_point() {
    let mut count = 1u64;
    for i in 0..20_000u64 {
        count = count.wrapping_mul(6364136223846793005).wrapping_add(1442695040888963407);
        let n = count >> (i % 64);
        for (q, m) in [
            (0.50, FRACTION_50),
            (0.90, FRACTION_90),
            (0.95, FRACTION_95),
            (0.99, FRACTION_99),
        ] {
            assert_eq!(scale(n, m), (n as f64 * q) as u64, "{} {}", n, q);
        }
    }
}

#[test]
fn instructions_are_encoded() {
    assert_eq!(bpf_insn(0x85, 0, 0, 0, 5), 0x0000_0005_0000_0085);
    assert_eq!(bpf_insn(0x7b, 10, 7, -8, 0), 0x0000_0000_fff8_7a7b);
    assert_eq!(bpf_insn(0x07, 2, 0, 0, -8), 0xffff_fff8_0000_0207);
    assert_eq!(bpf_insn(0x18, 17, 33, 0, 3), 0x0000_0003_0000_1118);
    let start = build_start_prog(5);
    assert_eq!(start.len(), 15);
    assert_eq!(start[0], 0x0000_0000_0070_1779);
    assert_eq!(start[1], 0x0000_0005_0000_0085);
    assert_eq!(start[5], 0x0000_0005_0000_1118);
    assert_eq!(start[14], 0x95);
    let done = build_done_prog(5, 6);
    assert_eq!(done.len(), 40);
    assert_eq!(done[0], 0x0000_0000_0070_1779);
    assert_eq!(done[4], 0x0000_0005_0000_1118);
    assert_eq!(done[9], 0x0000_0000_001c_0015);
    assert_eq!(done[25], 0x0000_0006_0000_1118);
    assert_eq!(done[30], 0x0000_0000_0002_0015);
    assert_eq!(done[32], 0x0000_0000_0000_10db);
    assert_eq!(done[33], 0x0000_0005_0000_1118);
    assert_eq!(done[38], 0xb7);
    assert_eq!(done[39], 0x95);
}

fn attach(results: &[i32]) -> (TracerHandles, Unneeded, Vec<&'static str>) {
    let mut stage = Stage::start();
    let mut functions = Vec::new();
    for &r in results {
        if let Step::Attach { function, is_return, .. } = stage.step() {
            assert!(!is_return);
            functions.push(function);
        }
        stage = stage.advance(r);
    }
    match stage.step() {
        Step::Finish { handles, close } => (handles, close, functions),
        other => panic!("{:?}", other),
    }
}

#[test]
fn the_tracer_is_attached_or_cleaned_up() {
    let none = no_tracer();
    assert_eq!(attach(&[-1]), (none, Unneeded::Nothing, vec![]));
    assert_eq!(attach(&[3, -1]), (none, Unneeded::One(3), vec![]));
    assert_eq!(attach(&[3, 4, -1]), (none, Unneeded::Two(3, 4), vec![]));
    assert_eq!(attach(&[3, 4, 5, -1]), (none, Unneeded::Three(5, 3, 4), vec![]));
    let on = TracerHandles { histogram_fd: 3, start_map_fd: 4, attached: true };
    let off = TracerHandles { histogram_fd: 3, start_map_fd: 4, attached: false };
    let (handles, close, functions) = attach(&[3, 4, 5, 6, 7, 8]);
    assert_eq!((handles, close), (on, Unneeded::Nothing));
    assert_eq!(functions, ["blk_account_io_start", "blk_account_io_done"]);
    let (handles, close, functions) = attach(&[3, 4, 5, 6, -1, 8, 9]);
    assert_eq!((handles, close), (on, Unneeded::Nothing));
    assert_eq!(functions[2], "__blk_account_io_start");
    let (handles, close, functions) = attach(&[3, 4, 5, 6, 7, -1, 9]);
    assert_eq!((handles, close), (on, Unneeded::Nothing));
    assert_eq!(functions[2], "__blk_account_io_done");
    let (handles, close, functions) = attach(&[3, 4, 5, 6, -1, -1, 8, -1]);
    assert_eq!((handles, close), (off, Unneeded::Two(5, 6)));
    assert_eq!(functions.len(), 4);
    let (handles, close, _) = attach(&[3, 4, 5, 6, -1, 8, -1]);
    assert_eq!((handles, close), (off, Unneeded::Two(5, 6)));
}

#[test]
fn the_tracer_is_made_of_two_maps_and_two_programs() {
    let stage = Stage::start();
    match stage.step() {
        Step::CreateMap { map_type, key_size, value_size, max_entries } => {
            assert_eq!((map_type, key_size, value_size, max_entries), (2, 4, 8, 64));
        }
        other => panic!("{:?}", other),
    }
    let stage = stage.advance(3);
    match stage.step() {
        Step::CreateMap { map_type, key_size, value_size, max_entries } => {
            assert_eq!((map_type, key_size, value_size, max_entries), (1, 8, 8, 8192));
        }
        other => panic!("{:?}", other),
    }
    let stage = stage.advance(4);
    match stage.step() {
        Step::Load { prog_type, program, license } => {
            assert_eq!((prog_type, license), (1, "GPL\0"));
            assert_eq!(program, build_start_prog(4));
        }
        other => panic!("{:?}", other),
    }
    match stage.advance(5).step() {
        Step::Load { program, .. } => assert_eq!(program, build_done_prog(4, 3)),
        other => panic!("{:?}", other),
    }
}

fn stat_line(pid: u32, name: &str, ppid: u32, utime: u64, stime: u64, threads: u64) -> Vec<u8> {
    format!(
        "{} ({}) S {} 1 1 0 -1 4194560 5 0 0 0 {} {} 0 0 20 0 {} 0 100 1000000 250 18446744073709551615\n",
        pid, name, ppid, utime, stime, threads
    )
    .into_bytes()
}

#[test]
fn test_process_collector_finds_self() {
    let my_pid = 4242;
    let mut list: Vec<ProcStat> = (1..=120)
        .map(|pid| ProcStat { pid, stat: Ok(stat_line(pid, "other", 0, 5, 5, 1)) })
        .collect();
    list.push(ProcStat { pid: my_pid, stat: Ok(stat_line(my_pid, "syspulse", 1, 7, 3, 2)) });
    let mut proc_col = ProcessCollector::new();
    let metrics = proc_col.collect(Ok(&list), SECOND, my_pid).unwrap();
    let found = metrics.processes.iter().any(|p| p.pid == my_pid);
    assert!(found, "should find our own process");
}

#[test]
fn processes_are_surveyed() {
    let mut c = ProcessCollector::new();
    let list = vec![
        ProcStat { pid: 1, stat: Ok(stat_line(1, "init", 0, 10, 10, 1)) },
        ProcStat { pid: 20, stat: Err(missing()) },
        ProcStat { pid: 30, stat: Ok(b"30 (short) S 1".to_vec()) },
        ProcStat { pid: 40, stat: Ok(stat_line(40, "a (b) c", 1, 0, 0, 3)) },
        ProcStat { pid: 50, stat: Ok(stat_line(50, "kid", 40, 1, 2, 4)) },
        ProcStat { pid: 60, stat: Ok(stat_line(60, "kid", 40, 1, 2, 4)) },
    ];
    let all = c.find_all(Ok(&list), SECOND).unwrap();
    let pids: Vec<u32> = all.iter().map(|p| p.pid).collect();
    assert_eq!(pids, [1, 40, 50, 60]);
    assert_eq!(all[0].children, [40]);
    assert_eq!(all[1].children, [50, 60]);
    assert!(all[2].children.is_empty());
    assert_eq!(all[1].name, "a (b) c");
    assert_eq!((all[1].ppid, all[1].threads, all[1].state.as_str()), (1, 3, "S"));
    assert_eq!(all[1].mem_bytes, 250 * 4096);
    assert_eq!(all[0].cpu_pct, Quantity::Whole(0));
    let list = vec![
        ProcStat { pid: 1, stat: Ok(stat_line(1, "init", 0, 60, 60, 1)) },
        ProcStat { pid: 70, stat: Ok(stat_line(70, "new", 1, 60, 60, 1)) },
    ];
    let all = c.find_all(Ok(&list), 3 * SECOND).unwrap();
    assert_eq!(value(&all[0].cpu_pct), 50.0);
    assert_eq!(all[1].cpu_pct, Quantity::Whole(0));
    assert!(matches!(c.find_all(Err(missing()), 0), Err(CollectorError::Io(_))));
    let all = c.find_all(Ok(&list), 3 * SECOND + 1_000_000).unwrap();
    assert_eq!(all[0].cpu_pct, Quantity::Whole(0));
}

#[test]
fn a_process_is_read_with_its_details() {
    let c = ProcessCollector::new();
    let line = stat_line(9, "x", 1, 4, 5, 6);
    let (info, ticks) = c.read_process_fast(9, Ok(&line), 0).unwrap();
    assert_eq!((info.open_fds, info.cgroup.path.as_str()), (0, ""));
    assert_eq!(ticks, ProcTicks { utime: 4, stime: 5 });
    let group = CgroupInfo::bare("/a".to_string());
    let (info, _) = c.read_process(9, Ok(&line), 0, 12, group).unwrap();
    assert_eq!((info.open_fds, info.cgroup.path.as_str()), (12, "/a"));
    let group = CgroupInfo::default();
    match c.read_process(9, Ok(b"9 (x) S 1"), 0, 12, group) {
        Err(CollectorError::Parse(m)) => assert_eq!(m, "stat too short"),
        other => panic!("{:?}", other),
    }
}

#[test]
fn process_names_stand_in_parentheses() {
    let (name, rest) = parse_comm(b"12 (a) b) S 1").unwrap();
    assert_eq!((name.as_str(), rest), ("a) b", &b"S 1"[..]));
    let (name, rest) = parse_comm(b"12 (x)").unwrap();
    assert_eq!((name.as_str(), rest), ("x", &b""[..]));
    let (name, _) = parse_comm(b"12 (\xc3\x28) S").unwrap();
    assert_eq!(name, "\u{fffd}(");
    match parse_comm(b"12 x) S") {
        Err(CollectorError::Parse(m)) => assert_eq!(m, "no ("),
        other => panic!("{:?}", other),
    }
    match parse_comm(b"12 (x S") {
        Err(CollectorError::Parse(m)) => assert_eq!(m, "no )"),
        other => panic!("{:?}", other),
    }
    assert!(comm_is_ordered(b"12 (x) S"));
    assert!(comm_is_ordered(b"12 x"));
    assert!(!comm_is_ordered(b"12 )x( S"));
}

#[test]
fn the_busiest_processes_come_first() {
    let mut c = ProcessCollector::new();
    let list: Vec<ProcStat> = (1..=60)
        .map(|pid| ProcStat { pid, stat: Ok(stat_line(pid, "p", 0, 0, 0, 1)) })
        .collect();
    c.find_all(Ok(&list), SECOND).unwrap();
    let list: Vec<ProcStat> = (1..=60)
        .map(|pid| {
            let ticks = (pid % 7) as u64;
            ProcStat { pid, stat: Ok(stat_line(pid, "p", 0, ticks, ticks, 1)) }
        })
        .collect();
    let all = c.find_all(Ok(&list), 2 * SECOND).unwrap();
    let shares = [2.0, 4.0, 6.0, 8.0, 10.0, 12.0, 0.0, 2.0].map(f64::to_bits);
    assert_eq!(rank_keys(&all)[..8], shares);
    let mut expected: Vec<u32> = (1..=60).collect();
    expected.sort_by(|a, b| (b % 7).cmp(&(a % 7)));
    let pids = |m: &ProcessMetrics| -> Vec<u32> { m.processes.iter().map(|p| p.pid).collect() };
    assert_eq!(pids(&busiest(&all, None)), expected[..50]);
    assert_eq!(pids(&busiest(&all, Some(6))), expected[..50]);
    assert_eq!(pids(&busiest(&all, Some(56))), expected[..50]);
    let last = expected[50..].iter().copied().find(|p| p % 7 == expected[49] % 7).unwrap();
    let kept = pids(&busiest(&all, Some(last)));
    assert_eq!(kept[..49], expected[..49]);
    assert_eq!(kept[49], last);
}

#[test]
fn later_surveys_cut_off_as_they_rank() {
    let mut c = ProcessCollector::new();
    let list: Vec<ProcStat> = (1..=60)
        .map(|pid| ProcStat { pid, stat: Ok(stat_line(pid, "p", 0, 0, 0, 1)) })
        .collect();
    let pids = |m: ProcessMetrics| -> Vec<u32> { m.processes.iter().map(|p| p.pid).collect() };
    let mut expected: Vec<u32> = (1..=50).collect();
    expected[49] = 60;
    assert_eq!(pids(c.collect(Ok(&list), SECOND, 60).unwrap()), expected);
    expected[49] = 50;
    assert_eq!(pids(c.collect(Ok(&list), 2 * SECOND, 60).unwrap()), expected);
    assert!(matches!(c.collect(Err(missing()), 0, 60), Err(CollectorError::Io(_))));
}

#[test]
fn equal_doubles_tie() {
    let mut c = ProcessCollector::new();
    let list = |ticks: [u64; 3]| -> Vec<ProcStat> {
        (1..=3)
            .zip(ticks)
            .map(|(pid, t)| ProcStat { pid, stat: Ok(stat_line(pid, "p", 0, t, 0, 1)) })
            .collect()
    };
    c.find_all(Ok(&list([10, 10, 10])), SECOND).unwrap();
    let all = c.find_all(Ok(&list([9, 9, 8])), 2 * SECOND).unwrap();
    let keys = rank_keys(&all);
    assert_eq!((keys[0], keys[1]), (keys[2], keys[2]));
    let order: Vec<u32> = busiest(&all, None).processes.iter().map(|p| p.pid).collect();
    assert_eq!(order, [1, 2, 3]);
}

#[test]
fn details_are_filled_in() {
    let mut c = ProcessCollector::new();
    let list = vec![
        ProcStat { pid: 1, stat: Ok(stat_line(1, "a", 0, 0, 0, 1)) },
        ProcStat { pid: 2, stat: Ok(stat_line(2, "b", 1, 0, 0, 1)) },
    ];
    c.find_all(Ok(&list), SECOND).unwrap();
    let list = vec![
        ProcStat { pid: 1, stat: Ok(stat_line(1, "a", 0, 0, 0, 1)) },
        ProcStat { pid: 2, stat: Ok(stat_line(2, "b", 1, 9, 0, 1)) },
    ];
    let all = c.find_all(Ok(&list), 2 * SECOND).unwrap();
    let details = vec![
        ProcessDetails { open_fds: 5, cgroup: CgroupInfo::bare("/x".to_string()) },
        ProcessDetails { open_fds: 6, cgroup: CgroupInfo::default() },
    ];
    let m = add_details(busiest(&all, None), &details);
    assert_eq!((m.processes[0].pid, m.processes[0].open_fds), (2, 5));
    assert_eq!(m.processes[0].cgroup.path, "/x");
    assert_eq!((m.processes[1].pid, m.processes[1].open_fds), (1, 6));
    assert_eq!(m.processes[1].children, [2]);
}

#[test]
fn process_numbers_come_from_directory_records() {
    let mut chunk = Vec::new();
    for name in ["1", "self", "4242", "0", "12ab", "4294967297"] {
        let len = (19 + name.len() + 1 + 7) / 8 * 8;
        let start = chunk.len();
        chunk.resize(start + 16, 0);
        chunk.extend_from_slice(&(len as u16).to_le_bytes());
        chunk.push(4);
        chunk.extend_from_slice(name.as_bytes());
        chunk.resize(start + len, 0);
    }
    let mut pids = vec![7];
    push_pids(&mut pids, &chunk);
    assert_eq!(pids, [7, 1, 4242, 12, 1]);
}

#[test]
fn process_paths() {
    assert_eq!(format_proc_path(0, "stat"), "/proc/0/stat\0");
    assert_eq!(format_proc_path(4294967295, "fd"), "/proc/4294967295/fd\0");
    assert_eq!(cgroup_file("/user.slice", "cpu.max"), "/sys/fs/cgroup/user.slice/cpu.max\0");
}

fn files(cpu: Option<&[u8]>, max: Option<&[u8]>, cur: Option<&[u8]>, io: Option<&[u8]>) -> CgroupFiles {
    CgroupFiles {
        cpu_max: cpu.map(|b| b.to_vec()),
        memory_max: max.map(|b| b.to_vec()),
        memory_current: cur.map(|b| b.to_vec()),
        io_weight: io.map(|b| b.to_vec()),
    }
}

#[test]
fn control_groups_are_read() {
    let f = files(
        Some(b"150000 100000\n"),
        Some(b"1073741824\n"),
        Some(b"4096\n"),
        Some(b"default 100\n"),
    );
    let g = read_cgroup(Some(b"1:cpu:/old\n0::/user.slice/a \n0::/b\n"), &f);
    assert_eq!(g.path, "/user.slice/a");
    assert_eq!(g.cpu_limit_cores, Some(Quantity::Quotient { num: 150000, den: 100000 }));
    assert_eq!(g.memory_limit_bytes, Some(1073741824));
    assert_eq!(g.memory_usage_bytes, Some(4096));
    assert_eq!(g.io_weight, Some(100));
    let f = files(Some(b"max 100000\n"), Some(b"max\n"), None, Some(b"250"));
    let g = read_cgroup(Some(b"0::/a\n"), &f);
    assert_eq!((g.cpu_limit_cores, g.memory_limit_bytes), (None, None));
    assert_eq!((g.memory_usage_bytes, g.io_weight), (None, Some(250)));
    let f = files(Some(b"100 0\n"), None, None, None);
    assert_eq!(read_cgroup(Some(b"0::/a\n"), &f).cpu_limit_cores, None);
    let f = files(Some(b"100\n"), None, None, None);
    assert_eq!(read_cgroup(Some(b"0::/a\n"), &f).cpu_limit_cores, None);
}

#[test]
fn the_root_group_has_no_files() {
    let f = files(Some(b"1 1\n"), Some(b"1\n"), Some(b"1\n"), Some(b"1\n"));
    for data in [&b"0::/\n"[..], &b"1:cpu:/x\n"[..], &b"0::\n"[..]] {
        let g = read_cgroup(Some(data), &f);
        assert_eq!(g.path, if data == b"0::/\n" { "/" } else { "" });
        assert!(g.cpu_limit_cores.is_none() && g.io_weight.is_none());
    }
    assert_eq!(read_cgroup(None, &f).path, "");
    assert!(!cgroup_has_files("/") && !cgroup_has_files("") && cgroup_has_files("/a"));
    assert_eq!(cgroup_path(b"0::/x\xff\n"), "/x\u{fffd}");
}

fn zone(temp: Option<&[u8]>, kind: Option<&[u8]>) -> ZoneReading {
    ZoneReading { temp: temp.map(|b| b.to_vec()), zone_type: kind.map(|b| b.to_vec()) }
}

#[test]
fn test_thermal_collector_no_panic() {
    let thermal = ThermalCollector::new();
    let info = thermal.collect(&Vec::new()).unwrap();
    assert_eq!((info.zones.len(), info.max_temp_millidegrees), (0, 0));
}

#[test]
fn temperatures_are_read_up_to_the_first_gap() {
    let thermal = ThermalCollector::new();
    let readings = vec![
        zone(Some(b"45000\n"), Some(b"x86_pkg_temp\n")),
        zone(Some(b"61500\n"), None),
        zone(Some(b"-5000\n"), Some(b" acpi\xff ")),
        zone(None, Some(b"gone")),
        zone(Some(b"99000\n"), None),
    ];
    let info = thermal.collect(&readings).unwrap();
    assert_eq!(info.zones.len(), 3);
    assert_eq!(info.max_temp_millidegrees, 61500);
    assert_eq!(info.zones[0].name, "thermal_zone0");
    assert_eq!(info.zones[0].zone_type, "x86_pkg_temp");
    assert_eq!(info.zones[1].zone_type, "zone1");
    assert_eq!(info.zones[2].temp_millidegrees, 0);
    assert_eq!(info.zones[2].zone_type, "acpi\u{fffd}");
    let many: Vec<ZoneReading> = (0..20).map(|_| zone(Some(b"1\n"), None)).collect();
    assert_eq!(thermal.collect(&many).unwrap().zones.len(), 16);
    assert_eq!(temp_path(3), "/sys/class/thermal/thermal_zone3/temp\0");
    assert_eq!(type_path(12), "/sys/class/thermal/thermal_zone12/type\0");
}
