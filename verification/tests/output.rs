//! Snapshots in all formats.
use syspulse::metrics::{
    CgroupInfo, CoreMetrics, CpuMetrics, DiskDevice, DiskMetrics, HistogramData, LatencySum,
    MemoryMetrics, MetricPoint, MetricValue, NetworkInterface, NetworkMetrics, ProcessInfo,
    ProcessMetrics, Quantile, Quantity, SystemSnapshot, ThermalInfo, ThermalZone, Timestamp,
};
use syspulse::output::influx::InfluxBackend;
use syspulse::output::json::JsonBackend;
use syspulse::output::remote::{json_escape, GrpcBackend, HttpBackend};
use syspulse::output::table::{
    CoreFigures, DiskFigures, InterfaceFigures, TableBackend, TableFigures,
};
use syspulse::output::{
    print_reading, print_sum, BackendType, Delivery, Evaluation, Number, OutputError, OutputRouter, QuantileNumber,
};

fn value(q: &Quantity) -> f64 {
    match *q {
        Quantity::Whole(n) => n as f64,
        Quantity::Percent { part, whole } => (part as f64 / whole as f64) * 100.0,
        Quantity::Quotient { num, den } => num as f64 / den as f64,
        Quantity::PerSecond { amount, unit, elapsed_ns } => {
            (amount as f64 * unit as f64) / (elapsed_ns as f64 / 1e9)
        }
        Quantity::TickShare { ticks, ticks_per_sec, elapsed_ns } => {
            (ticks as f64 / ((elapsed_ns as f64 / 1e9) * ticks_per_sec as f64)) * 100.0
        }
    }
}

fn number(v: f64) -> Number {
    Number { bits: v.to_bits(), text: format!("{}", v) }
}

fn evaluate(point: &MetricPoint) -> Evaluation {
    match &point.value {
        MetricValue::Gauge(q) => Evaluation::Gauge(number(value(q))),
        MetricValue::Counter(_) => Evaluation::Counter,
        MetricValue::Histogram(h) => Evaluation::Histogram {
            sum: number(match &h.sum {
                LatencySum::Millis(n) => *n as f64,
                LatencySum::Buckets(b) => {
                    b.iter().enumerate().map(|(i, &n)| n as f64 * (1u64 << i) as f64).sum::<f64>()
                        / 1000.0
                }
            }),
            quantiles: h
                .quantiles
                .iter()
                .map(|q| QuantileNumber {
                    rank_bits: (q.percent as f64 / 100.0).to_bits(),
                    value: number(value(&q.value)),
                })
                .collect(),
        },
    }
}

fn evaluate_all(s: &SystemSnapshot) -> Vec<Evaluation> {
    s.to_metric_points().iter().map(evaluate).collect()
}

fn core_with(core_id: u32, part: u64) -> CoreMetrics {
    let p = |part| Quantity::Percent { part, whole: 200 };
    CoreMetrics {
        core_id,
        user_pct: p(part),
        system_pct: p(10),
        softirq_pct: p(0),
        hardirq_pct: p(0),
        idle_pct: p(190 - part),
        iowait_pct: p(0),
        steal_pct: p(0),
    }
}

fn snapshot() -> SystemSnapshot {
    let quantile = |percent, num| Quantile { percent, value: Quantity::Quotient { num, den: 4 } };
    SystemSnapshot {
        timestamp: Timestamp(1_700_000_000_123_456_789),
        hostname: "my host,1=\"x\"".to_string(),
        cpu: CpuMetrics { per_core: vec![core_with(0, 40), core_with(1, 60)], total: core_with(0, 50) },
        memory: MemoryMetrics {
            total_bytes: 16_777_216_000,
            used_bytes: 8_000_000_000,
            available_bytes: 1536,
            cached_bytes: 1023,
            buffers_bytes: 5,
            swap_total_bytes: 1 << 40,
            swap_used_bytes: 0,
            swap_in_rate: Quantity::PerSecond { amount: 1, unit: 4096, elapsed_ns: 2_000_000_000 },
            swap_out_rate: Quantity::Whole(0),
        },
        disk: DiskMetrics {
            devices: vec![
                DiskDevice {
                    name: "/dev/sda1".to_string(),
                    mount_point: "/a/rather/long/mount/point".to_string(),
                    fs_type: "ext4".to_string(),
                    total_bytes: 4096,
                    used_bytes: 2048,
                    available_bytes: 1024,
                    read_bytes_per_sec: Quantity::Whole(0),
                    write_bytes_per_sec: Quantity::Whole(0),
                    io_latency: HistogramData {
                        count: 30,
                        sum: LatencySum::Millis(150),
                        quantiles: vec![
                            quantile(50, 2),
                            quantile(90, 6),
                            quantile(95, 7),
                            quantile(99, 8),
                        ],
                    },
                },
                DiskDevice {
                    name: "tmpfs".to_string(),
                    mount_point: "/run".to_string(),
                    fs_type: "tmpfs".to_string(),
                    total_bytes: 0,
                    used_bytes: 0,
                    available_bytes: 0,
                    read_bytes_per_sec: Quantity::Whole(0),
                    write_bytes_per_sec: Quantity::Whole(0),
                    io_latency: HistogramData::none(),
                },
            ],
        },
        network: NetworkMetrics {
            interfaces: vec![NetworkInterface {
                name: "eth0".to_string(),
                rx_bytes_per_sec: Quantity::PerSecond {
                    amount: 2000,
                    unit: 1,
                    elapsed_ns: 1_000_000_000,
                },
                tx_bytes_per_sec: Quantity::Whole(0),
                rx_packets_per_sec: Quantity::Whole(0),
                tx_packets_per_sec: Quantity::Whole(0),
                rx_errors: 1,
                tx_errors: 2,
                rx_dropped: 3,
                tx_dropped: 4,
            }],
            tcp_connections: 17,
            tcp_retransmit_rate: Quantity::Percent { part: 1, whole: 200 },
            packet_loss_rate: Quantity::Whole(0),
        },
        processes: ProcessMetrics {
            processes: vec![ProcessInfo {
                pid: 42,
                ppid: 1,
                name: "tab\there".to_string(),
                state: "S".to_string(),
                cpu_pct: Quantity::TickShare {
                    ticks: 50,
                    ticks_per_sec: 100,
                    elapsed_ns: 2_000_000_000,
                },
                mem_bytes: 10_240,
                open_fds: 7,
                threads: 3,
                cgroup: CgroupInfo {
                    path: "/user.slice".to_string(),
                    cpu_limit_cores: Some(Quantity::Quotient { num: 150_000, den: 100_000 }),
                    memory_limit_bytes: None,
                    memory_usage_bytes: Some(4096),
                    io_weight: Some(100),
                },
                children: vec![43, 44],
            }],
        },
        thermal: ThermalInfo {
            zones: vec![ThermalZone {
                name: "thermal_zone0".to_string(),
                temp_millidegrees: 45_500,
                zone_type: "cpu".to_string(),
            }],
            max_temp_millidegrees: 45_500,
        },
    }
}

fn find<'a>(points: &'a [MetricPoint], name: &str) -> Vec<&'a MetricPoint> {
    points.iter().filter(|p| p.name == name).collect()
}

#[test]
fn test_influx_line_protocol_format() {
    let points = snapshot().to_metric_points();
    assert!(!points.is_empty());
    for point in &points {
        assert!(!point.name.is_empty());
        assert!(!point.name.contains(' '));
    }
}

#[test]
fn test_metric_points_have_timestamps() {
    let s = snapshot();
    for point in &s.to_metric_points() {
        assert!(point.timestamp.as_nanos() > 0);
        assert_eq!(point.timestamp, s.timestamp);
    }
}

#[test]
fn points_cover_the_snapshot() {
    let points = snapshot().to_metric_points();
    assert_eq!(points.len(), 3 * 7 + 9 + 6 + 5 + 8 + 3 + 2 + 4 + 3 + 1);
    assert_eq!(find(&points, "cpu.user").len(), 3);
    assert_eq!(points[0].tags.name(0), "core");
    assert_eq!(points[0].tags.value(0), "0");
    assert_eq!(points[14].tags.value(0), "total");
    let latency = find(&points, "disk.io_latency");
    assert_eq!(latency.len(), 1);
    assert!(matches!(&latency[0].value, MetricValue::Histogram(h) if h.count == 30));
    assert_eq!(latency[0].unit, "ms");
    let children = find(&points, "process.children_count")[0];
    let tags: Vec<(&str, &str)> =
        (0..children.tags.len()).map(|i| (children.tags.name(i), children.tags.value(i))).collect();
    assert_eq!(
        tags,
        [
            ("cgroup", "/user.slice"),
            ("children", "43,44"),
            ("host", "my host,1=\"x\""),
            ("name", "tab\there"),
            ("pid", "42"),
            ("ppid", "1"),
            ("state", "S"),
        ]
    );
    assert!(find(&points, "process.cgroup.memory_limit").is_empty());
    match &find(&points, "process.cgroup.cpu_limit")[0].value {
        MetricValue::Gauge(q) => assert_eq!(value(q), 1.5),
        other => panic!("{:?}", other),
    }
    match &find(&points, "thermal.max_temp")[0].value {
        MetricValue::Gauge(q) => assert_eq!(value(q), 45.5),
        other => panic!("{:?}", other),
    }
}

#[test]
fn timestamps_come_from_the_clock() {
    assert_eq!(Timestamp::now(Some(5)).as_nanos(), 5);
    assert_eq!(Timestamp::now(Some((1 << 64) + 9)).as_nanos(), 9);
    assert_eq!(Timestamp::now(None).as_nanos(), 0);
}

#[test]
fn influx_lines() {
    let s = snapshot();
    let text = InfluxBackend::new().format_snapshot(&s, &evaluate_all(&s));
    let lines: Vec<&str> = text.lines().collect();
    assert_eq!(lines.len(), s.to_metric_points().len());
    assert_eq!(
        lines[0],
        "cpu.user,core=0,host=my\\ host\\,1\\=\"x\" value=20 1700000000123456789"
    );
    assert!(text.contains(
        "disk.io_latency,device=/dev/sda1,fstype=ext4,host=my\\ host\\,1\\=\"x\",\
mount=/a/rather/long/mount/point count=30i,sum=150,p50=0.5,p90=1.5,p95=1.75,p99=2 \
1700000000123456789\n"
    ));
    assert!(text.contains("net.tcp_retransmit_rate,host=my\\ host\\,1\\=\"x\" value=0.5 "));
    assert!(text.ends_with('\n'));
}

#[test]
fn influx_escapes_separators() {
    assert_eq!(InfluxBackend::escape_tag_value("a b,c=d\\e"), "a\\ b\\,c\\=d\\e");
    assert_eq!(
        InfluxBackend::escape_tag_value("\\,"),
        "\\,".replace(' ', "\\ ").replace(',', "\\,").replace('=', "\\=")
    );
}

#[test]
fn test_json_output_valid() {
    let s = snapshot();
    let text = JsonBackend::new().format_snapshot(&s, &evaluate_all(&s));
    assert!(text.starts_with(
        "{\"metrics\":[{\"name\":\"cpu.user\",\"tags\":{\"core\":\"0\",\
\"host\":\"my host,1=\\\"x\\\"\"},\"value\":20,\"timestamp\":1700000000123456789,\
\"unit\":\"percent\"},{\"name\":\"cpu.system\""
    ));
    assert!(text.contains(
        "\"value\":{\"count\":30,\"sum\":150,\"p50\":0.5,\"p90\":1.5,\"p95\":1.75,\"p99\":2},"
    ));
    assert!(text.contains("\"name\":\"tab\\there\""));
    assert!(text.ends_with(
        "],\"hostname\":\"my host,1=\\\"x\\\"\",\"timestamp\":1700000000123456789}\n"
    ));
    assert_eq!(text.matches('{').count(), text.matches('}').count());
}

#[test]
fn json_escapes() {
    let s = "a\"b\\c\nd\re\tf\u{1}g\u{1f}h\u{7f}ü";
    assert_eq!(
        JsonBackend::escape_json(s),
        "a\\\"b\\\\c\\nd\\re\\tf\\u0001g\\u001fh\u{7f}ü"
    );
    assert_eq!(json_escape(s), "a\\\"b\\\\c\\nd\\u000de\\u0009f\\u0001g\\u001fh\u{7f}ü");
    for code in 0..32u32 {
        let c = char::from_u32(code).unwrap();
        if !matches!(c, '\n' | '\r' | '\t') {
            assert_eq!(JsonBackend::escape_json(&c.to_string()), format!("\\u{:04x}", code));
        }
    }
}

#[test]
fn otlp_documents() {
    let s = snapshot();
    let text = HttpBackend::new(None).format_otlp_json(&s, &evaluate_all(&s));
    assert!(text.starts_with(
        "{\"resourceMetrics\":[{\"resource\":{\"attributes\":[{\"key\":\"host.name\",\"value\":\
{\"stringValue\":\"my host,1=\\\"x\\\"\"}}]},\"scopeMetrics\":[{\"scope\":{\"name\":\
\"syspulse\"},\"metrics\":[{\"name\":\"cpu.user\",\"unit\":\"percent\",\"gauge\":\
{\"dataPoints\":[{\"asDouble\":20,\"timeUnixNano\":\"1700000000123456789\",\"attributes\":\
[{\"key\":\"core\",\"value\":{\"stringValue\":\"0\"}},"
    ));
    assert!(text.contains(
        "\"histogram\":{\"dataPoints\":[{\"count\":\"30\",\"sum\":150,\"timeUnixNano\":"
    ));
    assert!(text.contains("\"stringValue\":\"tab\\u0009here\""));
    assert!(text.ends_with("]}]}}]}]}]}\n"));
}

#[test]
fn requests_over_http() {
    let default = HttpBackend::new(None).send_http(b"12345");
    assert_eq!(default.host_port, "127.0.0.1:4318");
    assert_eq!(
        default.head,
        "POST /v1/metrics HTTP/1.1\r\nHost: 127.0.0.1:4318\r\nContent-Type: application/json\r\n\
Content-Length: 5\r\nConnection: close\r\n\r\n"
    );
    let other = HttpBackend::new(Some("h:1/a/b".to_string())).send_http(b"");
    assert_eq!(other.host_port, "h:1");
    assert!(other.head.starts_with("POST /a/b HTTP/1.1\r\nHost: h:1\r\n"));
    let bare = HttpBackend::new(Some("h:1".to_string()));
    assert!(bare.send_http(b"").head.starts_with("POST /v1/metrics HTTP/1.1\r\nHost: h:1\r\n"));
    assert_eq!(bare.connect_error("refused").message(), "Format: http connect h:1: refused");
}

struct Reader<'a>(&'a [u8]);

impl<'a> Reader<'a> {
    fn take(&mut self, n: usize) -> &'a [u8] {
        let (a, b) = self.0.split_at(n);
        self.0 = b;
        a
    }
    fn number(&mut self, n: usize) -> u64 {
        self.take(n).iter().fold(0, |v, &b| v * 256 + b as u64)
    }
    fn text(&mut self) -> String {
        let n = self.number(2) as usize;
        String::from_utf8(self.take(n).to_vec()).unwrap()
    }
}

#[test]
fn binary_messages() {
    let s = snapshot();
    let points = s.to_metric_points();
    let message = GrpcBackend::new(None).encode_binary(&s, &evaluate_all(&s));
    let mut r = Reader(&message);
    assert_eq!(r.number(1), 1);
    assert_eq!(r.number(4) as usize, points.len());
    for p in &points {
        assert_eq!(r.text(), p.name);
        assert_eq!(r.number(2) as usize, p.tags.len());
        for i in 0..p.tags.len() {
            assert_eq!(r.text(), p.tags.name(i));
            assert_eq!(r.text(), p.tags.value(i));
        }
        match (&p.value, r.number(1)) {
            (MetricValue::Gauge(q), 1) => assert_eq!(f64::from_bits(r.number(8)), value(q)),
            (MetricValue::Counter(n), 2) => assert_eq!(r.number(8), *n),
            (MetricValue::Histogram(h), 3) => {
                assert_eq!(r.number(8), h.count);
                assert_eq!(f64::from_bits(r.number(8)), 150.0);
                assert_eq!(r.number(2), 4);
                for (q, rank) in h.quantiles.iter().zip([0.50, 0.90, 0.95, 0.99]) {
                    assert_eq!(f64::from_bits(r.number(8)), rank);
                    assert_eq!(f64::from_bits(r.number(8)), value(&q.value));
                }
            }
            other => panic!("{:?}", other),
        }
        assert_eq!(r.number(8), p.timestamp.as_nanos());
    }
    assert!(r.0.is_empty());
}

#[test]
fn frames() {
    let grpc = GrpcBackend::new(None);
    assert_eq!(grpc.endpoint(), "127.0.0.1:4317");
    assert_eq!(grpc.send_grpc(&[9, 8, 7]), [0, 0, 0, 0, 3, 9, 8, 7]);
    let other = GrpcBackend::new(Some("g:2".to_string()));
    assert_eq!(other.connect_error("no").message(), "Format: grpc connect g:2: no");
}

fn human(bytes: u64) -> String {
    let mut val = bytes as f64;
    for unit in ["B", "KB", "MB", "GB", "TB"] {
        if val < 1024.0 {
            return format!("{:.1}{}", val, unit);
        }
        val /= 1024.0;
    }
    format!("{:.1}PB", val)
}

#[test]
fn bytes_for_people() {
    assert_eq!(TableBackend::human_bytes(0), "0.0B");
    assert_eq!(TableBackend::human_bytes(1023), "1023.0B");
    assert_eq!(TableBackend::human_bytes(1536), "1.5KB");
    assert_eq!(TableBackend::human_bytes(u64::MAX), "16384.0PB");
    let mut n = 1u64;
    for i in 0..50_000u64 {
        n = n.wrapping_mul(6364136223846793005).wrapping_add(1442695040888963407);
        let bytes = n >> (i % 64);
        assert_eq!(TableBackend::human_bytes(bytes), human(bytes), "{}", bytes);
    }
    for unit in [1u64 << 10, 1 << 20, 1 << 30, 1 << 40, 1 << 50] {
        for twentieths in 0..400 {
            for off in 0..3 {
                let bytes = (unit / 20 * twentieths + unit / 64 * twentieths + off).wrapping_sub(1);
                assert_eq!(TableBackend::human_bytes(bytes), human(bytes), "{}", bytes);
            }
        }
    }
}

#[test]
fn long_texts_are_cut() {
    assert_eq!(TableBackend::truncate("short", 20), "short");
    assert_eq!(TableBackend::truncate("exactly ten", 11), "exactly ten");
    assert_eq!(TableBackend::truncate("exactly ten!", 11), "exactly te…");
    assert_eq!(TableBackend::truncate("ääää", 5), "ää…");
    assert!(!TableBackend::can_truncate("ääää", 4));
    assert!(TableBackend::can_truncate("ääää", 8));
}

fn figures(s: &SystemSnapshot) -> TableFigures {
    let one = |q: &Quantity| format!("{:.1}", value(q));
    TableFigures {
        max_temp: format!("{:.1}", s.thermal.max_temp_millidegrees as f64 / 1000.0),
        user: one(&s.cpu.total.user_pct),
        system: one(&s.cpu.total.system_pct),
        softirq: one(&s.cpu.total.softirq_pct),
        hardirq: one(&s.cpu.total.hardirq_pct),
        idle: one(&s.cpu.total.idle_pct),
        cores: s
            .cpu
            .per_core
            .iter()
            .map(|c| CoreFigures {
                bar: ((100.0 - value(&c.idle_pct)) / 5.0) as usize,
                busy: format!("{:.1}", 100.0 - value(&c.idle_pct)),
            })
            .collect(),
        swap_in: value(&s.memory.swap_in_rate) as u64,
        swap_out: value(&s.memory.swap_out_rate) as u64,
        disks: s
            .disk
            .devices
            .iter()
            .map(|d| DiskFigures {
                read: value(&d.read_bytes_per_sec) as u64,
                write: value(&d.write_bytes_per_sec) as u64,
                latencies: d.io_latency.quantiles.iter().map(|q| one(&q.value)).collect(),
            })
            .collect(),
        retransmit: format!("{:.3}", value(&s.network.tcp_retransmit_rate)),
        loss: format!("{:.3}", value(&s.network.packet_loss_rate)),
        interfaces: s
            .network
            .interfaces
            .iter()
            .map(|n| InterfaceFigures {
                rx: value(&n.rx_bytes_per_sec) as u64,
                tx: value(&n.tx_bytes_per_sec) as u64,
            })
            .collect(),
        processes: s.processes.processes.iter().map(|p| one(&p.cpu_pct)).collect(),
    }
}

#[test]
fn the_dashboard() {
    let s = snapshot();
    assert!(TableBackend::can_render(&s));
    let text = TableBackend::new().render(&s, &figures(&s));
    let expected = format!(
        "\x1b[2J\x1b[H\x1b[1;36m=== SysPulse Monitor === my host,1=\"x\"\x1b[0m\n\
Thermal: 45.5°C max\n\n\
\x1b[1;33m── CPU ──\x1b[0m\n{}{}{}\n\
\x1b[1;33m── Memory ──\x1b[0m\n{}{}\n\
\x1b[1;33m── Disk ──\x1b[0m\n{}{}{}{}\n\
\x1b[1;33m── Network ──\x1b[0m\n{}{}\n\
\x1b[1;33m── Top Processes ──\x1b[0m\n{}{}",
        "  Total: usr=25.0% sys=5.0% sirq=0.0% hirq=0.0% idle=70.0%\n",
        format!("  core{:>2}: [{:<20}] {:.1}%\n", 0, "█".repeat(5), 25.0),
        format!("  core{:>2}: [{:<20}] {:.1}%\n", 1, "█".repeat(7), 35.0),
        "  Total: 15.6GB | Used: 7.5GB | Avail: 1.5KB | Cached: 1023.0B\n",
        "  Swap: 0.0B/1.0TB | In: 2.0KB/s Out: 0.0B/s\n",
        format!(
            "  {:20} {:8} {:>10} {:>10} {:>10} {:>10}\n",
            "DEVICE", "FS", "TOTAL", "USED", "RD/s", "WR/s"
        ),
        format!(
            "  {:20} {:8} {:>10} {:>10} {:>10} {:>10}\n",
            "/a/rather/long/moun…", "ext4", "4.0KB", "2.0KB", "0.0B", "0.0B"
        ),
        "    latency: p50=0.5ms p90=1.5ms p95=1.8ms p99=2.0ms\n",
        format!(
            "  {:20} {:8} {:>10} {:>10} {:>10} {:>10}\n",
            "/run", "tmpfs", "0.0B", "0.0B", "0.0B", "0.0B"
        ),
        "  TCP conns: 17 | Retransmit: 0.500% | Loss: 0.000%\n",
        "  eth0: rx=2.0KB/s tx=0.0B/s drop_rx=3 drop_tx=4\n",
        format!(
            "  {:>6} {:>6} {:16} {:>6} {:>10} {:>6} {:20}\n",
            "PID", "PPID", "NAME", "CPU%", "MEM", "FDs", "CGROUP"
        ),
        format!(
            "  {:>6} {:>6} {:16} {:>5.1}% {:>10} {:>6} {:20}\n",
            42, 1, "tab\there", 25.0, "10.0KB", 7, "/user.slice"
        ),
    );
    assert_eq!(text, expected);
}

#[test]
fn ten_processes_are_shown() {
    let mut s = snapshot();
    for pid in 100..120 {
        let mut p = s.processes.processes[0].clone();
        p.pid = pid;
        s.processes.processes.push(p);
    }
    s.cpu.per_core[0].idle_pct = Quantity::Whole(0);
    let mut f = figures(&s);
    f.cores[0].bar = 1000;
    let text = TableBackend::new().render(&s, &f);
    assert!(text.contains("   108 "));
    assert!(!text.contains("   109 "));
    assert!(text.contains(&format!("[{}]", "█".repeat(20))));
    s.processes.processes[20].name = "éééééééééééé".to_string();
    assert!(TableBackend::can_render(&s));
    s.processes.processes[0].name = "éééééééééééé".to_string();
    assert!(!TableBackend::can_render(&s));
}

#[test]
fn every_format_is_delivered() {
    let s = snapshot();
    let evaluations = evaluate_all(&s);
    let f = figures(&s);
    let mut router = OutputRouter::new(Some("h:1/p".to_string()), Some("g:2".to_string()));
    match router.write(&s, &evaluations, &f).unwrap() {
        Delivery::Print(text) => {
            assert_eq!(text, InfluxBackend::new().format_snapshot(&s, &evaluations));
        }
        other => panic!("{:?}", other),
    }
    router.switch(BackendType::Json);
    match router.write(&s, &evaluations, &f).unwrap() {
        Delivery::Print(text) => {
            assert_eq!(text, JsonBackend::new().format_snapshot(&s, &evaluations));
        }
        other => panic!("{:?}", other),
    }
    router.switch(BackendType::Table);
    match router.write(&s, &evaluations, &f).unwrap() {
        Delivery::Print(text) => assert_eq!(text, TableBackend::new().render(&s, &f)),
        other => panic!("{:?}", other),
    }
    router.switch(BackendType::Http);
    match router.write(&s, &evaluations, &f).unwrap() {
        Delivery::Post { request, body } => {
            assert_eq!(request.host_port, "h:1");
            assert!(request.head.contains(&format!("Content-Length: {}\r\n", body.len())));
            assert_eq!(body, HttpBackend::new(None).format_otlp_json(&s, &evaluations));
        }
        other => panic!("{:?}", other),
    }
    router.switch(BackendType::Grpc);
    match router.write(&s, &evaluations, &f).unwrap() {
        Delivery::Frame { endpoint, frame } => {
            assert_eq!(endpoint, "g:2");
            assert_eq!(&frame[5..], GrpcBackend::new(None).encode_binary(&s, &evaluations));
        }
        other => panic!("{:?}", other),
    }
    match router.deliver(5, &s, &evaluations, &f) {
        Err(OutputError::Format(m)) => assert_eq!(m, "invalid backend index"),
        other => panic!("{:?}", other),
    }
    assert_eq!(router.http().connect_error("x").message(), "Format: http connect h:1: x");
    assert_eq!(router.grpc().endpoint(), "g:2");
}

#[test]
fn histograms_of_buckets_are_summed() {
    let mut s = snapshot();
    let mut buckets = vec![0u64; 64];
    buckets[10] = 4;
    s.disk.devices[0].io_latency.sum = LatencySum::Buckets(buckets);
    let text = InfluxBackend::new().format_snapshot(&s, &evaluate_all(&s));
    assert!(text.contains(" count=30i,sum=4.096,p50=0.5"));
}

#[test]
fn line_feeds_stay_at_the_ends() {
    let mut s = snapshot();
    let e = evaluate_all(&s);
    let lines = InfluxBackend::new().format_snapshot(&s, &e);
    assert_eq!(lines.matches('\n').count(), s.to_metric_points().len());
    assert!(lines.ends_with('\n'));

    s.hostname = "two\nlines".to_string();
    s.disk.devices[0].mount_point = "/a\nb".to_string();
    let e = evaluate_all(&s);
    let document = JsonBackend::new().format_snapshot(&s, &e);
    assert_eq!(document.matches('\n').count(), 1);
    assert!(document.ends_with("}\n"));
}

#[test]
fn whole_readings_are_printed_in_decimal() {
    let wrong = Number { bits: 0, text: "?".to_string() };
    assert_eq!(print_reading(&Quantity::Whole(0), &wrong), "0");
    assert_eq!(print_reading(&Quantity::Whole((1 << 53) - 1), &wrong), "9007199254740991");
    assert_eq!(print_reading(&Quantity::Whole(1 << 53), &number(9007199254740992.0)), "9007199254740992");
    assert_eq!(print_reading(&Quantity::Quotient { num: 1, den: 4 }, &number(0.25)), "0.25");
    assert_eq!(print_sum(&LatencySum::Millis(150), &wrong), "150");
    assert_eq!(print_sum(&LatencySum::Buckets(vec![3]), &number(0.003)), "0.003");
    for n in [0u64, 1, 10, 4096, 123_456_789, (1 << 53) - 1] {
        assert_eq!(print_reading(&Quantity::Whole(n), &wrong), format!("{}", n as f64));
    }
}
