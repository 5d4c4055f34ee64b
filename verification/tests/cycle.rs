//! A cycle of the engine.
use syspulse::collector::disk::MountSample;
use syspulse::collector::latency::TracerHandles;
use syspulse::collector::process::ProcStat;
use syspulse::collector::thermal::ZoneReading;
use syspulse::collector::IoError;
use syspulse::engine::{DiskInputs, Engine, FastInputs, Pause};
use syspulse::metrics::{ProcessMetrics, SystemSnapshot, Timestamp};
use syspulse::output::{BackendType, OutputRouter};

const MS: u128 = 1_000_000;
const SECOND: u64 = 1_000_000_000;

const STAT: &[u8] = b"cpu 1 2 3 4 5 6 7 8\ncpu0 1 2 3 4 5 6 7 8\n";
const NET: &[u8] = b"a\nb\neth0: 1 2 3 4 5 6 7 8 9 10 11 12 13 14 15 16\n";
const SNMP: &[u8] = b"Tcp: CurrEstab\nTcp: 3\n";
const MOUNTS: &[u8] = b"/dev/sda1 / ext4 rw\n";
const DISKS: &[u8] = b"8 1 sda1 1 2 3 4 5 6 7 8 9 10 11\n";

fn gone() -> IoError {
    IoError { code: Some(2), message: "gone".to_string() }
}

fn engine(interval_ms: u128, threshold: f64) -> Engine {
    let tracer = TracerHandles { histogram_fd: -1, start_map_fd: -1, attached: false };
    let name = Engine::host_name(Ok(" box \n"));
    Engine::new(interval_ms * MS, threshold.to_bits(), name, tracer, OutputRouter::new(None, None))
}

fn inputs(zones: &Vec<ZoneReading>) -> FastInputs<'_> {
    FastInputs {
        zones,
        stat: Ok(STAT),
        meminfo: Ok("MemTotal: 8 kB\nMemFree: 2 kB\n"),
        vmstat: Ok("pswpin 1\npswpout 2\n"),
        memory_ns: SECOND,
        net_dev: Ok(NET),
        snmp: Ok(SNMP),
        network_ns: SECOND,
    }
}

fn disks(samples: &Vec<MountSample>) -> Option<DiskInputs<'_>> {
    Some(DiskInputs { mounts: Ok(MOUNTS), diskstats: Ok(DISKS), samples, now_ns: SECOND })
}

fn one_sample() -> Vec<MountSample> {
    vec![MountSample { fs: None, buckets: None }]
}

fn listing() -> Vec<ProcStat> {
    let stat = b"5 (five) R 1 1 1 0 -1 4 5 0 0 0 7 8 0 0 20 0 2 0 100 1000 250 9\n".to_vec();
    vec![ProcStat { pid: 5, stat: Ok(stat) }]
}

fn collect_once(e: &mut Engine, now: u64) -> Result<SystemSnapshot, String> {
    let zones = vec![ZoneReading { temp: Some(b"91000\n".to_vec()), zone_type: None }];
    let readings = e.take_readings(inputs(&zones))?;
    let samples = one_sample();
    let (disk, due) = e.after_readings(disks(&samples), now)?;
    let found =
        if due { Some(e.survey_processes(Ok(&listing()), now, now, 1)?) } else { None };
    Ok(e.finish(Timestamp(now), readings, disk, found))
}

#[test]
fn test_engine_collect_once() {
    let mut e = engine(1000, 85.0);
    let result = collect_once(&mut e, 5 * SECOND);
    assert!(result.is_ok(), "engine should collect: {:?}", result.err());
    let s = result.unwrap();
    assert_eq!(s.hostname, "box");
    assert_eq!(s.timestamp.as_nanos(), 5 * SECOND);
    assert_eq!(s.cpu.per_core.len(), 1);
    assert_eq!(s.memory.total_bytes, 8192);
    assert_eq!(s.memory.used_bytes, 6144);
    assert_eq!(s.disk.devices.len(), 1);
    assert_eq!(s.network.tcp_connections, 3);
    assert_eq!(s.processes.processes[0].name, "five");
    assert_eq!(s.thermal.max_temp_millidegrees, 91_000);
}

#[test]
fn host_names_are_trimmed() {
    assert_eq!(Engine::host_name(Ok("a b\n")), "a b");
    assert_eq!(Engine::host_name(Err(gone())), "unknown");
}

#[test]
fn slow_parts_are_looked_at_less_often() {
    let mut e = engine(100, 85.0);
    assert!(!e.disk_due(499_999_999));
    assert!(e.disk_due(500_000_000));
    let s = collect_once(&mut e, SECOND).unwrap();
    assert_eq!(s.disk.devices.len(), 1);
    assert!(!e.disk_due(SECOND + 499_999_999));
    assert!(!e.processes_due(SECOND + 499_999_999));
    assert!(e.disk_due(SECOND + 500_000_000));
    let again = e.take_disks(None, SECOND + 1).unwrap();
    assert_eq!(again.devices.len(), 1);
    assert_eq!(e.take_processes(None).processes[0].pid, 5);
    let mut slow = engine(2000, 85.0);
    let _ = collect_once(&mut slow, 5 * SECOND).unwrap();
    assert!(!slow.disk_due(7 * SECOND - 1));
    assert!(slow.disk_due(7 * SECOND));
    assert!(!slow.disk_due(SECOND));
}

#[test]
fn failures_name_their_part() {
    let zones = Vec::new();
    let mut e = engine(1000, 85.0);
    let fails = |e: &mut Engine, i: FastInputs<'_>| e.take_readings(i).err().unwrap();
    let mut i = inputs(&zones);
    i.stat = Err(gone());
    i.meminfo = Err(gone());
    assert_eq!(fails(&mut e, i), "cpu: IO error: gone");
    let mut i = inputs(&zones);
    i.stat = Ok(b"nothing");
    assert_eq!(fails(&mut e, i), "cpu: Parse error: no cpu stats");
    let mut i = inputs(&zones);
    i.vmstat = Err(gone());
    assert_eq!(fails(&mut e, i), "memory: IO error: gone");
    let mut i = inputs(&zones);
    i.net_dev = Err(gone());
    assert_eq!(fails(&mut e, i), "network: IO error: gone");
    let samples = Vec::new();
    let broken =
        DiskInputs { mounts: Err(gone()), diskstats: Ok(DISKS), samples: &samples, now_ns: 0 };
    assert_eq!(e.take_disks(Some(broken), SECOND).err().unwrap(), "disk: IO error: gone");
    assert!(!e.disk_due(SECOND + 1));
    let lost = e.survey_processes(Err(gone()), 0, SECOND, 1).err().unwrap();
    assert_eq!(lost, "process: IO error: gone");
    assert!(!e.processes_due(SECOND + 1));
}

#[test]
fn the_pause_follows_the_temperature() {
    let mut e = engine(100, 85.0);
    assert_eq!(e.pause(None), Pause { interval_ns: 100 * MS, throttled: false });
    assert_eq!(e.pause(Some(80_000)), Pause { interval_ns: 100 * MS, throttled: false });
    assert_eq!(e.pause(Some(95_000)), Pause { interval_ns: 300 * MS, throttled: true });
    assert_eq!(e.pause(None), Pause { interval_ns: 300 * MS, throttled: false });
    assert_eq!(e.pause(Some(85_000)), Pause { interval_ns: 100 * MS, throttled: false });
    let mut fine = engine(100, 85.0005);
    assert_eq!(fine.pause(Some(85_000)), Pause { interval_ns: 100 * MS, throttled: false });
    assert_eq!(fine.pause(Some(85_001)), Pause { interval_ns: 100_010_000, throttled: true });
}

#[test]
fn the_disks_say_whether_the_processes_are_due() {
    let mut e = engine(100, 85.0);
    let samples = one_sample();
    let (disk, due) = e.after_readings(None, SECOND / 4).unwrap();
    assert_eq!((disk.devices.len(), due), (0, false));
    let (disk, due) = e.after_readings(disks(&samples), SECOND).unwrap();
    assert_eq!((disk.devices.len(), due), (1, true));
    let (disk, due) = e.after_readings(None, SECOND + 1).unwrap();
    assert_eq!((disk.devices.len(), due), (1, true));
    let empty = Vec::new();
    let broken =
        DiskInputs { mounts: Err(gone()), diskstats: Ok(DISKS), samples: &empty, now_ns: 0 };
    let lost = e.after_readings(Some(broken), 2 * SECOND).err().unwrap();
    assert_eq!(lost, "disk: IO error: gone");
    assert!(e.processes_due(2 * SECOND));
}

#[test]
fn a_cycle_without_a_survey_shows_the_last_one() {
    let mut e = engine(100, 85.0);
    let first = collect_once(&mut e, SECOND).unwrap();
    let second = collect_once(&mut e, SECOND + 1).unwrap();
    let pids = |s: &SystemSnapshot| -> Vec<u32> {
        s.processes.processes.iter().map(|p| p.pid).collect()
    };
    assert_eq!(pids(&first), [5]);
    assert_eq!(pids(&second), [5]);
    assert_eq!(second.timestamp.as_nanos(), SECOND + 1);
}

#[test]
fn the_engine_keeps_its_router_and_tracer() {
    let tracer = TracerHandles { histogram_fd: 7, start_map_fd: 8, attached: true };
    let mut router = OutputRouter::new(None, None);
    router.switch(BackendType::Table);
    let e = Engine::new(MS, 0, "h".to_string(), tracer, router);
    assert_eq!(e.output_router().active_type(), BackendType::Table);
    assert_eq!(e.bucket_source(), Some(7));
    assert_eq!(engine(1, 1.0).bucket_source(), None);
    let mut fresh = engine(1, 1.0);
    let none: ProcessMetrics = fresh.take_processes(None);
    assert!(none.processes.is_empty());
}
