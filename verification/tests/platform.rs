//! Numbers, fields, directory records and system call requests.
use syspulse::bytes::{bytes_are, split_fields, split_lines, split_pieces, starts_with};
use syspulse::endian::{push_be, push_le, read_le};
use syspulse::platform::linux::kprobe::{attach_kprobe, Action};
use syspulse::platform::linux::syscall::{
    bpf_map_create, bpf_map_lookup, bpf_map_update, bpf_prog_load, count_dir_entries, perf_attr,
    read_outcome, read_progress, split_entries, BpfAttrMapCreate, BpfAttrProgLoad, LinuxDirent64,
    PersistentFd, Pread, Progress, Reread, BPF_MAP_CREATE, BPF_MAP_LOOKUP_ELEM,
    BPF_MAP_UPDATE_ELEM, BPF_PROG_LOAD,
};
use syspulse::platform::linux::{next_field, next_line, parse_u64_from_bytes, skip_whitespace};

#[test]
fn numbers_stop_at_the_first_other_byte() {
    assert_eq!(parse_u64_from_bytes(b"12345 67"), 12345);
    assert_eq!(parse_u64_from_bytes(b""), 0);
    assert_eq!(parse_u64_from_bytes(b"x1"), 0);
    assert_eq!(parse_u64_from_bytes(b"007\n"), 7);
}

#[test]
fn numbers_wrap_around_at_64_bits() {
    assert_eq!(parse_u64_from_bytes(b"18446744073709551615"), u64::MAX);
    assert_eq!(parse_u64_from_bytes(b"18446744073709551616"), 0);
    assert_eq!(parse_u64_from_bytes(b"18446744073709551623"), 7);
}

#[test]
fn fields_and_lines_are_cut_off() {
    assert_eq!(skip_whitespace(b" \t  a b"), b"a b");
    assert_eq!(skip_whitespace(b"\na"), b"\na");
    assert_eq!(next_field(b"ab cd"), (&b"ab"[..], &b" cd"[..]));
    assert_eq!(next_field(b"ab\ncd"), (&b"ab"[..], &b"\ncd"[..]));
    assert_eq!(next_field(b""), (&b""[..], &b""[..]));
    assert_eq!(next_line(b"ab\ncd\n"), b"cd\n");
    assert_eq!(next_line(b"ab"), b"");
}

#[test]
fn buffers_are_split() {
    assert_eq!(split_lines(b"a\n\nb\n"), [&b"a"[..], &b""[..], &b"b"[..]]);
    assert_eq!(split_lines(b""), Vec::<&[u8]>::new());
    assert_eq!(split_fields(b"  a  bc d "), [&b"a"[..], &b"bc"[..], &b"d"[..]]);
    assert_eq!(split_pieces(b" a  b", 32), [&b""[..], &b"a"[..], &b""[..], &b"b"[..]]);
    assert_eq!(split_pieces(b"", 32), [&b""[..]]);
    assert!(starts_with(b"Tcp: x", "Tcp:"));
    assert!(!starts_with(b"Tc", "Tcp:"));
    assert!(bytes_are(b"InSegs", "InSegs"));
    assert!(!bytes_are(b"InSegs ", "InSegs"));
}

#[test]
fn integers_become_bytes_and_back() {
    let mut le = Vec::new();
    push_le(&mut le, 0x0102_0304, 4);
    assert_eq!(le, [4, 3, 2, 1]);
    let mut be = Vec::new();
    push_be(&mut be, 0x0102_0304, 4);
    assert_eq!(be, [1, 2, 3, 4]);
    push_be(&mut be, 0x1_2345, 2);
    assert_eq!(&be[4..], [0x23, 0x45]);
    assert_eq!(read_le(&le), 0x0102_0304);
    assert_eq!(read_le(&[255; 8]), u64::MAX);
    assert_eq!(read_le(&[]), 0);
}

fn record(ino: u64, kind: u8, name: &[u8]) -> Vec<u8> {
    let mut r = Vec::new();
    let len = (19 + name.len() + 1 + 7) / 8 * 8;
    r.extend_from_slice(&ino.to_le_bytes());
    r.extend_from_slice(&(-2i64).to_le_bytes());
    r.extend_from_slice(&(len as u16).to_le_bytes());
    r.push(kind);
    r.extend_from_slice(name);
    r.resize(len, 0);
    r
}

#[test]
fn directory_records_are_read() {
    let mut chunk = record(7, 4, b".");
    chunk.extend(record(1, 4, b".."));
    chunk.extend(record(300, 8, b"...hidden"));
    chunk.extend(record(5, 8, b".x"));
    chunk.extend(record(6, 8, b"42"));
    let head = LinuxDirent64::read(&chunk, 0);
    assert_eq!((head.d_ino, head.d_off, head.d_reclen, head.d_type), (7, -2, 24, 4));
    let names = split_entries(&chunk);
    assert_eq!(names, [&b"."[..], &b".."[..], &b"...hidden"[..], &b".x"[..], &b"42"[..]]);
    assert_eq!(count_dir_entries(0, &chunk), 3);
    assert_eq!(count_dir_entries(10, &chunk), 13);
    assert_eq!(count_dir_entries(0, &[]), 0);
}

#[test]
fn a_record_without_length_ends_the_chunk() {
    let mut chunk = record(7, 8, b"a");
    let mut broken = record(8, 8, b"b");
    broken[16] = 0;
    broken[17] = 0;
    chunk.extend(broken);
    chunk.extend(record(9, 8, b"c"));
    assert_eq!(split_entries(&chunk), [&b"a"[..]]);
}

#[test]
fn reads_have_outcomes() {
    assert_eq!(read_outcome(b"hello", 3), Ok(&b"hel"[..]));
    assert_eq!(read_outcome(b"hello", -2), Err(2));
    assert_eq!(read_outcome(b"hello", 0), Err(0));
    assert_eq!(read_progress(10, 5, 100), Progress::More(15));
    assert_eq!(read_progress(10, 90, 100), Progress::Full(100));
    assert_eq!(read_progress(10, 0, 100), Progress::Full(10));
    assert_eq!(read_progress(10, -4, 100), Progress::Failed(-4));
    assert_eq!(read_progress(0, -4, 100), Progress::Failed(-4));
}

#[test]
fn a_persistent_file_is_read_again() {
    assert!(PersistentFd::open(-2, b"/proc/stat\0").is_none());
    let p = PersistentFd::open(5, b"/proc/stat\0").unwrap();
    assert_eq!(p.fd(), 5);
    assert_eq!(p.path(), b"/proc/stat\0");
    assert_eq!(p.pread(), Pread { fd: 5, offset: 0 });
    assert_eq!(p.reread(0, 12), Reread::Use(12));
    assert_eq!(p.reread(0, 0), Reread::Reopen);
    assert_eq!(p.reread(-1, 12), Reread::Reopen);
    let long = PersistentFd::open(5, &[b'x'; 100]).unwrap();
    assert_eq!(long.path(), [b'x'; 64]);
}

#[test]
fn map_requests_are_laid_out() {
    let r = bpf_map_create(2, 4, 8, 64);
    assert_eq!(r.cmd, BPF_MAP_CREATE);
    assert_eq!(r.attr, [2, 0, 0, 0, 4, 0, 0, 0, 8, 0, 0, 0, 64, 0, 0, 0, 0, 0, 0, 0]);
    let r = bpf_map_lookup(-1, 0x1122, 0x3344);
    assert_eq!(r.cmd, BPF_MAP_LOOKUP_ELEM);
    let mut expected = vec![255, 255, 255, 255, 0, 0, 0, 0];
    expected.extend(0x1122u64.to_le_bytes());
    expected.extend(0x3344u64.to_le_bytes());
    expected.extend([0; 8]);
    assert_eq!(r.attr, expected);
    let r = bpf_map_update(3, 0x1122, 0x3344, 1);
    assert_eq!(r.cmd, BPF_MAP_UPDATE_ELEM);
    assert_eq!(r.attr[0], 3);
    assert_eq!(r.attr[24], 1);
    assert_eq!(r.attr.len(), 32);
    assert_eq!(BpfAttrMapCreate::default().to_bytes(), [0; 20]);
}

#[test]
fn program_requests_are_laid_out() {
    let r = bpf_prog_load(1, 0x1000, 15, 0x2000);
    assert_eq!(r.cmd, BPF_PROG_LOAD);
    assert_eq!(r.attr.len(), 72);
    assert_eq!(r.attr[..8], [1, 0, 0, 0, 15, 0, 0, 0]);
    assert_eq!(r.attr[8..16], 0x1000u64.to_le_bytes());
    assert_eq!(r.attr[16..24], 0x2000u64.to_le_bytes());
    assert!(r.attr[24..].iter().all(|&b| b == 0));
    assert_eq!(BpfAttrProgLoad::default().to_bytes(), [0; 72]);
}

#[test]
fn performance_events_are_laid_out() {
    let attr = perf_attr(0x1234);
    assert_eq!(attr.len(), 112);
    assert_eq!(attr[..8], [6, 0, 0, 0, 112, 0, 0, 0]);
    assert_eq!(attr[8..16], 0x1234u64.to_le_bytes());
    assert_eq!(attr[16..24], 1u64.to_le_bytes());
    assert!(attr[24..].iter().all(|&b| b == 0));
}

#[test]
fn a_probe_is_attached_step_by_step() {
    let mut a = attach_kprobe(9, "blk.done", false);
    match a.action() {
        Action::Open { path, flags } => {
            assert_eq!(path, "/sys/kernel/debug/tracing/kprobe_events\0");
            assert_eq!(flags, 1 | 1024);
        }
        other => panic!("{:?}", other),
    }
    a.advance(4, &[]);
    match a.action() {
        Action::Write { fd, text } => {
            assert_eq!(fd, 4);
            assert_eq!(text, "p:syspulse_p_blk_done blk.done\n");
        }
        other => panic!("{:?}", other),
    }
    a.advance(31, &[]);
    assert!(matches!(a.action(), Action::Close { descriptor: 4 }));
    a.advance(0, &[]);
    match a.action() {
        Action::Read { path } => {
            assert_eq!(path, "/sys/kernel/debug/tracing/events/kprobes/syspulse_p_blk_done/id\0");
        }
        other => panic!("{:?}", other),
    }
    a.advance(5, b"1234\n");
    match a.action() {
        Action::PerfEventOpen { attr, pid, cpu, group_fd, flags } => {
            assert_eq!(attr, perf_attr(1234));
            assert_eq!((pid, cpu, group_fd, flags), (-1, 0, -1, 8));
        }
        other => panic!("{:?}", other),
    }
    a.advance(7, &[]);
    assert!(matches!(a.action(), Action::Ioctl { fd: 7, request: 0x40042408, arg: 9 }));
    a.advance(0, &[]);
    assert!(matches!(a.action(), Action::Ioctl { fd: 7, request: 0x2400, arg: 0 }));
    a.advance(0, &[]);
    assert!(matches!(a.action(), Action::Finish { result: 7 }));
    a.advance(0, &[]);
    assert!(matches!(a.action(), Action::Finish { result: 7 }));
}

#[test]
fn a_failed_probe_leaves_nothing_open() {
    let mut a = attach_kprobe(9, "f", true);
    a.advance(-13, &[]);
    assert!(matches!(a.action(), Action::Finish { result: -1 }));

    let mut a = attach_kprobe(9, "f", true);
    a.advance(4, &[]);
    match a.action() {
        Action::Write { text, .. } => assert_eq!(text, "r:syspulse_r_f f\n"),
        other => panic!("{:?}", other),
    }
    a.advance(-1, &[]);
    assert!(matches!(a.action(), Action::Close { descriptor: 4 }));
    a.advance(0, &[]);
    assert!(matches!(a.action(), Action::Finish { result: -1 }));

    let mut a = attach_kprobe(9, "f", true);
    a.advance(4, &[]);
    a.advance(1, &[]);
    a.advance(0, &[]);
    a.advance(0, &[]);
    assert!(matches!(a.action(), Action::Finish { result: -1 }));

    let mut a = attach_kprobe(9, "f", true);
    a.advance(4, &[]);
    a.advance(1, &[]);
    a.advance(0, &[]);
    a.advance(2, b"12");
    a.advance(6, &[]);
    a.advance(-22, &[]);
    assert!(matches!(a.action(), Action::Close { descriptor: 6 }));
    a.advance(0, &[]);
    assert!(matches!(a.action(), Action::Finish { result: -1 }));
}
