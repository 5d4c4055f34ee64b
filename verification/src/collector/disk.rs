//! File systems and disk traffic, from `/proc/mounts` and `/proc/diskstats`.
use crate::bytes;
use crate::collector;
use crate::collector::latency;
use crate::collector::latency::{DiskRawStat, IoLatencyTracker, Latency, TracerHandles};
use crate::collector::{CollectorError, FileRead};
use crate::metrics;
use crate::metrics::{DeviceView, DiskDevice, DiskMetrics, HistogramData, HistogramView, Quantity};
use crate::platform::linux;
use crate::registry;
use crate::registry::Registry;
use crate::soundness;
use crate::text;
use vstd::prelude::*;

verus! {

/// The bytes in a sector of the disk counters.
pub const SECTOR_SIZE: u64 = 512;

/// A mounted file system.
#[derive(Debug)]
pub struct MountEntry {
    pub device: String,
    pub mount_point: String,
    pub fs_type: String,
}

#[verifier::ext_equal]
pub struct MountView {
    pub device: Seq<char>,
    pub mount_point: Seq<char>,
    pub fs_type: Seq<char>,
}

impl View for MountEntry {
    type V = MountView;

    open spec fn view(&self) -> MountView {
        MountView {
            device: self.device@,
            mount_point: self.mount_point@,
            fs_type: self.fs_type@,
        }
    }
}

/// The types of file systems that are reported.
pub open spec fn is_reported(fs_type: Seq<char>) -> bool {
    ||| fs_type == "ext4"@
    ||| fs_type == "xfs"@
    ||| fs_type == "btrfs"@
    ||| fs_type == "zfs"@
    ||| fs_type == "ntfs"@
    ||| fs_type == "vfat"@
    ||| fs_type == "f2fs"@
    ||| fs_type == "tmpfs"@
    ||| fs_type == "ext3"@
    ||| fs_type == "overlay"@
}

/// The file system on a line, where it is reported: device, mount point and type, with single
/// spaces between them.
pub open spec fn mount_line(line: Seq<u8>) -> Option<MountView> {
    let p = bytes::pieces(line, 32);
    if p.len() >= 3 && is_reported(text::text_or(p[2], ""@)) {
        Some(
            MountView {
                device: text::lossy_text(p[0]),
                mount_point: text::lossy_text(p[1]),
                fs_type: text::text_or(p[2], ""@),
            },
        )
    } else {
        None
    }
}

/// The reported file systems on some lines.
pub open spec fn mounts_on(lines: Seq<Seq<u8>>) -> Seq<MountView>
    decreases lines.len(),
{
    if lines.len() == 0 {
        Seq::empty()
    } else {
        let before = mounts_on(lines.drop_last());
        match mount_line(lines.last()) {
            Some(m) => before.push(m),
            None => before,
        }
    }
}

/// The reported file systems in the contents of `/proc/mounts`.
pub open spec fn mounts(data: Seq<u8>) -> Seq<MountView> {
    mounts_on(bytes::lines(data))
}

/// The views of a list of mounts.
pub open spec fn mount_views(v: Seq<MountEntry>) -> Seq<MountView> {
    Seq::new(v.len(), |i: int| v[i]@)
}

/// The disk on a line, where it has at least fourteen fields.
pub open spec fn disk_line(line: Seq<u8>) -> Option<(Seq<char>, DiskRawStat)> {
    let f = bytes::fields(line);
    if f.len() >= 14 {
        Some(
            (
                text::lossy_text(f[2]),
                DiskRawStat {
                    read_bytes: linux::leading_number(f[5]).wrapping_mul(SECTOR_SIZE),
                    write_bytes: linux::leading_number(f[9]).wrapping_mul(SECTOR_SIZE),
                    read_time_ms: linux::leading_number(f[6]),
                    write_time_ms: linux::leading_number(f[10]),
                    read_ios: linux::leading_number(f[3]),
                    write_ios: linux::leading_number(f[7]),
                    io_ticks_ms: linux::leading_number(f[12]),
                },
            ),
        )
    } else {
        None
    }
}

/// The disks on some lines; of two lines with one name the later counts.
pub open spec fn disks_on(lines: Seq<Seq<u8>>) -> Seq<(Seq<char>, DiskRawStat)>
    decreases lines.len(),
{
    if lines.len() == 0 {
        Seq::empty()
    } else {
        let before = disks_on(lines.drop_last());
        match disk_line(lines.last()) {
            Some((name, stat)) => registry::with_entry(before, name, stat),
            None => before,
        }
    }
}

/// The disks in the contents of `/proc/diskstats`.
pub open spec fn disks(data: Seq<u8>) -> Seq<(Seq<char>, DiskRawStat)> {
    disks_on(bytes::lines(data))
}

/// The part of a path after its last slash.
pub open spec fn base_name(path: Seq<char>) -> Seq<char>
    decreases path.len(),
{
    if path.len() == 0 || path.last() == '/' {
        Seq::empty()
    } else {
        base_name(path.drop_last()).push(path.last())
    }
}

/// The blocks of a file system and their size.
#[derive(Debug, Clone, Copy, PartialEq, Eq, Structural)]
pub struct FsStat {
    pub fragment_size: u64,
    pub blocks: u64,
    pub free: u64,
    pub available: u64,
}

/// The total, used and available bytes of a file system; zero where nothing is known of it. The
/// products wrap around at 64 bits.
pub open spec fn fs_usage(fs: Option<FsStat>) -> (u64, u64, u64) {
    match fs {
        Some(s) => {
            let total = s.blocks.wrapping_mul(s.fragment_size);
            (
                total,
                collector::excess(total, s.free.wrapping_mul(s.fragment_size)),
                s.available.wrapping_mul(s.fragment_size),
            )
        },
        None => (0, 0, 0),
    }
}

/// What was read for a mount: the state of its file system, and the buckets of the latency tracer.
pub struct MountSample {
    pub fs: Option<FsStat>,
    pub buckets: Option<Vec<u64>>,
}

/// The buckets, where there are any and the tracer has them.
pub open spec fn usable_buckets(sample: MountSample, tracer: TracerHandles) -> Option<Seq<u64>> {
    match sample.buckets {
        Some(b) if latency::has_buckets(tracer) => Some(b@),
        _ => None,
    }
}

/// A mounted file system with the traffic and the latency of its disk.
pub open spec fn device_view(
    mount: MountView,
    fs: Option<FsStat>,
    prev: Option<DiskRawStat>,
    cur: Option<DiskRawStat>,
    elapsed_ns: u64,
    io_latency: HistogramView,
) -> DeviceView {
    let (total, used, available) = fs_usage(fs);
    DeviceView {
        name: mount.device,
        mount_point: mount.mount_point,
        fs_type: mount.fs_type,
        total_bytes: total,
        used_bytes: used,
        available_bytes: available,
        read_bytes_per_sec: match (prev, cur) {
            (Some(p), Some(c)) => metrics::per_second(
                c.read_bytes.wrapping_sub(p.read_bytes),
                1,
                elapsed_ns,
            ),
            _ => Quantity::Whole(0),
        },
        write_bytes_per_sec: match (prev, cur) {
            (Some(p), Some(c)) => metrics::per_second(
                c.write_bytes.wrapping_sub(p.write_bytes),
                1,
                elapsed_ns,
            ),
            _ => Quantity::Whole(0),
        },
        io_latency,
    }
}

/// What a collection finds out from: the disks now and before, the time between, and the tracer.
#[verifier::ext_equal]
pub struct DiskContext {
    pub prev: Seq<(Seq<char>, DiskRawStat)>,
    pub cur: Seq<(Seq<char>, DiskRawStat)>,
    pub elapsed_ns: u64,
    pub tracer: TracerHandles,
}

/// The latency of the disk behind a mount, and the windows of the tracker afterwards.
pub open spec fn mount_latency(
    ctx: DiskContext,
    windows: Seq<(Seq<char>, Seq<Latency>)>,
    mount: MountView,
    sample: MountSample,
) -> (HistogramView, Seq<(Seq<char>, Seq<Latency>)>) {
    let name = base_name(mount.device);
    match registry::lookup(ctx.cur, name) {
        Some(cur) => latency::measured(
            windows,
            name,
            registry::lookup(ctx.prev, name),
            cur,
            usable_buckets(sample, ctx.tracer),
        ),
        None => (metrics::no_latency(), windows),
    }
}

/// The devices of some mounts, one after the other, and the windows of the tracker afterwards.
pub open spec fn devices(
    ctx: DiskContext,
    windows: Seq<(Seq<char>, Seq<Latency>)>,
    mounts: Seq<MountView>,
    samples: Seq<MountSample>,
) -> (Seq<DeviceView>, Seq<(Seq<char>, Seq<Latency>)>)
    decreases mounts.len(),
{
    if mounts.len() == 0 {
        (Seq::empty(), windows)
    } else {
        let (before, between) = devices(ctx, windows, mounts.drop_last(), samples);
        let mount = mounts.last();
        let sample = samples[mounts.len() - 1];
        let name = base_name(mount.device);
        let (io_latency, after) = mount_latency(ctx, between, mount, sample);
        (
            before.push(
                device_view(
                    mount,
                    sample.fs,
                    registry::lookup(ctx.prev, name),
                    registry::lookup(ctx.cur, name),
                    ctx.elapsed_ns,
                    io_latency,
                ),
            ),
            after,
        )
    }
}

fn fs_type_reported(s: &str) -> (res: bool)
    ensures
        res == is_reported(s@),
{
    text::same_text(s, "ext4") || text::same_text(s, "xfs") || text::same_text(s, "btrfs")
        || text::same_text(s, "zfs") || text::same_text(s, "ntfs") || text::same_text(s, "vfat")
        || text::same_text(s, "f2fs") || text::same_text(s, "tmpfs") || text::same_text(s, "ext3")
        || text::same_text(s, "overlay")
}

/// Whether every line that names a file system has a mount point on it.
pub open spec fn have_mount_points(lines: Seq<Seq<u8>>) -> bool {
    forall|i: int|
        0 <= i < lines.len() ==> (bytes::pieces(#[trigger] lines[i], 32).len() >= 3
            ==> bytes::pieces(lines[i], 32)[1].len() > 0)
}

/// The reported file systems in the contents of `/proc/mounts`. Where there is a mount point on
/// every line, every file system has one.
pub fn parse_mounts(data: &[u8]) -> (res: Vec<MountEntry>)
    ensures
        mount_views(res@) == mounts(data@),
        have_mount_points(bytes::lines(data@)) ==> forall|i: int|
            0 <= i < res@.len() ==> (#[trigger] res@[i])@.mount_point.len() > 0,
{
    let lines: Vec<&[u8]> = bytes::split_lines(data);
    let ghost all = bytes::lines(data@);
    let mut res: Vec<MountEntry> = Vec::new();
    let mut i: usize = 0;
    assert(mount_views(res@) =~= Seq::empty());
    while i < lines.len()
        invariant
            0 <= i <= lines@.len(),
            all == bytes::contents(lines@),
            mount_views(res@) == mounts_on(all.take(i as int)),
            have_mount_points(all) ==> forall|k: int|
                0 <= k < res@.len() ==> (#[trigger] res@[k])@.mount_point.len() > 0,
        decreases lines@.len() - i,
    {
        let line: &[u8] = lines[i];
        assert(all[i as int] == line@);
        let parts: Vec<&[u8]> = bytes::split_pieces(line, 32);
        proof {
            assert(all.take(i + 1).drop_last() =~= all.take(i as int));
            assert(all.take(i + 1).last() == line@);
            let p = bytes::pieces(line@, 32);
            assert(p.len() == parts@.len());
            assert(forall|k: int| 0 <= k < parts@.len() ==> p[k] == #[trigger] parts@[k]@);
        }
        if parts.len() >= 3 {
            let fs_type: String = text::utf8_or(parts[2], "");
            if fs_type_reported(fs_type.as_str()) {
                let entry = MountEntry {
                    device: text::from_utf8_lossy(parts[0]),
                    mount_point: text::from_utf8_lossy(parts[1]),
                    fs_type,
                };
                let ghost before = mount_views(res@);
                res.push(entry);
                assert(mount_views(res@) =~= before.push(entry@));
            }
        }
        i = i + 1;
    }
    assert(all.take(i as int) =~= all);
    res
}

fn parse_disk_line(line: &[u8]) -> (res: Option<(String, DiskRawStat)>)
    ensures
        match res {
            Some((name, stat)) => disk_line(line@) == Some((name@, stat)),
            None => disk_line(line@) is None,
        },
{
    let fields: Vec<&[u8]> = bytes::split_fields(line);
    let ghost f = bytes::fields(line@);
    assert(f.len() == fields@.len());
    if fields.len() < 14 {
        return None;
    }
    assert(forall|i: int| 0 <= i < fields@.len() ==> f[i] == #[trigger] fields@[i]@);
    Some(
        (
            text::from_utf8_lossy(fields[2]),
            DiskRawStat {
                read_bytes: linux::parse_u64_from_bytes(fields[5]).wrapping_mul(SECTOR_SIZE),
                write_bytes: linux::parse_u64_from_bytes(fields[9]).wrapping_mul(SECTOR_SIZE),
                read_time_ms: linux::parse_u64_from_bytes(fields[6]),
                write_time_ms: linux::parse_u64_from_bytes(fields[10]),
                read_ios: linux::parse_u64_from_bytes(fields[3]),
                write_ios: linux::parse_u64_from_bytes(fields[7]),
                io_ticks_ms: linux::parse_u64_from_bytes(fields[12]),
            },
        ),
    )
}

/// The disks in the contents of `/proc/diskstats`.
pub fn parse_diskstats(data: &[u8]) -> (res: Registry<DiskRawStat>)
    ensures
        res@ == disks(data@),
{
    let lines: Vec<&[u8]> = bytes::split_lines(data);
    let ghost all = bytes::lines(data@);
    let mut stats: Registry<DiskRawStat> = Registry::new();
    let mut i: usize = 0;
    assert(stats@ =~= Seq::empty());
    while i < lines.len()
        invariant
            0 <= i <= lines@.len(),
            all == bytes::contents(lines@),
            stats@ == disks_on(all.take(i as int)),
        decreases lines@.len() - i,
    {
        proof {
            assert(all.take(i + 1).drop_last() =~= all.take(i as int));
            assert(all.take(i + 1).last() == lines@[i as int]@);
        }
        match parse_disk_line(lines[i]) {
            Some((name, stat)) => {
                stats.insert(name, stat);
            },
            None => {},
        }
        i = i + 1;
    }
    assert(all.take(i as int) =~= all);
    stats
}

/// The part of a path after its last slash.
pub fn device_name(path: &str) -> (res: String)
    ensures
        res@ == base_name(path@),
{
    let chars: Vec<char> = text::chars_of(path);
    let mut start: usize = chars.len();
    assert(chars@.take(start as int) =~= chars@);
    assert(base_name(chars@.take(start as int)) + chars@.skip(start as int) =~= base_name(chars@));
    while start > 0 && chars[start - 1] != '/'
        invariant
            0 <= start <= chars@.len(),
            base_name(chars@.take(start as int)) + chars@.skip(start as int) == base_name(chars@),
        decreases start,
    {
        proof {
            let head = chars@.take(start as int);
            assert(head.drop_last() =~= chars@.take(start - 1));
            assert(base_name(chars@.take(start - 1)).push(chars@[start - 1]) + chars@.skip(
                start as int,
            ) =~= base_name(chars@.take(start - 1)) + chars@.skip(start - 1));
        }
        start = start - 1;
    }
    let tail: &[char] = vstd::slice::slice_subrange(chars.as_slice(), start, chars.len());
    proof {
        assert(tail@ =~= chars@.skip(start as int));
        assert(base_name(chars@.take(start as int)) =~= Seq::empty());
        assert(Seq::<char>::empty() + tail@ =~= tail@);
    }
    text::string_of(tail)
}

/// The total, used and available bytes of a file system.
pub fn statvfs(fs: &Option<FsStat>) -> (res: (u64, u64, u64))
    ensures
        res == fs_usage(*fs),
{
    match fs {
        Some(s) => {
            let total: u64 = s.blocks.wrapping_mul(s.fragment_size);
            let available: u64 = s.available.wrapping_mul(s.fragment_size);
            let free: u64 = s.free.wrapping_mul(s.fragment_size);
            (total, total.saturating_sub(free), available)
        },
        None => (0, 0, 0),
    }
}

/// Turns successive readings of the two files into disk metrics.
pub struct DiskCollector {
    prev_stats: Registry<DiskRawStat>,
    prev_time_ns: Option<u64>,
    latency_tracker: IoLatencyTracker,
}

impl DiskCollector {
    /// The disks of the last successful reading.
    pub closed spec fn previous(&self) -> Seq<(Seq<char>, DiskRawStat)> {
        self.prev_stats@
    }

    /// When the last successful reading was made.
    pub closed spec fn time_ns(&self) -> Option<u64> {
        self.prev_time_ns
    }

    /// The latency windows by disk.
    pub closed spec fn windows(&self) -> Seq<(Seq<char>, Seq<Latency>)> {
        self.latency_tracker.devices()
    }

    /// The latency tracer in the kernel.
    pub closed spec fn tracer(&self) -> TracerHandles {
        self.latency_tracker.handles()
    }

    /// A collector that has read nothing yet.
    pub fn new(tracer: TracerHandles) -> (res: Self)
        ensures
            res.previous() == Seq::<(Seq<char>, DiskRawStat)>::empty(),
            res.time_ns() is None,
            res.windows() == Seq::<(Seq<char>, Seq<Latency>)>::empty(),
            res.tracer() == tracer,
    {
        let res = DiskCollector {
            prev_stats: Registry::new(),
            prev_time_ns: None,
            latency_tracker: IoLatencyTracker::new(tracer),
        };
        assert(res.previous() =~= Seq::empty());
        res
    }

    /// The descriptor of the map with the latency buckets, where they can be read.
    pub fn bucket_source(&self) -> (res: Option<i32>)
        ensures
            res == if latency::has_buckets(self.tracer()) {
                Some(self.tracer().histogram_fd)
            } else {
                None
            },
    {
        self.latency_tracker.bucket_source()
    }

    /// The file systems that the contents of `/proc/mounts` show, with the traffic that the
    /// contents of `/proc/diskstats` show for their disks. There is a sample for every reported
    /// file system, in order. Where one of the files could not be read the collector stays as it
    /// was.
    pub fn collect(
        &mut self,
        mounts: FileRead<'_>,
        diskstats: FileRead<'_>,
        samples: &Vec<MountSample>,
        now_ns: u64,
    ) -> (res: Result<DiskMetrics, CollectorError>)
        requires
            mounts matches Ok(data) ==> samples@.len() == self::mounts(data@).len(),
            forall|i: int|
                0 <= i < samples@.len() ==> ((#[trigger] samples@[i]).buckets matches Some(b)
                    ==> b@.len() <= latency::BUCKETS),
        ensures
            match (mounts, diskstats) {
                (Err(e), _) => res == Err::<DiskMetrics, _>(CollectorError::Io(e)),
                (Ok(m), Err(e)) => res == Err::<DiskMetrics, _>(CollectorError::Io(e)),
                (Ok(m), Ok(d)) => {
                    let ctx = DiskContext {
                        prev: old(self).previous(),
                        cur: disks(d@),
                        elapsed_ns: collector::elapsed(old(self).time_ns(), now_ns),
                        tracer: old(self).tracer(),
                    };
                    let (found, windows) = devices(
                        ctx,
                        old(self).windows(),
                        self::mounts(m@),
                        samples@,
                    );
                    &&& res matches Ok(metrics) && metrics@ == found && (have_mount_points(
                        bytes::lines(m@),
                    ) ==> forall|i: int|
                        0 <= i < found.len() ==> (#[trigger] found[i]).mount_point.len() > 0)
                    &&& final(self).windows() == windows
                    &&& final(self).previous() == disks(d@)
                    &&& final(self).time_ns() == Some(now_ns)
                },
            },
            res is Err ==> {
                &&& final(self).windows() == old(self).windows()
                &&& final(self).previous() == old(self).previous()
                &&& final(self).time_ns() == old(self).time_ns()
            },
            final(self).tracer() == old(self).tracer(),
    {
        let mounts: Vec<MountEntry> = match mounts {
            Ok(data) => parse_mounts(data),
            Err(e) => {
                return Err(CollectorError::Io(e));
            },
        };
        let diskstats: Registry<DiskRawStat> = match diskstats {
            Ok(data) => parse_diskstats(data),
            Err(e) => {
                return Err(CollectorError::Io(e));
            },
        };
        let elapsed_ns: u64 = collector::elapsed_since(self.prev_time_ns, now_ns);
        let ghost views = mount_views(mounts@);
        let ghost named = forall|k: int|
            0 <= k < mounts@.len() ==> (#[trigger] mounts@[k])@.mount_point.len() > 0;
        let ghost ctx = DiskContext {
            prev: self.previous(),
            cur: diskstats@,
            elapsed_ns,
            tracer: self.tracer(),
        };
        let mut found: Vec<DiskDevice> = Vec::new();
        let mut i: usize = 0;
        assert(device_views(found@) =~= Seq::empty());
        while i < mounts.len()
            invariant
                0 <= i <= mounts@.len(),
                mounts@.len() == samples@.len(),
                views == mount_views(mounts@),
                named ==> forall|k: int|
                    0 <= k < mounts@.len() ==> (#[trigger] mounts@[k])@.mount_point.len() > 0,
                named ==> forall|k: int|
                    0 <= k < found@.len() ==> (#[trigger] found@[k])@.mount_point.len() > 0,
                ctx == (DiskContext {
                    prev: self.previous(),
                    cur: diskstats@,
                    elapsed_ns,
                    tracer: self.tracer(),
                }),
                self.previous() == old(self).previous(),
                self.time_ns() == old(self).time_ns(),
                self.tracer() == old(self).tracer(),
                forall|j: int|
                    0 <= j < samples@.len() ==> ((#[trigger] samples@[j]).buckets matches Some(b)
                        ==> b@.len() <= latency::BUCKETS),
                (device_views(found@), self.windows()) == devices(
                    ctx,
                    old(self).windows(),
                    views.take(i as int),
                    samples@,
                ),
            decreases mounts@.len() - i,
        {
            proof {
                assert(views.take(i + 1).drop_last() =~= views.take(i as int));
                assert(views.take(i + 1).last() == mounts@[i as int]@);
            }
            let ghost before = device_views(found@);
            let device: DiskDevice = self.device(
                &mounts[i],
                &samples[i],
                &diskstats,
                elapsed_ns,
            );
            found.push(device);
            assert(device_views(found@) =~= before.push(device@));
            i = i + 1;
        }
        self.prev_stats = diskstats;
        self.prev_time_ns = Some(now_ns);
        let res = DiskMetrics { devices: found };
        proof {
            assert(views.take(i as int) =~= views);
            assert(res@ =~= device_views(found@));
        }
        Ok(res)
    }

    /// A mounted file system with the traffic and the latency of its disk.
    fn device(
        &mut self,
        mount: &MountEntry,
        sample: &MountSample,
        diskstats: &Registry<DiskRawStat>,
        elapsed_ns: u64,
    ) -> (res: DiskDevice)
        requires
            sample.buckets matches Some(b) ==> b@.len() <= latency::BUCKETS,
        ensures
            ({
                let ctx = DiskContext {
                    prev: old(self).previous(),
                    cur: diskstats@,
                    elapsed_ns,
                    tracer: old(self).tracer(),
                };
                let name = base_name(mount@.device);
                let (io_latency, after) = mount_latency(
                    ctx,
                    old(self).windows(),
                    mount@,
                    *sample,
                );
                &&& res@ == device_view(
                    mount@,
                    sample.fs,
                    registry::lookup(ctx.prev, name),
                    registry::lookup(ctx.cur, name),
                    elapsed_ns,
                    io_latency,
                )
                &&& final(self).windows() == after
            }),
            final(self).previous() == old(self).previous(),
            final(self).time_ns() == old(self).time_ns(),
            final(self).tracer() == old(self).tracer(),
    {
        let name: String = device_name(mount.device.as_str());
        let (read_rate, write_rate, io_latency): (Quantity, Quantity, HistogramData) =
            match diskstats.get(name.as_str()) {
            Some(cur) => {
                let prev: Option<DiskRawStat> = match self.prev_stats.get(name.as_str()) {
                    Some(p) => Some(*p),
                    None => None,
                };
                let (rr, wr): (Quantity, Quantity) = match prev {
                    Some(p) => (
                        Quantity::rate(cur.read_bytes.wrapping_sub(p.read_bytes), 1, elapsed_ns),
                        Quantity::rate(cur.write_bytes.wrapping_sub(p.write_bytes), 1, elapsed_ns),
                    ),
                    None => (Quantity::zero(), Quantity::zero()),
                };
                let buckets: Option<&Vec<u64>> = match &sample.buckets {
                    Some(b) => Some(b),
                    None => None,
                };
                let io_latency: HistogramData = match &prev {
                    Some(p) => self.latency_tracker.compute_latency(
                        name.as_str(),
                        Some(p),
                        cur,
                        buckets,
                    ),
                    None => self.latency_tracker.compute_latency(name.as_str(), None, cur, buckets),
                };
                (rr, wr, io_latency)
            },
            None => (Quantity::zero(), Quantity::zero(), HistogramData::none()),
        };
        let (total, used, available): (u64, u64, u64) = statvfs(&sample.fs);
        DiskDevice {
            name: mount.device.clone(),
            mount_point: mount.mount_point.clone(),
            fs_type: mount.fs_type.clone(),
            total_bytes: total,
            used_bytes: used,
            available_bytes: available,
            read_bytes_per_sec: read_rate,
            write_bytes_per_sec: write_rate,
            io_latency,
        }
    }
}

/// The views of a list of devices.
pub open spec fn device_views(v: Seq<DiskDevice>) -> Seq<DeviceView> {
    Seq::new(v.len(), |i: int| v[i]@)
}

/// Every reported mount becomes one device, in order and under its own name; only known types of
/// file systems are among them; and no more is in use than there is. Where the latency windows are
/// sound they stay so, and every reading has a value.
pub proof fn devices_match_mounts(
    ctx: DiskContext,
    windows: Seq<(Seq<char>, Seq<Latency>)>,
    lines: Seq<Seq<u8>>,
    samples: Seq<MountSample>,
)
    ensures
        ({
            let m = mounts_on(lines);
            let (d, after) = devices(ctx, windows, m, samples);
            &&& d.len() == m.len()
            &&& forall|i: int|
                0 <= i < d.len() ==> matches_mount(#[trigger] d[i], m[i]) && is_reported(
                    d[i].fs_type,
                )
            &&& latency::windows_sound(windows) ==> latency::windows_sound(after) && forall|i: int|
                0 <= i < d.len() ==> soundness::device_defined(#[trigger] d[i])
        }),
{
    lemma_mounts_reported(lines);
    lemma_devices(ctx, windows, mounts_on(lines), samples);
    let m = mounts_on(lines);
    let d = devices(ctx, windows, m, samples).0;
    assert forall|i: int| 0 <= i < d.len() implies matches_mount(#[trigger] d[i], m[i])
        && is_reported(d[i].fs_type) by {
        assert(is_reported(m[i].fs_type));
    }
}

/// Whether a device is that of a mount, with no more in use than there is.
pub open spec fn matches_mount(d: DeviceView, m: MountView) -> bool {
    &&& d.name == m.device
    &&& d.mount_point == m.mount_point
    &&& d.fs_type == m.fs_type
    &&& d.used_bytes <= d.total_bytes
}

proof fn lemma_mounts_reported(lines: Seq<Seq<u8>>)
    ensures
        forall|i: int| 0 <= i < mounts_on(lines).len() ==> is_reported(
            (#[trigger] mounts_on(lines)[i]).fs_type,
        ),
    decreases lines.len(),
{
    if lines.len() > 0 {
        let before = mounts_on(lines.drop_last());
        lemma_mounts_reported(lines.drop_last());
        assert forall|i: int| 0 <= i < mounts_on(lines).len() implies is_reported(
            (#[trigger] mounts_on(lines)[i]).fs_type,
        ) by {
            if i < before.len() {
                assert(mounts_on(lines)[i] == before[i]);
            }
        }
    }
}

proof fn lemma_devices(
    ctx: DiskContext,
    windows: Seq<(Seq<char>, Seq<Latency>)>,
    m: Seq<MountView>,
    samples: Seq<MountSample>,
)
    ensures
        ({
            let (d, after) = devices(ctx, windows, m, samples);
            &&& d.len() == m.len()
            &&& forall|i: int| 0 <= i < d.len() ==> matches_mount(#[trigger] d[i], m[i])
            &&& latency::windows_sound(windows) ==> latency::windows_sound(after) && forall|i: int|
                0 <= i < d.len() ==> soundness::device_defined(#[trigger] d[i])
        }),
    decreases m.len(),
{
    if m.len() > 0 {
        lemma_devices(ctx, windows, m.drop_last(), samples);
        let (shorter, between) = devices(ctx, windows, m.drop_last(), samples);
        let d = devices(ctx, windows, m, samples).0;
        let mount = m.last();
        let sample = samples[m.len() - 1];
        let name = base_name(mount.device);
        assert(d.drop_last() =~= shorter);
        assert forall|i: int| 0 <= i < d.len() implies matches_mount(#[trigger] d[i], m[i]) by {
            if i < shorter.len() {
                assert(d[i] == shorter[i]);
                assert(m.drop_last()[i] == m[i]);
            }
        }
        if latency::windows_sound(windows) {
            match registry::lookup(ctx.cur, name) {
                Some(cur) => {
                    latency::measurements_have_values(
                        between,
                        name,
                        registry::lookup(ctx.prev, name),
                        cur,
                        usable_buckets(sample, ctx.tracer),
                    );
                },
                None => {},
            }
            assert forall|i: int| 0 <= i < d.len() implies soundness::device_defined(
                #[trigger] d[i],
            ) by {
                if i < shorter.len() {
                    assert(d[i] == shorter[i]);
                }
            }
        }
    }
}

/// Whether a rate is that of so many bytes in an interval, or none where no time has passed.
pub open spec fn is_rate_of(q: Quantity, bytes: int, elapsed_ns: u64) -> bool {
    if elapsed_ns > 0 {
        q.is_fraction(bytes * 1_000_000_000, elapsed_ns as int)
    } else {
        q.is_fraction(0, 1)
    }
}

/// Whether a device shows the blocks of its file system in bytes.
pub open spec fn shows_file_system(d: DeviceView, fs: FsStat) -> bool {
    let size = fs.fragment_size;
    &&& fs.blocks * size <= u64::MAX ==> d.total_bytes == fs.blocks * size
    &&& fs.available * size <= u64::MAX ==> d.available_bytes == fs.available * size
    &&& fs.blocks * size <= u64::MAX && fs.free <= fs.blocks ==> d.used_bytes == (fs.blocks
        - fs.free) * size
}

/// Whether a device shows the traffic of a disk between two readings.
pub open spec fn shows_traffic(d: DeviceView, p: DiskRawStat, c: DiskRawStat, elapsed_ns: u64) -> bool {
    &&& is_rate_of(
        d.read_bytes_per_sec,
        collector::grown(p.read_bytes, c.read_bytes),
        elapsed_ns,
    )
    &&& is_rate_of(
        d.write_bytes_per_sec,
        collector::grown(p.write_bytes, c.write_bytes),
        elapsed_ns,
    )
}

/// Whether a device shows a mount, its file system, and the traffic of the disk that it is on.
pub open spec fn shows_mount(
    d: DeviceView,
    m: MountView,
    fs: Option<FsStat>,
    prev: Option<DiskRawStat>,
    cur: Option<DiskRawStat>,
    elapsed_ns: u64,
) -> bool {
    &&& d.name == m.device
    &&& d.mount_point == m.mount_point
    &&& d.fs_type == m.fs_type
    &&& match fs {
        Some(known) => shows_file_system(d, known),
        None => d.total_bytes == 0 && d.used_bytes == 0 && d.available_bytes == 0,
    }
    &&& match (prev, cur) {
        (Some(p), Some(c)) => shows_traffic(d, p, c, elapsed_ns),
        _ => d.read_bytes_per_sec.is_fraction(0, 1) && d.write_bytes_per_sec.is_fraction(0, 1),
    }
}

/// Every mount shows the blocks of its own file system and the traffic of the disk that it is on:
/// what was read and what was written since the earlier reading. A disk that one of the readings
/// does not have shows no traffic.
pub proof fn mounts_show_their_own_disk(
    ctx: DiskContext,
    windows: Seq<(Seq<char>, Seq<Latency>)>,
    m: Seq<MountView>,
    samples: Seq<MountSample>,
    i: int,
)
    requires
        0 <= i < m.len(),
    ensures
        devices(ctx, windows, m, samples).0.len() == m.len(),
        shows_mount(
            devices(ctx, windows, m, samples).0[i],
            m[i],
            samples[i].fs,
            registry::lookup(ctx.prev, base_name(m[i].device)),
            registry::lookup(ctx.cur, base_name(m[i].device)),
            ctx.elapsed_ns,
        ),
    decreases m.len(),
{
    let all = devices(ctx, windows, m, samples).0;
    let shorter = m.drop_last();
    let (before, between) = devices(ctx, windows, shorter, samples);
    if i < m.len() - 1 {
        mounts_show_their_own_disk(ctx, windows, shorter, samples, i);
        assert(shorter[i] == m[i]);
        assert(all[i] == before[i]);
    } else {
        if shorter.len() > 0 {
            mounts_show_their_own_disk(ctx, windows, shorter, samples, 0);
        }
        lemma_device_shows(
            m[i],
            samples[i].fs,
            registry::lookup(ctx.prev, base_name(m[i].device)),
            registry::lookup(ctx.cur, base_name(m[i].device)),
            ctx.elapsed_ns,
            mount_latency(ctx, between, m[i], samples[i]).0,
        );
    }
}

proof fn lemma_device_shows(
    m: MountView,
    fs: Option<FsStat>,
    prev: Option<DiskRawStat>,
    cur: Option<DiskRawStat>,
    elapsed_ns: u64,
    io_latency: HistogramView,
)
    ensures
        shows_mount(
            device_view(m, fs, prev, cur, elapsed_ns, io_latency),
            m,
            fs,
            prev,
            cur,
            elapsed_ns,
        ),
{
    match fs {
        Some(known) => {
            let (b, f, a, n) = (
                known.blocks as int,
                known.free as int,
                known.available as int,
                known.fragment_size as int,
            );
            assert(f <= b ==> f * n <= b * n && (b - f) * n == b * n - f * n) by (nonlinear_arith)
                requires
                    n >= 0,
            ;
            assert(f * n >= 0 && b * n >= 0 && a * n >= 0) by (nonlinear_arith)
                requires
                    n >= 0,
                    f >= 0,
                    b >= 0,
                    a >= 0,
            ;
        },
        None => {},
    }
}

/// The disk of a mount is what stands behind the last slash of its device.
pub proof fn disks_are_named_without_directories(directory: Seq<char>, name: Seq<char>)
    requires
        forall|i: int| 0 <= i < name.len() ==> #[trigger] name[i] != '/',
    ensures
        base_name(directory.push('/') + name) == name,
        base_name(name) == name,
    decreases name.len(),
{
    let path = directory.push('/') + name;
    if name.len() == 0 {
        assert(path =~= directory.push('/'));
        assert(name =~= Seq::empty());
    } else {
        let shorter = name.drop_last();
        assert forall|i: int| 0 <= i < shorter.len() implies #[trigger] shorter[i] != '/' by {
            assert(shorter[i] == name[i]);
        }
        disks_are_named_without_directories(directory, shorter);
        assert(path.last() == name[name.len() - 1]);
        assert(path.drop_last() =~= directory.push('/') + shorter);
        assert(shorter.push(name.last()) =~= name);
    }
}

/// The latency of a mount is measured against the window of its own disk, as it was before where no
/// earlier mount is on the same disk: what is mounted from other disks does not count.
pub proof fn latencies_are_those_of_the_disk(
    ctx: DiskContext,
    windows: Seq<(Seq<char>, Seq<Latency>)>,
    m: Seq<MountView>,
    samples: Seq<MountSample>,
    i: int,
)
    requires
        0 <= i < m.len(),
        forall|j: int|
            0 <= j < i ==> base_name((#[trigger] m[j]).device) != base_name(m[i].device),
    ensures
        devices(ctx, windows, m, samples).0[i].io_latency == mount_latency(
            ctx,
            windows,
            m[i],
            samples[i],
        ).0,
    decreases m.len(),
{
    let all = devices(ctx, windows, m, samples).0;
    let shorter = m.drop_last();
    lemma_devices(ctx, windows, shorter, samples);
    if i < m.len() - 1 {
        assert forall|j: int| 0 <= j < i implies base_name((#[trigger] shorter[j]).device)
            != base_name(shorter[i].device) by {
            assert(shorter[j] == m[j]);
        }
        latencies_are_those_of_the_disk(ctx, windows, shorter, samples, i);
        assert(all[i] == devices(ctx, windows, shorter, samples).0[i]);
    } else {
        let name = base_name(m[i].device);
        assert forall|j: int| 0 <= j < shorter.len() implies base_name(
            (#[trigger] shorter[j]).device,
        ) != name by {
            assert(shorter[j] == m[j]);
        }
        lemma_other_windows(ctx, windows, shorter, samples, name);
        let between = devices(ctx, windows, shorter, samples).1;
        match registry::lookup(ctx.cur, name) {
            Some(cur) => {
                let made = latency::Measurement {
                    device: name,
                    prev: registry::lookup(ctx.prev, name),
                    cur,
                    buckets: usable_buckets(samples[i], ctx.tracer),
                };
                latency::devices_do_not_mix(between, windows, made, name);
            },
            None => {},
        }
    }
}

proof fn lemma_other_windows(
    ctx: DiskContext,
    windows: Seq<(Seq<char>, Seq<Latency>)>,
    m: Seq<MountView>,
    samples: Seq<MountSample>,
    name: Seq<char>,
)
    requires
        forall|j: int| 0 <= j < m.len() ==> base_name((#[trigger] m[j]).device) != name,
    ensures
        registry::lookup(devices(ctx, windows, m, samples).1, name) == registry::lookup(
            windows,
            name,
        ),
    decreases m.len(),
{
    if m.len() > 0 {
        let shorter = m.drop_last();
        assert forall|j: int| 0 <= j < shorter.len() implies base_name(
            (#[trigger] shorter[j]).device,
        ) != name by {
            assert(shorter[j] == m[j]);
        }
        lemma_other_windows(ctx, windows, shorter, samples, name);
        let between = devices(ctx, windows, shorter, samples).1;
        let k = m.len() - 1;
        let own = base_name(m[k].device);
        assert(own != name);
        match registry::lookup(ctx.cur, own) {
            Some(cur) => {
                let made = latency::Measurement {
                    device: own,
                    prev: registry::lookup(ctx.prev, own),
                    cur,
                    buckets: usable_buckets(samples[k], ctx.tracer),
                };
                latency::devices_do_not_mix(between, between, made, name);
            },
            None => {},
        }
    }
}

/// A mount shows the latency that is measured from the counters of its own disk: against its own
/// window, and from the buckets of the tracer where these can be read.
pub proof fn latencies_come_from_the_own_counters(
    ctx: DiskContext,
    windows: Seq<(Seq<char>, Seq<Latency>)>,
    mount: MountView,
    sample: MountSample,
)
    ensures
        ({
            let name = base_name(mount.device);
            let (shown, after) = mount_latency(ctx, windows, mount, sample);
            &&& registry::lookup(ctx.cur, name) is None ==> shown.quantiles.len() == 0 && after
                == windows
            &&& registry::lookup(ctx.cur, name) matches Some(cur) ==> {
                let prev = registry::lookup(ctx.prev, name);
                let readable = ctx.tracer.attached && ctx.tracer.histogram_fd >= 0;
                &&& readable && sample.buckets is Some ==> (shown, after) == latency::measured(
                    windows,
                    name,
                    prev,
                    cur,
                    Some(sample.buckets->0@),
                )
                &&& !readable || sample.buckets is None ==> (shown, after) == latency::measured(
                    windows,
                    name,
                    prev,
                    cur,
                    None,
                )
            }
        }),
{
}

/// The reported mounts come in the order of their lines, and lines of other mounts are left out.
pub proof fn mounts_come_in_order(lines: Seq<Seq<u8>>, line: Seq<u8>)
    ensures
        mounts_on(lines.push(line)) == match mount_line(line) {
            Some(m) => mounts_on(lines).push(m),
            None => mounts_on(lines),
        },
{
    assert(lines.push(line).drop_last() =~= lines);
}

/// Ten types of file systems are reported, and no others.
pub proof fn ten_types_are_reported(fs_type: Seq<char>)
    ensures
        is_reported(fs_type) <==> seq![
            "btrfs"@,
            "ext3"@,
            "ext4"@,
            "f2fs"@,
            "ntfs"@,
            "overlay"@,
            "tmpfs"@,
            "vfat"@,
            "xfs"@,
            "zfs"@,
        ].contains(fs_type),
{
    let all = seq![
        "btrfs"@,
        "ext3"@,
        "ext4"@,
        "f2fs"@,
        "ntfs"@,
        "overlay"@,
        "tmpfs"@,
        "vfat"@,
        "xfs"@,
        "zfs"@,
    ];
    assert(all[0] == "btrfs"@ && all[1] == "ext3"@ && all[2] == "ext4"@ && all[3] == "f2fs"@
        && all[4] == "ntfs"@ && all[5] == "overlay"@ && all[6] == "tmpfs"@ && all[7] == "vfat"@
        && all[8] == "xfs"@ && all[9] == "zfs"@);
}

} // verus!
