//! System calls: their numbers, what is handed to them, and what their results mean.
//!
//! Memory is handed to the kernel by address. Numbers are laid out as on x86-64, the only machine
//! whose call numbers are listed here.
use crate::bytes;
use crate::endian;
use vstd::prelude::*;

verus! {

pub const SYS_READ: i64 = 0;

pub const SYS_WRITE: i64 = 1;

pub const SYS_CLOSE: i64 = 3;

pub const SYS_LSEEK: i64 = 8;

pub const SYS_IOCTL: i64 = 16;

pub const SYS_PREAD64: i64 = 17;

pub const SYS_GETDENTS64: i64 = 217;

pub const SYS_OPENAT: i64 = 257;

pub const SYS_PERF_EVENT_OPEN: i64 = 298;

pub const SYS_BPF: i64 = 321;

pub const AT_FDCWD: i64 = -100;

pub const O_RDONLY: i64 = 0;

pub const O_WRONLY: i64 = 1;

pub const O_APPEND: i64 = 1024;

pub const SEEK_SET: i64 = 0;

pub const BPF_MAP_CREATE: u32 = 0;

pub const BPF_MAP_LOOKUP_ELEM: u32 = 1;

pub const BPF_MAP_UPDATE_ELEM: u32 = 2;

pub const BPF_PROG_LOAD: u32 = 5;

pub const BPF_MAP_TYPE_HASH: u32 = 1;

pub const BPF_MAP_TYPE_ARRAY: u32 = 2;

pub const BPF_PROG_TYPE_KPROBE: u32 = 1;

pub const BPF_PROG_TYPE_TRACEPOINT: u32 = 6;

pub const PERF_TYPE_TRACEPOINT: u32 = 6;

pub const PERF_FLAG_FD_CLOEXEC: i64 = 8;

pub const PERF_EVENT_IOC_ENABLE: i64 = 0x00002400;

pub const PERF_EVENT_IOC_SET_BPF: i64 = 0x40042408;

/// What a read of a file gave: the bytes, or the error number.
pub fn read_outcome<'a>(buf: &'a [u8], n: isize) -> (res: Result<&'a [u8], i32>)
    requires
        n <= buf@.len(),
        i32::MIN < n,
    ensures
        n > 0 ==> (res matches Ok(data) && data@ == buf@.take(n as int)),
        n <= 0 ==> res == Err::<&'a [u8], i32>((-n) as i32),
{
    if n > 0 {
        let data: &'a [u8] = vstd::slice::slice_subrange(buf, 0, n as usize);
        assert(data@ =~= buf@.take(n as int));
        Ok(data)
    } else {
        Err((-n) as i32)
    }
}

/// How to go on with filling a buffer.
#[derive(Debug, Clone, Copy, PartialEq, Eq, Structural)]
pub enum Progress {
    /// So many bytes are there; read on behind them.
    More(usize),
    /// So many bytes are there, and no more will come or fit.
    Full(usize),
    /// The read failed with this negative error number.
    Failed(i64),
}

/// How to go on once a read into a buffer that already holds `total` bytes gave back `n`. A failure
/// is handed on, whatever was read before it.
pub fn read_progress(total: usize, n: i64, capacity: usize) -> (res: Progress)
    requires
        total <= capacity,
        n <= capacity - total,
    ensures
        res == if n > 0 && total + n < capacity {
            Progress::More((total + n) as usize)
        } else if n >= 0 {
            Progress::Full((total + n) as usize)
        } else {
            Progress::Failed(n)
        },
{
    if n < 0 {
        return Progress::Failed(n);
    }
    if n == 0 {
        return Progress::Full(total);
    }
    let sum: usize = total + n as usize;
    if sum >= capacity {
        Progress::Full(sum)
    } else {
        Progress::More(sum)
    }
}

/// The most bytes of its path that a persistent descriptor keeps.
pub const PATH_LIMIT: usize = 64;

/// A file that was opened once and is read again and again.
pub struct PersistentFd {
    fd: i32,
    path: Vec<u8>,
}

/// How to read a file again.
#[derive(Debug, Clone, Copy, PartialEq, Eq, Structural)]
pub enum Reread {
    /// So many bytes were read through the open descriptor.
    Use(isize),
    /// The file is opened anew by its path.
    Reopen,
}

/// A positioned read.
#[derive(Debug, Clone, Copy, PartialEq, Eq, Structural)]
pub struct Pread {
    pub fd: i32,
    pub offset: u64,
}

impl PersistentFd {
    /// The descriptor.
    pub closed spec fn descriptor(&self) -> i32 {
        self.fd
    }

    /// What is kept of the path.
    pub closed spec fn kept_path(&self) -> Seq<u8> {
        self.path@
    }

    /// The file behind a path, given what opening it returned: a descriptor, or a negative error.
    pub fn open(fd: i32, path: &[u8]) -> (res: Option<Self>)
        ensures
            fd < 0 ==> res is None,
            fd >= 0 ==> (res matches Some(p) && p.descriptor() == fd && p.kept_path() == path@.take(
                if path@.len() < PATH_LIMIT {
                    path@.len() as int
                } else {
                    PATH_LIMIT as int
                },
            )),
    {
        if fd < 0 {
            return None;
        }
        let len: usize = if path.len() < PATH_LIMIT {
            path.len()
        } else {
            PATH_LIMIT
        };
        let kept: &[u8] = vstd::slice::slice_subrange(path, 0, len);
        assert(kept@ =~= path@.take(len as int));
        Some(PersistentFd { fd, path: vstd::slice::slice_to_vec(kept) })
    }

    /// How to read the file from its beginning, given what moving to its beginning and reading
    /// there returned. Some files yield nothing that way and have to be opened anew.
    pub fn reread(&self, seek: i64, read: isize) -> (res: Reread)
        ensures
            res == if seek >= 0 && read > 0 {
                Reread::Use(read)
            } else {
                Reread::Reopen
            },
    {
        if seek >= 0 && read > 0 {
            Reread::Use(read)
        } else {
            Reread::Reopen
        }
    }

    /// A read from the beginning that does not move the file position.
    pub fn pread(&self) -> (res: Pread)
        ensures
            res == (Pread { fd: self.descriptor(), offset: 0 }),
    {
        Pread { fd: self.fd, offset: 0 }
    }

    /// The descriptor.
    pub fn fd(&self) -> (res: i32)
        ensures
            res == self.descriptor(),
    {
        self.fd
    }

    /// What is kept of the path.
    pub fn path(&self) -> (res: &[u8])
        ensures
            res@ == self.kept_path(),
    {
        self.path.as_slice()
    }
}

/// The fixed part of a directory record, before its name.
#[derive(Debug, Clone, Copy, PartialEq, Eq, Structural)]
pub struct LinuxDirent64 {
    pub d_ino: u64,
    pub d_off: i64,
    pub d_reclen: u16,
    pub d_type: u8,
}

/// The fixed part that a directory record starts with.
pub open spec fn dirent(record: Seq<u8>) -> LinuxDirent64 {
    LinuxDirent64 {
        d_ino: endian::le_value(record.subrange(0, 8)) as u64,
        d_off: endian::le_value(record.subrange(8, 16)) as u64 as i64,
        d_reclen: endian::le_value(record.subrange(16, 18)) as u16,
        d_type: record[18],
    }
}

impl LinuxDirent64 {
    /// Reads the fixed part of the directory record at `at`.
    pub fn read(chunk: &[u8], at: usize) -> (res: Self)
        requires
            at + NAME_AT <= chunk@.len(),
        ensures
            res == dirent(chunk@.skip(at as int)),
    {
        let record: &[u8] = vstd::slice::slice_subrange(chunk, at, chunk.len());
        assert(record@ =~= chunk@.skip(at as int));
        let d_ino: u64 = endian::read_le(vstd::slice::slice_subrange(record, 0, 8));
        let d_off: u64 = endian::read_le(vstd::slice::slice_subrange(record, 8, 16));
        let d_reclen: u64 = endian::read_le(vstd::slice::slice_subrange(record, 16, 18));
        LinuxDirent64 {
            d_ino,
            d_off: d_off as i64,
            d_reclen: d_reclen as u16,
            d_type: record[18],
        }
    }
}

/// Where the name stands in a directory record.
pub const NAME_AT: usize = 19;

/// The bytes before the first zero.
pub open spec fn until_zero(data: Seq<u8>) -> Seq<u8> {
    data.take(bytes::find_either(data, 0, 0))
}

/// The names in a chunk of directory records. A record gives its own length; one of length zero,
/// or one that the chunk cuts off before its name, ends the chunk.
pub open spec fn entry_names(chunk: Seq<u8>) -> Seq<Seq<u8>>
    decreases chunk.len(),
{
    if chunk.len() <= NAME_AT {
        Seq::empty()
    } else {
        let reclen = dirent(chunk).d_reclen as int;
        if reclen == 0 {
            Seq::empty()
        } else if reclen < chunk.len() {
            seq![until_zero(chunk.skip(NAME_AT as int))] + entry_names(chunk.skip(reclen))
        } else {
            seq![until_zero(chunk.skip(NAME_AT as int))]
        }
    }
}

/// The names in a chunk of directory records.
pub fn split_entries<'a>(chunk: &'a [u8]) -> (res: Vec<&'a [u8]>)
    ensures
        bytes::contents(res@) == entry_names(chunk@),
{
    let mut res: Vec<&'a [u8]> = Vec::new();
    let mut offset: usize = 0;
    let mut done: bool = false;
    proof {
        assert(chunk@.skip(0) =~= chunk@);
        assert(bytes::contents(res@) + entry_names(chunk@) =~= entry_names(chunk@));
    }
    while !done && chunk.len() - offset > NAME_AT
        invariant
            0 <= offset <= chunk@.len(),
            !done ==> bytes::contents(res@) + entry_names(chunk@.skip(offset as int))
                == entry_names(chunk@),
            done ==> bytes::contents(res@) == entry_names(chunk@),
        decreases
            chunk@.len() - offset + (if done {
                0int
            } else {
                1int
            }),
    {
        let ghost rest = chunk@.skip(offset as int);
        let ghost before = bytes::contents(res@);
        let reclen: usize = LinuxDirent64::read(chunk, offset).d_reclen as usize;
        if reclen == 0 {
            done = true;
            assert(before + entry_names(rest) =~= before);
        } else {
            let start: usize = offset + NAME_AT;
            let end: usize = bytes::position_either(chunk, start, 0, 0);
            let name: &'a [u8] = vstd::slice::slice_subrange(chunk, start, end);
            res.push(name);
            proof {
                assert(rest.skip(NAME_AT as int) =~= chunk@.skip(start as int));
                assert(name@ =~= until_zero(rest.skip(NAME_AT as int)));
                assert(bytes::contents(res@) =~= before.push(name@));
            }
            if reclen < chunk.len() - offset {
                proof {
                    assert(rest.skip(reclen as int) =~= chunk@.skip(offset + reclen));
                    let tail = entry_names(chunk@.skip(offset + reclen));
                    assert(before + (seq![name@] + tail) =~= bytes::contents(res@) + tail);
                }
                offset = offset + reclen;
            } else {
                done = true;
                assert(before + seq![name@] =~= bytes::contents(res@));
            }
        }
    }
    proof {
        if !done {
            assert(bytes::contents(res@) + Seq::<Seq<u8>>::empty() =~= bytes::contents(res@));
        }
    }
    res
}

/// Whether a name is that of a directory itself or of the one above it.
pub open spec fn is_self_or_parent(name: Seq<u8>) -> bool {
    name == seq![46u8] || name == seq![46u8, 46u8]
}

/// The number of names that are neither `.` nor `..`.
pub open spec fn proper_entries(names: Seq<Seq<u8>>) -> nat
    decreases names.len(),
{
    if names.len() == 0 {
        0
    } else {
        proper_entries(names.drop_last()) + if is_self_or_parent(names.last()) {
            0nat
        } else {
            1
        }
    }
}

/// The count of entries after one more chunk of directory records; `.` and `..` do not count.
pub fn count_dir_entries(count: u64, chunk: &[u8]) -> (res: u64)
    ensures
        res as int == (count + proper_entries(entry_names(chunk@))) % 0x1_0000_0000_0000_0000,
{
    let names: Vec<&[u8]> = split_entries(chunk);
    let ghost all = entry_names(chunk@);
    let mut res: u64 = count;
    let mut i: usize = 0;
    while i < names.len()
        invariant
            0 <= i <= names@.len(),
            all == bytes::contents(names@),
            res as int == (count + proper_entries(all.take(i as int))) % 0x1_0000_0000_0000_0000,
        decreases names@.len() - i,
    {
        let name: &[u8] = names[i];
        proof {
            assert(all.take(i + 1).drop_last() =~= all.take(i as int));
            assert(all.take(i + 1).last() == name@);
            assert(name@.len() == 1 && name@[0] == 46 ==> name@ =~= seq![46u8]);
            assert(name@.len() == 2 && name@[0] == 46 && name@[1] == 46 ==> name@ =~= seq![
                46u8,
                46u8,
            ]);
        }
        let dot: bool = name.len() == 1 && name[0] == 46;
        let dots: bool = name.len() == 2 && name[0] == 46 && name[1] == 46;
        if !dot && !dots {
            res = res.wrapping_add(1);
        }
        i = i + 1;
    }
    assert(all.take(names@.len() as int) =~= all);
    res
}

/// A request to the BPF subsystem: a command and its attributes.
#[derive(Debug)]
pub struct BpfRequest {
    pub cmd: u32,
    pub attr: Vec<u8>,
}

/// Attributes for making a map.
#[derive(Debug, Clone, Copy, PartialEq, Eq, Structural)]
pub struct BpfAttrMapCreate {
    pub map_type: u32,
    pub key_size: u32,
    pub value_size: u32,
    pub max_entries: u32,
    pub map_flags: u32,
}

impl BpfAttrMapCreate {
    /// The attributes in memory.
    pub open spec fn layout(self) -> Seq<u8> {
        endian::le(self.map_type as nat, 4) + endian::le(self.key_size as nat, 4) + endian::le(
            self.value_size as nat,
            4,
        ) + endian::le(self.max_entries as nat, 4) + endian::le(self.map_flags as nat, 4)
    }

    /// The attributes in memory.
    pub fn to_bytes(&self) -> (res: Vec<u8>)
        ensures
            res@ == self.layout(),
            res@.len() == 20,
    {
        let mut buf: Vec<u8> = Vec::new();
        endian::push_le(&mut buf, self.map_type as u64, 4);
        endian::push_le(&mut buf, self.key_size as u64, 4);
        endian::push_le(&mut buf, self.value_size as u64, 4);
        endian::push_le(&mut buf, self.max_entries as u64, 4);
        endian::push_le(&mut buf, self.map_flags as u64, 4);
        proof {
            endian::lemma_lengths(self.map_type as nat, 4);
            endian::lemma_lengths(self.key_size as nat, 4);
            endian::lemma_lengths(self.value_size as nat, 4);
            endian::lemma_lengths(self.max_entries as nat, 4);
            endian::lemma_lengths(self.map_flags as nat, 4);
            assert(buf@ =~= self.layout());
        }
        buf
    }
}

impl Default for BpfAttrMapCreate {
    fn default() -> (res: Self)
        ensures
            res == (BpfAttrMapCreate {
                map_type: 0,
                key_size: 0,
                value_size: 0,
                max_entries: 0,
                map_flags: 0,
            }),
    {
        BpfAttrMapCreate { map_type: 0, key_size: 0, value_size: 0, max_entries: 0, map_flags: 0 }
    }
}

/// Attributes for reading or writing an element of a map. The key and the value are addresses.
#[derive(Debug, Clone, Copy, PartialEq, Eq, Structural)]
pub struct BpfAttrMapElem {
    pub map_fd: u32,
    pub key: u64,
    pub value_or_next: u64,
    pub flags: u64,
}

impl BpfAttrMapElem {
    /// The attributes in memory, with four bytes before the key to align it.
    pub open spec fn layout(self) -> Seq<u8> {
        endian::le(self.map_fd as nat, 8) + endian::le(self.key as nat, 8) + endian::le(
            self.value_or_next as nat,
            8,
        ) + endian::le(self.flags as nat, 8)
    }

    /// The attributes in memory.
    pub fn to_bytes(&self) -> (res: Vec<u8>)
        ensures
            res@ == self.layout(),
            res@.len() == 32,
    {
        let mut buf: Vec<u8> = Vec::new();
        endian::push_le(&mut buf, self.map_fd as u64, 8);
        endian::push_le(&mut buf, self.key, 8);
        endian::push_le(&mut buf, self.value_or_next, 8);
        endian::push_le(&mut buf, self.flags, 8);
        proof {
            endian::lemma_lengths(self.map_fd as nat, 8);
            endian::lemma_lengths(self.key as nat, 8);
            endian::lemma_lengths(self.value_or_next as nat, 8);
            endian::lemma_lengths(self.flags as nat, 8);
            assert(buf@ =~= self.layout());
        }
        buf
    }
}

/// Attributes for loading a program. Instructions, license and log are addresses.
#[derive(Debug, Clone, Copy)]
pub struct BpfAttrProgLoad {
    pub prog_type: u32,
    pub insn_cnt: u32,
    pub insns: u64,
    pub license: u64,
    pub log_level: u32,
    pub log_size: u32,
    pub log_buf: u64,
    pub kern_version: u32,
    pub prog_flags: u32,
    pub prog_name: [u8; 16],
    pub prog_ifindex: u32,
    pub expected_attach_type: u32,
}

impl Default for BpfAttrProgLoad {
    fn default() -> (res: Self)
        ensures
            res.layout() == zeros(72),
            res.prog_name@ == zeros(16),
    {
        let res = BpfAttrProgLoad {
            prog_type: 0,
            insn_cnt: 0,
            insns: 0,
            license: 0,
            log_level: 0,
            log_size: 0,
            log_buf: 0,
            kern_version: 0,
            prog_flags: 0,
            prog_name: [0u8;16],
            prog_ifindex: 0,
            expected_attach_type: 0,
        };
        proof {
            lemma_le_zero(4);
            lemma_le_zero(8);
            assert(res.prog_name@ =~= zeros(16));
            assert(res.layout() =~= zeros(72));
        }
        res
    }
}

proof fn lemma_le_zero(len: nat)
    ensures
        endian::le(0, len) == zeros(len),
    decreases len,
{
    if len > 0 {
        lemma_le_zero((len - 1) as nat);
    }
    assert(endian::le(0, len) =~= zeros(len));
}

impl BpfAttrProgLoad {
    /// The attributes in memory.
    pub open spec fn layout(self) -> Seq<u8> {
        endian::le(self.prog_type as nat, 4) + endian::le(self.insn_cnt as nat, 4) + endian::le(
            self.insns as nat,
            8,
        ) + endian::le(self.license as nat, 8) + endian::le(self.log_level as nat, 4) + endian::le(
            self.log_size as nat,
            4,
        ) + endian::le(self.log_buf as nat, 8) + endian::le(self.kern_version as nat, 4)
            + endian::le(self.prog_flags as nat, 4) + self.prog_name@ + endian::le(
            self.prog_ifindex as nat,
            4,
        ) + endian::le(self.expected_attach_type as nat, 4)
    }

    /// The attributes in memory.
    pub fn to_bytes(&self) -> (res: Vec<u8>)
        ensures
            res@ == self.layout(),
            res@.len() == 72,
    {
        let mut buf: Vec<u8> = Vec::new();
        endian::push_le(&mut buf, self.prog_type as u64, 4);
        endian::push_le(&mut buf, self.insn_cnt as u64, 4);
        endian::push_le(&mut buf, self.insns, 8);
        endian::push_le(&mut buf, self.license, 8);
        endian::push_le(&mut buf, self.log_level as u64, 4);
        endian::push_le(&mut buf, self.log_size as u64, 4);
        endian::push_le(&mut buf, self.log_buf, 8);
        endian::push_le(&mut buf, self.kern_version as u64, 4);
        endian::push_le(&mut buf, self.prog_flags as u64, 4);
        buf.extend_from_slice(self.prog_name.as_slice());
        endian::push_le(&mut buf, self.prog_ifindex as u64, 4);
        endian::push_le(&mut buf, self.expected_attach_type as u64, 4);
        proof {
            endian::lemma_lengths(self.prog_type as nat, 4);
            endian::lemma_lengths(self.insn_cnt as nat, 4);
            endian::lemma_lengths(self.insns as nat, 8);
            endian::lemma_lengths(self.license as nat, 8);
            endian::lemma_lengths(self.log_level as nat, 4);
            endian::lemma_lengths(self.log_size as nat, 4);
            endian::lemma_lengths(self.log_buf as nat, 8);
            endian::lemma_lengths(self.kern_version as nat, 4);
            endian::lemma_lengths(self.prog_flags as nat, 4);
            endian::lemma_lengths(self.prog_ifindex as nat, 4);
            endian::lemma_lengths(self.expected_attach_type as nat, 4);
            assert(buf@ =~= self.layout());
        }
        buf
    }
}

/// So many zero bytes.
pub open spec fn zeros(len: nat) -> Seq<u8> {
    Seq::new(len, |i: int| 0u8)
}

fn push_zeros(buf: &mut Vec<u8>, len: usize)
    ensures
        final(buf)@ == old(buf)@ + zeros(len as nat),
{
    let mut i: usize = 0;
    assert(buf@ + zeros(0) =~= buf@);
    while i < len
        invariant
            0 <= i <= len,
            buf@ == old(buf)@ + zeros(i as nat),
        decreases len - i,
    {
        buf.push(0);
        i = i + 1;
        assert(buf@ =~= old(buf)@ + zeros(i as nat));
    }
}

/// The request that makes a map.
pub fn bpf_map_create(map_type: u32, key_size: u32, value_size: u32, max_entries: u32) -> (res:
    BpfRequest)
    ensures
        res.cmd == BPF_MAP_CREATE,
        res.attr@ == (BpfAttrMapCreate {
            map_type,
            key_size,
            value_size,
            max_entries,
            map_flags: 0,
        }).layout(),
{
    let attr = BpfAttrMapCreate { map_type, key_size, value_size, max_entries, map_flags: 0 };
    BpfRequest { cmd: BPF_MAP_CREATE, attr: attr.to_bytes() }
}

/// The request that reads an element of a map.
pub fn bpf_map_lookup(map_fd: i32, key: u64, value: u64) -> (res: BpfRequest)
    ensures
        res.cmd == BPF_MAP_LOOKUP_ELEM,
        res.attr@ == (BpfAttrMapElem {
            map_fd: map_fd as u32,
            key,
            value_or_next: value,
            flags: 0,
        }).layout(),
{
    let attr = BpfAttrMapElem { map_fd: map_fd as u32, key, value_or_next: value, flags: 0 };
    BpfRequest { cmd: BPF_MAP_LOOKUP_ELEM, attr: attr.to_bytes() }
}

/// The request that writes an element of a map.
pub fn bpf_map_update(map_fd: i32, key: u64, value: u64, flags: u64) -> (res: BpfRequest)
    ensures
        res.cmd == BPF_MAP_UPDATE_ELEM,
        res.attr@ == (BpfAttrMapElem {
            map_fd: map_fd as u32,
            key,
            value_or_next: value,
            flags,
        }).layout(),
{
    let attr = BpfAttrMapElem { map_fd: map_fd as u32, key, value_or_next: value, flags };
    BpfRequest { cmd: BPF_MAP_UPDATE_ELEM, attr: attr.to_bytes() }
}

/// The attributes, in memory, for loading a program about which nothing else is said.
pub open spec fn prog_load_layout(prog_type: u32, insns: u64, insn_cnt: usize, license: u64) -> Seq<
    u8,
> {
    endian::le(prog_type as nat, 4) + endian::le(insn_cnt as u32 as nat, 4) + endian::le(
        insns as nat,
        8,
    ) + endian::le(license as nat, 8) + zeros(48)
}

/// The request that loads a program: the address and the number of its instructions, and the
/// address of its license.
pub fn bpf_prog_load(prog_type: u32, insns: u64, insn_cnt: usize, license: u64) -> (res: BpfRequest)
    ensures
        res.cmd == BPF_PROG_LOAD,
        res.attr@ == prog_load_layout(prog_type, insns, insn_cnt, license),
{
    let attr = BpfAttrProgLoad {
        prog_type,
        insn_cnt: insn_cnt as u32,
        insns,
        license,
        log_level: 0,
        log_size: 0,
        log_buf: 0,
        kern_version: 0,
        prog_flags: 0,
        prog_name: [0u8;16],
        prog_ifindex: 0,
        expected_attach_type: 0,
    };
    proof {
        lemma_le_zero(4);
        lemma_le_zero(8);
        endian::lemma_lengths(prog_type as nat, 4);
        endian::lemma_lengths(insn_cnt as u32 as nat, 4);
        endian::lemma_lengths(insns as nat, 8);
        endian::lemma_lengths(license as nat, 8);
        assert(attr.prog_name@ =~= zeros(16));
        assert(attr.layout() =~= prog_load_layout(prog_type, insns, insn_cnt, license));
    }
    BpfRequest { cmd: BPF_PROG_LOAD, attr: attr.to_bytes() }
}

/// The bytes in the attributes of a performance event.
pub const PERF_ATTR_SIZE: u32 = 112;

/// The attributes, in memory, of a performance event for every hit of a tracepoint.
pub open spec fn perf_attr_layout(event_id: u64) -> Seq<u8> {
    endian::le(PERF_TYPE_TRACEPOINT as nat, 4) + endian::le(PERF_ATTR_SIZE as nat, 4) + endian::le(
        event_id as nat,
        8,
    ) + endian::le(1, 8) + zeros(88)
}

/// The attributes of a performance event for every hit of a tracepoint.
pub fn perf_attr(event_id: u64) -> (res: Vec<u8>)
    ensures
        res@ == perf_attr_layout(event_id),
        res@.len() == PERF_ATTR_SIZE,
{
    let mut buf: Vec<u8> = Vec::new();
    endian::push_le(&mut buf, PERF_TYPE_TRACEPOINT as u64, 4);
    endian::push_le(&mut buf, PERF_ATTR_SIZE as u64, 4);
    endian::push_le(&mut buf, event_id, 8);
    endian::push_le(&mut buf, 1, 8);
    push_zeros(&mut buf, 88);
    proof {
        endian::lemma_lengths(PERF_TYPE_TRACEPOINT as nat, 4);
        endian::lemma_lengths(PERF_ATTR_SIZE as nat, 4);
        endian::lemma_lengths(event_id as nat, 8);
        endian::lemma_lengths(1, 8);
        assert(buf@ =~= perf_attr_layout(event_id));
    }
    buf
}

/// The number that stands in some bytes, least significant byte first.
pub open spec fn number_at(data: Seq<u8>, from: int, to: int) -> nat {
    endian::le_value(data.subrange(from, to))
}

/// Every attribute of a map stands in its place.
pub proof fn map_attributes_are_in_place(a: BpfAttrMapCreate)
    ensures
        a.layout().len() == 20,
        number_at(a.layout(), 0, 4) == a.map_type,
        number_at(a.layout(), 4, 8) == a.key_size,
        number_at(a.layout(), 8, 12) == a.value_size,
        number_at(a.layout(), 12, 16) == a.max_entries,
        number_at(a.layout(), 16, 20) == a.map_flags,
{
    endian::words_are_read_back(a.map_type, 0);
    endian::words_are_read_back(a.key_size, 0);
    endian::words_are_read_back(a.value_size, 0);
    endian::words_are_read_back(a.max_entries, 0);
    endian::words_are_read_back(a.map_flags, 0);
    let t = a.layout();
    assert(t.subrange(0, 4) =~= endian::le(a.map_type as nat, 4));
    assert(t.subrange(4, 8) =~= endian::le(a.key_size as nat, 4));
    assert(t.subrange(8, 12) =~= endian::le(a.value_size as nat, 4));
    assert(t.subrange(12, 16) =~= endian::le(a.max_entries as nat, 4));
    assert(t.subrange(16, 20) =~= endian::le(a.map_flags as nat, 4));
}

/// Every attribute of an element stands in its place; behind the descriptor are four zero bytes.
pub proof fn element_attributes_are_in_place(a: BpfAttrMapElem)
    ensures
        a.layout().len() == 32,
        number_at(a.layout(), 0, 8) == a.map_fd,
        number_at(a.layout(), 8, 16) == a.key,
        number_at(a.layout(), 16, 24) == a.value_or_next,
        number_at(a.layout(), 24, 32) == a.flags,
{
    endian::words_are_read_back(0, a.map_fd as u64);
    endian::words_are_read_back(0, a.key);
    endian::words_are_read_back(0, a.value_or_next);
    endian::words_are_read_back(0, a.flags);
    let t = a.layout();
    assert(t.subrange(0, 8) =~= endian::le(a.map_fd as nat, 8));
    assert(t.subrange(8, 16) =~= endian::le(a.key as nat, 8));
    assert(t.subrange(16, 24) =~= endian::le(a.value_or_next as nat, 8));
    assert(t.subrange(24, 32) =~= endian::le(a.flags as nat, 8));
}

/// The attributes for loading a program say its type, how many instructions it has and where, and
/// where its license is; all others are zero.
pub proof fn program_attributes_are_in_place(prog_type: u32, insns: u64, insn_cnt: usize, license: u64)
    requires
        insn_cnt <= u32::MAX,
    ensures
        ({
            let t = prog_load_layout(prog_type, insns, insn_cnt, license);
            &&& t.len() == 72
            &&& number_at(t, 0, 4) == prog_type
            &&& number_at(t, 4, 8) == insn_cnt
            &&& number_at(t, 8, 16) == insns
            &&& number_at(t, 16, 24) == license
            &&& forall|i: int| 24 <= i < 72 ==> #[trigger] t[i] == 0
        }),
{
    endian::words_are_read_back(prog_type, insns);
    endian::words_are_read_back(insn_cnt as u32, license);
    let t = prog_load_layout(prog_type, insns, insn_cnt, license);
    assert(t.subrange(0, 4) =~= endian::le(prog_type as nat, 4));
    assert(t.subrange(4, 8) =~= endian::le(insn_cnt as u32 as nat, 4));
    assert(t.subrange(8, 16) =~= endian::le(insns as nat, 8));
    assert(t.subrange(16, 24) =~= endian::le(license as nat, 8));
}

/// The attributes of an event say that it is a tracepoint, how long they are, which one it is, and
/// that every hit counts; all others are zero.
pub proof fn event_attributes_are_in_place(event_id: u64)
    ensures
        ({
            let t = perf_attr_layout(event_id);
            &&& t.len() == 112
            &&& number_at(t, 0, 4) == 6
            &&& number_at(t, 4, 8) == 112
            &&& number_at(t, 8, 16) == event_id
            &&& number_at(t, 16, 24) == 1
            &&& forall|i: int| 24 <= i < 112 ==> #[trigger] t[i] == 0
        }),
{
    endian::words_are_read_back(PERF_TYPE_TRACEPOINT, event_id);
    endian::words_are_read_back(PERF_ATTR_SIZE, 1);
    let t = perf_attr_layout(event_id);
    assert(t.subrange(0, 4) =~= endian::le(PERF_TYPE_TRACEPOINT as nat, 4));
    assert(t.subrange(4, 8) =~= endian::le(PERF_ATTR_SIZE as nat, 4));
    assert(t.subrange(8, 16) =~= endian::le(event_id as nat, 8));
    assert(t.subrange(16, 24) =~= endian::le(1, 8));
}

/// A directory record: two numbers, its length, a type, the name with a zero behind it, and
/// whatever fills it up.
pub open spec fn record(
    numbers: Seq<u8>,
    kind: u8,
    name: Seq<u8>,
    fill: Seq<u8>,
) -> Seq<u8> {
    let len = 20 + name.len() + fill.len();
    numbers + endian::le(len as nat, 2) + seq![kind] + name + seq![0u8] + fill
}

/// The names that the kernel writes into directory records are read back, one after the other.
pub proof fn entries_are_read_back(
    numbers: Seq<u8>,
    kind: u8,
    name: Seq<u8>,
    fill: Seq<u8>,
    rest: Seq<u8>,
)
    requires
        numbers.len() == 16,
        name.len() + fill.len() < 65_000,
        forall|i: int| 0 <= i < name.len() ==> #[trigger] name[i] != 0,
    ensures
        entry_names(record(numbers, kind, name, fill) + rest) == seq![name] + entry_names(rest),
        entry_names(Seq::<u8>::empty()) == Seq::<Seq<u8>>::empty(),
{
    let len = (20 + name.len() + fill.len()) as nat;
    assert(endian::byte_range(2) == 65_536) by {
        reveal_with_fuel(endian::byte_range, 3);
    }
    endian::lemma_lengths(len, 2);
    endian::bytes_read_back(len, 2);
    let chunk = record(numbers, kind, name, fill) + rest;
    assert(chunk.subrange(16, 18) =~= endian::le(len, 2));
    let behind = chunk.skip(19);
    assert(behind =~= name + seq![0u8] + fill + rest);
    bytes::lemma_find_either(behind, 0, 0);
    let at = bytes::find_either(behind, 0, 0);
    assert(behind[name.len() as int] == 0);
    assert(at == name.len()) by {
        if at < name.len() {
            assert(behind[at] == name[at]);
        }
    }
    assert(until_zero(behind) =~= name);
    if rest.len() > 0 {
        assert(chunk.skip(len as int) =~= rest);
    } else {
        assert(seq![name] + entry_names(rest) =~= seq![name]);
    }
}

/// All entries of a directory count but itself and the one above it.
pub proof fn entries_count(names: Seq<Seq<u8>>, name: Seq<u8>)
    ensures
        proper_entries(Seq::empty()) == 0,
        name == seq![46u8] || name == seq![46u8, 46u8] ==> proper_entries(names.push(name))
            == proper_entries(names),
        name != seq![46u8] && name != seq![46u8, 46u8] ==> proper_entries(names.push(name))
            == proper_entries(names) + 1,
{
    assert(names.push(name).drop_last() =~= names);
}

/// Every attribute for loading a program stands in its place.
pub proof fn load_attributes_are_in_place(a: BpfAttrProgLoad)
    ensures
        ({
            let t = a.layout();
            &&& t.len() == 72
            &&& number_at(t, 0, 4) == a.prog_type
            &&& number_at(t, 4, 8) == a.insn_cnt
            &&& number_at(t, 8, 16) == a.insns
            &&& number_at(t, 16, 24) == a.license
            &&& number_at(t, 24, 28) == a.log_level
            &&& number_at(t, 28, 32) == a.log_size
            &&& number_at(t, 32, 40) == a.log_buf
            &&& number_at(t, 40, 44) == a.kern_version
            &&& number_at(t, 44, 48) == a.prog_flags
            &&& t.subrange(48, 64) == a.prog_name@
            &&& number_at(t, 64, 68) == a.prog_ifindex
            &&& number_at(t, 68, 72) == a.expected_attach_type
        }),
{
    endian::words_are_read_back(a.prog_type, a.insns);
    endian::words_are_read_back(a.insn_cnt, a.license);
    endian::words_are_read_back(a.log_level, a.log_buf);
    endian::words_are_read_back(a.log_size, 0);
    endian::words_are_read_back(a.kern_version, 0);
    endian::words_are_read_back(a.prog_flags, 0);
    endian::words_are_read_back(a.prog_ifindex, 0);
    endian::words_are_read_back(a.expected_attach_type, 0);
    let t = a.layout();
    assert(t.subrange(0, 4) =~= endian::le(a.prog_type as nat, 4));
    assert(t.subrange(4, 8) =~= endian::le(a.insn_cnt as nat, 4));
    assert(t.subrange(8, 16) =~= endian::le(a.insns as nat, 8));
    assert(t.subrange(16, 24) =~= endian::le(a.license as nat, 8));
    assert(t.subrange(24, 28) =~= endian::le(a.log_level as nat, 4));
    assert(t.subrange(28, 32) =~= endian::le(a.log_size as nat, 4));
    assert(t.subrange(32, 40) =~= endian::le(a.log_buf as nat, 8));
    assert(t.subrange(40, 44) =~= endian::le(a.kern_version as nat, 4));
    assert(t.subrange(44, 48) =~= endian::le(a.prog_flags as nat, 4));
    assert(t.subrange(48, 64) =~= a.prog_name@);
    assert(t.subrange(64, 68) =~= endian::le(a.prog_ifindex as nat, 4));
    assert(t.subrange(68, 72) =~= endian::le(a.expected_attach_type as nat, 4));
}

} // verus!
