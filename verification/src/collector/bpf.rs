//! The BPF programs that trace disk requests, and the steps that attach them.
//!
//! One program notes when a request starts. The other one, when the request is done, finds out how
//! long it took and counts it in a bucket.
use crate::collector::bpf_machine;
use crate::collector::bpf_machine::Insn;
use crate::collector::latency;
use crate::collector::latency::TracerHandles;
use crate::platform::linux::syscall;
use vstd::arithmetic::div_mod::*;
use vstd::prelude::*;

verus! {

/// An instruction: the operation, the destination and source registers, an offset and an immediate
/// value, from the least significant bit on.
pub open spec fn insn(opcode: u8, dst: u8, src: u8, off: int, imm: int) -> u64 {
    (opcode + (dst % 16) * 0x100 + (src % 16) * 0x1000 + (off % 0x1_0000) * 0x1_0000 + (imm
        % 0x1_0000_0000) * 0x1_0000_0000) as u64
}

/// Encodes an instruction; negative offsets and values are in two's complement.
pub fn bpf_insn(opcode: u8, dst: u8, src: u8, off: i16, imm: i32) -> (res: u64)
    ensures
        res == insn(opcode, dst, src, off as int, imm as int),
{
    let off_bits: u64 = if off < 0 {
        (off as i64 + 0x1_0000) as u64
    } else {
        off as u64
    };
    let imm_bits: u64 = if imm < 0 {
        (imm as i64 + 0x1_0000_0000) as u64
    } else {
        imm as u64
    };
    opcode as u64 + (dst % 16) as u64 * 0x100 + (src % 16) as u64 * 0x1000 + off_bits * 0x1_0000
        + imm_bits * 0x1_0000_0000
}

/// The word for an instruction.
pub open spec fn word(i: Insn) -> u64 {
    insn(i.opcode, i.dst, i.src, i.off, i.imm)
}

/// All parts of an instruction can be read off its word.
pub proof fn words_hold_their_parts(i: Insn)
    requires
        i.dst < 16,
        i.src < 16,
        -0x8000 <= i.off < 0x8000,
        -0x8000_0000 <= i.imm < 0x8000_0000,
    ensures
        word(i) % 0x100 == i.opcode,
        (word(i) / 0x100) % 16 == i.dst,
        (word(i) / 0x1000) % 16 == i.src,
        (word(i) / 0x1_0000) % 0x1_0000 == i.off % 0x1_0000,
        word(i) / 0x1_0000_0000 == i.imm % 0x1_0000_0000,
{
    let w = word(i) as int;
    let (a, b, c) = (i.opcode as int, i.dst as int, i.src as int);
    let (d, e) = (i.off % 0x1_0000, i.imm % 0x1_0000_0000);
    assert(w == a + b * 0x100 + c * 0x1000 + d * 0x1_0000 + e * 0x1_0000_0000);
    let q1 = b + 16 * c + 0x100 * d + 0x100_0000 * e;
    let q2 = c + 16 * d + 0x10_0000 * e;
    let q3 = d + 0x1_0000 * e;
    lemma_fundamental_div_mod_converse(w, 0x100, q1, a);
    lemma_fundamental_div_mod_converse(w, 0x1000, q2, a + 0x100 * b);
    lemma_fundamental_div_mod_converse(w, 0x1_0000, q3, a + 0x100 * b + 0x1000 * c);
    lemma_fundamental_div_mod_converse(
        w,
        0x1_0000_0000,
        e,
        a + 0x100 * b + 0x1000 * c + 0x1_0000 * d,
    );
    lemma_fundamental_div_mod_converse(q1, 16, c + 16 * d + 0x10_0000 * e, b);
    lemma_fundamental_div_mod_converse(q2, 16, d + 0x1_0000 * e, c);
    lemma_fundamental_div_mod_converse(q3, 0x1_0000, e, d);
}

/// The words for some instructions.
pub open spec fn encoded(instructions: Seq<Insn>) -> Seq<u64> {
    Seq::new(instructions.len(), |i: int| word(instructions[i]))
}

/// The program for the start of a request: it stores the time under the address of the request. The
/// address is fetched first, as no helper leaves the context where it is handed in.
pub open spec fn start_program(start_map_fd: i32) -> Seq<Insn> {
    seq![
        bpf_machine::op(0x79, 7, 1, 112, 0),
        bpf_machine::op(0x85, 0, 0, 0, 5),
        bpf_machine::op(0xbf, 6, 0, 0, 0),
        bpf_machine::op(0x7b, 10, 7, -8, 0),
        bpf_machine::op(0x7b, 10, 6, -16, 0),
        bpf_machine::op(0x18, 1, 1, 0, start_map_fd as int),
        bpf_machine::op(0x00, 0, 0, 0, 0),
        bpf_machine::op(0xbf, 2, 10, 0, 0),
        bpf_machine::op(0x07, 2, 0, 0, -8),
        bpf_machine::op(0xbf, 3, 10, 0, 0),
        bpf_machine::op(0x07, 3, 0, 0, -16),
        bpf_machine::op(0xb7, 4, 0, 0, 0),
        bpf_machine::op(0x85, 0, 0, 0, 2),
        bpf_machine::op(0xb7, 0, 0, 0, 0),
        bpf_machine::op(0x95, 0, 0, 0, 0),
    ]
}

/// The first part of the program for the end of a request: it looks up the time of the start, and
/// goes to the end where there is none.
pub open spec fn done_lookup(start_map_fd: i32) -> Seq<Insn> {
    seq![
        bpf_machine::op(0x79, 7, 1, 112, 0),
        bpf_machine::op(0x85, 0, 0, 0, 5),
        bpf_machine::op(0xbf, 6, 0, 0, 0),
        bpf_machine::op(0x7b, 10, 7, -8, 0),
        bpf_machine::op(0x18, 1, 1, 0, start_map_fd as int),
        bpf_machine::op(0x00, 0, 0, 0, 0),
        bpf_machine::op(0xbf, 2, 10, 0, 0),
        bpf_machine::op(0x07, 2, 0, 0, -8),
        bpf_machine::op(0x85, 0, 0, 0, 1),
        bpf_machine::op(0x15, 0, 0, 28, 0),
    ]
}

/// The second part: the microseconds since, and the bucket for them. The loop halves the
/// microseconds until nothing is left.
pub open spec fn done_bucket() -> Seq<Insn> {
    seq![
        bpf_machine::op(0x79, 8, 0, 0, 0),
        bpf_machine::op(0xbf, 9, 6, 0, 0),
        bpf_machine::op(0x1f, 9, 8, 0, 0),
        bpf_machine::op(0x37, 9, 0, 0, 1000),
        bpf_machine::op(0xb7, 1, 0, 0, 0),
        bpf_machine::op(0xbf, 2, 9, 0, 0),
        bpf_machine::op(0x77, 2, 0, 0, 1),
        bpf_machine::op(0x15, 2, 0, 2, 0),
        bpf_machine::op(0x07, 1, 0, 0, 1),
        bpf_machine::op(0x05, 0, 0, -4, 0),
        bpf_machine::op(0xb7, 2, 0, 0, 63),
        bpf_machine::op(0x2d, 1, 2, 1, 0),
        bpf_machine::op(0x05, 0, 0, 1, 0),
        bpf_machine::op(0xbf, 1, 2, 0, 0),
        bpf_machine::op(0x63, 10, 1, -24, 0),
    ]
}

/// The third part: one more in the bucket, added as one operation.
pub open spec fn done_count(hist_map_fd: i32) -> Seq<Insn> {
    seq![
        bpf_machine::op(0x18, 1, 1, 0, hist_map_fd as int),
        bpf_machine::op(0x00, 0, 0, 0, 0),
        bpf_machine::op(0xbf, 2, 10, 0, 0),
        bpf_machine::op(0x07, 2, 0, 0, -24),
        bpf_machine::op(0x85, 0, 0, 0, 1),
        bpf_machine::op(0x15, 0, 0, 2, 0),
        bpf_machine::op(0xb7, 1, 0, 0, 1),
        bpf_machine::op(0xdb, 0, 1, 0, 0),
    ]
}

/// The last part: the time of the start is deleted.
pub open spec fn done_delete(start_map_fd: i32) -> Seq<Insn> {
    seq![
        bpf_machine::op(0x18, 1, 1, 0, start_map_fd as int),
        bpf_machine::op(0x00, 0, 0, 0, 0),
        bpf_machine::op(0xbf, 2, 10, 0, 0),
        bpf_machine::op(0x07, 2, 0, 0, -8),
        bpf_machine::op(0x85, 0, 0, 0, 3),
        bpf_machine::op(0xb7, 0, 0, 0, 0),
        bpf_machine::op(0x95, 0, 0, 0, 0),
    ]
}

/// The program for the end of a request.
pub open spec fn done_program(start_map_fd: i32, hist_map_fd: i32) -> Seq<Insn> {
    done_lookup(start_map_fd) + done_bucket() + done_count(hist_map_fd) + done_delete(start_map_fd)
}

/// The program for the start of a request.
pub fn build_start_prog(start_map_fd: i32) -> (res: Vec<u64>)
    ensures
        res@ == encoded(start_program(start_map_fd)),
{
    let prog: Vec<u64> = vec![
        bpf_insn(0x79, 7, 1, 112, 0),
        bpf_insn(0x85, 0, 0, 0, 5),
        bpf_insn(0xbf, 6, 0, 0, 0),
        bpf_insn(0x7b, 10, 7, -8, 0),
        bpf_insn(0x7b, 10, 6, -16, 0),
        bpf_insn(0x18, 1, 1, 0, start_map_fd),
        bpf_insn(0x00, 0, 0, 0, 0),
        bpf_insn(0xbf, 2, 10, 0, 0),
        bpf_insn(0x07, 2, 0, 0, -8),
        bpf_insn(0xbf, 3, 10, 0, 0),
        bpf_insn(0x07, 3, 0, 0, -16),
        bpf_insn(0xb7, 4, 0, 0, 0),
        bpf_insn(0x85, 0, 0, 0, 2),
        bpf_insn(0xb7, 0, 0, 0, 0),
        bpf_insn(0x95, 0, 0, 0, 0),
    ];
    assert(prog@ =~= encoded(start_program(start_map_fd)));
    prog
}

fn build_done_lookup(start_map_fd: i32) -> (res: Vec<u64>)
    ensures
        res@ == encoded(done_lookup(start_map_fd)),
{
    let prog: Vec<u64> = vec![
        bpf_insn(0x79, 7, 1, 112, 0),
        bpf_insn(0x85, 0, 0, 0, 5),
        bpf_insn(0xbf, 6, 0, 0, 0),
        bpf_insn(0x7b, 10, 7, -8, 0),
        bpf_insn(0x18, 1, 1, 0, start_map_fd),
        bpf_insn(0x00, 0, 0, 0, 0),
        bpf_insn(0xbf, 2, 10, 0, 0),
        bpf_insn(0x07, 2, 0, 0, -8),
        bpf_insn(0x85, 0, 0, 0, 1),
        bpf_insn(0x15, 0, 0, 28, 0),
    ];
    assert(prog@ =~= encoded(done_lookup(start_map_fd)));
    prog
}

fn build_done_bucket() -> (res: Vec<u64>)
    ensures
        res@ == encoded(done_bucket()),
{
    let prog: Vec<u64> = vec![
        bpf_insn(0x79, 8, 0, 0, 0),
        bpf_insn(0xbf, 9, 6, 0, 0),
        bpf_insn(0x1f, 9, 8, 0, 0),
        bpf_insn(0x37, 9, 0, 0, 1000),
        bpf_insn(0xb7, 1, 0, 0, 0),
        bpf_insn(0xbf, 2, 9, 0, 0),
        bpf_insn(0x77, 2, 0, 0, 1),
        bpf_insn(0x15, 2, 0, 2, 0),
        bpf_insn(0x07, 1, 0, 0, 1),
        bpf_insn(0x05, 0, 0, -4, 0),
        bpf_insn(0xb7, 2, 0, 0, 63),
        bpf_insn(0x2d, 1, 2, 1, 0),
        bpf_insn(0x05, 0, 0, 1, 0),
        bpf_insn(0xbf, 1, 2, 0, 0),
        bpf_insn(0x63, 10, 1, -24, 0),
    ];
    assert(prog@ =~= encoded(done_bucket()));
    prog
}

fn build_done_count(hist_map_fd: i32) -> (res: Vec<u64>)
    ensures
        res@ == encoded(done_count(hist_map_fd)),
{
    let prog: Vec<u64> = vec![
        bpf_insn(0x18, 1, 1, 0, hist_map_fd),
        bpf_insn(0x00, 0, 0, 0, 0),
        bpf_insn(0xbf, 2, 10, 0, 0),
        bpf_insn(0x07, 2, 0, 0, -24),
        bpf_insn(0x85, 0, 0, 0, 1),
        bpf_insn(0x15, 0, 0, 2, 0),
        bpf_insn(0xb7, 1, 0, 0, 1),
        bpf_insn(0xdb, 0, 1, 0, 0),
    ];
    assert(prog@ =~= encoded(done_count(hist_map_fd)));
    prog
}

fn build_done_delete(start_map_fd: i32) -> (res: Vec<u64>)
    ensures
        res@ == encoded(done_delete(start_map_fd)),
{
    let prog: Vec<u64> = vec![
        bpf_insn(0x18, 1, 1, 0, start_map_fd),
        bpf_insn(0x00, 0, 0, 0, 0),
        bpf_insn(0xbf, 2, 10, 0, 0),
        bpf_insn(0x07, 2, 0, 0, -8),
        bpf_insn(0x85, 0, 0, 0, 3),
        bpf_insn(0xb7, 0, 0, 0, 0),
        bpf_insn(0x95, 0, 0, 0, 0),
    ];
    assert(prog@ =~= encoded(done_delete(start_map_fd)));
    prog
}

/// The program for the end of a request.
pub fn build_done_prog(start_map_fd: i32, hist_map_fd: i32) -> (res: Vec<u64>)
    ensures
        res@ == encoded(done_program(start_map_fd, hist_map_fd)),
{
    let mut prog: Vec<u64> = build_done_lookup(start_map_fd);
    let mut part: Vec<u64> = build_done_bucket();
    prog.append(&mut part);
    part = build_done_count(hist_map_fd);
    prog.append(&mut part);
    part = build_done_delete(start_map_fd);
    prog.append(&mut part);
    assert(prog@ =~= encoded(done_program(start_map_fd, hist_map_fd)));
    prog
}

/// The license under which the programs are loaded, ended by a zero byte.
pub const LICENSE: &'static str = "GPL\0";

/// No descriptor.
pub const NO_FD: i32 = -1;

/// The descriptors that attaching the tracer has produced so far.
#[derive(Debug, Clone, Copy, PartialEq, Eq, Structural)]
pub struct Descriptors {
    pub hist: i32,
    pub start: i32,
    pub start_prog: i32,
    pub done_prog: i32,
}

/// How far attaching the tracer has come.
#[derive(Debug, Clone, Copy, PartialEq, Eq, Structural)]
pub enum Stage {
    /// The map with the buckets is to be made.
    CreateHistogram,
    /// The map with the start times is to be made.
    CreateStartMap { hist: i32 },
    /// The program for the start of a request is to be loaded.
    LoadStart { hist: i32, start: i32 },
    /// The program for the end of a request is to be loaded.
    LoadDone { hist: i32, start: i32, start_prog: i32 },
    /// The first program is to be attached.
    AttachStart { fds: Descriptors },
    /// The second program is to be attached.
    AttachDone { fds: Descriptors, start_event: i32 },
    /// The first program is to be attached to the function under its other name.
    AttachStartAgain { fds: Descriptors, done_event: i32 },
    /// The second program is to be attached to the function under its other name.
    AttachDoneAgain { fds: Descriptors, start_event: i32 },
    /// Nothing is left but to close some descriptors.
    Done { handles: TracerHandles, close: Unneeded },
}

/// The descriptors that are no longer needed, in the order in which they are closed.
#[derive(Debug, Clone, Copy, PartialEq, Eq, Structural)]
pub enum Unneeded {
    Nothing,
    One(i32),
    Two(i32, i32),
    Three(i32, i32, i32),
}

/// The next step of attaching the tracer.
#[derive(Debug)]
pub enum Step {
    /// Makes a map.
    CreateMap { map_type: u32, key_size: u32, value_size: u32, max_entries: u32 },
    /// Loads a program.
    Load { prog_type: u32, program: Vec<u64>, license: &'static str },
    /// Attaches a program to a kernel function.
    Attach { prog_fd: i32, function: &'static str, is_return: bool },
    /// Closes what is no longer needed; the tracer is as far as it gets.
    Finish { handles: TracerHandles, close: Unneeded },
}

#[verifier::ext_equal]
pub enum StepView {
    CreateMap { map_type: u32, key_size: u32, value_size: u32, max_entries: u32 },
    Load { prog_type: u32, program: Seq<u64>, license: Seq<char> },
    Attach { prog_fd: i32, function: Seq<char>, is_return: bool },
    Finish { handles: TracerHandles, close: Unneeded },
}

impl View for Step {
    type V = StepView;

    open spec fn view(&self) -> StepView {
        match self {
            Step::CreateMap { map_type, key_size, value_size, max_entries } => StepView::CreateMap {
                map_type: *map_type,
                key_size: *key_size,
                value_size: *value_size,
                max_entries: *max_entries,
            },
            Step::Load { prog_type, program, license } => StepView::Load {
                prog_type: *prog_type,
                program: program@,
                license: license@,
            },
            Step::Attach { prog_fd, function, is_return } => StepView::Attach {
                prog_fd: *prog_fd,
                function: function@,
                is_return: *is_return,
            },
            Step::Finish { handles, close } => StepView::Finish {
                handles: *handles,
                close: *close,
            },
        }
    }
}

/// No tracer.
pub open spec fn no_tracer() -> TracerHandles {
    TracerHandles { histogram_fd: NO_FD, start_map_fd: NO_FD, attached: false }
}

/// The maps of a tracer.
pub open spec fn with_maps(fds: Descriptors, attached: bool) -> TracerHandles {
    TracerHandles { histogram_fd: fds.hist, start_map_fd: fds.start, attached }
}

/// The end, once it is known whether both programs are attached. Where they are not, their own
/// descriptors go, and the maps stay.
pub open spec fn attached_or_not(fds: Descriptors, start_event: i32, done_event: i32) -> Stage {
    if start_event < 0 || done_event < 0 {
        Stage::Done {
            handles: with_maps(fds, false),
            close: Unneeded::Two(fds.start_prog, fds.done_prog),
        }
    } else {
        Stage::Done { handles: with_maps(fds, true), close: Unneeded::Nothing }
    }
}

/// The stage after a step that returned `ret`: a descriptor, or a negative number.
pub open spec fn next_stage(stage: Stage, ret: i32) -> Stage {
    match stage {
        Stage::CreateHistogram => if ret < 0 {
            Stage::Done { handles: no_tracer(), close: Unneeded::Nothing }
        } else {
            Stage::CreateStartMap { hist: ret }
        },
        Stage::CreateStartMap { hist } => if ret < 0 {
            Stage::Done { handles: no_tracer(), close: Unneeded::One(hist) }
        } else {
            Stage::LoadStart { hist, start: ret }
        },
        Stage::LoadStart { hist, start } => if ret < 0 {
            Stage::Done { handles: no_tracer(), close: Unneeded::Two(hist, start) }
        } else {
            Stage::LoadDone { hist, start, start_prog: ret }
        },
        Stage::LoadDone { hist, start, start_prog } => if ret < 0 {
            Stage::Done { handles: no_tracer(), close: Unneeded::Three(start_prog, hist, start) }
        } else {
            Stage::AttachStart { fds: Descriptors { hist, start, start_prog, done_prog: ret } }
        },
        Stage::AttachStart { fds } => Stage::AttachDone { fds, start_event: ret },
        Stage::AttachDone { fds, start_event } => if start_event < 0 {
            Stage::AttachStartAgain { fds, done_event: ret }
        } else if ret < 0 {
            Stage::AttachDoneAgain { fds, start_event }
        } else {
            attached_or_not(fds, start_event, ret)
        },
        Stage::AttachStartAgain { fds, done_event } => if done_event < 0 {
            Stage::AttachDoneAgain { fds, start_event: ret }
        } else {
            attached_or_not(fds, ret, done_event)
        },
        Stage::AttachDoneAgain { fds, start_event } => attached_or_not(fds, start_event, ret),
        Stage::Done { handles, close } => stage,
    }
}

/// The step for a stage.
pub open spec fn stage_step(stage: Stage) -> StepView {
    match stage {
        Stage::CreateHistogram => StepView::CreateMap {
            map_type: syscall::BPF_MAP_TYPE_ARRAY,
            key_size: 4,
            value_size: 8,
            max_entries: 64,
        },
        Stage::CreateStartMap { hist } => StepView::CreateMap {
            map_type: syscall::BPF_MAP_TYPE_HASH,
            key_size: 8,
            value_size: 8,
            max_entries: 8192,
        },
        Stage::LoadStart { hist, start } => StepView::Load {
            prog_type: syscall::BPF_PROG_TYPE_KPROBE,
            program: encoded(start_program(start)),
            license: LICENSE@,
        },
        Stage::LoadDone { hist, start, start_prog } => StepView::Load {
            prog_type: syscall::BPF_PROG_TYPE_KPROBE,
            program: encoded(done_program(start, hist)),
            license: LICENSE@,
        },
        Stage::AttachStart { fds } => StepView::Attach {
            prog_fd: fds.start_prog,
            function: "blk_account_io_start"@,
            is_return: false,
        },
        Stage::AttachDone { fds, start_event } => StepView::Attach {
            prog_fd: fds.done_prog,
            function: "blk_account_io_done"@,
            is_return: false,
        },
        Stage::AttachStartAgain { fds, done_event } => StepView::Attach {
            prog_fd: fds.start_prog,
            function: "__blk_account_io_start"@,
            is_return: false,
        },
        Stage::AttachDoneAgain { fds, start_event } => StepView::Attach {
            prog_fd: fds.done_prog,
            function: "__blk_account_io_done"@,
            is_return: false,
        },
        Stage::Done { handles, close } => StepView::Finish { handles, close },
    }
}

impl Stage {
    /// Starts to attach the tracer.
    pub fn start() -> (res: Self)
        ensures
            res == Stage::CreateHistogram,
    {
        Stage::CreateHistogram
    }

    /// The next step.
    pub fn step(&self) -> (res: Step)
        ensures
            res@ == stage_step(*self),
    {
        match *self {
            Stage::CreateHistogram => Step::CreateMap {
                map_type: syscall::BPF_MAP_TYPE_ARRAY,
                key_size: 4,
                value_size: 8,
                max_entries: 64,
            },
            Stage::CreateStartMap { hist } => Step::CreateMap {
                map_type: syscall::BPF_MAP_TYPE_HASH,
                key_size: 8,
                value_size: 8,
                max_entries: 8192,
            },
            Stage::LoadStart { hist, start } => Step::Load {
                prog_type: syscall::BPF_PROG_TYPE_KPROBE,
                program: build_start_prog(start),
                license: LICENSE,
            },
            Stage::LoadDone { hist, start, start_prog } => Step::Load {
                prog_type: syscall::BPF_PROG_TYPE_KPROBE,
                program: build_done_prog(start, hist),
                license: LICENSE,
            },
            Stage::AttachStart { fds } => Step::Attach {
                prog_fd: fds.start_prog,
                function: "blk_account_io_start",
                is_return: false,
            },
            Stage::AttachDone { fds, start_event } => Step::Attach {
                prog_fd: fds.done_prog,
                function: "blk_account_io_done",
                is_return: false,
            },
            Stage::AttachStartAgain { fds, done_event } => Step::Attach {
                prog_fd: fds.start_prog,
                function: "__blk_account_io_start",
                is_return: false,
            },
            Stage::AttachDoneAgain { fds, start_event } => Step::Attach {
                prog_fd: fds.done_prog,
                function: "__blk_account_io_done",
                is_return: false,
            },
            Stage::Done { handles, close } => Step::Finish { handles, close },
        }
    }

    /// Goes on after a step that returned `ret`.
    pub fn advance(self, ret: i32) -> (res: Self)
        ensures
            res == next_stage(self, ret),
    {
        let none = TracerHandles { histogram_fd: NO_FD, start_map_fd: NO_FD, attached: false };
        match self {
            Stage::CreateHistogram => if ret < 0 {
                Stage::Done { handles: none, close: Unneeded::Nothing }
            } else {
                Stage::CreateStartMap { hist: ret }
            },
            Stage::CreateStartMap { hist } => if ret < 0 {
                Stage::Done { handles: none, close: Unneeded::One(hist) }
            } else {
                Stage::LoadStart { hist, start: ret }
            },
            Stage::LoadStart { hist, start } => if ret < 0 {
                Stage::Done { handles: none, close: Unneeded::Two(hist, start) }
            } else {
                Stage::LoadDone { hist, start, start_prog: ret }
            },
            Stage::LoadDone { hist, start, start_prog } => if ret < 0 {
                Stage::Done { handles: none, close: Unneeded::Three(start_prog, hist, start) }
            } else {
                Stage::AttachStart { fds: Descriptors { hist, start, start_prog, done_prog: ret } }
            },
            Stage::AttachStart { fds } => Stage::AttachDone { fds, start_event: ret },
            Stage::AttachDone { fds, start_event } => if start_event < 0 {
                Stage::AttachStartAgain { fds, done_event: ret }
            } else if ret < 0 {
                Stage::AttachDoneAgain { fds, start_event }
            } else {
                finish(fds, start_event, ret)
            },
            Stage::AttachStartAgain { fds, done_event } => if done_event < 0 {
                Stage::AttachDoneAgain { fds, start_event: ret }
            } else {
                finish(fds, ret, done_event)
            },
            Stage::AttachDoneAgain { fds, start_event } => finish(fds, start_event, ret),
            Stage::Done { handles, close } => Stage::Done { handles, close },
        }
    }
}

fn finish(fds: Descriptors, start_event: i32, done_event: i32) -> (res: Stage)
    ensures
        res == attached_or_not(fds, start_event, done_event),
{
    if start_event < 0 || done_event < 0 {
        Stage::Done {
            handles: TracerHandles {
                histogram_fd: fds.hist,
                start_map_fd: fds.start,
                attached: false,
            },
            close: Unneeded::Two(fds.start_prog, fds.done_prog),
        }
    } else {
        Stage::Done {
            handles: TracerHandles {
                histogram_fd: fds.hist,
                start_map_fd: fds.start,
                attached: true,
            },
            close: Unneeded::Nothing,
        }
    }
}

/// The stage that a list of results leads to from the beginning.
pub open spec fn reached(results: Seq<i32>) -> Stage
    decreases results.len(),
{
    if results.len() == 0 {
        Stage::CreateHistogram
    } else {
        next_stage(reached(results.drop_last()), results.last())
    }
}

/// The descriptors of maps and programs that are open at a stage.
pub open spec fn open_descriptors(stage: Stage) -> Set<i32> {
    match stage {
        Stage::CreateHistogram => Set::empty(),
        Stage::CreateStartMap { hist } => set![hist],
        Stage::LoadStart { hist, start } => set![hist, start],
        Stage::LoadDone { hist, start, start_prog } => set![hist, start, start_prog],
        Stage::AttachStart { fds } => set![fds.hist, fds.start, fds.start_prog, fds.done_prog],
        Stage::AttachDone { fds, .. } => set![fds.hist, fds.start, fds.start_prog, fds.done_prog],
        Stage::AttachStartAgain { fds, .. } => set![
            fds.hist,
            fds.start,
            fds.start_prog,
            fds.done_prog,
        ],
        Stage::AttachDoneAgain { fds, .. } => set![
            fds.hist,
            fds.start,
            fds.start_prog,
            fds.done_prog,
        ],
        Stage::Done { handles, close } => Set::empty(),
    }
}

/// Whether a descriptor is closed at the end.
pub open spec fn closes(close: Unneeded, fd: i32) -> bool {
    match close {
        Unneeded::Nothing => false,
        Unneeded::One(a) => fd == a,
        Unneeded::Two(a, b) => fd == a || fd == b,
        Unneeded::Three(a, b, c) => fd == a || fd == b || fd == c,
    }
}

/// The tracer comes out as attached only where all steps before succeeded, and then has both maps.
/// Where it gives up before the programs are loaded it has no maps, and every descriptor that was
/// open is closed; where only attaching failed the maps stay open, and the programs are closed.
pub proof fn tracer_is_attached_or_cleaned_up(stage: Stage, ret: i32)
    requires
        !(stage is Done),
        next_stage(stage, ret) is Done,
        forall|fd: i32| #[trigger] open_descriptors(stage).contains(fd) ==> fd >= 0,
    ensures
        ({
            let (handles, close) = match next_stage(stage, ret) {
                Stage::Done { handles, close } => (handles, close),
                _ => (no_tracer(), Unneeded::Nothing),
            };
            &&& handles.attached ==> latency::has_buckets(handles) && handles.start_map_fd >= 0
                && close == Unneeded::Nothing && ret >= 0
            &&& handles.histogram_fd < 0 ==> forall|fd: i32| #[trigger]
                open_descriptors(stage).contains(fd) ==> closes(close, fd)
            &&& !handles.attached && handles.histogram_fd >= 0 ==> forall|fd: i32| #[trigger]
                open_descriptors(stage).contains(fd) ==> closes(close, fd) || fd
                    == handles.histogram_fd || fd == handles.start_map_fd
        }),
{
    match stage {
        Stage::AttachDone { fds, .. } => {
            assert(open_descriptors(stage).contains(fds.hist));
            assert(open_descriptors(stage).contains(fds.start));
        },
        Stage::AttachStartAgain { fds, .. } => {
            assert(open_descriptors(stage).contains(fds.hist));
            assert(open_descriptors(stage).contains(fds.start));
        },
        Stage::AttachDoneAgain { fds, .. } => {
            assert(open_descriptors(stage).contains(fds.hist));
            assert(open_descriptors(stage).contains(fds.start));
        },
        _ => {},
    }
}

/// Whatever the steps return, the tracer is done after at most eight of them, and on the way holds
/// no descriptor that is negative.
pub proof fn tracer_comes_to_an_end(results: Seq<i32>)
    ensures
        results.len() >= 8 ==> reached(results) is Done,
        forall|fd: i32| #[trigger] open_descriptors(reached(results)).contains(fd) ==> fd >= 0,
{
    lemma_progress(results);
}

/// How many steps lie behind a stage, at least.
spec fn depth(stage: Stage) -> nat {
    match stage {
        Stage::CreateHistogram => 0,
        Stage::CreateStartMap { .. } => 1,
        Stage::LoadStart { .. } => 2,
        Stage::LoadDone { .. } => 3,
        Stage::AttachStart { .. } => 4,
        Stage::AttachDone { .. } => 5,
        Stage::AttachStartAgain { .. } => 6,
        Stage::AttachDoneAgain { .. } => 7,
        Stage::Done { .. } => 8,
    }
}

proof fn lemma_progress(results: Seq<i32>)
    ensures
        reached(results) is Done || depth(reached(results)) >= results.len(),
        forall|fd: i32| #[trigger] open_descriptors(reached(results)).contains(fd) ==> fd >= 0,
    decreases results.len(),
{
    if results.len() > 0 {
        let before = reached(results.drop_last());
        lemma_progress(results.drop_last());
        assert forall|fd: i32| #[trigger]
            open_descriptors(reached(results)).contains(fd) implies fd >= 0 by {
            if !open_descriptors(before).contains(fd) {
                assert(fd == results.last());
            }
        }
    }
}

/// The tracer is attached step by step: a map of sixty-four counters, a map of start times, the two
/// programs that use them, and each program at its own function of the kernel. Then the tracer has
/// both maps. As many counters are read as there are.
pub proof fn tracers_are_attached(
    hist: i32,
    start: i32,
    first: i32,
    second: i32,
    a: i32,
    b: i32,
)
    requires
        hist >= 0,
        start >= 0,
        first >= 0,
        second >= 0,
    ensures
        ({
            let s1 = next_stage(Stage::CreateHistogram, hist);
            let s2 = next_stage(s1, start);
            let s3 = next_stage(s2, first);
            let s4 = next_stage(s3, second);
            let s5 = next_stage(s4, a);
            let s6 = next_stage(s5, b);
            let maps = TracerHandles { histogram_fd: hist, start_map_fd: start, attached: true };
            &&& stage_step(Stage::CreateHistogram) == (StepView::CreateMap {
                map_type: 2,
                key_size: 4,
                value_size: 8,
                max_entries: 64,
            })
            &&& latency::BUCKETS == 64
            &&& stage_step(s1) == (StepView::CreateMap {
                map_type: 1,
                key_size: 8,
                value_size: 8,
                max_entries: 8192,
            })
            &&& stage_step(s2) == (StepView::Load {
                prog_type: 1,
                program: encoded(start_program(start)),
                license: "GPL\0"@,
            })
            &&& stage_step(s3) == (StepView::Load {
                prog_type: 1,
                program: encoded(done_program(start, hist)),
                license: "GPL\0"@,
            })
            &&& is_attached_to(stage_step(s4), first, "blk_account_io_start"@)
            &&& is_attached_to(stage_step(s5), second, "blk_account_io_done"@)
            &&& a >= 0 && b >= 0 ==> stage_step(s6) == (StepView::Finish {
                handles: maps,
                close: Unneeded::Nothing,
            })
            &&& a < 0 ==> is_attached_to(stage_step(s6), first, "__blk_account_io_start"@)
            &&& a >= 0 && b < 0 ==> is_attached_to(
                stage_step(s6),
                second,
                "__blk_account_io_done"@,
            )
        }),
{
}

/// Whether a step attaches a program at the entry of a function.
pub open spec fn is_attached_to(step: StepView, prog_fd: i32, function: Seq<char>) -> bool {
    step == StepView::Attach { prog_fd, function, is_return: false }
}

/// Under the other name of a function the program is tried once more. Where that succeeds the tracer
/// is attached; where it does not, the maps stay, and the programs are closed.
pub proof fn tracers_are_tried_again(fds: Descriptors, event: i32, again: i32)
    requires
        event >= 0,
    ensures
        ({
            let done = next_stage(Stage::AttachStartAgain { fds, done_event: event }, again);
            let other = next_stage(Stage::AttachDoneAgain { fds, start_event: event }, again);
            let maps = TracerHandles {
                histogram_fd: fds.hist,
                start_map_fd: fds.start,
                attached: again >= 0,
            };
            let close = if again >= 0 {
                Unneeded::Nothing
            } else {
                Unneeded::Two(fds.start_prog, fds.done_prog)
            };
            &&& done == (Stage::Done { handles: maps, close })
            &&& other == done
        }),
{
}

} // verus!
