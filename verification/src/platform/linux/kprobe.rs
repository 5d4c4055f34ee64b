//! Attaching a BPF program to a kernel function, step by step.
//!
//! An attachment says which system call comes next and is told what the call returned, until it
//! is done.
use crate::platform::linux;
use crate::platform::linux::syscall;
use crate::text;
use vstd::prelude::*;

verus! {

/// What an attachment that failed results in.
pub const FAILED: i32 = -1;

/// The process number that stands for every process.
pub const EVERY_PROCESS: i64 = -1;

/// The descriptor that stands for no group of events.
pub const NO_GROUP: i64 = -1;

/// How far an attachment has come.
#[derive(Debug, Clone, Copy, PartialEq, Eq, Structural)]
pub enum Stage {
    /// The list of probes is to be opened.
    OpenEvents,
    /// The probe is to be written to the list.
    WriteDefinition { events_fd: i64 },
    /// The list is to be closed.
    CloseEvents { events_fd: i64, written: bool },
    /// The number of the probe is to be read.
    ReadId,
    /// A performance event is to be opened for the probe.
    OpenPerf { event_id: u64 },
    /// The program is to be set for the event.
    SetProgram { perf_fd: i64 },
    /// The event is to be closed, as the program could not be set.
    ClosePerf { perf_fd: i64 },
    /// The event is to be enabled.
    Enable { perf_fd: i64 },
    /// The descriptor of the event, or -1 where the program could not be attached.
    Done { fd: i32 },
}

/// The next system call of an attachment.
#[derive(Debug)]
pub enum Action {
    Open { path: String, flags: i64 },
    Write { fd: i64, text: String },
    Close { descriptor: i32 },
    Read { path: String },
    PerfEventOpen { attr: Vec<u8>, pid: i64, cpu: i64, group_fd: i64, flags: i64 },
    Ioctl { fd: i64, request: i64, arg: i64 },
    Finish { result: i32 },
}

#[verifier::ext_equal]
pub enum ActionView {
    Open { path: Seq<char>, flags: i64 },
    Write { fd: i64, text: Seq<char> },
    Close { descriptor: i32 },
    Read { path: Seq<char> },
    PerfEventOpen { attr: Seq<u8>, pid: i64, cpu: i64, group_fd: i64, flags: i64 },
    Ioctl { fd: i64, request: i64, arg: i64 },
    Finish { result: i32 },
}

impl View for Action {
    type V = ActionView;

    open spec fn view(&self) -> ActionView {
        match self {
            Action::Open { path, flags } => ActionView::Open { path: path@, flags: *flags },
            Action::Write { fd, text } => ActionView::Write { fd: *fd, text: text@ },
            Action::Close { descriptor } => ActionView::Close { descriptor: *descriptor },
            Action::Read { path } => ActionView::Read { path: path@ },
            Action::PerfEventOpen { attr, pid, cpu, group_fd, flags } => ActionView::PerfEventOpen {
                attr: attr@,
                pid: *pid,
                cpu: *cpu,
                group_fd: *group_fd,
                flags: *flags,
            },
            Action::Ioctl { fd, request, arg } => ActionView::Ioctl {
                fd: *fd,
                request: *request,
                arg: *arg,
            },
            Action::Finish { result } => ActionView::Finish { result: *result },
        }
    }
}

/// The letter for the kind of a probe: on return from a function or on entry to it.
pub open spec fn probe_kind(is_return: bool) -> Seq<char> {
    if is_return {
        "r"@
    } else {
        "p"@
    }
}

/// A name with every dot replaced by an underscore.
pub open spec fn without_dots(name: Seq<char>) -> Seq<char> {
    Seq::new(
        name.len(),
        |i: int|
            if name[i] == '.' {
                '_'
            } else {
                name[i]
            },
    )
}

/// The name of the probe on a function.
pub open spec fn event_name(func_name: Seq<char>, is_return: bool) -> Seq<char> {
    "syspulse_"@ + probe_kind(is_return) + "_"@ + without_dots(func_name)
}

/// The line that defines the probe on a function.
pub open spec fn definition(func_name: Seq<char>, is_return: bool) -> Seq<char> {
    probe_kind(is_return) + ":"@ + event_name(func_name, is_return) + " "@ + func_name + "\n"@
}

/// The path of the number of the probe on a function.
pub open spec fn id_path(func_name: Seq<char>, is_return: bool) -> Seq<char> {
    "/sys/kernel/debug/tracing/events/kprobes/"@ + event_name(func_name, is_return) + "/id\0"@
}

/// The stage after a system call that returned `ret` and, for a read, `data`.
pub open spec fn next_stage(stage: Stage, ret: i64, data: Seq<u8>) -> Stage {
    match stage {
        Stage::OpenEvents => if ret < 0 {
            Stage::Done { fd: FAILED }
        } else {
            Stage::WriteDefinition { events_fd: ret }
        },
        Stage::WriteDefinition { events_fd } => Stage::CloseEvents {
            events_fd,
            written: ret >= 0,
        },
        Stage::CloseEvents { events_fd, written } => if written {
            Stage::ReadId
        } else {
            Stage::Done { fd: FAILED }
        },
        Stage::ReadId => if ret <= 0 {
            Stage::Done { fd: FAILED }
        } else {
            Stage::OpenPerf { event_id: linux::leading_number(data) }
        },
        Stage::OpenPerf { event_id } => if ret < 0 {
            Stage::Done { fd: FAILED }
        } else {
            Stage::SetProgram { perf_fd: ret }
        },
        Stage::SetProgram { perf_fd } => if ret < 0 {
            Stage::ClosePerf { perf_fd }
        } else {
            Stage::Enable { perf_fd }
        },
        Stage::ClosePerf { perf_fd } => Stage::Done { fd: FAILED },
        Stage::Enable { perf_fd } => Stage::Done { fd: perf_fd as i32 },
        Stage::Done { fd } => stage,
    }
}

/// The system call for a stage.
pub open spec fn stage_action(
    stage: Stage,
    prog_fd: i32,
    func_name: Seq<char>,
    is_return: bool,
) -> ActionView {
    match stage {
        Stage::OpenEvents => ActionView::Open {
            path: "/sys/kernel/debug/tracing/kprobe_events\0"@,
            flags: 1025,
        },
        Stage::WriteDefinition { events_fd } => ActionView::Write {
            fd: events_fd,
            text: definition(func_name, is_return),
        },
        Stage::CloseEvents { events_fd, written } => ActionView::Close { descriptor: events_fd as i32 },
        Stage::ReadId => ActionView::Read { path: id_path(func_name, is_return) },
        Stage::OpenPerf { event_id } => ActionView::PerfEventOpen {
            attr: syscall::perf_attr_layout(event_id),
            pid: EVERY_PROCESS,
            cpu: 0,
            group_fd: NO_GROUP,
            flags: syscall::PERF_FLAG_FD_CLOEXEC,
        },
        Stage::SetProgram { perf_fd } => ActionView::Ioctl {
            fd: perf_fd,
            request: syscall::PERF_EVENT_IOC_SET_BPF,
            arg: prog_fd as i64,
        },
        Stage::ClosePerf { perf_fd } => ActionView::Close { descriptor: perf_fd as i32 },
        Stage::Enable { perf_fd } => ActionView::Ioctl {
            fd: perf_fd,
            request: syscall::PERF_EVENT_IOC_ENABLE,
            arg: 0,
        },
        Stage::Done { fd } => ActionView::Finish { result: fd },
    }
}

/// An attachment of a program to a kernel function.
pub struct KprobeAttachment {
    prog_fd: i32,
    func_name: String,
    is_return: bool,
    stage: Stage,
}

/// Starts to attach a program to a kernel function, on entry to it or on return from it.
pub fn attach_kprobe(prog_fd: i32, func_name: &str, is_return: bool) -> (res: KprobeAttachment)
    ensures
        res.program() == prog_fd,
        res.function() == func_name@,
        res.on_return() == is_return,
        res.current() == Stage::OpenEvents,
{
    KprobeAttachment {
        prog_fd,
        func_name: func_name.to_owned(),
        is_return,
        stage: Stage::OpenEvents,
    }
}

fn replace_dots(name: &str) -> (res: String)
    ensures
        res@ == without_dots(name@),
{
    let chars: Vec<char> = text::chars_of(name);
    let mut out: String = String::new();
    let mut i: usize = 0;
    while i < chars.len()
        invariant
            0 <= i <= chars@.len(),
            chars@ == name@,
            out@ == without_dots(name@).take(i as int),
        decreases chars@.len() - i,
    {
        out.push(if chars[i] == '.' {
            '_'
        } else {
            chars[i]
        });
        i = i + 1;
        assert(out@ =~= without_dots(name@).take(i as int));
    }
    assert(without_dots(name@).take(i as int) =~= without_dots(name@));
    out
}

impl KprobeAttachment {
    pub closed spec fn program(&self) -> i32 {
        self.prog_fd
    }

    pub closed spec fn function(&self) -> Seq<char> {
        self.func_name@
    }

    pub closed spec fn on_return(&self) -> bool {
        self.is_return
    }

    pub closed spec fn current(&self) -> Stage {
        self.stage
    }

    fn kind(&self) -> (res: &'static str)
        ensures
            res@ == probe_kind(self.on_return()),
    {
        if self.is_return {
            "r"
        } else {
            "p"
        }
    }

    fn event(&self) -> (res: String)
        ensures
            res@ == event_name(self.function(), self.on_return()),
    {
        let mut name: String = "syspulse_".to_owned();
        name.append(self.kind());
        name.append("_");
        name.append(replace_dots(self.func_name.as_str()).as_str());
        name
    }

    /// The next system call.
    pub fn action(&self) -> (res: Action)
        ensures
            res@ == stage_action(
                self.current(),
                self.program(),
                self.function(),
                self.on_return(),
            ),
    {
        match self.stage {
            Stage::OpenEvents => Action::Open {
                path: "/sys/kernel/debug/tracing/kprobe_events\0".to_owned(),
                flags: syscall::O_WRONLY + syscall::O_APPEND,
            },
            Stage::WriteDefinition { events_fd } => {
                let mut line: String = self.kind().to_owned();
                line.append(":");
                line.append(self.event().as_str());
                line.append(" ");
                line.append(self.func_name.as_str());
                line.append("\n");
                Action::Write { fd: events_fd, text: line }
            },
            Stage::CloseEvents { events_fd, written } => Action::Close { descriptor: events_fd as i32 },
            Stage::ReadId => {
                let mut path: String = "/sys/kernel/debug/tracing/events/kprobes/".to_owned();
                path.append(self.event().as_str());
                path.append("/id\0");
                Action::Read { path }
            },
            Stage::OpenPerf { event_id } => Action::PerfEventOpen {
                attr: syscall::perf_attr(event_id),
                pid: EVERY_PROCESS,
                cpu: 0,
                group_fd: NO_GROUP,
                flags: syscall::PERF_FLAG_FD_CLOEXEC,
            },
            Stage::SetProgram { perf_fd } => Action::Ioctl {
                fd: perf_fd,
                request: syscall::PERF_EVENT_IOC_SET_BPF,
                arg: self.prog_fd as i64,
            },
            Stage::ClosePerf { perf_fd } => Action::Close { descriptor: perf_fd as i32 },
            Stage::Enable { perf_fd } => Action::Ioctl {
                fd: perf_fd,
                request: syscall::PERF_EVENT_IOC_ENABLE,
                arg: 0,
            },
            Stage::Done { fd } => Action::Finish { result: fd },
        }
    }

    /// Goes on after a system call that returned `ret` and, for a read, `data`.
    pub fn advance(&mut self, ret: i64, data: &[u8])
        ensures
            final(self).current() == next_stage(old(self).current(), ret, data@),
            final(self).program() == old(self).program(),
            final(self).function() == old(self).function(),
            final(self).on_return() == old(self).on_return(),
    {
        self.stage = match self.stage {
            Stage::OpenEvents => if ret < 0 {
                Stage::Done { fd: FAILED }
            } else {
                Stage::WriteDefinition { events_fd: ret }
            },
            Stage::WriteDefinition { events_fd } => Stage::CloseEvents {
                events_fd,
                written: ret >= 0,
            },
            Stage::CloseEvents { events_fd, written } => if written {
                Stage::ReadId
            } else {
                Stage::Done { fd: FAILED }
            },
            Stage::ReadId => if ret <= 0 {
                Stage::Done { fd: FAILED }
            } else {
                Stage::OpenPerf { event_id: linux::parse_u64_from_bytes(data) }
            },
            Stage::OpenPerf { event_id } => if ret < 0 {
                Stage::Done { fd: FAILED }
            } else {
                Stage::SetProgram { perf_fd: ret }
            },
            Stage::SetProgram { perf_fd } => if ret < 0 {
                Stage::ClosePerf { perf_fd }
            } else {
                Stage::Enable { perf_fd }
            },
            Stage::ClosePerf { perf_fd } => Stage::Done { fd: FAILED },
            Stage::Enable { perf_fd } => Stage::Done { fd: perf_fd as i32 },
            Stage::Done { fd } => Stage::Done { fd },
        };
    }
}

/// The descriptor that is open at a stage.
pub open spec fn held(stage: Stage) -> Option<i64> {
    match stage {
        Stage::WriteDefinition { events_fd } => Some(events_fd),
        Stage::CloseEvents { events_fd, written } => Some(events_fd),
        Stage::SetProgram { perf_fd } => Some(perf_fd),
        Stage::ClosePerf { perf_fd } => Some(perf_fd),
        Stage::Enable { perf_fd } => Some(perf_fd),
        Stage::Done { fd } => if fd >= 0 {
            Some(fd as i64)
        } else {
            None
        },
        _ => None,
    }
}

/// The number of system calls that an attachment can still need.
pub open spec fn calls_left(stage: Stage) -> nat {
    match stage {
        Stage::OpenEvents => 7,
        Stage::WriteDefinition { events_fd } => 6,
        Stage::CloseEvents { events_fd, written } => 5,
        Stage::ReadId => 4,
        Stage::OpenPerf { event_id } => 3,
        Stage::SetProgram { perf_fd } => 2,
        Stage::ClosePerf { perf_fd } => 1,
        Stage::Enable { perf_fd } => 1,
        Stage::Done { fd } => 0,
    }
}

/// Whatever the calls return, an attachment comes to its end.
pub proof fn attachment_ends(stage: Stage, ret: i64, data: Seq<u8>)
    requires
        !(stage is Done),
    ensures
        calls_left(next_stage(stage, ret, data)) < calls_left(stage),
{
}

/// A descriptor that a call opened stays open until a call closes it, and none is forgotten: a
/// failed attachment has none left, and one that succeeded has that of the performance event.
pub proof fn descriptors_are_accounted_for(stage: Stage, ret: i64, data: Seq<u8>)
    requires
        ret <= i32::MAX,
        held(stage) matches Some(fd) ==> 0 <= fd <= i32::MAX,
    ensures
        held(next_stage(stage, ret, data)) == match stage {
            Stage::OpenEvents | Stage::OpenPerf { .. } => if ret < 0 {
                None
            } else {
                Some(ret)
            },
            Stage::CloseEvents { .. } | Stage::ClosePerf { .. } => None,
            _ => held(stage),
        },
        held(next_stage(stage, ret, data)) matches Some(fd) ==> 0 <= fd <= i32::MAX,
{
}

/// A probe is written to the list of probes, its number is read from under its own name, an event
/// is opened for that number, the program is set for the event, and the event is enabled. The
/// descriptor of the event is what comes out.
pub proof fn programs_are_attached(
    prog_fd: i32,
    func: Seq<char>,
    is_return: bool,
    events_fd: i64,
    ret: i64,
    data: Seq<u8>,
    perf_fd: i64,
)
    requires
        0 <= events_fd <= i32::MAX,
        0 < ret,
        0 <= perf_fd <= i32::MAX,
    ensures
        ({
            let none = Seq::<u8>::empty();
            let s0 = Stage::OpenEvents;
            let s1 = next_stage(s0, events_fd, none);
            let s2 = next_stage(s1, ret, none);
            let s3 = next_stage(s2, 0, none);
            let s4 = next_stage(s3, ret, data);
            let s5 = next_stage(s4, perf_fd, none);
            let s6 = next_stage(s5, 0, none);
            let s7 = next_stage(s6, 0, none);
            &&& stage_action(s0, prog_fd, func, is_return) == (ActionView::Open {
                path: "/sys/kernel/debug/tracing/kprobe_events\0"@,
                flags: 1025,
            })
            &&& stage_action(s1, prog_fd, func, is_return) == (ActionView::Write {
                fd: events_fd,
                text: definition(func, is_return),
            })
            &&& stage_action(s2, prog_fd, func, is_return) == (ActionView::Close {
                descriptor: events_fd as i32,
            })
            &&& stage_action(s3, prog_fd, func, is_return) == (ActionView::Read {
                path: id_path(func, is_return),
            })
            &&& stage_action(s4, prog_fd, func, is_return) == (ActionView::PerfEventOpen {
                attr: syscall::perf_attr_layout(linux::leading_number(data)),
                pid: (-1) as i64,
                cpu: 0,
                group_fd: (-1) as i64,
                flags: 8,
            })
            &&& stage_action(s5, prog_fd, func, is_return) == (ActionView::Ioctl {
                fd: perf_fd,
                request: 0x40042408,
                arg: prog_fd as i64,
            })
            &&& stage_action(s6, prog_fd, func, is_return) == (ActionView::Ioctl {
                fd: perf_fd,
                request: 0x2400,
                arg: 0,
            })
            &&& stage_action(s7, prog_fd, func, is_return) == (ActionView::Finish {
                result: perf_fd as i32,
            })
        }),
{
}

/// Where a call fails before there is an event, the attachment fails; where the program cannot be
/// set, the event is closed first.
pub proof fn failures_are_told(stage: Stage, ret: i64, data: Seq<u8>)
    requires
        ret < 0,
    ensures
        stage is OpenEvents || stage is ReadId || stage is OpenPerf ==> next_stage(stage, ret, data)
            == (Stage::Done { fd: (-1) as i32 }),
        stage matches Stage::WriteDefinition { events_fd } ==> next_stage(stage, ret, data) == (
        Stage::CloseEvents { events_fd, written: false }),
        stage matches Stage::CloseEvents { events_fd, written } ==> !written ==> next_stage(
            stage,
            ret,
            data,
        ) == (Stage::Done { fd: (-1) as i32 }),
        stage matches Stage::SetProgram { perf_fd } ==> next_stage(stage, ret, data) == (
        Stage::ClosePerf { perf_fd }),
        stage is ClosePerf ==> next_stage(stage, ret, data) == (Stage::Done { fd: (-1) as i32 }),
{
}

/// The line for a probe gives its kind, its name and its function. The name is made of the kind and
/// of the function, and the number of the probe stands in a directory with that name.
pub proof fn probes_are_defined(func: Seq<char>)
    requires
        forall|i: int| 0 <= i < func.len() ==> #[trigger] func[i] != '.',
    ensures
        definition(func, false) == "p:syspulse_p_"@ + func + " "@ + func + "\n"@,
        definition(func, true) == "r:syspulse_r_"@ + func + " "@ + func + "\n"@,
        id_path(func, false) == "/sys/kernel/debug/tracing/events/kprobes/syspulse_p_"@ + func
            + "/id\0"@,
        id_path(func, true) == "/sys/kernel/debug/tracing/events/kprobes/syspulse_r_"@ + func
            + "/id\0"@,
{
    reveal_strlit("p");
    reveal_strlit("r");
    reveal_strlit("_");
    reveal_strlit(":");
    reveal_strlit("syspulse_");
    reveal_strlit("p:syspulse_p_");
    reveal_strlit("r:syspulse_r_");
    reveal_strlit("/sys/kernel/debug/tracing/events/kprobes/");
    reveal_strlit("/sys/kernel/debug/tracing/events/kprobes/syspulse_p_");
    reveal_strlit("/sys/kernel/debug/tracing/events/kprobes/syspulse_r_");
    assert(without_dots(func) =~= func);
    assert("p:syspulse_p_"@ =~= "p"@ + ":"@ + ("syspulse_"@ + "p"@ + "_"@));
    assert("r:syspulse_r_"@ =~= "r"@ + ":"@ + ("syspulse_"@ + "r"@ + "_"@));
    let dir = "/sys/kernel/debug/tracing/events/kprobes/"@;
    assert("/sys/kernel/debug/tracing/events/kprobes/syspulse_p_"@ =~= dir + ("syspulse_"@ + "p"@
        + "_"@));
    assert("/sys/kernel/debug/tracing/events/kprobes/syspulse_r_"@ =~= dir + ("syspulse_"@ + "r"@
        + "_"@));
    assert("p"@ + ":"@ + ("syspulse_"@ + "p"@ + "_"@ + func) =~= "p"@ + ":"@ + ("syspulse_"@ + "p"@
        + "_"@) + func);
    assert("r"@ + ":"@ + ("syspulse_"@ + "r"@ + "_"@ + func) =~= "r"@ + ":"@ + ("syspulse_"@ + "r"@
        + "_"@) + func);
    assert(dir + ("syspulse_"@ + "p"@ + "_"@ + func) =~= dir + ("syspulse_"@ + "p"@ + "_"@) + func);
    assert(dir + ("syspulse_"@ + "r"@ + "_"@ + func) =~= dir + ("syspulse_"@ + "r"@ + "_"@) + func);
}

/// Dots in the name of a function become underscores in that of its probe, and nothing else changes.
pub proof fn dots_become_underscores(func: Seq<char>, i: int)
    requires
        0 <= i < func.len(),
    ensures
        without_dots(func).len() == func.len(),
        func[i] == '.' ==> without_dots(func)[i] == '_',
        func[i] != '.' ==> without_dots(func)[i] == func[i],
{
}

} // verus!
