//! What BPF programs do: the part of the machine in the kernel that the tracing programs need.
//!
//! A register holds a number or a pointer, and pointers are kept apart by what they point to, so
//! that a program that follows no pointer, or the wrong one, fails.
use vstd::arithmetic::power2::*;
use vstd::prelude::*;

verus! {

/// An instruction: the operation, the destination and source registers, an offset and an immediate
/// value.
pub struct Insn {
    pub opcode: u8,
    pub dst: u8,
    pub src: u8,
    pub off: int,
    pub imm: int,
}

/// The instruction with these parts.
pub open spec fn op(opcode: u8, dst: u8, src: u8, off: int, imm: int) -> Insn {
    Insn { opcode, dst, src, off, imm }
}

/// What a register or a cell of the stack holds.
pub enum Word {
    /// Nothing that may be read.
    Unset,
    /// A number; zero is also the pointer to nothing.
    Number(u64),
    /// The pointer to the registers of the probed function.
    Context,
    /// A pointer into the stack, by its distance from the top.
    Frame(int),
    /// A table.
    Table(int),
    /// The pointer to a value in a table.
    Slot { table: int, key: u64 },
}

/// A table in the kernel, from keys of so many bytes to numbers.
#[verifier::ext_equal]
pub struct Table {
    pub key_size: int,
    pub full: bool,
    pub entries: Map<u64, u64>,
}

/// What a run is about: the first argument of the probed function, and the time.
pub struct Event {
    pub argument: u64,
    pub time: u64,
}

/// How far a run has come.
pub enum Status {
    Running,
    Exited(u64),
    Failed,
}

/// A machine in the middle of a run. A cell of the stack has a size and a content.
#[verifier::ext_equal]
pub struct Machine {
    pub pc: int,
    pub regs: Seq<Word>,
    pub stack: Map<int, (int, Word)>,
    pub tables: Map<int, Table>,
    pub status: Status,
}

/// Where the first argument stands in the context.
pub const ARGUMENT_AT: i16 = 112;

/// The size of the stack in bytes.
pub const STACK_SIZE: i16 = 512;

/// A machine at the start of a run.
pub open spec fn boot(tables: Map<int, Table>) -> Machine {
    Machine {
        pc: 0,
        regs: Seq::new(
            11,
            |r: int|
                if r == 1 {
                    Word::Context
                } else if r == 10 {
                    Word::Frame(0)
                } else {
                    Word::Unset
                },
        ),
        stack: Map::empty(),
        tables,
        status: Status::Running,
    }
}

/// A run that has come to a forbidden operation.
pub open spec fn failed(m: Machine) -> Machine {
    Machine { status: Status::Failed, ..m }
}

/// A register is set, and the run goes on.
pub open spec fn set(m: Machine, dst: u8, w: Word) -> Machine {
    Machine { pc: m.pc + 1, regs: m.regs.update(dst as int, w), ..m }
}

/// The run goes on behind an offset.
pub open spec fn jump(m: Machine, off: int) -> Machine {
    Machine { pc: m.pc + 1 + off, ..m }
}

/// A number reduced to 64 bits.
pub open spec fn low_u64(n: int) -> u64 {
    (n % 0x1_0000_0000_0000_0000) as u64
}

/// The content of a cell of a size that a word points to.
pub open spec fn cell(m: Machine, w: Word, size: int) -> Word {
    match w {
        Word::Frame(at) => if m.stack.dom().contains(at) && m.stack[at].0 == size {
            m.stack[at].1
        } else {
            Word::Unset
        },
        _ => Word::Unset,
    }
}

/// Stores a word in a cell of the stack.
pub open spec fn stored(m: Machine, at: int, size: int, w: Word) -> Machine {
    if -STACK_SIZE <= at && at + size <= 0 {
        Machine { pc: m.pc + 1, stack: m.stack.insert(at, (size, w)), ..m }
    } else {
        failed(m)
    }
}

/// A table with other entries.
pub open spec fn with_entries(m: Machine, table: int, entries: Map<u64, u64>) -> Machine {
    Machine {
        tables: m.tables.insert(table, Table { entries, ..m.tables[table] }),
        ..m
    }
}

/// A helper gives back a word; it leaves nothing in the registers for its arguments.
pub open spec fn returned(m: Machine, w: Word) -> Machine {
    Machine {
        pc: m.pc + 1,
        regs: Seq::new(
            11,
            |r: int|
                if r == 0 {
                    w
                } else if r <= 5 {
                    Word::Unset
                } else {
                    m.regs[r]
                },
        ),
        ..m
    }
}

/// The key that the second argument of a helper points to, for the table in the first.
pub open spec fn key_of(m: Machine) -> Option<(int, u64)> {
    match m.regs[1] {
        Word::Table(t) => if m.tables.dom().contains(t) {
            match cell(m, m.regs[2], m.tables[t].key_size) {
                Word::Number(k) => Some((t, k)),
                _ => None,
            }
        } else {
            None
        },
        _ => None,
    }
}

/// Calls a helper: 1 looks up a key, 2 stores a value under a key, 3 deletes a key, and 5 tells the
/// time.
pub open spec fn call(event: Event, m: Machine, helper: int) -> Machine {
    if helper == 5 {
        returned(m, Word::Number(event.time))
    } else {
        match key_of(m) {
            Some((t, k)) => {
                let entries = m.tables[t].entries;
                if helper == 1 {
                    returned(
                        m,
                        if entries.dom().contains(k) {
                            Word::Slot { table: t, key: k }
                        } else {
                            Word::Number(0)
                        },
                    )
                } else if helper == 2 && m.regs[4] == Word::Number(0) {
                    match cell(m, m.regs[3], 8) {
                        Word::Number(v) => if entries.dom().contains(k) || !m.tables[t].full {
                            returned(with_entries(m, t, entries.insert(k, v)), Word::Unset)
                        } else {
                            returned(m, Word::Unset)
                        },
                        _ => failed(m),
                    }
                } else if helper == 3 {
                    returned(with_entries(m, t, entries.remove(k)), Word::Unset)
                } else {
                    failed(m)
                }
            },
            None => failed(m),
        }
    }
}

/// Loads eight bytes from where a register points.
pub open spec fn load(event: Event, m: Machine, i: Insn) -> Machine {
    match m.regs[i.src as int] {
        Word::Context => if i.off == ARGUMENT_AT {
            set(m, i.dst, Word::Number(event.argument))
        } else {
            failed(m)
        },
        Word::Slot { table, key } => if i.off == 0 && m.tables.dom().contains(table)
            && m.tables[table].entries.dom().contains(key) {
            set(m, i.dst, Word::Number(m.tables[table].entries[key]))
        } else {
            failed(m)
        },
        _ => failed(m),
    }
}

/// Stores some bytes of a register in the stack.
pub open spec fn store(m: Machine, i: Insn, size: int) -> Machine {
    match (m.regs[i.dst as int], m.regs[i.src as int]) {
        (Word::Frame(at), Word::Number(n)) => stored(
            m,
            at + i.off,
            size,
            Word::Number(
                if size == 4 {
                    (n % 0x1_0000_0000) as u64
                } else {
                    n
                },
            ),
        ),
        _ => failed(m),
    }
}

/// Adds a register to a value in a table, as one operation.
pub open spec fn atomic_add(m: Machine, i: Insn) -> Machine {
    match (m.regs[i.dst as int], m.regs[i.src as int]) {
        (Word::Slot { table, key }, Word::Number(n)) => {
            let entries = m.tables[table].entries;
            if i.off == 0 && i.imm == 0 && m.tables.dom().contains(table) && entries.dom().contains(
                key,
            ) {
                let sum = low_u64(entries[key] + n);
                jump(with_entries(m, table, entries.insert(key, sum)), 0)
            } else {
                failed(m)
            }
        },
        _ => failed(m),
    }
}

/// Adds an immediate value to a number or to a pointer into the stack.
pub open spec fn add_immediate(m: Machine, i: Insn) -> Machine {
    match m.regs[i.dst as int] {
        Word::Number(n) => set(m, i.dst, Word::Number(low_u64(n + i.imm))),
        Word::Frame(at) => set(m, i.dst, Word::Frame(at + i.imm)),
        _ => failed(m),
    }
}

/// Jumps where a register is zero.
pub open spec fn jump_if_zero(m: Machine, i: Insn) -> Machine {
    match m.regs[i.dst as int] {
        Word::Unset => failed(m),
        w => if i.imm != 0 {
            failed(m)
        } else if w == Word::Number(0) {
            jump(m, i.off)
        } else {
            jump(m, 0)
        },
    }
}

/// Carries out an instruction on two numbers.
pub open spec fn compute(m: Machine, i: Insn) -> Machine {
    match (m.regs[i.dst as int], m.regs[i.src as int]) {
        (Word::Number(a), Word::Number(b)) => if i.opcode == 0x1f {
            set(m, i.dst, Word::Number(low_u64(a - b)))
        } else if i.opcode == 0x2d {
            jump(
                m,
                if a > b {
                    i.off
                } else {
                    0
                },
            )
        } else {
            failed(m)
        },
        _ => failed(m),
    }
}

/// Carries out an instruction on a number and an immediate value.
pub open spec fn compute_immediate(m: Machine, i: Insn) -> Machine {
    match m.regs[i.dst as int] {
        Word::Number(a) => if i.opcode == 0x37 && i.imm > 0 {
            set(m, i.dst, Word::Number((a as int / i.imm) as u64))
        } else if i.opcode == 0x77 && 0 <= i.imm < 64 {
            set(m, i.dst, Word::Number((a as nat / pow2(i.imm as nat)) as u64))
        } else {
            failed(m)
        },
        _ => failed(m),
    }
}

/// Carries out an instruction.
pub open spec fn execute(event: Event, m: Machine, i: Insn) -> Machine {
    if i.opcode == 0x85 {
        call(event, m, i.imm)
    } else if i.opcode == 0xbf {
        match m.regs[i.src as int] {
            Word::Unset => failed(m),
            w => set(m, i.dst, w),
        }
    } else if i.opcode == 0xb7 {
        set(m, i.dst, Word::Number(low_u64(i.imm)))
    } else if i.opcode == 0x18 && i.src == 1 {
        Machine { pc: m.pc + 2, regs: m.regs.update(i.dst as int, Word::Table(i.imm)), ..m }
    } else if i.opcode == 0x79 {
        load(event, m, i)
    } else if i.opcode == 0x7b {
        store(m, i, 8)
    } else if i.opcode == 0x63 {
        store(m, i, 4)
    } else if i.opcode == 0xdb {
        atomic_add(m, i)
    } else if i.opcode == 0x07 {
        add_immediate(m, i)
    } else if i.opcode == 0x15 {
        jump_if_zero(m, i)
    } else if i.opcode == 0x05 {
        jump(m, i.off)
    } else if i.opcode == 0x1f || i.opcode == 0x2d {
        compute(m, i)
    } else if i.opcode == 0x37 || i.opcode == 0x77 {
        compute_immediate(m, i)
    } else if i.opcode == 0x95 {
        match m.regs[0] {
            Word::Number(n) => Machine { status: Status::Exited(n), ..m },
            _ => failed(m),
        }
    } else {
        failed(m)
    }
}

/// One step of a run. A run that has ended stays as it is.
pub open spec fn step(event: Event, program: Seq<Insn>, m: Machine) -> Machine {
    if m.status != Status::Running {
        m
    } else if 0 <= m.pc < program.len() {
        execute(event, m, program[m.pc])
    } else {
        failed(m)
    }
}

/// So many steps of a run.
pub open spec fn run(event: Event, program: Seq<Insn>, m: Machine, steps: nat) -> Machine
    decreases steps,
{
    if steps == 0 {
        m
    } else {
        run(event, program, step(event, program, m), (steps - 1) as nat)
    }
}

/// Some steps and some more are all of them together.
pub proof fn lemma_run_on(event: Event, program: Seq<Insn>, m: Machine, a: nat, b: nat)
    ensures
        run(event, program, run(event, program, m, a), b) == run(event, program, m, a + b),
    decreases a,
{
    if a > 0 {
        lemma_run_on(event, program, step(event, program, m), (a - 1) as nat, b);
    }
}

} // verus!
