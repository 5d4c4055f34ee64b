//! What the tracing programs do when they are run.
use crate::collector::bpf;
use crate::collector::bpf_machine;
use crate::collector::bpf_machine::{Event, Machine, Status, Table, Word};
use vstd::arithmetic::power2::*;
use vstd::prelude::*;

verus! {

/// The integer logarithm to base two; zero for zero.
pub open spec fn log2(n: nat) -> nat
    decreases n,
{
    if n < 2 {
        0
    } else {
        1 + log2(n / 2)
    }
}

/// The bucket for a request: the logarithm of the microseconds that it took, at most the last
/// bucket.
pub open spec fn bucket_of(start: u64, end: u64) -> u64 {
    let us = bpf_machine::low_u64(end - start) as nat / 1000;
    if log2(us) < 63 {
        log2(us) as u64
    } else {
        63
    }
}

/// The table of start times, with keys of eight bytes.
pub open spec fn is_start_table(t: Table) -> bool {
    t.key_size == 8
}

/// The table of buckets, with keys of four bytes and an entry for every bucket.
pub open spec fn is_histogram(t: Table) -> bool {
    &&& t.key_size == 4
    &&& forall|k: u64| 0 <= k < 64 ==> #[trigger] t.entries.dom().contains(k)
}

/// The tables after the start of a request: its time is noted, unless there is no room for it.
pub open spec fn after_start(tables: Map<int, Table>, fd: int, event: Event) -> Map<int, Table> {
    let t = tables[fd];
    if t.entries.dom().contains(event.argument) || !t.full {
        tables.insert(fd, Table { entries: t.entries.insert(event.argument, event.time), ..t })
    } else {
        tables
    }
}

/// The tables after the end of a request whose start was noted: there is one more request in its
/// bucket, and the note is gone.
pub open spec fn after_done(tables: Map<int, Table>, start: int, hist: int, event: Event) -> Map<
    int,
    Table,
> {
    let s = tables[start];
    let h = tables[hist];
    let k = bucket_of(s.entries[event.argument], event.time);
    let count = bpf_machine::low_u64(h.entries[k] + 1);
    tables.insert(hist, Table { entries: h.entries.insert(k, count), ..h }).insert(
        start,
        Table { entries: s.entries.remove(event.argument), ..s },
    )
}

/// At the start of a request the program notes the time under the address of the request, and
/// exits with zero.
pub proof fn starts_are_noted(tables: Map<int, Table>, start_fd: i32, event: Event)
    requires
        tables.dom().contains(start_fd as int),
        is_start_table(tables[start_fd as int]),
    ensures
        ({
            let end = bpf_machine::run(
                event,
                bpf::start_program(start_fd),
                bpf_machine::boot(tables),
                14,
            );
            &&& end.status == Status::Exited(0)
            &&& end.tables == after_start(tables, start_fd as int, event)
        }),
{
    let p = bpf::start_program(start_fd);
    let m0 = bpf_machine::boot(tables);
    let m1 = bpf_machine::step(event, p, m0);
    let m2 = bpf_machine::step(event, p, m1);
    let m3 = bpf_machine::step(event, p, m2);
    let m4 = bpf_machine::step(event, p, m3);
    let m5 = bpf_machine::step(event, p, m4);
    assert(m5.pc == 5 && m5.stack.dom().contains(-8) && m5.stack[-8] == (
        8int,
        Word::Number(event.argument),
    ));
    assert(m5.stack.dom().contains(-16) && m5.stack[-16] == (8int, Word::Number(event.time)));
    assert(m5.regs[10] == Word::Frame(0) && m5.tables == tables);
    let m6 = bpf_machine::step(event, p, m5);
    let m7 = bpf_machine::step(event, p, m6);
    let m8 = bpf_machine::step(event, p, m7);
    let m9 = bpf_machine::step(event, p, m8);
    let m10 = bpf_machine::step(event, p, m9);
    let m11 = bpf_machine::step(event, p, m10);
    assert(m11.pc == 12 && m11.regs[1] == Word::Table(start_fd as int));
    assert(m11.regs[2] == Word::Frame(-8) && m11.regs[3] == Word::Frame(-16));
    assert(m11.regs[4] == Word::Number(0));
    let m12 = bpf_machine::step(event, p, m11);
    assert(m12.tables == after_start(tables, start_fd as int, event));
    let m13 = bpf_machine::step(event, p, m12);
    let m14 = bpf_machine::step(event, p, m13);
    assert(m14.status == Status::Exited(0));
    reveal_with_fuel(bpf_machine::run, 15);
}

/// The instructions of the program for the end of a request, by their places.
proof fn lemma_done_program(start_fd: i32, hist_fd: i32)
    ensures
        ({
            let p = bpf::done_program(start_fd, hist_fd);
            &&& p.len() == 40
            &&& forall|i: int| 0 <= i < 10 ==> #[trigger] p[i] == bpf::done_lookup(start_fd)[i]
            &&& forall|i: int| 10 <= i < 25 ==> #[trigger] p[i] == bpf::done_bucket()[i - 10]
            &&& forall|i: int| 25 <= i < 33 ==> #[trigger] p[i] == bpf::done_count(hist_fd)[i - 25]
            &&& forall|i: int| 33 <= i < 40 ==> #[trigger] p[i] == bpf::done_delete(start_fd)[i
                - 33]
        }),
{
}

/// The first nine steps look up the start.
proof fn lemma_lookup(tables: Map<int, Table>, start_fd: i32, hist_fd: i32, event: Event)
    requires
        tables.dom().contains(start_fd as int),
        is_start_table(tables[start_fd as int]),
    ensures
        ({
            let p = bpf::done_program(start_fd, hist_fd);
            let m = bpf_machine::run(event, p, bpf_machine::boot(tables), 9);
            let noted = tables[start_fd as int].entries.dom().contains(event.argument);
            &&& m.status == Status::Running
            &&& m.pc == if noted {
                10int
            } else {
                38
            }
            &&& m.tables == tables
            &&& m.regs.len() == 11
            &&& m.regs[0] == if noted {
                Word::Slot { table: start_fd as int, key: event.argument }
            } else {
                Word::Number(0)
            }
            &&& m.regs[6] == Word::Number(event.time)
            &&& m.regs[10] == Word::Frame(0)
            &&& m.stack.dom().contains(-8)
            &&& m.stack[-8] == (8int, Word::Number(event.argument))
        }),
{
    let p = bpf::done_program(start_fd, hist_fd);
    lemma_done_program(start_fd, hist_fd);
    let m0 = bpf_machine::boot(tables);
    let m1 = bpf_machine::step(event, p, m0);
    let m2 = bpf_machine::step(event, p, m1);
    let m3 = bpf_machine::step(event, p, m2);
    let m4 = bpf_machine::step(event, p, m3);
    assert(m4.pc == 4 && m4.stack.dom().contains(-8) && m4.stack[-8] == (
        8int,
        Word::Number(event.argument),
    ));
    assert(m4.regs[6] == Word::Number(event.time));
    assert(m4.regs[10] == Word::Frame(0) && m4.tables == tables);
    let m5 = bpf_machine::step(event, p, m4);
    let m6 = bpf_machine::step(event, p, m5);
    let m7 = bpf_machine::step(event, p, m6);
    assert(m7.pc == 8 && m7.regs[1] == Word::Table(start_fd as int));
    assert(m7.regs[2] == Word::Frame(-8));
    let m8 = bpf_machine::step(event, p, m7);
    assert(m8.pc == 9);
    let m9 = bpf_machine::step(event, p, m8);
    reveal_with_fuel(bpf_machine::run, 10);
    assert(bpf_machine::run(event, p, m0, 9) == m9);
}

/// At the end of a request whose start was not noted the program exits with zero. It follows no
/// pointer to nothing, and leaves all tables as they were.
pub proof fn unknown_requests_are_ignored(
    tables: Map<int, Table>,
    start_fd: i32,
    hist_fd: i32,
    event: Event,
)
    requires
        tables.dom().contains(start_fd as int),
        is_start_table(tables[start_fd as int]),
        !tables[start_fd as int].entries.dom().contains(event.argument),
    ensures
        ({
            let end = bpf_machine::run(
                event,
                bpf::done_program(start_fd, hist_fd),
                bpf_machine::boot(tables),
                11,
            );
            &&& end.status == Status::Exited(0)
            &&& end.tables == tables
        }),
{
    let p = bpf::done_program(start_fd, hist_fd);
    let m0 = bpf_machine::boot(tables);
    lemma_done_program(start_fd, hist_fd);
    lemma_lookup(tables, start_fd, hist_fd, event);
    bpf_machine::lemma_run_on(event, p, m0, 9, 2);
    reveal_with_fuel(bpf_machine::run, 3);
}

/// How many steps the loop takes.
spec fn loop_steps(n: nat) -> nat
    decreases n,
{
    if n < 2 {
        2
    } else {
        4 + loop_steps(n / 2)
    }
}

proof fn lemma_log2_bound(n: nat, e: nat)
    requires
        n < pow2(e),
    ensures
        log2(n) < e || n == 0,
    decreases n,
{
    if n >= 2 {
        if e == 0 {
            lemma2_to64();
        } else {
            lemma_pow2_unfold(e);
            lemma_log2_bound(n / 2, (e - 1) as nat);
        }
    } else if n == 1 && e == 0 {
        lemma2_to64();
    }
}

/// The loop counts how often a number can be halved.
proof fn lemma_loop(start_fd: i32, hist_fd: i32, event: Event, m: Machine, count: u64, n: u64)
    requires
        m.status == Status::Running,
        m.pc == 16,
        m.regs.len() == 11,
        m.regs[1] == Word::Number(count),
        m.regs[2] == Word::Number(n),
        count + log2(n as nat) < 0x1_0000,
    ensures
        ({
            let p = bpf::done_program(start_fd, hist_fd);
            let end = bpf_machine::run(event, p, m, loop_steps(n as nat));
            &&& end == (Machine { pc: 20, regs: end.regs, ..m })
            &&& end.regs.len() == 11
            &&& end.regs[1] == Word::Number((count + log2(n as nat)) as u64)
            &&& forall|r: int| 3 <= r < 11 ==> end.regs[r] == m.regs[r]
        }),
    decreases n,
{
    let p = bpf::done_program(start_fd, hist_fd);
    lemma_done_program(start_fd, hist_fd);
    lemma2_to64();
    let m1 = bpf_machine::step(event, p, m);
    assert(p[16] == bpf::done_bucket()[6]);
    assert(m1.pc == 17 && m1.regs[2] == Word::Number((n as nat / 2) as u64));
    let m2 = bpf_machine::step(event, p, m1);
    assert(p[17] == bpf::done_bucket()[7]);
    reveal_with_fuel(bpf_machine::run, 5);
    if n < 2 {
        assert(m2.pc == 20);
        assert(bpf_machine::run(event, p, m, 2) == m2);
    } else {
        assert(p[18] == bpf::done_bucket()[8]);
        assert(p[19] == bpf::done_bucket()[9]);
        assert(m2.pc == 18);
        let m3 = bpf_machine::step(event, p, m2);
        assert(m3.regs[1] == Word::Number((count + 1) as u64));
        let m4 = bpf_machine::step(event, p, m3);
        assert(m4.pc == 16);
        assert(bpf_machine::run(event, p, m, 4) == m4);
        lemma_loop(start_fd, hist_fd, event, m4, (count + 1) as u64, n / 2);
        bpf_machine::lemma_run_on(event, p, m, 4, loop_steps(n as nat / 2));
    }
}

/// Six steps work out the microseconds.
proof fn lemma_microseconds(
    start_fd: i32,
    hist_fd: i32,
    event: Event,
    m: Machine,
    noted: u64,
)
    requires
        m.status == Status::Running,
        m.pc == 10,
        m.regs.len() == 11,
        m.regs[0] == (Word::Slot { table: start_fd as int, key: event.argument }),
        m.regs[6] == Word::Number(event.time),
        m.tables.dom().contains(start_fd as int),
        m.tables[start_fd as int].entries.dom().contains(event.argument),
        m.tables[start_fd as int].entries[event.argument] == noted,
    ensures
        ({
            let p = bpf::done_program(start_fd, hist_fd);
            let end = bpf_machine::run(event, p, m, 6);
            let us = bpf_machine::low_u64(event.time - noted) as nat / 1000;
            &&& end == (Machine { pc: 16, regs: end.regs, ..m })
            &&& end.regs.len() == 11
            &&& end.regs[1] == Word::Number(0)
            &&& end.regs[2] == Word::Number(us as u64)
            &&& end.regs[10] == m.regs[10]
        }),
{
    let p = bpf::done_program(start_fd, hist_fd);
    lemma_done_program(start_fd, hist_fd);
    let m1 = bpf_machine::step(event, p, m);
    let m2 = bpf_machine::step(event, p, m1);
    let m3 = bpf_machine::step(event, p, m2);
    let m4 = bpf_machine::step(event, p, m3);
    let m5 = bpf_machine::step(event, p, m4);
    let m6 = bpf_machine::step(event, p, m5);
    assert(p[10] == bpf::done_bucket()[0] && p[11] == bpf::done_bucket()[1]);
    assert(p[12] == bpf::done_bucket()[2] && p[13] == bpf::done_bucket()[3]);
    assert(p[14] == bpf::done_bucket()[4] && p[15] == bpf::done_bucket()[5]);
    assert(m1.regs[8] == Word::Number(noted));
    assert(m3.regs[9] == Word::Number(bpf_machine::low_u64(event.time - noted)));
    assert(m6.pc == 16);
    reveal_with_fuel(bpf_machine::run, 7);
    assert(bpf_machine::run(event, p, m, 6) == m6);
}

/// Four steps store the bucket; it is not limited, as it is small enough.
proof fn lemma_bucket(start_fd: i32, hist_fd: i32, event: Event, m: Machine, k: u64)
    requires
        m.status == Status::Running,
        m.pc == 20,
        m.regs.len() == 11,
        m.regs[1] == Word::Number(k),
        k <= 63,
        m.regs[10] == Word::Frame(0),
    ensures
        ({
            let p = bpf::done_program(start_fd, hist_fd);
            let end = bpf_machine::run(event, p, m, 4);
            &&& end == (Machine {
                pc: 25,
                regs: end.regs,
                stack: m.stack.insert(-24, (4, Word::Number(k))),
                ..m
            })
            &&& end.regs.len() == 11
            &&& end.regs[10] == Word::Frame(0)
        }),
{
    let p = bpf::done_program(start_fd, hist_fd);
    lemma_done_program(start_fd, hist_fd);
    let m1 = bpf_machine::step(event, p, m);
    let m2 = bpf_machine::step(event, p, m1);
    let m3 = bpf_machine::step(event, p, m2);
    let m4 = bpf_machine::step(event, p, m3);
    assert(p[20] == bpf::done_bucket()[10] && p[21] == bpf::done_bucket()[11]);
    assert(p[22] == bpf::done_bucket()[12] && p[24] == bpf::done_bucket()[14]);
    assert(m1.regs[2] == Word::Number(63));
    assert(m3.pc == 24);
    assert(k % 0x1_0000_0000 == k);
    reveal_with_fuel(bpf_machine::run, 5);
    assert(bpf_machine::run(event, p, m, 4) == m4);
}

/// Seven steps count the request.
proof fn lemma_count(start_fd: i32, hist_fd: i32, event: Event, m: Machine, k: u64)
    requires
        m.status == Status::Running,
        m.pc == 25,
        m.regs.len() == 11,
        m.regs[10] == Word::Frame(0),
        m.stack.dom().contains(-24),
        m.stack[-24] == (4int, Word::Number(k)),
        m.tables.dom().contains(hist_fd as int),
        is_histogram(m.tables[hist_fd as int]),
        k < 64,
    ensures
        ({
            let p = bpf::done_program(start_fd, hist_fd);
            let end = bpf_machine::run(event, p, m, 7);
            let h = m.tables[hist_fd as int];
            let count = bpf_machine::low_u64(h.entries[k] + 1);
            &&& end == (Machine {
                pc: 33,
                regs: end.regs,
                tables: m.tables.insert(
                    hist_fd as int,
                    Table { entries: h.entries.insert(k, count), ..h },
                ),
                ..m
            })
            &&& end.regs.len() == 11
            &&& end.regs[10] == Word::Frame(0)
        }),
{
    let p = bpf::done_program(start_fd, hist_fd);
    lemma_done_program(start_fd, hist_fd);
    assert(p[25] == bpf::done_count(hist_fd)[0] && p[27] == bpf::done_count(hist_fd)[2]);
    assert(p[28] == bpf::done_count(hist_fd)[3] && p[29] == bpf::done_count(hist_fd)[4]);
    assert(p[30] == bpf::done_count(hist_fd)[5] && p[31] == bpf::done_count(hist_fd)[6]);
    assert(p[32] == bpf::done_count(hist_fd)[7]);
    let m1 = bpf_machine::step(event, p, m);
    let m2 = bpf_machine::step(event, p, m1);
    let m3 = bpf_machine::step(event, p, m2);
    assert(m3.pc == 29 && m3.regs[1] == Word::Table(hist_fd as int));
    assert(m3.regs[2] == Word::Frame(-24));
    let m4 = bpf_machine::step(event, p, m3);
    assert(m4.pc == 30 && m4.regs[0] == (Word::Slot { table: hist_fd as int, key: k }));
    let m5 = bpf_machine::step(event, p, m4);
    let m6 = bpf_machine::step(event, p, m5);
    assert(m6.pc == 32 && m6.regs[1] == Word::Number(1));
    let m7 = bpf_machine::step(event, p, m6);
    assert(m7.pc == 33);
    reveal_with_fuel(bpf_machine::run, 8);
    assert(bpf_machine::run(event, p, m, 7) == m7);
}

/// Six steps delete the note and exit.
proof fn lemma_delete(start_fd: i32, hist_fd: i32, event: Event, m: Machine)
    requires
        m.status == Status::Running,
        m.pc == 33,
        m.regs.len() == 11,
        m.regs[10] == Word::Frame(0),
        m.stack.dom().contains(-8),
        m.stack[-8] == (8int, Word::Number(event.argument)),
        m.tables.dom().contains(start_fd as int),
        is_start_table(m.tables[start_fd as int]),
    ensures
        ({
            let p = bpf::done_program(start_fd, hist_fd);
            let end = bpf_machine::run(event, p, m, 6);
            let s = m.tables[start_fd as int];
            &&& end.status == Status::Exited(0)
            &&& end.tables == m.tables.insert(
                start_fd as int,
                Table { entries: s.entries.remove(event.argument), ..s },
            )
        }),
{
    let p = bpf::done_program(start_fd, hist_fd);
    lemma_done_program(start_fd, hist_fd);
    assert(p[33] == bpf::done_delete(start_fd)[0] && p[35] == bpf::done_delete(start_fd)[2]);
    assert(p[36] == bpf::done_delete(start_fd)[3] && p[37] == bpf::done_delete(start_fd)[4]);
    assert(p[38] == bpf::done_delete(start_fd)[5] && p[39] == bpf::done_delete(start_fd)[6]);
    let m1 = bpf_machine::step(event, p, m);
    let m2 = bpf_machine::step(event, p, m1);
    let m3 = bpf_machine::step(event, p, m2);
    assert(m3.pc == 37 && m3.regs[1] == Word::Table(start_fd as int));
    assert(m3.regs[2] == Word::Frame(-8));
    let m4 = bpf_machine::step(event, p, m3);
    let m5 = bpf_machine::step(event, p, m4);
    assert(m5.pc == 39 && m5.regs[0] == Word::Number(0));
    let m6 = bpf_machine::step(event, p, m5);
    reveal_with_fuel(bpf_machine::run, 7);
    assert(bpf_machine::run(event, p, m, 6) == m6);
}

/// How many steps the program takes at the end of a request that took so many microseconds.
pub closed spec fn done_steps(us: nat) -> nat {
    32 + loop_steps(us)
}

/// At the end of a request whose start was noted the program counts the request in the bucket for
/// the time that it took, deletes the note, and exits with zero.
pub proof fn known_requests_are_counted(
    tables: Map<int, Table>,
    start_fd: i32,
    hist_fd: i32,
    event: Event,
)
    requires
        start_fd != hist_fd,
        tables.dom().contains(start_fd as int),
        tables.dom().contains(hist_fd as int),
        is_start_table(tables[start_fd as int]),
        is_histogram(tables[hist_fd as int]),
        tables[start_fd as int].entries.dom().contains(event.argument),
    ensures
        ({
            let noted = tables[start_fd as int].entries[event.argument];
            let end = bpf_machine::run(
                event,
                bpf::done_program(start_fd, hist_fd),
                bpf_machine::boot(tables),
                done_steps(bpf_machine::low_u64(event.time - noted) as nat / 1000),
            );
            &&& end.status == Status::Exited(0)
            &&& end.tables == after_done(tables, start_fd as int, hist_fd as int, event)
        }),
{
    let p = bpf::done_program(start_fd, hist_fd);
    let m0 = bpf_machine::boot(tables);
    let noted = tables[start_fd as int].entries[event.argument];
    let us = bpf_machine::low_u64(event.time - noted) as nat / 1000;
    lemma2_to64();
    lemma2_to64_rest();
    lemma_log2_bound(us, 64);
    let k = bucket_of(noted, event.time);
    lemma_lookup(tables, start_fd, hist_fd, event);
    let m1 = bpf_machine::run(event, p, m0, 9);
    lemma_microseconds(start_fd, hist_fd, event, m1, noted);
    let m2 = bpf_machine::run(event, p, m1, 6);
    lemma_loop(start_fd, hist_fd, event, m2, 0, us as u64);
    let m3 = bpf_machine::run(event, p, m2, loop_steps(us));
    assert(m3.regs[10] == m2.regs[10]);
    lemma_bucket(start_fd, hist_fd, event, m3, k);
    let m4 = bpf_machine::run(event, p, m3, 4);
    lemma_count(start_fd, hist_fd, event, m4, k);
    let m5 = bpf_machine::run(event, p, m4, 7);
    assert(m5.tables[start_fd as int] == tables[start_fd as int]);
    assert(m5.stack[-8] == m1.stack[-8]);
    lemma_delete(start_fd, hist_fd, event, m5);
    bpf_machine::lemma_run_on(event, p, m0, 9, 6);
    bpf_machine::lemma_run_on(event, p, m0, 15, loop_steps(us));
    bpf_machine::lemma_run_on(event, p, m0, 15 + loop_steps(us), 4);
    bpf_machine::lemma_run_on(event, p, m0, 19 + loop_steps(us), 7);
    bpf_machine::lemma_run_on(event, p, m0, 26 + loop_steps(us), 6);
}

/// A request that starts and then ends is counted in the bucket for the time in between, and leaves
/// no note behind.
pub proof fn requests_are_traced(
    tables: Map<int, Table>,
    start_fd: i32,
    hist_fd: i32,
    argument: u64,
    start: u64,
    end: u64,
)
    requires
        start_fd != hist_fd,
        tables.dom().contains(start_fd as int),
        tables.dom().contains(hist_fd as int),
        !tables[start_fd as int].full,
        !tables[start_fd as int].entries.dom().contains(argument),
    ensures
        ({
            let between = after_start(tables, start_fd as int, Event { argument, time: start });
            let after = after_done(
                between,
                start_fd as int,
                hist_fd as int,
                Event { argument, time: end },
            );
            let k = bucket_of(start, end);
            &&& after[start_fd as int].entries == tables[start_fd as int].entries
            &&& after[hist_fd as int].entries == tables[hist_fd as int].entries.insert(
                k,
                bpf_machine::low_u64(tables[hist_fd as int].entries[k] + 1),
            )
        }),
{
    let entries = tables[start_fd as int].entries;
    assert(entries.insert(argument, start).remove(argument) =~= entries);
}

/// A bucket holds the requests that took at least as many microseconds as it stands for, and fewer
/// than twice as many; those below one microsecond are in the first one, too.
pub proof fn buckets_stand_for_powers_of_two(start: u64, end: u64)
    ensures
        ({
            let us = bpf_machine::low_u64(end - start) as nat / 1000;
            let k = bucket_of(start, end);
            &&& k < 64
            &&& us > 0 ==> pow2(k as nat) <= us < pow2(k as nat + 1)
            &&& us == 0 ==> k == 0
        }),
{
    let us = bpf_machine::low_u64(end - start) as nat / 1000;
    lemma2_to64();
    lemma2_to64_rest();
    lemma_log2_bound(us, 54 + 1);
    if us > 0 {
        lemma_log2_range(us);
    }
}

proof fn lemma_log2_range(n: nat)
    requires
        n > 0,
    ensures
        pow2(log2(n)) <= n < pow2(log2(n) + 1),
    decreases n,
{
    lemma2_to64();
    if n >= 2 {
        lemma_log2_range(n / 2);
        lemma_pow2_unfold(log2(n));
        lemma_pow2_unfold(log2(n) + 1);
    }
}

} // verus!
