//! Collectors: from what the kernel reports to metrics.
//!
//! A collector is handed the contents of the files it needs, or the error that reading one ended
//! in, together with the time; it keeps what the next collection has to be compared with.
pub mod bpf;
pub mod bpf_machine;
pub mod bpf_runs;
pub mod cpu;
pub mod disk;
pub mod kernel;
pub mod latency;
pub mod memory;
pub mod network;
pub mod process;
pub mod thermal;

use crate::metrics::SystemSnapshot;
use vstd::prelude::*;

verus! {

/// A failed read: the operating system's error number, where there is one, and its text.
#[derive(Debug)]
pub struct IoError {
    pub code: Option<i32>,
    pub message: String,
}

/// The contents of a file, or why they could not be read.
pub type FileRead<'a> = Result<&'a [u8], IoError>;

/// The contents of a text file, or why they could not be read.
pub type TextRead<'a> = Result<&'a str, IoError>;

/// Why a collection failed.
#[derive(Debug)]
pub enum CollectorError {
    Io(IoError),
    Parse(String),
    Unsupported(String),
}

/// A source of snapshots.
pub trait Collector {
    fn collect(&mut self) -> Result<SystemSnapshot, CollectorError>;
}

/// `a - b`, or zero where that is negative.
pub open spec fn excess(a: u64, b: u64) -> u64 {
    if a > b {
        (a - b) as u64
    } else {
        0
    }
}

/// The nanoseconds since an earlier collection; zero where there was none, or where the clock was
/// set back.
pub open spec fn elapsed(prev_ns: Option<u64>, now_ns: u64) -> u64 {
    match prev_ns {
        Some(prev) => excess(now_ns, prev),
        None => 0,
    }
}

/// The nanoseconds since an earlier collection.
pub fn elapsed_since(prev_ns: Option<u64>, now_ns: u64) -> (res: u64)
    ensures
        res == elapsed(prev_ns, now_ns),
{
    match prev_ns {
        Some(prev) => now_ns.saturating_sub(prev),
        None => 0,
    }
}

/// What an error says.
pub open spec fn error_text(e: CollectorError) -> Seq<char> {
    match e {
        CollectorError::Io(io) => "IO error: "@ + io.message@,
        CollectorError::Parse(s) => "Parse error: "@ + s@,
        CollectorError::Unsupported(s) => "Unsupported: "@ + s@,
    }
}

impl CollectorError {
    /// What the error says.
    pub fn message(&self) -> (res: String)
        ensures
            res@ == error_text(*self),
    {
        match self {
            CollectorError::Io(e) => "IO error: ".to_owned().concat(e.message.as_str()),
            CollectorError::Parse(s) => "Parse error: ".to_owned().concat(s.as_str()),
            CollectorError::Unsupported(s) => "Unsupported: ".to_owned().concat(s.as_str()),
        }
    }
}

impl From<IoError> for CollectorError {
    fn from(e: IoError) -> (res: Self) {
        CollectorError::Io(e)
    }
}

impl vstd::std_specs::convert::FromSpecImpl<IoError> for CollectorError {
    open spec fn obeys_from_spec() -> bool {
        true
    }

    open spec fn from_spec(e: IoError) -> Self {
        CollectorError::Io(e)
    }
}

/// By how much a counter of 64 bits went on, also where it came back to zero in between.
pub open spec fn grown(before: u64, now: u64) -> int {
    if before <= now {
        now - before
    } else {
        now - before + 0x1_0000_0000_0000_0000
    }
}

/// A number reduced to 64 bits.
pub open spec fn low_bits(n: int) -> int {
    n % 0x1_0000_0000_0000_0000
}

/// Adding to a reduced number and reducing again is reducing the sum.
pub proof fn lemma_low_bits(n: int, sum: u64, more: u64)
    requires
        sum == low_bits(n),
    ensures
        sum.wrapping_add(more) == low_bits(n + more),
{
}

} // verus!
