//! What is particular to one operating system.
pub mod linux;
