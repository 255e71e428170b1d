//! Core logic of the Void kernel: calendar arithmetic, the boot command
//! line, the intrusive list, the log ring, memory bookkeeping and the
//! other pieces that decide rather than touch hardware.

pub mod boot;
pub mod date;
pub mod gfx;
pub mod ksyms;
pub mod limine;
pub mod list;
pub mod log;
pub mod mem;
pub mod msr;
pub mod per_cpu;
pub mod sync;
