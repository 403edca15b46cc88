//! Verified core of a small RISC-V kernel: physical page allocation,
//! Sv39 page tables, task bookkeeping and scheduling decisions, the
//! console line discipline, and the pure register/address computations
//! that the hardware-facing code relies on.

pub mod mm;
pub mod vm;

pub mod context;
pub mod trap;
pub mod task;
pub mod csr;
pub mod plic;
pub mod timer;
pub mod console;
pub mod uart;
pub mod shell;
