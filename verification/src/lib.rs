//! A small RISC-V (Sv39) batch kernel, modelled and verified.
//!
//! Physical memory, the page-frame allocator, page tables, the process
//! pool, spinlocks and the system-call path are modelled as plain values,
//! and every operation carries a proved contract.
use vstd::prelude::*;

pub mod param;
pub mod riscv;
pub mod memlayout;
pub mod memory;
pub mod string;
pub mod kalloc;
pub mod vm;
pub mod uvm;
pub mod proc;
pub mod syscall;
pub mod sysfile;
pub mod sysproc;
pub mod trap;
pub mod spinlock;
pub mod user;
pub mod start;
pub mod batch;
pub mod kvm;
pub mod launch;

verus! {


} // verus!
