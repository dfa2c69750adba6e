//! Physical and virtual memory layout of the qemu `virt` machine.
use vstd::prelude::*;
use crate::riscv::PGSIZE;

verus! {

/// qemu puts the UART registers here in physical memory.
pub const UART0: u64 = 0x1000_0000;
/// virtio mmio disk interface.
pub const VIRTIO0: u64 = 0x1000_1000;
/// Core-local interruptor, which holds the timer.
pub const CLINT: u64 = 0x200_0000;
/// Cycles since boot.
pub const CLINT_MTIME: u64 = 0x200_BFF8;
/// Platform-level interrupt controller.
pub const PLIC: u64 = 0x0c00_0000;
/// The kernel expects RAM from here ...
pub const KERNBASE: u64 = 0x8000_0000;
/// ... to here (128 MiB).
pub const PHYSTOP: u64 = 0x8800_0000;
/// The trampoline page, mapped at the highest virtual address in both
/// user and kernel space (MAXVA - PGSIZE).
pub const TRAMPOLINE: u64 = 0x3F_FFFF_F000;
/// The trapframe page, just below the trampoline in user space
/// (TRAMPOLINE - PGSIZE).
pub const TRAPFRAME: u64 = 0x3F_FFFF_E000;

/// Virtual address of the kernel stack for `p`, each followed by an
/// unmapped guard page.
pub open spec fn kstack_spec(p: int) -> int {
    TRAMPOLINE - (p + 1) * 2 * PGSIZE
}

/// Computes the kernel-stack address for `p`.
pub fn kstack(p: u64) -> (r: u64)
    requires
        (p + 1) * 2 * PGSIZE <= TRAMPOLINE,
    ensures
        r == kstack_spec(p as int),
{
    TRAMPOLINE - (p + 1) * 2 * PGSIZE
}

} // verus!
