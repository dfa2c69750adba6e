//! The user library: each system call as the registers that its `ecall`
//! hands to the kernel.
use vstd::prelude::*;
use crate::syscall::{SYS_UPTIME, SYS_YIELD, SYS_WRITE, SYS_EXIT};
use crate::memory::{PhysMem, changed_only};
use crate::string::memset;

verus! {

/// The registers of an `ecall`: the call number in `a7` and three
/// arguments in `a0`, `a1` and `a2`. The kernel's answer comes back in
/// `a0`.
#[derive(Clone, Copy, Debug, PartialEq, Eq, Structural)]
pub struct Ecall {
    pub id: u64,
    pub a0: u64,
    pub a1: u64,
    pub a2: u64,
}

/// The `ecall` of `write(fd, buf, len)`.
pub open spec fn write_call(fd: u64, buf: u64, len: u64) -> Ecall {
    Ecall { id: SYS_WRITE, a0: fd, a1: buf, a2: len }
}

/// The `ecall` of `exit(xstate)`.
pub open spec fn exit_call(xstate: i32) -> Ecall {
    Ecall { id: SYS_EXIT, a0: xstate as u64, a1: 0, a2: 0 }
}

/// System call `id` with arguments `args`.
pub fn syscall(id: u64, args: [u64; 3]) -> (e: Ecall)
    ensures
        e == (Ecall { id, a0: args[0], a1: args[1], a2: args[2] }),
{
    Ecall { id, a0: args[0], a1: args[1], a2: args[2] }
}

/// Writes the `len` bytes at `buf` to file `fd` (call 16, the kernel's
/// `write`); the kernel answers with the number written.
pub fn sys_write(fd: u64, buf: u64, len: u64) -> (e: Ecall)
    ensures
        e == write_call(fd, buf, len),
{
    syscall(SYS_WRITE, [fd, buf, len])
}

/// Ends the application with status `xstate` (call 2, the kernel's
/// `exit`); the kernel does not answer.
pub fn sys_exit(xstate: i32) -> (e: Ecall)
    ensures
        e == exit_call(xstate),
{
    syscall(SYS_EXIT, [xstate as u64, 0, 0])
}

/// Asks for the time since boot.
pub fn sys_get_time() -> (e: Ecall)
    ensures
        e == (Ecall { id: SYS_UPTIME, a0: 0, a1: 0, a2: 0 }),
{
    syscall(SYS_UPTIME, [0, 0, 0])
}

/// Gives up the hart to another application.
pub fn sys_yield() -> (e: Ecall)
    ensures
        e == (Ecall { id: SYS_YIELD, a0: 0, a1: 0, a2: 0 }),
{
    syscall(SYS_YIELD, [0, 0, 0])
}

/// Writes `len` bytes from `buf` to file `fd`.
pub fn write(fd: u64, buf: u64, len: u64) -> (e: Ecall)
    ensures
        e == write_call(fd, buf, len),
{
    sys_write(fd, buf, len)
}

/// Ends the application with `exit_code`.
pub fn exit(exit_code: i32) -> (e: Ecall)
    ensures
        e == exit_call(exit_code),
{
    sys_exit(exit_code)
}

/// Gives up the hart.
pub fn yield_() -> (e: Ecall)
    ensures
        e == (Ecall { id: SYS_YIELD, a0: 0, a1: 0, a2: 0 }),
{
    sys_yield()
}

/// Asks for the time.
pub fn get_time() -> (e: Ecall)
    ensures
        e == (Ecall { id: SYS_UPTIME, a0: 0, a1: 0, a2: 0 }),
{
    sys_get_time()
}


/// Zeroes the application's uninitialised data, `[start_bss, end_bss)`.
pub fn clear_bss(mem: &mut PhysMem, start_bss: u64, end_bss: u64)
    requires
        old(mem).wf(),
        start_bss <= end_bss,
        old(mem).contains(start_bss as int, end_bss - start_bss),
    ensures
        changed_only(old(mem), final(mem), start_bss as int, end_bss - start_bss),
        forall|q: int| start_bss <= q < end_bss ==> #[trigger] final(mem).byte(q) == 0,
{
    memset(mem, start_bss, 0, end_bss - start_bss);
}

/// The application's entry: clears its uninitialised data, then ends with
/// the status its `main` returned, `code`, through `exit`.
pub fn _start(mem: &mut PhysMem, start_bss: u64, end_bss: u64, code: i32) -> (e: Ecall)
    requires
        old(mem).wf(),
        start_bss <= end_bss,
        old(mem).contains(start_bss as int, end_bss - start_bss),
    ensures
        e == exit_call(code),
        changed_only(old(mem), final(mem), start_bss as int, end_bss - start_bss),
        forall|q: int| start_bss <= q < end_bss ==> #[trigger] final(mem).byte(q) == 0,
{
    clear_bss(mem, start_bss, end_bss);
    exit(code)
}

} // verus!
