//! File-related system calls; standard output is the only file.
use vstd::prelude::*;
use crate::memory::PhysMem;
use crate::proc::{Proc, trapframe_at, TRAPFRAME_SIZE};
use crate::syscall::{argint, argaddr, arg_reg, frame_in};
use crate::user::Ecall;
use crate::vm::PageTable;
use crate::riscv::{PGSIZE, MAXVA, PTE_V, PTE_U, pte2pa};

verus! {

/// The file descriptor of standard output.
pub const STDOUT: isize = 1;

/// Fetches argument `n` as a file descriptor into `pfd`; there are no
/// file objects yet, so `pf` is not filled. Returns 0, or -1 when there is
/// no argument `n`.
pub fn argfd(p: &Proc, mem: &PhysMem, n: isize, pfd: &mut isize, pf: isize) -> (r: isize)
    requires
        frame_in(p, mem),
    ensures
        0 <= n <= 5 ==> *final(pfd) == arg_reg(trapframe_at(mem, p.trapframe->0 as int), n as int) as isize && r == 0,
        !(0 <= n <= 5) ==> *final(pfd) == *old(pfd) && r == -1,
{
    if argint(p, mem, n, pfd) < 0 {
        return -1;
    }
    0
}

/// The file that `write` was asked for, argument 0.
pub open spec fn write_fd(p: &Proc, mem: &PhysMem) -> isize {
    trapframe_at(mem, p.trapframe->0 as int).a0 as isize
}

/// The length that `write` was asked for, argument 2.
pub open spec fn write_len(p: &Proc, mem: &PhysMem) -> isize {
    trapframe_at(mem, p.trapframe->0 as int).a2 as isize
}

/// The user address of the buffer that `write` was asked for, argument 1.
pub open spec fn write_buf(p: &Proc, mem: &PhysMem) -> u64 {
    trapframe_at(mem, p.trapframe->0 as int).a1
}

/// User address `va` reads a byte of memory through `pt`.
pub open spec fn user_readable(pt: &PageTable, mem: &PhysMem, va: int) -> bool {
    pt.user_pa(mem, va) matches Some(pa) && mem.contains(pa, 1)
}

/// Every byte of the buffer of `write` is readable by the process.
pub open spec fn write_readable(p: &Proc, mem: &PhysMem) -> bool {
    forall|k: int| 0 <= k < write_len(p, mem) ==> #[trigger] user_readable(&p.pagetable->0, mem, write_buf(p, mem) + k)
}

/// What `write` returns: the length, or -1 for another file than standard
/// output, a negative length or a buffer the process cannot read.
pub open spec fn write_result(p: &Proc, mem: &PhysMem) -> isize {
    if write_fd(p, mem) == STDOUT && write_len(p, mem) >= 0 && write_readable(p, mem) {
        write_len(p, mem)
    } else {
        -1isize
    }
}

/// The bytes that `write` prints: those of the buffer, each found by
/// translating its user address through the process's page table; none
/// when it fails.
pub open spec fn write_output(p: &Proc, mem: &PhysMem) -> Seq<u8> {
    if write_result(p, mem) >= 0 {
        Seq::new(
            write_len(p, mem) as nat,
            |k: int| mem.byte(p.pagetable->0.user_pa(mem, write_buf(p, mem) + k)->0),
        )
    } else {
        Seq::empty()
    }
}

/// What `write` needs of the process: a trap frame in memory and a sound
/// page table, whose table pages lie off the trap frame.
pub open spec fn write_ok(p: &Proc, mem: &PhysMem) -> bool {
    &&& frame_in(p, mem)
    &&& p.pagetable is Some
    &&& p.pagetable->0.wf(mem)
    &&& forall|t: u64|
        #[trigger] p.pagetable->0.owns(t) ==> t + PGSIZE <= p.trapframe->0 || p.trapframe->0 + TRAPFRAME_SIZE <= t
}

/// The `write` system call: fetches the file, buffer and length, and
/// returns the length with the bytes to print on standard output, read
/// from the buffer's user addresses through the process's page table; or
/// -1 and nothing to print when the file is not standard output, the
/// length is negative or a byte of the buffer cannot be read.
pub fn sys_write(p: &Proc, mem: &PhysMem) -> (r: (isize, Vec<u8>))
    requires
        write_ok(p, mem),
    ensures
        r.0 == write_result(p, mem),
        r.1@ == write_output(p, mem),
{
    let mut fd: isize = 0;
    let mut buf: u64 = 0;
    let mut len: isize = 0;
    if argint(p, mem, 2, &mut len) < 0 || argint(p, mem, 0, &mut fd) < 0 {
        return (-1, Vec::new());
    }
    if argaddr(p, mem, 1, &mut buf) < 0 {
        return (-1, Vec::new());
    }
    if fd != STDOUT || len < 0 {
        return (-1, Vec::new());
    }
    let pt = p.pagetable.as_ref().unwrap();
    let n = len as u64;
    let mut out: Vec<u8> = Vec::new();
    let mut k: u64 = 0;
    while k < n
        invariant
            write_ok(p, mem),
            pt == p.pagetable->0,
            fd == write_fd(p, mem),
            buf == write_buf(p, mem),
            len == write_len(p, mem),
            fd == STDOUT,
            0 <= len,
            n == len,
            k <= n,
            out@ == Seq::new(k as nat, |x: int| mem.byte(pt.user_pa(mem, buf + x)->0)),
            forall|x: int| 0 <= x < k ==> #[trigger] user_readable(pt, mem, buf + x),
        decreases n - k,
    {
        if buf > MAXVA || k > MAXVA - buf {
            proof {
                assert(!user_readable(pt, mem, buf + k));
            }
            return (-1, Vec::new());
        }
        let va = buf + k;
        match pt.lookup(mem, va) {
            None => {
                proof {
                    assert(!user_readable(pt, mem, buf + k));
                }
                return (-1, Vec::new());
            },
            Some(a) => {
                let pte = mem.read_word(a);
                if pte & PTE_V == 0 || pte & PTE_U == 0 {
                    proof {
                        assert(!user_readable(pt, mem, buf + k));
                    }
                    return (-1, Vec::new());
                }
                let frame = pte2pa(pte);
                assert(frame <= u64::MAX - 4095) by (nonlinear_arith)
                    requires
                        frame % 4096 == 0,
                        frame <= u64::MAX,
                ;
                let pa = frame + va % PGSIZE;
                if pa < mem.base || pa - mem.base >= mem.bytes.len() as u64 {
                    proof {
                        assert(!user_readable(pt, mem, buf + k));
                    }
                    return (-1, Vec::new());
                }
                proof {
                    assert(pt.user_pa(mem, buf + k) == Some(pa as int));
                    assert(user_readable(pt, mem, buf + k));
                }
                let b = mem.read_byte(pa);
                out.push(b);
                proof {
                    assert(out@ =~= Seq::new((k + 1) as nat, |x: int| mem.byte(pt.user_pa(mem, buf + x)->0)));
                }
            },
        }
        k = k + 1;
    }
    proof {
        assert(write_readable(p, mem));
        assert(out@ =~= write_output(p, mem));
    }
    (len, out)
}

/// A `write` that the user library asks for reaches the kernel's `write`
/// with its arguments: once the trap has saved the registers of the
/// `ecall` in the process's trap frame, the call number is the one the
/// kernel serves as `write`, and `write` writes the `len` bytes at user
/// address `buf` when `fd` is standard output and the process can read
/// them, and returns `len`.
pub proof fn law_user_write_reaches_kernel(fd: u64, buf: u64, len: u64, e: Ecall, p: &Proc, mem: &PhysMem)
    requires
        e == crate::user::write_call(fd, buf, len),
        frame_in(p, mem),
        ({
            let tf = trapframe_at(mem, p.trapframe->0 as int);
            &&& tf.a0 == e.a0
            &&& tf.a1 == e.a1
            &&& tf.a2 == e.a2
            &&& tf.a7 == e.id
        }),
    ensures
        trapframe_at(mem, p.trapframe->0 as int).a7 == crate::syscall::SYS_WRITE,
        write_fd(p, mem) == fd as isize,
        write_buf(p, mem) == buf,
        write_len(p, mem) == len as isize,
        fd as isize == STDOUT && len as isize as int == len && (forall|k: int| 0 <= k < len ==> #[trigger] user_readable(
            &p.pagetable->0,
            mem,
            buf + k,
        )) ==> {
            &&& write_result(p, mem) == len as isize
            &&& write_output(p, mem) == Seq::new(len as nat, |k: int| mem.byte(p.pagetable->0.user_pa(mem, buf + k)->0))
        },
{
    if fd as isize == STDOUT && len as isize as int == len && (forall|k: int| 0 <= k < len ==> #[trigger] user_readable(
        &p.pagetable->0,
        mem,
        buf + k,
    )) {
        assert(write_readable(p, mem));
        assert(write_output(p, mem) =~= Seq::new(len as nat, |k: int| mem.byte(p.pagetable->0.user_pa(mem, buf + k)->0)));
    }
}

} // verus!
