//! System-call numbers, argument fetching and dispatch.
use vstd::prelude::*;
use crate::memory::{PhysMem, changed_only};
use crate::param::{NPROC, NCPU};
use crate::riscv::Hart;
use crate::proc::{Proc, CPU, Switch, ProcState, TrapFrame, trapframe_at, tf_words, set_tf_word, TRAPFRAME_SIZE,
    TF_A0, myproc, next_slot};
use crate::sysfile::{sys_write, write_output, write_ok, write_result};
use crate::sysproc::{sys_exit, exited};

verus! {

pub const SYS_FORK: u64 = 1;
pub const SYS_EXIT: u64 = 2;
pub const SYS_WAIT: u64 = 3;
pub const SYS_PIPE: u64 = 4;
pub const SYS_READ: u64 = 5;
pub const SYS_KILL: u64 = 6;
pub const SYS_EXEC: u64 = 7;
pub const SYS_FSTAT: u64 = 8;
pub const SYS_CHDIR: u64 = 9;
pub const SYS_DUP: u64 = 10;
pub const SYS_GETPID: u64 = 11;
pub const SYS_SBRK: u64 = 12;
pub const SYS_SLEEP: u64 = 13;
pub const SYS_UPTIME: u64 = 14;
pub const SYS_OPEN: u64 = 15;
pub const SYS_WRITE: u64 = 16;
pub const SYS_MKNOD: u64 = 17;
pub const SYS_UNLINK: u64 = 18;
pub const SYS_LINK: u64 = 19;
pub const SYS_MKDIR: u64 = 20;
pub const SYS_CLOSE: u64 = 21;
/// Gives up the hart.
pub const SYS_YIELD: u64 = 22;

/// Argument register `n` (`a0` to `a5`) of a trap frame.
pub open spec fn arg_reg(tf: TrapFrame, n: int) -> u64 {
    if n == 0 {
        tf.a0
    } else if n == 1 {
        tf.a1
    } else if n == 2 {
        tf.a2
    } else if n == 3 {
        tf.a3
    } else if n == 4 {
        tf.a4
    } else {
        tf.a5
    }
}

/// Argument `n`, for `n` from 0 to 5, is register `a<n>`: the trap-frame
/// word at byte offset 112 + 8 * n (`a0` at 112, `a3` at 136, `a5` at 152).
pub proof fn law_arg_offsets(mem: &PhysMem, a: int, n: int)
    requires
        0 <= n <= 5,
    ensures
        arg_reg(trapframe_at(mem, a), n) == mem.word(a + 112 + 8 * n),
        n == 0 ==> arg_reg(trapframe_at(mem, a), n) == trapframe_at(mem, a).a0,
        n == 1 ==> arg_reg(trapframe_at(mem, a), n) == trapframe_at(mem, a).a1,
        n == 2 ==> arg_reg(trapframe_at(mem, a), n) == trapframe_at(mem, a).a2,
        n == 3 ==> arg_reg(trapframe_at(mem, a), n) == trapframe_at(mem, a).a3,
        n == 4 ==> arg_reg(trapframe_at(mem, a), n) == trapframe_at(mem, a).a4,
        n == 5 ==> arg_reg(trapframe_at(mem, a), n) == trapframe_at(mem, a).a5,
{
    let ws = tf_words(mem, a);
    assert(ws[14 + n] == mem.word(a + 8 * (14 + n)));
}

/// The process has a trap frame, held in memory.
pub open spec fn frame_in(p: &Proc, mem: &PhysMem) -> bool {
    &&& p.trapframe is Some
    &&& mem.wf()
    &&& mem.contains(p.trapframe->0 as int, TRAPFRAME_SIZE as int)
}

/// Argument `n` of the system call that `p` made, as saved in its trap
/// frame. Only six arguments exist: asking for another stops the kernel.
pub fn argraw(p: &Proc, mem: &PhysMem, n: isize) -> (r: u64)
    requires
        0 <= n <= 5,
        frame_in(p, mem),
    ensures
        r == arg_reg(trapframe_at(mem, p.trapframe->0 as int), n as int),
        r == mem.word(p.trapframe->0 + 112 + 8 * n),
{
    let tf = p.trapframe.unwrap();
    match n {
        0 => mem.read_word(tf + TF_A0),
        1 => mem.read_word(tf + TF_A0 + 8),
        2 => mem.read_word(tf + TF_A0 + 16),
        3 => mem.read_word(tf + TF_A0 + 24),
        4 => mem.read_word(tf + TF_A0 + 32),
        _ => mem.read_word(tf + TF_A0 + 40),
    }
}

/// Fetches argument `n` as an integer into `ip`. Returns 0, or -1 when
/// there is no argument `n` (only `a0` to `a5` hold arguments), leaving
/// `ip` alone.
pub fn argint(p: &Proc, mem: &PhysMem, n: isize, ip: &mut isize) -> (r: isize)
    requires
        frame_in(p, mem),
    ensures
        0 <= n <= 5 ==> *final(ip) == arg_reg(trapframe_at(mem, p.trapframe->0 as int), n as int) as isize && r == 0,
        !(0 <= n <= 5) ==> *final(ip) == *old(ip) && r == -1,
{
    if n < 0 || n > 5 {
        return -1;
    }
    *ip = argraw(p, mem, n) as isize;
    0
}

/// Fetches argument `n` as an address into `ip`, unchecked: copying in or
/// out checks it. Returns 0, or -1 when there is no argument `n`, leaving
/// `ip` alone.
pub fn argaddr(p: &Proc, mem: &PhysMem, n: isize, ip: &mut u64) -> (r: isize)
    requires
        frame_in(p, mem),
    ensures
        0 <= n <= 5 ==> *final(ip) == arg_reg(trapframe_at(mem, p.trapframe->0 as int), n as int) && r == 0,
        !(0 <= n <= 5) ==> *final(ip) == *old(ip) && r == -1,
{
    if n < 0 || n > 5 {
        return -1;
    }
    *ip = argraw(p, mem, n);
    0
}

/// What a system call leaves for the caller to do: print what `write`
/// asked for, or switch to the process the scheduler picked.
pub enum SyscallOutcome {
    Written(Vec<u8>),
    Switched(Switch),
}

/// The hart runs a process of the pool.
pub open spec fn runs_proc(procs: Seq<Proc>, cpus: Seq<CPU>, hart: &Hart) -> bool {
    &&& hart.tp < NCPU
    &&& hart.tp < cpus.len()
    &&& procs.len() <= NPROC
    &&& cpus[hart.tp as int].process matches Some(p) && p < procs.len()
}

/// The slot of the process the hart runs.
pub open spec fn cur(cpus: Seq<CPU>, hart: &Hart) -> int {
    cpus[hart.tp as int].process->0 as int
}

/// What `sched` needs: a process to go to after the current one.
pub open spec fn can_sched(procs: Seq<Proc>, cpus: Seq<CPU>, hart: &Hart, app_num: u64) -> bool {
    let p = cur(cpus, hart);
    0 <= next_slot(&procs[p]) < app_num && next_slot(&procs[p]) < procs.len()
}

/// The system call that the current process asked for, with what it needs:
/// only `write` and `exit` exist, and any other number stops the kernel.
pub open spec fn syscall_ok(procs: Seq<Proc>, cpus: Seq<CPU>, hart: &Hart, mem: &PhysMem, app_num: u64) -> bool {
    let p = procs[cur(cpus, hart)];
    let num = trapframe_at(mem, p.trapframe->0 as int).a7;
    &&& runs_proc(procs, cpus, hart)
    &&& frame_in(&p, mem)
    &&& num == SYS_WRITE || num == SYS_EXIT
    &&& num == SYS_WRITE ==> write_ok(&p, mem)
    &&& num == SYS_EXIT ==> can_sched(procs, cpus, hart, app_num)
}

/// Carries out the system call of the current process, whose number is in
/// `a7`. `write` leaves its result in `a0`; `exit` switches away and does
/// not come back.
pub fn syscall(procs: &mut Vec<Proc>, cpus: &mut Vec<CPU>, hart: &Hart, mem: &mut PhysMem, app_num: u64) -> (o: SyscallOutcome)
    requires
        syscall_ok(old(procs)@, old(cpus)@, hart, old(mem), app_num),
    ensures
        ({
            let p = cur(old(cpus)@, hart);
            let tf = old(procs)@[p].trapframe->0;
            let frame = trapframe_at(old(mem), tf as int);
            if frame.a7 == SYS_WRITE {
                &&& o matches SyscallOutcome::Written(out) && out@ == write_output(&old(procs)@[p], old(mem))
                &&& final(procs)@ == old(procs)@
                &&& final(cpus)@ == old(cpus)@
                &&& trapframe_at(final(mem), tf as int) == (TrapFrame { a0: write_result(&old(procs)@[p], old(mem)) as u64, ..frame })
                &&& changed_only(old(mem), final(mem), tf + TF_A0, 8)
            } else {
                let next = next_slot(&old(procs)@[p]) as usize;
                &&& o == SyscallOutcome::Switched(Switch { prev: p as usize, next })
                &&& final(cpus)@ == old(cpus)@.update(hart.tp as int, CPU { process: Some(next), ..old(cpus)@[hart.tp as int] })
                &&& final(procs)@ == exited(old(procs)@, p, next as int)
                &&& *final(mem) == *old(mem)
            }
        }),
{
    let p = myproc(cpus, hart);
    let tf = procs[p].trapframe.unwrap();
    let num = mem.read_word(tf + 168);
    if num == SYS_WRITE {
        let (r, out) = sys_write(&procs[p], mem);
        set_tf_word(mem, tf, 14, r as u64);
        proof {
            assert(tf_words(mem, tf as int) =~= tf_words(old(mem), tf as int).update(14, r as u64));
        }
        SyscallOutcome::Written(out)
    } else {
        let sw = sys_exit(procs, cpus, hart, app_num);
        SyscallOutcome::Switched(sw)
    }
}

} // verus!
