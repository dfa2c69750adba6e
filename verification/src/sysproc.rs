//! Process-related system calls.
use vstd::prelude::*;
use crate::riscv::Hart;
use crate::proc::{Proc, CPU, Switch, ProcState, myproc, sched, next_slot};
use crate::syscall::{runs_proc, cur, can_sched};

verus! {

/// The pool after process `prev` exits and the hart goes to `next`: `prev`
/// a zombie, then `next` running.
pub open spec fn exited(procs: Seq<Proc>, prev: int, next: int) -> Seq<Proc> {
    let z = procs.update(prev, Proc { state: ProcState::ZOMBIE, ..procs[prev] });
    z.update(next, Proc { state: ProcState::RUNNING, ..z[next] })
}

/// The `exit` system call: marks the current process a zombie and has the
/// scheduler pick the next one, which is marked running. It does not
/// return to its caller: the switch it returns is carried out instead.
pub fn sys_exit(procs: &mut Vec<Proc>, cpus: &mut Vec<CPU>, hart: &Hart, app_num: u64) -> (sw: Switch)
    requires
        runs_proc(old(procs)@, old(cpus)@, hart),
        can_sched(old(procs)@, old(cpus)@, hart, app_num),
    ensures
        sw.prev == cur(old(cpus)@, hart),
        sw.next == next_slot(&old(procs)@[sw.prev as int]),
        final(cpus)@ == old(cpus)@.update(hart.tp as int, CPU { process: Some(sw.next), ..old(cpus)@[hart.tp as int] }),
        final(procs)@ == exited(old(procs)@, sw.prev as int, sw.next as int),
{
    let p = myproc(cpus, hart);
    procs[p].state = ProcState::ZOMBIE;
    let sw = sched(procs, cpus, hart, app_num);
    proof {
        assert(procs@ =~= exited(old(procs)@, sw.prev as int, sw.next as int));
    }
    sw
}

} // verus!
