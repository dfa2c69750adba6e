//! Traps from user mode: the system-call path in, and the way back out.
use vstd::prelude::*;
use crate::memory::{PhysMem, changed_only};
use crate::memlayout::{TRAMPOLINE, TRAPFRAME};
use crate::riscv::{Hart, PGSIZE, SSTATUS_SPP, SSTATUS_SPIE, SSTATUS_SIE, make_satp, make_satp_spec, intr_on, intr_off,
    w_stvec, r_sstatus, w_sstatus, w_sepc, r_sepc, r_scause, r_satp, r_tp};
use crate::proc::{Proc, CPU, TrapFrame, trapframe_at, tf_words, set_tf_word, myproc, TRAPFRAME_SIZE};
use crate::syscall::{syscall, SyscallOutcome, syscall_ok, runs_proc, cur, frame_in};
use crate::sysfile::{write_output, write_result};
use crate::vm::{PageTable, lemma_pt_same_tables};
use crate::proc::{Switch, ProcState, next_slot};

verus! {

/// Addresses the linker gives to the kernel's entry points: the
/// trampoline page's code (`uservec` and `userret` lie in it), the
/// trap handlers, and the kernel's trap vector.
#[derive(Clone, Copy, Debug)]
pub struct Entries {
    pub trampoline: u64,
    pub uservec: u64,
    pub userret: u64,
    pub usertrap: u64,
    pub kernelvec: u64,
}

/// `uservec` and `userret` lie in the trampoline page.
pub open spec fn entries_ok(e: &Entries) -> bool {
    &&& e.trampoline <= e.uservec < e.trampoline + PGSIZE
    &&& e.trampoline <= e.userret < e.trampoline + PGSIZE
}

/// Where `uservec` lies once the trampoline page is mapped at TRAMPOLINE.
pub open spec fn uservec_va(e: &Entries) -> u64 {
    (TRAMPOLINE + (e.uservec - e.trampoline)) as u64
}

/// Where `userret` lies once the trampoline page is mapped at TRAMPOLINE.
pub open spec fn userret_va(e: &Entries) -> u64 {
    (TRAMPOLINE + (e.userret - e.trampoline)) as u64
}

/// Sends the hart's traps to the kernel's trap vector.
pub fn trapinit(hart: &mut Hart, kernelvec: u64)
    ensures
        *final(hart) == (Hart { stvec: kernelvec, ..*old(hart) }),
{
    w_stvec(hart, kernelvec);
}

/// The jump back to user mode: `userret`, through its trampoline mapping,
/// with the trap frame's address and the satp of the user page table.
#[derive(Clone, Copy, Debug, PartialEq, Eq, Structural)]
pub struct UserReturn {
    pub entry: u64,
    pub trapframe: u64,
    pub satp: u64,
}

/// sstatus once `usertrapret` set it up for `sret`: supervisor interrupts
/// off, previous mode user, interrupts on once in user mode.
pub open spec fn user_sstatus(sstatus: u64) -> u64 {
    (((sstatus & !SSTATUS_SIE) & !SSTATUS_SPP) | SSTATUS_SPIE) as u64
}

/// Whatever sstatus held, the value `usertrapret` leaves has SPIE set (the
/// process runs with interrupts enabled once `sret` is back in user mode),
/// SPP clear (`sret` goes to user mode) and SIE clear (no interrupts until
/// then); every other bit is the one it held before.
pub proof fn law_user_sstatus(s: u64)
    ensures
        user_sstatus(s) & 0x20 == 0x20,
        user_sstatus(s) & 0x100 == 0,
        user_sstatus(s) & 0x2 == 0,
        user_sstatus(s) & !0x122u64 == s & !0x122u64,
{
    let r: u64 = user_sstatus(s);
    assert(r == (((s & !2u64) & !0x100u64) | 0x20u64) as u64);
    assert(r & 0x20 == 0x20 && r & 0x100 == 0 && r & 0x2 == 0 && r & !0x122u64 == s & !0x122u64) by (bit_vector)
        requires
            r == (((s & !2u64) & !0x100u64) | 0x20u64) as u64,
    ;
}

/// What `usertrapret` needs of the process it returns to.
pub open spec fn ret_ok(procs: Seq<Proc>, cpus: Seq<CPU>, hart: &Hart, mem: &PhysMem, e: &Entries) -> bool {
    let p = procs[cur(cpus, hart)];
    &&& runs_proc(procs, cpus, hart)
    &&& frame_in(&p, mem)
    &&& p.pagetable is Some
    &&& p.kstack + PGSIZE <= u64::MAX
    &&& entries_ok(e)
}

/// The trap frame once `usertrapret` recorded the kernel state in it.
pub open spec fn ret_frame(tf: TrapFrame, p: &Proc, hart: &Hart, e: &Entries) -> TrapFrame {
    TrapFrame {
        kernel_sp: (p.kstack + PGSIZE) as u64,
        kernel_satp: hart.satp,
        kernel_trap: e.usertrap,
        kernel_hartid: hart.tp,
        ..tf
    }
}

/// Returns to user mode: traps go to `uservec` again, the trap frame
/// records what `uservec` will need (kernel stack, page table, handler,
/// hart id), and sstatus and sepc are set for `sret` to the saved user pc.
/// The jump itself, to `userret` with the trap frame and user page table,
/// is returned for the caller to make.
pub fn usertrapret(procs: &Vec<Proc>, cpus: &Vec<CPU>, hart: &mut Hart, mem: &mut PhysMem, e: &Entries) -> (r: UserReturn)
    requires
        ret_ok(procs@, cpus@, old(hart), old(mem), e),
    ensures
        ({
            let p = procs@[cur(cpus@, old(hart))];
            let tf = p.trapframe->0;
            let frame = trapframe_at(old(mem), tf as int);
            &&& *final(hart) == (Hart {
                sstatus: user_sstatus(old(hart).sstatus),
                stvec: uservec_va(e),
                sepc: frame.epc,
                ..*old(hart)
            })
            &&& final(hart).sstatus & SSTATUS_SPIE == SSTATUS_SPIE
            &&& final(hart).sstatus & SSTATUS_SPP == 0
            &&& final(hart).sstatus & SSTATUS_SIE == 0
            &&& final(hart).sstatus & !0x122u64 == old(hart).sstatus & !0x122u64
            &&& trapframe_at(final(mem), tf as int) == ret_frame(frame, &p, old(hart), e)
            &&& changed_only(old(mem), final(mem), tf as int, 40)
            &&& r == (UserReturn { entry: userret_va(e), trapframe: TRAPFRAME, satp: make_satp_spec(p.pagetable->0.root) })
        }),
{
    let ghost m0 = *mem;
    intr_off(hart);
    w_stvec(hart, TRAMPOLINE + (e.uservec - e.trampoline));
    let p = myproc(cpus, hart);
    let tf = procs[p].trapframe.unwrap();
    let ghost w0 = tf_words(&m0, tf as int);
    set_tf_word(mem, tf, 1, procs[p].kstack + PGSIZE);
    let ghost m1 = *mem;
    let satp0 = r_satp(hart);
    set_tf_word(mem, tf, 0, satp0);
    let ghost m2 = *mem;
    set_tf_word(mem, tf, 2, e.usertrap);
    let ghost m3 = *mem;
    let tp = r_tp(hart);
    set_tf_word(mem, tf, 4, tp);
    let mut x = r_sstatus(hart);
    x = x & !SSTATUS_SPP;
    x = x | SSTATUS_SPIE;
    w_sstatus(hart, x);
    let epc = mem.read_word(tf + 24);
    w_sepc(hart, epc);
    let satp = make_satp(procs[p].pagetable.as_ref().unwrap().root);
    let func_ptr = TRAMPOLINE + (e.userret - e.trampoline);
    proof {
        law_user_sstatus(old(hart).sstatus);
        assert(tf_words(mem, tf as int) =~= w0.update(1, (procs@[p as int].kstack + PGSIZE) as u64).update(
            0,
            old(hart).satp,
        ).update(2, e.usertrap).update(4, old(hart).tp));
        assert(tf_words(mem, tf as int)[3] == w0[3]);
        assert(epc == tf_words(mem, tf as int)[3]);
        assert(changed_only(&m0, mem, tf as int, 40)) by {
            assert forall|q: int| mem.contains(q, 1) && !(tf <= q < tf + 40) implies #[trigger] mem.byte(q)
                == m0.byte(q) by {
                assert(m3.byte(q) == m0.byte(q)) by {
                    assert(m2.byte(q) == m0.byte(q)) by {
                        assert(m1.byte(q) == m0.byte(q));
                    }
                }
            }
        }
    }
    UserReturn { entry: func_ptr, trapframe: TRAPFRAME, satp }
}

/// What a trap from user mode leaves for the caller: print the output of
/// `write` and jump back to user mode, or switch to another process.
pub enum TrapAction {
    Resume { output: Vec<u8>, ret: UserReturn },
    Switch(Switch),
}

/// A system call, the only trap from user mode handled: it must come from
/// user mode with scause 8, as any other stops the kernel.
pub open spec fn trap_ok(procs: Seq<Proc>, cpus: Seq<CPU>, hart: &Hart, mem: &PhysMem, e: &Entries, app_num: u64) -> bool {
    &&& hart.sstatus & SSTATUS_SPP == 0
    &&& hart.scause == 8
    &&& hart.sepc + 4 <= u64::MAX
    &&& syscall_ok(procs, cpus, hart, mem, app_num)
    &&& ret_ok(procs, cpus, hart, mem, e)
}

/// `m` is `mem` once the trap has saved the user pc `epc` in the trap
/// frame at `tf`: the word of `epc` set, every other byte as it was.
pub open spec fn pc_saved(mem: &PhysMem, m: &PhysMem, tf: int, epc: u64) -> bool {
    &&& changed_only(mem, m, tf + 24, 8)
    &&& m.word(tf + 24) == epc
}

/// Handles a trap from user mode, which must be a system call: traps now go
/// to the kernel's vector, the user pc is saved past the `ecall`,
/// interrupts are enabled and the call is carried out. After `write` the
/// process goes back to user mode; after `exit` the hart switches away.
pub fn usertrap(procs: &mut Vec<Proc>, cpus: &mut Vec<CPU>, hart: &mut Hart, mem: &mut PhysMem, e: &Entries, app_num: u64) -> (a: TrapAction)
    requires
        trap_ok(old(procs)@, old(cpus)@, old(hart), old(mem), e, app_num),
    ensures
        ({
            let p = cur(old(cpus)@, old(hart));
            let proc0 = old(procs)@[p];
            let tf = proc0.trapframe->0;
            let frame = trapframe_at(old(mem), tf as int);
            let called = TrapFrame { epc: (old(hart).sepc + 4) as u64, ..frame };
            let h1 = Hart { stvec: e.kernelvec, sstatus: (old(hart).sstatus | SSTATUS_SIE) as u64, ..*old(hart) };
            if frame.a7 == crate::syscall::SYS_WRITE {
                &&& a matches TrapAction::Resume { output, ret }
                    && ret == (UserReturn { entry: userret_va(e), trapframe: TRAPFRAME, satp: make_satp_spec(proc0.pagetable->0.root) })
                &&& exists|m: PhysMem| #[trigger] pc_saved(old(mem), &m, tf as int, called.epc) && {
                    &&& a matches TrapAction::Resume { output, ret } && output@ == write_output(&proc0, &m)
                    &&& trapframe_at(final(mem), tf as int) == ret_frame(
                        TrapFrame { a0: write_result(&proc0, &m) as u64, ..called },
                        &proc0,
                        &h1,
                        e,
                    )
                }
                &&& final(procs)@ == old(procs)@
                &&& final(cpus)@ == old(cpus)@
                &&& *final(hart) == (Hart { sstatus: user_sstatus(h1.sstatus), stvec: uservec_va(e), sepc: called.epc, ..h1 })
                &&& changed_only(old(mem), final(mem), tf as int, 120)
            } else {
                let next = next_slot(&proc0) as usize;
                &&& a == TrapAction::Switch(Switch { prev: p as usize, next })
                &&& final(cpus)@ == old(cpus)@.update(old(hart).tp as int, CPU { process: Some(next), ..old(cpus)@[old(hart).tp as int] })
                &&& final(procs)@ == crate::sysproc::exited(old(procs)@, p, next as int)
                &&& trapframe_at(final(mem), tf as int) == called
                &&& *final(hart) == h1
                &&& changed_only(old(mem), final(mem), tf + 24, 8)
            }
        }),
{
    w_stvec(hart, e.kernelvec);
    let p = myproc(cpus, hart);
    let tf = procs[p].trapframe.unwrap();
    let ghost m0 = *mem;
    let ghost w0 = tf_words(&m0, tf as int);
    let sepc = r_sepc(hart);
    set_tf_word(mem, tf, 3, sepc);
    let ghost m1 = *mem;
    let ghost h0 = *hart;
    if r_scause(hart) == 8 {
        let epc = mem.read_word(tf + 24);
        assert(epc == tf_words(&m1, tf as int)[3]);
        assert(tf_words(&m1, tf as int) == w0.update(3, sepc));
        set_tf_word(mem, tf, 3, epc + 4);
        intr_on(hart);
        let ghost m2 = *mem;
        proof {
            assert(tf_words(&m2, tf as int) =~= w0.update(3, sepc).update(3, (sepc + 4) as u64));
            assert(changed_only(&m0, &m2, tf + 24, 8)) by {
                assert forall|q: int| m2.contains(q, 1) && !(tf + 24 <= q < tf + 32) implies #[trigger] m2.byte(q)
                    == m0.byte(q) by {
                    assert(m1.byte(q) == m0.byte(q));
                }
            }
            assert(frame_in(&procs@[p as int], &m2));
            assert(trapframe_at(&m2, tf as int).a7 == trapframe_at(&m0, tf as int).a7);
            if trapframe_at(&m0, tf as int).a7 == crate::syscall::SYS_WRITE {
                let pr = procs@[p as int];
                let pt = pr.pagetable->0;
                assert forall|t: u64, q: int| #![trigger pt.owns(t), m2.byte(q)] pt.owns(t) && t <= q < t + 4096 implies m2.byte(
                    q,
                ) == m0.byte(q) by {
                    assert(m2.contains(q, 1)) by {
                        reveal(PageTable::wf);
                        reveal(PageTable::wf_tables);
                    }
                }
                lemma_pt_same_tables(&pt, &m0, &m2);
                assert(m2.word(tf + 24) == (sepc + 4) as u64);
                assert(pc_saved(&m0, &m2, tf as int, (sepc + 4) as u64));
            }
        }
        let o = syscall(procs, cpus, hart, mem, app_num);
        match o {
            SyscallOutcome::Written(output) => {
                let ghost m3 = *mem;
                let ret = usertrapret(procs, cpus, hart, mem, e);
                proof {
                    assert(pc_saved(&m0, &m2, tf as int, (sepc + 4) as u64));
                    assert(changed_only(&m0, mem, tf as int, 120)) by {
                        assert forall|q: int| mem.contains(q, 1) && !(tf <= q < tf + 120) implies #[trigger] mem.byte(q)
                            == m0.byte(q) by {
                            assert(m3.byte(q) == m2.byte(q));
                        }
                    }
                }
                TrapAction::Resume { output, ret }
            },
            SyscallOutcome::Switched(sw) => TrapAction::Switch(sw),
        }
    } else {
        proof {
            assert(false);
        }
        TrapAction::Switch(Switch { prev: 0, next: 0 })
    }
}

} // verus!
