use xv6_rs::memlayout::{TRAMPOLINE, TRAPFRAME};
use xv6_rs::memory::PhysMem;
use xv6_rs::proc::{Proc, ProcState, TrapFrame, CPU};
use xv6_rs::riscv::{make_satp, Hart, PGSIZE, SSTATUS_SIE, SSTATUS_SPIE, SSTATUS_SPP};
use xv6_rs::syscall::{argaddr, argint, argraw, syscall, SyscallOutcome, SYS_EXIT, SYS_UPTIME, SYS_WRITE, SYS_YIELD};
use xv6_rs::sysfile::{argfd, sys_write, STDOUT};
use xv6_rs::sysproc::sys_exit;
use xv6_rs::trap::{trapinit, usertrap, usertrapret, Entries, TrapAction};
use xv6_rs::user::{self, Ecall};
use xv6_rs::kalloc::Kmem;
use xv6_rs::memlayout::PHYSTOP;
use xv6_rs::riscv::{PTE_R, PTE_U, PTE_W};
use xv6_rs::vm::{mappages, uvmcreate};

const BASE: u64 = PHYSTOP - 16 * PGSIZE;
const TF0: u64 = BASE;
const TF1: u64 = BASE + 0x200;
/// The physical page that user address 0 maps to in both processes.
const DATA: u64 = BASE + PGSIZE;
/// A user address of the data page.
const BUF: u64 = 0x800;

/// The registers of a kernel `write` call.
fn kwrite(fd: u64, buf: u64, len: u64) -> Ecall {
    Ecall { id: SYS_WRITE, a0: fd, a1: buf, a2: len }
}

/// The registers of a kernel `exit` call.
fn kexit(code: u64) -> Ecall {
    Ecall { id: SYS_EXIT, a0: code, a1: 0, a2: 0 }
}

/// Two processes with their trap frames in memory and user address 0
/// mapped to the data page, the hart running the first; its frame holds
/// the registers of `e` as the trap saves them.
fn machine(e: Ecall) -> (Vec<Proc>, Vec<CPU>, Hart, PhysMem) {
    let mut mem = PhysMem::new(BASE, (16 * PGSIZE) as usize);
    let mut kmem = Kmem::new(BASE + 2 * PGSIZE);
    kmem.kinit(&mut mem);
    let mut procs = Vec::new();
    for (i, tf) in [TF0, TF1].iter().enumerate() {
        let mut p = Proc::zero_init();
        p.trapframe = Some(*tf);
        p.pid = i as i64;
        p.state = ProcState::RUNNABLE;
        p.kstack = 0x3f_ffff_0000 - 2 * PGSIZE * i as u64;
        let mut pt = uvmcreate(&mut mem, &mut kmem);
        assert_eq!(mappages(&mut pt, &mut mem, &mut kmem, 0, DATA, PGSIZE, PTE_R | PTE_W | PTE_U), 0);
        p.pagetable = Some(pt);
        procs.push(p);
    }
    let mut tf = TrapFrame::zero_init();
    tf.a0 = e.a0;
    tf.a1 = e.a1;
    tf.a2 = e.a2;
    tf.a7 = e.id;
    tf.epc = 0x10;
    tf.store(&mut mem, TF0);
    for (k, b) in b"hello\n".iter().enumerate() {
        mem.write_byte(DATA + BUF + k as u64, *b);
    }
    let mut c = CPU::zero();
    c.process = Some(0);
    let h = Hart::zero(0);
    (procs, vec![c], h, mem)
}

fn root(p: &Proc) -> u64 {
    p.pagetable.as_ref().unwrap().root
}

fn entries() -> Entries {
    Entries { trampoline: 0x8000_7000, uservec: 0x8000_7000, userret: 0x8000_7090, usertrap: 0x8000_3000, kernelvec: 0x8000_5000 }
}

#[test]
fn user_calls_fill_the_registers() {
    assert_eq!(user::syscall(5, [1, 2, 3]), Ecall { id: 5, a0: 1, a1: 2, a2: 3 });
    assert_eq!(user::sys_write(1, BUF, 6), Ecall { id: SYS_WRITE, a0: 1, a1: BUF, a2: 6 });
    assert_eq!(user::write(1, BUF, 6), Ecall { id: 16, a0: 1, a1: BUF, a2: 6 });
    assert_eq!(user::sys_exit(-1), Ecall { id: SYS_EXIT, a0: u64::MAX, a1: 0, a2: 0 });
    assert_eq!(user::exit(3), Ecall { id: 2, a0: 3, a1: 0, a2: 0 });
    assert_eq!(user::sys_get_time(), Ecall { id: SYS_UPTIME, a0: 0, a1: 0, a2: 0 });
    assert_eq!(user::get_time(), Ecall { id: 14, a0: 0, a1: 0, a2: 0 });
    assert_eq!(user::sys_yield(), Ecall { id: SYS_YIELD, a0: 0, a1: 0, a2: 0 });
    assert_eq!(user::yield_(), Ecall { id: 22, a0: 0, a1: 0, a2: 0 });
}

#[test]
fn arguments_come_from_the_trap_frame() {
    let (procs, _, _, mem) = machine(kwrite(1, BUF, 6));
    let p = &procs[0];
    assert_eq!(argraw(p, &mem, 0), 1);
    assert_eq!(argraw(p, &mem, 1), BUF);
    assert_eq!(argraw(p, &mem, 2), 6);
    assert_eq!(argraw(p, &mem, 5), 0);
    let mut n: isize = 0;
    assert_eq!(argint(p, &mem, 2, &mut n), 0);
    assert_eq!(n, 6);
    let mut a: u64 = 0;
    assert_eq!(argaddr(p, &mem, 1, &mut a), 0);
    assert_eq!(a, BUF);
    let mut fd: isize = 0;
    assert_eq!(argfd(p, &mem, 0, &mut fd, 0), 0);
    assert_eq!(fd, STDOUT);
}

#[test]
fn sys_write_returns_the_bytes_and_their_count() {
    let (procs, _, _, mem) = machine(kwrite(1, BUF, 6));
    let (n, out) = sys_write(&procs[0], &mem);
    assert_eq!(n, 6);
    assert_eq!(out, b"hello\n".to_vec());
    let (procs, _, _, mem) = machine(kwrite(1, BUF, 0));
    let (n, out) = sys_write(&procs[0], &mem);
    assert_eq!(n, 0);
    assert!(out.is_empty());
}

#[test]
fn syscall_write_answers_in_a0() {
    let (mut procs, mut cpus, h, mut mem) = machine(kwrite(1, BUF, 5));
    match syscall(&mut procs, &mut cpus, &h, &mut mem, 2) {
        SyscallOutcome::Written(out) => assert_eq!(out, b"hello".to_vec()),
        SyscallOutcome::Switched(_) => panic!("write switched away"),
    }
    let tf = TrapFrame::load(&mem, TF0);
    assert_eq!(tf.a0, 5);
    assert_eq!(tf.a7, SYS_WRITE);
    assert_eq!(cpus[0].process, Some(0));
}

#[test]
fn syscall_exit_switches_to_the_next_application() {
    let (mut procs, mut cpus, h, mut mem) = machine(kexit(0));
    match syscall(&mut procs, &mut cpus, &h, &mut mem, 2) {
        SyscallOutcome::Switched(sw) => assert_eq!((sw.prev, sw.next), (0, 1)),
        SyscallOutcome::Written(_) => panic!("exit wrote"),
    }
    assert_eq!(cpus[0].process, Some(1));
    assert_eq!(procs[0].state, ProcState::ZOMBIE);
    assert_eq!(procs[1].state, ProcState::RUNNING);
}

#[test]
fn sys_exit_hands_the_hart_on() {
    let (mut procs, mut cpus, h, _) = machine(kexit(0));
    let sw = sys_exit(&mut procs, &mut cpus, &h, 2);
    assert_eq!((sw.prev, sw.next), (0, 1));
    assert_eq!(cpus[0].process, Some(1));
    assert_eq!(procs[0].state, ProcState::ZOMBIE);
    assert_eq!(procs[1].state, ProcState::RUNNING);
}

#[test]
fn trapinit_installs_the_kernel_vector() {
    let mut h = Hart::zero(0);
    trapinit(&mut h, 0x8000_5000);
    assert_eq!(h.stvec, 0x8000_5000);
}

#[test]
fn usertrapret_prepares_the_return_to_user_mode() {
    let (procs, cpus, mut h, mut mem) = machine(kwrite(1, BUF, 6));
    h.satp = 0x8000_0000_0008_0000;
    h.sstatus = SSTATUS_SIE | SSTATUS_SPP;
    let e = entries();
    let r = usertrapret(&procs, &cpus, &mut h, &mut mem, &e);
    assert_eq!(r.entry, TRAMPOLINE + 0x90);
    assert_eq!(r.trapframe, TRAPFRAME);
    assert_eq!(r.satp, make_satp(root(&procs[0])));
    assert_eq!(h.stvec, TRAMPOLINE);
    assert_eq!(h.sstatus, SSTATUS_SPIE);
    assert_eq!(h.sepc, 0x10);
    let tf = TrapFrame::load(&mem, TF0);
    assert_eq!(tf.kernel_satp, 0x8000_0000_0008_0000);
    assert_eq!(tf.kernel_sp, procs[0].kstack + PGSIZE);
    assert_eq!(tf.kernel_trap, 0x8000_3000);
    assert_eq!(tf.kernel_hartid, 0);
    assert_eq!(tf.a0, 1);
}

#[test]
fn usertrap_handles_write_and_returns() {
    let (mut procs, mut cpus, mut h, mut mem) = machine(kwrite(1, BUF, 6));
    h.scause = 8;
    h.sepc = 0x10;
    let e = entries();
    match usertrap(&mut procs, &mut cpus, &mut h, &mut mem, &e, 2) {
        TrapAction::Resume { output, ret } => {
            assert_eq!(output, b"hello\n".to_vec());
            assert_eq!(ret.entry, TRAMPOLINE + 0x90);
            assert_eq!(ret.satp, make_satp(root(&procs[0])));
        }
        TrapAction::Switch(_) => panic!("write switched away"),
    }
    let tf = TrapFrame::load(&mem, TF0);
    assert_eq!(tf.epc, 0x14);
    assert_eq!(tf.a0, 6);
    assert_eq!(h.sepc, 0x14);
    assert_eq!(h.stvec, TRAMPOLINE);
}

#[test]
fn usertrap_handles_exit_by_switching() {
    let (mut procs, mut cpus, mut h, mut mem) = machine(kexit(0));
    h.scause = 8;
    h.sepc = 0x10;
    let e = entries();
    match usertrap(&mut procs, &mut cpus, &mut h, &mut mem, &e, 2) {
        TrapAction::Switch(sw) => assert_eq!((sw.prev, sw.next), (0, 1)),
        TrapAction::Resume { .. } => panic!("exit returned"),
    }
    assert_eq!(h.stvec, 0x8000_5000);
    assert_eq!(h.sstatus & SSTATUS_SIE, SSTATUS_SIE);
    assert_eq!(TrapFrame::load(&mem, TF0).epc, 0x14);
    assert_eq!(cpus[0].process, Some(1));
}

#[test]
fn start_clears_bss_and_exits_with_main_status() {
    let mut mem = PhysMem::new(0x1000, 64);
    for q in 0x1000..0x1040u64 {
        mem.write_byte(q, 0xaa);
    }
    let e = user::_start(&mut mem, 0x1008, 0x1010, 7);
    assert_eq!(e, Ecall { id: SYS_EXIT, a0: 7, a1: 0, a2: 0 });
    assert_eq!(mem.read_word(0x1008), 0);
    assert_eq!(mem.read_byte(0x1007), 0xaa);
    assert_eq!(mem.read_byte(0x1010), 0xaa);
    user::clear_bss(&mut mem, 0x1000, 0x1040);
    assert!(mem.read_bytes(0x1000, 64).iter().all(|b| *b == 0));
}

#[test]
fn sys_write_fails_without_effect() {
    // Another file than standard output.
    let (procs, _, _, mem) = machine(kwrite(2, BUF, 6));
    assert_eq!(sys_write(&procs[0], &mem), (-1, Vec::new()));
    // A negative length.
    let (procs, _, _, mem) = machine(kwrite(1, BUF, u64::MAX));
    assert_eq!(sys_write(&procs[0], &mem), (-1, Vec::new()));
    // A buffer that runs past the mapped page.
    let (procs, _, _, mem) = machine(kwrite(1, PGSIZE - 2, 6));
    assert_eq!(sys_write(&procs[0], &mem), (-1, Vec::new()));
    // A buffer above the user address space.
    let (procs, _, _, mem) = machine(kwrite(1, u64::MAX - 2, 6));
    assert_eq!(sys_write(&procs[0], &mem), (-1, Vec::new()));
}

#[test]
fn syscall_write_answers_minus_one_on_failure() {
    let (mut procs, mut cpus, h, mut mem) = machine(kwrite(2, BUF, 6));
    match syscall(&mut procs, &mut cpus, &h, &mut mem, 2) {
        SyscallOutcome::Written(out) => assert!(out.is_empty()),
        SyscallOutcome::Switched(_) => panic!("write switched away"),
    }
    assert_eq!(TrapFrame::load(&mem, TF0).a0, u64::MAX);
}

#[test]
fn arguments_past_the_sixth_are_refused() {
    let (procs, _, _, mem) = machine(kwrite(1, BUF, 6));
    let mut n: isize = 42;
    assert_eq!(argint(&procs[0], &mem, 6, &mut n), -1);
    assert_eq!(argint(&procs[0], &mem, -1, &mut n), -1);
    assert_eq!(n, 42);
    let mut a: u64 = 7;
    assert_eq!(argaddr(&procs[0], &mem, 9, &mut a), -1);
    assert_eq!(a, 7);
    let mut fd: isize = 3;
    assert_eq!(argfd(&procs[0], &mem, 8, &mut fd, 0), -1);
    assert_eq!(fd, 3);
}
