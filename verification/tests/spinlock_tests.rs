use xv6_rs::memlayout::CLINT;
use xv6_rs::proc::CPU;
use xv6_rs::riscv::{Hart, MIE_MTIE, MSTATUS_MIE, MSTATUS_MPP_S, SEIE, SSIE, SSTATUS_SIE, STIE};
use xv6_rs::spinlock::{pop_off, push_off, Mutex};
use xv6_rs::start::{start, timerinit, TIMER_INTERVAL};

#[test]
fn push_off_then_pop_off_restores_interrupts() {
    let mut cpu = CPU::zero();
    let mut h = Hart::zero(0);
    h.sstatus = SSTATUS_SIE | 0x100;
    push_off(&mut cpu, &mut h);
    assert_eq!(cpu.noff, 1);
    assert!(cpu.intena);
    assert_eq!(h.sstatus, 0x100);
    pop_off(&mut cpu, &mut h);
    assert_eq!(cpu.noff, 0);
    assert_eq!(h.sstatus, SSTATUS_SIE | 0x100);
}

#[test]
fn pop_off_keeps_interrupts_off_when_they_were_off() {
    let mut cpu = CPU::zero();
    let mut h = Hart::zero(0);
    push_off(&mut cpu, &mut h);
    assert!(!cpu.intena);
    pop_off(&mut cpu, &mut h);
    assert_eq!(h.sstatus, 0);
}

#[test]
fn nested_push_off_needs_as_many_pop_offs() {
    let mut cpu = CPU::zero();
    let mut h = Hart::zero(0);
    h.sstatus = SSTATUS_SIE;
    push_off(&mut cpu, &mut h);
    push_off(&mut cpu, &mut h);
    assert_eq!(cpu.noff, 2);
    assert!(cpu.intena);
    pop_off(&mut cpu, &mut h);
    assert_eq!(cpu.noff, 1);
    assert_eq!(h.sstatus, 0);
    pop_off(&mut cpu, &mut h);
    assert_eq!(cpu.noff, 0);
    assert_eq!(h.sstatus, SSTATUS_SIE);
}

#[test]
fn mutex_acquire_and_release() {
    let mut cpu = CPU::zero();
    let mut h = Hart::zero(0);
    h.tp = 0;
    h.sstatus = SSTATUS_SIE;
    let mut m = Mutex::new(7u32, "proc");
    assert!(!m.holding(&h));
    assert!(!m.locked);
    assert_eq!(m.name, "proc");
    m.acquire(&mut cpu, &mut h);
    assert!(m.holding(&h));
    assert_eq!(m.hartid, 0);
    assert_eq!(cpu.noff, 1);
    assert_eq!(h.sstatus, 0);
    m.release(&mut cpu, &mut h);
    assert!(!m.holding(&h));
    assert!(!m.locked);
    assert_eq!(m.hartid, -1);
    assert_eq!(m.inner, 7);
    assert_eq!(cpu.noff, 0);
    assert_eq!(h.sstatus, SSTATUS_SIE);
}

#[test]
fn mutex_lock_and_unlock_with_a_guard() {
    let mut cpu = CPU::zero();
    let mut h = Hart::zero(0);
    let mut m = Mutex::new(vec![1u8, 2], "pool");
    let g = m.lock(&mut cpu, &mut h);
    assert_eq!(g.hartid, 0);
    assert!(m.locked);
    m.inner.push(3);
    m.unlock(g, &mut cpu, &mut h);
    assert!(!m.locked);
    assert_eq!(m.inner, vec![1, 2, 3]);
}

#[test]
fn start_prepares_supervisor_mode() {
    let mut h = Hart::zero(0);
    h.mstatus = 0x1800;
    start(&mut h, 0x8000_1000);
    assert_eq!(h.mstatus, MSTATUS_MPP_S);
    assert_eq!(h.mepc, 0x8000_1000);
    assert_eq!(h.satp, 0);
    assert_eq!(h.medeleg, 0xffff);
    assert_eq!(h.mideleg, 0xffff);
    assert_eq!(h.sie, SSIE | STIE | SEIE);
    assert_eq!(h.pmpaddr0, 0x3f_ffff_ffff_ffff);
    assert_eq!(h.pmpcfg0, 0xf);
    assert_eq!(h.tp, 0);
}

#[test]
fn timerinit_schedules_the_first_tick() {
    let mut h = Hart::zero(0);
    let mut scratch = vec![[11u64, 12, 13, 0, 0]];
    let w = timerinit(&mut h, &mut scratch, 0x8000_9000, 500, 0x8000_2000);
    assert_eq!(w.addr, CLINT + 0x4000);
    assert_eq!(w.value, 500 + TIMER_INTERVAL);
    assert_eq!(scratch[0], [11, 12, 13, CLINT + 0x4000, TIMER_INTERVAL]);
    assert_eq!(h.mscratch, 0x8000_9000);
    assert_eq!(h.mtvec, 0x8000_2000);
    assert_eq!(h.mstatus, MSTATUS_MIE);
    assert_eq!(h.mie, MIE_MTIE);
}
