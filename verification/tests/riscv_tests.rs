use xv6_rs::riscv::{
    intr_get, intr_off, intr_on, make_satp, pa2pte, pg_round_down, pg_round_up, pte2pa, px, px_shift, r_mhartid,
    r_mstatus, r_scause, r_sepc, r_sstatus, r_tp, set_mpp, vma, w_mepc, w_mstatus, w_satp, w_sepc, w_sstatus, w_tp, Hart,
    MPP, MSTATUS_MPP_S, PGSIZE, PTE_R, PTE_U, PTE_V, PTE_W, SATP_SV39, SSTATUS_SIE,
};
use xv6_rs::memlayout::{kstack, TRAMPOLINE, TRAPFRAME};

#[test]
fn page_rounding_examples() {
    assert_eq!(pg_round_up(0), 0);
    assert_eq!(pg_round_up(1), PGSIZE);
    assert_eq!(pg_round_up(4096), 4096);
    assert_eq!(pg_round_up(4097), 8192);
    assert_eq!(pg_round_down(0), 0);
    assert_eq!(pg_round_down(4095), 0);
    assert_eq!(pg_round_down(4097), 4096);
    assert_eq!(pg_round_down(0x8000_1234), 0x8000_1000);
    // A boundary rounds to itself, and rounding twice changes nothing.
    for x in [0u64, 1, 4095, 4096, 12345, 0x8765_4321] {
        let u = pg_round_up(x);
        let d = pg_round_down(x);
        assert_eq!(pg_round_up(u), u);
        assert_eq!(pg_round_down(u), u);
        assert_eq!(pg_round_down(d), d);
        assert_eq!(pg_round_up(d), d);
        assert!(d <= x && x < d + PGSIZE);
        assert!(x <= u && u < x + PGSIZE);
    }
}

#[test]
fn page_table_indices_of_an_address() {
    assert_eq!(px_shift(0), 12);
    assert_eq!(px_shift(2), 30);
    let va: u64 = (5 << 30) | (7 << 21) | (9 << 12) | 0x123;
    assert_eq!(px(2, va), 5);
    assert_eq!(px(1, va), 7);
    assert_eq!(px(0, va), 9);
    assert_eq!(px(2, TRAMPOLINE), 255);
    assert_eq!(px(1, TRAMPOLINE), 511);
    assert_eq!(px(0, TRAMPOLINE), 511);
    assert_eq!(px(0, TRAPFRAME), 510);
}

#[test]
fn pte_and_physical_address_convert_both_ways() {
    assert_eq!(pa2pte(0x8000_1000), 0x2000_0400);
    assert_eq!(pte2pa(0x2000_0400), 0x8000_1000);
    // The permission bits do not reach the address.
    assert_eq!(pte2pa(0x2000_0400 | PTE_V | PTE_R | PTE_W | PTE_U), 0x8000_1000);
    for pa in [0u64, 0x1000, 0x8000_0000, 0x87ff_f000, 0xffff_ffff_ffff_f000] {
        assert_eq!(pte2pa(pa2pte(pa)), pa);
    }
}

#[test]
fn satp_selects_sv39_and_the_root_page() {
    assert_eq!(make_satp(0x8000_0000), SATP_SV39 | 0x80000);
    assert_eq!(make_satp(0x8765_4000), 0x8000_0000_0008_7654);
}

#[test]
fn kernel_stacks_lie_below_the_trampoline() {
    assert_eq!(kstack(0), TRAMPOLINE - 2 * PGSIZE);
    assert_eq!(kstack(3), TRAMPOLINE - 8 * PGSIZE);
}

#[test]
fn set_mpp_writes_the_mode_asked_for() {
    let mut h = Hart::zero(0);
    w_mstatus(&mut h, 0x1800 | 0x8);
    set_mpp(&mut h, MPP::Supervisor);
    assert_eq!(r_mstatus(&h), MSTATUS_MPP_S | 0x8);
    w_mstatus(&mut h, 0x1800);
    set_mpp(&mut h, MPP::User);
    assert_eq!(h.mstatus, 0);
    w_mstatus(&mut h, 0);
    set_mpp(&mut h, MPP::Machine);
    assert_eq!(h.mstatus, 0x1800);
}

#[test]
fn interrupts_on_and_off() {
    let mut h = Hart::zero(0);
    w_sstatus(&mut h, 0x100);
    assert!(!intr_get(&h));
    intr_on(&mut h);
    assert!(intr_get(&h));
    assert_eq!(r_sstatus(&h), 0x100 | SSTATUS_SIE);
    intr_off(&mut h);
    assert!(!intr_get(&h));
    assert_eq!(r_sstatus(&h), 0x100);
}

#[test]
fn registers_read_back_what_was_written() {
    let mut h = Hart::zero(3);
    assert_eq!(r_mhartid(&h), 3);
    assert_eq!(r_tp(&h), 0);
    w_tp(&mut h, 3);
    w_mepc(&mut h, 0x8000_0000);
    w_satp(&mut h, 42);
    w_sepc(&mut h, 0x1234);
    assert_eq!(r_tp(&h), 3);
    assert_eq!(h.mepc, 0x8000_0000);
    assert_eq!(h.satp, 42);
    assert_eq!(r_sepc(&h), 0x1234);
    assert_eq!(r_scause(&h), 0);
}

#[test]
fn vma_counts_tlb_flushes() {
    let mut h = Hart::zero(0);
    vma(&mut h);
    vma(&mut h);
    assert_eq!(h.tlb_flushes, 2);
}
