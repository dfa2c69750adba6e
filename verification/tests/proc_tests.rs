use xv6_rs::kalloc::Kmem;
use xv6_rs::memlayout::PHYSTOP;
use xv6_rs::memory::PhysMem;
use xv6_rs::param::{APP_BASE_ADDRESS, APP_SIZE_LIMIT, KERNEL_STACK_SIZE, NPROC, USER_STACK_SIZE};
use xv6_rs::proc::{
    allocproc, get_base_i, get_num_app, init_app_cx, mycpu, myproc, sched, set_tf_word, Context, KernelStack, Proc, ProcState,
    TrapFrame, UserStack, CPU, TRAPFRAME_SIZE,
};
use xv6_rs::riscv::{Hart, PGSIZE};

fn pool() -> Vec<Proc> {
    let mut procs = Vec::new();
    for i in 0..NPROC as u64 {
        let mut p = Proc::zero_init();
        p.kstack = 0x3f_0000_0000 + i * 2 * PGSIZE;
        procs.push(p);
    }
    procs
}

#[test]
fn contexts_start_zeroed() {
    let c = Context::zero_init();
    assert_eq!((c.ra, c.sp, c.s0, c.s11), (0, 0, 0, 0));
    let g = Context::goto_usertrapret(0x3f_ffff_d000, 0x8000_2468);
    assert_eq!(g.ra, 0x8000_2468);
    assert_eq!(g.sp, 0x3f_ffff_d000);
    assert_eq!((g.s0, g.s5, g.s11), (0, 0, 0));
}

#[test]
fn trap_frames_start_zeroed() {
    let mut tf = TrapFrame::zero_init();
    assert_eq!((tf.epc, tf.sp, tf.a0, tf.a7, tf.t6), (0, 0, 0, 0, 0));
    tf.set_sp(0x9000);
    assert_eq!(tf.sp, 0x9000);
    let app = TrapFrame::app_init_context(0x8040_0000, 0x8020_0000);
    assert_eq!(app.epc, 0x8040_0000);
    assert_eq!(app.sp, 0x8020_0000);
    assert_eq!((app.ra, app.a0, app.kernel_satp), (0, 0, 0));
}

#[test]
fn trap_frame_store_then_load_round_trips() {
    let mut mem = PhysMem::new(0x1000, 1024);
    let mut tf = TrapFrame::zero_init();
    tf.kernel_satp = 1;
    tf.epc = 0x40;
    tf.sp = 0x2000;
    tf.a0 = 7;
    tf.a7 = 64;
    tf.t6 = u64::MAX;
    tf.store(&mut mem, 0x1100);
    // The fields lie in layout order, a word each.
    assert_eq!(mem.read_word(0x1100), 1);
    assert_eq!(mem.read_word(0x1100 + 24), 0x40);
    assert_eq!(mem.read_word(0x1100 + 48), 0x2000);
    assert_eq!(mem.read_word(0x1100 + 112), 7);
    assert_eq!(mem.read_word(0x1100 + 168), 64);
    assert_eq!(mem.read_word(0x1100 + 280), u64::MAX);
    assert_eq!(mem.read_word(0x1100 + TRAPFRAME_SIZE), 0);
    let back = TrapFrame::load(&mem, 0x1100);
    assert_eq!((back.kernel_satp, back.epc, back.sp, back.a0, back.a7, back.t6), (1, 0x40, 0x2000, 7, 64, u64::MAX));
    // A store elsewhere leaves it alone.
    TrapFrame::zero_init().store(&mut mem, 0x1000);
    assert_eq!(TrapFrame::load(&mem, 0x1100).a7, 64);
}

#[test]
fn procs_and_cpus_start_empty() {
    let p = Proc::zero_init();
    assert_eq!(p.state, ProcState::UNUSED);
    assert_eq!(ProcState::default(), ProcState::UNUSED);
    assert!(p.trapframe.is_none() && p.pagetable.is_none());
    assert_eq!((p.kstack, p.killed, p.pid, p.sz), (0, 0, 0, 0));
    let c = CPU::zero();
    assert!(c.process.is_none());
    assert_eq!(c.noff, 0);
    assert!(!c.intena);
}

#[test]
fn proc_trapframe_reads_its_page() {
    let mut mem = PhysMem::new(0x1000, 512);
    let mut p = Proc::zero_init();
    p.trapframe = Some(0x1000);
    mem.write_word(0x1000 + 24, 0x123);
    let tf = p.trapframe(&mem).unwrap();
    assert_eq!(tf.epc, 0x123);
}

#[test]
fn stacks_and_app_bases() {
    let ks = KernelStack { base: 0x1000 };
    let us = UserStack { base: 0x9000 };
    assert_eq!(ks.get_sp(), 0x1000 + KERNEL_STACK_SIZE as u64);
    assert_eq!(us.get_sp(), 0x9000 + USER_STACK_SIZE as u64);
    assert_eq!(get_base_i(0), APP_BASE_ADDRESS);
    assert_eq!(get_base_i(3), APP_BASE_ADDRESS + 3 * APP_SIZE_LIMIT);
    assert_eq!(get_base_i(3), 0x8046_0000);
}

#[test]
fn init_app_cx_pushes_the_first_frame() {
    let mut mem = PhysMem::new(0x1000, 2 * KERNEL_STACK_SIZE);
    let kernel_stacks = vec![KernelStack { base: 0x1000 }, KernelStack { base: 0x1000 + KERNEL_STACK_SIZE as u64 }];
    let user_stacks = vec![UserStack { base: 0x10_0000 }, UserStack { base: 0x20_0000 }];
    let sp = init_app_cx(&mut mem, &kernel_stacks, &user_stacks, 1);
    assert_eq!(sp, 0x1000 + 2 * KERNEL_STACK_SIZE as u64 - TRAPFRAME_SIZE);
    let tf = TrapFrame::load(&mem, sp);
    assert_eq!(tf.epc, (APP_BASE_ADDRESS + APP_SIZE_LIMIT) as u64);
    assert_eq!(tf.sp, 0x20_0000 + USER_STACK_SIZE as u64);
    assert_eq!(tf.a0, 0);
    let pushed = kernel_stacks[0].push_context(&mut mem, TrapFrame::app_init_context(5, 6));
    assert_eq!(pushed, 0x1000 + KERNEL_STACK_SIZE as u64 - TRAPFRAME_SIZE);
    assert_eq!(TrapFrame::load(&mem, pushed).epc, 5);
}

#[test]
fn mycpu_and_myproc_follow_tp() {
    let mut h = Hart::zero(0);
    h.tp = 0;
    assert_eq!(mycpu(&h), 0);
    let mut c = CPU::zero();
    c.process = Some(4);
    assert_eq!(myproc(&vec![c], &h), 4);
}

#[test]
fn allocproc_takes_the_first_unused_slot() {
    let mut mem = PhysMem::new(PHYSTOP - 4 * PGSIZE, (4 * PGSIZE) as usize);
    let mut kmem = Kmem::new(PHYSTOP - 4 * PGSIZE);
    kmem.kinit(&mut mem);
    let mut procs = pool();
    procs[0].state = ProcState::RUNNABLE;
    procs[1].state = ProcState::ZOMBIE;
    let i = allocproc(&mut procs, &mut mem, &mut kmem);
    assert_eq!(i, 2);
    assert_eq!(procs[2].state, ProcState::USED);
    assert_eq!(procs[2].pid, 2);
    assert_eq!(procs[2].context.sp, procs[2].kstack + PGSIZE);
    // A slot without a trap frame gets the next free page.
    assert_eq!(procs[2].trapframe, Some(PHYSTOP - PGSIZE));
    assert_eq!(kmem.page_count, 3);
    assert_eq!(procs[3].state, ProcState::UNUSED);
    // A slot with one keeps it, and the allocator is not touched.
    procs[3].trapframe = Some(0x1234_0000);
    assert_eq!(allocproc(&mut procs, &mut mem, &mut kmem), 3);
    assert_eq!(procs[3].trapframe, Some(0x1234_0000));
    assert_eq!(kmem.page_count, 3);
}

#[test]
fn get_num_app_reads_the_count() {
    let mut mem = PhysMem::new(0x8000, 64);
    mem.write_word(0x8010, 3);
    assert_eq!(get_num_app(&mem, 0x8010), 3);
}

#[test]
fn sched_moves_to_the_next_slot() {
    let mut procs = pool();
    procs[0].pid = 0;
    procs[0].state = ProcState::ZOMBIE;
    let mut c = CPU::zero();
    c.process = Some(0);
    let mut cpus = vec![c];
    let h = Hart::zero(0);
    let sw = sched(&mut procs, &mut cpus, &h, 2);
    assert_eq!((sw.prev, sw.next), (0, 1));
    assert_eq!(cpus[0].process, Some(1));
    // The process left keeps its state; the next one runs.
    assert_eq!(procs[0].state, ProcState::ZOMBIE);
    assert_eq!(procs[1].state, ProcState::RUNNING);
}

#[test]
fn set_tf_word_sets_one_field() {
    let mut mem = PhysMem::new(0x1000, 512);
    let mut tf = TrapFrame::zero_init();
    tf.a1 = 9;
    tf.store(&mut mem, 0x1000);
    set_tf_word(&mut mem, 0x1000, 3, 0x44);
    set_tf_word(&mut mem, 0x1000, 21, 16);
    let back = TrapFrame::load(&mem, 0x1000);
    assert_eq!((back.epc, back.a7, back.a1, back.sp), (0x44, 16, 9, 0));
}
