use xv6_rs::batch::{load_apps, load_pages, myload_app, proc_pagetable, procinit, procinit_pages};
use xv6_rs::kalloc::Kmem;
use xv6_rs::kvm::{kernel_table_pages, kvminit, kvminithart, PROC_SLOT_SIZE};
use xv6_rs::launch::userinit;
use xv6_rs::memlayout::{kstack, KERNBASE, PHYSTOP, PLIC, TRAMPOLINE, TRAPFRAME, UART0, VIRTIO0};
use xv6_rs::memory::PhysMem;
use xv6_rs::param::NPROC;
use xv6_rs::proc::{Proc, ProcState, TrapFrame, CPU};
use xv6_rs::riscv::{make_satp, pg_round_up, pte2pa, Hart, PGSIZE, PTE_R, PTE_U, PTE_V, PTE_W, PTE_X};
use xv6_rs::vm::PageTable;

const USERTRAPRET: u64 = 0x8000_1234;
const TRAMPOLINE_CODE: u64 = 0x8000_7000;

/// `pages` pages of memory below PHYSTOP; the lowest `reserved` stay with
/// the kernel, the rest go to the allocator.
fn booted(pages: u64, reserved: u64) -> (PhysMem, Kmem, u64) {
    let base = PHYSTOP - pages * PGSIZE;
    let mut mem = PhysMem::new(base, (pages * PGSIZE) as usize);
    let mut kmem = Kmem::new(base + reserved * PGSIZE);
    kmem.kinit(&mut mem);
    (mem, kmem, base)
}

/// The leaf PTE that maps `va`.
fn pte_of(pt: &mut PageTable, mem: &mut PhysMem, kmem: &mut Kmem, va: u64) -> u64 {
    let a = pt.walk(mem, kmem, va, false).unwrap();
    mem.read_word(a)
}

/// An application table at `table` with images of the given bytes after
/// it, as the linker lays them out: the count, then each start, then the
/// end of the last.
fn write_apps(mem: &mut PhysMem, table: u64, images: &[&[u8]]) {
    mem.write_word(table, images.len() as u64);
    let mut at = table + 0x100;
    for (i, img) in images.iter().enumerate() {
        mem.write_word(table + 8 * (i as u64 + 1), at);
        for (k, b) in img.iter().enumerate() {
            mem.write_byte(at + k as u64, *b);
        }
        at += img.len() as u64;
    }
    mem.write_word(table + 8 * (images.len() as u64 + 1), at);
}

fn pool() -> Vec<Proc> {
    (0..NPROC).map(|_| Proc::zero_init()).collect()
}

#[test]
fn kvminit_maps_the_kernel_at_its_physical_addresses() {
    let (mut mem, mut kmem, base) = booted(256, 2);
    mem.write_word(base, 2);
    let etext = KERNBASE + 0x10_0000;
    let mut pt = kvminit(&mut mem, &mut kmem, base + PGSIZE, etext, TRAMPOLINE_CODE, base);
    assert_eq!(pt.root, base + PGSIZE);
    // The static holds the root entries.
    for i in 0..512u64 {
        assert_eq!(mem.read_word(pt.root + 8 * i), pt.entries[i as usize].data);
    }
    for (va, perm) in [
        (UART0, PTE_R | PTE_W),
        (VIRTIO0, PTE_R | PTE_W),
        (PLIC, PTE_R | PTE_W),
        (PLIC + 0x3f_f000, PTE_R | PTE_W),
        (KERNBASE, PTE_R | PTE_X),
        (etext - PGSIZE, PTE_R | PTE_X),
        (etext, PTE_R | PTE_W),
        (PHYSTOP - PGSIZE, PTE_R | PTE_W),
    ] {
        let pte = pte_of(&mut pt, &mut mem, &mut kmem, va);
        assert_eq!(pte2pa(pte), va);
        assert_eq!(pte & 0x3ff, perm | PTE_V);
    }
    let pte = pte_of(&mut pt, &mut mem, &mut kmem, TRAMPOLINE);
    assert_eq!(pte2pa(pte), TRAMPOLINE_CODE);
    assert_eq!(pte & 0x3ff, PTE_R | PTE_X | PTE_V);
    // A kernel stack for each application, on a cleared page, its guard
    // page below it left unmapped.
    for i in 0..2u64 {
        let va = kstack(i * PROC_SLOT_SIZE);
        let pte = pte_of(&mut pt, &mut mem, &mut kmem, va);
        assert_eq!(pte & 0x3ff, PTE_R | PTE_W | PTE_V);
        let pa = pte2pa(pte);
        assert!(mem.read_bytes(pa, PGSIZE).iter().all(|b| *b == 0));
        assert_eq!(pte_of(&mut pt, &mut mem, &mut kmem, va - PGSIZE) & PTE_V, 0);
    }
    let mut h = Hart::zero(0);
    kvminithart(&mut h, pt.root);
    assert_eq!(h.satp, make_satp(pt.root));
    assert_eq!(h.tlb_flushes, 1);
}

#[test]
fn proc_pagetable_maps_trampoline_and_trap_frame() {
    let (mut mem, mut kmem, _) = booted(8, 0);
    let mut p = Proc::zero_init();
    p.trapframe = Some(0x8000_9000);
    let mut pt = proc_pagetable(&p, &mut mem, &mut kmem, TRAMPOLINE_CODE).unwrap();
    assert_eq!(pt.root, PHYSTOP - PGSIZE);
    assert_eq!(kmem.page_count, 5);
    let pte = pte_of(&mut pt, &mut mem, &mut kmem, TRAMPOLINE);
    assert_eq!((pte2pa(pte), pte & 0x3ff), (TRAMPOLINE_CODE, PTE_R | PTE_X | PTE_V));
    let pte = pte_of(&mut pt, &mut mem, &mut kmem, TRAPFRAME);
    assert_eq!((pte2pa(pte), pte & 0x3ff), (0x8000_9000, PTE_R | PTE_W | PTE_V));
    assert_eq!(pt.walkaddr(&mut mem, &mut kmem, 0), None);
}

#[test]
fn myload_app_copies_the_image_to_address_zero() {
    let (mut mem, mut kmem, base) = booted(16, 3);
    let image: Vec<u8> = (0..5000u32).map(|k| (k % 251) as u8).collect();
    for (k, b) in image.iter().enumerate() {
        mem.write_byte(base + k as u64, *b);
    }
    let mut p = Proc::zero_init();
    p.trapframe = Some(base + 2 * PGSIZE);
    myload_app(&mut p, &mut mem, &mut kmem, base, 5000, TRAMPOLINE_CODE);
    let pt = p.pagetable.as_mut().unwrap();
    let p0 = pt.walkaddr(&mut mem, &mut kmem, 0).unwrap();
    let p1 = pt.walkaddr(&mut mem, &mut kmem, PGSIZE).unwrap();
    assert_eq!(mem.read_bytes(p0, PGSIZE), image[..4096].to_vec());
    assert_eq!(mem.read_bytes(p1, 904), image[4096..].to_vec());
    assert!(mem.read_bytes(p1 + 904, PGSIZE - 904).iter().all(|b| *b == 0));
}

#[test]
fn load_apps_loads_each_table_entry() {
    let (mut mem, mut kmem, base) = booted(64, 3);
    write_apps(&mut mem, base, &[b"abc", b"defgh"]);
    let mut procs = pool();
    procs[0].trapframe = Some(base + PGSIZE);
    procs[1].trapframe = Some(base + 2 * PGSIZE);
    load_apps(&mut procs, &mut mem, &mut kmem, base, TRAMPOLINE_CODE);
    for (i, img) in [&b"abc"[..], &b"defgh"[..]].iter().enumerate() {
        let pt = procs[i].pagetable.as_mut().unwrap();
        let pa = pt.walkaddr(&mut mem, &mut kmem, 0).unwrap();
        assert_eq!(mem.read_bytes(pa, img.len() as u64), img.to_vec());
    }
    assert!(procs[2].pagetable.is_none());
}

#[test]
fn procinit_then_userinit_makes_the_applications_runnable() {
    let (mut mem, mut kmem, base) = booted(256, 2);
    let first_image: Vec<u8> = vec![0x73, 0, 0, 0, 0x6f, 0];
    let second_image: Vec<u8> = (0..4097u32).map(|k| k as u8).collect();
    write_apps(&mut mem, base, &[&first_image, &second_image]);
    let mut procs = pool();
    let mut cpus = vec![CPU::zero()];
    let h = Hart::zero(0);
    procinit(&mut procs, &mut cpus, &h, &mut mem, &mut kmem, base, USERTRAPRET, TRAMPOLINE_CODE);
    assert_eq!(cpus[0].process, Some(0));
    for i in 0..2usize {
        let p = &procs[i];
        assert_eq!(p.state, ProcState::UNUSED);
        assert_eq!(p.pid, i as i64);
        assert_eq!(p.kstack, kstack(i as u64 * PROC_SLOT_SIZE));
        assert_eq!(p.context.ra, USERTRAPRET);
        // The trap frames are the first free pages, cleared.
        let tf = p.trapframe.unwrap();
        assert_eq!(tf, PHYSTOP - (i as u64 + 1) * PGSIZE);
        assert!(mem.read_bytes(tf, PGSIZE).iter().all(|b| *b == 0));
    }
    assert!(procs[2].trapframe.is_none());

    let first = userinit(&mut procs, &cpus, &h, &mut mem, &mut kmem, base);
    assert_eq!(first, 0);
    for (i, img) in [&first_image, &second_image].iter().enumerate() {
        let sz = img.len() as u64;
        let tf = procs[i].trapframe.unwrap();
        assert_eq!(procs[i].state, ProcState::RUNNABLE);
        assert_eq!(procs[i].pid, i as i64);
        assert_eq!(procs[i].sz, sz);
        assert_eq!(procs[i].context.sp, procs[i].kstack + PGSIZE);
        let frame = TrapFrame::load(&mem, tf);
        let stack = pg_round_up(sz);
        assert_eq!(frame.epc, 0);
        assert_eq!(frame.sp, stack + 2 * PGSIZE);
        let pt = procs[i].pagetable.as_mut().unwrap();
        // The image is still at 0.
        let pa = pt.walkaddr(&mut mem, &mut kmem, 0).unwrap();
        assert_eq!(mem.read_bytes(pa, sz.min(PGSIZE)), img[..(sz.min(PGSIZE) as usize)].to_vec());
        // The guard page is valid but not for the user; the stack page is
        // a cleared user page.
        let guard = pte_of(pt, &mut mem, &mut kmem, stack);
        assert_eq!(guard & (PTE_V | PTE_U), PTE_V);
        let sp_page = pt.walkaddr(&mut mem, &mut kmem, stack + PGSIZE).unwrap();
        assert!(mem.read_bytes(sp_page, PGSIZE).iter().all(|b| *b == 0));
    }
    assert_eq!(procs[2].state, ProcState::UNUSED);
}

#[test]
fn kernel_table_pages_counts_tables_and_stacks() {
    assert_eq!(kernel_table_pages(0), 71);
    assert_eq!(kernel_table_pages(1), 72);
    assert_eq!(kernel_table_pages(2), 73);
    // The third stack opens a new 2 MiB block, and with it a table.
    assert_eq!(kernel_table_pages(3), 75);
    assert_eq!(kernel_table_pages(8), 84);
}

#[test]
fn kvminit_takes_exactly_the_pages_it_needs() {
    for n in [0u64, 2, 3, 8] {
        let (mut mem, mut kmem, base) = booted(256, 2);
        mem.write_word(base, n);
        let before = kmem.page_count;
        let _pt = kvminit(&mut mem, &mut kmem, base + PGSIZE, KERNBASE + 0x10_0000, TRAMPOLINE_CODE, base);
        assert_eq!((before - kmem.page_count) as u64, kernel_table_pages(n));
    }
    // With the text ending on a 2 MiB boundary the count is the same.
    let (mut mem, mut kmem, base) = booted(256, 2);
    mem.write_word(base, 2);
    let before = kmem.page_count;
    let _pt = kvminit(&mut mem, &mut kmem, base + PGSIZE, KERNBASE + 0x20_0000, TRAMPOLINE_CODE, base);
    assert_eq!((before - kmem.page_count) as u64, 73);
}

#[test]
fn kvminit_runs_on_exactly_the_pages_it_needs() {
    let (mut mem, mut kmem, base) = booted(2 + 73, 2);
    mem.write_word(base, 2);
    assert_eq!(kmem.page_count, 73);
    let mut pt = kvminit(&mut mem, &mut kmem, base + PGSIZE, KERNBASE + 0x10_0000, TRAMPOLINE_CODE, base);
    assert_eq!(kmem.page_count, 0);
    let pte = pte_of(&mut pt, &mut mem, &mut kmem, PHYSTOP - PGSIZE);
    assert_eq!(pte2pa(pte), PHYSTOP - PGSIZE);
}

#[test]
fn load_pages_counts_tables_and_image_pages() {
    assert_eq!(load_pages(0), 3);
    assert_eq!(load_pages(1), 6);
    assert_eq!(load_pages(4096), 6);
    assert_eq!(load_pages(4097), 7);
    assert_eq!(load_pages(0x20_0001), 3 + 513 + 2 + 1);
}

#[test]
fn procinit_takes_exactly_what_procinit_pages_counts() {
    let (mut mem, mut kmem, base) = booted(256, 2);
    let first_image: Vec<u8> = vec![0x73, 0, 0, 0, 0x6f, 0];
    let second_image: Vec<u8> = (0..4097u32).map(|k| k as u8).collect();
    write_apps(&mut mem, base, &[&first_image, &second_image]);
    let need = procinit_pages(&mem, base);
    assert_eq!(need, 2 + 6 + 7);
    let before = kmem.page_count;
    let mut procs = pool();
    let mut cpus = vec![CPU::zero()];
    let h = Hart::zero(0);
    procinit(&mut procs, &mut cpus, &h, &mut mem, &mut kmem, base, USERTRAPRET, TRAMPOLINE_CODE);
    assert_eq!((before - kmem.page_count) as u64, need);
}
