use xv6_rs::kalloc::Kmem;
use xv6_rs::memlayout::PHYSTOP;
use xv6_rs::memory::PhysMem;
use xv6_rs::riscv::{pte2pa, PGSIZE, PTE_R, PTE_U, PTE_V, PTE_W, PTE_X};
use xv6_rs::uvm::uvmalloc;
use xv6_rs::vm::{kvmmap, mappages, uvmclear, uvmcreate, uvminit, PageTable, PageTableEntry, ENTRY_NUMS};

/// Memory for the last `pages` pages below PHYSTOP, all but the lowest
/// `reserved` of them handed to the allocator.
fn booted(pages: u64, reserved: u64) -> (PhysMem, Kmem) {
    let base = PHYSTOP - pages * PGSIZE;
    let mut mem = PhysMem::new(base, (pages * PGSIZE) as usize);
    let mut kmem = Kmem::new(base + reserved * PGSIZE);
    kmem.kinit(&mut mem);
    (mem, kmem)
}

#[test]
fn empty_entries_and_tables() {
    assert_eq!(PageTableEntry::zero().data, 0);
    let pt = PageTable::zero();
    assert_eq!(pt.entries.len(), ENTRY_NUMS);
    assert!(pt.entries.iter().all(|e| e.data == 0));
    assert_eq!(pt.root, 0);
}

#[test]
fn uvmcreate_takes_a_root_page() {
    let (mut mem, mut kmem) = booted(8, 0);
    let mut pt = uvmcreate(&mut mem, &mut kmem);
    assert_eq!(pt.root, PHYSTOP - PGSIZE);
    assert_eq!(kmem.page_count, 7);
    assert!(pt.entries.iter().all(|e| e.data == 0));
    assert_eq!(pt.walk(&mut mem, &mut kmem, 0x1000, false), None);
    assert_eq!(pt.walkaddr(&mut mem, &mut kmem, 0x1000), None);
}

#[test]
fn mappages_then_walkaddr_gives_the_page() {
    let (mut mem, mut kmem) = booted(8, 0);
    let mut pt = uvmcreate(&mut mem, &mut kmem);
    let r = mappages(&mut pt, &mut mem, &mut kmem, 0x1000, 0x8000_0000, 2 * PGSIZE, PTE_R | PTE_W | PTE_U);
    assert_eq!(r, 0);
    // One level-1 and one level-0 table were taken.
    assert_eq!(kmem.page_count, 5);
    assert_eq!(pt.walkaddr(&mut mem, &mut kmem, 0x1000), Some(0x8000_0000));
    assert_eq!(pt.walkaddr(&mut mem, &mut kmem, 0x1fff), Some(0x8000_0000));
    assert_eq!(pt.walkaddr(&mut mem, &mut kmem, 0x2abc), Some(0x8000_1000));
    // An address under another root entry has no tables on its path.
    assert_eq!(pt.walkaddr(&mut mem, &mut kmem, 0x4000_0000), None);
    // An address whose PTE is invalid, or lacks the user bit.
    assert_eq!(pt.walkaddr(&mut mem, &mut kmem, 0x40_0000), None);
    assert_eq!(pt.walkaddr(&mut mem, &mut kmem, 0x3000), None);
    uvmclear(&mut pt, &mut mem, &mut kmem, 0x1000);
    assert_eq!(pt.walkaddr(&mut mem, &mut kmem, 0x1000), None);
    let a = pt.walk(&mut mem, &mut kmem, 0x2000, false).unwrap();
    let pte = mem.read_word(a);
    assert_eq!(pte & 0x3ff, PTE_R | PTE_W | PTE_U | PTE_V);
    assert_eq!(pte2pa(pte), 0x8000_1000);
}

#[test]
fn mappages_fails_without_table_pages() {
    let (mut mem, mut kmem) = booted(1, 0);
    let mut pt = uvmcreate(&mut mem, &mut kmem);
    assert_eq!(kmem.page_count, 0);
    let r = mappages(&mut pt, &mut mem, &mut kmem, 0, 0x8000_0000, PGSIZE, PTE_R | PTE_U);
    assert_eq!(r, -1);
    assert_eq!(pt.walkaddr(&mut mem, &mut kmem, 0), None);
}

#[test]
fn walk_allocates_the_path_when_asked() {
    let (mut mem, mut kmem) = booted(8, 0);
    let mut pt = uvmcreate(&mut mem, &mut kmem);
    let a = pt.walk(&mut mem, &mut kmem, 0x20_3000, true).unwrap();
    assert_eq!(kmem.page_count, 5);
    // The level-0 table is the second page taken; entry 3 of it.
    assert_eq!(a, PHYSTOP - 3 * PGSIZE + 3 * 8);
    assert_eq!(mem.read_word(a), 0);
    assert_eq!(pt.walk(&mut mem, &mut kmem, 0x20_3000, false), Some(a));
}

#[test]
fn kvmmap_maps_without_the_user_bit() {
    let (mut mem, mut kmem) = booted(8, 0);
    let mut pt = PageTable::zero();
    kvmmap(&mut pt, &mut mem, &mut kmem, 0x1000_0000, 0x1000_0000, PGSIZE, PTE_R | PTE_W);
    let a = pt.walk(&mut mem, &mut kmem, 0x1000_0000, false).unwrap();
    let pte = mem.read_word(a);
    assert_eq!(pte2pa(pte), 0x1000_0000);
    assert_eq!(pte & 0x3ff, PTE_R | PTE_W | PTE_V);
}

#[test]
fn uvminit_copies_the_program_to_address_zero() {
    let (mut mem, mut kmem) = booted(8, 1);
    let src = PHYSTOP - 8 * PGSIZE;
    for (k, b) in [0x13u8, 0x05, 0x10, 0x00].iter().enumerate() {
        mem.write_byte(src + k as u64, *b);
    }
    let mut pt = uvmcreate(&mut mem, &mut kmem);
    uvminit(&mut pt, &mut mem, &mut kmem, src, 4);
    let pa = pt.walkaddr(&mut mem, &mut kmem, 0).unwrap();
    assert_eq!(mem.read_bytes(pa, 4), vec![0x13, 0x05, 0x10, 0x00]);
    assert_eq!(mem.read_byte(pa + 4), 0);
    let a = pt.walk(&mut mem, &mut kmem, 0, false).unwrap();
    assert_eq!(mem.read_word(a) & 0x3ff, PTE_R | PTE_W | PTE_X | PTE_U | PTE_V);
}

#[test]
fn uvmalloc_grows_with_zeroed_pages() {
    let (mut mem, mut kmem) = booted(8, 0);
    let mut pt = uvmcreate(&mut mem, &mut kmem);
    let sz = uvmalloc(&mut pt, &mut mem, &mut kmem, 0, 2 * PGSIZE);
    assert_eq!(sz, 2 * PGSIZE);
    let p0 = pt.walkaddr(&mut mem, &mut kmem, 0).unwrap();
    let p1 = pt.walkaddr(&mut mem, &mut kmem, PGSIZE).unwrap();
    assert_ne!(p0, p1);
    assert!(mem.read_bytes(p0, PGSIZE).iter().all(|b| *b == 0));
    assert!(mem.read_bytes(p1, PGSIZE).iter().all(|b| *b == 0));
    let a = pt.walk(&mut mem, &mut kmem, 0, false).unwrap();
    assert_eq!(mem.read_word(a) & 0x3ff, PTE_R | PTE_W | PTE_X | PTE_U | PTE_V);
}

#[test]
fn uvmalloc_to_a_smaller_size_changes_nothing() {
    let (mut mem, mut kmem) = booted(4, 0);
    let mut pt = uvmcreate(&mut mem, &mut kmem);
    let before = kmem.page_count;
    assert_eq!(uvmalloc(&mut pt, &mut mem, &mut kmem, 3 * PGSIZE, PGSIZE), 3 * PGSIZE);
    assert_eq!(uvmalloc(&mut pt, &mut mem, &mut kmem, PGSIZE, PGSIZE), PGSIZE);
    assert_eq!(kmem.page_count, before);
}

#[test]
fn uvmclear_takes_the_user_bit_away() {
    let (mut mem, mut kmem) = booted(8, 0);
    let mut pt = uvmcreate(&mut mem, &mut kmem);
    uvmalloc(&mut pt, &mut mem, &mut kmem, 0, PGSIZE);
    let a = pt.walk(&mut mem, &mut kmem, 0, false).unwrap();
    let before = mem.read_word(a);
    uvmclear(&mut pt, &mut mem, &mut kmem, 0);
    assert_eq!(mem.read_word(a), before & !PTE_U);
    assert_eq!(mem.read_word(a) & PTE_V, PTE_V);
}

#[test]
fn mappages_failure_keeps_the_pages_before_it() {
    let (mut mem, mut kmem) = booted(3, 0);
    let mut pt = uvmcreate(&mut mem, &mut kmem);
    assert_eq!(kmem.page_count, 2);
    // The first page takes the last two pages for its tables; the second,
    // in the next 2 MiB block, finds none for its own.
    let r = mappages(&mut pt, &mut mem, &mut kmem, 0x1f_f000, 0x8000_0000, 2 * PGSIZE, PTE_R | PTE_U);
    assert_eq!(r, -1);
    assert_eq!(pt.walkaddr(&mut mem, &mut kmem, 0x1f_f000), Some(0x8000_0000));
    assert_eq!(pt.walkaddr(&mut mem, &mut kmem, 0x20_0000), None);
}

#[test]
fn uvmalloc_takes_exactly_the_page_and_its_tables() {
    let (mut mem, mut kmem) = booted(4, 0);
    let mut pt = uvmcreate(&mut mem, &mut kmem);
    assert_eq!(kmem.page_count, 3);
    assert_eq!(uvmalloc(&mut pt, &mut mem, &mut kmem, 0, PGSIZE), PGSIZE);
    assert_eq!(kmem.page_count, 0);
    assert!(pt.walkaddr(&mut mem, &mut kmem, 0).is_some());
}

#[test]
fn mappages_takes_one_table_per_further_block() {
    // Two 2 MiB blocks of one 1 GiB region: a level-1 table and two
    // level-0 tables, three pages in all.
    let (mut mem, mut kmem) = booted(5, 0);
    let mut pt = uvmcreate(&mut mem, &mut kmem);
    assert_eq!(kmem.page_count, 4);
    let r = mappages(&mut pt, &mut mem, &mut kmem, 0x1f_f000, 0x8000_0000, 2 * PGSIZE, PTE_R | PTE_U);
    assert_eq!(r, 0);
    assert_eq!(kmem.page_count, 1);
    assert_eq!(pt.walkaddr(&mut mem, &mut kmem, 0x20_0000), Some(0x8000_1000));
}

#[test]
fn uvmalloc_returns_zero_when_memory_runs_out() {
    // Two free pages cannot pay for a page that needs two tables.
    let (mut mem, mut kmem) = booted(3, 0);
    let mut pt = uvmcreate(&mut mem, &mut kmem);
    assert_eq!(kmem.page_count, 2);
    assert_eq!(uvmalloc(&mut pt, &mut mem, &mut kmem, 0, PGSIZE), 0);
    assert_eq!(kmem.page_count, 2);
    assert_eq!(pt.walkaddr(&mut mem, &mut kmem, 0), None);
}

#[test]
fn uvmalloc_keeps_the_pages_before_the_one_it_cannot_pay_for() {
    // The first page takes its frame and two tables, all there is; the
    // second finds no frame.
    let (mut mem, mut kmem) = booted(4, 0);
    let mut pt = uvmcreate(&mut mem, &mut kmem);
    assert_eq!(kmem.page_count, 3);
    assert_eq!(uvmalloc(&mut pt, &mut mem, &mut kmem, 0, 2 * PGSIZE), 0);
    assert_eq!(kmem.page_count, 0);
    assert!(pt.walkaddr(&mut mem, &mut kmem, 0).is_some());
    assert_eq!(pt.walkaddr(&mut mem, &mut kmem, PGSIZE), None);
}

#[test]
fn the_root_page_holds_the_root_entries() {
    let (mut mem, mut kmem) = booted(8, 0);
    let mut pt = uvmcreate(&mut mem, &mut kmem);
    let r = mappages(&mut pt, &mut mem, &mut kmem, 0x1000, 0x8000_0000, PGSIZE, PTE_R | PTE_U);
    assert_eq!(r, 0);
    assert_eq!(pt.entries[0].data & PTE_V, PTE_V);
    for i in 0..512u64 {
        assert_eq!(mem.read_word(pt.root + 8 * i), pt.entries[i as usize].data);
    }
    // The level-1 table that root entry 0 points to is the one the walk uses.
    assert_eq!(pte2pa(mem.read_word(pt.root)), pte2pa(pt.entries[0].data));
}

#[test]
fn mappages_keeps_the_entries_of_other_pages() {
    let (mut mem, mut kmem) = booted(8, 0);
    let mut pt = uvmcreate(&mut mem, &mut kmem);
    assert_eq!(mappages(&mut pt, &mut mem, &mut kmem, 0x1000, 0x8000_0000, PGSIZE, PTE_R | PTE_U), 0);
    let a1 = pt.walk(&mut mem, &mut kmem, 0x1000, false).unwrap();
    let a2 = pt.walk(&mut mem, &mut kmem, 0x2000, false).unwrap();
    let (w1, w2) = (mem.read_word(a1), mem.read_word(a2));
    assert_eq!(w2, 0);
    assert_eq!(mappages(&mut pt, &mut mem, &mut kmem, 0x3000, 0x8000_3000, PGSIZE, PTE_R | PTE_U), 0);
    // The entry of the page mapped before and the invalid entry between
    // them keep their words.
    assert_eq!(mem.read_word(a1), w1);
    assert_eq!(mem.read_word(a2), w2);
}
