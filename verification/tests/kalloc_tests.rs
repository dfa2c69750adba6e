use xv6_rs::kalloc::Kmem;
use xv6_rs::memlayout::PHYSTOP;
use xv6_rs::memory::PhysMem;
use xv6_rs::riscv::PGSIZE;
use xv6_rs::string::{memmove, memset};

/// Memory for the last `pages` pages below PHYSTOP, and an allocator for a
/// kernel image that ends where that memory begins.
fn heap(pages: u64) -> (PhysMem, Kmem) {
    let base = PHYSTOP - pages * PGSIZE;
    let mem = PhysMem::new(base, (pages * PGSIZE) as usize);
    let kmem = Kmem::new(base);
    (mem, kmem)
}

#[test]
fn phys_mem_starts_zeroed() {
    let mem = PhysMem::new(0x1000, 64);
    assert_eq!(mem.base, 0x1000);
    assert_eq!(mem.bytes.len(), 64);
    assert_eq!(mem.read_byte(0x1000), 0);
    assert_eq!(mem.read_word(0x1038), 0);
}

#[test]
fn words_are_little_endian() {
    let mut mem = PhysMem::new(0x1000, 32);
    mem.write_word(0x1008, 0x0102_0304_0506_0708);
    assert_eq!(mem.read_byte(0x1008), 0x08);
    assert_eq!(mem.read_byte(0x100f), 0x01);
    assert_eq!(mem.read_byte(0x1010), 0);
    assert_eq!(mem.read_word(0x1008), 0x0102_0304_0506_0708);
    mem.write_byte(0x1009, 0xff);
    assert_eq!(mem.read_word(0x1008), 0x0102_0304_0506_ff08);
}

#[test]
fn read_bytes_copies_a_range() {
    let mut mem = PhysMem::new(0x2000, 16);
    for (k, b) in [b'h', b'i', b'!'].iter().enumerate() {
        mem.write_byte(0x2004 + k as u64, *b);
    }
    assert_eq!(mem.read_bytes(0x2004, 3), b"hi!".to_vec());
    assert_eq!(mem.read_bytes(0x2004, 0), Vec::<u8>::new());
}

#[test]
fn memset_fills_only_the_range() {
    let mut mem = PhysMem::new(0x1000, 16);
    memset(&mut mem, 0x1004, 7, 4);
    assert_eq!(mem.read_bytes(0x1000, 10), vec![0, 0, 0, 0, 7, 7, 7, 7, 0, 0]);
}

#[test]
fn memmove_copies_and_returns_dst() {
    let mut mem = PhysMem::new(0x1000, 32);
    mem.write_word(0x1000, 0x1122_3344_5566_7788);
    let r = memmove(&mut mem, 0x1010, 0x1000, 8);
    assert_eq!(r, 0x1010);
    assert_eq!(mem.read_word(0x1010), 0x1122_3344_5566_7788);
    assert_eq!(mem.read_word(0x1000), 0x1122_3344_5566_7788);
}

#[test]
fn memmove_of_nothing_returns_dst() {
    let mut mem = PhysMem::new(0x1000, 32);
    mem.write_byte(0x1000, 9);
    assert_eq!(memmove(&mut mem, 0x1010, 0x1000, 0), 0x1010);
    assert_eq!(mem.read_byte(0x1010), 0);
}

#[test]
fn kinit_frees_every_page_up_to_phystop() {
    let (mut mem, mut kmem) = heap(16);
    kmem.kinit(&mut mem);
    assert_eq!(kmem.page_count, 16);
    assert_eq!(kmem.freelist, PHYSTOP - PGSIZE);
    // Each free page links to the one below it; the lowest ends the list.
    assert_eq!(mem.read_word(PHYSTOP - PGSIZE), PHYSTOP - 2 * PGSIZE);
    assert_eq!(mem.read_word(PHYSTOP - 16 * PGSIZE), 0);
    // Freed pages are filled with 1s past the link.
    assert_eq!(mem.read_byte(PHYSTOP - PGSIZE + 8), 1);
}

#[test]
fn kinit_rounds_the_kernel_end_up() {
    let base = PHYSTOP - 8 * PGSIZE;
    let mut mem = PhysMem::new(base, (8 * PGSIZE) as usize);
    let mut kmem = Kmem::new(base + 1);
    kmem.kinit(&mut mem);
    assert_eq!(kmem.page_count, 7);
    assert_eq!(kmem.freelist, PHYSTOP - PGSIZE);
    assert_eq!(mem.read_byte(base), 0);
}

#[test]
fn kalloc_hands_out_the_highest_page_first() {
    let (mut mem, mut kmem) = heap(4);
    kmem.kinit(&mut mem);
    let a = kmem.kalloc(&mut mem);
    let b = kmem.kalloc(&mut mem);
    assert_eq!(a, PHYSTOP - PGSIZE);
    assert_eq!(b, PHYSTOP - 2 * PGSIZE);
    assert_eq!(kmem.page_count, 2);
    assert_eq!(kmem.freelist, PHYSTOP - 3 * PGSIZE);
    // A page handed out is filled with 5s.
    assert_eq!(mem.read_byte(a), 5);
    assert_eq!(mem.read_byte(a + PGSIZE - 1), 5);
}

#[test]
fn kfree_then_kalloc_gives_the_same_page() {
    let (mut mem, mut kmem) = heap(4);
    kmem.kinit(&mut mem);
    let a = kmem.kalloc(&mut mem);
    let head = kmem.freelist;
    let count = kmem.page_count;
    kmem.kfree(&mut mem, a);
    assert_eq!(kmem.freelist, a);
    assert_eq!(mem.read_word(a), head);
    assert_eq!(mem.read_byte(a + 8), 1);
    let again = kmem.kalloc(&mut mem);
    assert_eq!(again, a);
    assert_eq!(kmem.freelist, head);
    assert_eq!(kmem.page_count, count);
}

#[test]
fn kalloc_never_repeats_a_page_in_use() {
    let (mut mem, mut kmem) = heap(8);
    kmem.kinit(&mut mem);
    let mut seen = Vec::new();
    for _ in 0..8 {
        let p = kmem.kalloc(&mut mem);
        assert!(!seen.contains(&p));
        assert_eq!(p % PGSIZE, 0);
        seen.push(p);
    }
    assert_eq!(kmem.page_count, 0);
    assert_eq!(kmem.freelist, 0);
}

#[test]
fn freerange_frees_whole_pages_only() {
    let base = PHYSTOP - 8 * PGSIZE;
    let mut mem = PhysMem::new(base, (8 * PGSIZE) as usize);
    let mut kmem = Kmem::new(base);
    kmem.freerange(&mut mem, base + 10, base + 4 * PGSIZE + 100);
    assert_eq!(kmem.page_count, 3);
    assert_eq!(kmem.freelist, base + 3 * PGSIZE);
    let mut empty = Kmem::new(base);
    empty.freerange(&mut mem, base + 10, base + PGSIZE + 100);
    assert_eq!(empty.page_count, 0);
}

#[test]
fn allocator_test_counts_the_heap_and_restores_it() {
    let (mut mem, mut kmem) = heap(16);
    kmem.kinit(&mut mem);
    let cnt = kmem.allocator_test(&mut mem);
    assert_eq!(cnt, 16);
    assert_eq!(kmem.page_count, 16);
    assert_eq!(kmem.freelist, PHYSTOP - PGSIZE);
}
