//! The kernel page table: the devices, the kernel image and RAM mapped
//! at their physical addresses, the trampoline at the top, and a kernel
//! stack for each application below it.
use vstd::prelude::*;
use crate::memory::{PhysMem, changed_within, outside_pages, lemma_page_change, lemma_changes_compose};
use crate::kalloc::{Kmem, lemma_kmem_frame, lemma_free_facts};
use crate::string::memset;
use crate::memlayout::{UART0, VIRTIO0, PLIC, KERNBASE, PHYSTOP, TRAMPOLINE, kstack, kstack_spec};
use crate::riscv::{Hart, vma, w_satp, PGSIZE, MAXVA, PTE_R, PTE_W, PTE_X, leaf_pte, pte2pa_spec, lemma_leaf_pte,
    pg_round_down_spec, make_satp, make_satp_spec};
use crate::vm::{PageTable, root_code, lemma_root_table, kvmmap, map_outcome, map_result, map_args_ok, map_budget, map_rest, va_span, va_indices,
    changed_in_tables, took_tables, lemma_pt_frame, lemma_took_facts, lemma_va_indices_round};
use crate::memory::lemma_word_same;
use crate::uvm::{changed_outside_tables, frame_of};
use crate::proc::get_num_app;
use crate::param::NPROC;

verus! {

/// Permissions of a kernel stack page.
pub const KSTACK_PERM: u64 = PTE_R | PTE_W;

/// The kernel stack permission bits are those of a leaf PTE.
pub proof fn lemma_kstack_perm()
    ensures
        KSTACK_PERM == 6,
        KSTACK_PERM < 1024,
{
    assert(2u64 | 4u64 == 6u64) by (bit_vector);
}

/// Bytes between two slots of the process pool; the offset of a slot
/// places its kernel stack.
pub const PROC_SLOT_SIZE: u64 = 184;

/// Virtual address of the kernel stack of slot `i`.
pub open spec fn slot_kstack(i: int) -> int {
    kstack_spec(i * PROC_SLOT_SIZE)
}

/// Takes a page, clears it and maps it at `a` in the kernel page table,
/// readable and writable.
#[verifier::spinoff_prover]
#[verifier::rlimit(60)]
fn map_stack_page(pgtbl: &mut PageTable, mem: &mut PhysMem, kmem: &mut Kmem, a: u64) -> (f: u64)
    requires
        old(pgtbl).wf(old(mem)),
        old(pgtbl).apart_from_free(old(kmem)),
        old(kmem).wf(old(mem)),
        a % PGSIZE == 0,
        a <= MAXVA,
        old(pgtbl).translate(old(mem), a as int) is None,
        old(kmem)@.len() >= 1 + old(pgtbl).tables_needed(old(mem), a as int),
    ensures
        final(pgtbl).wf(final(mem)),
        final(pgtbl).apart_from_free(final(kmem)),
        final(kmem).wf(final(mem)),
        final(pgtbl).root == old(pgtbl).root,
        final(kmem).end == old(kmem).end,
        f == old(kmem)@[0],
        ({
            let used = old(kmem)@.len() - final(kmem)@.len();
            &&& 1 <= used <= 1 + old(pgtbl).tables_needed(old(mem), a as int)
            &&& final(kmem)@ == old(kmem)@.skip(used)
            &&& forall|t: u64| #[trigger] old(pgtbl).owns(t) ==> final(pgtbl).owns(t)
            &&& forall|t: u64| #[trigger] final(pgtbl).owns(t) ==> old(pgtbl).owns(t) || old(kmem)@.take(used).contains(t)
            &&& changed_outside_tables(old(pgtbl), old(kmem)@.take(used), old(mem), final(mem))
        }),
        !final(pgtbl).owns(f),
        forall|q: int| f <= q < f + PGSIZE ==> #[trigger] final(mem).byte(q) == 0,
        forall|v: int| 0 <= v < va_span() ==> #[trigger] final(pgtbl).translate(final(mem), v) == if pg_round_down_spec(v) == a {
            Some(leaf_pte(f, KSTACK_PERM))
        } else {
            old(pgtbl).translate(old(mem), v)
        },
        forall|v: int|
            #[trigger] va_indices(v).0 == va_indices(a as int).0 && va_indices(v).1 == va_indices(a as int).1
                ==> final(pgtbl).tables_needed(final(mem), v) == 0,
{
    let ghost pt0 = *pgtbl;
    let ghost m0 = *mem;
    let ghost k0 = *kmem;
    let f = kmem.kalloc(mem);
    let ghost m1 = *mem;
    proof {
        reveal(Kmem::wf);
    }
    memset(mem, f, 0, PGSIZE);
    let ghost m2 = *mem;
    let ghost k1 = *kmem;
    proof {
        reveal(PageTable::apart_from_free);
        reveal(Kmem::wf);
        assert(k0@[0] == f);
        assert(!pt0.owns(f)) by {
            assert(k0.is_free(f));
        }
        lemma_page_change(&m0, &m1, f);
        lemma_page_change(&m1, &m2, f);
        lemma_changes_compose(&m0, &m1, &m2, seq![f], seq![f]);
        assert(changed_within(&m0, &m2, seq![f])) by {
            assert forall|q: int| m2.contains(q, 1) && outside_pages(seq![f], q) implies #[trigger] m2.byte(q)
                == m0.byte(q) by {
                assert(outside_pages(seq![f] + seq![f], q));
            }
        }
        assert forall|m: int| 0 <= m < seq![f].len() implies #[trigger] seq![f][m] % 4096 == 0 && !pt0.owns(
            seq![f][m],
        ) by {}
        lemma_pt_frame(&pt0, &m0, &m2, seq![f]);
        assert(!k1.is_free(f)) by {
            if k1@.contains(f) {
                let i = k1@.index_of(f);
                assert(k0@[i + 1] == f);
            }
        }
        assert forall|m: int| 0 <= m < seq![f].len() implies #[trigger] seq![f][m] % 4096 == 0 && !k1.is_free(
            seq![f][m],
        ) by {}
        lemma_kmem_frame(&k1, &m1, &m2, seq![f]);
        assert forall|t: u64| #[trigger] pgtbl.owns(t) implies !kmem.is_free(t) by {
            if kmem@.contains(t) {
                let i = kmem@.index_of(t);
                assert(k0@[i + 1] == t);
                assert(k0.is_free(t));
            }
        }
        assert(pg_round_down_spec(a + PGSIZE - 1) == a);
        assert(pg_round_down_spec(a as int) == a);
        assert forall|v: int| a <= v <= a implies #[trigger] pgtbl.translate(mem, v) is None by {}
    }
    kvmmap(pgtbl, mem, kmem, a, f, PGSIZE, KSTACK_PERM);
    proof {
        let used2 = k1@.len() - kmem@.len();
        lemma_took_facts(&pt0, pgtbl, &k1, kmem, used2);
        reveal(map_outcome);
        reveal(changed_in_tables);
        let used = k0@.len() - kmem@.len();
        assert(kmem@ =~= k0@.skip(used));
        assert forall|t: u64| #[trigger] pgtbl.owns(t) implies pt0.owns(t) || k0@.take(used).contains(t) by {
            if !pt0.owns(t) {
                let i = k1@.take(used2).index_of(t);
                assert(k0@.take(used)[i + 1] == t);
            }
        }
        assert(!pgtbl.owns(f)) by {
            if pgtbl.owns(f) && !pt0.owns(f) {
                let i = k1@.take(used2).index_of(f);
                assert(k0@[i + 1] == f);
            }
        }
        assert forall|q: int| f <= q < f + PGSIZE implies #[trigger] mem.byte(q) == 0 by {
            assert(m2.byte(q) == 0);
            assert forall|t: u64| #[trigger] pgtbl.owns(t) implies !(t <= q < t + 4096) by {
                reveal(PageTable::wf);
                reveal(PageTable::wf_tables);
                assert(t != f);
                assert(t % 4096 == 0);
            }
        }
        assert(changed_outside_tables(&pt0, k0@.take(used), &m0, mem)) by {
            assert forall|q: int|
                mem.contains(q, 1) && outside_pages(k0@.take(used), q) && (forall|t: u64| #[trigger] pt0.owns(t)
                    ==> !(t <= q < t + 4096)) implies #[trigger] mem.byte(q) == m0.byte(q) by {
                assert(k0@.take(used)[0] == f);
                assert(outside_pages(seq![f], q));
                assert forall|t: u64| #[trigger] pgtbl.owns(t) implies !(t <= q < t + 4096) by {
                    if !pt0.owns(t) {
                        let i = k1@.take(used2).index_of(t);
                        assert(k0@.take(used)[i + 1] == t);
                    }
                }
            }
        }
        assert forall|v: int| 0 <= v < va_span() implies #[trigger] pgtbl.translate(mem, v) == if pg_round_down_spec(v) == a {
            Some(leaf_pte(f, KSTACK_PERM))
        } else {
            pt0.translate(&m0, v)
        } by {
            if pg_round_down_spec(v) == a {
                assert(map_result(a as int, a as int, f as int, KSTACK_PERM, v) == Some(leaf_pte(f, KSTACK_PERM)));
            } else {
                assert(map_result(a as int, a as int, f as int, KSTACK_PERM, v) is None);
            }
        }
    }
    f
}


/// The slot whose kernel stack page holds `v`, if any.
pub open spec fn stack_slot(v: int) -> Option<int> {
    let pg = pg_round_down_spec(v);
    let p = (TRAMPOLINE - pg) / 8192 - 1;
    if 0 <= pg < TRAMPOLINE && (TRAMPOLINE - pg) % 8192 == 0 && p % 184 == 0 {
        Some(p / 184)
    } else {
        None
    }
}

/// The kernel stack of slot `j` is the page of the addresses whose slot is
/// `j`.
pub proof fn lemma_stack_slot(j: int, v: int)
    requires
        0 <= j <= NPROC,
        0 <= v,
    ensures
        slot_kstack(j) % 4096 == 0,
        PHYSTOP < slot_kstack(j) < TRAMPOLINE,
        (pg_round_down_spec(v) == slot_kstack(j)) == (stack_slot(v) == Some(j)),
{
    let pg = pg_round_down_spec(v);
    let s = slot_kstack(j);
    assert(s == TRAMPOLINE - (j * 184 + 1) * 8192);
    assert(s % 4096 == 0) by (nonlinear_arith)
        requires s == 0x3F_FFFF_F000 - (j * 184 + 1) * 8192;
    assert(PHYSTOP < s) by (nonlinear_arith)
        requires s == 0x3F_FFFF_F000 - (j * 184 + 1) * 8192, 0 <= j <= 8;
    if pg == s {
        assert(TRAMPOLINE - pg == (j * 184 + 1) * 8192);
        assert((TRAMPOLINE - pg) % 8192 == 0 && (TRAMPOLINE - pg) / 8192 == j * 184 + 1) by (nonlinear_arith)
            requires TRAMPOLINE - pg == (j * 184 + 1) * 8192, 0 <= j;
        assert((j * 184) % 184 == 0 && (j * 184) / 184 == j) by (nonlinear_arith)
            requires 0 <= j;
    }
    if stack_slot(v) == Some(j) {
        let p = (TRAMPOLINE - pg) / 8192 - 1;
        assert(TRAMPOLINE - pg == ((TRAMPOLINE - pg) / 8192) * 8192) by (nonlinear_arith)
            requires (TRAMPOLINE - pg) % 8192 == 0;
        assert(p == (p / 184) * 184) by (nonlinear_arith)
            requires p % 184 == 0;
        assert(pg == s) by (nonlinear_arith)
            requires
                TRAMPOLINE - pg == (p + 1) * 8192,
                p == j * 184,
                s == TRAMPOLINE - (j * 184 + 1) * 8192;
    }
}

/// Level-0 tables that the kernel stacks of slots 1 to `n - 1` open: one
/// for each stack that lies in another 2 MiB block than the one before it.
pub open spec fn kstack_blocks(n: int) -> int
    decreases n,
{
    if n <= 1 {
        0
    } else {
        kstack_blocks(n - 1) + if slot_kstack(n - 1) / 0x20_0000 == slot_kstack(n - 2) / 0x20_0000 {
            0int
        } else {
            1int
        }
    }
}

/// Pages that the kernel stacks of the first `n` slots take once the first
/// stack's tables exist: a frame for each, and a level-0 table for each
/// stack that opens a 2 MiB block.
pub open spec fn kstack_pages(n: int) -> int {
    if n <= 0 {
        0
    } else {
        n + kstack_blocks(n)
    }
}

/// Pages that mapping the kernel stacks of slots `i` to `n - 1` on `pt`
/// takes at most: a frame for each, the tables that the stack of slot `i`
/// lacks, and a level-0 table for each further stack that opens a 2 MiB
/// block. Where those blocks have no table yet, this is exactly what it
/// takes.
pub open spec fn stacks_rest(pt: &PageTable, mem: &PhysMem, i: int, n: int) -> int {
    if i < n {
        (n - i) + pt.tables_needed(mem, slot_kstack(i)) + (kstack_blocks(n) - kstack_blocks(i + 1))
    } else {
        0
    }
}

/// More stacks open no fewer blocks.
proof fn lemma_kstack_blocks_mono(i: int, n: int)
    requires
        i <= n,
    ensures
        kstack_blocks(i) <= kstack_blocks(n),
    decreases n - i,
{
    if i < n {
        lemma_kstack_blocks_mono(i, n - 1);
    }
}

/// The kernel stacks of neighbouring slots lie in the same 1 GiB region,
/// and in the same 2 MiB block share both upper table indices.
proof fn lemma_kstack_neighbours(j: int)
    requires
        0 <= j < NPROC,
    ensures
        va_indices(slot_kstack(j + 1)).0 == va_indices(slot_kstack(j)).0,
        slot_kstack(j + 1) / 0x20_0000 == slot_kstack(j) / 0x20_0000 ==> va_indices(slot_kstack(j + 1)).1
            == va_indices(slot_kstack(j)).1,
{
    let a = slot_kstack(j);
    let b = slot_kstack(j + 1);
    assert(a == 0x3F_FFFF_F000 - (j * 184 + 1) * 8192);
    assert(b == 0x3F_FFFF_F000 - ((j + 1) * 184 + 1) * 8192);
    assert(a / 0x4000_0000 == 255);
    assert(b / 0x4000_0000 == 255);
}

/// Mapping the kernel stack of slot `i` takes its frame and the tables it
/// lacks, and leaves at least that much less for the slots after it.
proof fn lemma_stacks_rest_step(pt1: &PageTable, m1: &PhysMem, pt: &PageTable, mem: &PhysMem, i: int, n: int)
    requires
        0 <= i < n <= NPROC,
        forall|v: int|
            #[trigger] va_indices(v).0 == va_indices(slot_kstack(i)).0 && va_indices(v).1 == va_indices(
                slot_kstack(i),
            ).1 ==> pt.tables_needed(mem, v) == 0,
    ensures
        stacks_rest(pt, mem, i + 1, n) + 1 + pt1.tables_needed(m1, slot_kstack(i)) <= stacks_rest(pt1, m1, i, n),
        stacks_rest(pt1, m1, i, n) >= 1 + pt1.tables_needed(m1, slot_kstack(i)),
{
    lemma_kstack_blocks_mono(i + 1, n);
    if i + 1 < n {
        let a = slot_kstack(i);
        let b = slot_kstack(i + 1);
        lemma_kstack_neighbours(i);
        assert(pt.tables_needed(mem, a) == 0);
        assert(pt.l1_present(va_indices(a).0));
        assert(kstack_blocks(i + 2) == kstack_blocks(i + 1) + if b / 0x20_0000 == a / 0x20_0000 {
            0int
        } else {
            1int
        });
        lemma_kstack_blocks_mono(i + 2, n);
    }
}

/// What `proc_mapstacks` leaves at `v`: the fresh frame of a kernel stack
/// for the first `n` slots, the old mapping elsewhere.
pub open spec fn stacks_mapped(pt: &PageTable, mem: &PhysMem, k0: &Kmem, kmem: &Kmem, pt0: &PageTable, m0: &PhysMem, n: int, v: int) -> bool {
    if is_stack(v, n) {
        fresh_stack(pt, mem, k0, kmem, v)
    } else {
        pt.translate(mem, v) == pt0.translate(m0, v)
    }
}

/// `v` lies in the kernel stack of one of the first `n` slots.
pub open spec fn is_stack(v: int, n: int) -> bool {
    stack_slot(v) is Some && stack_slot(v)->0 < n
}

/// `v` lies in a kernel stack page that maps, readable and writable, a
/// zeroed frame that was free in `k0`, is free no more and holds no table.
pub open spec fn fresh_stack(pt: &PageTable, mem: &PhysMem, k0: &Kmem, kmem: &Kmem, v: int) -> bool {
    let f = frame_of(pt, mem, v);
    &&& pt.translate(mem, v) == Some(leaf_pte(f, KSTACK_PERM))
    &&& k0.is_free(f)
    &&& !kmem.is_free(f)
    &&& !pt.owns(f)
    &&& forall|q: int| f <= q < f + PGSIZE ==> #[trigger] mem.byte(q) == 0
}

/// State of `proc_mapstacks` once the stacks of slots below `i` are mapped,
/// slot `j` to frame `datas[j]`.
#[verifier::opaque]
pub open spec fn stacks_progress(
    pt: &PageTable,
    mem: &PhysMem,
    kmem: &Kmem,
    pt0: &PageTable,
    m0: &PhysMem,
    k0: &Kmem,
    i: int,
    n: int,
    datas: Seq<u64>,
) -> bool {
    let used = k0@.len() - kmem@.len();
    &&& pt.wf(mem)
    &&& pt.apart_from_free(kmem)
    &&& kmem.wf(mem)
    &&& pt.root == pt0.root
    &&& kmem.end == k0.end
    &&& 0 <= used <= k0@.len()
    &&& used + stacks_rest(pt, mem, i, n) <= stacks_rest(pt0, m0, 0, n)
    &&& kmem@ == k0@.skip(used)
    &&& forall|t: u64| #[trigger] pt0.owns(t) ==> pt.owns(t)
    &&& forall|t: u64| #[trigger] pt.owns(t) ==> pt0.owns(t) || k0@.take(used).contains(t)
    &&& changed_outside_tables(pt0, k0@.take(used), m0, mem)
    &&& datas.len() == i
    &&& forall|j: int| 0 <= j < datas.len() ==> {
        &&& k0.is_free(#[trigger] datas[j])
        &&& !kmem.is_free(datas[j])
        &&& !pt.owns(datas[j])
        &&& datas[j] % PGSIZE == 0
    }
    &&& forall|j: int, q: int|
        #![trigger datas[j], mem.byte(q)]
        0 <= j < datas.len() && datas[j] <= q < datas[j] + PGSIZE ==> mem.byte(q) == 0
    &&& forall|v: int| 0 <= v < va_span() ==> #[trigger] pt.translate(mem, v) == if stack_slot(v) is Some
        && stack_slot(v)->0 < i {
        Some(leaf_pte(datas[stack_slot(v)->0], KSTACK_PERM))
    } else {
        pt0.translate(m0, v)
    }
    &&& kmem@.len() >= stacks_rest(pt, mem, i, n)
}

/// Maps a fresh, zeroed page as the kernel stack of each of the first
/// `num_app` slots of the pool, where `num_app`, the number of
/// applications, is read from the table at `num_app_addr`. The stacks take
/// their frames and the tables they lack (`stacks_rest`), which the
/// allocator must hold (the kernel stops otherwise); the stacks must not
/// be mapped yet.
pub fn proc_mapstacks(kpgtbl: &mut PageTable, mem: &mut PhysMem, kmem: &mut Kmem, num_app_addr: u64)
    requires
        old(kpgtbl).wf(old(mem)),
        old(kpgtbl).apart_from_free(old(kmem)),
        old(kmem).wf(old(mem)),
        old(mem).contains(num_app_addr as int, 8),
        old(mem).word(num_app_addr as int) <= NPROC,
        old(kmem)@.len() >= stacks_rest(old(kpgtbl), old(mem), 0, old(mem).word(num_app_addr as int) as int),
        forall|j: int| 0 <= j < old(mem).word(num_app_addr as int) ==> #[trigger] old(kpgtbl).translate(old(mem), slot_kstack(j)) is None,
    ensures
        final(kpgtbl).wf(final(mem)),
        final(kpgtbl).apart_from_free(final(kmem)),
        final(kmem).wf(final(mem)),
        final(kpgtbl).root == old(kpgtbl).root,
        final(kmem).end == old(kmem).end,
        ({
            let used = old(kmem)@.len() - final(kmem)@.len();
            &&& 0 <= used <= stacks_rest(old(kpgtbl), old(mem), 0, old(mem).word(num_app_addr as int) as int)
            &&& final(kmem)@ == old(kmem)@.skip(used)
            &&& forall|t: u64| #[trigger] old(kpgtbl).owns(t) ==> final(kpgtbl).owns(t)
            &&& forall|t: u64| #[trigger] final(kpgtbl).owns(t) ==> old(kpgtbl).owns(t) || old(kmem)@.take(used).contains(t)
            &&& changed_outside_tables(old(kpgtbl), old(kmem)@.take(used), old(mem), final(mem))
        }),
        forall|v: int| 0 <= v < va_span() ==> #[trigger] stacks_mapped(final(kpgtbl), final(mem), old(kmem), final(kmem),
            old(kpgtbl), old(mem), old(mem).word(num_app_addr as int) as int, v),
{
    let ghost pt0 = *kpgtbl;
    let ghost m0 = *mem;
    let ghost k0 = *kmem;
    let num_app = get_num_app(mem, num_app_addr);
    let mut i: u64 = 0;
    let ghost mut datas: Seq<u64> = Seq::empty();
    proof {
        reveal(stacks_progress);
        assert(k0@.skip(0) =~= k0@);
        assert(k0@.take(0) =~= Seq::<u64>::empty());
    }
    while i < num_app
        invariant
            stacks_progress(kpgtbl, mem, kmem, &pt0, &m0, &k0, i as int, num_app as int, datas),
            num_app == m0.word(num_app_addr as int),
            num_app <= NPROC,
            i <= num_app,
            forall|j: int| 0 <= j < num_app ==> #[trigger] pt0.translate(&m0, slot_kstack(j)) is None,
            k0.wf(&m0),
        decreases num_app - i,
    {
        let ghost pt1 = *kpgtbl;
        let ghost m1 = *mem;
        let ghost k1 = *kmem;
        let va = kstack(i * PROC_SLOT_SIZE);
        proof {
            reveal(stacks_progress);
            lemma_stack_slot(i as int, va as int);
            assert(pg_round_down_spec(va as int) == va);
            assert(stack_slot(va as int) == Some(i as int));
            assert(kpgtbl.translate(mem, va as int) == pt0.translate(&m0, va as int));
            assert(kpgtbl.tables_needed(mem, va as int) <= 2);
            lemma_kstack_blocks_mono(i + 1, num_app as int);
        }
        let f = map_stack_page(kpgtbl, mem, kmem, va);
        proof {
            reveal(stacks_progress);
            lemma_stack_facts(&pt0, &m0, &k0, &pt1, &m1, &k1, kpgtbl, mem, kmem, i as int, num_app as int, datas, va as int, f);
            datas = datas.push(f);
        }
        i = i + 1;
    }
    proof {
        reveal(stacks_progress);
        lemma_kstack_perm();
        assert forall|v: int| 0 <= v < va_span() implies #[trigger] stacks_mapped(kpgtbl, mem, &k0, kmem, &pt0, &m0, num_app as int, v) by {
            if stack_slot(v) is Some && stack_slot(v)->0 < num_app {
                let j = stack_slot(v)->0;
                lemma_leaf_pte(datas[j], KSTACK_PERM);
                assert(k0.is_free(datas[j]));
                assert forall|q: int| datas[j] <= q < datas[j] + PGSIZE implies #[trigger] mem.byte(q) == 0 by {
                    assert(datas[j] <= q < datas[j] + PGSIZE);
                }
            }
        }
    }
}

/// One more kernel stack mapped.
#[verifier::rlimit(60)]
proof fn lemma_stack_facts(
    pt0: &PageTable,
    m0: &PhysMem,
    k0: &Kmem,
    pt1: &PageTable,
    m1: &PhysMem,
    k1: &Kmem,
    pt: &PageTable,
    mem: &PhysMem,
    kmem: &Kmem,
    i: int,
    n: int,
    datas: Seq<u64>,
    va: int,
    f: u64,
)
    requires
        stacks_progress(pt1, m1, k1, pt0, m0, k0, i, n, datas),
        k0.wf(m0),
        0 <= i < n <= NPROC,
        va == slot_kstack(i),
        pt.wf(mem),
        pt.apart_from_free(kmem),
        kmem.wf(mem),
        pt.root == pt1.root,
        kmem.end == k1.end,
        f == k1@[0],
        ({
            let used = k1@.len() - kmem@.len();
            &&& 1 <= used <= 1 + pt1.tables_needed(m1, va)
            &&& kmem@ == k1@.skip(used)
            &&& forall|t: u64| #[trigger] pt1.owns(t) ==> pt.owns(t)
            &&& forall|t: u64| #[trigger] pt.owns(t) ==> pt1.owns(t) || k1@.take(used).contains(t)
            &&& changed_outside_tables(pt1, k1@.take(used), m1, mem)
        }),
        !pt.owns(f),
        forall|q: int| f <= q < f + PGSIZE ==> #[trigger] mem.byte(q) == 0,
        forall|v: int|
            #[trigger] va_indices(v).0 == va_indices(va).0 && va_indices(v).1 == va_indices(va).1
                ==> pt.tables_needed(mem, v) == 0,
        forall|v: int| 0 <= v < va_span() ==> #[trigger] pt.translate(mem, v) == if pg_round_down_spec(v) == va {
            Some(leaf_pte(f, KSTACK_PERM))
        } else {
            pt1.translate(m1, v)
        },
    ensures
        stacks_progress(pt, mem, kmem, pt0, m0, k0, i + 1, n, datas.push(f)),
{
    reveal(stacks_progress);
    reveal(PageTable::wf);
    reveal(PageTable::wf_tables);
    assert(pt1.tables_needed(m1, va) <= 2);
    lemma_stacks_rest_step(pt1, m1, pt, mem, i, n);
    let used1 = k0@.len() - k1@.len();
    let u = k1@.len() - kmem@.len();
    let used = k0@.len() - kmem@.len();
    lemma_free_facts(k0, m0);
    lemma_free_facts(k1, m1);
    assert(kmem@ =~= k0@.skip(used));
    assert(k1@[0] == k0@[used1]);
    assert(k0.is_free(f)) by {
        assert(k0@[used1] == f);
    }
    assert(!kmem.is_free(f)) by {
        if kmem@.contains(f) {
            let j = kmem@.index_of(f);
            assert(k1@[j + u] == f);
        }
    }
    assert forall|t: u64| #[trigger] pt.owns(t) implies pt0.owns(t) || k0@.take(used).contains(t) by {
        if !pt1.owns(t) {
            let j = k1@.take(u).index_of(t);
            assert(k0@.take(used)[used1 + j] == t);
        } else if !pt0.owns(t) {
            let j = k0@.take(used1).index_of(t);
            assert(k0@.take(used)[j] == t);
        }
    }
    let nd = datas.push(f);
    assert forall|j: int| 0 <= j < nd.len() implies {
        &&& k0.is_free(#[trigger] nd[j])
        &&& !kmem.is_free(nd[j])
        &&& !pt.owns(nd[j])
        &&& nd[j] % PGSIZE == 0
    } by {
        if j < datas.len() {
            let d = datas[j];
            assert(nd[j] == d);
            assert(k0.is_free(d));
            assert(!k1.is_free(d));
            assert(!kmem.is_free(d)) by {
                if kmem@.contains(d) {
                    let x = kmem@.index_of(d);
                    assert(k1@[x + u] == d);
                }
            }
            assert(!pt.owns(d)) by {
                if pt.owns(d) && !pt1.owns(d) {
                    let x = k1@.take(u).index_of(d);
                    assert(k1@[x] == d);
                }
            }
        } else {
            assert(nd[j] == f);
        }
    }
    assert forall|j: int, q: int|
        #![trigger nd[j], mem.byte(q)]
        0 <= j < nd.len() && nd[j] <= q < nd[j] + PGSIZE implies mem.byte(q) == 0 by {
        if j < datas.len() {
            let d = datas[j];
            assert(nd[j] == d);
            assert(m1.byte(q) == 0);
            assert(m0.contains(d as int, 4096)) by {
                let x = k0@.index_of(d);
            }
            assert(mem.contains(q, 1));
            assert(outside_pages(k1@.take(u), q)) by {
                assert forall|m: int| 0 <= m < k1@.take(u).len() implies !(#[trigger] k1@.take(u)[m] <= q
                    < k1@.take(u)[m] + 4096) by {
                    let t = k1@.take(u)[m];
                    assert(t == k1@[m]);
                    assert(t % 4096 == 0);
                    assert(t != d);
                }
            }
            assert forall|t: u64| #[trigger] pt1.owns(t) implies !(t <= q < t + 4096) by {
                crate::uvm::lemma_tables_facts(pt1, m1, t);
                assert(t != d);
            }
        } else {
            assert(nd[j] == f);
        }
    }
    assert(changed_outside_tables(pt0, k0@.take(used), m0, mem)) by {
        assert forall|q: int|
            mem.contains(q, 1) && outside_pages(k0@.take(used), q) && (forall|t: u64| #[trigger] pt0.owns(t)
                ==> !(t <= q < t + 4096)) implies #[trigger] mem.byte(q) == m0.byte(q) by {
            assert forall|m: int| 0 <= m < k1@.take(u).len() implies !(#[trigger] k1@.take(u)[m] <= q
                < k1@.take(u)[m] + 4096) by {
                assert(k0@.take(used)[used1 + m] == k1@.take(u)[m]);
            }
            assert forall|m: int| 0 <= m < k0@.take(used1).len() implies !(#[trigger] k0@.take(used1)[m] <= q
                < k0@.take(used1)[m] + 4096) by {
                assert(k0@.take(used)[m] == k0@.take(used1)[m]);
            }
            assert forall|t: u64| #[trigger] pt1.owns(t) implies !(t <= q < t + 4096) by {
                if !pt0.owns(t) {
                    let j = k0@.take(used1).index_of(t);
                    assert(k0@.take(used1)[j] == t);
                }
            }
            assert(m1.byte(q) == m0.byte(q));
        }
    }
    assert forall|v: int| 0 <= v < va_span() implies #[trigger] pt.translate(mem, v) == if stack_slot(v) is Some
        && stack_slot(v)->0 < i + 1 {
        Some(leaf_pte(nd[stack_slot(v)->0], KSTACK_PERM))
    } else {
        pt0.translate(m0, v)
    } by {
        lemma_stack_slot(i, v);
    }
}

/// Range `k` of the kernel's direct mappings, as `(first page, last page,
/// physical address, permissions)`: the UART, the virtio disk, the PLIC,
/// the kernel text (executable, up to `etext`), the kernel data and the
/// rest of RAM, and the trampoline page.
pub open spec fn kvm_range(k: int, etext: int, trampoline: int) -> (int, int, int, u64) {
    if k == 0 {
        (UART0 as int, UART0 as int, UART0 as int, PTE_R | PTE_W)
    } else if k == 1 {
        (VIRTIO0 as int, VIRTIO0 as int, VIRTIO0 as int, PTE_R | PTE_W)
    } else if k == 2 {
        (PLIC as int, PLIC + 0x40_0000 - PGSIZE, PLIC as int, PTE_R | PTE_W)
    } else if k == 3 {
        (KERNBASE as int, etext - PGSIZE, KERNBASE as int, PTE_R | PTE_X)
    } else if k == 4 {
        (etext, PHYSTOP - PGSIZE, etext, PTE_R | PTE_W)
    } else {
        (TRAMPOLINE as int, TRAMPOLINE as int, trampoline, PTE_R | PTE_X)
    }
}

/// What the first `n` ranges map `v` to.
pub open spec fn kvm_map(n: int, etext: int, trampoline: int, v: int) -> Option<u64>
    decreases n,
{
    if n <= 0 {
        None
    } else {
        let (first, last, pa, perm) = kvm_range(n - 1, etext, trampoline);
        let r = map_result(first, last, pa, perm, v);
        if r is Some {
            r
        } else {
            kvm_map(n - 1, etext, trampoline, v)
        }
    }
}

/// What the kernel page table maps `v` to, kernel stacks aside.
pub open spec fn kernel_map(etext: int, trampoline: int, v: int) -> Option<u64> {
    kvm_map(6, etext, trampoline, v)
}

/// Table pages that mapping range `k` takes once the ranges before it are
/// mapped: a level-1 and a level-0 table for the UART; none for the virtio
/// disk, in the UART's 2 MiB block; a level-0 table for each of the PLIC's
/// two blocks; the tables of the kernel text's first page and one for each
/// further block; one for each block of the rest of RAM that the text does
/// not reach; and two for the trampoline.
pub open spec fn kvm_range_need(k: int, etext: int) -> int {
    if k == 0 {
        2
    } else if k == 1 {
        0
    } else if k == 2 {
        2
    } else if k == 3 {
        2 + ((etext - PGSIZE) / 0x20_0000 - KERNBASE / 0x20_0000)
    } else if k == 4 {
        (if etext % 0x20_0000 == 0 { 1int } else { 0int }) + ((PHYSTOP - PGSIZE) / 0x20_0000 - etext / 0x20_0000)
    } else {
        2
    }
}

/// Table pages that the first `n` ranges of `kvmmake` take.
pub open spec fn kvm_spent(n: int, etext: int) -> int
    decreases n,
{
    if n <= 0 {
        0
    } else {
        kvm_range_need(n - 1, etext) + kvm_spent(n - 1, etext)
    }
}

/// The direct mappings of the kernel take 71 table pages, wherever the
/// kernel text ends: three level-1 tables (devices, RAM, trampoline) and
/// 68 level-0 tables (one for the UART and the virtio disk, two for the
/// PLIC, 64 for RAM, one for the trampoline).
pub proof fn lemma_kvm_tables(etext: int)
    requires
        etext % 4096 == 0,
        KERNBASE < etext < PHYSTOP,
    ensures
        kvm_spent(6, etext) == 71,
{
    reveal_with_fuel(kvm_spent, 7);
    if etext % 0x20_0000 == 0 {
        assert((etext - 4096) / 0x20_0000 == etext / 0x20_0000 - 1);
    } else {
        assert((etext - 4096) / 0x20_0000 == etext / 0x20_0000);
    }
}

/// State of `kvmmake` after the first `n` ranges.
#[verifier::opaque]
pub open spec fn kvm_progress(
    pt: &PageTable,
    mem: &PhysMem,
    kmem: &Kmem,
    pt0: &PageTable,
    m0: &PhysMem,
    k0: &Kmem,
    n: int,
    etext: int,
    trampoline: int,
) -> bool {
    let used = k0@.len() - kmem@.len();
    &&& pt.wf(mem)
    &&& pt.apart_from_free(kmem)
    &&& kmem.wf(mem)
    &&& pt.root == pt0.root
    &&& kmem.end == k0.end
    &&& 0 <= used <= kvm_spent(n, etext)
    &&& kmem@ == k0@.skip(used)
    &&& forall|t: u64| #[trigger] pt0.owns(t) ==> pt.owns(t)
    &&& forall|t: u64| #[trigger] pt.owns(t) ==> pt0.owns(t) || k0@.take(used).contains(t)
    &&& changed_outside_tables(pt0, k0@.take(used), m0, mem)
    &&& forall|v: int| 0 <= v < va_span() ==> #[trigger] pt.translate(mem, v) == kvm_map(n, etext, trampoline, v)
    &&& n > 0 ==> forall|v: int|
        #[trigger] va_indices(v).0 == va_indices(kvm_range(n - 1, etext, trampoline).1).0 ==> pt.tables_needed(mem, v)
            <= if va_indices(v).1 == va_indices(kvm_range(n - 1, etext, trampoline).1).1 { 0int } else { 1int }
}

/// What mapping range `n` needs, given the ranges before it.
proof fn lemma_kvm_pre(
    pt: &PageTable,
    mem: &PhysMem,
    kmem: &Kmem,
    pt0: &PageTable,
    m0: &PhysMem,
    k0: &Kmem,
    n: int,
    etext: int,
    trampoline: u64,
)
    requires
        kvm_progress(pt, mem, kmem, pt0, m0, k0, n, etext, trampoline as int),
        0 <= n < 6,
        etext % 4096 == 0,
        KERNBASE < etext < PHYSTOP,
        k0@.len() >= kvm_spent(6, etext),
    ensures
        ({
            let (first, last, pa, perm) = kvm_range(n, etext, trampoline as int);
            &&& pt.wf(mem)
            &&& pt.apart_from_free(kmem)
            &&& kmem.wf(mem)
            &&& map_args_ok(pt, mem, first, pa, last + PGSIZE - first)
            &&& map_budget(pt, mem, kmem, first, last + PGSIZE - first)
            &&& map_rest(pt, mem, first, last) <= kvm_range_need(n, etext)
        }),
{
    reveal(kvm_progress);
    reveal_with_fuel(kvm_spent, 7);
    reveal_with_fuel(kvm_map, 7);
    let (first, last, pa, perm) = kvm_range(n, etext, trampoline as int);
    assert(pg_round_down_spec(first) == first);
    assert(pg_round_down_spec(last + PGSIZE - first + first - 1) == last);
    assert forall|v: int| pg_round_down_spec(first) <= v <= pg_round_down_spec(first + (last + PGSIZE - first) - 1)
        implies #[trigger] pt.translate(mem, v) is None by {
        assert(v < va_span());
    }
    assert(pt.tables_needed(mem, first) <= 2);
    if n == 1 {
        assert(VIRTIO0 as int / 0x4000_0000 == 0 && UART0 as int / 0x4000_0000 == 0);
        assert(VIRTIO0 as int / 0x20_0000 == 128 && UART0 as int / 0x20_0000 == 128);
        assert(va_indices(VIRTIO0 as int).0 == va_indices(UART0 as int).0);
        assert(va_indices(VIRTIO0 as int).1 == va_indices(UART0 as int).1);
    } else if n == 2 {
        assert(VIRTIO0 as int / 0x4000_0000 == 0 && PLIC as int / 0x4000_0000 == 0);
        assert(va_indices(PLIC as int).0 == va_indices(VIRTIO0 as int).0);
    } else if n == 3 {
        assert(last / 0x4000_0000 == first / 0x4000_0000);
    } else if n == 4 {
        let prev = etext - PGSIZE;
        assert(last / 0x4000_0000 == first / 0x4000_0000);
        assert(first / 0x4000_0000 == 2 && prev / 0x4000_0000 == 2) by (nonlinear_arith)
            requires
                first == etext,
                prev == etext - 4096,
                0x8000_0000 < etext < 0x8800_0000,
                etext % 4096 == 0,
        ;
        assert(va_indices(first).0 == va_indices(prev).0);
        if etext % 0x20_0000 != 0 {
            assert(first / 0x20_0000 == prev / 0x20_0000);
            assert(va_indices(first).1 == va_indices(prev).1);
        }
    }
    assert(map_rest(pt, mem, first, last) <= kvm_range_need(n, etext));
}

/// Mapping range `n` carries `kvmmake` on.
#[verifier::rlimit(40)]
proof fn lemma_kvm_step(
    pt1: &PageTable,
    m1: &PhysMem,
    k1: &Kmem,
    pt: &PageTable,
    mem: &PhysMem,
    kmem: &Kmem,
    pt0: &PageTable,
    m0: &PhysMem,
    k0: &Kmem,
    n: int,
    etext: int,
    trampoline: u64,
)
    requires
        kvm_progress(pt1, m1, k1, pt0, m0, k0, n, etext, trampoline as int),
        0 <= n < 6,
        etext % 4096 == 0,
        KERNBASE < etext < PHYSTOP,
        ({
            let (first, last, pa, perm) = kvm_range(n, etext, trampoline as int);
            &&& pt.wf(mem)
            &&& pt.apart_from_free(kmem)
            &&& kmem.wf(mem)
            &&& pt.root == pt1.root
            &&& took_tables(pt1, pt, k1, kmem, k1@.len() - kmem@.len())
            &&& changed_in_tables(pt, m1, mem)
            &&& map_outcome(pt, mem, pt1, m1, first, last, pa, perm, false)
            &&& kmem@.len() + kvm_range_need(n, etext) >= k1@.len()
            &&& forall|v: int|
                #[trigger] va_indices(v).0 == va_indices(last).0 && va_indices(v).1 == va_indices(last).1
                    ==> pt.tables_needed(mem, v) == 0
            &&& forall|v: int| #[trigger] va_indices(v).0 == va_indices(last).0 ==> pt.tables_needed(mem, v) <= 1
        }),
    ensures
        kvm_progress(pt, mem, kmem, pt0, m0, k0, n + 1, etext, trampoline as int),
{
    reveal(kvm_progress);
    reveal(map_outcome);
    reveal(changed_in_tables);
    reveal_with_fuel(kvm_spent, 2);
    let used1 = k0@.len() - k1@.len();
    let u = k1@.len() - kmem@.len();
    let used = k0@.len() - kmem@.len();
    lemma_took_facts(pt1, pt, k1, kmem, u);
    assert(kmem@ =~= k0@.skip(used));
    assert forall|t: u64| #[trigger] pt.owns(t) implies pt0.owns(t) || k0@.take(used).contains(t) by {
        if !pt1.owns(t) {
            let j = k1@.take(u).index_of(t);
            assert(k0@.take(used)[used1 + j] == t);
        } else if !pt0.owns(t) {
            let j = k0@.take(used1).index_of(t);
            assert(k0@.take(used)[j] == t);
        }
    }
    assert(changed_outside_tables(pt0, k0@.take(used), m0, mem)) by {
        assert forall|q: int|
            mem.contains(q, 1) && outside_pages(k0@.take(used), q) && (forall|t: u64| #[trigger] pt0.owns(t)
                ==> !(t <= q < t + 4096)) implies #[trigger] mem.byte(q) == m0.byte(q) by {
            assert forall|t: u64| #[trigger] pt.owns(t) implies !(t <= q < t + 4096) by {
                if !pt0.owns(t) {
                    let j = k0@.take(used).index_of(t);
                    assert(k0@.take(used)[j] == t);
                }
            }
            assert forall|t: u64| #[trigger] pt1.owns(t) implies !(t <= q < t + 4096) by {
                assert(pt.owns(t));
            }
            assert forall|m: int| 0 <= m < k0@.take(used1).len() implies !(#[trigger] k0@.take(used1)[m] <= q
                < k0@.take(used1)[m] + 4096) by {
                assert(k0@.take(used)[m] == k0@.take(used1)[m]);
            }
            assert(m1.byte(q) == m0.byte(q));
        }
    }
}

impl PageTable {
    /// Fills the (empty) kernel page table: the UART, the virtio disk and
    /// the PLIC, the kernel text executable and read-only (up to `etext`),
    /// the kernel data and the rest of RAM read-write, all at their
    /// physical addresses; the trampoline code (at `trampoline`) at
    /// TRAMPOLINE; and a kernel stack for each application, whose number
    /// the table at `num_app_addr` holds. A mapping that fails stops the
    /// kernel, so the allocator must hold what the mappings take: the 71
    /// tables of the direct mappings (`kvm_spent`, see `lemma_kvm_tables`)
    /// and the frames and tables of the stacks (`kstack_pages`); the
    /// kernel image must end on a page boundary inside RAM, and the table
    /// must lie off the free pages.
    #[verifier::spinoff_prover]
    #[verifier::rlimit(80)]
    pub fn kvmmake(&mut self, mem: &mut PhysMem, kmem: &mut Kmem, etext: u64, trampoline: u64, num_app_addr: u64)
        requires
            old(self).wf(old(mem)),
            old(self).apart_from_free(old(kmem)),
            old(kmem).wf(old(mem)),
            forall|v: int| #[trigger] old(self).translate(old(mem), v) is None,
            forall|t: u64| #[trigger] old(self).owns(t) ==> t == old(self).root,
            num_app_addr + 8 <= old(self).root || old(self).root + 4096 <= num_app_addr,
            etext % PGSIZE == 0,
            KERNBASE < etext < PHYSTOP,
            old(mem).contains(num_app_addr as int, 8),
            forall|q: int| num_app_addr <= q < num_app_addr + 8 ==> #[trigger] outside_pages(old(kmem)@, q),
            old(mem).word(num_app_addr as int) <= NPROC,
            old(kmem)@.len() >= kvm_spent(6, etext as int) + kstack_pages(old(mem).word(num_app_addr as int) as int),
        ensures
            final(self).wf(final(mem)),
            final(self).apart_from_free(final(kmem)),
            final(kmem).wf(final(mem)),
            final(self).root == old(self).root,
            final(kmem).end == old(kmem).end,
            ({
                let used = old(kmem)@.len() - final(kmem)@.len();
                &&& 0 <= used <= kvm_spent(6, etext as int) + kstack_pages(old(mem).word(num_app_addr as int) as int)
                &&& final(kmem)@ == old(kmem)@.skip(used)
                &&& forall|t: u64| #[trigger] final(self).owns(t) ==> old(kmem)@.take(used).contains(t)
                    || t == old(self).root
                &&& changed_within(old(mem), final(mem), old(kmem)@.take(used).push(old(self).root))
            }),
            forall|v: int| 0 <= v < va_span() ==> if is_stack(v, old(mem).word(num_app_addr as int) as int) {
                fresh_stack(final(self), final(mem), old(kmem), final(kmem), v)
            } else {
                #[trigger] final(self).translate(final(mem), v) == kernel_map(etext as int, trampoline as int, v)
            },
    {
        let ghost pt0 = *self;
        let ghost m0 = *mem;
        let ghost k0 = *kmem;
        proof {
            reveal(kvm_progress);
            reveal_with_fuel(kvm_spent, 7);
            lemma_kstack_blocks_mono(0, m0.word(num_app_addr as int) as int);
            assert(k0@.skip(0) =~= k0@);
            assert(k0@.take(0) =~= Seq::<u64>::empty());
            assert(kvm_progress(self, mem, kmem, &pt0, &m0, &k0, 0, etext as int, trampoline as int));
            lemma_kvm_pre(self, mem, kmem, &pt0, &m0, &k0, 0, etext as int, trampoline);
        }
        let ghost pt1 = *self;
        let ghost m1 = *mem;
        let ghost k1 = *kmem;
        kvmmap(self, mem, kmem, UART0, UART0, PGSIZE, PTE_R | PTE_W);
        proof {
            lemma_kvm_step(&pt1, &m1, &k1, self, mem, kmem, &pt0, &m0, &k0, 0, etext as int, trampoline);
            lemma_kvm_pre(self, mem, kmem, &pt0, &m0, &k0, 1, etext as int, trampoline);
        }
        let ghost pt1 = *self;
        let ghost m1 = *mem;
        let ghost k1 = *kmem;
        kvmmap(self, mem, kmem, VIRTIO0, VIRTIO0, PGSIZE, PTE_R | PTE_W);
        proof {
            lemma_kvm_step(&pt1, &m1, &k1, self, mem, kmem, &pt0, &m0, &k0, 1, etext as int, trampoline);
            lemma_kvm_pre(self, mem, kmem, &pt0, &m0, &k0, 2, etext as int, trampoline);
        }
        let ghost pt1 = *self;
        let ghost m1 = *mem;
        let ghost k1 = *kmem;
        kvmmap(self, mem, kmem, PLIC, PLIC, 0x400000, PTE_R | PTE_W);
        proof {
            lemma_kvm_step(&pt1, &m1, &k1, self, mem, kmem, &pt0, &m0, &k0, 2, etext as int, trampoline);
            lemma_kvm_pre(self, mem, kmem, &pt0, &m0, &k0, 3, etext as int, trampoline);
        }
        let ghost pt1 = *self;
        let ghost m1 = *mem;
        let ghost k1 = *kmem;
        kvmmap(self, mem, kmem, KERNBASE, KERNBASE, etext - KERNBASE, PTE_R | PTE_X);
        proof {
            lemma_kvm_step(&pt1, &m1, &k1, self, mem, kmem, &pt0, &m0, &k0, 3, etext as int, trampoline);
            lemma_kvm_pre(self, mem, kmem, &pt0, &m0, &k0, 4, etext as int, trampoline);
        }
        let ghost pt1 = *self;
        let ghost m1 = *mem;
        let ghost k1 = *kmem;
        kvmmap(self, mem, kmem, etext, etext, PHYSTOP - etext, PTE_R | PTE_W);
        proof {
            lemma_kvm_step(&pt1, &m1, &k1, self, mem, kmem, &pt0, &m0, &k0, 4, etext as int, trampoline);
            lemma_kvm_pre(self, mem, kmem, &pt0, &m0, &k0, 5, etext as int, trampoline);
        }
        let ghost pt1 = *self;
        let ghost m1 = *mem;
        let ghost k1 = *kmem;
        kvmmap(self, mem, kmem, TRAMPOLINE, trampoline, PGSIZE, PTE_R | PTE_X);
        proof {
            lemma_kvm_step(&pt1, &m1, &k1, self, mem, kmem, &pt0, &m0, &k0, 5, etext as int, trampoline);
        }
        let ghost pt2 = *self;
        let ghost m2 = *mem;
        let ghost k2 = *kmem;
        proof {
            lemma_kvm_before_stacks(self, mem, kmem, &pt0, &m0, &k0, etext as int, trampoline as int, num_app_addr);
        }
        proc_mapstacks(self, mem, kmem, num_app_addr);
        proof {
            lemma_kvm_done(&pt2, &m2, &k2, self, mem, kmem, &pt0, &m0, &k0, etext as int, trampoline as int,
                m0.word(num_app_addr as int) as int);
        }
    }
}

/// After the direct mappings: the application table is as it was, and no
/// kernel stack is mapped yet.
proof fn lemma_kvm_before_stacks(
    pt2: &PageTable,
    m2: &PhysMem,
    k2: &Kmem,
    pt0: &PageTable,
    m0: &PhysMem,
    k0: &Kmem,
    etext: int,
    trampoline: int,
    num_app_addr: u64,
)
    requires
        kvm_progress(pt2, m2, k2, pt0, m0, k0, 6, etext, trampoline),
        k0.wf(m0),
        forall|t: u64| #[trigger] pt0.owns(t) ==> t == pt0.root,
        num_app_addr + 8 <= pt0.root || pt0.root + 4096 <= num_app_addr,
        etext % 4096 == 0,
        KERNBASE < etext < PHYSTOP,
        m0.contains(num_app_addr as int, 8),
        forall|q: int| num_app_addr <= q < num_app_addr + 8 ==> #[trigger] outside_pages(k0@, q),
        m0.word(num_app_addr as int) <= NPROC,
        k0@.len() >= kvm_spent(6, etext) + kstack_pages(m0.word(num_app_addr as int) as int),
    ensures
        pt2.wf(m2),
        pt2.apart_from_free(k2),
        k2.wf(m2),
        m2.contains(num_app_addr as int, 8),
        m2.word(num_app_addr as int) == m0.word(num_app_addr as int),
        k2@.len() >= stacks_rest(pt2, m2, 0, m0.word(num_app_addr as int) as int),
        stacks_rest(pt2, m2, 0, m0.word(num_app_addr as int) as int) == kstack_pages(m0.word(num_app_addr as int) as int),
        forall|j: int| 0 <= j < m0.word(num_app_addr as int) ==> #[trigger] pt2.translate(m2, slot_kstack(j)) is None,
{
    reveal(kvm_progress);
    let u2 = k0@.len() - k2@.len();
    lemma_free_facts(k0, m0);
    assert forall|q: int| num_app_addr <= q < num_app_addr + 8 implies #[trigger] m2.byte(q) == m0.byte(q) by {
        assert(outside_pages(k0@, q));
        assert forall|t: u64| #[trigger] pt0.owns(t) implies !(t <= q < t + 4096) by {}
        assert forall|m: int| 0 <= m < k0@.take(u2).len() implies !(#[trigger] k0@.take(u2)[m] <= q
            < k0@.take(u2)[m] + 4096) by {
            assert(k0@.take(u2)[m] == k0@[m]);
        }
    }
    lemma_word_same(m2, m0, num_app_addr as int);
    let n = m0.word(num_app_addr as int) as int;
    if n > 0 {
        let s0 = slot_kstack(0);
        assert(s0 == TRAMPOLINE - 8192);
        assert(va_indices(s0).0 == va_indices(TRAMPOLINE as int).0);
        assert(va_indices(s0).1 == va_indices(TRAMPOLINE as int).1);
        assert(pt2.tables_needed(m2, s0) == 0);
    }
    assert forall|j: int| 0 <= j < m0.word(num_app_addr as int) implies #[trigger] pt2.translate(m2, slot_kstack(j))
        is None by {
        lemma_stack_slot(j, slot_kstack(j));
        assert(slot_kstack(j) < va_span());
        reveal_with_fuel(kvm_map, 7);
    }
}

/// After the stacks: what `kvmmake` promises.
#[verifier::rlimit(40)]
proof fn lemma_kvm_done(
    pt2: &PageTable,
    m2: &PhysMem,
    k2: &Kmem,
    pt: &PageTable,
    mem: &PhysMem,
    kmem: &Kmem,
    pt0: &PageTable,
    m0: &PhysMem,
    k0: &Kmem,
    etext: int,
    trampoline: int,
    n: int,
)
    requires
        kvm_progress(pt2, m2, k2, pt0, m0, k0, 6, etext, trampoline),
        forall|t: u64| #[trigger] pt0.owns(t) ==> t == pt0.root,
        ({
            let used = k2@.len() - kmem@.len();
            &&& pt.wf(mem)
            &&& pt.apart_from_free(kmem)
            &&& kmem.wf(mem)
            &&& pt.root == pt2.root
            &&& kmem.end == k2.end
            &&& 0 <= used <= kstack_pages(n)
            &&& kmem@ == k2@.skip(used)
            &&& forall|t: u64| #[trigger] pt2.owns(t) ==> pt.owns(t)
            &&& forall|t: u64| #[trigger] pt.owns(t) ==> pt2.owns(t) || k2@.take(used).contains(t)
            &&& changed_outside_tables(pt2, k2@.take(used), m2, mem)
        }),
        forall|v: int| 0 <= v < va_span() ==> #[trigger] stacks_mapped(pt, mem, k2, kmem, pt2, m2, n, v),
    ensures
        pt.wf(mem),
        pt.apart_from_free(kmem),
        kmem.wf(mem),
        pt.root == pt0.root,
        kmem.end == k0.end,
        ({
            let used = k0@.len() - kmem@.len();
            &&& 0 <= used <= kvm_spent(6, etext) + kstack_pages(n)
            &&& kmem@ == k0@.skip(used)
            &&& forall|t: u64| #[trigger] pt.owns(t) ==> k0@.take(used).contains(t) || t == pt0.root
            &&& changed_within(m0, mem, k0@.take(used).push(pt0.root))
        }),
        forall|v: int| 0 <= v < va_span() ==> if is_stack(v, n) {
            fresh_stack(pt, mem, k0, kmem, v)
        } else {
            #[trigger] pt.translate(mem, v) == kernel_map(etext, trampoline, v)
        },
{
    reveal(kvm_progress);
    let u2 = k0@.len() - k2@.len();
    let u3 = k2@.len() - kmem@.len();
    let used = k0@.len() - kmem@.len();
    assert(kmem@ =~= k0@.skip(used));
    assert forall|t: u64| #[trigger] pt.owns(t) implies k0@.take(used).contains(t) || t == pt0.root by {
        if pt2.owns(t) {
            if t != pt0.root {
                let j = k0@.take(u2).index_of(t);
                assert(k0@.take(used)[j] == t);
            }
        } else {
            let j = k2@.take(u3).index_of(t);
            assert(k0@.take(used)[u2 + j] == t);
        }
    }
    let pages = k0@.take(used).push(pt0.root);
    assert(changed_within(m0, mem, pages)) by {
        assert forall|q: int| mem.contains(q, 1) && outside_pages(pages, q) implies #[trigger] mem.byte(q)
            == m0.byte(q) by {
            assert(pages[used] == pt0.root);
            assert(!(pt0.root <= q < pt0.root + 4096));
            assert(outside_pages(k0@.take(used), q)) by {
                assert forall|m: int| 0 <= m < k0@.take(used).len() implies !(#[trigger] k0@.take(used)[m] <= q
                    < k0@.take(used)[m] + 4096) by {
                    assert(pages[m] == k0@.take(used)[m]);
                }
            }
            assert forall|m: int| 0 <= m < k2@.take(u3).len() implies !(#[trigger] k2@.take(u3)[m] <= q
                < k2@.take(u3)[m] + 4096) by {
                assert(k0@.take(used)[u2 + m] == k2@.take(u3)[m]);
            }
            assert forall|t: u64| #[trigger] pt2.owns(t) implies !(t <= q < t + 4096) by {
                if t != pt0.root {
                    let j = k0@.take(u2).index_of(t);
                    assert(k0@.take(used)[j] == t);
                }
            }
            assert forall|t: u64| #[trigger] pt0.owns(t) implies !(t <= q < t + 4096) by {}
            assert forall|m: int| 0 <= m < k0@.take(u2).len() implies !(#[trigger] k0@.take(u2)[m] <= q
                < k0@.take(u2)[m] + 4096) by {
                assert(k0@.take(used)[m] == k0@.take(u2)[m]);
            }
            assert(m2.byte(q) == m0.byte(q));
        }
    }
    assert forall|v: int| 0 <= v < va_span() implies if is_stack(v, n) {
        fresh_stack(pt, mem, k0, kmem, v)
    } else {
        #[trigger] pt.translate(mem, v) == kernel_map(etext, trampoline, v)
    } by {
        assert(stacks_mapped(pt, mem, k2, kmem, pt2, m2, n, v));
        if is_stack(v, n) {
            let f = frame_of(pt, mem, v);
            assert(k0.is_free(f)) by {
                let j = k2@.index_of(f);
                assert(k0@[u2 + j] == f);
            }
        }
    }
}

/// Pages that `kvminit` takes for a kernel with `num_app` applications:
/// the 71 tables of the direct mappings and the frames and tables of the
/// kernel stacks.
pub fn kernel_table_pages(num_app: u64) -> (r: u64)
    requires
        num_app <= NPROC,
    ensures
        r == 71 + kstack_pages(num_app as int),
{
    let mut r: u64 = 71;
    let mut i: u64 = 0;
    while i < num_app
        invariant
            i <= num_app <= NPROC,
            r == 71 + i + kstack_blocks(i as int),
            kstack_blocks(i as int) <= i,
        decreases num_app - i,
    {
        if i > 0 && kstack((i - 1) * PROC_SLOT_SIZE) / 0x20_0000 != kstack(i * PROC_SLOT_SIZE) / 0x20_0000 {
            r = r + 2;
        } else {
            r = r + 1;
        }
        i = i + 1;
    }
    r
}

/// Builds the kernel page table in its static, the zeroed page at
/// `kpgtbl` that the kernel image holds: empty, then filled by `kvmmake`.
/// The static must lie off the free pages and off the application count.
pub fn kvminit(mem: &mut PhysMem, kmem: &mut Kmem, kpgtbl: u64, etext: u64, trampoline: u64, num_app_addr: u64) -> (pt: PageTable)
    requires
        old(kmem).wf(old(mem)),
        kpgtbl != 0,
        kpgtbl % PGSIZE == 0,
        old(mem).contains(kpgtbl as int, PGSIZE as int),
        forall|q: int| kpgtbl <= q < kpgtbl + PGSIZE ==> #[trigger] old(mem).byte(q) == 0 && outside_pages(old(kmem)@, q),
        num_app_addr + 8 <= kpgtbl || kpgtbl + PGSIZE <= num_app_addr,
        etext % PGSIZE == 0,
        KERNBASE < etext < PHYSTOP,
        old(mem).contains(num_app_addr as int, 8),
        forall|q: int| num_app_addr <= q < num_app_addr + 8 ==> #[trigger] outside_pages(old(kmem)@, q),
        old(mem).word(num_app_addr as int) <= NPROC,
        old(kmem)@.len() >= kvm_spent(6, etext as int) + kstack_pages(old(mem).word(num_app_addr as int) as int),
    ensures
        pt.wf(final(mem)),
        pt.apart_from_free(final(kmem)),
        final(kmem).wf(final(mem)),
        pt.root == kpgtbl,
        final(kmem).end == old(kmem).end,
        ({
            let used = old(kmem)@.len() - final(kmem)@.len();
            &&& 0 <= used <= kvm_spent(6, etext as int) + kstack_pages(old(mem).word(num_app_addr as int) as int)
            &&& final(kmem)@ == old(kmem)@.skip(used)
            &&& forall|t: u64| #[trigger] pt.owns(t) ==> old(kmem)@.take(used).contains(t) || t == kpgtbl
            &&& changed_within(old(mem), final(mem), old(kmem)@.take(used).push(kpgtbl))
        }),
        forall|v: int| 0 <= v < va_span() ==> if is_stack(v, old(mem).word(num_app_addr as int) as int) {
            fresh_stack(&pt, final(mem), old(kmem), final(kmem), v)
        } else {
            #[trigger] pt.translate(final(mem), v) == kernel_map(etext as int, trampoline as int, v)
        },
{
    let z = PageTable::zero();
    let ghost ze = z.entries@;
    let ghost zz = z;
    let mut pt = PageTable { entries: z.entries, root: kpgtbl, tables: Ghost(Map::empty().insert(kpgtbl, root_code())) };
    proof {
        assert(pt.entries@ == ze);
        assert forall|i: int| 0 <= i < 512 implies #[trigger] pt.root_pte(i) == 0 by {
            assert(zz.root_pte(i) == 0);
            assert(pt.entries@[i] == ze[i]);
        }
        lemma_free_facts(kmem, mem);
        assert(!kmem.is_free(kpgtbl)) by {
            assert(mem.byte(kpgtbl as int) == 0);
            assert(outside_pages(kmem@, kpgtbl as int));
            if kmem@.contains(kpgtbl) {
                let x = kmem@.index_of(kpgtbl);
                assert(kmem@[x] <= kpgtbl < kmem@[x] + 4096);
            }
        }
        lemma_root_table(&pt, mem, kmem);
    }
    pt.kvmmake(mem, kmem, etext, trampoline, num_app_addr);
    pt
}

/// Switches the hart to the kernel page table, which lies at
/// `kernel_pagetable`, and flushes the TLB.
pub fn kvminithart(hart: &mut Hart, kernel_pagetable: u64)
    requires
        old(hart).tlb_flushes < u64::MAX,
    ensures
        *final(hart) == (Hart {
            satp: make_satp_spec(kernel_pagetable),
            tlb_flushes: (old(hart).tlb_flushes + 1) as u64,
            ..*old(hart)
        }),
        final(hart).satp == 0x8000_0000_0000_0000u64 + kernel_pagetable / 4096,
{
    proof {
        crate::riscv::law_satp_selects_root(kernel_pagetable);
    }
    w_satp(hart, make_satp(kernel_pagetable));
    vma(hart);
}

} // verus!
