//! Making the loaded applications runnable: a user stack for each, their
//! registers set for the first return to user mode, and the first process
//! to switch to.
use vstd::prelude::*;
use crate::memory::{PhysMem, changed_within, changed_only, outside_pages, lemma_word_same};
use crate::kalloc::{Kmem, lemma_free_facts, lemma_kmem_frame};
use crate::riscv::{Hart, PGSIZE, MAXVA, PTE_U, PTE_V, leaf_pte, pte2pa_spec, pte_valid, pte_user, pa2pte_spec,
    pg_round_down_spec, pg_round_up, pg_round_up_spec, lemma_leaf_pte};
use crate::vm::{PageTable, uvmclear, va_span, va_indices, changed_in_tables, lemma_pt_same_tables,
    lemma_va_indices_round};
use crate::uvm::{uvmalloc, grown, grow_cost, grow_need, grow_rest, fresh_user_page, frame_of, changed_outside_tables, USER_PERM,
    lemma_user_perm};
use crate::proc::{Proc, CPU, Context, ProcState, TrapFrame, trapframe_at, tf_words, set_tf_word, allocproc, myproc, first_unused,
    get_num_app, TRAPFRAME_SIZE};
use crate::batch::{app_start, app_size, num_apps};
use crate::syscall::{runs_proc, cur};
use crate::param::{NPROC, NCPU};

verus! {

/// Where the user stack of an image of `size` bytes begins: the guard page
/// at the next page boundary, the stack page above it.
pub open spec fn stack_base(size: int) -> int {
    pg_round_up_spec(size)
}

/// The guard page keeps its frame, valid, with the user bit cleared.
pub proof fn lemma_guard_pte(pa: u64)
    requires
        pa % 4096 == 0,
    ensures
        pte_valid((leaf_pte(pa, USER_PERM) & !PTE_U) as u64),
        !pte_user((leaf_pte(pa, USER_PERM) & !PTE_U) as u64),
        pte2pa_spec((leaf_pte(pa, USER_PERM) & !PTE_U) as u64) == pa,
{
    lemma_user_perm();
    assert(pa % 4096 == 0 ==> (((((pa >> 12u64) << 10u64) | 30u64 | 1u64) & !16u64) & 1u64) != 0) by (bit_vector);
    assert((((((pa >> 12u64) << 10u64) | 30u64 | 1u64) & !16u64) & 16u64) == 0) by (bit_vector);
    assert(pa % 4096 == 0 ==> ((((((pa >> 12u64) << 10u64) | 30u64 | 1u64) & !16u64) >> 10u64) << 12u64) == pa)
        by (bit_vector);
}

/// What slot `p`, holding an image of `size` bytes, needs before its stack
/// is set up: a sound page table off the free list, a trap-frame page of
/// its own, and the two stack pages unmapped.
pub open spec fn slot_ready(p: &Proc, mem: &PhysMem, kmem: &Kmem, size: int) -> bool {
    &&& p.pagetable is Some
    &&& p.trapframe is Some
    &&& p.pagetable->0.wf(mem)
    &&& p.pagetable->0.apart_from_free(kmem)
    &&& p.trapframe->0 % PGSIZE == 0
    &&& mem.contains(p.trapframe->0 as int, PGSIZE as int)
    &&& !kmem.is_free(p.trapframe->0)
    &&& 0 <= size
    &&& stack_base(size) + 2 * PGSIZE <= MAXVA
    &&& forall|v: int|
        stack_base(size) <= pg_round_down_spec(v) < stack_base(size) + 2 * PGSIZE ==> #[trigger] p.pagetable->0.translate(
            mem,
            v,
        ) is None
}

/// Pages that the stacks of applications `i` to `n - 1` take at most: for
/// each, its two stack pages and the tables its page table lacks for them.
pub open spec fn stacks_budget(procs: Seq<Proc>, mem: &PhysMem, table: u64, i: int, n: int) -> int
    decreases n - i,
{
    if i >= n {
        0
    } else {
        let b = stack_base(app_size(mem, table, i));
        grow_need(&procs[i].pagetable->0, mem, b, b + 2 * PGSIZE) + stacks_budget(procs, mem, table, i + 1, n)
    }
}

/// What the pool needs before `userinit`: each of the first `n` slots is
/// unused and ready, their trap frames are distinct and hold no table, and
/// no table page is shared by two of them.
pub open spec fn pool_ready(procs: Seq<Proc>, mem: &PhysMem, kmem: &Kmem, table: u64, n: int) -> bool {
    &&& forall|i: int| 0 <= i < n ==> #[trigger] slot_ready(&procs[i], mem, kmem, app_size(mem, table, i))
        && procs[i].state == ProcState::UNUSED
    &&& forall|i: int, j: int|
        #![trigger procs[i].trapframe, procs[j].trapframe]
        0 <= i < n && 0 <= j < n && i != j ==> procs[i].trapframe->0 != procs[j].trapframe->0
    &&& forall|i: int, j: int|
        #![trigger procs[j].pagetable->0.owns(procs[i].trapframe->0)]
        0 <= i < n && 0 <= j < n ==> !procs[j].pagetable->0.owns(procs[i].trapframe->0)
    &&& forall|i: int, j: int, t: u64|
        #![trigger procs[i].pagetable->0.owns(t), procs[j].pagetable->0.owns(t)]
        0 <= i < n && 0 <= j < n && i != j ==> !(procs[i].pagetable->0.owns(t) && procs[j].pagetable->0.owns(t))
}

/// What the stack of a process looks like at `v` once it is set up at
/// `base`: a guard page, mapped without the user bit, then a zeroed stack
/// page, both on fresh frames; elsewhere the mappings are as before.
pub open spec fn stack_ready(pt: &PageTable, mem: &PhysMem, pt0: &PageTable, m0: &PhysMem, k0: &Kmem, kmem: &Kmem, base: int, v: int) -> bool {
    let f = frame_of(pt, mem, v);
    if pg_round_down_spec(v) == base {
        &&& pt.translate(mem, v) == Some((leaf_pte(f, USER_PERM) & !PTE_U) as u64)
        &&& k0.is_free(f)
        &&& !kmem.is_free(f)
        &&& !pt.owns(f)
    } else if pg_round_down_spec(v) == base + PGSIZE {
        &&& pt.translate(mem, v) == Some(leaf_pte(f, USER_PERM))
        &&& k0.is_free(f)
        &&& !kmem.is_free(f)
        &&& !pt.owns(f)
        &&& forall|q: int| f <= q < f + PGSIZE ==> #[trigger] mem.byte(q) == 0
    } else {
        pt.translate(mem, v) == pt0.translate(m0, v)
    }
}

/// Gives process `p`, whose image is `size` bytes, its user stack: records
/// the size, sets the user pc to 0, maps two fresh pages at the next page
/// boundary, turns the lower into a guard page, and points the user stack
/// pointer at the top of the upper. The kernel stops if the pages cannot
/// be had, so the allocator must hold enough.
#[verifier::spinoff_prover]
#[verifier::rlimit(100)]
pub fn setup_stack(p: &mut Proc, mem: &mut PhysMem, kmem: &mut Kmem, size: u64)
    requires
        old(kmem).wf(old(mem)),
        slot_ready(old(p), old(mem), old(kmem), size as int),
        !old(p).pagetable->0.owns(old(p).trapframe->0),
        old(kmem)@.len() >= grow_need(&old(p).pagetable->0, old(mem), stack_base(size as int), stack_base(size as int) + 2
            * PGSIZE),
    ensures
        final(p).pagetable is Some,
        *final(p) == (Proc { sz: size, pagetable: final(p).pagetable, ..*old(p) }),
        ({
            let pt0 = old(p).pagetable->0;
            let pt = final(p).pagetable->0;
            let tf = old(p).trapframe->0;
            let base = stack_base(size as int);
            let used = old(kmem)@.len() - final(kmem)@.len();
            &&& pt.wf(final(mem))
            &&& pt.apart_from_free(final(kmem))
            &&& pt.root == pt0.root
            &&& !pt.owns(tf)
            &&& final(kmem).wf(final(mem))
            &&& final(kmem).end == old(kmem).end
            &&& 0 <= used <= grow_need(&pt0, old(mem), base, base + 2 * PGSIZE)
            &&& final(kmem)@ == old(kmem)@.skip(used)
            &&& forall|t: u64| #[trigger] pt0.owns(t) ==> pt.owns(t)
            &&& forall|t: u64| #[trigger] pt.owns(t) ==> pt0.owns(t) || old(kmem)@.take(used).contains(t)
            &&& changed_outside_tables(&pt0, seq![tf] + old(kmem)@.take(used), old(mem), final(mem))
            &&& trapframe_at(final(mem), tf as int) == (TrapFrame {
                epc: 0,
                sp: (base + 2 * PGSIZE) as u64,
                ..trapframe_at(old(mem), tf as int)
            })
            &&& forall|v: int| 0 <= v < va_span() ==> #[trigger] stack_ready(&pt, final(mem), &pt0, old(mem), old(kmem),
                final(kmem), base, v)
        }),
{
    let ghost p0 = *p;
    let ghost m0 = *mem;
    let ghost k0 = *kmem;
    let ghost pt0 = p.pagetable->0;
    let tf = p.trapframe.unwrap();
    p.sz = size;
    let ghost w0 = tf_words(&m0, tf as int);
    proof {
        lemma_free_facts(&k0, &m0);
    }
    set_tf_word(mem, tf, 3, 0);
    let ghost m1 = *mem;
    proof {
        lemma_write_off_tables(&pt0, &m0, &m1, &k0, tf, tf + 24);
    }
    let sz = pg_round_up(size);
    let mut pt = p.pagetable.take().unwrap();
    proof {
        assert forall|v: int| grown(sz as int, sz + 2 * PGSIZE, v) implies #[trigger] pt.translate(&m1, v) is None by {
            assert(pg_round_up_spec(sz as int) == sz);
        }
        assert(pg_round_up_spec(sz as int) == sz);
    }
    let newsz = uvmalloc(&mut pt, mem, kmem, sz, sz + 2 * PGSIZE);
    let ghost pt2 = pt;
    let ghost m2 = *mem;
    let ghost k2 = *kmem;
    proof {
        assert(pg_round_down_spec(sz as int) == sz);
        assert(grown(sz as int, sz + 2 * PGSIZE, sz as int));
        assert(sz < va_span());
        assert(fresh_user_page(&pt2, &m2, &k0, &k2, sz as int));
        lemma_mapped_has_pte(&pt2, &m2, sz as int);
        lemma_free_facts(&k0, &m0);
    }
    uvmclear(&mut pt, mem, kmem, newsz - 2 * PGSIZE);
    let ghost m3 = *mem;
    let sp = newsz;
    proof {
        lemma_free_facts(kmem, mem);
        assert(m3.base == m2.base && m3.bytes@.len() == m2.bytes@.len()) by {
            reveal(changed_in_tables);
        }
        assert(mem.contains(tf as int, TRAPFRAME_SIZE as int));
    }
    set_tf_word(mem, tf, 6, sp);
    proof {
        lemma_stack_memory(&pt0, &pt, &m0, &m1, &m2, &m3, mem, &k0, kmem, tf, sz as int, sp, w0);
        assert forall|x: int| 0 <= x < k0@.len() implies m2.contains(#[trigger] k0@[x] as int, 4096) by {
            lemma_free_facts(&k0, &m0);
        }
        lemma_stack_frames_kept(&pt2, &m2, &m3, mem, &k0, &k2, tf, sz as int);
        lemma_stack_pages(&pt0, &pt2, &pt, &m0, &m1, &m2, &m3, mem, &k0, kmem, tf, sz as int);
    }
    p.pagetable = Some(pt);
}

/// The frames of the new stack pages keep their bytes while the guard page
/// is made and the stack pointer saved.
proof fn lemma_stack_frames_kept(pt2: &PageTable, m2: &PhysMem, m3: &PhysMem, mem: &PhysMem, k0: &Kmem, k2: &Kmem, tf: u64, base: int)
    requires
        pt2.wf(m2),
        changed_in_tables(pt2, m2, m3),
        changed_only(m3, mem, tf + 48, 8),
        tf % 4096 == 0,
        !k0.is_free(tf),
        forall|x: int| 0 <= x < k0@.len() ==> #[trigger] k0@[x] % 4096 == 0,
        forall|x: int| 0 <= x < k0@.len() ==> m2.contains(#[trigger] k0@[x] as int, 4096),
        forall|v: int| 0 <= v < va_span() && grown(base, base + 2 * PGSIZE, v) ==> #[trigger] fresh_user_page(pt2, m2, k0,
            k2, v),
    ensures
        forall|v: int, q: int|
            #![trigger frame_of(pt2, m2, v), mem.byte(q)]
            0 <= v < va_span() && grown(base, base + 2 * PGSIZE, v) && frame_of(pt2, m2, v) <= q < frame_of(pt2, m2, v)
                + PGSIZE ==> mem.byte(q) == m2.byte(q),
{
    reveal(changed_in_tables);
    assert forall|v: int, q: int|
        #![trigger frame_of(pt2, m2, v), mem.byte(q)]
        0 <= v < va_span() && grown(base, base + 2 * PGSIZE, v) && frame_of(pt2, m2, v) <= q < frame_of(pt2, m2, v)
            + PGSIZE implies mem.byte(q) == m2.byte(q) by {
        let f = frame_of(pt2, m2, v);
        assert(fresh_user_page(pt2, m2, k0, k2, v));
        let x = k0@.index_of(f);
        assert(f % 4096 == 0 && m2.contains(f as int, 4096));
        assert(mem.contains(q, 1));
        assert(f != tf);
        assert forall|t: u64| #[trigger] pt2.owns(t) implies !(t <= q < t + 4096) by {
            crate::uvm::lemma_tables_facts(pt2, m2, t);
            assert(t != f);
        }
        assert(mem.contains(q, 1) ==> m3.byte(q) == m2.byte(q));
        if mem.contains(q, 1) {
            assert(mem.byte(q) == m3.byte(q));
        }
    }
}

/// A mapped address has a PTE.
proof fn lemma_mapped_has_pte(pt: &PageTable, m: &PhysMem, v: int)
    requires
        pt.translate(m, v) is Some,
    ensures
        pt.pte_addr(m, v) is Some,
{
    reveal(PageTable::translate);
}

/// A word written in a trap-frame page, which holds no table and is not
/// free, leaves the page table and the allocator sound.
proof fn lemma_write_off_tables(pt: &PageTable, m0: &PhysMem, m1: &PhysMem, k: &Kmem, tf: u64, a: int)
    requires
        pt.wf(m0),
        k.wf(m0),
        !pt.owns(tf),
        !k.is_free(tf),
        tf % 4096 == 0,
        tf <= a,
        a + 8 <= tf + 4096,
        changed_only(m0, m1, a, 8),
    ensures
        pt.wf(m1),
        k.wf(m1),
        forall|v: int| #[trigger] pt.translate(m1, v) == pt.translate(m0, v),
        forall|v: int| #[trigger] pt.tables_needed(m1, v) == pt.tables_needed(m0, v),
{
    assert forall|t: u64, q: int| #![trigger pt.owns(t), m1.byte(q)] pt.owns(t) && t <= q < t + 4096 implies m1.byte(q)
        == m0.byte(q) by {
        crate::uvm::lemma_tables_facts(pt, m0, t);
        assert(t != tf);
    }
    lemma_pt_same_tables(pt, m0, m1);
    crate::memory::lemma_part_page_change(m0, m1, a, 8, tf);
    assert forall|x: int| 0 <= x < seq![tf].len() implies #[trigger] seq![tf][x] % 4096 == 0 && !k.is_free(seq![tf][x]) by {}
    lemma_kmem_frame(k, m0, m1, seq![tf]);
}

/// The memory side of `setup_stack`: the page table stays sound, the
/// allocator too, the trap frame got its pc and stack pointer, and only
/// the trap frame, the pages taken and the old tables changed.
#[verifier::spinoff_prover]
#[verifier::rlimit(60)]
proof fn lemma_stack_memory(
    pt0: &PageTable,
    pt: &PageTable,
    m0: &PhysMem,
    m1: &PhysMem,
    m2: &PhysMem,
    m3: &PhysMem,
    mem: &PhysMem,
    k0: &Kmem,
    k2: &Kmem,
    tf: u64,
    base: int,
    sp: u64,
    w0: Seq<u64>,
)
    requires
        pt0.wf(m0),
        k0.wf(m0),
        !pt0.owns(tf),
        !k0.is_free(tf),
        tf % 4096 == 0,
        m0.contains(tf as int, 4096),
        w0 == tf_words(m0, tf as int),
        tf_words(m1, tf as int) == w0.update(3, 0),
        changed_only(m0, m1, tf + 24, 8),
        ({
            let used = k0@.len() - k2@.len();
            &&& 0 <= used
            &&& k2@ == k0@.skip(used)
            &&& forall|t: u64| #[trigger] pt.owns(t) ==> pt0.owns(t) || k0@.take(used).contains(t)
            &&& changed_outside_tables(pt0, k0@.take(used), m1, m2)
        }),
        pt.wf(m3),
        k2.wf(m3),
        changed_in_tables(pt, m2, m3),
        tf_words(mem, tf as int) == tf_words(m3, tf as int).update(6, sp),
        changed_only(m3, mem, tf + 48, 8),
        sp == base + 2 * PGSIZE,
    ensures
        pt.wf(mem),
        forall|v: int| #[trigger] pt.translate(mem, v) == pt.translate(m3, v),
        !pt.owns(tf),
        k2.wf(mem),
        trapframe_at(mem, tf as int) == (TrapFrame { epc: 0, sp: (base + 2 * PGSIZE) as u64, ..trapframe_at(m0, tf as int) }),
        changed_outside_tables(pt0, seq![tf] + k0@.take(k0@.len() - k2@.len()), m0, mem),
{
    let used = k0@.len() - k2@.len();
    reveal(changed_in_tables);
    lemma_free_facts(k0, m0);
    lemma_free_facts(k2, m3);
    assert(!pt.owns(tf)) by {
        if pt.owns(tf) && !pt0.owns(tf) {
            let x = k0@.take(used).index_of(tf);
            assert(k0@[x] == tf);
        }
    }
    assert forall|t: u64, q: int| #![trigger pt.owns(t), mem.byte(q)] pt.owns(t) && t <= q < t + 4096 implies mem.byte(q)
        == m3.byte(q) by {
        crate::uvm::lemma_tables_facts(pt, m3, t);
        assert(t != tf);
    }
    lemma_pt_same_tables(pt, m3, mem);
    assert(!k2.is_free(tf)) by {
        if k2@.contains(tf) {
            let x = k2@.index_of(tf);
            assert(k0@[used + x] == tf);
        }
    }
    assert forall|x: int| 0 <= x < seq![tf].len() implies #[trigger] seq![tf][x] % 4096 == 0 && !k2.is_free(seq![tf][x]) by {}
    assert forall|q: int| mem.contains(q, 1) && outside_pages(seq![tf], q) implies #[trigger] mem.byte(q) == m3.byte(q) by {
        assert(seq![tf][0] == tf);
    }
    lemma_kmem_frame(k2, m3, mem, seq![tf]);
    assert forall|q: int| tf <= q < tf + TRAPFRAME_SIZE implies #[trigger] m3.byte(q) == m1.byte(q) by {
        reveal(changed_in_tables);
        assert(mem.contains(q, 1));
        assert forall|m: int| 0 <= m < k0@.take(used).len() implies !(#[trigger] k0@.take(used)[m] <= q < k0@.take(used)[m]
            + 4096) by {
            assert(k0@.take(used)[m] == k0@[m]);
            assert(k0@[m] != tf);
        }
        assert forall|t: u64| #[trigger] pt0.owns(t) implies !(t <= q < t + 4096) by {
            crate::uvm::lemma_tables_facts(pt0, m0, t);
        }
        assert forall|t: u64| #[trigger] pt.owns(t) implies !(t <= q < t + 4096) by {
            crate::uvm::lemma_tables_facts(pt, m3, t);
            assert(t != tf);
        }
        assert(m2.byte(q) == m1.byte(q));
    }
    crate::proc::lemma_frame_words_same(m1, m3, tf as int);
    assert(tf_words(mem, tf as int) =~= w0.update(3, 0).update(6, sp));
    assert(changed_outside_tables(pt0, seq![tf] + k0@.take(used), m0, mem)) by {
        reveal(changed_in_tables);
        assert forall|q: int|
            mem.contains(q, 1) && outside_pages(seq![tf] + k0@.take(used), q) && (forall|t: u64| #[trigger] pt0.owns(t)
                ==> !(t <= q < t + 4096)) implies #[trigger] mem.byte(q) == m0.byte(q) by {
            assert((seq![tf] + k0@.take(used))[0] == tf);
            assert forall|m: int| 0 <= m < k0@.take(used).len() implies !(#[trigger] k0@.take(used)[m] <= q
                < k0@.take(used)[m] + 4096) by {
                assert((seq![tf] + k0@.take(used))[m + 1] == k0@.take(used)[m]);
            }
            assert forall|t: u64| #[trigger] pt.owns(t) implies !(t <= q < t + 4096) by {
                if !pt0.owns(t) {
                    let x = k0@.take(used).index_of(t);
                    assert(k0@.take(used)[x] == t);
                }
            }
            assert(m1.byte(q) == m0.byte(q));
            assert(m2.byte(q) == m1.byte(q));
            assert(m3.byte(q) == m2.byte(q));
        }
    }
}

/// The mapping side of `setup_stack`: the guard page and the stack page.
#[verifier::spinoff_prover]
#[verifier::rlimit(60)]
proof fn lemma_stack_pages(
    pt0: &PageTable,
    pt2: &PageTable,
    pt: &PageTable,
    m0: &PhysMem,
    m1: &PhysMem,
    m2: &PhysMem,
    m3: &PhysMem,
    mem: &PhysMem,
    k0: &Kmem,
    k2: &Kmem,
    tf: u64,
    base: int,
)
    requires
        0 <= base,
        base % 4096 == 0,
        base + 2 * PGSIZE <= MAXVA,
        forall|v: int| #[trigger] pt0.translate(m1, v) == pt0.translate(m0, v),
        forall|v: int| 0 <= v < va_span() ==> if grown(base, base + 2 * PGSIZE, v) {
            fresh_user_page(pt2, m2, k0, k2, v)
        } else {
            #[trigger] pt2.translate(m2, v) == pt0.translate(m1, v)
        },
        *pt == *pt2,
        forall|x: int| 0 <= x < k0@.len() ==> #[trigger] k0@[x] % 4096 == 0,
        forall|v: int| #[trigger] pt.leaf(m3, v) == if va_indices(v) == va_indices(base) {
            Some(pt2.leaf(m2, base)->0 & !PTE_U)
        } else {
            pt2.leaf(m2, v)
        },
        forall|v: int| #[trigger] pt.translate(mem, v) == pt.translate(m3, v),
        forall|v: int, q: int|
            #![trigger frame_of(pt2, m2, v), mem.byte(q)]
            0 <= v < va_span() && grown(base, base + 2 * PGSIZE, v) && frame_of(pt2, m2, v) <= q < frame_of(pt2, m2, v)
                + PGSIZE ==> mem.byte(q) == m2.byte(q),
    ensures
        forall|v: int| 0 <= v < va_span() ==> #[trigger] stack_ready(pt, mem, pt0, m0, k0, k2, base, v),
{
    lemma_user_perm();
    assert(pg_round_up_spec(base) == base);
    assert forall|v: int| 0 <= v < va_span() implies #[trigger] stack_ready(pt, mem, pt0, m0, k0, k2, base, v) by {
        reveal(PageTable::translate);
        lemma_va_indices_round(v);
        lemma_va_indices_round(base);
        if pg_round_down_spec(v) == base {
            assert(va_indices(v) == va_indices(base));
            assert(grown(base, base + 2 * PGSIZE, base)) by {
                assert(pg_round_down_spec(base) == base);
            }
            assert(fresh_user_page(pt2, m2, k0, k2, base));
            let f = frame_of(pt2, m2, base);
            assert(f % 4096 == 0) by {
                let x = k0@.index_of(f);
            }
            lemma_leaf_pte(f, USER_PERM);
            lemma_guard_pte(f);
            assert(pt2.leaf(m2, base) == Some(leaf_pte(f, USER_PERM)));
            assert(pt.leaf(m3, v) == Some((leaf_pte(f, USER_PERM) & !PTE_U) as u64));
            assert(pt.translate(m3, v) == Some((leaf_pte(f, USER_PERM) & !PTE_U) as u64));
            assert(frame_of(pt, mem, v) == f);
            assert(stack_ready(pt, mem, pt0, m0, k0, k2, base, v));
        } else if pg_round_down_spec(v) == base + PGSIZE {
            assert(va_indices(v) != va_indices(base)) by {
                crate::vm::lemma_va_indices_page(v, base);
            }
            assert(grown(base, base + 2 * PGSIZE, v));
            assert(fresh_user_page(pt2, m2, k0, k2, v));
            let f = frame_of(pt2, m2, v);
            assert(f % 4096 == 0) by {
                let x = k0@.index_of(f);
            }
            lemma_leaf_pte(f, USER_PERM);
            assert(pt.leaf(m3, v) == pt2.leaf(m2, v));
            assert(pt.translate(m3, v) == pt2.translate(m2, v));
            assert forall|q: int| f <= q < f + PGSIZE implies #[trigger] mem.byte(q) == 0 by {
                assert(mem.byte(q) == m2.byte(q));
            }
            assert(stack_ready(pt, mem, pt0, m0, k0, k2, base, v));
        } else {
            assert(va_indices(v) != va_indices(base)) by {
                crate::vm::lemma_va_indices_page(v, base);
            }
            assert(!grown(base, base + 2 * PGSIZE, v));
            assert(pt.leaf(m3, v) == pt2.leaf(m2, v));
            assert(pt.translate(m3, v) == pt2.translate(m2, v));
            assert(stack_ready(pt, mem, pt0, m0, k0, k2, base, v));
        }
    }
}

/// Slot `j` once `userinit` made it runnable, given what it was (`p0`,
/// over `m0` and `k0`): runnable, with its pid, the size of its image,
/// the stack pointer of its context at the top of its kernel stack page,
/// the user pc 0 and the user stack pointer at the top of its new stack.
pub open spec fn slot_launched(p: &Proc, p0: &Proc, j: int, mem: &PhysMem, kmem: &Kmem, m0: &PhysMem, k0: &Kmem, size: int) -> bool {
    let pt = p.pagetable->0;
    let pt0 = p0.pagetable->0;
    let tf = p0.trapframe->0;
    let base = stack_base(size);
    &&& p.pagetable is Some
    &&& *p == (Proc {
        state: ProcState::RUNNABLE,
        pid: j as i64,
        sz: size as u64,
        context: Context { sp: (p0.kstack + PGSIZE) as u64, ..p0.context },
        pagetable: p.pagetable,
        ..*p0
    })
    &&& pt.wf(mem)
    &&& pt.apart_from_free(kmem)
    &&& pt.root == pt0.root
    &&& trapframe_at(mem, tf as int) == (TrapFrame { epc: 0, sp: (base + 2 * PGSIZE) as u64, ..trapframe_at(m0, tf as int) })
    &&& forall|v: int| 0 <= v < va_span() ==> #[trigger] stack_ready(&pt, mem, &pt0, m0, k0, kmem, base, v)
}

/// The first `n` slots hold sound page tables off the free list and trap
/// frames of their own; no page holds a table of two of them, nor a table
/// and a trap frame.
pub open spec fn pool_apart(procs: Seq<Proc>, mem: &PhysMem, kmem: &Kmem, n: int) -> bool {
    &&& forall|j: int| 0 <= j < n ==> {
        &&& (#[trigger] procs[j]).pagetable is Some
        &&& procs[j].trapframe is Some
        &&& procs[j].pagetable->0.wf(mem)
        &&& procs[j].pagetable->0.apart_from_free(kmem)
        &&& procs[j].trapframe->0 % PGSIZE == 0
        &&& mem.contains(procs[j].trapframe->0 as int, PGSIZE as int)
        &&& !kmem.is_free(procs[j].trapframe->0)
    }
    &&& forall|i: int, j: int|
        #![trigger procs[i].trapframe, procs[j].trapframe]
        0 <= i < n && 0 <= j < n && i != j ==> procs[i].trapframe->0 != procs[j].trapframe->0
    &&& forall|i: int, j: int|
        #![trigger procs[j].pagetable->0.owns(procs[i].trapframe->0)]
        0 <= i < n && 0 <= j < n ==> !procs[j].pagetable->0.owns(procs[i].trapframe->0)
    &&& forall|i: int, j: int, t: u64|
        #![trigger procs[i].pagetable->0.owns(t), procs[j].pagetable->0.owns(t)]
        0 <= i < n && 0 <= j < n && i != j ==> !(procs[i].pagetable->0.owns(t) && procs[j].pagetable->0.owns(t))
}

/// `q` lies off every trap-frame page and every table page of the first
/// `n` slots.
pub open spec fn off_pool(procs: Seq<Proc>, n: int, q: int) -> bool {
    &&& forall|j: int| 0 <= j < n ==> !((#[trigger] procs[j]).trapframe->0 <= q < procs[j].trapframe->0 + PGSIZE)
    &&& forall|j: int, t: u64|
        #![trigger procs[j].pagetable->0.owns(t)]
        0 <= j < n && procs[j].pagetable->0.owns(t) ==> !(t <= q < t + PGSIZE)
}

/// State of `userinit` once the first `i` of `n` slots are runnable.
#[verifier::opaque]
pub open spec fn launch_progress(
    procs: Seq<Proc>,
    procs0: Seq<Proc>,
    mem: &PhysMem,
    kmem: &Kmem,
    m0: &PhysMem,
    k0: &Kmem,
    table: u64,
    i: int,
    n: int,
) -> bool {
    let used = k0@.len() - kmem@.len();
    &&& kmem.wf(mem)
    &&& kmem.end == k0.end
    &&& mem.base == m0.base
    &&& mem.bytes@.len() == m0.bytes@.len()
    &&& 0 <= used <= k0@.len()
    &&& kmem@ == k0@.skip(used)
    &&& procs.len() == procs0.len()
    &&& forall|j: int| i <= j < procs.len() ==> #[trigger] procs[j] == procs0[j]
    &&& forall|j: int| 0 <= j < i ==> #[trigger] slot_launched(&procs[j], &procs0[j], j, mem, kmem, m0, k0, app_size(m0, table, j))
    &&& pool_apart(procs, mem, kmem, n)
    &&& forall|j: int| i <= j < n ==> #[trigger] trapframe_at(mem, procs0[j].trapframe->0 as int) == trapframe_at(m0,
        procs0[j].trapframe->0 as int)
    &&& forall|j: int, v: int| i <= j < n ==> #[trigger] procs0[j].pagetable->0.translate(mem, v) == procs0[j].pagetable->0.translate(m0, v)
    &&& forall|q: int|
        mem.contains(q, 1) && outside_pages(k0@, q) && off_pool(procs0, n, q) ==> #[trigger] mem.byte(q) == m0.byte(q)
    &&& forall|j: int, v: int| i <= j < n ==> #[trigger] procs0[j].pagetable->0.tables_needed(mem, v)
        == procs0[j].pagetable->0.tables_needed(m0, v)
    &&& kmem@.len() >= stacks_budget(procs0, m0, table, i, n)
}

/// What `setup_stack` and the state change did to slot `i`, from `procs1`
/// over `m1` and `k1` to `procs` over `mem` and `kmem`.
pub open spec fn slot_step(
    procs1: Seq<Proc>,
    m1: &PhysMem,
    k1: &Kmem,
    procs: Seq<Proc>,
    mem: &PhysMem,
    kmem: &Kmem,
    i: int,
    size: int,
) -> bool {
    let p1 = procs1[i];
    let p = procs[i];
    let pt1 = p1.pagetable->0;
    let pt = p.pagetable->0;
    let tf = p1.trapframe->0;
    let base = stack_base(size);
    let used = k1@.len() - kmem@.len();
    &&& procs.len() == procs1.len()
    &&& forall|j: int| 0 <= j < procs.len() && j != i ==> #[trigger] procs[j] == procs1[j]
    &&& p.pagetable is Some
    &&& p == (Proc {
        state: ProcState::RUNNABLE,
        pid: i as i64,
        sz: size as u64,
        context: Context { sp: (p1.kstack + PGSIZE) as u64, ..p1.context },
        pagetable: p.pagetable,
        ..p1
    })
    &&& pt.wf(mem)
    &&& pt.apart_from_free(kmem)
    &&& pt.root == pt1.root
    &&& !pt.owns(tf)
    &&& kmem.wf(mem)
    &&& kmem.end == k1.end
    &&& 0 <= used <= grow_need(&pt1, m1, base, base + 2 * PGSIZE)
    &&& kmem@ == k1@.skip(used)
    &&& forall|t: u64| #[trigger] pt1.owns(t) ==> pt.owns(t)
    &&& forall|t: u64| #[trigger] pt.owns(t) ==> pt1.owns(t) || k1@.take(used).contains(t)
    &&& changed_outside_tables(&pt1, seq![tf] + k1@.take(used), m1, mem)
    &&& trapframe_at(mem, tf as int) == (TrapFrame { epc: 0, sp: (base + 2 * PGSIZE) as u64, ..trapframe_at(m1, tf as int) })
    &&& forall|v: int| 0 <= v < va_span() ==> #[trigger] stack_ready(&pt, mem, &pt1, m1, k1, kmem, base, v)
}

/// The other slots keep their tables, their trap frames and all they map.
#[verifier::spinoff_prover]
#[verifier::rlimit(80)]
proof fn lemma_launch_others(
    procs1: Seq<Proc>,
    m1: &PhysMem,
    k1: &Kmem,
    procs: Seq<Proc>,
    mem: &PhysMem,
    kmem: &Kmem,
    i: int,
    n: int,
    size: int,
)
    requires
        pool_apart(procs1, m1, k1, n),
        k1.wf(m1),
        slot_step(procs1, m1, k1, procs, mem, kmem, i, size),
        0 <= i < n <= procs1.len(),
    ensures
        pool_apart(procs, mem, kmem, n),
        forall|j: int| 0 <= j < n && j != i ==> #[trigger] trapframe_at(mem, procs1[j].trapframe->0 as int) == trapframe_at(
            m1,
            procs1[j].trapframe->0 as int,
        ),
        forall|j: int, v: int| 0 <= j < n && j != i ==> #[trigger] procs1[j].pagetable->0.translate(mem, v)
            == procs1[j].pagetable->0.translate(m1, v),
        forall|j: int, v: int| 0 <= j < n && j != i ==> #[trigger] procs1[j].pagetable->0.tables_needed(mem, v)
            == procs1[j].pagetable->0.tables_needed(m1, v),
        forall|t: u64| !k1.is_free(t) ==> !#[trigger] kmem.is_free(t),
{
    let pt1 = procs1[i].pagetable->0;
    let pt = procs[i].pagetable->0;
    let tf = procs1[i].trapframe->0;
    let u = k1@.len() - kmem@.len();
    let pages = seq![tf] + k1@.take(u);
    lemma_free_facts(k1, m1);
    reveal(PageTable::apart_from_free);
    assert forall|t: u64| !k1.is_free(t) implies !#[trigger] kmem.is_free(t) by {
        if kmem@.contains(t) {
            let x = kmem@.index_of(t);
            assert(k1@[u + x] == t);
        }
    }
    // A page that is not free, not the trap frame of slot i and no table
    // of slot i kept its bytes.
    assert forall|t: u64, q: int|
        #![trigger outside_pages(pages, q), k1.is_free(t)]
        !k1.is_free(t) && t != tf && !pt1.owns(t) && t % 4096 == 0 && m1.contains(t as int, 4096) && t <= q < t + 4096
            implies mem.byte(q) == m1.byte(q) by {
        assert(outside_pages(pages, q)) by {
            assert forall|x: int| 0 <= x < pages.len() implies !(#[trigger] pages[x] <= q < pages[x] + 4096) by {
                if x == 0 {
                    assert(pages[0] == tf);
                    assert(tf % 4096 == 0);
                } else {
                    assert(pages[x] == k1@[x - 1]);
                    assert(k1.is_free(pages[x]));
                    assert(pages[x] != t);
                }
            }
        }
        assert forall|t2: u64| #[trigger] pt1.owns(t2) implies !(t2 <= q < t2 + 4096) by {
            crate::uvm::lemma_tables_facts(&pt1, m1, t2);
            assert(t2 != t);
        }
        assert(mem.contains(q, 1));
    }
    assert forall|j: int| 0 <= j < n && j != i implies #[trigger] trapframe_at(mem, procs1[j].trapframe->0 as int)
        == trapframe_at(m1, procs1[j].trapframe->0 as int) by {
        let tj = procs1[j].trapframe->0;
        assert(procs1[j].pagetable is Some);
        assert(tj != tf);
        assert(!pt1.owns(tj));
        assert forall|q: int| tj <= q < tj + TRAPFRAME_SIZE implies #[trigger] mem.byte(q) == m1.byte(q) by {
            assert(!k1.is_free(tj));
        }
        crate::proc::lemma_frame_words_same(m1, mem, tj as int);
    }
    assert forall|j: int| 0 <= j < n && j != i implies {
        &&& (#[trigger] procs1[j]).pagetable->0.wf(mem)
        &&& forall|v: int| procs1[j].pagetable->0.translate(mem, v) == procs1[j].pagetable->0.translate(m1, v)
        &&& forall|v: int| procs1[j].pagetable->0.tables_needed(mem, v) == procs1[j].pagetable->0.tables_needed(m1, v)
    } by {
        let ptj = procs1[j].pagetable->0;
        assert forall|t: u64, q: int| #![trigger ptj.owns(t), mem.byte(q)] ptj.owns(t) && t <= q < t + 4096 implies mem.byte(q)
            == m1.byte(q) by {
            crate::uvm::lemma_tables_facts(&ptj, m1, t);
            assert(!k1.is_free(t));
            assert(!ptj.owns(tf));
            assert(!pt1.owns(t));
        }
        lemma_pt_same_tables(&ptj, m1, mem);
    }
    assert forall|j: int, v: int| 0 <= j < n && j != i implies #[trigger] procs1[j].pagetable->0.translate(mem, v)
        == procs1[j].pagetable->0.translate(m1, v) by {
        assert(procs1[j].pagetable->0.wf(mem));
    }
    assert forall|j: int, v: int| 0 <= j < n && j != i implies #[trigger] procs1[j].pagetable->0.tables_needed(mem, v)
        == procs1[j].pagetable->0.tables_needed(m1, v) by {
        assert(procs1[j].pagetable->0.wf(mem));
    }
    // The pool stays apart.
    assert forall|j: int| 0 <= j < n implies {
        &&& (#[trigger] procs[j]).pagetable is Some
        &&& procs[j].trapframe is Some
        &&& procs[j].pagetable->0.wf(mem)
        &&& procs[j].pagetable->0.apart_from_free(kmem)
        &&& procs[j].trapframe->0 % PGSIZE == 0
        &&& mem.contains(procs[j].trapframe->0 as int, PGSIZE as int)
        &&& !kmem.is_free(procs[j].trapframe->0)
    } by {
        assert(procs1[j].pagetable is Some);
        if j != i {
            assert(procs[j] == procs1[j]);
            assert(procs1[j].pagetable->0.wf(mem));
        }
    }
    assert forall|a: int, b: int|
        #![trigger procs[b].pagetable->0.owns(procs[a].trapframe->0)]
        0 <= a < n && 0 <= b < n implies !procs[b].pagetable->0.owns(procs[a].trapframe->0) by {
        assert(procs1[a].pagetable is Some);
        assert(procs[a].trapframe == procs1[a].trapframe);
        if b == i {
            let ta = procs1[a].trapframe->0;
            assert(!pt1.owns(ta));
            assert(!k1.is_free(ta));
            if pt.owns(ta) {
                let x = k1@.take(u).index_of(ta);
                assert(k1@[x] == ta);
            }
        } else {
            assert(procs[b] == procs1[b]);
        }
    }
    assert forall|a: int, b: int, t: u64|
        #![trigger procs[a].pagetable->0.owns(t), procs[b].pagetable->0.owns(t)]
        0 <= a < n && 0 <= b < n && a != b implies !(procs[a].pagetable->0.owns(t) && procs[b].pagetable->0.owns(t)) by {
        assert(procs1[a].pagetable is Some);
        assert(procs1[b].pagetable is Some);
        if a == i && pt.owns(t) && procs[b].pagetable->0.owns(t) {
            assert(procs[b] == procs1[b]);
            if !pt1.owns(t) {
                let x = k1@.take(u).index_of(t);
                assert(k1@[x] == t);
            }
        } else if b == i && pt.owns(t) && procs[a].pagetable->0.owns(t) {
            assert(procs[a] == procs1[a]);
            if !pt1.owns(t) {
                let x = k1@.take(u).index_of(t);
                assert(k1@[x] == t);
            }
        } else if a != i && b != i {
            assert(procs[a] == procs1[a]);
            assert(procs[b] == procs1[b]);
        }
    }
    assert forall|a: int, b: int|
        #![trigger procs[a].trapframe, procs[b].trapframe]
        0 <= a < n && 0 <= b < n && a != b implies procs[a].trapframe->0 != procs[b].trapframe->0 by {
        assert(procs1[a].pagetable is Some);
        assert(procs[a].trapframe == procs1[a].trapframe);
        assert(procs[b].trapframe == procs1[b].trapframe);
    }
}

/// A frame that was free before `userinit` and is not free now, taken by
/// an earlier slot, keeps its bytes while slot `i` is launched.
#[verifier::spinoff_prover]
#[verifier::rlimit(40)]
proof fn lemma_frame_untouched(
    procs1: Seq<Proc>,
    m1: &PhysMem,
    k1: &Kmem,
    procs: Seq<Proc>,
    mem: &PhysMem,
    kmem: &Kmem,
    procs0: Seq<Proc>,
    m0: &PhysMem,
    k0: &Kmem,
    i: int,
    size: int,
    f: u64,
)
    requires
        slot_step(procs1, m1, k1, procs, mem, kmem, i, size),
        0 <= i < procs1.len(),
        procs1[i] == procs0[i],
        slot_ready(&procs0[i], m0, k0, size),
        procs0[i].pagetable->0.wf(m1),
        k0.wf(m0),
        k1.wf(m1),
        m1.base == m0.base,
        m1.bytes@.len() == m0.bytes@.len(),
        k0.is_free(f),
        !k1.is_free(f),
    ensures
        forall|q: int| f <= q < f + PGSIZE ==> #[trigger] mem.byte(q) == m1.byte(q),
{
    let pt1 = procs1[i].pagetable->0;
    let tf = procs1[i].trapframe->0;
    let u = k1@.len() - kmem@.len();
    let pages = seq![tf] + k1@.take(u);
    lemma_free_facts(k0, m0);
    lemma_free_facts(k1, m1);
    let x = k0@.index_of(f);
    assert(f % 4096 == 0 && m0.contains(f as int, 4096));
    reveal(PageTable::apart_from_free);
    assert forall|q: int| f <= q < f + PGSIZE implies #[trigger] mem.byte(q) == m1.byte(q) by {
        assert(mem.contains(q, 1));
        assert(outside_pages(pages, q)) by {
            assert forall|y: int| 0 <= y < pages.len() implies !(#[trigger] pages[y] <= q < pages[y] + 4096) by {
                if y == 0 {
                    assert(pages[0] == tf);
                    assert(tf != f);
                } else {
                    assert(pages[y] == k1@[y - 1]);
                    assert(pages[y] != f);
                }
            }
        }
        assert forall|t: u64| #[trigger] pt1.owns(t) implies !(t <= q < t + 4096) by {
            crate::uvm::lemma_tables_facts(&pt1, m1, t);
            assert(!k0.is_free(t));
        }
    }
}

/// Slot `i` made runnable keeps `userinit` on track.
#[verifier::spinoff_prover]
#[verifier::rlimit(80)]
proof fn lemma_launch_step(
    procs1: Seq<Proc>,
    m1: &PhysMem,
    k1: &Kmem,
    procs: Seq<Proc>,
    mem: &PhysMem,
    kmem: &Kmem,
    procs0: Seq<Proc>,
    m0: &PhysMem,
    k0: &Kmem,
    table: u64,
    i: int,
    n: int,
)
    requires
        launch_progress(procs1, procs0, m1, k1, m0, k0, table, i, n),
        k0.wf(m0),
        0 <= i < n <= procs0.len(),
        pool_ready(procs0, m0, k0, table, n),
        slot_step(procs1, m1, k1, procs, mem, kmem, i, app_size(m0, table, i)),
    ensures
        launch_progress(procs, procs0, mem, kmem, m0, k0, table, i + 1, n),
{
    reveal(launch_progress);
    let size = app_size(m0, table, i);
    let used1 = k0@.len() - k1@.len();
    let u = k1@.len() - kmem@.len();
    let used = k0@.len() - kmem@.len();
    lemma_launch_others(procs1, m1, k1, procs, mem, kmem, i, n, size);
    lemma_free_facts(k0, m0);
    assert(kmem@ =~= k0@.skip(used));
    assert(procs1[i] == procs0[i]);
    assert forall|t: u64| k1.is_free(t) implies #[trigger] k0.is_free(t) by {
        let x = k1@.index_of(t);
        assert(k0@[used1 + x] == t);
    }
    assert forall|j: int| i + 1 <= j < procs.len() implies #[trigger] procs[j] == procs0[j] by {
        assert(procs[j] == procs1[j]);
    }
    assert forall|j: int| 0 <= j < i + 1 implies #[trigger] slot_launched(&procs[j], &procs0[j], j, mem, kmem, m0, k0,
        app_size(m0, table, j)) by {
        let sj = app_size(m0, table, j);
        let base = stack_base(sj);
        if j < i {
            assert(procs[j] == procs1[j]);
            assert(slot_launched(&procs1[j], &procs0[j], j, m1, k1, m0, k0, sj));
            let pt = procs[j].pagetable->0;
            assert(procs1[j].pagetable is Some);
            assert(pool_apart(procs, mem, kmem, n));
            assert(pt.wf(mem) && pt.apart_from_free(kmem));
            assert forall|v: int| 0 <= v < va_span() implies #[trigger] stack_ready(&pt, mem, &procs0[j].pagetable->0, m0, k0,
                kmem, base, v) by {
                assert(stack_ready(&pt, m1, &procs0[j].pagetable->0, m0, k0, k1, base, v));
                assert(pt.translate(mem, v) == pt.translate(m1, v));
                if pg_round_down_spec(v) == base + PGSIZE {
                    let f = frame_of(&pt, m1, v);
                    assert(slot_ready(&procs0[i], m0, k0, size));
                    assert(procs1[i].pagetable is Some);
                    lemma_frame_untouched(procs1, m1, k1, procs, mem, kmem, procs0, m0, k0, i, size, f);
                    assert forall|q: int| f <= q < f + PGSIZE implies #[trigger] mem.byte(q) == 0 by {
                        assert(mem.byte(q) == m1.byte(q));
                    }
                }
            }
        } else {
            let pt = procs[i].pagetable->0;
            let pt1 = procs1[i].pagetable->0;
            assert forall|v: int| 0 <= v < va_span() implies #[trigger] stack_ready(&pt, mem, &pt1, m0, k0, kmem, base, v) by {
                assert(stack_ready(&pt, mem, &pt1, m1, k1, kmem, base, v));
                assert(pt1.translate(m1, v) == pt1.translate(m0, v));
            }
        }
    }
    assert forall|j: int| i + 1 <= j < n implies #[trigger] trapframe_at(mem, procs0[j].trapframe->0 as int) == trapframe_at(
        m0,
        procs0[j].trapframe->0 as int,
    ) by {
        assert(procs1[j] == procs0[j]);
    }
    assert forall|j: int, v: int| i + 1 <= j < n implies #[trigger] procs0[j].pagetable->0.translate(mem, v)
        == procs0[j].pagetable->0.translate(m0, v) by {
        assert(procs1[j] == procs0[j]);
    }
    assert forall|j: int, v: int| i + 1 <= j < n implies #[trigger] procs0[j].pagetable->0.tables_needed(mem, v)
        == procs0[j].pagetable->0.tables_needed(m0, v) by {
        assert(procs1[j] == procs0[j]);
        assert(procs1[j].pagetable->0.tables_needed(mem, v) == procs1[j].pagetable->0.tables_needed(m1, v));
    }
    assert(kmem@.len() >= stacks_budget(procs0, m0, table, i + 1, n)) by {
        let b = stack_base(size);
        let pt1 = procs1[i].pagetable->0;
        assert(stacks_budget(procs0, m0, table, i, n) == grow_need(&procs0[i].pagetable->0, m0, b, b + 2 * PGSIZE)
            + stacks_budget(procs0, m0, table, i + 1, n));
        assert(pt1.tables_needed(m1, pg_round_up_spec(b)) == pt1.tables_needed(m0, pg_round_up_spec(b)));
        assert(grow_need(&pt1, m1, b, b + 2 * PGSIZE) == grow_need(&procs0[i].pagetable->0, m0, b, b + 2 * PGSIZE));
    }
    assert forall|q: int| mem.contains(q, 1) && outside_pages(k0@, q) && off_pool(procs0, n, q) implies #[trigger] mem.byte(q)
        == m0.byte(q) by {
        let tf = procs1[i].trapframe->0;
        let pt1 = procs1[i].pagetable->0;
        let pages = seq![tf] + k1@.take(u);
        assert(outside_pages(pages, q)) by {
            assert forall|x: int| 0 <= x < pages.len() implies !(#[trigger] pages[x] <= q < pages[x] + 4096) by {
                if x == 0 {
                    assert(pages[0] == tf);
                    assert(procs0[i].trapframe->0 == tf);
                } else {
                    assert(pages[x] == k0@[used1 + x - 1]);
                }
            }
        }
        assert forall|t: u64| #[trigger] pt1.owns(t) implies !(t <= q < t + 4096) by {
            assert(procs0[i].pagetable->0.owns(t));
        }
        assert(m1.byte(q) == m0.byte(q));
    }
}


/// Growing takes no negative number of pages.
proof fn lemma_grow_cost_nonneg(oldsz: int, newsz: int)
    ensures
        grow_cost(oldsz, newsz) >= 0,
{
    let start = pg_round_up_spec(oldsz);
    let last = pg_round_down_spec(newsz - 1);
    if oldsz <= newsz && start < newsz {
        let x = oldsz + PGSIZE - 1;
        assert(start % 4096 == 0) by (nonlinear_arith)
            requires
                start == x - x % 4096,
        ;
        let y = newsz - 1;
        assert(last >= start) by (nonlinear_arith)
            requires
                start % 4096 == 0,
                start <= y,
                last == y - y % 4096,
        ;
        assert(last / 0x20_0000 >= start / 0x20_0000) by (nonlinear_arith)
            requires
                last >= start,
        ;
        assert((last - start) / 4096 >= 0) by (nonlinear_arith)
            requires
                last >= start,
        ;
    }
}

/// The pages that the stacks take are never negative in number.
proof fn lemma_stacks_budget_nonneg(procs: Seq<Proc>, mem: &PhysMem, table: u64, i: int, n: int)
    ensures
        stacks_budget(procs, mem, table, i, n) >= 0,
    decreases n - i,
{
    if i < n {
        lemma_stacks_budget_nonneg(procs, mem, table, i + 1, n);
        let b = stack_base(app_size(mem, table, i));
        lemma_grow_cost_nonneg(b, b + 2 * PGSIZE);
        assert(grow_need(&procs[i].pagetable->0, mem, b, b + 2 * PGSIZE) >= 0) by {
            let pt = procs[i].pagetable->0;
            let start = pg_round_up_spec(b);
            let last = pg_round_down_spec(b + 2 * PGSIZE - 1);
            if start < b + 2 * PGSIZE {
                assert(pt.tables_needed(mem, start) >= 0);
            }
        }
    }
}

/// Before the first slot is launched, the pool as `procinit` left it is on
/// track.
proof fn lemma_launch_start(procs0: Seq<Proc>, m0: &PhysMem, k0: &Kmem, table: u64, n: int)
    requires
        k0.wf(m0),
        pool_ready(procs0, m0, k0, table, n),
        0 <= n <= procs0.len(),
        k0@.len() >= stacks_budget(procs0, m0, table, 0, n),
    ensures
        launch_progress(procs0, procs0, m0, k0, m0, k0, table, 0, n),
{
    reveal(launch_progress);
    lemma_free_facts(k0, m0);
    assert(k0@.skip(0) =~= k0@);
    assert forall|j: int| 0 <= j < n implies {
        &&& (#[trigger] procs0[j]).pagetable is Some
        &&& procs0[j].trapframe is Some
        &&& procs0[j].pagetable->0.wf(m0)
        &&& procs0[j].pagetable->0.apart_from_free(k0)
        &&& procs0[j].trapframe->0 % PGSIZE == 0
        &&& m0.contains(procs0[j].trapframe->0 as int, PGSIZE as int)
        &&& !k0.is_free(procs0[j].trapframe->0)
    } by {
        assert(slot_ready(&procs0[j], m0, k0, app_size(m0, table, j)));
    }
}

/// What launching slot `i` needs, as `userinit` finds it: the slots before
/// it runnable, slot `i` unused and ready for its stack, the stack pages
/// in the allocator, and the two words that bound its image unchanged.
#[verifier::spinoff_prover]
#[verifier::rlimit(60)]
proof fn lemma_launch_ready(
    procs1: Seq<Proc>,
    m1: &PhysMem,
    k1: &Kmem,
    procs0: Seq<Proc>,
    m0: &PhysMem,
    k0: &Kmem,
    table: u64,
    i: int,
    n: int,
)
    requires
        launch_progress(procs1, procs0, m1, k1, m0, k0, table, i, n),
        k0.wf(m0),
        0 <= i < n <= NPROC,
        procs0.len() == NPROC,
        pool_ready(procs0, m0, k0, table, n),
        forall|k: int| 0 <= k < NPROC ==> #[trigger] procs0[k].kstack + PGSIZE <= u64::MAX,
        m0.contains(table as int, 8 * (n + 2)),
        forall|q: int| table <= q < table + 8 * (n + 2) ==> #[trigger] outside_pages(k0@, q) && off_pool(procs0, n, q),
    ensures
        k1.wf(m1),
        procs1.len() == NPROC,
        forall|k: int| 0 <= k < NPROC ==> #[trigger] procs1[k].kstack + PGSIZE <= u64::MAX,
        forall|j: int| 0 <= j < i ==> #[trigger] procs1[j].state == ProcState::RUNNABLE,
        procs1[i] == procs0[i],
        procs1[i].state == ProcState::UNUSED,
        slot_ready(&procs1[i], m1, k1, app_size(m0, table, i)),
        !procs1[i].pagetable->0.owns(procs1[i].trapframe->0),
        k1@.len() >= grow_need(&procs1[i].pagetable->0, m1, stack_base(app_size(m0, table, i)), stack_base(
            app_size(m0, table, i),
        ) + 2 * PGSIZE),
        m1.contains(table + 8 * (i + 1), 8),
        m1.contains(table + 8 * (i + 2), 8),
        m1.word(table + 8 * (i + 1)) == m0.word(table + 8 * (i + 1)),
        m1.word(table + 8 * (i + 2)) == m0.word(table + 8 * (i + 2)),
{
    reveal(launch_progress);
    let size = app_size(m0, table, i);
    let b = stack_base(size);
    assert forall|k: int| 0 <= k < NPROC implies #[trigger] procs1[k].kstack + PGSIZE <= u64::MAX by {
        if k < i {
            assert(slot_launched(&procs1[k], &procs0[k], k, m1, k1, m0, k0, app_size(m0, table, k)));
        } else {
            assert(procs1[k] == procs0[k]);
        }
    }
    assert forall|j: int| 0 <= j < i implies #[trigger] procs1[j].state == ProcState::RUNNABLE by {
        assert(slot_launched(&procs1[j], &procs0[j], j, m1, k1, m0, k0, app_size(m0, table, j)));
    }
    assert(procs1[i] == procs0[i]);
    assert(slot_ready(&procs0[i], m0, k0, size));
    assert(slot_ready(&procs1[i], m1, k1, size)) by {
        assert(procs1[i].pagetable is Some);
        assert forall|v: int| b <= pg_round_down_spec(v) < b + 2 * PGSIZE implies #[trigger] procs1[i].pagetable->0.translate(
            m1,
            v,
        ) is None by {
            assert(procs0[i].pagetable->0.translate(m1, v) == procs0[i].pagetable->0.translate(m0, v));
            assert(procs0[i].pagetable->0.translate(m0, v) is None);
        }
    }
    assert(stacks_budget(procs0, m0, table, i, n) == grow_need(&procs0[i].pagetable->0, m0, b, b + 2 * PGSIZE)
        + stacks_budget(procs0, m0, table, i + 1, n));
    lemma_stacks_budget_nonneg(procs0, m0, table, i + 1, n);
    assert(grow_need(&procs1[i].pagetable->0, m1, b, b + 2 * PGSIZE) == grow_need(&procs0[i].pagetable->0, m0, b, b + 2
        * PGSIZE)) by {
        assert(procs0[i].pagetable->0.tables_needed(m1, pg_round_up_spec(b)) == procs0[i].pagetable->0.tables_needed(
            m0,
            pg_round_up_spec(b),
        ));
    }
    assert forall|q: int| table <= q < table + 8 * (n + 2) implies #[trigger] m1.byte(q) == m0.byte(q) by {
        assert(outside_pages(k0@, q) && off_pool(procs0, n, q));
        assert(m1.contains(q, 1));
    }
    assert(m1.same_bytes(m0, table + 8 * (i + 1), 8));
    assert(m1.same_bytes(m0, table + 8 * (i + 2), 8));
    crate::memory::lemma_word_same(m1, m0, table + 8 * (i + 1));
    crate::memory::lemma_word_same(m1, m0, table + 8 * (i + 2));
}

/// Makes the first `n` applications runnable, `n` being the count in the
/// application table at `table`: for each, the first unused slot is taken
/// (`allocproc`), which is slot `i` for the `i`-th application, its user
/// stack set up (`setup_stack`) for the image size that the table gives,
/// and the slot marked runnable. Returns the slot of the process the hart
/// runs, whose context the caller switches to. The slots must be ready as
/// `procinit` leaves them, and the allocator must hold the stack pages.
#[verifier::spinoff_prover]
#[verifier::rlimit(100)]
pub fn userinit(procs: &mut Vec<Proc>, cpus: &Vec<CPU>, hart: &Hart, mem: &mut PhysMem, kmem: &mut Kmem, table: u64) -> (first: usize)
    requires
        old(procs)@.len() == NPROC,
        runs_proc(old(procs)@, cpus@, hart),
        forall|k: int| 0 <= k < NPROC ==> #[trigger] old(procs)@[k].kstack + PGSIZE <= u64::MAX,
        old(kmem).wf(old(mem)),
        ({
            let n = num_apps(old(mem), table);
            &&& n <= NPROC
            &&& old(mem).contains(table as int, 8 * (n + 2))
            &&& forall|q: int| table <= q < table + 8 * (n + 2) ==> #[trigger] outside_pages(old(kmem)@, q)
                && off_pool(old(procs)@, n, q)
            &&& pool_ready(old(procs)@, old(mem), old(kmem), table, n)
            &&& old(kmem)@.len() >= stacks_budget(old(procs)@, old(mem), table, 0, n)
        }),
    ensures
        first == cur(cpus@, hart),
        ({
            let n = num_apps(old(mem), table);
            let used = old(kmem)@.len() - final(kmem)@.len();
            &&& final(procs)@.len() == NPROC
            &&& final(kmem).wf(final(mem))
            &&& final(kmem).end == old(kmem).end
            &&& 0 <= used
            &&& final(kmem)@ == old(kmem)@.skip(used)
            &&& forall|j: int| 0 <= j < n ==> #[trigger] slot_launched(&final(procs)@[j], &old(procs)@[j], j, final(mem),
                final(kmem), old(mem), old(kmem), app_size(old(mem), table, j))
            &&& forall|j: int| n <= j < NPROC ==> #[trigger] final(procs)@[j] == old(procs)@[j]
            &&& pool_apart(final(procs)@, final(mem), final(kmem), n)
            &&& final(mem).base == old(mem).base
            &&& final(mem).bytes@.len() == old(mem).bytes@.len()
            &&& forall|q: int| final(mem).contains(q, 1) && outside_pages(old(kmem)@, q) && off_pool(old(procs)@, n, q)
                ==> #[trigger] final(mem).byte(q) == old(mem).byte(q)
        }),
{
    let ghost procs0 = procs@;
    let ghost m0 = *mem;
    let ghost k0 = *kmem;
    let num_app = get_num_app(mem, table);
    proof {
        lemma_launch_start(procs0, &m0, &k0, table, num_app as int);
    }
    let mut i: u64 = 0;
    while i < num_app
        invariant
            launch_progress(procs@, procs0, mem, kmem, &m0, &k0, table, i as int, num_app as int),
            num_app == num_apps(&m0, table),
            i <= num_app <= NPROC,
            procs0.len() == NPROC,
            k0.wf(&m0),
            pool_ready(procs0, &m0, &k0, table, num_app as int),
            forall|k: int| 0 <= k < NPROC ==> #[trigger] procs0[k].kstack + PGSIZE <= u64::MAX,
            m0.contains(table as int, 8 * (num_app + 2)),
            forall|q: int| table <= q < table + 8 * (num_app + 2) ==> #[trigger] outside_pages(k0@, q)
                && off_pool(procs0, num_app as int, q),
        decreases num_app - i,
    {
        let ghost procs1 = procs@;
        let ghost m1 = *mem;
        let ghost k1 = *kmem;
        let ghost size = app_size(&m0, table, i as int);
        proof {
            lemma_launch_ready(procs1, &m1, &k1, procs0, &m0, &k0, table, i as int, num_app as int);
            assert forall|k: int| #[trigger] first_unused(procs1, k) && procs1[k].trapframe is None implies k1@.len()
                > 0 by {
                if k < i {
                    assert(procs1[k].state == ProcState::RUNNABLE);
                } else if k > i {
                    assert(procs1[i as int].state != ProcState::UNUSED);
                }
            }
        }
        let p = allocproc(procs, mem, kmem);
        proof {
            reveal(launch_progress);
            if p < i {
                assert(slot_launched(&procs1[p as int], &procs0[p as int], p as int, &m1, &k1, &m0, &k0,
                    app_size(&m0, table, p as int)));
            }
            assert(procs1[i as int].state == ProcState::UNUSED);
            lemma_free_facts(&k1, &m1);
            assert(table + 8 * (i + 2) + 8 <= m1.top());
        }
        let start = mem.read_word(table + 8 * (i + 1));
        let end = mem.read_word(table + 8 * (i + 2));
        setup_stack(&mut procs[p], mem, kmem, end - start);
        procs[p].state = ProcState::RUNNABLE;
        proof {
            assert(slot_step(procs1, &m1, &k1, procs@, mem, kmem, i as int, size));
            lemma_launch_step(procs1, &m1, &k1, procs@, mem, kmem, procs0, &m0, &k0, table, i as int, num_app as int);
        }
        i = i + 1;
    }
    proof {
        reveal(launch_progress);
    }
    myproc(cpus, hart)
}


/// Applications run in the order of the table: a slot that `userinit`
/// launched carries its index as pid, so when its process exits `sched`
/// hands the hart to the next slot.
pub proof fn law_exit_runs_next(p: &Proc, p0: &Proc, j: int, mem: &PhysMem, kmem: &Kmem, m0: &PhysMem, k0: &Kmem, size: int)
    requires
        0 <= j < NPROC,
        slot_launched(p, p0, j, mem, kmem, m0, k0, size),
    ensures
        p.state == ProcState::RUNNABLE,
        crate::proc::next_slot(p) == j + 1,
{
}

} // verus!
