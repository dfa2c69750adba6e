//! Setting up the batch of applications as processes: their page tables,
//! their images loaded at virtual address 0, their stacks.
use vstd::prelude::*;
use crate::memory::{PhysMem, changed_within, changed_only, outside_pages, lemma_part_page_change, lemma_page_change,
    lemma_changes_compose, lemma_word_same};
use crate::kalloc::{Kmem, lemma_free_facts, lemma_kmem_frame};
use crate::string::{memmove, memset};
use crate::uvm::{uvmalloc, grown, grow_budget, grow_cost, fresh_user_page, frame_of, changed_outside_tables, USER_PERM,
    lemma_user_perm};
use crate::memlayout::{TRAMPOLINE, TRAPFRAME};
use crate::riscv::{PGSIZE, MAXVA, PTE_R, PTE_W, PTE_X, leaf_pte, pte2pa_spec, pte_user, lemma_leaf_pte,
    pg_round_down, pg_round_down_spec, pg_round_up_spec};
use crate::vm::{PageTable, mappages, uvmcreate, map_outcome, map_result, va_span, va_indices, took_tables,
    changed_in_tables, lemma_took_facts, lemma_took_trans, lemma_changed_tables_trans, lemma_pt_frame,
    lemma_va_indices_round};
use crate::proc::{Proc, CPU, Context, ProcState, get_num_app, mycpu, trapframe_at, trapframe_zero, lemma_zero_trapframe,
    TRAPFRAME_SIZE};
use crate::kvm::{slot_kstack, PROC_SLOT_SIZE};
use crate::memlayout::kstack;
use crate::param::NCPU;
use crate::riscv::Hart;
use crate::param::NPROC;

verus! {

/// What a new process page table maps: the trampoline code at TRAMPOLINE,
/// for the kernel only, and the process's trap frame just below it.
pub open spec fn proc_map(trampoline: u64, tf: u64, v: int) -> Option<u64> {
    if pg_round_down_spec(v) == TRAMPOLINE {
        Some(leaf_pte(trampoline, PTE_X | PTE_R))
    } else if pg_round_down_spec(v) == TRAPFRAME {
        Some(leaf_pte(tf, PTE_R | PTE_W))
    } else {
        None
    }
}

/// A new page table for process `p` that maps only the trampoline page
/// (whose code is at `trampoline`) and `p`'s trap frame. It takes three
/// pages: the root and the two tables on the way to TRAMPOLINE. The kernel
/// stops if they are not there, so the allocator must hold them; `p` must
/// have a trap frame.
pub fn proc_pagetable(p: &Proc, mem: &mut PhysMem, kmem: &mut Kmem, trampoline: u64) -> (r: Option<PageTable>)
    requires
        old(kmem).wf(old(mem)),
        old(kmem)@.len() >= 3,
        p.trapframe is Some,
    ensures
        r is Some,
        ({
            let pt = r->0;
            let used = old(kmem)@.len() - final(kmem)@.len();
            &&& pt.wf(final(mem))
            &&& pt.apart_from_free(final(kmem))
            &&& final(kmem).wf(final(mem))
            &&& final(kmem).end == old(kmem).end
            &&& 1 <= used <= 3
            &&& final(kmem)@ == old(kmem)@.skip(used)
            &&& pt.root == old(kmem)@[0]
            &&& pt.owns(pt.root)
            &&& forall|t: u64| #[trigger] pt.owns(t) ==> old(kmem)@.take(used).contains(t)
            &&& changed_within(old(mem), final(mem), old(kmem)@.take(used))
            &&& forall|v: int| 0 <= v < va_span() ==> #[trigger] pt.translate(final(mem), v) == proc_map(
                trampoline,
                p.trapframe->0,
                v,
            )
        }),
{
    let ghost m0 = *mem;
    let ghost k0 = *kmem;
    let mut pgtbl = uvmcreate(mem, kmem);
    let ghost pt0 = pgtbl;
    let ghost m1 = *mem;
    let ghost k1 = *kmem;
    proof {
        assert(pg_round_down_spec(TRAMPOLINE + PGSIZE - 1) == TRAMPOLINE);
        assert(pg_round_down_spec(TRAMPOLINE as int) == TRAMPOLINE);
        assert forall|v: int| TRAMPOLINE <= v <= TRAMPOLINE implies #[trigger] pgtbl.translate(mem, v) is None by {}
        assert(pgtbl.tables_needed(mem, TRAMPOLINE as int) <= 2);
    }
    if mappages(&mut pgtbl, mem, kmem, TRAMPOLINE, trampoline, PGSIZE, PTE_X | PTE_R) < 0 {
        proof {
            assert(false);
        }
        return None;
    }
    let ghost pt1 = pgtbl;
    let ghost m2 = *mem;
    let ghost k2 = *kmem;
    let tf = p.trapframe.unwrap();
    proof {
        reveal(map_outcome);
        assert(pg_round_down_spec(TRAPFRAME + PGSIZE - 1) == TRAPFRAME);
        assert(pg_round_down_spec(TRAPFRAME as int) == TRAPFRAME);
        assert(map_result(TRAMPOLINE as int, TRAMPOLINE as int, trampoline as int, PTE_X | PTE_R, TRAPFRAME as int) is None);
        assert forall|v: int| TRAPFRAME <= v <= TRAPFRAME implies #[trigger] pgtbl.translate(mem, v) is None by {
            assert(map_result(TRAMPOLINE as int, TRAMPOLINE as int, trampoline as int, PTE_X | PTE_R, v) is None);
        }
        assert(TRAPFRAME as int / 0x4000_0000 == 255 && TRAMPOLINE as int / 0x4000_0000 == 255);
        assert(TRAPFRAME as int / 0x20_0000 == 131071 && TRAMPOLINE as int / 0x20_0000 == 131071);
        assert(va_indices(TRAPFRAME as int).0 == va_indices(TRAMPOLINE as int).0 && va_indices(TRAPFRAME as int).1
            == va_indices(TRAMPOLINE as int).1);
        assert(pgtbl.tables_needed(mem, TRAPFRAME as int) == 0);
    }
    if mappages(&mut pgtbl, mem, kmem, TRAPFRAME, tf, PGSIZE, PTE_R | PTE_W) < 0 {
        proof {
            assert(false);
        }
        return None;
    }
    proof {
        reveal(map_outcome);
        let u1 = k1@.len() - k2@.len();
        let u2 = k2@.len() - kmem@.len();
        lemma_took_trans(&pt0, &pt1, &pgtbl, &k1, &k2, kmem, u1, u2);
        lemma_took_facts(&pt1, &pgtbl, &k2, kmem, u2);
        lemma_changed_tables_trans(&pt1, &pgtbl, &m1, &m2, mem);
        let u = u1 + u2;
        lemma_took_facts(&pt0, &pgtbl, &k1, kmem, u);
        lemma_free_facts(&k0, &m0);
        let used = k0@.len() - kmem@.len();
        assert(used == u + 1);
        assert(kmem@ =~= k0@.skip(used));
        assert(pt0.owns(pgtbl.root));
        assert forall|t: u64| #[trigger] pgtbl.owns(t) implies k0@.take(used).contains(t) by {
            if t == pgtbl.root {
                assert(k0@.take(used)[0] == t);
            } else {
                assert(!pt0.owns(t));
                let i = k1@.take(u).index_of(t);
                assert(k0@.take(used)[i + 1] == t);
            }
        }
        assert(changed_within(&m0, mem, k0@.take(used))) by {
            reveal(changed_in_tables);
            assert forall|q: int| mem.contains(q, 1) && outside_pages(k0@.take(used), q) implies #[trigger] mem.byte(q)
                == m0.byte(q) by {
                assert(k0@.take(used)[0] == k0@[0]);
                assert(outside_pages(seq![k0@[0]], q));
                assert forall|t: u64| #[trigger] pgtbl.owns(t) implies !(t <= q < t + 4096) by {
                    if t != pgtbl.root {
                        let i = k1@.take(u).index_of(t);
                        assert(k0@.take(used)[i + 1] == t);
                    }
                }
            }
        }
        assert forall|v: int| 0 <= v < va_span() implies #[trigger] pgtbl.translate(mem, v) == proc_map(trampoline, tf, v) by {
            if pg_round_down_spec(v) == TRAMPOLINE {
                assert(map_result(TRAPFRAME as int, TRAPFRAME as int, tf as int, PTE_R | PTE_W, v) is None);
            } else if pg_round_down_spec(v) == TRAPFRAME {
            } else {
                assert(map_result(TRAPFRAME as int, TRAPFRAME as int, tf as int, PTE_R | PTE_W, v) is None);
                assert(map_result(TRAMPOLINE as int, TRAMPOLINE as int, trampoline as int, PTE_X | PTE_R, v) is None);
            }
        }
        assert(pgtbl.wf(mem));
        assert(pgtbl.apart_from_free(kmem));
        assert(kmem.wf(mem));
        assert(kmem.end == k0.end);
        assert(1 <= used <= 3);
        assert(pgtbl.root == k0@[0]);
    }
    Some(pgtbl)
}

/// The byte that user address `v` reads through `pt`, whose mappings are
/// those it has over `tm`, in memory `mem`.
pub open spec fn user_byte(pt: &PageTable, tm: &PhysMem, mem: &PhysMem, v: int) -> u8 {
    mem.byte(frame_of(pt, tm, v) + v % (PGSIZE as int))
}

/// Progress of loading an image of `sz` bytes from `src` into the pages
/// that `pt` maps (as it does over `m2`): the bytes below `a` are copied,
/// the others still zero, and only frames taken from `k1` changed.
#[verifier::opaque]
pub open spec fn load_progress(
    pt: &PageTable,
    mem: &PhysMem,
    kmem: &Kmem,
    m0: &PhysMem,
    m2: &PhysMem,
    taken: Seq<u64>,
    src: int,
    sz: int,
    a: int,
) -> bool {
    &&& pt.wf(mem)
    &&& pt.apart_from_free(kmem)
    &&& kmem.wf(mem)
    &&& forall|v: int| #[trigger] pt.translate(mem, v) == pt.translate(m2, v)
    &&& changed_within(m2, mem, taken)
    &&& forall|v: int| 0 <= v < sz && v < a ==> #[trigger] user_byte(pt, m2, mem, v) == m0.byte(src + v)
    &&& forall|v: int| (a <= v || sz <= v) && grown(0, sz, v) ==> #[trigger] user_byte(pt, m2, mem, v) == 0
}

/// The facts about the fresh pages that loading relies on.
pub open spec fn load_frames(pt: &PageTable, m2: &PhysMem, k1: &Kmem, k2: &Kmem, sz: int) -> bool {
    &&& forall|v: int| 0 <= v < va_span() && grown(0, sz, v) ==> #[trigger] fresh_user_page(pt, m2, k1, k2, v)
    &&& forall|v1: int, v2: int|
        0 <= v1 < va_span() && 0 <= v2 < va_span() && grown(0, sz, v1) && grown(0, sz, v2) && pg_round_down_spec(v1)
            != pg_round_down_spec(v2) ==> #[trigger] frame_of(pt, m2, v1) != #[trigger] frame_of(pt, m2, v2)
    &&& forall|i: int| 0 <= i < k1@.len() ==> #[trigger] k1@[i] % 4096 == 0 && m2.contains(k1@[i] as int, 4096)
    &&& forall|i: int, j: int| 0 <= i < j < k1@.len() ==> k1@[i] != k1@[j]
    &&& k2@ == k1@.skip(k1@.len() - k2@.len())
    &&& k1@.len() >= k2@.len()
}

/// Addresses in the same page map to the same frame.
proof fn lemma_same_frame(pt: &PageTable, mem: &PhysMem, v: int)
    requires
        0 <= v,
    ensures
        frame_of(pt, mem, v) == frame_of(pt, mem, pg_round_down_spec(v)),
        pt.translate(mem, v) == pt.translate(mem, pg_round_down_spec(v)),
{
    reveal(PageTable::translate);
    lemma_va_indices_round(v);
}

/// Copying page `a` of the image keeps loading on track.
#[verifier::rlimit(40)]
proof fn lemma_load_step(
    pt: &PageTable,
    mem: &PhysMem,
    m3: &PhysMem,
    kmem: &Kmem,
    m0: &PhysMem,
    m2: &PhysMem,
    k1: &Kmem,
    src: int,
    sz: int,
    a: int,
    n: int,
)
    requires
        load_progress(pt, mem, kmem, m0, m2, k1@.take(k1@.len() - kmem@.len()), src, sz, a),
        load_frames(pt, m2, k1, kmem, sz),
        0 <= a < sz,
        sz <= va_span(),
        a % 4096 == 0,
        n == if sz - a < 4096 { sz - a } else { 4096 },
        changed_only(mem, m3, frame_of(pt, m2, a) as int, n),
        forall|k: int| 0 <= k < n ==> #[trigger] m3.byte(frame_of(pt, m2, a) + k) == m0.byte(src + a + k),
    ensures
        load_progress(pt, m3, kmem, m0, m2, k1@.take(k1@.len() - kmem@.len()), src, sz, a + 4096),
{
    reveal(load_progress);
    let taken = k1@.take(k1@.len() - kmem@.len());
    let f = frame_of(pt, m2, a);
    assert(pg_round_down_spec(a) == a);
    assert(grown(0, sz, a));
    assert(fresh_user_page(pt, m2, k1, kmem, a));
    assert(f % 4096 == 0) by {
        let i = k1@.index_of(f);
        assert(k1@[i] == f);
    }
    assert(taken.contains(f)) by {
        let i = k1@.index_of(f);
        if i >= k1@.len() - kmem@.len() {
            assert(kmem@[i - (k1@.len() - kmem@.len())] == f);
        }
        assert(taken[i] == f);
    }
    lemma_part_page_change(mem, m3, f as int, n, f);
    assert forall|j: int| 0 <= j < seq![f].len() implies #[trigger] seq![f][j] % 4096 == 0 && !pt.owns(seq![f][j]) by {}
    lemma_pt_frame(pt, mem, m3, seq![f]);
    assert forall|j: int| 0 <= j < seq![f].len() implies #[trigger] seq![f][j] % 4096 == 0 && !kmem.is_free(seq![f][j]) by {}
    lemma_kmem_frame(kmem, mem, m3, seq![f]);
    assert(changed_within(m2, m3, taken)) by {
        assert forall|q: int| m3.contains(q, 1) && outside_pages(taken, q) implies #[trigger] m3.byte(q) == m2.byte(q) by {
            let i = taken.index_of(f);
            assert(!(taken[i] <= q < taken[i] + 4096));
        }
    }
    assert forall|v: int| 0 <= v < sz && v < a + 4096 implies #[trigger] user_byte(pt, m2, m3, v) == m0.byte(src + v) by {
        lemma_same_frame(pt, m2, v);
        if v < a {
            assert(pg_round_down_spec(v) != pg_round_down_spec(a));
            assert(grown(0, sz, v));
            assert(fresh_user_page(pt, m2, k1, kmem, v));
            let g = frame_of(pt, m2, v);
            assert(g != f);
            assert(g % 4096 == 0 && m2.contains(g as int, 4096)) by {
                let i = k1@.index_of(g);
                assert(k1@[i] == g);
            }
            assert(m3.contains(g + v % 4096, 1));
            assert(!(f <= g + v % 4096 < f + n));
            assert(user_byte(pt, m2, mem, v) == m0.byte(src + v));
        } else {
            assert(pg_round_down_spec(v) == a);
            assert(v % 4096 == v - a);
            assert(m3.byte(f + (v - a)) == m0.byte(src + a + (v - a)));
        }
    }
    assert forall|v: int| (a + 4096 <= v || sz <= v) && grown(0, sz, v) implies #[trigger] user_byte(pt, m2, m3, v) == 0 by {
        lemma_same_frame(pt, m2, v);
        assert(v < va_span());
        if pg_round_down_spec(v) == a {
            assert(v % 4096 == v - a);
            assert(v - a >= n);
            assert(m3.contains(f + v % 4096, 1));
            assert(user_byte(pt, m2, mem, v) == 0);
        } else {
            assert(fresh_user_page(pt, m2, k1, kmem, v));
            let g = frame_of(pt, m2, v);
            assert(g != f);
            assert(g % 4096 == 0 && m2.contains(g as int, 4096)) by {
                let i = k1@.index_of(g);
                assert(k1@[i] == g);
            }
            assert(m3.contains(g + v % 4096, 1));
            assert(!(f <= g + v % 4096 < f + n));
            assert(user_byte(pt, m2, mem, v) == 0);
        }
    }
}

/// Pages that loading an image of `sz` bytes takes from the allocator:
/// the three of a new process page table, and for the image a page each,
/// a level-0 table per 2 MiB block and a level-1 table per 1 GiB region
/// it touches.
pub open spec fn load_budget(sz: int) -> int {
    let last = pg_round_down_spec(sz - 1);
    if 0 < sz {
        3 + last / 4096 + 1 + last / 0x20_0000 + 1 + last / 0x4000_0000 + 1
    } else {
        3
    }
}

/// What loading an image into a new address space leaves: `pt` maps the
/// image's pages at 0 to fresh frames, pairwise distinct, holding the
/// image's bytes then zeros, and the trampoline and trap frame at the top.
pub open spec fn loaded(
    pt: &PageTable,
    mem: &PhysMem,
    k0: &Kmem,
    kmem: &Kmem,
    m0: &PhysMem,
    src: int,
    sz: int,
    trampoline: u64,
    tf: u64,
) -> bool {
    &&& forall|v: int| 0 <= v < va_span() ==> if grown(0, sz, v) {
        let f = frame_of(pt, mem, v);
        &&& #[trigger] pt.translate(mem, v) == Some(leaf_pte(f, USER_PERM))
        &&& k0.is_free(f)
        &&& !kmem.is_free(f)
        &&& !pt.owns(f)
    } else {
        pt.translate(mem, v) == proc_map(trampoline, tf, v)
    }
    &&& forall|v1: int, v2: int|
        0 <= v1 < va_span() && 0 <= v2 < va_span() && grown(0, sz, v1) && grown(0, sz, v2) && pg_round_down_spec(v1)
            != pg_round_down_spec(v2) ==> #[trigger] frame_of(pt, mem, v1) != #[trigger] frame_of(pt, mem, v2)
    &&& forall|v: int| 0 <= v < sz ==> #[trigger] user_byte(pt, mem, mem, v) == m0.byte(src + v)
    &&& forall|v: int| sz <= v && grown(0, sz, v) ==> #[trigger] user_byte(pt, mem, mem, v) == 0
}

/// Loads application `p`, whose image of `sz` bytes is at `src` in the
/// kernel: gives it a page table with the trampoline and its trap frame,
/// maps fresh user pages over `[0, sz)` and copies the image into them.
/// A failure to make the page table, or an image page left unmapped,
/// stops the kernel: so the allocator must hold enough (`load_budget`),
/// the image must end below the trap frame, and `p` must have a trap
/// frame. The image must lie off the free pages.
#[verifier::rlimit(60)]
pub fn myload_app(p: &mut Proc, mem: &mut PhysMem, kmem: &mut Kmem, src: u64, sz: u64, trampoline: u64)
    requires
        old(kmem).wf(old(mem)),
        old(kmem)@.len() >= load_budget(sz as int),
        old(p).trapframe is Some,
        sz <= TRAPFRAME,
        old(mem).contains(src as int, sz as int),
        forall|q: int| src <= q < src + sz ==> #[trigger] outside_pages(old(kmem)@, q),
    ensures
        final(p).pagetable is Some,
        *final(p) == (Proc { pagetable: final(p).pagetable, ..*old(p) }),
        ({
            let pt = final(p).pagetable->0;
            let used = old(kmem)@.len() - final(kmem)@.len();
            &&& pt.wf(final(mem))
            &&& pt.apart_from_free(final(kmem))
            &&& final(kmem).wf(final(mem))
            &&& final(kmem).end == old(kmem).end
            &&& 1 <= used <= load_budget(sz as int)
            &&& final(kmem)@ == old(kmem)@.skip(used)
            &&& pt.root == old(kmem)@[0]
            &&& pt.owns(pt.root)
            &&& forall|t: u64| #[trigger] pt.owns(t) ==> old(kmem)@.take(used).contains(t)
            &&& changed_within(old(mem), final(mem), old(kmem)@.take(used))
            &&& loaded(&pt, final(mem), old(kmem), final(kmem), old(mem), src as int, sz as int, trampoline,
                old(p).trapframe->0)
        }),
{
    let ghost m0 = *mem;
    let ghost k0 = *kmem;
    let ghost tf = p.trapframe->0;
    let opt = proc_pagetable(p, mem, kmem, trampoline);
    let mut pagetable = match opt {
        Some(pt) => pt,
        None => {
            proof {
                assert(false);
            }
            return;
        },
    };
    let ghost pt1 = pagetable;
    let ghost m1 = *mem;
    let ghost k1 = *kmem;
    let ghost u1 = k0@.len() - k1@.len();
    proof {
        lemma_free_facts(&k0, &m0);
        assert forall|v: int| grown(0, sz as int, v) implies #[trigger] pagetable.translate(mem, v) is None by {
            let pg = pg_round_down_spec(v);
            assert(pg < sz);
            assert(0 <= v < va_span()) by {
                assert(v < pg + 4096);
            }
        }
        assert(k1@.len() >= load_budget(sz as int) - 3);
        if 0 < sz {
            assert(pg_round_down_spec(sz - 1) <= MAXVA);
            assert(pagetable.tables_needed(mem, 0) <= 2);
            assert(pg_round_up_spec(0) == 0);
        }
        assert(crate::uvm::grow_need(&pagetable, mem, 0, sz as int) <= load_budget(sz as int) - 3);
    }
    let newsz = uvmalloc(&mut pagetable, mem, kmem, 0, sz);
    let ghost m2 = *mem;
    let ghost k2 = *kmem;
    let ghost u2 = k1@.len() - k2@.len();
    let ghost taken = k1@.take(u2);
    let ghost pt2 = pagetable;
    proof {
        lemma_free_facts(&k1, &m1);
        assert(load_frames(&pagetable, &m2, &k1, &k2, sz as int)) by {
            assert forall|v: int| 0 <= v < va_span() && grown(0, sz as int, v) implies #[trigger] fresh_user_page(
                &pagetable,
                &m2,
                &k1,
                &k2,
                v,
            ) by {}
        }
        // The image is untouched so far, and off every page taken.
        assert forall|q: int| src <= q < src + sz implies #[trigger] m2.byte(q) == m0.byte(q) && outside_pages(taken, q) by {
            assert(outside_pages(k0@, q));
            assert(outside_pages(k0@.take(u1), q)) by {
                assert forall|m: int| 0 <= m < k0@.take(u1).len() implies !(#[trigger] k0@.take(u1)[m] <= q
                    < k0@.take(u1)[m] + 4096) by {
                    assert(k0@.take(u1)[m] == k0@[m]);
                }
            }
            assert(m1.byte(q) == m0.byte(q));
            assert forall|m: int| 0 <= m < taken.len() implies !(#[trigger] taken[m] <= q < taken[m] + 4096) by {
                assert(taken[m] == k0@[u1 + m]);
            }
            assert forall|t: u64| #[trigger] pt1.owns(t) implies !(t <= q < t + 4096) by {
                let i = k0@.take(u1).index_of(t);
                assert(k0@.take(u1)[i] == t);
            }
        }
        reveal(load_progress);
        assert forall|v: int| (0 <= v || sz <= v) && grown(0, sz as int, v) implies #[trigger] user_byte(&pagetable, &m2, &m2, v) == 0 by {
            assert(v < va_span()) by {
                assert(v < pg_round_down_spec(v) + 4096);
            }
            assert(fresh_user_page(&pagetable, &m2, &k1, &k2, v));
            let f = frame_of(&pagetable, &m2, v);
            assert(f <= f + v % 4096 < f + PGSIZE);
        }
        assert(load_progress(&pagetable, mem, kmem, &m0, &m2, taken, src as int, sz as int, 0));
    }
    let mut a: u64 = 0;
    while a < sz
        invariant
            load_progress(&pagetable, mem, kmem, &m0, &m2, taken, src as int, sz as int, a as int),
            load_frames(&pagetable, &m2, &k1, kmem, sz as int),
            pagetable == pt2,
            *kmem == k2,
            taken == k1@.take(k1@.len() - kmem@.len()),
            a % PGSIZE == 0,
            sz <= TRAPFRAME,
            m2.contains(src as int, sz as int),
            forall|q: int| src <= q < src + sz ==> #[trigger] m2.byte(q) == m0.byte(q) && outside_pages(taken, q),
        decreases sz + PGSIZE - a,
    {
        let ghost m_a = *mem;
        proof {
            reveal(load_progress);
            reveal(PageTable::translate);
            lemma_user_perm();
            assert(pg_round_down_spec(a as int) == a);
            assert(grown(0, sz as int, a as int));
            assert(fresh_user_page(&pagetable, &m2, &k1, kmem, a as int));
            let f = frame_of(&pagetable, &m2, a as int);
            assert(k1.is_free(f));
            lemma_leaf_pte(f, USER_PERM);
            assert(pagetable.translate(mem, a as int) == Some(leaf_pte(f, USER_PERM)));
        }
        match pagetable.walkaddr(mem, kmem, a) {
            Some(pa) => {
                let n = if sz - a < PGSIZE { sz - a } else { PGSIZE };
                proof {
                    reveal(load_progress);
                    lemma_free_facts(kmem, mem);
                    let f = frame_of(&pagetable, &m2, a as int);
                    assert(pa == f);
                    let i = k1@.index_of(f);
                    assert(k1@[i] == f);
                    assert(m2.contains(f as int, 4096));
                    assert(mem.contains(pa as int, n as int));
                    assert(mem.contains(src + a, n as int));
                    assert(m2.byte(src + a) == m0.byte(src + a));
                    assert(m2.byte(src + a + n - 1) == m0.byte(src + a + n - 1));
                    assert(outside_pages(taken, src + a));
                    assert(outside_pages(taken, src + a + n - 1));
                    assert(taken.contains(f)) by {
                        if i >= taken.len() {
                            assert(kmem@[i - taken.len()] == f);
                        }
                        assert(taken[i] == f);
                    }
                    let j = taken.index_of(f);
                    assert(!(taken[j] <= src + a < taken[j] + 4096));
                    assert(!(taken[j] <= src + a + n - 1 < taken[j] + 4096));
                    assert forall|k: int| 0 <= k < n implies #[trigger] mem.byte(src + a + k) == m0.byte(src + a + k) by {
                        assert(m2.byte(src + a + k) == m0.byte(src + a + k));
                    }
                }
                memmove(mem, pa, src + a, n);
                proof {
                    lemma_load_step(&pagetable, &m_a, mem, kmem, &m0, &m2, &k1, src as int, sz as int, a as int, n as int);
                }
            },
            None => {
                proof {
                    assert(false);
                }
            },
        }
        a = a + PGSIZE;
    }
    proof {
        reveal(load_progress);
        let used = k0@.len() - kmem@.len();
        assert(used == u1 + u2);
        assert(kmem@ =~= k0@.skip(used));
        assert forall|t: u64| #[trigger] pagetable.owns(t) implies k0@.take(used).contains(t) by {
            if pt1.owns(t) {
                let i = k0@.take(u1).index_of(t);
                assert(k0@.take(used)[i] == t);
            } else {
                let i = taken.index_of(t);
                assert(taken[i] == t);
                assert(k0@.take(used)[u1 + i] == t);
                assert(k0@[u1 + i] == t);
            }
        }
        assert(changed_within(&m0, mem, k0@.take(used))) by {
            assert forall|q: int| mem.contains(q, 1) && outside_pages(k0@.take(used), q) implies #[trigger] mem.byte(q)
                == m0.byte(q) by {
                assert forall|m: int| 0 <= m < taken.len() implies !(#[trigger] taken[m] <= q < taken[m] + 4096) by {
                    assert(k0@.take(used)[u1 + m] == taken[m]);
                }
                assert forall|m: int| 0 <= m < k0@.take(u1).len() implies !(#[trigger] k0@.take(u1)[m] <= q
                    < k0@.take(u1)[m] + 4096) by {
                    assert(k0@.take(used)[m] == k0@.take(u1)[m]);
                }
                assert forall|t: u64| #[trigger] pt1.owns(t) implies !(t <= q < t + 4096) by {
                    let i = k0@.take(u1).index_of(t);
                    assert(k0@.take(u1)[i] == t);
                }
                assert(m1.byte(q) == m0.byte(q));
                assert(m2.byte(q) == m1.byte(q));
            }
        }
        assert forall|v: int| #[trigger] frame_of(&pagetable, mem, v) == frame_of(&pagetable, &m2, v) by {}
        assert forall|v: int| 0 <= v < va_span() implies if grown(0, sz as int, v) {
            let f = frame_of(&pagetable, mem, v);
            &&& #[trigger] pagetable.translate(mem, v) == Some(leaf_pte(f, USER_PERM))
            &&& k0.is_free(f)
            &&& !kmem.is_free(f)
            &&& !pagetable.owns(f)
        } else {
            pagetable.translate(mem, v) == proc_map(trampoline, tf, v)
        } by {
            if grown(0, sz as int, v) {
                assert(fresh_user_page(&pagetable, &m2, &k1, kmem, v));
                let f = frame_of(&pagetable, &m2, v);
                assert(k0.is_free(f)) by {
                    let i = k1@.index_of(f);
                    assert(k0@[u1 + i] == f);
                }
            }
        }
        assert forall|v: int| 0 <= v < sz implies #[trigger] user_byte(&pagetable, mem, mem, v) == m0.byte(src + v) by {
            assert(user_byte(&pagetable, &m2, mem, v) == m0.byte(src + v));
        }
        assert forall|v: int| sz <= v && grown(0, sz as int, v) implies #[trigger] user_byte(&pagetable, mem, mem, v) == 0 by {
            assert(user_byte(&pagetable, &m2, mem, v) == 0);
        }
        assert(pagetable.wf(mem));
        assert(pagetable.apart_from_free(kmem));
        assert(kmem.wf(mem));
        assert(kmem.end == k0.end);
        assert(pagetable.root == k0@[0]);
        assert(pagetable.owns(pagetable.root));
        assert(loaded(&pagetable, mem, &k0, kmem, &m0, src as int, sz as int, trampoline, tf));
    }
    p.pagetable = Some(pagetable);
}

/// Start address of application `i` in the table at `table`: the word
/// after the count, then one per application and one for the end.
pub open spec fn app_start(mem: &PhysMem, table: u64, i: int) -> int {
    mem.word(table + 8 * (i + 1)) as int
}

/// Size of the image of application `i`.
pub open spec fn app_size(mem: &PhysMem, table: u64, i: int) -> int {
    app_start(mem, table, i + 1) - app_start(mem, table, i)
}

/// Number of applications in the table at `table`.
pub open spec fn num_apps(mem: &PhysMem, table: u64) -> int {
    mem.word(table as int) as int
}

/// The application table at `table` is sound: at most `NPROC`
/// applications, start addresses in order, each image in memory, below
/// the trap frame in size, and the table and images off the free pages.
pub open spec fn apps_ok(mem: &PhysMem, kmem: &Kmem, table: u64) -> bool {
    let n = num_apps(mem, table);
    &&& n <= NPROC
    &&& mem.contains(table as int, 8 * (n + 2))
    &&& forall|q: int| table <= q < table + 8 * (n + 2) ==> #[trigger] outside_pages(kmem@, q)
    &&& forall|i: int| 0 <= i < n ==> {
        &&& 0 <= #[trigger] app_size(mem, table, i) <= TRAPFRAME
        &&& mem.contains(app_start(mem, table, i), app_size(mem, table, i))
        &&& forall|q: int| app_start(mem, table, i) <= q < app_start(mem, table, i) + app_size(mem, table, i)
            ==> #[trigger] outside_pages(kmem@, q)
    }
}

/// Pages that loading applications `i` to `n - 1` may take.
pub open spec fn apps_budget(mem: &PhysMem, table: u64, i: int, n: int) -> int
    decreases n - i,
{
    if i >= n {
        0
    } else {
        load_budget(app_size(mem, table, i)) + apps_budget(mem, table, i + 1, n)
    }
}

/// The pages that loading takes are never negative in number.
proof fn lemma_apps_budget_nonneg(mem: &PhysMem, table: u64, i: int, n: int)
    ensures
        apps_budget(mem, table, i, n) >= 0,
    decreases n - i,
{
    if i < n {
        lemma_apps_budget_nonneg(mem, table, i + 1, n);
    }
}

/// Pages that loading an image of `sz` bytes takes (`load_budget`).
pub fn load_pages(sz: u64) -> (r: u64)
    requires
        sz <= TRAPFRAME,
    ensures
        r == load_budget(sz as int),
{
    if sz == 0 {
        return 3;
    }
    let last = pg_round_down(sz - 1);
    3 + last / 4096 + 1 + last / 0x20_0000 + 1 + last / 0x4000_0000 + 1
}

/// Pages that `procinit` takes for the applications in the table at
/// `table`: a trap frame for each, and what loading each image takes.
pub fn procinit_pages(mem: &PhysMem, table: u64) -> (r: u64)
    requires
        mem.wf(),
        num_apps(mem, table) <= NPROC,
        mem.contains(table as int, 8 * (num_apps(mem, table) + 2)),
        forall|i: int| 0 <= i < num_apps(mem, table) ==> 0 <= #[trigger] app_size(mem, table, i) <= TRAPFRAME,
    ensures
        r == num_apps(mem, table) + apps_budget(mem, table, 0, num_apps(mem, table)),
{
    let n = get_num_app(mem, table);
    let mut acc: u64 = 0;
    let mut j: u64 = n;
    while j > 0
        invariant
            j <= n <= NPROC,
            mem.wf(),
            n == num_apps(mem, table),
            mem.contains(table as int, 8 * (n + 2)),
            forall|i: int| 0 <= i < n ==> 0 <= #[trigger] app_size(mem, table, i) <= TRAPFRAME,
            acc == apps_budget(mem, table, j as int, n as int),
            acc <= (n - j) * 0x400_0000_0000,
        decreases j,
    {
        let start = mem.read_word(table + 8 * j);
        let end = mem.read_word(table + 8 * (j + 1));
        proof {
            assert(0 <= app_size(mem, table, j - 1) <= TRAPFRAME);
        }
        let b = load_pages(end - start);
        proof {
            assert(b <= 0x400_0000_0000) by {
                let sz = end - start;
                let last = pg_round_down_spec(sz - 1);
                assert(last <= TRAPFRAME);
            }
        }
        acc = acc + b;
        j = j - 1;
    }
    proof {
        lemma_apps_budget_nonneg(mem, table, 0, n as int);
    }
    acc + n
}

/// Process `p` holds a loaded application: its page table is sound, off
/// the free list, its root and tables taken from `k0`, and it maps the
/// image of `sz` bytes from `src` (as `m0` holds it) at 0.
pub open spec fn app_image(p: &Proc, mem: &PhysMem, k0: &Kmem, kmem: &Kmem, m0: &PhysMem, src: int, sz: int, trampoline: u64) -> bool {
    &&& p.pagetable is Some
    &&& p.trapframe is Some
    &&& p.pagetable->0.wf(mem)
    &&& p.pagetable->0.apart_from_free(kmem)
    &&& k0.is_free(p.pagetable->0.root)
    &&& !kmem.is_free(p.pagetable->0.root)
    &&& p.pagetable->0.owns(p.pagetable->0.root)
    &&& forall|t: u64| #[trigger] p.pagetable->0.owns(t) ==> k0.is_free(t)
    &&& loaded(&p.pagetable->0, mem, k0, kmem, m0, src, sz, trampoline, p.trapframe->0)
}

/// The pages that process `p`, of image size `sz`, holds: its page-table
/// pages and the frames of its image.
pub open spec fn footprint(p: &Proc, mem: &PhysMem, sz: int, t: u64) -> bool {
    let pt = p.pagetable->0;
    ||| pt.owns(t)
    ||| t == pt.root
    ||| exists|v: int| 0 <= v < va_span() && grown(0, sz, v) && #[trigger] frame_of(&pt, mem, v) == t
}

/// A loaded process keeps its image when memory changes only in pages
/// that were free, and the free list shrinks.
proof fn lemma_app_frame(
    p: &Proc,
    m: &PhysMem,
    m2: &PhysMem,
    k: &Kmem,
    k2: &Kmem,
    k0: &Kmem,
    m0: &PhysMem,
    src: int,
    sz: int,
    trampoline: u64,
    pages: Seq<u64>,
    d: int,
)
    requires
        app_image(p, m, k0, k, m0, src, sz, trampoline),
        changed_within(m, m2, pages),
        forall|x: int| 0 <= x < pages.len() ==> #[trigger] pages[x] % 4096 == 0 && k.is_free(pages[x]),
        forall|x: int| 0 <= x < k0@.len() ==> #[trigger] k0@[x] % 4096 == 0 && m.contains(k0@[x] as int, 4096),
        0 <= d <= k@.len(),
        k2@ == k@.skip(d),
        0 <= sz <= TRAPFRAME,
    ensures
        app_image(p, m2, k0, k2, m0, src, sz, trampoline),
        forall|t: u64| #[trigger] footprint(p, m2, sz, t) == footprint(p, m, sz, t),
{
    let pt = p.pagetable->0;
    reveal(PageTable::apart_from_free);
    assert forall|x: int| 0 <= x < pages.len() implies #[trigger] pages[x] % 4096 == 0 && !pt.owns(pages[x]) by {
        assert(k.is_free(pages[x]));
    }
    lemma_pt_frame(&pt, m, m2, pages);
    assert forall|t: u64| !k.is_free(t) implies !k2.is_free(t) by {
        if k2@.contains(t) {
            let x = k2@.index_of(t);
            assert(k@[x + d] == t);
        }
    }
    assert forall|v: int| #[trigger] frame_of(&pt, m2, v) == frame_of(&pt, m, v) by {}
    assert forall|v: int| 0 <= v < sz implies #[trigger] user_byte(&pt, m2, m2, v) == m0.byte(src + v) by {
        assert(user_byte(&pt, m, m, v) == m0.byte(src + v));
        assert(v < va_span());
        assert(grown(0, sz, v));
        let f = frame_of(&pt, m, v);
        assert(k0.is_free(f) && !k.is_free(f));
        assert(f % 4096 == 0 && m.contains(f as int, 4096)) by {
            let x = k0@.index_of(f);
        }
        assert forall|x: int| 0 <= x < pages.len() implies !(#[trigger] pages[x] <= f + v % 4096 < pages[x] + 4096) by {
            assert(pages[x] != f);
        }
    }
    assert forall|v: int| sz <= v && grown(0, sz, v) implies #[trigger] user_byte(&pt, m2, m2, v) == 0 by {
        assert(user_byte(&pt, m, m, v) == 0);
        assert(v < va_span()) by {
            assert(v < pg_round_down_spec(v) + 4096);
        }
        let f = frame_of(&pt, m, v);
        assert(k0.is_free(f) && !k.is_free(f));
        assert(f % 4096 == 0 && m.contains(f as int, 4096)) by {
            let x = k0@.index_of(f);
        }
        assert forall|x: int| 0 <= x < pages.len() implies !(#[trigger] pages[x] <= f + v % 4096 < pages[x] + 4096) by {
            assert(pages[x] != f);
        }
    }
    assert forall|t: u64| #[trigger] footprint(p, m2, sz, t) == footprint(p, m, sz, t) by {
        if footprint(p, m, sz, t) && !pt.owns(t) && t != pt.root {
            let v = choose|v: int| 0 <= v < va_span() && grown(0, sz, v) && #[trigger] frame_of(&pt, m, v) == t;
            assert(frame_of(&pt, m2, v) == t);
        }
        if footprint(p, m2, sz, t) && !pt.owns(t) && t != pt.root {
            let v = choose|v: int| 0 <= v < va_span() && grown(0, sz, v) && #[trigger] frame_of(&pt, m2, v) == t;
            assert(frame_of(&pt, m, v) == t);
        }
    }
}

/// What `myload_app` promises, against the allocator and memory before all
/// the loads.
proof fn lemma_loaded_rebase(
    pt: &PageTable,
    mem: &PhysMem,
    kb: &Kmem,
    ka: &Kmem,
    mb: &PhysMem,
    k0: &Kmem,
    m0: &PhysMem,
    src: int,
    sz: int,
    trampoline: u64,
    tf: u64,
    d: int,
)
    requires
        loaded(pt, mem, kb, ka, mb, src, sz, trampoline, tf),
        0 <= d <= k0@.len(),
        kb@ == k0@.skip(d),
        forall|q: int| src <= q < src + sz ==> #[trigger] mb.byte(q) == m0.byte(q),
    ensures
        loaded(pt, mem, k0, ka, m0, src, sz, trampoline, tf),
        forall|t: u64| kb.is_free(t) ==> #[trigger] k0.is_free(t),
{
    assert forall|t: u64| kb.is_free(t) implies #[trigger] k0.is_free(t) by {
        let x = kb@.index_of(t);
        assert(k0@[x + d] == t);
    }
    assert forall|v: int| 0 <= v < sz implies #[trigger] user_byte(pt, mem, mem, v) == m0.byte(src + v) by {
        assert(mb.byte(src + v) == m0.byte(src + v));
    }
}

/// Progress of `load_apps` once applications below `i` are loaded.
#[verifier::opaque]
pub open spec fn apps_progress(
    procs: Seq<Proc>,
    procs0: Seq<Proc>,
    mem: &PhysMem,
    kmem: &Kmem,
    m0: &PhysMem,
    k0: &Kmem,
    table: u64,
    trampoline: u64,
    i: int,
) -> bool {
    let used = k0@.len() - kmem@.len();
    &&& kmem.wf(mem)
    &&& kmem.end == k0.end
    &&& 0 <= used <= k0@.len()
    &&& kmem@ == k0@.skip(used)
    &&& changed_within(m0, mem, k0@.take(used))
    &&& procs.len() == procs0.len()
    &&& forall|j: int| i <= j < procs.len() ==> #[trigger] procs[j] == procs0[j]
    &&& forall|j: int| 0 <= j < i ==> #[trigger] procs[j] == (Proc { pagetable: procs[j].pagetable, ..procs0[j] })
        && app_image(&procs[j], mem, k0, kmem, m0, app_start(m0, table, j), app_size(m0, table, j), trampoline)
    &&& forall|j1: int, j2: int, t: u64|
        0 <= j1 < j2 < i ==> !(#[trigger] footprint(&procs[j1], mem, app_size(m0, table, j1), t) && #[trigger] footprint(
            &procs[j2],
            mem,
            app_size(m0, table, j2),
            t,
        ))
    &&& kmem@.len() >= apps_budget(m0, table, i, num_apps(m0, table))
}

/// Loading application `i` keeps the others, and its image is apart from
/// theirs.
#[verifier::spinoff_prover]
#[verifier::rlimit(80)]
proof fn lemma_apps_step(
    procs1: Seq<Proc>,
    m1: &PhysMem,
    k1: &Kmem,
    procs: Seq<Proc>,
    mem: &PhysMem,
    kmem: &Kmem,
    procs0: Seq<Proc>,
    m0: &PhysMem,
    k0: &Kmem,
    table: u64,
    trampoline: u64,
    i: int,
)
    requires
        apps_progress(procs1, procs0, m1, k1, m0, k0, table, trampoline, i),
        k0.wf(m0),
        apps_ok(m0, k0, table),
        0 <= i < num_apps(m0, table),
        i < procs1.len(),
        procs.len() == procs1.len(),
        forall|j: int| 0 <= j < procs.len() && j != i ==> #[trigger] procs[j] == procs1[j],
        procs1[i] == procs0[i],
        procs1[i].trapframe is Some,
        ({
            let pt = procs[i].pagetable->0;
            let used = k1@.len() - kmem@.len();
            let src = app_start(m0, table, i);
            let sz = app_size(m0, table, i);
            &&& procs[i].pagetable is Some
            &&& procs[i] == (Proc { pagetable: procs[i].pagetable, ..procs1[i] })
            &&& pt.wf(mem)
            &&& pt.apart_from_free(kmem)
            &&& kmem.wf(mem)
            &&& kmem.end == k1.end
            &&& 1 <= used <= load_budget(sz)
            &&& kmem@ == k1@.skip(used)
            &&& pt.root == k1@[0]
            &&& pt.owns(pt.root)
            &&& forall|t: u64| #[trigger] pt.owns(t) ==> k1@.take(used).contains(t)
            &&& changed_within(m1, mem, k1@.take(used))
            &&& loaded(&pt, mem, k1, kmem, m1, src, sz, trampoline, procs1[i].trapframe->0)
        }),
    ensures
        apps_progress(procs, procs0, mem, kmem, m0, k0, table, trampoline, i + 1),
{
    reveal(apps_progress);
    let used1 = k0@.len() - k1@.len();
    let u = k1@.len() - kmem@.len();
    let used = k0@.len() - kmem@.len();
    let src = app_start(m0, table, i);
    let sz = app_size(m0, table, i);
    let pt = procs[i].pagetable->0;
    lemma_free_facts(k0, m0);
    lemma_free_facts(k1, m1);
    assert(kmem@ =~= k0@.skip(used));
    // Memory changed only in the pages taken so far.
    assert(changed_within(m0, mem, k0@.take(used))) by {
        assert forall|q: int| mem.contains(q, 1) && outside_pages(k0@.take(used), q) implies #[trigger] mem.byte(q)
            == m0.byte(q) by {
            assert forall|m: int| 0 <= m < k1@.take(u).len() implies !(#[trigger] k1@.take(u)[m] <= q < k1@.take(u)[m]
                + 4096) by {
                assert(k0@.take(used)[used1 + m] == k1@.take(u)[m]);
            }
            assert forall|m: int| 0 <= m < k0@.take(used1).len() implies !(#[trigger] k0@.take(used1)[m] <= q
                < k0@.take(used1)[m] + 4096) by {
                assert(k0@.take(used)[m] == k0@.take(used1)[m]);
            }
            assert(m1.byte(q) == m0.byte(q));
        }
    }
    // The image was untouched before this load.
    assert forall|q: int| src <= q < src + sz implies #[trigger] m1.byte(q) == m0.byte(q) by {
        assert(app_size(m0, table, i) == sz);
        assert(outside_pages(k0@, q));
        assert forall|m: int| 0 <= m < k0@.take(used1).len() implies !(#[trigger] k0@.take(used1)[m] <= q
            < k0@.take(used1)[m] + 4096) by {
            assert(k0@.take(used1)[m] == k0@[m]);
        }
    }
    lemma_loaded_rebase(&pt, mem, k1, kmem, m1, k0, m0, src, sz, trampoline, procs1[i].trapframe->0, used1);
    assert(!kmem.is_free(pt.root)) by {
        if kmem@.contains(pt.root) {
            let x = kmem@.index_of(pt.root);
            assert(k1@[x + u] == pt.root);
        }
    }
    assert(k0.is_free(pt.root)) by {
        assert(k0@[used1] == pt.root);
    }
    assert forall|t: u64| #[trigger] pt.owns(t) implies k0.is_free(t) by {
        let x = k1@.take(u).index_of(t);
        assert(k0@[used1 + x] == t);
    }
    assert(app_image(&procs[i], mem, k0, kmem, m0, src, sz, trampoline));
    // The images loaded before stay, with their footprints.
    assert forall|x: int| 0 <= x < k1@.take(u).len() implies #[trigger] k1@.take(u)[x] % 4096 == 0 && k1.is_free(
        k1@.take(u)[x],
    ) by {
        assert(k1@.take(u)[x] == k1@[x]);
    }
    assert forall|x: int| 0 <= x < k0@.len() implies #[trigger] k0@[x] % 4096 == 0 && m1.contains(k0@[x] as int, 4096) by {}
    assert forall|j: int| 0 <= j < i implies #[trigger] procs[j] == (Proc { pagetable: procs[j].pagetable, ..procs0[j] })
        && app_image(&procs[j], mem, k0, kmem, m0, app_start(m0, table, j), app_size(m0, table, j), trampoline) by {
        assert(procs[j] == procs1[j]);
        assert(app_size(m0, table, j) <= TRAPFRAME);
        lemma_app_frame(&procs1[j], m1, mem, k1, kmem, k0, m0, app_start(m0, table, j), app_size(m0, table, j),
            trampoline, k1@.take(u), u);
    }
    // The new image is apart from the others: its pages were free before
    // it, theirs were not.
    assert forall|t: u64| #[trigger] footprint(&procs[i], mem, sz, t) implies k1.is_free(t) by {
        if pt.owns(t) {
            let x = k1@.take(u).index_of(t);
            assert(k1@[x] == t);
        } else if t == pt.root {
            assert(k1@[0] == t);
        } else {
            let v = choose|v: int| 0 <= v < va_span() && grown(0, sz, v) && #[trigger] frame_of(&pt, mem, v) == t;
            assert(loaded(&pt, mem, k1, kmem, m1, src, sz, trampoline, procs1[i].trapframe->0));
        }
    }
    assert forall|j: int, t: u64| 0 <= j < i && #[trigger] footprint(&procs1[j], m1, app_size(m0, table, j), t)
        implies !k1.is_free(t) by {
        let q = procs1[j];
        let ptj = q.pagetable->0;
        assert(app_image(&q, m1, k0, k1, m0, app_start(m0, table, j), app_size(m0, table, j), trampoline));
        reveal(PageTable::apart_from_free);
        if !ptj.owns(t) && t != ptj.root {
            let v = choose|v: int| 0 <= v < va_span() && grown(0, app_size(m0, table, j), v) && #[trigger] frame_of(
                &ptj,
                m1,
                v,
            ) == t;
        }
    }
    assert forall|j1: int, j2: int, t: u64|
        0 <= j1 < j2 < i + 1 implies !(#[trigger] footprint(&procs[j1], mem, app_size(m0, table, j1), t) && #[trigger] footprint(
        &procs[j2],
        mem,
        app_size(m0, table, j2),
        t,
    )) by {
        assert(app_size(m0, table, j1) <= TRAPFRAME);
        lemma_app_frame(&procs1[j1], m1, mem, k1, kmem, k0, m0, app_start(m0, table, j1), app_size(m0, table, j1),
            trampoline, k1@.take(u), u);
        assert(footprint(&procs[j1], mem, app_size(m0, table, j1), t) == footprint(&procs1[j1], m1, app_size(m0, table, j1), t));
        if j2 < i {
            assert(app_size(m0, table, j2) <= TRAPFRAME);
            lemma_app_frame(&procs1[j2], m1, mem, k1, kmem, k0, m0, app_start(m0, table, j2), app_size(m0, table, j2),
                trampoline, k1@.take(u), u);
            assert(footprint(&procs[j2], mem, app_size(m0, table, j2), t) == footprint(&procs1[j2], m1, app_size(m0, table, j2), t));
        }
    }
    assert(apps_budget(m0, table, i, num_apps(m0, table)) == load_budget(sz) + apps_budget(m0, table, i + 1, num_apps(m0, table)));
}

/// Loads each application of the table at `table` into the process of the
/// same slot: a page table of its own, with the trampoline, its trap frame
/// and its image at 0 (see `myload_app`). The images end up apart from
/// one another.
pub fn load_apps(procs: &mut Vec<Proc>, mem: &mut PhysMem, kmem: &mut Kmem, table: u64, trampoline: u64)
    requires
        old(kmem).wf(old(mem)),
        apps_ok(old(mem), old(kmem), table),
        num_apps(old(mem), table) <= old(procs)@.len(),
        old(kmem)@.len() >= apps_budget(old(mem), table, 0, num_apps(old(mem), table)),
        forall|j: int| 0 <= j < num_apps(old(mem), table) ==> (#[trigger] old(procs)@[j]).trapframe is Some,
    ensures
        apps_progress(final(procs)@, old(procs)@, final(mem), final(kmem), old(mem), old(kmem), table, trampoline,
            num_apps(old(mem), table)),
{
    let ghost procs0 = procs@;
    let ghost m0 = *mem;
    let ghost k0 = *kmem;
    let num_app = get_num_app(mem, table);
    proof {
        reveal(apps_progress);
        lemma_free_facts(&k0, &m0);
        assert(k0@.skip(0) =~= k0@);
        assert(k0@.take(0) =~= Seq::<u64>::empty());
        assert(changed_within(&m0, &m0, k0@.take(0)));
    }
    let mut i: u64 = 0;
    while i < num_app
        invariant
            apps_progress(procs@, procs0, mem, kmem, &m0, &k0, table, trampoline, i as int),
            num_app == num_apps(&m0, table),
            i <= num_app,
            num_app <= procs0.len(),
            k0.wf(&m0),
            apps_ok(&m0, &k0, table),
            forall|j: int| 0 <= j < num_app ==> (#[trigger] procs0[j]).trapframe is Some,
        decreases num_app - i,
    {
        let ghost procs1 = procs@;
        let ghost m1 = *mem;
        let ghost k1 = *kmem;
        proof {
            reveal(apps_progress);
            lemma_free_facts(&k0, &m0);
            let used1 = k0@.len() - k1@.len();
            // The table and the image are as they were, and off the free pages.
            assert forall|q: int| table <= q < table + 8 * (num_app + 2) implies #[trigger] m1.byte(q) == m0.byte(q) by {
                assert(outside_pages(k0@, q));
                assert forall|m: int| 0 <= m < k0@.take(used1).len() implies !(#[trigger] k0@.take(used1)[m] <= q
                    < k0@.take(used1)[m] + 4096) by {
                    assert(k0@.take(used1)[m] == k0@[m]);
                }
            }
            crate::memory::lemma_word_same(&m1, &m0, table + 8 * (i + 1));
            crate::memory::lemma_word_same(&m1, &m0, table + 8 * (i + 2));
            assert(app_size(&m0, table, i as int) <= TRAPFRAME);
            let src = app_start(&m0, table, i as int);
            let sz = app_size(&m0, table, i as int);
            assert forall|q: int| src <= q < src + sz implies #[trigger] outside_pages(k1@, q) by {
                assert(outside_pages(k0@, q));
                assert forall|m: int| 0 <= m < k1@.len() implies !(#[trigger] k1@[m] <= q < k1@[m] + 4096) by {
                    assert(k0@[used1 + m] == k1@[m]);
                }
            }
            assert(apps_budget(&m0, table, i as int, num_app as int) == load_budget(sz) + apps_budget(&m0, table,
                i + 1, num_app as int));
            lemma_apps_budget_nonneg(&m0, table, i + 1, num_app as int);
        }
        let start = mem.read_word(table + 8 * (i + 1));
        let end = mem.read_word(table + 8 * (i + 2));
        myload_app(&mut procs[i as usize], mem, kmem, start, end - start, trampoline);
        proof {
            lemma_apps_step(procs1, &m1, &k1, procs@, mem, kmem, procs0, &m0, &k0, table, trampoline, i as int);
        }
        i = i + 1;
    }
}

/// Memory that changed only within pages off the table and images keeps
/// the table as it was, and everything that depends on it.
proof fn lemma_table_same(m0: &PhysMem, m1: &PhysMem, k0: &Kmem, k1: &Kmem, table: u64, pages: Seq<u64>)
    requires
        apps_ok(m0, k0, table),
        changed_within(m0, m1, pages),
        forall|x: int| 0 <= x < pages.len() ==> #[trigger] k0.is_free(pages[x]),
        forall|t: u64| k1.is_free(t) ==> #[trigger] k0.is_free(t),
    ensures
        num_apps(m1, table) == num_apps(m0, table),
        forall|i: int| 0 <= i <= num_apps(m0, table) ==> #[trigger] app_start(m1, table, i) == app_start(m0, table, i),
        forall|i: int| 0 <= i < num_apps(m0, table) ==> #[trigger] app_size(m1, table, i) == app_size(m0, table, i),
        forall|i: int, q: int|
            #![trigger app_size(m0, table, i), m1.byte(q)]
            0 <= i < num_apps(m0, table) && app_start(m0, table, i) <= q < app_start(m0, table, i) + app_size(m0, table, i)
                ==> m1.byte(q) == m0.byte(q),
        apps_ok(m1, k1, table),
        apps_budget(m1, table, 0, num_apps(m0, table)) == apps_budget(m0, table, 0, num_apps(m0, table)),
{
    let n = num_apps(m0, table);
    assert forall|q: int| table <= q < table + 8 * (n + 2) implies #[trigger] m1.byte(q) == m0.byte(q) by {
        assert(outside_pages(k0@, q));
        assert forall|x: int| 0 <= x < pages.len() implies !(#[trigger] pages[x] <= q < pages[x] + 4096) by {
            assert(k0.is_free(pages[x]));
            let y = k0@.index_of(pages[x]);
            assert(k0@[y] == pages[x]);
        }
    }
    lemma_word_same(m1, m0, table as int);
    assert forall|i: int| 0 <= i <= n implies #[trigger] app_start(m1, table, i) == app_start(m0, table, i) by {
        lemma_word_same(m1, m0, table + 8 * (i + 1));
    }
    assert forall|i: int, q: int|
        #![trigger app_size(m0, table, i), m1.byte(q)]
        0 <= i < n && app_start(m0, table, i) <= q < app_start(m0, table, i) + app_size(m0, table, i)
            implies m1.byte(q) == m0.byte(q) by {
        assert(app_size(m0, table, i) >= 0);
        assert(outside_pages(k0@, q));
        assert forall|x: int| 0 <= x < pages.len() implies !(#[trigger] pages[x] <= q < pages[x] + 4096) by {
            assert(k0.is_free(pages[x]));
            let y = k0@.index_of(pages[x]);
            assert(k0@[y] == pages[x]);
        }
    }
    assert forall|q: int| #[trigger] outside_pages(k0@, q) implies outside_pages(k1@, q) by {
        assert forall|x: int| 0 <= x < k1@.len() implies !(#[trigger] k1@[x] <= q < k1@[x] + 4096) by {
            let t = k1@[x];
            assert(k1@.contains(t));
            assert(k0.is_free(t));
            let y = k0@.index_of(t);
            assert(k0@[y] == t);
        }
    }
    assert forall|i: int| 0 <= i < n implies #[trigger] app_size(m1, table, i) == app_size(m0, table, i) by {
        assert(app_start(m1, table, i) == app_start(m0, table, i));
        assert(app_start(m1, table, i + 1) == app_start(m0, table, i + 1));
    }
    lemma_apps_budget_same(m0, m1, table, 0, n);
    assert forall|q: int| table <= q < table + 8 * (n + 2) implies #[trigger] outside_pages(k1@, q) by {
        assert(outside_pages(k0@, q));
    }
    assert forall|i: int| 0 <= i < n implies {
        &&& 0 <= #[trigger] app_size(m1, table, i) <= TRAPFRAME
        &&& m1.contains(app_start(m1, table, i), app_size(m1, table, i))
        &&& forall|q: int| app_start(m1, table, i) <= q < app_start(m1, table, i) + app_size(m1, table, i)
            ==> #[trigger] outside_pages(k1@, q)
    } by {
        assert(app_size(m0, table, i) >= 0);
        assert(app_start(m1, table, i) == app_start(m0, table, i));
        assert forall|q: int| app_start(m1, table, i) <= q < app_start(m1, table, i) + app_size(m1, table, i)
            implies #[trigger] outside_pages(k1@, q) by {
            assert(outside_pages(k0@, q));
        }
    }
}

/// The budget depends on the sizes alone.
proof fn lemma_apps_budget_same(m0: &PhysMem, m1: &PhysMem, table: u64, i: int, n: int)
    requires
        0 <= i,
        forall|j: int| 0 <= j < n ==> #[trigger] app_size(m1, table, j) == app_size(m0, table, j),
    ensures
        apps_budget(m1, table, i, n) == apps_budget(m0, table, i, n),
    decreases n - i,
{
    if i < n {
        lemma_apps_budget_same(m0, m1, table, i + 1, n);
    }
}

/// Slot `j` as `procinit` leaves it, given what it was (`p0`): ready to
/// run `usertrapret` (at `usertrapret`) on its kernel stack, with its trap
/// frame at `tf` and its own page table.
pub open spec fn proc_inited(p: &Proc, p0: &Proc, j: int, usertrapret: u64, tf: u64) -> bool {
    *p == (Proc {
        context: Context { ra: usertrapret, ..p0.context },
        state: ProcState::UNUSED,
        kstack: slot_kstack(j) as u64,
        pid: j as i64,
        trapframe: Some(tf),
        pagetable: p.pagetable,
        ..*p0
    })
}

/// Sets up a process for each application of the table at `table`: its
/// slot gets its kernel stack, its pid, a context that returns to user
/// mode through `usertrapret`, and a cleared trap-frame page, the first
/// free pages in order; the hart runs slot 0; then each application is
/// loaded (`load_apps`). The allocator must hold a page for each trap
/// frame and what the loads take: the kernel stops otherwise.
#[verifier::rlimit(80)]
pub fn procinit(
    procs: &mut Vec<Proc>,
    cpus: &mut Vec<CPU>,
    hart: &Hart,
    mem: &mut PhysMem,
    kmem: &mut Kmem,
    table: u64,
    usertrapret: u64,
    trampoline: u64,
)
    requires
        old(procs)@.len() == NPROC,
        hart.tp < NCPU,
        hart.tp < old(cpus)@.len(),
        old(kmem).wf(old(mem)),
        apps_ok(old(mem), old(kmem), table),
        old(kmem)@.len() >= num_apps(old(mem), table) + apps_budget(old(mem), table, 0, num_apps(old(mem), table)),
    ensures
        final(cpus)@ == old(cpus)@.update(hart.tp as int, CPU { process: Some(0), ..old(cpus)@[hart.tp as int] }),
        final(procs)@.len() == NPROC,
        ({
            let n = num_apps(old(mem), table);
            let used = old(kmem)@.len() - final(kmem)@.len();
            &&& final(kmem).wf(final(mem))
            &&& final(kmem).end == old(kmem).end
            &&& 0 <= used
            &&& final(kmem)@ == old(kmem)@.skip(used)
            &&& changed_within(old(mem), final(mem), old(kmem)@.take(used))
            &&& forall|j: int| 0 <= j < n ==> #[trigger] proc_inited(&final(procs)@[j], &old(procs)@[j], j, usertrapret,
                old(kmem)@[j])
            &&& forall|j: int| 0 <= j < n ==> #[trigger] app_image(&final(procs)@[j], final(mem), old(kmem), final(kmem),
                old(mem), app_start(old(mem), table, j), app_size(old(mem), table, j), trampoline)
            &&& forall|j: int| 0 <= j < n ==> #[trigger] trapframe_at(final(mem), old(kmem)@[j] as int) == trapframe_zero()
            &&& forall|j: int, q: int|
                #![trigger old(kmem)@[j], final(mem).byte(q)]
                0 <= j < n && old(kmem)@[j] <= q < old(kmem)@[j] + PGSIZE ==> final(mem).byte(q) == 0
            &&& forall|j: int| n <= j < NPROC ==> #[trigger] final(procs)@[j] == if j == 0 {
                Proc { state: ProcState::UNUSED, ..old(procs)@[0] }
            } else {
                old(procs)@[j]
            }
            &&& forall|j1: int, j2: int, t: u64|
                0 <= j1 < j2 < n ==> !(#[trigger] footprint(&final(procs)@[j1], final(mem), app_size(old(mem), table, j1), t)
                    && #[trigger] footprint(&final(procs)@[j2], final(mem), app_size(old(mem), table, j2), t))
            &&& forall|j: int, j2: int, t: u64|
                0 <= j < n && 0 <= j2 < n && #[trigger] footprint(&final(procs)@[j], final(mem), app_size(old(mem), table, j), t)
                    ==> t != #[trigger] old(kmem)@[j2]
        }),
{
    let ghost procs0 = procs@;
    let ghost m0 = *mem;
    let ghost k0 = *kmem;
    let num_app = get_num_app(mem, table);
    proof {
        lemma_free_facts(&k0, &m0);
        assert(k0@.skip(0) =~= k0@);
        assert(k0@.take(0) =~= Seq::<u64>::empty());
        lemma_apps_budget_nonneg(&m0, table, 0, num_app as int);
    }
    let mut i: u64 = 0;
    while i < num_app
        invariant
            i <= num_app,
            num_app == num_apps(&m0, table),
            num_app <= NPROC,
            procs@.len() == NPROC,
            k0.wf(&m0),
            k0@.len() >= num_app,
            kmem.wf(mem),
            kmem.end == k0.end,
            kmem@ == k0@.skip(i as int),
            changed_within(&m0, mem, k0@.take(i as int)),
            forall|j: int| 0 <= j < i ==> #[trigger] proc_inited(&procs@[j], &procs0[j], j, usertrapret, k0@[j]),
            forall|j: int| i <= j < NPROC ==> #[trigger] procs@[j] == procs0[j],
            forall|j: int, q: int|
                #![trigger k0@[j], mem.byte(q)]
                0 <= j < i && k0@[j] <= q < k0@[j] + PGSIZE ==> mem.byte(q) == 0,
        decreases num_app - i,
    {
        let ghost m1 = *mem;
        let ghost k1 = *kmem;
        let ghost procs_b = procs@;
        proof {
            lemma_free_facts(&k0, &m0);
            assert(kmem@.len() > 0);
            assert(procs_b[i as int] == procs0[i as int]);
        }
        let va = kstack(i * PROC_SLOT_SIZE);
        assert(va == slot_kstack(i as int));
        procs[i as usize].context.ra = usertrapret;
        procs[i as usize].state = ProcState::UNUSED;
        procs[i as usize].kstack = va;
        procs[i as usize].pid = i as i64;
        let tf = kmem.kalloc(mem);
        let ghost m2 = *mem;
        proof {
            lemma_free_facts(kmem, mem);
        }
        memset(mem, tf, 0, PGSIZE);
        procs[i as usize].trapframe = Some(tf);
        proof {
            assert(tf == k0@[i as int]);
            assert(proc_inited(&procs@[i as int], &procs0[i as int], i as int, usertrapret, k0@[i as int]));
            assert forall|j: int| 0 <= j < i + 1 implies #[trigger] proc_inited(&procs@[j], &procs0[j], j, usertrapret, k0@[j]) by {
                if j < i {
                    assert(procs@[j] == procs_b[j]);
                }
            }
            lemma_page_change(&m1, &m2, tf);
            lemma_page_change(&m2, mem, tf);
            lemma_changes_compose(&m1, &m2, mem, seq![tf], seq![tf]);
            assert(!kmem.is_free(tf)) by {
                if kmem@.contains(tf) {
                    let x = kmem@.index_of(tf);
                    assert(k0@[i + 1 + x] == tf);
                }
            }
            assert forall|x: int| 0 <= x < seq![tf].len() implies #[trigger] seq![tf][x] % 4096 == 0 && !kmem.is_free(seq![tf][x]) by {}
            assert(changed_within(&m2, mem, seq![tf]));
            lemma_kmem_frame(kmem, &m2, mem, seq![tf]);
            assert(kmem@ =~= k0@.skip(i + 1));
            assert(changed_within(&m0, mem, k0@.take(i + 1))) by {
                assert forall|q: int| mem.contains(q, 1) && outside_pages(k0@.take(i + 1), q) implies #[trigger] mem.byte(q)
                    == m0.byte(q) by {
                    assert(k0@.take(i + 1)[i as int] == tf);
                    assert(outside_pages(seq![tf] + seq![tf], q));
                    assert forall|x: int| 0 <= x < k0@.take(i as int).len() implies !(#[trigger] k0@.take(i as int)[x] <= q
                        < k0@.take(i as int)[x] + 4096) by {
                        assert(k0@.take(i + 1)[x] == k0@.take(i as int)[x]);
                    }
                }
            }
            assert forall|j: int, q: int|
                #![trigger k0@[j], mem.byte(q)]
                0 <= j < i + 1 && k0@[j] <= q < k0@[j] + PGSIZE implies mem.byte(q) == 0 by {
                if j < i {
                    assert(m1.byte(q) == 0);
                    assert(k0@[j] != tf);
                    assert(outside_pages(seq![tf] + seq![tf], q));
                }
            }
        }
        i = i + 1;
    }
    let ghost procs_l = procs@;
    let c = mycpu(hart);
    cpus[c].process = Some(0);
    procs[0].state = ProcState::UNUSED;
    let ghost procs1 = procs@;
    assert(procs1 == procs_l.update(0, Proc { state: ProcState::UNUSED, ..procs_l[0] }));
    let ghost m1 = *mem;
    let ghost k1 = *kmem;
    proof {
        lemma_free_facts(&k0, &m0);
        assert forall|x: int| 0 <= x < k0@.take(num_app as int).len() implies #[trigger] k0.is_free(
            k0@.take(num_app as int)[x],
        ) by {
            assert(k0@.take(num_app as int)[x] == k0@[x]);
        }
        assert forall|t: u64| k1.is_free(t) implies #[trigger] k0.is_free(t) by {
            let x = k1@.index_of(t);
            assert(k0@[num_app + x] == t);
        }
        lemma_table_same(&m0, &m1, &k0, &k1, table, k0@.take(num_app as int));
        assert forall|j: int| 0 <= j < num_app implies #[trigger] proc_inited(&procs1[j], &procs0[j], j, usertrapret,
            k0@[j]) by {
            assert(proc_inited(&procs_l[j], &procs0[j], j, usertrapret, k0@[j]));
            if j == 0 {
                assert(procs1[0] == procs_l[0]);
            } else {
                assert(procs1[j] == procs_l[j]);
            }
        }
        assert forall|j: int| 0 <= j < num_apps(&m1, table) implies (#[trigger] procs1[j]).trapframe is Some by {
            assert(proc_inited(&procs1[j], &procs0[j], j, usertrapret, k0@[j]));
        }
    }
    load_apps(procs, mem, kmem, table, trampoline);
    proof {
        lemma_procinit_done(procs0, procs1, procs@, &m0, &m1, mem, &k0, &k1, kmem, table, usertrapret, trampoline);
    }
}

/// What `procinit` promises, from what its two phases did.
#[verifier::spinoff_prover]
#[verifier::rlimit(80)]
proof fn lemma_procinit_done(
    procs0: Seq<Proc>,
    procs1: Seq<Proc>,
    procs: Seq<Proc>,
    m0: &PhysMem,
    m1: &PhysMem,
    mem: &PhysMem,
    k0: &Kmem,
    k1: &Kmem,
    kmem: &Kmem,
    table: u64,
    usertrapret: u64,
    trampoline: u64,
)
    requires
        apps_progress(procs, procs1, mem, kmem, m1, k1, table, trampoline, num_apps(m0, table)),
        k0.wf(m0),
        apps_ok(m0, k0, table),
        procs0.len() == NPROC,
        procs1.len() == NPROC,
        ({
            let n = num_apps(m0, table);
            &&& 0 <= n <= k0@.len()
            &&& k1@ == k0@.skip(n)
            &&& k1.end == k0.end
            &&& changed_within(m0, m1, k0@.take(n))
            &&& forall|j: int| 0 <= j < n ==> #[trigger] proc_inited(&procs1[j], &procs0[j], j, usertrapret, k0@[j])
            &&& forall|j: int| n <= j < NPROC ==> #[trigger] procs1[j] == if j == 0 {
                Proc { state: ProcState::UNUSED, ..procs0[0] }
            } else {
                procs0[j]
            }
            &&& forall|j: int, q: int|
                #![trigger k0@[j], m1.byte(q)]
                0 <= j < n && k0@[j] <= q < k0@[j] + PGSIZE ==> m1.byte(q) == 0
        }),
        num_apps(m1, table) == num_apps(m0, table),
        forall|i: int| 0 <= i <= num_apps(m0, table) ==> #[trigger] app_start(m1, table, i) == app_start(m0, table, i),
        forall|i: int| 0 <= i < num_apps(m0, table) ==> #[trigger] app_size(m1, table, i) == app_size(m0, table, i),
        forall|i: int, q: int|
            #![trigger app_size(m0, table, i), m1.byte(q)]
            0 <= i < num_apps(m0, table) && app_start(m0, table, i) <= q < app_start(m0, table, i) + app_size(m0, table, i)
                ==> m1.byte(q) == m0.byte(q),
    ensures
        procs.len() == NPROC,
        ({
            let n = num_apps(m0, table);
            let used = k0@.len() - kmem@.len();
            &&& kmem.wf(mem)
            &&& kmem.end == k0.end
            &&& 0 <= used
            &&& kmem@ == k0@.skip(used)
            &&& changed_within(m0, mem, k0@.take(used))
            &&& forall|j: int| 0 <= j < n ==> #[trigger] proc_inited(&procs[j], &procs0[j], j, usertrapret, k0@[j])
            &&& forall|j: int| 0 <= j < n ==> #[trigger] app_image(&procs[j], mem, k0, kmem, m0, app_start(m0, table, j),
                app_size(m0, table, j), trampoline)
            &&& forall|j: int| 0 <= j < n ==> #[trigger] trapframe_at(mem, k0@[j] as int) == trapframe_zero()
            &&& forall|j: int, q: int|
                #![trigger k0@[j], mem.byte(q)]
                0 <= j < n && k0@[j] <= q < k0@[j] + PGSIZE ==> mem.byte(q) == 0
            &&& forall|j: int| n <= j < NPROC ==> #[trigger] procs[j] == if j == 0 {
                Proc { state: ProcState::UNUSED, ..procs0[0] }
            } else {
                procs0[j]
            }
            &&& forall|j1: int, j2: int, t: u64|
                0 <= j1 < j2 < n ==> !(#[trigger] footprint(&procs[j1], mem, app_size(m0, table, j1), t)
                    && #[trigger] footprint(&procs[j2], mem, app_size(m0, table, j2), t))
            &&& forall|j: int, j2: int, t: u64|
                0 <= j < n && 0 <= j2 < n && #[trigger] footprint(&procs[j], mem, app_size(m0, table, j), t)
                    ==> t != #[trigger] k0@[j2]
        }),
{
    reveal(apps_progress);
    let n = num_apps(m0, table);
    let u = k1@.len() - kmem@.len();
    let used = k0@.len() - kmem@.len();
    lemma_free_facts(k0, m0);
    assert(kmem@ =~= k0@.skip(used));
    assert(changed_within(m0, mem, k0@.take(used))) by {
        assert forall|q: int| mem.contains(q, 1) && outside_pages(k0@.take(used), q) implies #[trigger] mem.byte(q)
            == m0.byte(q) by {
            assert forall|m: int| 0 <= m < k1@.take(u).len() implies !(#[trigger] k1@.take(u)[m] <= q < k1@.take(u)[m]
                + 4096) by {
                assert(k0@.take(used)[n + m] == k1@.take(u)[m]);
            }
            assert forall|m: int| 0 <= m < k0@.take(n).len() implies !(#[trigger] k0@.take(n)[m] <= q < k0@.take(n)[m]
                + 4096) by {
                assert(k0@.take(used)[m] == k0@.take(n)[m]);
            }
            assert(m1.byte(q) == m0.byte(q));
        }
    }
    assert forall|t: u64| k1.is_free(t) implies #[trigger] k0.is_free(t) by {
        let x = k1@.index_of(t);
        assert(k0@[n + x] == t);
    }
    assert forall|j: int| 0 <= j < n implies #[trigger] proc_inited(&procs[j], &procs0[j], j, usertrapret, k0@[j]) by {
        assert(proc_inited(&procs1[j], &procs0[j], j, usertrapret, k0@[j]));
    }
    assert forall|j: int| 0 <= j < n implies #[trigger] app_image(&procs[j], mem, k0, kmem, m0, app_start(m0, table, j),
        app_size(m0, table, j), trampoline) by {
        let p = procs[j];
        let pt = p.pagetable->0;
        let src = app_start(m0, table, j);
        let sz = app_size(m0, table, j);
        assert(app_image(&p, mem, k1, kmem, m1, app_start(m1, table, j), app_size(m1, table, j), trampoline));
        assert(app_start(m1, table, j) == src);
        assert forall|q: int| src <= q < src + sz implies #[trigger] m1.byte(q) == m0.byte(q) by {
            assert(app_size(m0, table, j) == sz);
        }
        lemma_loaded_rebase(&pt, mem, k1, kmem, m1, k0, m0, src, sz, trampoline, p.trapframe->0, n);
        assert forall|t: u64| #[trigger] pt.owns(t) implies k0.is_free(t) by {
            assert(k1.is_free(t));
        }
        assert(k0.is_free(pt.root));
    }
    assert forall|j: int, q: int|
        #![trigger k0@[j], mem.byte(q)]
        0 <= j < n && k0@[j] <= q < k0@[j] + PGSIZE implies mem.byte(q) == 0 by {
        let tf = k0@[j];
        assert(m1.byte(q) == 0);
        assert forall|m: int| 0 <= m < k1@.take(u).len() implies !(#[trigger] k1@.take(u)[m] <= q < k1@.take(u)[m]
            + 4096) by {
            assert(k1@.take(u)[m] == k0@[n + m]);
            assert(k0@[n + m] != tf);
        }
    }
    assert forall|j: int| 0 <= j < n implies #[trigger] trapframe_at(mem, k0@[j] as int) == trapframe_zero() by {
        let tf = k0@[j];
        assert forall|q: int| tf <= q < tf + TRAPFRAME_SIZE implies #[trigger] mem.byte(q) == 0 by {
            assert(k0@[j] <= q < k0@[j] + PGSIZE);
        }
        lemma_zero_trapframe(mem, tf as int);
    }
    assert forall|j: int, j2: int, t: u64|
        0 <= j < n && 0 <= j2 < n && #[trigger] footprint(&procs[j], mem, app_size(m0, table, j), t)
            implies t != #[trigger] k0@[j2] by {
        let p = procs[j];
        let pt = p.pagetable->0;
        assert(app_image(&p, mem, k1, kmem, m1, app_start(m1, table, j), app_size(m1, table, j), trampoline));
        assert(k1.is_free(t)) by {
            if !pt.owns(t) && t != pt.root {
                let v = choose|v: int| 0 <= v < va_span() && grown(0, app_size(m0, table, j), v) && #[trigger] frame_of(
                    &pt,
                    mem,
                    v,
                ) == t;
            } else if pt.owns(t) {
                assert(k1.is_free(t));
            }
        }
        if t == k0@[j2] {
            let x = k1@.index_of(t);
            assert(k0@[n + x] == t);
        }
    }
}

} // verus!
