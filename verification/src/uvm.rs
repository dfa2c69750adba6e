//! Growing a user address space: fresh zeroed pages mapped for the user.
use vstd::prelude::*;
use crate::memory::{PhysMem, changed_within, outside_pages, lemma_page_change, lemma_changes_compose};
use crate::kalloc::{Kmem, lemma_kmem_frame, lemma_free_facts};
use crate::string::memset;
use crate::riscv::{PGSIZE, MAXVA, PTE_R, PTE_W, PTE_X, PTE_U, leaf_pte, pte2pa_spec, lemma_leaf_pte,
    pg_round_down_spec, pg_round_up, pg_round_up_spec};
use crate::vm::{PageTable, mappages, map_outcome, map_result, map_rest, va_span, va_indices, changed_in_tables,
    lemma_pt_frame, lemma_took_facts, lemma_va_indices_round, lemma_map_rest_step, lemma_same_block};

verus! {

/// Permissions of user memory: read, write, execute, user.
pub const USER_PERM: u64 = PTE_R | PTE_W | PTE_X | PTE_U;

/// The user permission bits are those of a leaf PTE.
pub proof fn lemma_user_perm()
    ensures
        USER_PERM == 30,
        USER_PERM < 1024,
        USER_PERM & PTE_U != 0,
{
    assert(2u64 | 4u64 | 8u64 | 16u64 == 30u64) by (bit_vector);
    assert(30u64 & 16u64 != 0) by (bit_vector);
}

/// Only the pages in `pages` and the table pages of `pt` differ between
/// `before` and `after`.
pub open spec fn changed_outside_tables(pt: &PageTable, pages: Seq<u64>, before: &PhysMem, after: &PhysMem) -> bool {
    &&& after.base == before.base
    &&& after.bytes@.len() == before.bytes@.len()
    &&& forall|q: int|
        after.contains(q, 1) && outside_pages(pages, q) && (forall|t: u64| #[trigger] pt.owns(t) ==> !(t <= q < t + 4096))
            ==> #[trigger] after.byte(q) == before.byte(q)
}

/// The physical page that `pt` maps `v` to.
pub open spec fn frame_of(pt: &PageTable, mem: &PhysMem, v: int) -> u64 {
    pte2pa_spec(pt.translate(mem, v)->0)
}

/// `v` lies on one of the pages `uvmalloc(oldsz, newsz)` adds.
pub open spec fn grown(oldsz: int, newsz: int, v: int) -> bool {
    oldsz <= newsz && pg_round_up_spec(oldsz) <= pg_round_down_spec(v) < newsz
}

/// Page `v` of `pt` is a fresh user page: it maps, for the user with read,
/// write and execute, a zero-filled frame that was free in `k0`, is free no
/// more, and holds no table.
pub open spec fn fresh_user_page(pt: &PageTable, mem: &PhysMem, k0: &Kmem, kmem: &Kmem, v: int) -> bool {
    let f = frame_of(pt, mem, v);
    &&& pt.translate(mem, v) == Some(leaf_pte(f, USER_PERM))
    &&& k0.is_free(f)
    &&& !kmem.is_free(f)
    &&& !pt.owns(f)
    &&& forall|q: int| f <= q < f + PGSIZE ==> #[trigger] mem.byte(q) == 0
}

/// Takes a page, clears it and maps it at `a` for the user.
#[verifier::spinoff_prover]
#[verifier::rlimit(60)]
fn alloc_user_page(pgtbl: &mut PageTable, mem: &mut PhysMem, kmem: &mut Kmem, a: u64) -> (f: u64)
    requires
        old(pgtbl).wf(old(mem)),
        old(pgtbl).apart_from_free(old(kmem)),
        old(kmem).wf(old(mem)),
        a % PGSIZE == 0,
        a <= MAXVA,
        old(pgtbl).translate(old(mem), a as int) is None,
        old(kmem)@.len() >= 1 + old(pgtbl).tables_needed(old(mem), a as int),
    ensures
        final(pgtbl).wf(final(mem)),
        final(pgtbl).apart_from_free(final(kmem)),
        final(kmem).wf(final(mem)),
        final(pgtbl).root == old(pgtbl).root,
        final(kmem).end == old(kmem).end,
        f == old(kmem)@[0],
        ({
            let used = old(kmem)@.len() - final(kmem)@.len();
            &&& 1 <= used <= 1 + old(pgtbl).tables_needed(old(mem), a as int)
            &&& final(kmem)@ == old(kmem)@.skip(used)
            &&& forall|t: u64| #[trigger] old(pgtbl).owns(t) ==> final(pgtbl).owns(t)
            &&& forall|t: u64| #[trigger] final(pgtbl).owns(t) ==> old(pgtbl).owns(t) || old(kmem)@.take(used).contains(t)
            &&& changed_outside_tables(old(pgtbl), old(kmem)@.take(used), old(mem), final(mem))
        }),
        !final(pgtbl).owns(f),
        forall|m: int| 1 <= m < old(kmem)@.len() - final(kmem)@.len() ==> final(pgtbl).owns(#[trigger] old(kmem)@[m]),
        forall|q: int| f <= q < f + PGSIZE ==> #[trigger] final(mem).byte(q) == 0,
        forall|v: int| 0 <= v < va_span() ==> #[trigger] final(pgtbl).translate(final(mem), v) == if pg_round_down_spec(v) == a {
            Some(leaf_pte(f, USER_PERM))
        } else {
            old(pgtbl).translate(old(mem), v)
        },
        forall|v: int|
            #[trigger] va_indices(v).0 == va_indices(a as int).0 && va_indices(v).1 == va_indices(a as int).1
                ==> final(pgtbl).tables_needed(final(mem), v) == 0,
{
    let ghost pt0 = *pgtbl;
    let ghost m0 = *mem;
    let ghost k0 = *kmem;
    let f = kmem.kalloc(mem);
    let ghost m1 = *mem;
    proof {
        reveal(Kmem::wf);
    }
    memset(mem, f, 0, PGSIZE);
    let ghost m2 = *mem;
    let ghost k1 = *kmem;
    proof {
        reveal(PageTable::apart_from_free);
        reveal(Kmem::wf);
        assert(k0@[0] == f);
        assert(!pt0.owns(f)) by {
            assert(k0.is_free(f));
        }
        lemma_page_change(&m0, &m1, f);
        lemma_page_change(&m1, &m2, f);
        lemma_changes_compose(&m0, &m1, &m2, seq![f], seq![f]);
        assert(changed_within(&m0, &m2, seq![f])) by {
            assert forall|q: int| m2.contains(q, 1) && outside_pages(seq![f], q) implies #[trigger] m2.byte(q)
                == m0.byte(q) by {
                assert(outside_pages(seq![f] + seq![f], q));
            }
        }
        assert forall|m: int| 0 <= m < seq![f].len() implies #[trigger] seq![f][m] % 4096 == 0 && !pt0.owns(
            seq![f][m],
        ) by {}
        lemma_pt_frame(&pt0, &m0, &m2, seq![f]);
        assert(!k1.is_free(f)) by {
            if k1@.contains(f) {
                let i = k1@.index_of(f);
                assert(k0@[i + 1] == f);
            }
        }
        assert forall|m: int| 0 <= m < seq![f].len() implies #[trigger] seq![f][m] % 4096 == 0 && !k1.is_free(
            seq![f][m],
        ) by {}
        lemma_kmem_frame(&k1, &m1, &m2, seq![f]);
        assert forall|t: u64| #[trigger] pgtbl.owns(t) implies !kmem.is_free(t) by {
            if kmem@.contains(t) {
                let i = kmem@.index_of(t);
                assert(k0@[i + 1] == t);
                assert(k0.is_free(t));
            }
        }
        assert(pg_round_down_spec(a + PGSIZE - 1) == a);
        assert(pg_round_down_spec(a as int) == a);
        assert forall|v: int| a <= v <= a implies #[trigger] pgtbl.translate(mem, v) is None by {}
    }
    let r = mappages(pgtbl, mem, kmem, a, f, PGSIZE, USER_PERM);
    proof {
        let used2 = k1@.len() - kmem@.len();
        lemma_took_facts(&pt0, pgtbl, &k1, kmem, used2);
        assert forall|m: int| 1 <= m < k0@.len() - kmem@.len() implies pgtbl.owns(#[trigger] k0@[m]) by {
            assert(k0@[m] == k1@[m - 1]);
        }
        reveal(map_outcome);
        reveal(changed_in_tables);
        let used = k0@.len() - kmem@.len();
        assert(kmem@ =~= k0@.skip(used));
        assert forall|t: u64| #[trigger] pgtbl.owns(t) implies pt0.owns(t) || k0@.take(used).contains(t) by {
            if !pt0.owns(t) {
                let i = k1@.take(used2).index_of(t);
                assert(k0@.take(used)[i + 1] == t);
            }
        }
        assert(!pgtbl.owns(f)) by {
            if pgtbl.owns(f) && !pt0.owns(f) {
                let i = k1@.take(used2).index_of(f);
                assert(k0@[i + 1] == f);
            }
        }
        assert forall|q: int| f <= q < f + PGSIZE implies #[trigger] mem.byte(q) == 0 by {
            assert(m2.byte(q) == 0);
            assert forall|t: u64| #[trigger] pgtbl.owns(t) implies !(t <= q < t + 4096) by {
                reveal(PageTable::wf);
                reveal(PageTable::wf_tables);
                assert(t != f);
                assert(t % 4096 == 0);
            }
        }
        assert(changed_outside_tables(&pt0, k0@.take(used), &m0, mem)) by {
            assert forall|q: int|
                mem.contains(q, 1) && outside_pages(k0@.take(used), q) && (forall|t: u64| #[trigger] pt0.owns(t)
                    ==> !(t <= q < t + 4096)) implies #[trigger] mem.byte(q) == m0.byte(q) by {
                assert(k0@.take(used)[0] == f);
                assert(outside_pages(seq![f], q));
                assert forall|t: u64| #[trigger] pgtbl.owns(t) implies !(t <= q < t + 4096) by {
                    if !pt0.owns(t) {
                        let i = k1@.take(used2).index_of(t);
                        assert(k0@.take(used)[i + 1] == t);
                    }
                }
            }
        }
        assert forall|v: int| 0 <= v < va_span() implies #[trigger] pgtbl.translate(mem, v) == if pg_round_down_spec(v) == a {
            Some(leaf_pte(f, USER_PERM))
        } else {
            pt0.translate(&m0, v)
        } by {
            if pg_round_down_spec(v) == a {
                assert(map_result(a as int, a as int, f as int, USER_PERM, v) == Some(leaf_pte(f, USER_PERM)));
            } else {
                assert(map_result(a as int, a as int, f as int, USER_PERM, v) is None);
            }
        }
    }
    f
}

/// Pages that adding the pages from `a` (a page boundary) to below `newsz`
/// to `pt` takes at most: one per page, the tables the first page lacks,
/// a level-0 table for each further 2 MiB block and a level-1 table for
/// each further 1 GiB region.
pub open spec fn grow_rest(pt: &PageTable, mem: &PhysMem, a: int, newsz: int) -> int {
    let last = pg_round_down_spec(newsz - 1);
    if a < newsz {
        (last - a) / (PGSIZE as int) + 1 + map_rest(pt, mem, a, last)
    } else {
        0
    }
}

/// Pages that `uvmalloc(oldsz, newsz)` on `pt` takes at most: one per page
/// added, the tables that the first new page lacks, a level-0 table for
/// each further 2 MiB block and a level-1 table for each further 1 GiB
/// region the new pages touch. Where those further tables do not exist
/// yet, this is exactly what it takes.
pub open spec fn grow_need(pt: &PageTable, mem: &PhysMem, oldsz: int, newsz: int) -> int {
    if oldsz <= newsz {
        grow_rest(pt, mem, pg_round_up_spec(oldsz), newsz)
    } else {
        0
    }
}

/// The allocator holds what `uvmalloc(oldsz, newsz)` on `pt` may take.
pub open spec fn grow_budget(pt: &PageTable, mem: &PhysMem, kmem: &Kmem, oldsz: int, newsz: int) -> bool {
    kmem@.len() >= grow_need(pt, mem, oldsz, newsz)
}

/// Pages that `uvmalloc(oldsz, newsz)` takes at most: one per page added,
/// two per 2 MiB block touched.
pub open spec fn grow_cost(oldsz: int, newsz: int) -> int {
    let start = pg_round_up_spec(oldsz);
    let last = pg_round_down_spec(newsz - 1);
    if oldsz <= newsz && start < newsz {
        (last - start) / (PGSIZE as int) + 1 + 2 * (last / 0x20_0000 - start / 0x20_0000 + 1)
    } else {
        0
    }
}

/// State of `uvmalloc` once the pages `[start, a)` are added, page
/// `start + 4096 * i` holding frame `datas[i]`.
#[verifier::opaque]
pub open spec fn grow_progress(
    pt: &PageTable,
    mem: &PhysMem,
    kmem: &Kmem,
    pt0: &PageTable,
    m0: &PhysMem,
    k0: &Kmem,
    start: int,
    newsz: int,
    a: int,
    datas: Seq<u64>,
) -> bool {
    let used = k0@.len() - kmem@.len();
    let last = pg_round_down_spec(newsz - 1);
    &&& pt.wf(mem)
    &&& pt.apart_from_free(kmem)
    &&& kmem.wf(mem)
    &&& pt.root == pt0.root
    &&& kmem.end == k0.end
    &&& 0 <= used <= k0@.len()
    &&& kmem@ == k0@.skip(used)
    &&& forall|t: u64| #[trigger] pt0.owns(t) ==> pt.owns(t)
    &&& forall|t: u64| #[trigger] pt.owns(t) ==> pt0.owns(t) || k0@.take(used).contains(t)
    &&& changed_outside_tables(pt0, k0@.take(used), m0, mem)
    &&& a == start + PGSIZE * datas.len()
    &&& forall|i: int| 0 <= i < datas.len() ==> {
        &&& k0.is_free(#[trigger] datas[i])
        &&& !kmem.is_free(datas[i])
        &&& !pt.owns(datas[i])
        &&& datas[i] % PGSIZE == 0
        &&& forall|q: int| datas[i] <= q < datas[i] + PGSIZE ==> #[trigger] mem.byte(q) == 0
    }
    &&& forall|i: int, j: int| 0 <= i < j < datas.len() ==> datas[i] != datas[j]
    &&& forall|v: int| 0 <= v < va_span() ==> #[trigger] pt.translate(mem, v) == if start <= pg_round_down_spec(v) < a {
        Some(leaf_pte(datas[(pg_round_down_spec(v) - start) / (PGSIZE as int)], USER_PERM))
    } else {
        pt0.translate(m0, v)
    }
    &&& used <= (a - start) / (PGSIZE as int) + 2 * blocks_touched(start, a)
    &&& used + grow_rest(pt, mem, a, newsz) <= grow_rest(pt0, m0, start, newsz)
    &&& start < a && a % 0x20_0000 != 0 ==> pt.tables_needed(mem, a) == 0
    &&& forall|m: int| 0 <= m < used ==> pt.owns(#[trigger] k0@[m]) || datas.contains(k0@[m])
}

/// The 2 MiB blocks that the pages `[start, a)` touch.
pub open spec fn blocks_touched(start: int, a: int) -> int {
    if a <= start {
        0
    } else {
        (a - PGSIZE) / 0x20_0000 - start / 0x20_0000 + 1
    }
}

/// `uvmalloc` starts with nothing added.
proof fn lemma_grow_start(pt0: &PageTable, m0: &PhysMem, k0: &Kmem, oldsz: int, newsz: int)
    requires
        pt0.wf(m0),
        pt0.apart_from_free(k0),
        k0.wf(m0),
        0 <= oldsz <= newsz,
    ensures
        grow_progress(pt0, m0, k0, pt0, m0, k0, pg_round_up_spec(oldsz), newsz, pg_round_up_spec(oldsz),
            Seq::empty()),
{
    reveal(grow_progress);
    assert(k0@.skip(0) =~= k0@);
    assert(k0@.take(0) =~= Seq::<u64>::empty());
    let start = pg_round_up_spec(oldsz);
    if start < newsz {
        let last = pg_round_down_spec(newsz - 1);
        assert(start <= last);
        assert(pt0.tables_needed(m0, start) <= 2);
    }
}

/// Before page `a`: it is unmapped and the allocator can pay for it.
#[verifier::spinoff_prover]
#[verifier::rlimit(60)]
proof fn lemma_grow_pre(
    pt: &PageTable,
    mem: &PhysMem,
    kmem: &Kmem,
    pt0: &PageTable,
    m0: &PhysMem,
    k0: &Kmem,
    start: int,
    newsz: int,
    a: int,
    datas: Seq<u64>,
)
    requires
        grow_progress(pt, mem, kmem, pt0, m0, k0, start, newsz, a, datas),
        kmem@.len() >= 1 + pt.tables_needed(mem, a),
        start % 4096 == 0,
        0 <= start <= a < newsz,
        a < va_span(),
        forall|v: int| start <= pg_round_down_spec(v) < newsz ==> #[trigger] pt0.translate(m0, v) is None,
    ensures
        pt.wf(mem),
        pt.apart_from_free(kmem),
        kmem.wf(mem),
        a % 4096 == 0,
        pt.translate(mem, a) is None,
        kmem@.len() >= 1 + pt.tables_needed(mem, a),
{
    reveal(grow_progress);
    assert(pg_round_down_spec(a) == a);
    assert(pt0.translate(m0, a) is None);
    assert(pt.translate(mem, a) == pt0.translate(m0, a));
}

/// The pages taken in two steps from the front of the free list are
/// taken in one, with the table pages and the memory changes they allow.
proof fn lemma_grow_taken(
    pt0: &PageTable,
    pt1: &PageTable,
    pt: &PageTable,
    m0: &PhysMem,
    m1: &PhysMem,
    mem: &PhysMem,
    k0: &Kmem,
    k1: &Kmem,
    kmem: &Kmem,
)
    requires
        0 <= k0@.len() - k1@.len(),
        k1@ == k0@.skip(k0@.len() - k1@.len()),
        0 <= k1@.len() - kmem@.len(),
        kmem@ == k1@.skip(k1@.len() - kmem@.len()),
        forall|t: u64| #[trigger] pt0.owns(t) ==> pt1.owns(t),
        forall|t: u64| #[trigger] pt1.owns(t) ==> pt0.owns(t) || k0@.take(k0@.len() - k1@.len()).contains(t),
        forall|t: u64| #[trigger] pt1.owns(t) ==> pt.owns(t),
        forall|t: u64| #[trigger] pt.owns(t) ==> pt1.owns(t) || k1@.take(k1@.len() - kmem@.len()).contains(t),
        changed_outside_tables(pt0, k0@.take(k0@.len() - k1@.len()), m0, m1),
        changed_outside_tables(pt1, k1@.take(k1@.len() - kmem@.len()), m1, mem),
    ensures
        kmem@ == k0@.skip(k0@.len() - kmem@.len()),
        forall|t: u64| #[trigger] pt0.owns(t) ==> pt.owns(t),
        forall|t: u64| #[trigger] pt.owns(t) ==> pt0.owns(t) || k0@.take(k0@.len() - kmem@.len()).contains(t),
        changed_outside_tables(pt0, k0@.take(k0@.len() - kmem@.len()), m0, mem),
{
    let used1 = k0@.len() - k1@.len();
    let u = k1@.len() - kmem@.len();
    let used = k0@.len() - kmem@.len();
    assert(kmem@ =~= k0@.skip(used));
    assert forall|t: u64| #[trigger] pt.owns(t) implies pt0.owns(t) || k0@.take(used).contains(t) by {
        if !pt1.owns(t) {
            let i = k1@.take(u).index_of(t);
            assert(k0@.take(used)[used1 + i] == t);
        } else if !pt0.owns(t) {
            let i = k0@.take(used1).index_of(t);
            assert(k0@.take(used)[i] == t);
        }
    }
    assert forall|q: int|
        mem.contains(q, 1) && outside_pages(k0@.take(used), q) && (forall|t: u64| #[trigger] pt0.owns(t)
            ==> !(t <= q < t + 4096)) implies #[trigger] mem.byte(q) == m0.byte(q) by {
        assert forall|m: int| 0 <= m < k1@.take(u).len() implies !(#[trigger] k1@.take(u)[m] <= q
            < k1@.take(u)[m] + 4096) by {
            assert(k0@.take(used)[used1 + m] == k1@.take(u)[m]);
        }
        assert forall|m: int| 0 <= m < k0@.take(used1).len() implies !(#[trigger] k0@.take(used1)[m] <= q
            < k0@.take(used1)[m] + 4096) by {
            assert(k0@.take(used)[m] == k0@.take(used1)[m]);
        }
        assert forall|t: u64| #[trigger] pt1.owns(t) implies !(t <= q < t + 4096) by {
            if !pt0.owns(t) {
                let i = k0@.take(used1).index_of(t);
                assert(k0@.take(used1)[i] == t);
            }
        }
        assert(m1.byte(q) == m0.byte(q));
    }
}

/// The table pages are aligned.
proof fn lemma_tables_aligned(pt: &PageTable, m: &PhysMem)
    requires
        pt.wf(m),
    ensures
        forall|t: u64| #[trigger] pt.owns(t) ==> t % 4096 == 0,
{
    reveal(PageTable::wf);
    reveal(PageTable::wf_tables);
}

/// A table page of `pt` is an aligned page of memory.
pub proof fn lemma_tables_facts(pt: &PageTable, m: &PhysMem, t: u64)
    requires
        pt.wf(m),
        pt.owns(t),
    ensures
        t % 4096 == 0,
        m.contains(t as int, 4096),
{
    reveal(PageTable::wf);
    reveal(PageTable::wf_tables);
}

/// The frames handed out so far, and the new one, stay fresh.
#[verifier::spinoff_prover]
#[verifier::rlimit(40)]
proof fn lemma_grow_frames(
    pt1: &PageTable,
    m1: &PhysMem,
    k1: &Kmem,
    pt: &PageTable,
    mem: &PhysMem,
    kmem: &Kmem,
    m0: &PhysMem,
    k0: &Kmem,
    datas: Seq<u64>,
    f: u64,
)
    requires
        forall|i: int| 0 <= i < k0@.len() ==> m0.contains(#[trigger] k0@[i] as int, 4096),
        forall|i: int| 0 <= i < k1@.len() ==> #[trigger] k1@[i] % 4096 == 0,
        forall|i: int, j: int| 0 <= i < j < k1@.len() ==> k1@[i] != k1@[j],
        forall|t: u64| #[trigger] pt1.owns(t) ==> t % 4096 == 0,
        m1.base == m0.base,
        m1.bytes@.len() == m0.bytes@.len(),
        0 <= k0@.len() - k1@.len(),
        k1@ == k0@.skip(k0@.len() - k1@.len()),
        f == k1@[0],
        ({
            let u = k1@.len() - kmem@.len();
            &&& 1 <= u
            &&& kmem@ == k1@.skip(u)
            &&& forall|t: u64| #[trigger] pt.owns(t) ==> pt1.owns(t) || k1@.take(u).contains(t)
            &&& changed_outside_tables(pt1, k1@.take(u), m1, mem)
        }),
        !pt.owns(f),
        forall|q: int| f <= q < f + PGSIZE ==> #[trigger] mem.byte(q) == 0,
        forall|i: int| 0 <= i < datas.len() ==> {
            &&& k0.is_free(#[trigger] datas[i])
            &&& !k1.is_free(datas[i])
            &&& !pt1.owns(datas[i])
            &&& datas[i] % PGSIZE == 0
            &&& forall|q: int| datas[i] <= q < datas[i] + PGSIZE ==> #[trigger] m1.byte(q) == 0
        },
        forall|i: int, j: int| 0 <= i < j < datas.len() ==> datas[i] != datas[j],
    ensures
        forall|i: int| 0 <= i < datas.push(f).len() ==> {
            &&& k0.is_free(#[trigger] datas.push(f)[i])
            &&& !kmem.is_free(datas.push(f)[i])
            &&& !pt.owns(datas.push(f)[i])
            &&& datas.push(f)[i] % PGSIZE == 0
            &&& forall|q: int| datas.push(f)[i] <= q < datas.push(f)[i] + PGSIZE ==> #[trigger] mem.byte(q) == 0
        },
        forall|i: int, j: int| 0 <= i < j < datas.push(f).len() ==> datas.push(f)[i] != datas.push(f)[j],
{
    let used1 = k0@.len() - k1@.len();
    let u = k1@.len() - kmem@.len();
    let nd = datas.push(f);
    assert(k1@[0] == k0@[used1]);
    assert(k0.is_free(f)) by {
        assert(k0@[used1] == f);
    }
    assert(!kmem.is_free(f)) by {
        if kmem@.contains(f) {
            let i = kmem@.index_of(f);
            assert(k1@[i + u] == f);
        }
    }
    assert forall|i: int| 0 <= i < nd.len() implies {
        &&& k0.is_free(#[trigger] nd[i])
        &&& !kmem.is_free(nd[i])
        &&& !pt.owns(nd[i])
        &&& nd[i] % PGSIZE == 0
        &&& forall|q: int| nd[i] <= q < nd[i] + PGSIZE ==> #[trigger] mem.byte(q) == 0
    } by {
        if i < datas.len() {
            let d = datas[i];
            assert(nd[i] == d);
            assert(k0.is_free(d));
            assert(!k1.is_free(d));
            assert(!kmem.is_free(d)) by {
                if kmem@.contains(d) {
                    let j = kmem@.index_of(d);
                    assert(k1@[j + u] == d);
                }
            }
            assert(!pt.owns(d)) by {
                if pt.owns(d) && !pt1.owns(d) {
                    let j = k1@.take(u).index_of(d);
                    assert(k1@[j] == d);
                }
            }
            assert(m0.contains(d as int, (PGSIZE as int))) by {
                let j = k0@.index_of(d);
                assert(k0@[j] == d);
            }
            assert forall|q: int| d <= q < d + PGSIZE implies #[trigger] mem.byte(q) == 0 by {
                assert(m1.byte(q) == 0);
                assert(mem.contains(q, 1));
                assert forall|m: int| 0 <= m < k1@.take(u).len() implies !(#[trigger] k1@.take(u)[m] <= q
                    < k1@.take(u)[m] + 4096) by {
                    let t = k1@.take(u)[m];
                    assert(k1@[m] == t);
                    assert(t != d);
                    assert(t % 4096 == 0);
                }
                assert forall|t: u64| #[trigger] pt1.owns(t) implies !(t <= q < t + 4096) by {
                    assert(t != d);
                }
            }
        } else {
            assert(nd[i] == f);
        }
    }
    assert forall|i: int, j: int| 0 <= i < j < nd.len() implies nd[i] != nd[j] by {
        if j == datas.len() {
            assert(nd[j] == f);
            assert(!k1.is_free(nd[i]));
            assert(k1@[0] == f);
        } else {
            assert(nd[i] == datas[i] && nd[j] == datas[j]);
        }
    }
}

/// After page `a` got frame `f`, the pages from `start` to `a` map the
/// frames taken so far, in order.
#[verifier::spinoff_prover]
#[verifier::rlimit(40)]
proof fn lemma_grow_step_map(
    pt1: &PageTable,
    m1: &PhysMem,
    k1: &Kmem,
    pt: &PageTable,
    mem: &PhysMem,
    pt0: &PageTable,
    m0: &PhysMem,
    k0: &Kmem,
    start: int,
    newsz: int,
    a: int,
    datas: Seq<u64>,
    f: u64,
)
    requires
        0 <= start <= a,
        a % 4096 == 0,
        a == start + PGSIZE * datas.len(),
        forall|v: int| 0 <= v < va_span() ==> #[trigger] pt1.translate(m1, v) == if start <= pg_round_down_spec(v) < a {
            Some(leaf_pte(datas[(pg_round_down_spec(v) - start) / (PGSIZE as int)], USER_PERM))
        } else {
            pt0.translate(m0, v)
        },
        forall|v: int| 0 <= v < va_span() ==> #[trigger] pt.translate(mem, v) == if pg_round_down_spec(v) == a {
            Some(leaf_pte(f, USER_PERM))
        } else {
            pt1.translate(m1, v)
        },
    ensures
        forall|v: int| 0 <= v < va_span() ==> #[trigger] pt.translate(mem, v) == if start <= pg_round_down_spec(v)
            < a + PGSIZE {
            Some(leaf_pte(datas.push(f)[(pg_round_down_spec(v) - start) / (PGSIZE as int)], USER_PERM))
        } else {
            pt0.translate(m0, v)
        },
{
    let nd = datas.push(f);
    assert forall|v: int| 0 <= v < va_span() implies #[trigger] pt.translate(mem, v) == if start <= pg_round_down_spec(v)
        < a + PGSIZE {
        Some(leaf_pte(nd[(pg_round_down_spec(v) - start) / (PGSIZE as int)], USER_PERM))
    } else {
        pt0.translate(m0, v)
    } by {
        if pg_round_down_spec(v) == a {
            assert((a - start) / (PGSIZE as int) == datas.len());
            assert(nd[datas.len() as int] == f);
        } else {
            assert(pt.translate(mem, v) == pt1.translate(m1, v));
            if start <= pg_round_down_spec(v) < a {
                let idx = (pg_round_down_spec(v) - start) / (PGSIZE as int);
                assert(0 <= idx < datas.len());
                assert(nd[idx] == datas[idx]);
            }
        }
    }
}

/// After page `a` got frame `f`.
#[verifier::spinoff_prover]
#[verifier::rlimit(100)]
proof fn lemma_grow_step(
    pt1: &PageTable,
    m1: &PhysMem,
    k1: &Kmem,
    pt: &PageTable,
    mem: &PhysMem,
    kmem: &Kmem,
    pt0: &PageTable,
    m0: &PhysMem,
    k0: &Kmem,
    start: int,
    newsz: int,
    a: int,
    datas: Seq<u64>,
    f: u64,
)
    requires
        grow_progress(pt1, m1, k1, pt0, m0, k0, start, newsz, a, datas),
        k0.wf(m0),
        0 <= start <= a < newsz,
        a % 4096 == 0,
        pt.wf(mem),
        pt.apart_from_free(kmem),
        kmem.wf(mem),
        pt.root == pt1.root,
        kmem.end == k1.end,
        f == k1@[0],
        ({
            let used = k1@.len() - kmem@.len();
            &&& 1 <= used <= 1 + pt1.tables_needed(m1, a)
            &&& kmem@ == k1@.skip(used)
            &&& forall|t: u64| #[trigger] pt1.owns(t) ==> pt.owns(t)
            &&& forall|t: u64| #[trigger] pt.owns(t) ==> pt1.owns(t) || k1@.take(used).contains(t)
            &&& changed_outside_tables(pt1, k1@.take(used), m1, mem)
        }),
        !pt.owns(f),
        forall|m: int| 1 <= m < k1@.len() - kmem@.len() ==> pt.owns(#[trigger] k1@[m]),
        forall|q: int| f <= q < f + PGSIZE ==> #[trigger] mem.byte(q) == 0,
        forall|v: int| 0 <= v < va_span() ==> #[trigger] pt.translate(mem, v) == if pg_round_down_spec(v) == a {
            Some(leaf_pte(f, USER_PERM))
        } else {
            pt1.translate(m1, v)
        },
        forall|v: int|
            #[trigger] va_indices(v).0 == va_indices(a).0 && va_indices(v).1 == va_indices(a).1
                ==> pt.tables_needed(mem, v) == 0,
    ensures
        grow_progress(pt, mem, kmem, pt0, m0, k0, start, newsz, a + PGSIZE, datas.push(f)),
{
    reveal(grow_progress);
    let nd = datas.push(f);
    lemma_grow_taken(pt0, pt1, pt, m0, m1, mem, k0, k1, kmem);
    lemma_free_facts(k0, m0);
    lemma_free_facts(k1, m1);
    lemma_tables_aligned(pt1, m1);
    lemma_grow_frames(pt1, m1, k1, pt, mem, kmem, m0, k0, datas, f);
    assert(a == start + PGSIZE * datas.len());
    lemma_grow_step_map(pt1, m1, k1, pt, mem, pt0, m0, k0, start, newsz, a, datas, f);
    lemma_grow_step_used(pt1, m1, pt, mem, pt0, m0, k0@.len() - k1@.len(), k1@.len() - kmem@.len(), start, newsz, a);
    lemma_grow_step_taken(pt1, pt, k0, k1, kmem, datas, f);
}

/// The pages taken after page `a` are still the table pages and the frames
/// of the pages added.
#[verifier::spinoff_prover]
proof fn lemma_grow_step_taken(pt1: &PageTable, pt: &PageTable, k0: &Kmem, k1: &Kmem, kmem: &Kmem, datas: Seq<u64>, f: u64)
    requires
        0 <= k0@.len() - k1@.len(),
        k1@ == k0@.skip(k0@.len() - k1@.len()),
        1 <= k1@.len() - kmem@.len(),
        f == k1@[0],
        forall|m: int| 0 <= m < k0@.len() - k1@.len() ==> pt1.owns(#[trigger] k0@[m]) || datas.contains(k0@[m]),
        forall|t: u64| #[trigger] pt1.owns(t) ==> pt.owns(t),
        forall|m: int| 1 <= m < k1@.len() - kmem@.len() ==> pt.owns(#[trigger] k1@[m]),
    ensures
        forall|m: int| 0 <= m < k0@.len() - kmem@.len() ==> pt.owns(#[trigger] k0@[m]) || datas.push(f).contains(k0@[m]),
{
    let used1 = k0@.len() - k1@.len();
    let nd = datas.push(f);
    assert forall|m: int| 0 <= m < k0@.len() - kmem@.len() implies pt.owns(#[trigger] k0@[m]) || nd.contains(k0@[m]) by {
        if m < used1 {
            if pt1.owns(k0@[m]) {
            } else {
                let x = datas.index_of(k0@[m]);
                assert(nd[x] == k0@[m]);
            }
        } else if m == used1 {
            assert(k1@[0] == k0@[m]);
            assert(nd[datas.len() as int] == f);
        } else {
            assert(k1@[m - used1] == k0@[m]);
        }
    }
}

/// After page `a` got its frame and tables, the pages taken still keep
/// within both bounds.
#[verifier::spinoff_prover]
#[verifier::rlimit(40)]
proof fn lemma_grow_step_used(
    pt1: &PageTable,
    m1: &PhysMem,
    pt: &PageTable,
    mem: &PhysMem,
    pt0: &PageTable,
    m0: &PhysMem,
    used1: int,
    u: int,
    start: int,
    newsz: int,
    a: int,
)
    requires
        0 <= start <= a < newsz,
        start % 4096 == 0,
        a % 4096 == 0,
        1 <= u <= 1 + pt1.tables_needed(m1, a),
        used1 <= (a - start) / (PGSIZE as int) + 2 * blocks_touched(start, a),
        used1 + grow_rest(pt1, m1, a, newsz) <= grow_rest(pt0, m0, start, newsz),
        start < a && a % 0x20_0000 != 0 ==> pt1.tables_needed(m1, a) == 0,
        forall|v: int|
            #[trigger] va_indices(v).0 == va_indices(a).0 && va_indices(v).1 == va_indices(a).1
                ==> pt.tables_needed(mem, v) == 0,
    ensures
        used1 + u <= (a + PGSIZE - start) / (PGSIZE as int) + 2 * blocks_touched(start, a + PGSIZE),
        used1 + u + grow_rest(pt, mem, a + PGSIZE, newsz) <= grow_rest(pt0, m0, start, newsz),
        start < a + PGSIZE && (a + PGSIZE) % 0x20_0000 != 0 ==> pt.tables_needed(mem, a + PGSIZE) == 0,
{
    lemma_rest_step(pt1, m1, pt, mem, a, newsz);
    assert(pt1.tables_needed(m1, a) <= 2);
    lemma_blocks_step(start, a, pt1.tables_needed(m1, a));
}

/// Adding page `a`, which takes one page and the tables it lacks, leaves
/// at least that much less to take; a next page in the same 2 MiB block
/// lacks no table.
#[verifier::spinoff_prover]
#[verifier::rlimit(40)]
proof fn lemma_rest_step(pt1: &PageTable, m1: &PhysMem, pt: &PageTable, mem: &PhysMem, a: int, newsz: int)
    requires
        0 <= a < newsz,
        a % 4096 == 0,
        forall|v: int|
            #[trigger] va_indices(v).0 == va_indices(a).0 && va_indices(v).1 == va_indices(a).1
                ==> pt.tables_needed(mem, v) == 0,
    ensures
        grow_rest(pt, mem, a + 4096, newsz) + 1 + pt1.tables_needed(m1, a) <= grow_rest(pt1, m1, a, newsz),
        (a + 4096) % 0x20_0000 != 0 ==> pt.tables_needed(mem, a + 4096) == 0,
{
    let last = pg_round_down_spec(newsz - 1);
    let na = a + 4096;
    assert(a <= last) by {
        assert(last == (newsz - 1) - (newsz - 1) % 4096);
    }
    lemma_map_rest_step(pt1, m1, pt, mem, a, last);
    if na % 0x20_0000 != 0 {
        lemma_same_block(a, na);
    }
    if na < newsz {
        assert(na <= last);
        assert((last - na) / 4096 + 1 == (last - a) / 4096);
    }
}

/// Each page added costs at most one page, plus two tables when it opens
/// a 2 MiB block.
proof fn lemma_blocks_step(start: int, a: int, needed: int)
    requires
        0 <= start <= a,
        start % 4096 == 0,
        a % 4096 == 0,
        0 <= needed <= 2,
        start < a && a % 0x20_0000 != 0 ==> needed == 0,
    ensures
        1 + needed + (a - start) / 4096 + 2 * blocks_touched(start, a) <= (a + 4096 - start) / 4096 + 2
            * blocks_touched(start, a + 4096),
{
    assert((a + 4096 - start) / 4096 == (a - start) / 4096 + 1);
    if a > start {
        if a % 0x20_0000 != 0 {
            assert(a / 0x20_0000 == (a - 4096) / 0x20_0000);
        } else {
            assert(a / 0x20_0000 == (a - 4096) / 0x20_0000 + 1);
        }
    }
}

/// What `uvmalloc` took is within what it may take.
proof fn lemma_grow_used(
    pt: &PageTable,
    mem: &PhysMem,
    kmem: &Kmem,
    pt0: &PageTable,
    m0: &PhysMem,
    k0: &Kmem,
    oldsz: int,
    newsz: int,
    a: int,
    datas: Seq<u64>,
)
    requires
        grow_progress(pt, mem, kmem, pt0, m0, k0, pg_round_up_spec(oldsz), newsz, a, datas),
        0 <= oldsz <= newsz,
        newsz <= a,
    ensures
        k0@.len() - kmem@.len() <= grow_need(pt0, m0, oldsz, newsz),
{
    reveal(grow_progress);
    assert(grow_rest(pt, mem, a, newsz) == 0);
}

/// `uvmalloc` stopped at page `e`, the first page that the allocator could
/// not pay for (its frame and the tables it lacks): the pages from `oldsz`
/// rounded up to below `e` are fresh, those from `e` to `newsz` are still
/// unmapped, every other page maps as before, and the pages taken are
/// exactly new table pages and the frames of the pages added.
pub open spec fn grow_stopped(
    pt: &PageTable,
    mem: &PhysMem,
    k0: &Kmem,
    kmem: &Kmem,
    pt0: &PageTable,
    m0: &PhysMem,
    oldsz: int,
    newsz: int,
    e: int,
) -> bool {
    &&& kmem@.len() < 1 + pt.tables_needed(mem, e)
    &&& forall|v: int| 0 <= v < va_span() ==> if grown(oldsz, e, v) {
        fresh_user_page(pt, mem, k0, kmem, v)
    } else {
        #[trigger] pt.translate(mem, v) == pt0.translate(m0, v)
    }
    &&& forall|v: int| 0 <= v < va_span() && e <= pg_round_down_spec(v) < newsz ==> #[trigger] pt.translate(mem, v) is None
    &&& took_only(pt, mem, pt0, k0, kmem, oldsz, e)
}

/// The pages taken from the front of the free list are exactly new table
/// pages of `pt` and the frames of the pages from `oldsz` rounded up to
/// below `e`.
pub open spec fn took_only(pt: &PageTable, mem: &PhysMem, pt0: &PageTable, k0: &Kmem, kmem: &Kmem, oldsz: int, e: int) -> bool {
    forall|m: int|
        0 <= m < k0@.len() - kmem@.len() ==> (pt.owns(#[trigger] k0@[m]) && !pt0.owns(k0@[m])) || exists|v: int|
            0 <= v < va_span() && grown(oldsz, e, v) && #[trigger] frame_of(pt, mem, v) == k0@[m]
}

/// Every page `uvmalloc` has taken so far is a new table page or the frame
/// of a page it added.
#[verifier::spinoff_prover]
#[verifier::rlimit(40)]
proof fn lemma_grow_took(
    pt: &PageTable,
    mem: &PhysMem,
    kmem: &Kmem,
    pt0: &PageTable,
    m0: &PhysMem,
    k0: &Kmem,
    oldsz: int,
    newsz: int,
    a: int,
    datas: Seq<u64>,
    e: int,
)
    requires
        grow_progress(pt, mem, kmem, pt0, m0, k0, pg_round_up_spec(oldsz), newsz, a, datas),
        pt0.apart_from_free(k0),
        0 <= oldsz <= e,
        pg_round_up_spec(oldsz) <= a < va_span(),
        a % 4096 == 0,
        a <= e || a == pg_round_down_spec(e - 1) + 4096,
    ensures
        took_only(pt, mem, pt0, k0, kmem, oldsz, e),
{
    lemma_grow_took_facts(pt, mem, kmem, pt0, m0, k0, pg_round_up_spec(oldsz), newsz, a, datas);
    lemma_took_pages(pt, mem, kmem, pt0, k0, oldsz, a, datas, e);
}

/// What `lemma_took_pages` needs of a state of `uvmalloc`.
proof fn lemma_grow_took_facts(
    pt: &PageTable,
    mem: &PhysMem,
    kmem: &Kmem,
    pt0: &PageTable,
    m0: &PhysMem,
    k0: &Kmem,
    start: int,
    newsz: int,
    a: int,
    datas: Seq<u64>,
)
    requires
        grow_progress(pt, mem, kmem, pt0, m0, k0, start, newsz, a, datas),
    ensures
        0 <= k0@.len() - kmem@.len() <= k0@.len(),
        a == start + 4096 * datas.len(),
        forall|m: int| 0 <= m < k0@.len() - kmem@.len() ==> pt.owns(#[trigger] k0@[m]) || datas.contains(k0@[m]),
        forall|i: int| 0 <= i < datas.len() ==> #[trigger] datas[i] % PGSIZE == 0,
        forall|v: int| 0 <= v < va_span() ==> #[trigger] pt.translate(mem, v) == if start <= pg_round_down_spec(v) < a {
            Some(leaf_pte(datas[(pg_round_down_spec(v) - start) / (PGSIZE as int)], USER_PERM))
        } else {
            pt0.translate(m0, v)
        },
{
    reveal(grow_progress);
}

/// The pages taken are new table pages or the frames of the pages from
/// `start` on.
#[verifier::spinoff_prover]
#[verifier::rlimit(40)]
proof fn lemma_took_pages(
    pt: &PageTable,
    mem: &PhysMem,
    kmem: &Kmem,
    pt0: &PageTable,
    k0: &Kmem,
    oldsz: int,
    a: int,
    datas: Seq<u64>,
    e: int,
)
    requires
        pt0.apart_from_free(k0),
        0 <= oldsz <= e,
        pg_round_up_spec(oldsz) <= a < va_span(),
        a <= e || a == pg_round_down_spec(e - 1) + 4096,
        0 <= k0@.len() - kmem@.len() <= k0@.len(),
        a == pg_round_up_spec(oldsz) + 4096 * datas.len(),
        forall|m: int| 0 <= m < k0@.len() - kmem@.len() ==> pt.owns(#[trigger] k0@[m]) || datas.contains(k0@[m]),
        forall|i: int| 0 <= i < datas.len() ==> #[trigger] datas[i] % PGSIZE == 0,
        forall|v: int| 0 <= v < va_span() && pg_round_up_spec(oldsz) <= pg_round_down_spec(v) < a ==> #[trigger] pt.translate(
            mem,
            v,
        ) == Some(leaf_pte(datas[(pg_round_down_spec(v) - pg_round_up_spec(oldsz)) / (PGSIZE as int)], USER_PERM)),
    ensures
        took_only(pt, mem, pt0, k0, kmem, oldsz, e),
{
    reveal(PageTable::apart_from_free);
    lemma_user_perm();
    let start = pg_round_up_spec(oldsz);
    assert(start % 4096 == 0);
    assert forall|m: int| 0 <= m < k0@.len() - kmem@.len() implies (pt.owns(#[trigger] k0@[m]) && !pt0.owns(k0@[m]))
        || exists|v: int| 0 <= v < va_span() && grown(oldsz, e, v) && #[trigger] frame_of(pt, mem, v) == k0@[m] by {
        assert(k0.is_free(k0@[m]));
        if !pt.owns(k0@[m]) {
            let i = datas.index_of(k0@[m]);
            let v = start + 4096 * i;
            assert(0 <= i < datas.len());
            assert(pg_round_down_spec(v) == v);
            assert((v - start) / 4096 == i);
            lemma_leaf_pte(datas[i], USER_PERM);
            assert(pt.translate(mem, v) == Some(leaf_pte(datas[i], USER_PERM)));
            assert(v < a);
            assert(v < e) by {
                if a > e {
                    assert(v <= pg_round_down_spec(e - 1));
                    assert(pg_round_down_spec(e - 1) <= e - 1);
                }
            }
            assert(grown(oldsz, e, v));
            assert(frame_of(pt, mem, v) == k0@[m]);
        }
    }
}

/// When `uvmalloc` has added every page, the pages taken are exactly new
/// table pages and the frames of the pages added.
#[verifier::spinoff_prover]
proof fn lemma_grow_finish(
    pt: &PageTable,
    mem: &PhysMem,
    kmem: &Kmem,
    pt0: &PageTable,
    m0: &PhysMem,
    k0: &Kmem,
    oldsz: int,
    newsz: int,
    a: int,
    datas: Seq<u64>,
)
    requires
        grow_progress(pt, mem, kmem, pt0, m0, k0, pg_round_up_spec(oldsz), newsz, a, datas),
        pt0.apart_from_free(k0),
        0 <= oldsz <= newsz,
        pg_round_up_spec(oldsz) <= a,
        newsz <= a < newsz + PGSIZE,
        a % 4096 == 0,
        pg_round_up_spec(oldsz) < newsz ==> pg_round_down_spec(newsz - 1) <= MAXVA,
    ensures
        took_only(pt, mem, pt0, k0, kmem, oldsz, newsz),
{
    let start = pg_round_up_spec(oldsz);
    if start < newsz {
        assert(a == pg_round_down_spec(newsz - 1) + 4096) by {
            reveal(grow_progress);
        }
        lemma_grow_took(pt, mem, kmem, pt0, m0, k0, oldsz, newsz, a, datas, newsz);
    } else {
        assert(k0@.len() - kmem@.len() == 0) by {
            reveal(grow_progress);
            assert(a == start);
            assert(grow_rest(pt0, m0, start, newsz) == 0);
        }
    }
}

/// When the allocator cannot pay for page `a`, it could not pay for the
/// whole range either, and the pages before `a` are fresh.
#[verifier::spinoff_prover]
#[verifier::rlimit(60)]
proof fn lemma_grow_short(
    pt: &PageTable,
    mem: &PhysMem,
    kmem: &Kmem,
    pt0: &PageTable,
    m0: &PhysMem,
    k0: &Kmem,
    oldsz: int,
    newsz: int,
    a: int,
    datas: Seq<u64>,
)
    requires
        grow_progress(pt, mem, kmem, pt0, m0, k0, pg_round_up_spec(oldsz), newsz, a, datas),
        0 <= oldsz <= newsz,
        pg_round_up_spec(oldsz) <= a < newsz,
        a % 4096 == 0,
        kmem@.len() < 1 + pt.tables_needed(mem, a),
        pt0.apart_from_free(k0),
        a < va_span(),
        forall|v: int| grown(oldsz, newsz, v) ==> #[trigger] pt0.translate(m0, v) is None,
    ensures
        !grow_budget(pt0, m0, k0, oldsz, newsz),
        grow_stopped(pt, mem, k0, kmem, pt0, m0, oldsz, newsz, a),
{
    reveal(grow_progress);
    lemma_user_perm();
    let start = pg_round_up_spec(oldsz);
    let last = pg_round_down_spec(newsz - 1);
    assert(a <= last) by {
        assert(last == (newsz - 1) - (newsz - 1) % 4096);
    }
    assert(last / 0x20_0000 >= a / 0x20_0000);
    assert(last / 0x4000_0000 >= a / 0x4000_0000);
    assert(grow_rest(pt, mem, a, newsz) >= 1 + pt.tables_needed(mem, a));
    assert forall|v: int| 0 <= v < va_span() implies if grown(oldsz, a, v) {
        fresh_user_page(pt, mem, k0, kmem, v)
    } else {
        #[trigger] pt.translate(mem, v) == pt0.translate(m0, v)
    } by {
        if grown(oldsz, a, v) {
            let i = (pg_round_down_spec(v) - start) / (PGSIZE as int);
            assert(0 <= i < datas.len());
            let d = datas[i];
            assert(k0.is_free(d));
            lemma_leaf_pte(d, USER_PERM);
            assert(pt.translate(mem, v) == Some(leaf_pte(d, USER_PERM)));
            assert(frame_of(pt, mem, v) == d);
        }
    }
    assert forall|v: int| 0 <= v < va_span() && a <= pg_round_down_spec(v) < newsz implies #[trigger] pt.translate(mem, v)
        is None by {
        assert(grown(oldsz, newsz, v));
        assert(pt.translate(mem, v) == pt0.translate(m0, v));
    }
    lemma_grow_took(pt, mem, kmem, pt0, m0, k0, oldsz, newsz, a, datas, a);
}

/// What every state of `uvmalloc` guarantees: the table and the allocator
/// are sound, and the pages taken, at most `grow_need`, come from the
/// front of the free list.
#[verifier::spinoff_prover]
#[verifier::rlimit(60)]
proof fn lemma_grow_state(
    pt: &PageTable,
    mem: &PhysMem,
    kmem: &Kmem,
    pt0: &PageTable,
    m0: &PhysMem,
    k0: &Kmem,
    oldsz: int,
    newsz: int,
    a: int,
    datas: Seq<u64>,
)
    requires
        grow_progress(pt, mem, kmem, pt0, m0, k0, pg_round_up_spec(oldsz), newsz, a, datas),
        0 <= oldsz <= newsz,
        pg_round_up_spec(oldsz) <= a,
        a % 4096 == 0,
    ensures
        pt.wf(mem),
        pt.apart_from_free(kmem),
        kmem.wf(mem),
        pt.root == pt0.root,
        kmem.end == k0.end,
        ({
            let used = k0@.len() - kmem@.len();
            &&& 0 <= used
            &&& used <= grow_need(pt0, m0, oldsz, newsz)
            &&& kmem@ == k0@.skip(used)
            &&& forall|t: u64| #[trigger] pt0.owns(t) ==> pt.owns(t)
            &&& forall|t: u64| #[trigger] pt.owns(t) ==> pt0.owns(t) || k0@.take(used).contains(t)
            &&& changed_outside_tables(pt0, k0@.take(used), m0, mem)
        }),
{
    reveal(grow_progress);
    if a < newsz {
        let last = pg_round_down_spec(newsz - 1);
        assert(a <= last) by {
            assert(last == (newsz - 1) - (newsz - 1) % 4096);
        }
        assert(last / 0x20_0000 >= a / 0x20_0000);
        assert(last / 0x4000_0000 >= a / 0x4000_0000);
        assert(pt.tables_needed(mem, a) >= 0);
    }
    assert(grow_rest(pt, mem, a, newsz) >= 0);
}

/// When `uvmalloc` is done, every page added is fresh, and no two share a
/// frame.
#[verifier::spinoff_prover]
#[verifier::rlimit(60)]
proof fn lemma_grow_done(
    pt: &PageTable,
    mem: &PhysMem,
    kmem: &Kmem,
    pt0: &PageTable,
    m0: &PhysMem,
    k0: &Kmem,
    oldsz: int,
    newsz: int,
    a: int,
    datas: Seq<u64>,
)
    requires
        grow_progress(pt, mem, kmem, pt0, m0, k0, pg_round_up_spec(oldsz), newsz, a, datas),
        0 <= oldsz <= newsz,
        newsz <= a < newsz + PGSIZE,
        a % 4096 == 0,
        pg_round_up_spec(oldsz) % 4096 == 0,
    ensures
        pt.wf(mem),
        pt.apart_from_free(kmem),
        kmem.wf(mem),
        pt.root == pt0.root,
        kmem.end == k0.end,
        ({
            let used = k0@.len() - kmem@.len();
            &&& 0 <= used
            &&& used <= grow_cost(oldsz, newsz)
            &&& kmem@ == k0@.skip(used)
            &&& forall|t: u64| #[trigger] pt0.owns(t) ==> pt.owns(t)
            &&& forall|t: u64| #[trigger] pt.owns(t) ==> pt0.owns(t) || k0@.take(used).contains(t)
            &&& changed_outside_tables(pt0, k0@.take(used), m0, mem)
        }),
        forall|v: int| 0 <= v < va_span() ==> if grown(oldsz, newsz, v) {
            fresh_user_page(pt, mem, k0, kmem, v)
        } else {
            #[trigger] pt.translate(mem, v) == pt0.translate(m0, v)
        },
        forall|v1: int, v2: int|
            0 <= v1 < va_span() && 0 <= v2 < va_span() && grown(oldsz, newsz, v1) && grown(oldsz, newsz, v2)
                && pg_round_down_spec(v1) != pg_round_down_spec(v2) ==> #[trigger] frame_of(pt, mem, v1)
                != #[trigger] frame_of(pt, mem, v2),
{
    reveal(grow_progress);
    lemma_user_perm();
    let start = pg_round_up_spec(oldsz);
    if start < newsz {
        let last = pg_round_down_spec(newsz - 1);
        assert(a == last + 4096);
        assert((a - start) / 4096 == (last - start) / 4096 + 1);
    }
    assert forall|v: int| 0 <= v < va_span() implies if grown(oldsz, newsz, v) {
        fresh_user_page(pt, mem, k0, kmem, v)
    } else {
        #[trigger] pt.translate(mem, v) == pt0.translate(m0, v)
    } by {
        if grown(oldsz, newsz, v) {
            let i = (pg_round_down_spec(v) - start) / (PGSIZE as int);
            assert(0 <= i < datas.len());
            let d = datas[i];
            assert(k0.is_free(d));
            lemma_leaf_pte(d, USER_PERM);
            assert(pt.translate(mem, v) == Some(leaf_pte(d, USER_PERM)));
            assert(frame_of(pt, mem, v) == d);
        }
    }
    assert forall|v1: int, v2: int|
        0 <= v1 < va_span() && 0 <= v2 < va_span() && grown(oldsz, newsz, v1) && grown(oldsz, newsz, v2)
            && pg_round_down_spec(v1) != pg_round_down_spec(v2) implies #[trigger] frame_of(pt, mem, v1)
            != #[trigger] frame_of(pt, mem, v2) by {
        let i1 = (pg_round_down_spec(v1) - start) / (PGSIZE as int);
        let i2 = (pg_round_down_spec(v2) - start) / (PGSIZE as int);
        assert(k0.is_free(datas[i1]) && k0.is_free(datas[i2]));
        lemma_leaf_pte(datas[i1], USER_PERM);
        lemma_leaf_pte(datas[i2], USER_PERM);
        assert(pt.translate(mem, v1) == Some(leaf_pte(datas[i1], USER_PERM)));
        assert(pt.translate(mem, v2) == Some(leaf_pte(datas[i2], USER_PERM)));
        assert(i1 != i2);
        if i1 < i2 {
            assert(datas[i1] != datas[i2]);
        } else {
            assert(datas[i2] != datas[i1]);
        }
    }
}

/// Grows a user address space from `oldsz` to `newsz` bytes: each page
/// from `oldsz` rounded up to below `newsz` gets a fresh zero-filled frame,
/// mapped for the user with read, write and execute. Returns `newsz`, or
/// `oldsz` unchanged when `newsz` is smaller. When the allocator cannot
/// pay for a page (its frame and the tables it lacks), returns 0 there
/// (`grow_stopped`): the pages before it stay mapped and nothing more is
/// taken. That cannot happen when the allocator holds `grow_need`. A page
/// of the range already mapped stops the kernel, so the range must be
/// unmapped.
#[verifier::spinoff_prover]
#[verifier::rlimit(60)]
pub fn uvmalloc(pgtbl: &mut PageTable, mem: &mut PhysMem, kmem: &mut Kmem, oldsz: u64, newsz: u64) -> (r: u64)
    requires
        old(pgtbl).wf(old(mem)),
        old(pgtbl).apart_from_free(old(kmem)),
        old(kmem).wf(old(mem)),
        oldsz + PGSIZE - 1 <= u64::MAX,
        oldsz <= newsz && pg_round_up_spec(oldsz as int) < newsz ==> pg_round_down_spec(newsz - 1) <= MAXVA,
        forall|v: int| grown(oldsz as int, newsz as int, v) ==> #[trigger] old(pgtbl).translate(old(mem), v) is None,
    ensures
        r == 0 || r == if newsz < oldsz { oldsz } else { newsz },
        final(pgtbl).wf(final(mem)),
        final(pgtbl).apart_from_free(final(kmem)),
        final(kmem).wf(final(mem)),
        final(pgtbl).root == old(pgtbl).root,
        final(kmem).end == old(kmem).end,
        ({
            let used = old(kmem)@.len() - final(kmem)@.len();
            &&& 0 <= used
            &&& used <= grow_need(old(pgtbl), old(mem), oldsz as int, newsz as int)
            &&& final(kmem)@ == old(kmem)@.skip(used)
            &&& forall|t: u64| #[trigger] old(pgtbl).owns(t) ==> final(pgtbl).owns(t)
            &&& forall|t: u64| #[trigger] final(pgtbl).owns(t) ==> old(pgtbl).owns(t) || old(kmem)@.take(used).contains(t)
            &&& changed_outside_tables(old(pgtbl), old(kmem)@.take(used), old(mem), final(mem))
        }),
        grow_budget(old(pgtbl), old(mem), old(kmem), oldsz as int, newsz as int) ==> {
            &&& r == if newsz < oldsz { oldsz } else { newsz }
            &&& old(kmem)@.len() - final(kmem)@.len() <= grow_cost(oldsz as int, newsz as int)
            &&& (oldsz <= newsz ==> took_only(final(pgtbl), final(mem), old(pgtbl), old(kmem), final(kmem), oldsz as int,
                newsz as int))
            &&& forall|v: int| 0 <= v < va_span() ==> if grown(oldsz as int, newsz as int, v) {
                fresh_user_page(final(pgtbl), final(mem), old(kmem), final(kmem), v)
            } else {
                #[trigger] final(pgtbl).translate(final(mem), v) == old(pgtbl).translate(old(mem), v)
            }
            &&& forall|v1: int, v2: int|
                0 <= v1 < va_span() && 0 <= v2 < va_span() && grown(oldsz as int, newsz as int, v1) && grown(
                    oldsz as int,
                    newsz as int,
                    v2,
                ) && pg_round_down_spec(v1) != pg_round_down_spec(v2) ==> #[trigger] frame_of(final(pgtbl), final(mem), v1)
                    != #[trigger] frame_of(final(pgtbl), final(mem), v2)
        },
        r == 0 && newsz != 0 ==> {
            &&& oldsz <= newsz
            &&& !grow_budget(old(pgtbl), old(mem), old(kmem), oldsz as int, newsz as int)
            &&& exists|e: int|
                pg_round_up_spec(oldsz as int) <= e < newsz && e % 4096 == 0 && #[trigger] grow_stopped(
                    final(pgtbl),
                    final(mem),
                    old(kmem),
                    final(kmem),
                    old(pgtbl),
                    old(mem),
                    oldsz as int,
                    newsz as int,
                    e,
                )
        },
{
    let ghost pt0 = *pgtbl;
    let ghost m0 = *mem;
    let ghost k0 = *kmem;
    if newsz < oldsz {
        proof {
            assert(k0@.skip(0) =~= k0@);
            assert(k0@.take(0) =~= Seq::<u64>::empty());
        }
        return oldsz;
    }
    let start = pg_round_up(oldsz);
    let mut a = start;
    let ghost mut datas: Seq<u64> = Seq::empty();
    proof {
        lemma_grow_start(&pt0, &m0, &k0, oldsz as int, newsz as int);
    }
    while a < newsz
        invariant
            grow_progress(pgtbl, mem, kmem, &pt0, &m0, &k0, start as int, newsz as int, a as int, datas),
            start == pg_round_up_spec(oldsz as int),
            start % PGSIZE == 0,
            start <= a,
            a % PGSIZE == 0,
            a < newsz + PGSIZE,
            oldsz <= newsz,
            start < newsz ==> pg_round_down_spec(newsz - 1) <= MAXVA,
            forall|v: int| grown(oldsz as int, newsz as int, v) ==> #[trigger] pt0.translate(&m0, v) is None,
            k0.wf(&m0),
            pt0.apart_from_free(&k0),
            pt0 == *old(pgtbl),
            m0 == *old(mem),
            k0 == *old(kmem),
        decreases newsz + PGSIZE - a,
    {
        let ghost pt1 = *pgtbl;
        let ghost m1 = *mem;
        let ghost k1 = *kmem;
        proof {
            assert(a <= pg_round_down_spec(newsz - 1));
            assert forall|v: int| start <= pg_round_down_spec(v) < newsz implies #[trigger] pt0.translate(&m0, v)
                is None by {
                assert(grown(oldsz as int, newsz as int, v));
            }
        }
        proof {
            lemma_grow_state(pgtbl, mem, kmem, &pt0, &m0, &k0, oldsz as int, newsz as int, a as int, datas);
            lemma_free_facts(kmem, mem);
        }
        let need = pgtbl.missing_tables(mem, a);
        if (kmem.page_count as u64) < 1 + need {
            proof {
                lemma_grow_short(pgtbl, mem, kmem, &pt0, &m0, &k0, oldsz as int, newsz as int, a as int, datas);
            }
            return 0;
        }
        proof {
            lemma_grow_pre(pgtbl, mem, kmem, &pt0, &m0, &k0, start as int, newsz as int, a as int, datas);
        }
        let f = alloc_user_page(pgtbl, mem, kmem, a);
        proof {
            lemma_grow_step(&pt1, &m1, &k1, pgtbl, mem, kmem, &pt0, &m0, &k0, start as int, newsz as int,
                a as int, datas, f);
            datas = datas.push(f);
        }
        a = a + PGSIZE;
    }
    proof {
        lemma_grow_done(pgtbl, mem, kmem, &pt0, &m0, &k0, oldsz as int, newsz as int, a as int, datas);
        lemma_grow_used(pgtbl, mem, kmem, &pt0, &m0, &k0, oldsz as int, newsz as int, a as int, datas);
        lemma_grow_finish(pgtbl, mem, kmem, &pt0, &m0, &k0, oldsz as int, newsz as int, a as int, datas);
    }
    newsz
}

} // verus!
