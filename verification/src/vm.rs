//! Sv39 page tables. The root entries are held in the table's value and,
//! word for word, in its root page, where the hardware reads them: the
//! kernel table's static in the kernel image, or a page from the
//! allocator for a process. The level-1 and level-0 tables below the root
//! live in physical memory and come from the allocator.
use vstd::prelude::*;
use crate::memory::{PhysMem, changed_only, changed_within, outside_pages, lemma_word_outside_pages,
    lemma_word_outside, lemma_page_change, lemma_part_page_change, lemma_changes_compose, lemma_zero_word};
use crate::kalloc::{lemma_kmem_frame, valid_frame};
use crate::string::{memset, memmove};
use crate::memlayout::PHYSTOP;
use crate::kalloc::Kmem;
use crate::riscv::{PGSIZE, MAXVA, PTE_V, PTE_U, PTE_R, PTE_W, PTE_X, px, px_spec, pte2pa, pte2pa_spec, pa2pte, pa2pte_spec, pte_valid, pte_user, leaf_pte, lemma_leaf_pte, lemma_leaf_valid, lemma_zero_invalid, pg_round_down, pg_round_down_spec, pg_round_up, pg_round_up_spec};

verus! {

/// One page-table entry.
#[derive(Clone, Copy, Debug, Default)]
pub struct PageTableEntry {
    pub data: u64,
}

impl PageTableEntry {
    /// The invalid entry.
    pub fn zero() -> (e: PageTableEntry)
        ensures
            e.data == 0,
    {
        PageTableEntry { data: 0 }
    }
}

/// Number of entries in a page-table page.
pub const ENTRY_NUMS: usize = 512;

/// A page table: the 512 root entries, the page that holds them, and, as
/// ghost state, the pages of the table, each with the position it serves
/// (`root_code()` for the root page, `i` for the level-1 table under root
/// entry `i`, `512 + 512 * i + j` for the level-0 table under entry `j` of
/// that one).
pub struct PageTable {
    pub entries: Vec<PageTableEntry>,
    /// The page that holds the root entries (0 for a table that has none
    /// yet).
    pub root: u64,
    pub tables: Ghost<Map<u64, int>>,
}

/// Position code of the root page.
pub open spec fn root_code() -> int {
    -1
}

/// Position code of the level-1 table under root entry `i`.
pub open spec fn l1_code(i: int) -> int {
    i
}

/// Position code of the level-0 table under entry `j` of level-1 table `i`.
pub open spec fn l0_code(i: int, j: int) -> int {
    512 + 512 * i + j
}

/// The 9-bit indices of `va` at levels 2, 1 and 0.
pub open spec fn va_indices(va: int) -> (int, int, int) {
    (px_spec(2, va), px_spec(1, va), px_spec(0, va))
}

impl PageTable {
    pub open spec fn root_pte(&self, i: int) -> u64 {
        self.entries@[i].data
    }

    /// Root entry `i` points to a level-1 table.
    pub open spec fn l1_present(&self, i: int) -> bool {
        pte_valid(self.root_pte(i))
    }

    /// Address of the level-1 table under root entry `i`.
    pub open spec fn l1_table(&self, i: int) -> u64 {
        pte2pa_spec(self.root_pte(i))
    }

    /// Entry `j` of the level-1 table under root entry `i`.
    pub open spec fn l1_pte(&self, mem: &PhysMem, i: int, j: int) -> u64 {
        mem.word(self.l1_table(i) + 8 * j)
    }

    /// The path `i`, `j` reaches a level-0 table.
    pub open spec fn l0_present(&self, mem: &PhysMem, i: int, j: int) -> bool {
        self.l1_present(i) && pte_valid(self.l1_pte(mem, i, j))
    }

    /// Address of the level-0 table on the path `i`, `j`.
    pub open spec fn l0_table(&self, mem: &PhysMem, i: int, j: int) -> u64 {
        pte2pa_spec(self.l1_pte(mem, i, j))
    }

    /// Address of the level-0 PTE for `va`, when the path to it exists.
    pub open spec fn pte_addr(&self, mem: &PhysMem, va: int) -> Option<u64> {
        let (i, j, k) = va_indices(va);
        if self.l0_present(mem, i, j) {
            Some((self.l0_table(mem, i, j) + 8 * k) as u64)
        } else {
            None
        }
    }

    /// The level-0 PTE for `va`, valid or not, when the path to it exists.
    pub open spec fn leaf(&self, mem: &PhysMem, va: int) -> Option<u64> {
        match self.pte_addr(mem, va) {
            Some(a) => Some(mem.word(a as int)),
            None => None,
        }
    }

    /// The valid PTE that maps `va`, if any.
    #[verifier::opaque]
    pub open spec fn translate(&self, mem: &PhysMem, va: int) -> Option<u64> {
        match self.leaf(mem, va) {
            Some(pte) => if pte_valid(pte) {
                Some(pte)
            } else {
                None
            },
            None => None,
        }
    }

    /// How many new table pages a walk that allocates needs for `va`.
    pub open spec fn tables_needed(&self, mem: &PhysMem, va: int) -> int {
        let (i, j, k) = va_indices(va);
        if !self.l1_present(i) {
            2
        } else if !pte_valid(self.l1_pte(mem, i, j)) {
            1
        } else {
            0
        }
    }

    /// The page holds one table of this page table.
    pub open spec fn owns(&self, t: u64) -> bool {
        self.tables@.contains_key(t)
    }

    /// The table is sound: its tree of tables is (`wf_tables`), and its
    /// root page holds the root entries (`mirrored`).
    #[verifier::opaque]
    pub open spec fn wf(&self, mem: &PhysMem) -> bool {
        &&& self.wf_tables(mem)
        &&& self.mirrored(mem)
    }

    /// The root page is one of the table's pages, marked as the root, and
    /// holds the root entries word for word, as the hardware reads them.
    #[verifier::opaque]
    pub open spec fn mirrored(&self, mem: &PhysMem) -> bool {
        self.root != 0 ==> {
            &&& self.owns(self.root)
            &&& self.tables@[self.root] == root_code()
            &&& forall|i: int| 0 <= i < 512 ==> #[trigger] mem.word(self.root + 8 * i) == self.root_pte(i)
        }
    }

    /// The tree of tables in `mem` is sound: every table reached lies in
    /// memory on a page of its own that serves exactly one position.
    #[verifier::opaque]
    pub open spec fn wf_tables(&self, mem: &PhysMem) -> bool {
        &&& self.entries@.len() == ENTRY_NUMS
        &&& mem.wf()
        &&& forall|t: u64| #[trigger] self.owns(t) ==> t % PGSIZE == 0 && mem.contains(t as int, PGSIZE as int)
        &&& forall|i: int|
            0 <= i < 512 && #[trigger] self.l1_present(i) ==> self.owns(self.l1_table(i))
                && self.tables@[self.l1_table(i)] == l1_code(i)
        &&& forall|i: int, j: int|
            0 <= i < 512 && 0 <= j < 512 && #[trigger] self.l0_present(mem, i, j) ==> self.owns(
                self.l0_table(mem, i, j),
            ) && self.tables@[self.l0_table(mem, i, j)] == l0_code(i, j)
    }

    /// None of the table pages is on the allocator's free list.
    #[verifier::opaque]
    pub open spec fn apart_from_free(&self, kmem: &Kmem) -> bool {
        forall|t: u64| #[trigger] self.owns(t) ==> !kmem.is_free(t)
    }

    /// An empty page table: every root entry invalid.
    pub fn zero() -> (pt: PageTable)
        ensures
            pt.entries@.len() == ENTRY_NUMS,
            forall|i: int| 0 <= i < 512 ==> #[trigger] pt.root_pte(i) == 0,
            pt.tables@ == Map::<u64, int>::empty(),
            pt.root == 0,
    {
        let mut entries: Vec<PageTableEntry> = Vec::new();
        let mut i: usize = 0;
        while i < ENTRY_NUMS
            invariant
                i <= ENTRY_NUMS,
                entries@.len() == i,
                forall|k: int| 0 <= k < i ==> #[trigger] entries@[k].data == 0,
            decreases ENTRY_NUMS - i,
        {
            entries.push(PageTableEntry::zero());
            i = i + 1;
        }
        PageTable { entries, root: 0, tables: Ghost(Map::empty()) }
    }
}

/// A table whose root entries are all invalid, held in a zeroed page that
/// is its only page, is sound, maps nothing and keeps off the free list
/// when that page is not free.
pub proof fn lemma_root_table(pt: &PageTable, mem: &PhysMem, kmem: &Kmem)
    requires
        pt.entries@.len() == ENTRY_NUMS,
        forall|i: int| 0 <= i < 512 ==> #[trigger] pt.root_pte(i) == 0,
        pt.tables@ == Map::<u64, int>::empty().insert(pt.root, root_code()),
        pt.root != 0,
        pt.root % PGSIZE == 0,
        mem.wf(),
        mem.contains(pt.root as int, PGSIZE as int),
        forall|q: int| pt.root <= q < pt.root + PGSIZE ==> #[trigger] mem.byte(q) == 0,
        !kmem.is_free(pt.root),
    ensures
        pt.wf(mem),
        pt.apart_from_free(kmem),
        forall|v: int| #[trigger] pt.translate(mem, v) is None,
        forall|t: u64| #[trigger] pt.owns(t) ==> t == pt.root,
{
    reveal(PageTable::wf);
    reveal(PageTable::wf_tables);
    reveal(PageTable::mirrored);
    reveal(PageTable::apart_from_free);
    reveal(PageTable::translate);
    lemma_zero_invalid();
    assert forall|v: int| #[trigger] pt.translate(mem, v) is None by {
        let (i, j, k) = va_indices(v);
        assert(0 <= i < 512) by {
            assert(px_spec(2, v) == (v / 0x4000_0000) % 512);
        }
        assert(pt.root_pte(i) == 0);
    }
    assert forall|i: int| 0 <= i < 512 implies #[trigger] mem.word(pt.root + 8 * i) == pt.root_pte(i) by {
        lemma_zero_word(mem, pt.root + 8 * i);
    }
}

/// `after` differs from `before` only inside the table pages of `pt`.
#[verifier::opaque]
pub open spec fn changed_in_tables(pt: &PageTable, before: &PhysMem, after: &PhysMem) -> bool {
    &&& after.base == before.base
    &&& after.bytes@.len() == before.bytes@.len()
    &&& forall|q: int|
        after.contains(q, 1) && (forall|t: u64| #[trigger] pt.owns(t) ==> !(t <= q < t + 4096))
            ==> #[trigger] after.byte(q) == before.byte(q)
}

/// The table pages of `after` are those of `before` and those taken from
/// the front of the free list, which shrank by exactly those.
#[verifier::opaque]
pub open spec fn took_tables(before: &PageTable, after: &PageTable, k0: &Kmem, k1: &Kmem, used: int) -> bool {
    &&& 0 <= used <= k0@.len()
    &&& k1@ == k0@.skip(used)
    &&& k1.end == k0.end
    &&& forall|t: u64| #[trigger] after.owns(t) <== before.owns(t)
    &&& forall|t: u64| #[trigger] after.owns(t) ==> before.owns(t) || k0@.take(used).contains(t)
    &&& forall|m: int| 0 <= m < used ==> after.owns(#[trigger] k0@[m])
}

/// `pt1` over `m1` and `k1` extends `pt0` over `m0` and `k0` by `used`
/// table pages from the front of the free list: memory changed only inside
/// table pages, every lookup that succeeded still gives the same PTE, and
/// no new valid mapping appeared.
#[verifier::opaque]
pub open spec fn grows(
    pt0: &PageTable,
    m0: &PhysMem,
    k0: &Kmem,
    pt1: &PageTable,
    m1: &PhysMem,
    k1: &Kmem,
    used: int,
) -> bool {
    &&& pt1.wf(m1)
    &&& pt1.apart_from_free(k1)
    &&& k1.wf(m1)
    &&& took_tables(pt0, pt1, k0, k1, used)
    &&& changed_in_tables(pt1, m0, m1)
    &&& forall|v: int| #[trigger] pt0.pte_addr(m0, v) is Some ==> pt1.pte_addr(m1, v) == pt0.pte_addr(m0, v)
        && pt1.leaf(m1, v) == pt0.leaf(m0, v)
    &&& forall|v: int| #[trigger] pt1.translate(m1, v) == pt0.translate(m0, v)
}

/// Growth composes.
proof fn lemma_grows_trans(
    pt0: &PageTable,
    m0: &PhysMem,
    k0: &Kmem,
    pt1: &PageTable,
    m1: &PhysMem,
    k1: &Kmem,
    pt2: &PageTable,
    m2: &PhysMem,
    k2: &Kmem,
    u1: int,
    u2: int,
)
    requires
        grows(pt0, m0, k0, pt1, m1, k1, u1),
        grows(pt1, m1, k1, pt2, m2, k2, u2),
    ensures
        grows(pt0, m0, k0, pt2, m2, k2, u1 + u2),
{
    reveal(took_tables);
    reveal(changed_in_tables);
    reveal(grows);
    assert(k2@ =~= k0@.skip(u1 + u2));
    assert forall|t: u64| #[trigger] pt2.owns(t) implies pt0.owns(t) || k0@.take(u1 + u2).contains(t) by {
        if !pt1.owns(t) {
            let m = k1@.take(u2).index_of(t);
            assert(k0@.take(u1 + u2)[u1 + m] == t);
        } else if !pt0.owns(t) {
            let m = k0@.take(u1).index_of(t);
            assert(k0@.take(u1 + u2)[m] == t);
        }
    }
    assert forall|m: int| 0 <= m < u1 + u2 implies pt2.owns(#[trigger] k0@[m]) by {
        if m >= u1 {
            assert(k1@[m - u1] == k0@[m]);
        }
    }
    assert forall|q: int|
        m2.contains(q, 1) && (forall|t: u64| #[trigger] pt2.owns(t) ==> !(t <= q < t + 4096))
            implies #[trigger] m2.byte(q) == m0.byte(q) by {
        assert forall|t: u64| #[trigger] pt1.owns(t) implies !(t <= q < t + 4096) by {
            assert(pt2.owns(t));
        }
    }
}

/// What growth guarantees.
pub proof fn lemma_grows_facts(
    pt0: &PageTable,
    m0: &PhysMem,
    k0: &Kmem,
    pt1: &PageTable,
    m1: &PhysMem,
    k1: &Kmem,
    used: int,
)
    requires
        grows(pt0, m0, k0, pt1, m1, k1, used),
    ensures
        pt1.wf(m1),
        pt1.apart_from_free(k1),
        k1.wf(m1),
        took_tables(pt0, pt1, k0, k1, used),
        changed_in_tables(pt1, m0, m1),
        forall|v: int| #[trigger] pt0.pte_addr(m0, v) is Some ==> pt1.pte_addr(m1, v) == pt0.pte_addr(m0, v)
            && pt1.leaf(m1, v) == pt0.leaf(m0, v),
        forall|v: int| #[trigger] pt1.translate(m1, v) == pt0.translate(m0, v),
{
    reveal(took_tables);
    reveal(PageTable::translate);
    reveal(changed_in_tables);
    reveal(PageTable::apart_from_free);
    reveal(Kmem::wf);
    reveal(grows);
}

/// Nothing changed is no growth.
proof fn lemma_grows_refl(pt: &PageTable, m: &PhysMem, k: &Kmem)
    requires
        pt.wf(m),
        pt.apart_from_free(k),
        k.wf(m),
    ensures
        grows(pt, m, k, pt, m, k, 0),
{
    reveal(took_tables);
    reveal(PageTable::translate);
    reveal(changed_in_tables);
    reveal(PageTable::apart_from_free);
    reveal(Kmem::wf);
    reveal(grows);
    assert(k@.skip(0) =~= k@);
    assert(k@.take(0) =~= Seq::<u64>::empty());
}

/// Takes a page from the allocator for a new table and clears it.
fn alloc_table(mem: &mut PhysMem, kmem: &mut Kmem) -> (p: u64)
    requires
        old(kmem).wf(old(mem)),
        old(kmem)@.len() > 0,
    ensures
        final(kmem).wf(final(mem)),
        final(kmem).end == old(kmem).end,
        p == old(kmem)@[0],
        final(kmem)@ == old(kmem)@.drop_first(),
        p % PGSIZE == 0,
        valid_frame(old(kmem).end, p as int),
        final(mem).contains(p as int, PGSIZE as int),
        changed_within(old(mem), final(mem), seq![p]),
        forall|w: int| 0 <= w < 512 ==> #[trigger] final(mem).word(p + 8 * w) == 0,
{
    reveal(took_tables);
    reveal(PageTable::translate);
    reveal(changed_in_tables);
    reveal(PageTable::apart_from_free);
    reveal(Kmem::wf);
    let p = kmem.kalloc(mem);
    let ghost m1 = *mem;
    memset(mem, p, 0, PGSIZE);
    proof {
        lemma_page_change(old(mem), &m1, p);
        lemma_page_change(&m1, mem, p);
        lemma_changes_compose(old(mem), &m1, mem, seq![p], seq![p]);
        assert forall|q: int| mem.contains(q, 1) && outside_pages(seq![p], q) implies #[trigger] mem.byte(q)
            == old(mem).byte(q) by {
            assert(outside_pages(seq![p] + seq![p], q));
        }
        assert(!kmem.is_free(p)) by {
            if kmem@.contains(p) {
                let i = kmem@.index_of(p);
                assert(old(kmem)@[i + 1] == p);
            }
        }
        assert forall|m: int| 0 <= m < seq![p].len() implies #[trigger] seq![p][m] % 4096 == 0
            && !kmem.is_free(seq![p][m]) by {}
        lemma_kmem_frame(kmem, &m1, mem, seq![p]);
        assert forall|w: int| 0 <= w < 512 implies #[trigger] mem.word(p + 8 * w) == 0 by {
            lemma_zero_word(mem, p + 8 * w);
        }
    }
    p
}

/// Hanging a zeroed page under an invalid root entry keeps the table
/// sound and changes no lookup.
proof fn lemma_install_l1(pt0: &PageTable, pt1: &PageTable, m0: &PhysMem, m1: &PhysMem, p: u64, i: int)
    requires
        pt0.wf(m0),
        0 <= i < 512,
        !pt0.l1_present(i),
        !pt0.owns(p),
        p % PGSIZE == 0,
        m1.contains(p as int, PGSIZE as int),
        changed_within(m0, m1, seq![p]),
        forall|w: int| 0 <= w < 512 ==> #[trigger] m1.word(p + 8 * w) == 0,
        pt1.entries@ == pt0.entries@.update(i, PageTableEntry { data: pa2pte_spec(p) | PTE_V }),
        pt1.tables@ == pt0.tables@.insert(p, i),
    ensures
        pt1.wf_tables(m1),
        pt1.l1_present(i),
        pt1.l1_table(i) == p,
        forall|j: int| 0 <= j < 512 ==> #[trigger] pt1.l1_pte(m1, i, j) == 0,
        forall|va: int| #[trigger] pt1.pte_addr(m1, va) == pt0.pte_addr(m0, va),
        forall|va: int| #[trigger] pt1.leaf(m1, va) == pt0.leaf(m0, va),
        forall|va: int| #[trigger] pt1.translate(m1, va) == pt0.translate(m0, va),
        forall|a: int, b: int| 0 <= a < 512 && 0 <= b < 512 && pt0.l1_present(a) ==> #[trigger] pt1.l1_pte(m1, a, b)
            == pt0.l1_pte(m0, a, b),
{
    reveal(took_tables);
    reveal(PageTable::translate);
    reveal(changed_in_tables);
    reveal(PageTable::apart_from_free);
    reveal(Kmem::wf);
    reveal(PageTable::wf);
    reveal(PageTable::wf_tables);
    assert forall|m: int| 0 <= m < seq![p].len() implies #[trigger] seq![p][m] % 4096 == 0
        && !pt0.owns(seq![p][m]) by {}
    lemma_pt_frame(pt0, m0, m1, seq![p]);
    lemma_leaf_pte(p, 0);
    assert(pa2pte_spec(p) | 0u64 | 1u64 == pa2pte_spec(p) | 1u64) by (bit_vector);
    lemma_zero_invalid();
    assert(pt1.l1_table(i) == p);
    assert forall|j: int| 0 <= j < 512 implies #[trigger] pt1.l1_pte(m1, i, j) == 0 by {
        assert(m1.word(p + 8 * j) == 0);
    }
    assert forall|t: u64| #[trigger] pt1.owns(t) implies t % PGSIZE == 0 && m1.contains(t as int, PGSIZE as int) by {
        if t != p {
            assert(pt0.owns(t));
        }
    }
    assert forall|ii: int|
        0 <= ii < 512 && #[trigger] pt1.l1_present(ii) implies pt1.owns(pt1.l1_table(ii))
            && pt1.tables@[pt1.l1_table(ii)] == l1_code(ii) by {
        if ii != i {
            assert(pt1.root_pte(ii) == pt0.root_pte(ii));
            assert(pt0.l1_present(ii));
            assert(pt0.owns(pt0.l1_table(ii)));
        }
    }
    assert forall|ii: int, j: int|
        0 <= ii < 512 && 0 <= j < 512 && #[trigger] pt1.l0_present(m1, ii, j) implies pt1.owns(
            pt1.l0_table(m1, ii, j),
        ) && pt1.tables@[pt1.l0_table(m1, ii, j)] == l0_code(ii, j) by {
        if ii == i {
            assert(pt1.l1_pte(m1, ii, j) == 0);
        } else {
            assert(pt1.root_pte(ii) == pt0.root_pte(ii));
            assert(pt0.l1_pte(m1, ii, j) == pt0.l1_pte(m0, ii, j));
            assert(pt0.l0_present(m0, ii, j));
            assert(pt0.owns(pt0.l0_table(m0, ii, j)));
        }
    }
    assert forall|va: int| #[trigger] pt1.pte_addr(m1, va) == pt0.pte_addr(m0, va) by {
        let (a, b, c) = va_indices(va);
        assert(0 <= a < 512 && 0 <= b < 512);
        if a == i {
            assert(pt1.l1_pte(m1, a, b) == 0);
        } else {
            assert(pt1.root_pte(a) == pt0.root_pte(a));
            if pt0.l1_present(a) {
                assert(pt0.l1_pte(m1, a, b) == pt0.l1_pte(m0, a, b));
            }
        }
    }
    assert forall|va: int| #[trigger] pt1.leaf(m1, va) == pt0.leaf(m0, va) by {
        assert(pt1.pte_addr(m1, va) == pt0.pte_addr(m0, va));
        assert(pt0.pte_addr(m1, va) == pt0.pte_addr(m0, va));
        assert(pt0.leaf(m1, va) == pt0.leaf(m0, va));
    }
    assert forall|va: int| #[trigger] pt1.translate(m1, va) == pt0.translate(m0, va) by {
        assert(pt1.leaf(m1, va) == pt0.leaf(m0, va));
    }
    assert forall|a: int, b: int| 0 <= a < 512 && 0 <= b < 512 && pt0.l1_present(a) implies #[trigger] pt1.l1_pte(m1, a, b)
        == pt0.l1_pte(m0, a, b) by {
        assert(a != i);
        assert(pt1.root_pte(a) == pt0.root_pte(a));
        assert(pt0.l1_pte(m1, a, b) == pt0.l1_pte(m0, a, b));
    }
}
/// The root entries stay in the root page while the root entries, the
/// root's place among the table pages and the words of the root page stay
/// as they were.
proof fn lemma_mirror_kept(pt0: &PageTable, m1: &PhysMem, pt1: &PageTable, m2: &PhysMem)
    requires
        pt0.mirrored(m1),
        pt1.root == pt0.root,
        forall|i: int| 0 <= i < 512 ==> #[trigger] pt1.root_pte(i) == pt0.root_pte(i),
        pt0.root != 0 ==> pt1.tables@.contains_key(pt0.root) && pt1.tables@[pt0.root] == root_code(),
        pt0.root != 0 ==> forall|w: int| 0 <= w < 512 ==> #[trigger] m2.word(pt0.root + 8 * w) == m1.word(
            pt0.root + 8 * w,
        ),
    ensures
        pt1.mirrored(m2),
{
    reveal(PageTable::wf);
    reveal(PageTable::mirrored);
    if pt0.root != 0 {
        assert forall|i: int| 0 <= i < 512 implies #[trigger] m2.word(pt1.root + 8 * i) == pt1.root_pte(i) by {
            assert(m2.word(pt0.root + 8 * i) == m1.word(pt0.root + 8 * i));
        }
    }
}

/// A write inside a table page other than the root leaves the words of the
/// root page as they were.
proof fn lemma_root_words_kept(pt: &PageTable, m1: &PhysMem, m2: &PhysMem, t: u64, x: int)
    requires
        pt.wf(m1),
        pt.owns(t),
        pt.tables@[t] != root_code(),
        t <= x,
        x + 8 <= t + 4096,
        changed_only(m1, m2, x, 8),
    ensures
        pt.root != 0 ==> forall|w: int| 0 <= w < 512 ==> #[trigger] m2.word(pt.root + 8 * w) == m1.word(
            pt.root + 8 * w,
        ),
{
    reveal(PageTable::wf);
    reveal(PageTable::mirrored);
    reveal(PageTable::wf);
    reveal(PageTable::wf_tables);
    if pt.root != 0 {
        assert(pt.owns(pt.root));
        assert(pt.root != t);
        assert(pt.root % 4096 == 0 && t % 4096 == 0);
        assert forall|w: int| 0 <= w < 512 implies #[trigger] m2.word(pt.root + 8 * w) == m1.word(pt.root + 8 * w) by {
            assert(m1.contains(pt.root as int, 4096));
            lemma_word_outside(m1, m2, x, 8, pt.root + 8 * w);
        }
    }
}

/// Changes confined to pages that are not the table's leave the words of
/// the root page as they were.
proof fn lemma_root_words_outside(pt: &PageTable, m1: &PhysMem, m2: &PhysMem, pages: Seq<u64>)
    requires
        pt.wf(m1),
        changed_within(m1, m2, pages),
        forall|m: int| 0 <= m < pages.len() ==> #[trigger] pages[m] % 4096 == 0 && !pt.owns(pages[m]),
    ensures
        pt.root != 0 ==> forall|w: int| 0 <= w < 512 ==> #[trigger] m2.word(pt.root + 8 * w) == m1.word(
            pt.root + 8 * w,
        ),
{
    reveal(PageTable::wf);
    reveal(PageTable::mirrored);
    reveal(PageTable::wf);
    reveal(PageTable::wf_tables);
    if pt.root != 0 {
        assert(pt.owns(pt.root));
        assert forall|w: int| 0 <= w < 512 implies #[trigger] m2.word(pt.root + 8 * w) == m1.word(pt.root + 8 * w) by {
            assert forall|m: int| 0 <= m < pages.len() implies #[trigger] pages[m] % 4096 == 0 && pages[m] != pt.root by {
                assert(!pt.owns(pages[m]));
            }
            lemma_word_outside_pages(m1, m2, pages, pt.root, w);
        }
    }
}

/// A page the table does not hold is not its root.
proof fn lemma_root_not_new(pt: &PageTable, m: &PhysMem, p: u64)
    requires
        pt.wf(m),
        !pt.owns(p),
    ensures
        pt.root != 0 ==> pt.root != p && pt.owns(pt.root) && pt.tables@[pt.root] == root_code(),
{
    reveal(PageTable::wf);
    reveal(PageTable::mirrored);
}

/// Copying root entry `i` into the root page keeps the tree of tables and
/// all it maps, and makes the root page hold the root entries again.
proof fn lemma_root_write(pt0: &PageTable, pt1: &PageTable, m0: &PhysMem, m1: &PhysMem, m2: &PhysMem, i: int)
    requires
        pt0.wf(m0),
        pt1.wf_tables(m1),
        0 <= i < 512,
        pt1.root == pt0.root,
        pt1.entries@.len() == 512,
        forall|k: int| 0 <= k < 512 && k != i ==> #[trigger] pt1.root_pte(k) == pt0.root_pte(k),
        pt0.root != 0 ==> pt1.tables@.contains_key(pt0.root) && pt1.tables@[pt0.root] == root_code(),
        pt0.root != 0 ==> forall|w: int| 0 <= w < 512 ==> #[trigger] m1.word(pt0.root + 8 * w) == m0.word(
            pt0.root + 8 * w,
        ),
        pt0.root != 0 ==> changed_only(m1, m2, pt0.root + 8 * i, 8) && m2.word(pt0.root + 8 * i) == pt1.root_pte(i),
        pt0.root == 0 ==> *m2 == *m1,
    ensures
        pt1.wf(m2),
        changed_in_tables(pt1, m1, m2),
        forall|a: int, b: int| 0 <= a < 512 && 0 <= b < 512 && pt1.l1_present(a) ==> #[trigger] pt1.l1_pte(m2, a, b)
            == pt1.l1_pte(m1, a, b),
        forall|va: int| #[trigger] pt1.pte_addr(m2, va) == pt1.pte_addr(m1, va),
        forall|va: int| #[trigger] pt1.leaf(m2, va) == pt1.leaf(m1, va),
        forall|va: int| #[trigger] pt1.translate(m2, va) == pt1.translate(m1, va),
{
    reveal(PageTable::wf);
    reveal(PageTable::mirrored);
    reveal(PageTable::wf);
    reveal(PageTable::wf_tables);
    reveal(changed_in_tables);
    if pt0.root != 0 {
        let r = pt0.root;
        assert(pt1.owns(r));
        assert(r % 4096 == 0);
        assert forall|t: u64, q: int| #![trigger pt1.owns(t), m2.byte(q)] pt1.owns(t) && pt1.tables@[t] != root_code()
            && t <= q < t + 4096 implies m2.byte(q) == m1.byte(q) by {
            assert(t != r);
            assert(t % 4096 == 0);
            assert(m2.contains(q, 1));
        }
        lemma_tables_kept(pt1, m1, m2);
        assert forall|k: int| 0 <= k < 512 implies #[trigger] m2.word(r + 8 * k) == pt1.root_pte(k) by {
            if k != i {
                assert(m1.contains(r + 8 * k, 8));
                lemma_word_outside(m1, m2, r + 8 * i, 8, r + 8 * k);
                assert(m1.word(r + 8 * k) == m0.word(r + 8 * k));
            }
        }
        assert forall|q: int|
            m2.contains(q, 1) && (forall|t: u64| #[trigger] pt1.owns(t) ==> !(t <= q < t + 4096)) implies #[trigger] m2.byte(q)
            == m1.byte(q) by {
            assert(!(r <= q < r + 4096));
        }
    } else {
        lemma_tables_kept(pt1, m1, m2);
    }
}

/// Words in two different aligned pages do not overlap.
proof fn lemma_disjoint_words(a: u64, b: u64, x: int, y: int)
    requires
        a % 4096 == 0,
        b % 4096 == 0,
        a != b,
        0 <= x < 512,
        0 <= y < 512,
    ensures
        a + 8 * x + 8 <= b + 8 * y || b + 8 * y + 8 <= a + 8 * x,
{
}

/// Linking a zeroed page under an invalid entry of a level-1 table keeps
/// the table sound, keeps every lookup that succeeded, and makes the path
/// `i`, `j` reach the new page.
proof fn lemma_install_l0(pt0: &PageTable, pt1: &PageTable, m1: &PhysMem, m2: &PhysMem, p: u64, i: int, j: int)
    requires
        pt0.wf(m1),
        0 <= i < 512,
        0 <= j < 512,
        pt0.l1_present(i),
        !pte_valid(pt0.l1_pte(m1, i, j)),
        !pt0.owns(p),
        p % PGSIZE == 0,
        m1.contains(p as int, PGSIZE as int),
        forall|w: int| 0 <= w < 512 ==> #[trigger] m1.word(p + 8 * w) == 0,
        changed_only(m1, m2, pt0.l1_table(i) + 8 * j, 8),
        m2.word(pt0.l1_table(i) + 8 * j) == pa2pte_spec(p) | PTE_V,
        pt1.entries@ == pt0.entries@,
        pt1.root == pt0.root,
        pt1.tables@ == pt0.tables@.insert(p, l0_code(i, j)),
    ensures
        pt1.wf(m2),
        pt1.l0_present(m2, i, j),
        pt1.l0_table(m2, i, j) == p,
        forall|w: int| 0 <= w < 512 ==> #[trigger] m2.word(p + 8 * w) == 0,
        forall|va: int| #[trigger] pt0.pte_addr(m1, va) is Some ==> pt1.pte_addr(m2, va) == pt0.pte_addr(m1, va)
            && pt1.leaf(m2, va) == pt0.leaf(m1, va),
        forall|va: int| #[trigger] pt1.translate(m2, va) == pt0.translate(m1, va),
        forall|a: int, b: int|
            0 <= a < 512 && 0 <= b < 512 && pt0.l1_present(a) && (a != i || b != j) ==> #[trigger] pt1.l1_pte(m2, a, b)
                == pt0.l1_pte(m1, a, b),
        forall|va: int| #[trigger] va_indices(va).0 == i && va_indices(va).1 == j ==> pt1.pte_addr(m2, va) == Some((p + 8 * va_indices(va).2) as u64),
{
    reveal(took_tables);
    reveal(PageTable::translate);
    reveal(changed_in_tables);
    reveal(PageTable::apart_from_free);
    reveal(Kmem::wf);
    reveal(PageTable::wf);
    reveal(PageTable::wf_tables);
    let t1 = pt0.l1_table(i);
    lemma_leaf_pte(p, 0);
    assert(pa2pte_spec(p) | 0u64 | 1u64 == pa2pte_spec(p) | 1u64) by (bit_vector);
    lemma_zero_invalid();
    assert(pt0.owns(t1) && pt0.tables@[t1] == i);
    assert(t1 != p);
    lemma_install_l0_words(pt0, m1, m2, p, i, j);
    lemma_root_words_kept(pt0, m1, m2, t1, t1 + 8 * j);
    lemma_root_not_new(pt0, m1, p);
    lemma_mirror_kept(pt0, m1, pt1, m2);
    assert(pt1.l1_pte(m2, i, j) == pa2pte_spec(p) | PTE_V);
    assert(pt1.l0_present(m2, i, j));
    assert(pt1.l0_table(m2, i, j) == p);
    assert forall|t: u64| #[trigger] pt1.owns(t) implies t % PGSIZE == 0 && m2.contains(t as int, PGSIZE as int) by {
        if t != p {
            assert(pt0.owns(t));
        }
    }
    assert forall|a: int|
        0 <= a < 512 && #[trigger] pt1.l1_present(a) implies pt1.owns(pt1.l1_table(a))
            && pt1.tables@[pt1.l1_table(a)] == l1_code(a) by {
        assert(pt1.root_pte(a) == pt0.root_pte(a));
        assert(pt0.l1_present(a));
        assert(pt0.owns(pt0.l1_table(a)));
        assert(pt0.l1_table(a) != p);
    }
    assert forall|a: int, b: int|
        0 <= a < 512 && 0 <= b < 512 && #[trigger] pt1.l0_present(m2, a, b) implies pt1.owns(
            pt1.l0_table(m2, a, b),
        ) && pt1.tables@[pt1.l0_table(m2, a, b)] == l0_code(a, b) by {
        assert(pt1.root_pte(a) == pt0.root_pte(a));
        if a != i || b != j {
            assert(pt0.l1_present(a));
            assert(pt0.l1_pte(m2, a, b) == pt0.l1_pte(m1, a, b));
            assert(pt1.l1_pte(m2, a, b) == pt0.l1_pte(m1, a, b));
            assert(pt0.l0_present(m1, a, b));
            assert(pt0.owns(pt0.l0_table(m1, a, b)));
        }
    }
    assert forall|va: int| #[trigger] pt0.pte_addr(m1, va) is Some implies pt1.pte_addr(m2, va) == pt0.pte_addr(m1, va)
        && pt1.leaf(m2, va) == pt0.leaf(m1, va) by {
        let (a, b, c) = va_indices(va);
        assert(0 <= a < 512 && 0 <= b < 512 && 0 <= c < 512);
        assert(pt0.l0_present(m1, a, b));
        assert(a != i || b != j);
        assert(pt1.root_pte(a) == pt0.root_pte(a));
        assert(pt0.l1_pte(m2, a, b) == pt0.l1_pte(m1, a, b));
        assert(pt1.l1_pte(m2, a, b) == pt0.l1_pte(m1, a, b));
        assert(m2.word(pt0.l0_table(m1, a, b) + 8 * c) == m1.word(pt0.l0_table(m1, a, b) + 8 * c));
    }
    assert forall|va: int| #[trigger] pt1.translate(m2, va) == pt0.translate(m1, va) by {
        let (a, b, c) = va_indices(va);
        assert(0 <= a < 512 && 0 <= b < 512 && 0 <= c < 512);
        if a == i && b == j {
            assert(m2.word(p + 8 * c) == 0);
        } else if pt0.l1_present(a) {
            assert(pt1.root_pte(a) == pt0.root_pte(a));
            assert(pt0.l1_pte(m2, a, b) == pt0.l1_pte(m1, a, b));
            assert(pt1.l1_pte(m2, a, b) == pt0.l1_pte(m1, a, b));
            if pt0.l0_present(m1, a, b) {
                assert(m2.word(pt0.l0_table(m1, a, b) + 8 * c) == m1.word(pt0.l0_table(m1, a, b) + 8 * c));
            }
        }
    }
    assert forall|a: int, b: int|
        0 <= a < 512 && 0 <= b < 512 && pt0.l1_present(a) && (a != i || b != j) implies #[trigger] pt1.l1_pte(m2, a, b)
            == pt0.l1_pte(m1, a, b) by {
        assert(pt1.root_pte(a) == pt0.root_pte(a));
        assert(pt0.l1_pte(m2, a, b) == pt0.l1_pte(m1, a, b));
    }
}

/// Writing entry `j` of the level-1 table under root entry `i` leaves the
/// new page, every other level-1 entry and every leaf as they were.
proof fn lemma_install_l0_words(pt0: &PageTable, m1: &PhysMem, m2: &PhysMem, p: u64, i: int, j: int)
    requires
        pt0.wf(m1),
        0 <= i < 512,
        0 <= j < 512,
        pt0.l1_present(i),
        !pt0.owns(p),
        p % PGSIZE == 0,
        m1.contains(p as int, PGSIZE as int),
        forall|w: int| 0 <= w < 512 ==> #[trigger] m1.word(p + 8 * w) == 0,
        changed_only(m1, m2, pt0.l1_table(i) + 8 * j, 8),
    ensures
        forall|w: int| 0 <= w < 512 ==> #[trigger] m2.word(p + 8 * w) == 0,
        forall|a: int, b: int|
            0 <= a < 512 && 0 <= b < 512 && pt0.l1_present(a) && (a != i || b != j) ==> #[trigger] pt0.l1_pte(m2, a, b)
            == pt0.l1_pte(m1, a, b),
        forall|a: int, b: int, c: int|
            0 <= a < 512 && 0 <= b < 512 && 0 <= c < 512 && pt0.l0_present(m1, a, b) ==> #[trigger] m2.word(pt0.l0_table(m1, a, b) + 8 * c)
            == m1.word(pt0.l0_table(m1, a, b) + 8 * c),
{
    reveal(took_tables);
    reveal(PageTable::translate);
    reveal(changed_in_tables);
    reveal(PageTable::apart_from_free);
    reveal(Kmem::wf);
    reveal(PageTable::wf);
    reveal(PageTable::wf_tables);
    let t1 = pt0.l1_table(i);
    assert(pt0.owns(t1) && pt0.tables@[t1] == i);
    assert forall|w: int| 0 <= w < 512 implies #[trigger] m2.word(p + 8 * w) == 0 by {
        lemma_disjoint_words(p, t1, w, j);
        lemma_word_outside(m1, m2, t1 + 8 * j, 8, p + 8 * w);
    }
    assert forall|a: int, b: int|
        0 <= a < 512 && 0 <= b < 512 && pt0.l1_present(a) && (a != i || b != j) implies #[trigger] pt0.l1_pte(m2, a, b)
        == pt0.l1_pte(m1, a, b) by {
        let ta = pt0.l1_table(a);
        assert(pt0.owns(ta) && pt0.tables@[ta] == a);
        if a != i {
            lemma_disjoint_words(ta, t1, b, j);
        }
        lemma_word_outside(m1, m2, t1 + 8 * j, 8, ta + 8 * b);
    }
    assert forall|a: int, b: int, c: int|
        0 <= a < 512 && 0 <= b < 512 && 0 <= c < 512 && pt0.l0_present(m1, a, b) implies #[trigger] m2.word(pt0.l0_table(m1, a, b) + 8 * c)
        == m1.word(pt0.l0_table(m1, a, b) + 8 * c) by {
        let tb = pt0.l0_table(m1, a, b);
        assert(pt0.owns(tb) && pt0.tables@[tb] == l0_code(a, b));
        assert(tb != t1);
        lemma_disjoint_words(tb, t1, c, j);
        lemma_word_outside(m1, m2, t1 + 8 * j, 8, tb + 8 * c);
    }
}

/// Taking the head of the free list for a new table page keeps the table
/// pages off the free list.
proof fn lemma_took_one(pt0: &PageTable, pt1: &PageTable, k0: &Kmem, k1: &Kmem, p: u64)
    requires
        pt0.apart_from_free(k0),
        k0@.len() > 0,
        p == k0@[0],
        k1@ == k0@.drop_first(),
        k1.end == k0.end,
        forall|i: int, j: int| 0 <= i < j < k0@.len() ==> k0@[i] != k0@[j],
        forall|t: u64| #[trigger] pt1.owns(t) <==> pt0.owns(t) || t == p,
    ensures
        pt1.apart_from_free(k1),
        took_tables(pt0, pt1, k0, k1, 1),
{
    reveal(took_tables);
    reveal(PageTable::translate);
    reveal(changed_in_tables);
    reveal(PageTable::apart_from_free);
    reveal(Kmem::wf);
    assert forall|t: u64| #[trigger] pt1.owns(t) implies !k1.is_free(t) by {
        if k1@.contains(t) {
            let k = k1@.index_of(t);
            assert(k0@[k + 1] == t);
            if t == p {
                assert(k0@[0] == k0@[k + 1]);
            } else {
                assert(pt0.owns(t));
                assert(k0.is_free(t));
            }
        }
    }
    assert(k0@.take(1) =~= seq![p]);
    assert(k0@.take(1)[0] == p);
    assert(k1@ =~= k0@.skip(1));
}

impl PageTable {
    /// Hangs a fresh, empty level-1 table under root entry `i`, and copies
    /// the entry into the root page when the root has one.
    #[verifier::spinoff_prover]
    #[verifier::rlimit(60)]
    fn install_l1(&mut self, mem: &mut PhysMem, kmem: &mut Kmem, i: usize) -> (p: u64)
        requires
            old(self).wf(old(mem)),
            old(self).apart_from_free(old(kmem)),
            old(kmem).wf(old(mem)),
            old(kmem)@.len() > 0,
            i < 512,
            !old(self).l1_present(i as int),
        ensures
            final(self).wf(final(mem)),
            final(self).root == old(self).root,
            final(self).apart_from_free(final(kmem)),
            final(kmem).wf(final(mem)),
            took_tables(old(self), final(self), old(kmem), final(kmem), 1),
            changed_in_tables(final(self), old(mem), final(mem)),
            grows(old(self), old(mem), old(kmem), final(self), final(mem), final(kmem), 1),
            p == old(kmem)@[0],
            final(self).l1_present(i as int),
            final(self).l1_table(i as int) == p,
            forall|j: int| 0 <= j < 512 ==> #[trigger] final(self).l1_pte(final(mem), i as int, j) == 0,
            forall|va: int| #[trigger] final(self).pte_addr(final(mem), va) == old(self).pte_addr(old(mem), va),
            forall|va: int| #[trigger] final(self).leaf(final(mem), va) == old(self).leaf(old(mem), va),
            forall|va: int| #[trigger] final(self).translate(final(mem), va) == old(self).translate(old(mem), va),
            forall|k: int| 0 <= k < 512 && k != i ==> #[trigger] final(self).root_pte(k) == old(self).root_pte(k),
            forall|a: int, b: int| 0 <= a < 512 && 0 <= b < 512 && old(self).l1_present(a) ==> #[trigger] final(self).l1_pte(final(mem), a, b)
                == old(self).l1_pte(old(mem), a, b),
    {
        reveal(took_tables);
        reveal(PageTable::translate);
        reveal(changed_in_tables);
        reveal(PageTable::apart_from_free);
        reveal(Kmem::wf);
        reveal(PageTable::wf);
        reveal(PageTable::wf_tables);
        let ghost pt0 = *self;
        let p = alloc_table(mem, kmem);
        proof {
            assert(!pt0.owns(p));
        }
        let e: u64 = pa2pte(p) | PTE_V;
        self.entries.set(i, PageTableEntry { data: e });
        self.tables = Ghost(self.tables@.insert(p, i as int));
        let ghost m1 = *mem;
        proof {
            lemma_install_l1(&pt0, self, old(mem), mem, p, i as int);
            lemma_root_not_new(&pt0, old(mem), p);
            lemma_root_words_outside(&pt0, old(mem), mem, seq![p]);
        }
        if self.root != 0 {
            proof {
                reveal(PageTable::wf);
                reveal(PageTable::mirrored);
                assert(mem.contains(self.root + 8 * i, 8));
            }
            mem.write_word(self.root + 8 * (i as u64), e);
        }
        let ghost pt1 = *self;
        proof {
            lemma_root_write(&pt0, &pt1, old(mem), &m1, mem, i as int);
            assert forall|a: int, b: int| 0 <= a < 512 && 0 <= b < 512 && pt0.l1_present(a) implies #[trigger] pt1.l1_pte(
                mem,
                a,
                b,
            ) == pt0.l1_pte(old(mem), a, b) by {
                assert(a != i);
                assert(pt1.root_pte(a) == pt0.root_pte(a));
                assert(pt1.l1_present(a));
                assert(pt1.l1_pte(&m1, a, b) == pt0.l1_pte(old(mem), a, b));
            }
            assert forall|k: int| 0 <= k < 512 && k != i implies #[trigger] pt1.root_pte(k) == pt0.root_pte(k) by {}
            if pt0.root != 0 {
                reveal(PageTable::wf);
                reveal(PageTable::mirrored);
                assert(!kmem.is_free(pt0.root)) by {
                    if kmem@.contains(pt0.root) {
                        let k = kmem@.index_of(pt0.root);
                        assert(old(kmem)@[k + 1] == pt0.root);
                    }
                }
                lemma_part_page_change(&m1, mem, pt0.root + 8 * i, 8, pt0.root);
                assert forall|m: int| 0 <= m < seq![pt0.root].len() implies #[trigger] seq![pt0.root][m] % 4096 == 0
                    && !kmem.is_free(seq![pt0.root][m]) by {}
                lemma_kmem_frame(kmem, &m1, mem, seq![pt0.root]);
            }
            reveal(grows);
            lemma_took_one(&pt0, self, old(kmem), kmem, p);
            assert forall|q: int|
                mem.contains(q, 1) && (forall|t: u64| #[trigger] self.owns(t) ==> !(t <= q < t + 4096))
                    implies #[trigger] mem.byte(q) == old(mem).byte(q) by {
                assert(self.owns(p));
                assert(outside_pages(seq![p], q));
            }
        }
        p
    }

    /// Hangs a fresh, empty level-0 table under entry `j` of the level-1
    /// table under root entry `i`.
    #[verifier::rlimit(40)]
    fn install_l0(&mut self, mem: &mut PhysMem, kmem: &mut Kmem, i: usize, j: usize) -> (p: u64)
        requires
            old(self).wf(old(mem)),
            old(self).apart_from_free(old(kmem)),
            old(kmem).wf(old(mem)),
            old(kmem)@.len() > 0,
            i < 512,
            j < 512,
            old(self).l1_present(i as int),
            !pte_valid(old(self).l1_pte(old(mem), i as int, j as int)),
        ensures
            final(self).wf(final(mem)),
            final(self).root == old(self).root,
            final(self).apart_from_free(final(kmem)),
            final(kmem).wf(final(mem)),
            took_tables(old(self), final(self), old(kmem), final(kmem), 1),
            changed_in_tables(final(self), old(mem), final(mem)),
            grows(old(self), old(mem), old(kmem), final(self), final(mem), final(kmem), 1),
            final(self).entries@ == old(self).entries@,
            p == old(kmem)@[0],
            final(self).l0_present(final(mem), i as int, j as int),
            final(self).l0_table(final(mem), i as int, j as int) == p,
            forall|w: int| 0 <= w < 512 ==> #[trigger] final(mem).word(p + 8 * w) == 0,
            forall|va: int| #[trigger] old(self).pte_addr(old(mem), va) is Some ==> final(self).pte_addr(final(mem), va)
                == old(self).pte_addr(old(mem), va) && final(self).leaf(final(mem), va) == old(self).leaf(old(mem), va),
            forall|va: int| #[trigger] final(self).translate(final(mem), va) == old(self).translate(old(mem), va),
            forall|a: int, b: int|
                0 <= a < 512 && 0 <= b < 512 && old(self).l1_present(a) && (a != i || b != j) ==> #[trigger] final(self).l1_pte(final(mem), a, b)
                    == old(self).l1_pte(old(mem), a, b),
            forall|va: int| #[trigger] va_indices(va).0 == i && va_indices(va).1 == j ==> final(self).pte_addr(final(mem), va)
                == Some((p + 8 * va_indices(va).2) as u64),
    {
        reveal(took_tables);
        reveal(PageTable::translate);
        reveal(changed_in_tables);
        reveal(PageTable::apart_from_free);
        reveal(Kmem::wf);
        reveal(PageTable::wf);
        reveal(PageTable::wf_tables);
        let ghost pt0 = *self;
        let t1 = pte2pa(self.entries[i].data);
        proof {
            assert(pt0.owns(t1));
        }
        let p = alloc_table(mem, kmem);
        let ghost m1 = *mem;
        proof {
            assert(!pt0.owns(p));
            assert forall|m: int| 0 <= m < seq![p].len() implies #[trigger] seq![p][m] % 4096 == 0
                && !pt0.owns(seq![p][m]) by {}
            lemma_pt_frame(&pt0, old(mem), &m1, seq![p]);
        }
        let e: u64 = pa2pte(p) | PTE_V;
        mem.write_word(t1 + 8 * (j as u64), e);
        self.tables = Ghost(self.tables@.insert(p, l0_code(i as int, j as int)));
        proof {
            assert(pt0.l1_pte(&m1, i as int, j as int) == pt0.l1_pte(old(mem), i as int, j as int));
            lemma_install_l0(&pt0, self, &m1, mem, p, i as int, j as int);
            assert forall|a: int, b: int|
                0 <= a < 512 && 0 <= b < 512 && pt0.l1_present(a) && (a != i || b != j) implies #[trigger] self.l1_pte(
                mem,
                a,
                b,
            ) == pt0.l1_pte(old(mem), a, b) by {
                assert(pt0.l1_pte(&m1, a, b) == pt0.l1_pte(old(mem), a, b));
            }
            reveal(grows);
            lemma_part_page_change(&m1, mem, t1 + 8 * j, 8, t1);
            assert(!kmem.is_free(t1)) by {
                if kmem@.contains(t1) {
                    let k = kmem@.index_of(t1);
                    assert(old(kmem)@[k + 1] == t1);
                }
            }
            assert forall|m: int| 0 <= m < seq![t1].len() implies #[trigger] seq![t1][m] % 4096 == 0
                && !kmem.is_free(seq![t1][m]) by {}
            lemma_kmem_frame(kmem, &m1, mem, seq![t1]);
            lemma_took_one(&pt0, self, old(kmem), kmem, p);
            assert forall|va: int| #[trigger] pt0.pte_addr(old(mem), va) is Some implies self.pte_addr(mem, va)
                == pt0.pte_addr(old(mem), va) && self.leaf(mem, va) == pt0.leaf(old(mem), va) by {
                assert(pt0.pte_addr(&m1, va) == pt0.pte_addr(old(mem), va));
                assert(pt0.leaf(&m1, va) == pt0.leaf(old(mem), va));
            }
            assert forall|va: int| #[trigger] self.translate(mem, va) == pt0.translate(old(mem), va) by {
                assert(pt0.translate(&m1, va) == pt0.translate(old(mem), va));
            }
            assert forall|q: int|
                mem.contains(q, 1) && (forall|t: u64| #[trigger] self.owns(t) ==> !(t <= q < t + 4096))
                    implies #[trigger] mem.byte(q) == old(mem).byte(q) by {
                assert(self.owns(p));
                assert(self.owns(t1));
                assert(outside_pages(seq![p], q));
            }
        }
        p
    }
}

impl PageTable {
    /// Finds the address of the level-0 PTE for `va`. With `alloc`, missing
    /// tables on the way are taken from the allocator and cleared; the walk
    /// gives up, returning `None`, when it needs a table and none is free
    /// (where the kernel's allocator would stop with "out of memory").
    /// Without `alloc`, nothing changes and `None` means the path is
    /// missing.
    pub fn walk(&mut self, mem: &mut PhysMem, kmem: &mut Kmem, va: u64, alloc: bool) -> (r: Option<u64>)
        requires
            va <= MAXVA,
            old(self).wf(old(mem)),
            old(self).apart_from_free(old(kmem)),
            old(kmem).wf(old(mem)),
        ensures
            final(self).root == old(self).root,
            !alloc ==> *final(self) == *old(self) && *final(mem) == *old(mem) && *final(kmem) == *old(kmem)
                && r == old(self).pte_addr(old(mem), va as int),
            ({
                let needed = old(self).tables_needed(old(mem), va as int);
                let avail = old(kmem)@.len() as int;
                alloc ==> {
                    &&& grows(old(self), old(mem), old(kmem), final(self), final(mem), final(kmem),
                        if needed <= avail { needed } else { avail })
                    &&& (r is Some <==> needed <= avail)
                    &&& (r is Some && needed > 0 ==> final(mem).word(r->0 as int) == 0)
                }
            }),
            r is Some ==> r == final(self).pte_addr(final(mem), va as int),
            forall|k: int| 0 <= k < 512 && (k != va_indices(va as int).0 || old(self).l1_present(k)) ==> #[trigger] final(self).root_pte(k)
                == old(self).root_pte(k),
            forall|a: int, b: int|
                0 <= a < 512 && 0 <= b < 512 && old(self).l1_present(a) && (a != va_indices(va as int).0 || b
                    != va_indices(va as int).1) ==> #[trigger] final(self).l1_pte(final(mem), a, b) == old(self).l1_pte(
                    old(mem),
                    a,
                    b,
                ),
    {
        reveal(took_tables);
        reveal(PageTable::translate);
        reveal(changed_in_tables);
        reveal(PageTable::apart_from_free);
        reveal(Kmem::wf);
        reveal(PageTable::wf);
        reveal(PageTable::wf_tables);
        let i = px(2, va) as usize;
        let j = px(1, va) as usize;
        let k = px(0, va);
        let ghost pt0 = *self;
        let ghost m0 = *mem;
        let ghost k0 = *kmem;
        let ghost mut used: int = 0;
        proof {
            lemma_grows_refl(self, mem, kmem);
        }
        if self.entries[i].data & PTE_V == 0 {
            if !alloc || kmem.freelist == 0 {
                proof {
                    if alloc {
                        assert(k0@.len() == 0);
                    }
                }
                return None;
            }
            self.install_l1(mem, kmem, i);
            proof {
                used = 1;
            }
        }
        let ghost pt1 = *self;
        let ghost m1 = *mem;
        let ghost k1 = *kmem;
        let t1 = pte2pa(self.entries[i].data);
        proof {
            assert(self.l1_present(i as int));
            assert(self.owns(t1));
        }
        let e1 = mem.read_word(t1 + 8 * (j as u64));
        if e1 & PTE_V == 0 {
            if !alloc || kmem.freelist == 0 {
                proof {
                    if alloc {
                        assert(kmem@.len() == 0);
                    }
                }
                return None;
            }
            self.install_l0(mem, kmem, i, j);
            proof {
                lemma_grows_trans(&pt0, &m0, &k0, &pt1, &m1, &k1, self, mem, kmem, used, 1);
                used = used + 1;
                assert forall|a: int, b: int|
                    0 <= a < 512 && 0 <= b < 512 && pt0.l1_present(a) && (a != i || b != j) implies #[trigger] self.l1_pte(
                    mem,
                    a,
                    b,
                ) == pt0.l1_pte(&m0, a, b) by {
                    assert(pt1.l1_present(a)) by {
                        if a != i {
                            assert(pt1.root_pte(a) == pt0.root_pte(a));
                        }
                    }
                    assert(pt1.l1_pte(&m1, a, b) == pt0.l1_pte(&m0, a, b));
                }
            }
        }
        let e2 = mem.read_word(t1 + 8 * (j as u64));
        let t0 = pte2pa(e2);
        proof {
            assert(self.l1_table(i as int) == t1);
            assert(self.l1_pte(mem, i as int, j as int) == e2);
            assert(self.l0_present(mem, i as int, j as int));
            assert(self.owns(t0));
            assert(self.entries@ == pt1.entries@);
            assert forall|kk: int| 0 <= kk < 512 && (kk != va_indices(va as int).0 || pt0.l1_present(kk)) implies #[trigger] self.root_pte(kk)
                == pt0.root_pte(kk) by {
                assert(self.root_pte(kk) == pt1.root_pte(kk));
            }
        }
        Some(t0 + 8 * (k as u64))
    }
}

/// One beyond the addresses the three 9-bit indices tell apart.
pub open spec fn va_span() -> int {
    0x80_0000_0000
}

/// Below `VA_SPAN`, two addresses have the same indices exactly when they
/// lie in the same page.
pub proof fn lemma_va_indices_page(v1: int, v2: int)
    requires
        0 <= v1 < va_span(),
        0 <= v2 < va_span(),
    ensures
        va_indices(v1) == va_indices(v2) <==> v1 / 4096 == v2 / 4096,
{
    assert(v1 / 0x20_0000 == (v1 / 4096) / 512);
    assert(v2 / 0x20_0000 == (v2 / 4096) / 512);
    assert(v1 / 0x4000_0000 == (v1 / 4096) / 0x4_0000);
    assert(v2 / 0x4000_0000 == (v2 / 4096) / 0x4_0000);
}

/// The indices of an address are those of its page.
pub proof fn lemma_va_indices_round(v: int)
    requires
        0 <= v,
    ensures
        va_indices(v) == va_indices(pg_round_down_spec(v)),
{
    let d = pg_round_down_spec(v);
    assert(d / 4096 == v / 4096);
    assert(d / 0x20_0000 == v / 0x20_0000);
    assert(d / 0x4000_0000 == v / 0x4000_0000);
}

/// Writing the level-0 PTE of `a` changes the leaf of `a` and of the
/// addresses with the same indices, and nothing else.
proof fn lemma_set_leaf(pt: &PageTable, m1: &PhysMem, m2: &PhysMem, a: int, x: u64, val: u64)
    requires
        pt.wf(m1),
        pt.pte_addr(m1, a) == Some(x),
        changed_only(m1, m2, x as int, 8),
        m2.word(x as int) == val,
    ensures
        pt.wf(m2),
        changed_in_tables(pt, m1, m2),
        forall|b: int, c: int| 0 <= b < 512 && 0 <= c < 512 && pt.l1_present(b) ==> #[trigger] pt.l1_pte(m2, b, c)
            == pt.l1_pte(m1, b, c),
        forall|v: int| #[trigger] pt.pte_addr(m2, v) == pt.pte_addr(m1, v),
        forall|v: int| #[trigger] pt.leaf(m2, v) == if va_indices(v) == va_indices(a) {
            Some(val)
        } else {
            pt.leaf(m1, v)
        },
{
    reveal(took_tables);
    reveal(PageTable::translate);
    reveal(changed_in_tables);
    reveal(PageTable::apart_from_free);
    reveal(Kmem::wf);
    reveal(PageTable::wf);
    reveal(PageTable::wf_tables);
    let (i, j, k) = va_indices(a);
    let t0 = pt.l0_table(m1, i, j);
    assert(0 <= i < 512 && 0 <= j < 512 && 0 <= k < 512);
    assert(pt.l0_present(m1, i, j));
    assert(pt.owns(t0) && pt.tables@[t0] == l0_code(i, j));
    assert(x == t0 + 8 * k);
    lemma_root_words_kept(pt, m1, m2, t0, x as int);
    reveal(PageTable::wf);
    reveal(PageTable::mirrored);
    lemma_mirror_kept(pt, m1, pt, m2);
    assert forall|b: int, c: int|
        0 <= b < 512 && 0 <= c < 512 && pt.l1_present(b) implies #[trigger] pt.l1_pte(m2, b, c)
        == pt.l1_pte(m1, b, c) by {
        let tb = pt.l1_table(b);
        assert(pt.owns(tb) && pt.tables@[tb] == b);
        lemma_disjoint_words(tb, t0, c, k);
        lemma_word_outside(m1, m2, x as int, 8, tb + 8 * c);
    }
    assert forall|v: int| #[trigger] pt.pte_addr(m2, v) == pt.pte_addr(m1, v) by {
        let (b, c, d) = va_indices(v);
        assert(0 <= b < 512 && 0 <= c < 512);
        if pt.l1_present(b) {
            assert(pt.l1_pte(m2, b, c) == pt.l1_pte(m1, b, c));
        }
    }
    assert forall|v: int| #[trigger] pt.leaf(m2, v) == if va_indices(v) == va_indices(a) {
        Some(val)
    } else {
        pt.leaf(m1, v)
    } by {
        let (b, c, d) = va_indices(v);
        assert(0 <= b < 512 && 0 <= c < 512 && 0 <= d < 512);
        assert(pt.pte_addr(m2, v) == pt.pte_addr(m1, v));
        if pt.l0_present(m1, b, c) && va_indices(v) != va_indices(a) {
            let tb = pt.l0_table(m1, b, c);
            assert(pt.owns(tb) && pt.tables@[tb] == l0_code(b, c));
            if b != i || c != j {
                assert(tb != t0);
                lemma_disjoint_words(tb, t0, d, k);
            } else {
                assert(d != k);
            }
            lemma_word_outside(m1, m2, x as int, 8, tb + 8 * d);
        }
    }
    assert forall|b: int, c: int|
        0 <= b < 512 && 0 <= c < 512 && #[trigger] pt.l0_present(m2, b, c) implies pt.owns(
            pt.l0_table(m2, b, c),
        ) && pt.tables@[pt.l0_table(m2, b, c)] == l0_code(b, c) by {
        assert(pt.l1_pte(m2, b, c) == pt.l1_pte(m1, b, c));
        assert(pt.l0_present(m1, b, c));
    }
    assert forall|q: int|
        m2.contains(q, 1) && (forall|t: u64| #[trigger] pt.owns(t) ==> !(t <= q < t + 4096))
            implies #[trigger] m2.byte(q) == m1.byte(q) by {
        assert(pt.owns(t0));
    }
}

/// What taking table pages means.
pub proof fn lemma_took_facts(pt0: &PageTable, pt1: &PageTable, k0: &Kmem, k1: &Kmem, used: int)
    requires
        took_tables(pt0, pt1, k0, k1, used),
    ensures
        0 <= used <= k0@.len(),
        k1@ == k0@.skip(used),
        k1.end == k0.end,
        forall|t: u64| #[trigger] pt0.owns(t) ==> pt1.owns(t),
        forall|t: u64| #[trigger] pt1.owns(t) ==> pt0.owns(t) || k0@.take(used).contains(t),
        forall|m: int| 0 <= m < used ==> pt1.owns(#[trigger] k0@[m]),
{
    reveal(took_tables);
    reveal(PageTable::translate);
}

/// Nothing taken and nothing changed, at the start.
proof fn lemma_nothing_taken(pt: &PageTable, m: &PhysMem, k: &Kmem)
    ensures
        took_tables(pt, pt, k, k, 0),
        changed_in_tables(pt, m, m),
{
    reveal(took_tables);
    reveal(PageTable::translate);
    reveal(changed_in_tables);
    assert(k@.skip(0) =~= k@);
    assert(k@.take(0) =~= Seq::<u64>::empty());
}

/// Table pages taken in two steps are taken in one.
pub proof fn lemma_took_trans(
    pt0: &PageTable,
    pt1: &PageTable,
    pt2: &PageTable,
    k0: &Kmem,
    k1: &Kmem,
    k2: &Kmem,
    u1: int,
    u2: int,
)
    requires
        took_tables(pt0, pt1, k0, k1, u1),
        took_tables(pt1, pt2, k1, k2, u2),
    ensures
        took_tables(pt0, pt2, k0, k2, u1 + u2),
{
    reveal(took_tables);
    reveal(PageTable::translate);
    reveal(changed_in_tables);
    reveal(PageTable::apart_from_free);
    reveal(Kmem::wf);
    assert(k2@ =~= k0@.skip(u1 + u2));
    assert forall|t: u64| #[trigger] pt2.owns(t) implies pt0.owns(t) || k0@.take(u1 + u2).contains(t) by {
        if !pt1.owns(t) {
            let m = k1@.take(u2).index_of(t);
            assert(k0@.take(u1 + u2)[u1 + m] == t);
        } else if !pt0.owns(t) {
            let m = k0@.take(u1).index_of(t);
            assert(k0@.take(u1 + u2)[m] == t);
        }
    }
    assert forall|m: int| 0 <= m < u1 + u2 implies pt2.owns(#[trigger] k0@[m]) by {
        if m >= u1 {
            assert(k1@[m - u1] == k0@[m]);
        }
    }
}

/// Changes inside the table pages of a growing page table compose.
pub proof fn lemma_changed_tables_trans(pt1: &PageTable, pt2: &PageTable, m0: &PhysMem, m1: &PhysMem, m2: &PhysMem)
    requires
        changed_in_tables(pt1, m0, m1),
        changed_in_tables(pt2, m1, m2),
        forall|t: u64| #[trigger] pt1.owns(t) ==> pt2.owns(t),
    ensures
        changed_in_tables(pt2, m0, m2),
{
    reveal(took_tables);
    reveal(PageTable::translate);
    reveal(changed_in_tables);
    reveal(PageTable::apart_from_free);
    reveal(Kmem::wf);
    assert forall|q: int|
        m2.contains(q, 1) && (forall|t: u64| #[trigger] pt2.owns(t) ==> !(t <= q < t + 4096))
            implies #[trigger] m2.byte(q) == m0.byte(q) by {
        assert forall|t: u64| #[trigger] pt1.owns(t) implies !(t <= q < t + 4096) by {
            assert(pt2.owns(t));
        }
    }
}

impl PageTable {
    /// Looks up the physical page that `va` maps to for the user, or `None`
    /// when no table on the way exists or its PTE is invalid or not
    /// accessible to the user.
    pub fn walkaddr(&mut self, mem: &mut PhysMem, kmem: &mut Kmem, va: u64) -> (r: Option<u64>)
        requires
            va <= MAXVA,
            old(self).wf(old(mem)),
            old(self).apart_from_free(old(kmem)),
            old(kmem).wf(old(mem)),
        ensures
            *final(self) == *old(self),
            *final(mem) == *old(mem),
            *final(kmem) == *old(kmem),
            r == match old(self).leaf(old(mem), va as int) {
                Some(pte) => if pte_valid(pte) && pte_user(pte) {
                    Some(pte2pa_spec(pte))
                } else {
                    None
                },
                None => None,
            },
    {
        reveal(took_tables);
        reveal(PageTable::translate);
        reveal(changed_in_tables);
        reveal(PageTable::apart_from_free);
        reveal(Kmem::wf);
        reveal(PageTable::wf);
        reveal(PageTable::wf_tables);
        match self.walk(mem, kmem, va, false) {
            Some(a) => {
                let pte = mem.read_word(a);
                if pte & PTE_V == 0 || pte & PTE_U == 0 {
                    return None;
                }
                Some(pte2pa(pte))
            },
            None => None,
        }
    }
}

/// Setting the PTE of page `a` to a valid `e` maps exactly that page.
proof fn lemma_map_page(
    pt: &PageTable,
    m2: &PhysMem,
    m3: &PhysMem,
    pt1: &PageTable,
    m1: &PhysMem,
    a: int,
    x: u64,
    e: u64,
)
    requires
        pt.wf(m2),
        0 <= a < va_span(),
        a % 4096 == 0,
        pt.pte_addr(m2, a) == Some(x),
        changed_only(m2, m3, x as int, 8),
        m3.word(x as int) == e,
        pte_valid(e),
        forall|v: int| #[trigger] pt.translate(m2, v) == pt1.translate(m1, v),
    ensures
        pt.wf(m3),
        changed_in_tables(pt, m2, m3),
        forall|v: int| 0 <= v < va_span() ==> #[trigger] pt.translate(m3, v) == if pg_round_down_spec(v) == a {
            Some(e)
        } else {
            pt1.translate(m1, v)
        },
{
    reveal(took_tables);
    reveal(PageTable::translate);
    reveal(changed_in_tables);
    reveal(PageTable::apart_from_free);
    reveal(Kmem::wf);
    reveal(PageTable::wf);
    reveal(PageTable::wf_tables);
    lemma_set_leaf(pt, m2, m3, a, x, e);
    assert forall|v: int| 0 <= v < va_span() implies #[trigger] pt.translate(m3, v) == if pg_round_down_spec(v) == a {
        Some(e)
    } else {
        pt1.translate(m1, v)
    } by {
        lemma_va_indices_page(v, a);
        assert(v - v % 4096 == (v / 4096) * 4096);
        assert(a == (a / 4096) * 4096);
        assert(pt.translate(m2, v) == pt1.translate(m1, v));
    }
}

impl PageTable {
    /// Sets the PTE of page `a` to map page `p` with `perm`, taking tables
    /// from the allocator as needed; `false` when one was needed and none
    /// was free. The page must not be mapped yet.
    #[verifier::rlimit(30)]
    fn map_page(&mut self, mem: &mut PhysMem, kmem: &mut Kmem, a: u64, p: u64, perm: u64) -> (ok: bool)
        requires
            old(self).wf(old(mem)),
            old(self).apart_from_free(old(kmem)),
            old(kmem).wf(old(mem)),
            a <= MAXVA,
            a % 4096 == 0,
            old(self).translate(old(mem), a as int) is None,
        ensures
            final(self).wf(final(mem)),
            final(self).root == old(self).root,
            final(self).apart_from_free(final(kmem)),
            final(kmem).wf(final(mem)),
            took_tables(old(self), final(self), old(kmem), final(kmem), old(kmem)@.len() - final(kmem)@.len()),
            changed_in_tables(final(self), old(mem), final(mem)),
            !ok ==> final(kmem)@.len() == 0,
            ok <==> old(kmem)@.len() >= old(self).tables_needed(old(mem), a as int),
            forall|k: int| 0 <= k < 512 && (k != va_indices(a as int).0 || old(self).l1_present(k)) ==> #[trigger] final(self).root_pte(k)
                == old(self).root_pte(k),
            forall|i: int, j: int|
                0 <= i < 512 && 0 <= j < 512 && old(self).l1_present(i) && (i != va_indices(a as int).0 || j
                    != va_indices(a as int).1) ==> #[trigger] final(self).l1_pte(final(mem), i, j) == old(self).l1_pte(
                    old(mem),
                    i,
                    j,
                ),
            forall|v: int| #[trigger] old(self).pte_addr(old(mem), v) is Some ==> final(self).pte_addr(final(mem), v)
                == old(self).pte_addr(old(mem), v),
            forall|v: int|
                #[trigger] old(self).pte_addr(old(mem), v) is Some && va_indices(v) != va_indices(a as int) ==> final(self).leaf(final(mem), v)
                    == old(self).leaf(old(mem), v),
            final(kmem)@.len() + old(self).tables_needed(old(mem), a as int) >= old(kmem)@.len(),
            ok ==> forall|v: int|
                #[trigger] va_indices(v).0 == va_indices(a as int).0 && va_indices(v).1 == va_indices(a as int).1
                    ==> final(self).tables_needed(final(mem), v) == 0,
            forall|v: int| 0 <= v < va_span() ==> #[trigger] final(self).translate(final(mem), v) == if ok
                && pg_round_down_spec(v) == a {
                Some(leaf_pte(p, perm))
            } else {
                old(self).translate(old(mem), v)
            },
    {
        reveal(took_tables);
        reveal(PageTable::translate);
        reveal(changed_in_tables);
        reveal(PageTable::apart_from_free);
        reveal(Kmem::wf);
        reveal(PageTable::wf);
        reveal(PageTable::wf_tables);
        let ghost pt1 = *self;
        let ghost m1 = *mem;
        let ghost k1 = *kmem;
        let w = self.walk(mem, kmem, a, true);
        proof {
            let needed = pt1.tables_needed(&m1, a as int);
            let used = if needed <= k1@.len() { needed } else { k1@.len() as int };
            lemma_grows_facts(&pt1, &m1, &k1, self, mem, kmem, used);
        }
        match w {
            None => {
                proof {
                    assert(kmem.wf(mem));
                }
                false
            },
            Some(x) => {
                let ghost m2 = *mem;
                let pte = mem.read_word(x);
                proof {
                    assert(self.translate(mem, a as int) == pt1.translate(&m1, a as int));
                    assert(self.leaf(mem, a as int) == Some(pte));
                }
                if pte & PTE_V != 0 {
                    proof {
                        assert(false);
                    }
                }
                let e = pa2pte(p) | perm | PTE_V;
                mem.write_word(x, e);
                proof {
                    let (i, j, k) = va_indices(a as int);
                    let t0 = self.l0_table(&m2, i, j);
                    assert(self.owns(t0));
                    assert(!kmem.is_free(t0));
                    lemma_part_page_change(&m2, mem, x as int, 8, t0);
                    assert forall|m: int| 0 <= m < seq![t0].len() implies #[trigger] seq![t0][m] % 4096 == 0
                        && !kmem.is_free(seq![t0][m]) by {}
                    lemma_kmem_frame(kmem, &m2, mem, seq![t0]);
                    lemma_leaf_valid(p, perm);
                    assert(self.pte_addr(&m2, a as int) is Some);
                    lemma_map_page(self, &m2, mem, &pt1, &m1, a as int, x, e);
                    lemma_changed_tables_trans(self, self, old(mem), &m2, mem);
                    lemma_set_leaf(self, &m2, mem, a as int, x, e);
                    assert forall|v: int|
                        #[trigger] pt1.pte_addr(&m1, v) is Some && va_indices(v) != va_indices(a as int) implies self.leaf(
                        mem,
                        v,
                    ) == pt1.leaf(&m1, v) by {
                        assert(self.leaf(&m2, v) == pt1.leaf(&m1, v));
                    }
                    assert forall|ii: int, jj: int|
                        0 <= ii < 512 && 0 <= jj < 512 && pt1.l1_present(ii) && (ii != va_indices(a as int).0 || jj
                            != va_indices(a as int).1) implies #[trigger] self.l1_pte(mem, ii, jj) == pt1.l1_pte(&m1, ii, jj) by {
                        assert(self.l1_present(ii)) by {
                            if ii != va_indices(a as int).0 {
                                assert(self.root_pte(ii) == pt1.root_pte(ii));
                            }
                        }
                        assert(self.l1_pte(&m2, ii, jj) == pt1.l1_pte(&m1, ii, jj));
                    }
                    assert forall|v: int|
                        #[trigger] va_indices(v).0 == va_indices(a as int).0 && va_indices(v).1 == va_indices(a as int).1
                            implies self.tables_needed(mem, v) == 0 by {
                        assert(self.pte_addr(mem, a as int) == self.pte_addr(&m2, a as int));
                    }
                }
                true
            },
        }
    }
}

/// The PTE that `mappages(va, pa, size, perm)` leaves for `v`, or `None`
/// when `v` lies outside the pages `[first, last]` it maps.
pub open spec fn map_result(first: int, last: int, pa: int, perm: u64, v: int) -> Option<u64> {
    let page = pg_round_down_spec(v);
    if first <= page <= last {
        Some(leaf_pte((pa + (page - first)) as u64, perm))
    } else {
        None
    }
}

/// The next page in the same 2 MiB block has the same level-2 and level-1
/// indices.
pub proof fn lemma_same_block(a: int, b: int)
    requires
        0 <= a,
        a % 4096 == 0,
        b == a + 4096,
        b % 0x20_0000 != 0,
    ensures
        va_indices(b).0 == va_indices(a).0,
        va_indices(b).1 == va_indices(a).1,
{
    assert(b / 0x20_0000 == a / 0x20_0000);
    assert(b / 0x4000_0000 == (b / 0x20_0000) / 512);
    assert(a / 0x4000_0000 == (a / 0x20_0000) / 512);
}

/// Table pages that mapping the pages from `a` to `last` (page
/// boundaries) takes at most: the tables that page `a` lacks, a level-0
/// table for each further 2 MiB block and a level-1 table for each further
/// 1 GiB region. Where those further tables do not exist yet, this is
/// exactly what it takes.
pub open spec fn map_rest(pt: &PageTable, mem: &PhysMem, a: int, last: int) -> int {
    if a <= last {
        pt.tables_needed(mem, a) + (last / 0x20_0000 - a / 0x20_0000) + (last / 0x4000_0000 - a / 0x4000_0000)
    } else {
        0
    }
}

/// Mapping page `a` takes the tables it lacks and leaves at least that much
/// less to take for the pages after it.
#[verifier::spinoff_prover]
#[verifier::rlimit(40)]
pub proof fn lemma_map_rest_step(pt1: &PageTable, m1: &PhysMem, pt: &PageTable, mem: &PhysMem, a: int, last: int)
    requires
        0 <= a <= last,
        a % 4096 == 0,
        last % 4096 == 0,
        forall|v: int|
            #[trigger] va_indices(v).0 == va_indices(a).0 && va_indices(v).1 == va_indices(a).1
                ==> pt.tables_needed(mem, v) == 0,
    ensures
        map_rest(pt, mem, a + 4096, last) + pt1.tables_needed(m1, a) <= map_rest(pt1, m1, a, last),
{
    let na = a + 4096;
    assert(pt.tables_needed(mem, a) == 0);
    assert(pt.l1_present(va_indices(a).0));
    assert(pt.tables_needed(mem, na) <= 2);
    if na % 0x20_0000 != 0 {
        lemma_same_block(a, na);
        assert(na / 0x20_0000 == a / 0x20_0000);
        assert(na / 0x4000_0000 == a / 0x4000_0000) by {
            assert(na / 0x4000_0000 == (na / 0x20_0000) / 512);
            assert(a / 0x4000_0000 == (a / 0x20_0000) / 512);
        }
    } else {
        assert(na / 0x20_0000 == a / 0x20_0000 + 1);
        if na % 0x4000_0000 != 0 {
            assert(na / 0x4000_0000 == a / 0x4000_0000) by {
                assert(na / 0x4000_0000 == (na / 0x20_0000) / 512);
                assert(a / 0x4000_0000 == (a / 0x20_0000) / 512);
            }
            assert(va_indices(na).0 == va_indices(a).0);
            assert(pt.tables_needed(mem, na) <= 1);
        } else {
            assert(na / 0x4000_0000 == a / 0x4000_0000 + 1);
        }
    }
    if na > last {
        assert(last / 0x20_0000 >= a / 0x20_0000);
        assert(last / 0x4000_0000 >= a / 0x4000_0000);
    }
}

/// What mapping `[first, last]` takes at most is at most two pages per
/// 2 MiB block.
proof fn lemma_map_rest_blocks(pt: &PageTable, mem: &PhysMem, first: int, last: int)
    requires
        0 <= first <= last,
    ensures
        map_rest(pt, mem, first, last) <= 2 * (last / 0x20_0000 - first / 0x20_0000 + 1),
{
    assert(last / 0x4000_0000 - first / 0x4000_0000 <= last / 0x20_0000 - first / 0x20_0000) by {
        assert(last / 0x4000_0000 == (last / 0x20_0000) / 512);
        assert(first / 0x4000_0000 == (first / 0x20_0000) / 512);
    }
}

/// The entries of `pt0` that the pages `[first, a)` do not pass through
/// keep their words in `pt`: the root entries of the 1 GiB regions and the
/// level-1 entries of the 2 MiB blocks that the range does not touch, and
/// the leaf entries of the pages outside it; valid root entries and the
/// paths that existed stay as they were.
pub open spec fn kept_outside(pt: &PageTable, mem: &PhysMem, pt0: &PageTable, m0: &PhysMem, first: int, a: int) -> bool {
    &&& forall|k: int|
        0 <= k < 512 && (pt0.l1_present(k) || a <= k * 0x4000_0000 || (k + 1) * 0x4000_0000 <= first)
            ==> #[trigger] pt.root_pte(k) == pt0.root_pte(k)
    &&& forall|i: int, j: int|
        0 <= i < 512 && 0 <= j < 512 && pt0.l1_present(i) && (a <= (512 * i + j) * 0x20_0000 || (512 * i + j + 1)
            * 0x20_0000 <= first) ==> #[trigger] pt.l1_pte(mem, i, j) == pt0.l1_pte(m0, i, j)
    &&& forall|v: int| #[trigger] pt0.pte_addr(m0, v) is Some ==> pt.pte_addr(mem, v) == pt0.pte_addr(m0, v)
    &&& forall|v: int|
        0 <= v < va_span() && pt0.pte_addr(m0, v) is Some && (pg_round_down_spec(v) < first || a <= pg_round_down_spec(v))
            ==> #[trigger] pt.leaf(mem, v) == pt0.leaf(m0, v)
}

/// The table indices of an address below `va_span` are its 1 GiB region
/// and its 2 MiB block.
pub proof fn lemma_indices_blocks(a: int)
    requires
        0 <= a < va_span(),
    ensures
        va_indices(a).0 == a / 0x4000_0000,
        512 * va_indices(a).0 + va_indices(a).1 == a / 0x20_0000,
{
    assert(a / 0x4000_0000 == (a / 0x20_0000) / 512);
}

/// Mapping page `a` of `[first, ...)` keeps the entries that the pages
/// `[first, a + 4096)` do not pass through.
#[verifier::spinoff_prover]
#[verifier::rlimit(40)]
proof fn lemma_kept_step(pt1: &PageTable, m1: &PhysMem, pt: &PageTable, mem: &PhysMem, pt0: &PageTable, m0: &PhysMem, first: int, a: int)
    requires
        kept_outside(pt1, m1, pt0, m0, first, a),
        0 <= first <= a < va_span(),
        a % 4096 == 0,
        forall|k: int| 0 <= k < 512 && (k != va_indices(a).0 || pt1.l1_present(k)) ==> #[trigger] pt.root_pte(k)
            == pt1.root_pte(k),
        forall|i: int, j: int|
            0 <= i < 512 && 0 <= j < 512 && pt1.l1_present(i) && (i != va_indices(a).0 || j != va_indices(a).1)
                ==> #[trigger] pt.l1_pte(mem, i, j) == pt1.l1_pte(m1, i, j),
        forall|v: int| #[trigger] pt1.pte_addr(m1, v) is Some ==> pt.pte_addr(mem, v) == pt1.pte_addr(m1, v),
        forall|v: int|
            #[trigger] pt1.pte_addr(m1, v) is Some && va_indices(v) != va_indices(a) ==> pt.leaf(mem, v) == pt1.leaf(m1, v),
    ensures
        kept_outside(pt, mem, pt0, m0, first, a + 4096),
{
    lemma_indices_blocks(a);
    assert forall|k: int|
        0 <= k < 512 && (pt0.l1_present(k) || a + 4096 <= k * 0x4000_0000 || (k + 1) * 0x4000_0000 <= first)
            implies #[trigger] pt.root_pte(k) == pt0.root_pte(k) by {
        assert(pt1.root_pte(k) == pt0.root_pte(k));
        if !pt0.l1_present(k) {
            assert(k != a / 0x4000_0000);
        }
    }
    assert forall|i: int, j: int|
        0 <= i < 512 && 0 <= j < 512 && pt0.l1_present(i) && (a + 4096 <= (512 * i + j) * 0x20_0000 || (512 * i + j
            + 1) * 0x20_0000 <= first) implies #[trigger] pt.l1_pte(mem, i, j) == pt0.l1_pte(m0, i, j) by {
        assert(pt1.root_pte(i) == pt0.root_pte(i));
        assert(pt1.l1_present(i));
        assert(pt1.l1_pte(m1, i, j) == pt0.l1_pte(m0, i, j));
        assert(512 * i + j != a / 0x20_0000);
    }
    assert forall|v: int| #[trigger] pt0.pte_addr(m0, v) is Some implies pt.pte_addr(mem, v) == pt0.pte_addr(m0, v) by {
        assert(pt1.pte_addr(m1, v) == pt0.pte_addr(m0, v));
    }
    assert forall|v: int|
        0 <= v < va_span() && pt0.pte_addr(m0, v) is Some && (pg_round_down_spec(v) < first || a + 4096
            <= pg_round_down_spec(v)) implies #[trigger] pt.leaf(mem, v) == pt0.leaf(m0, v) by {
        assert(pt1.pte_addr(m1, v) == pt0.pte_addr(m0, v));
        assert(pt1.leaf(m1, v) == pt0.leaf(m0, v));
        lemma_va_indices_page(v, a);
        assert(pg_round_down_spec(v) != a);
        assert(v / 4096 != a / 4096);
    }
}

/// Keeping the entries outside a range keeps those outside a larger one.
proof fn lemma_kept_wider(pt: &PageTable, mem: &PhysMem, pt0: &PageTable, m0: &PhysMem, first: int, a: int, b: int)
    requires
        kept_outside(pt, mem, pt0, m0, first, a),
        a <= b,
    ensures
        kept_outside(pt, mem, pt0, m0, first, b),
{
}

/// Before mapping page `a`: with a budget of two pages per 2 MiB block
/// the walk has the tables it needs.
proof fn lemma_budget_before(k0: int, kl: int, needed: int, done: int, a: int, first: int, last: int)
    requires
        0 <= needed <= 2,
        0 <= done,
        0 <= first <= a <= last,
        a % 4096 == 0,
        a == first + 4096 * done,
        done == 0 ==> kl == k0,
        done > 0 ==> kl + 2 * ((a - 4096) / 0x20_0000 - first / 0x20_0000 + 1) >= k0,
        done > 0 && a % 0x20_0000 != 0 ==> needed == 0,
    ensures
        k0 >= 2 * (last / 0x20_0000 - first / 0x20_0000 + 1) ==> kl >= needed,
{
    if done > 0 && a % 0x20_0000 == 0 {
        assert(a / 0x20_0000 == (a - 4096) / 0x20_0000 + 1);
        assert(last / 0x20_0000 >= a / 0x20_0000);
    }
}

/// After mapping page `a`: the budget covers the blocks touched so far.
proof fn lemma_budget_after(k0: int, kl: int, kn: int, needed: int, done: int, a: int, first: int)
    requires
        0 <= needed <= 2,
        0 <= done,
        0 <= first <= a,
        a % 4096 == 0,
        a == first + 4096 * done,
        done == 0 ==> kl == k0,
        done > 0 ==> kl + 2 * ((a - 4096) / 0x20_0000 - first / 0x20_0000 + 1) >= k0,
        done > 0 && a % 0x20_0000 != 0 ==> needed == 0,
        kn + needed >= kl,
    ensures
        kn + 2 * (a / 0x20_0000 - first / 0x20_0000 + 1) >= k0,
{
    if done > 0 {
        if a % 0x20_0000 != 0 {
            assert(a / 0x20_0000 == (a - 4096) / 0x20_0000);
        } else {
            assert(a / 0x20_0000 == (a - 4096) / 0x20_0000 + 1);
        }
    }
}

/// The translations that `mappages` promises: pages in `[first, last]`
/// map as `map_result` says (or, after a failure, may be unmapped), others
/// keep theirs.
#[verifier::opaque]
pub open spec fn map_outcome(
    pt: &PageTable,
    mem: &PhysMem,
    pt0: &PageTable,
    m0: &PhysMem,
    first: int,
    last: int,
    pa: int,
    perm: u64,
    failed: bool,
) -> bool {
    forall|v: int| 0 <= v < va_span() ==> {
        let now = #[trigger] pt.translate(mem, v);
        let want = map_result(first, last, pa, perm, v);
        if want is Some {
            now == want || (failed && now is None)
        } else {
            now == pt0.translate(m0, v)
        }
    }
}

/// After the pages `[first, a)` are mapped: they translate as the mapping
/// asks, every other address as before.
#[verifier::opaque]
pub open spec fn mapped_below(
    pt: &PageTable,
    mem: &PhysMem,
    pt0: &PageTable,
    m0: &PhysMem,
    first: int,
    last: int,
    pa: int,
    perm: u64,
    a: int,
) -> bool {
    forall|v: int| 0 <= v < va_span() ==> #[trigger] pt.translate(mem, v) == if first <= pg_round_down_spec(v) < a {
        map_result(first, last, pa, perm, v)
    } else {
        pt0.translate(m0, v)
    }
}

/// Nothing is mapped yet.
proof fn lemma_mapped_below_start(pt0: &PageTable, m0: &PhysMem, first: int, last: int, pa: int, perm: u64)
    ensures
        mapped_below(pt0, m0, pt0, m0, first, last, pa, perm, first),
{
    reveal(mapped_below);
}

/// Mapping page `a` extends the mapped prefix by one page.
proof fn lemma_mapped_below_step(
    pt: &PageTable,
    mem: &PhysMem,
    pt1: &PageTable,
    m1: &PhysMem,
    pt0: &PageTable,
    m0: &PhysMem,
    first: int,
    last: int,
    pa: int,
    perm: u64,
    a: int,
)
    requires
        mapped_below(pt1, m1, pt0, m0, first, last, pa, perm, a),
        first <= a <= last,
        a % 4096 == 0,
        first % 4096 == 0,
        forall|v: int| 0 <= v < va_span() ==> #[trigger] pt.translate(mem, v) == if pg_round_down_spec(v) == a {
            Some(leaf_pte((pa + (a - first)) as u64, perm))
        } else {
            pt1.translate(m1, v)
        },
    ensures
        mapped_below(pt, mem, pt0, m0, first, last, pa, perm, a + 4096),
{
    reveal(mapped_below);
    assert forall|v: int| 0 <= v < va_span() implies #[trigger] pt.translate(mem, v) == if first <= pg_round_down_spec(v) < a + 4096 {
        map_result(first, last, pa, perm, v)
    } else {
        pt0.translate(m0, v)
    } by {
        let page = pg_round_down_spec(v);
        assert(page % 4096 == 0);
        assert(pt1.translate(m1, v) == if first <= page < a {
            map_result(first, last, pa, perm, v)
        } else {
            pt0.translate(m0, v)
        });
    }
}

/// A stop after the pages `[first, a)` leaves the outcome promised on
/// failure, given that no page of the range was mapped before.
#[verifier::spinoff_prover]
#[verifier::rlimit(40)]
proof fn lemma_mapped_below_fail(
    pt: &PageTable,
    mem: &PhysMem,
    pt0: &PageTable,
    m0: &PhysMem,
    first: int,
    last: int,
    pa: int,
    perm: u64,
    a: int,
)
    requires
        mapped_below(pt, mem, pt0, m0, first, last, pa, perm, a),
        0 <= first <= a <= last,
        forall|v: int| first <= v <= last ==> #[trigger] pt0.translate(m0, v) is None,
    ensures
        map_outcome(pt, mem, pt0, m0, first, last, pa, perm, true),
        forall|v: int| 0 <= v < va_span() && pg_round_down_spec(v) == last ==> #[trigger] pt.translate(mem, v) is None,
{
    reveal(map_outcome);
    reveal(PageTable::translate);
    reveal(mapped_below);
    assert forall|v: int| 0 <= v < va_span() && pg_round_down_spec(v) == last implies #[trigger] pt.translate(mem, v) is None by {
        let page = pg_round_down_spec(v);
        assert(page % 4096 == 0 && 0 <= page <= v);
        assert(pt.translate(mem, v) == if first <= page < a {
            map_result(first, last, pa, perm, v)
        } else {
            pt0.translate(m0, v)
        });
        assert(pt0.translate(m0, page) is None);
        lemma_va_indices_round(v);
        assert(pt0.translate(m0, v) == pt0.translate(m0, page));
    }
    assert forall|v: int| 0 <= v < va_span() implies {
        let now = #[trigger] pt.translate(mem, v);
        let want = map_result(first, last, pa, perm, v);
        if want is Some {
            now == want || now is None
        } else {
            now == pt0.translate(m0, v)
        }
    } by {
        let page = pg_round_down_spec(v);
        assert(page % 4096 == 0 && 0 <= page <= v);
        assert(pt.translate(mem, v) == if first <= page < a {
            map_result(first, last, pa, perm, v)
        } else {
            pt0.translate(m0, v)
        });
        if first <= page <= last && !(first <= page < a) {
            assert(pt0.translate(m0, page) is None);
            lemma_va_indices_round(v);
            assert(pt0.translate(m0, v) == pt0.translate(m0, page));
        }
    }
}

/// All pages mapped: the outcome promised on success.
proof fn lemma_mapped_below_done(
    pt: &PageTable,
    mem: &PhysMem,
    pt0: &PageTable,
    m0: &PhysMem,
    first: int,
    last: int,
    pa: int,
    perm: u64,
)
    requires
        mapped_below(pt, mem, pt0, m0, first, last, pa, perm, last + 4096),
        last % 4096 == 0,
    ensures
        map_outcome(pt, mem, pt0, m0, first, last, pa, perm, false),
{
    reveal(map_outcome);
    reveal(mapped_below);
    assert forall|v: int| 0 <= v < va_span() implies {
        let now = #[trigger] pt.translate(mem, v);
        let want = map_result(first, last, pa, perm, v);
        if want is Some {
            now == want
        } else {
            now == pt0.translate(m0, v)
        }
    } by {
        let page = pg_round_down_spec(v);
        assert(page % 4096 == 0);
        assert(pt.translate(mem, v) == if first <= page < last + 4096 {
            map_result(first, last, pa, perm, v)
        } else {
            pt0.translate(m0, v)
        });
    }
}

/// The translation of page `a` is what it was before `mappages` began.
proof fn lemma_mapped_below_at(
    pt: &PageTable,
    mem: &PhysMem,
    pt0: &PageTable,
    m0: &PhysMem,
    first: int,
    last: int,
    pa: int,
    perm: u64,
    a: int,
)
    requires
        mapped_below(pt, mem, pt0, m0, first, last, pa, perm, a),
        0 <= a < va_span(),
        a % 4096 == 0,
    ensures
        pt.translate(mem, a) == pt0.translate(m0, a),
{
    reveal(mapped_below);
    assert(pg_round_down_spec(a) == a);
    assert(pt.translate(mem, a) == pt0.translate(m0, a));
}

/// Progress of `mappages`: the pages `[first, a)` are mapped, the
/// allocator spent at most two pages per 2 MiB block touched, and the table
/// path of the block being filled exists.
#[verifier::opaque]
pub open spec fn map_progress(
    pt: &PageTable,
    mem: &PhysMem,
    kmem: &Kmem,
    pt0: &PageTable,
    m0: &PhysMem,
    k0: &Kmem,
    first: int,
    last: int,
    pa: int,
    perm: u64,
    a: int,
    done: int,
) -> bool {
    &&& pt.wf(mem)
    &&& pt.apart_from_free(kmem)
    &&& kmem.wf(mem)
    &&& pt.root == pt0.root
    &&& 0 <= first <= last <= MAXVA
    &&& first % 4096 == 0
    &&& last % 4096 == 0
    &&& a % 4096 == 0
    &&& 0 <= done
    &&& a == first + 4096 * done
    &&& took_tables(pt0, pt, k0, kmem, k0@.len() - kmem@.len())
    &&& changed_in_tables(pt, m0, mem)
    &&& (done == 0 ==> kmem@.len() == k0@.len() && *pt == *pt0 && *mem == *m0 && *kmem == *k0)
    &&& (done > 0 ==> kmem@.len() + 2 * ((a - 4096) / 0x20_0000 - first / 0x20_0000 + 1) >= k0@.len())
    &&& (done > 0 && a % 0x20_0000 != 0 ==> pt.tables_needed(mem, a) == 0)
    &&& (done > 0 ==> k0@.len() >= pt0.tables_needed(m0, first))
    &&& k0@.len() - kmem@.len() + map_rest(pt, mem, a, last) <= map_rest(pt0, m0, first, last)
    &&& kept_outside(pt, mem, pt0, m0, first, a)
    &&& (forall|v: int| first <= v <= last ==> #[trigger] pt0.translate(m0, v) is None)
    &&& mapped_below(pt, mem, pt0, m0, first, last, pa, perm, a)
}

/// `mappages` starts with nothing mapped.
proof fn lemma_progress_start(
    pt0: &PageTable,
    m0: &PhysMem,
    k0: &Kmem,
    first: int,
    last: int,
    pa: int,
    perm: u64,
)
    requires
        pt0.wf(m0),
        pt0.apart_from_free(k0),
        k0.wf(m0),
        0 <= first <= last <= MAXVA,
        first % 4096 == 0,
        last % 4096 == 0,
        forall|v: int| first <= v <= last ==> #[trigger] pt0.translate(m0, v) is None,
    ensures
        map_progress(pt0, m0, k0, pt0, m0, k0, first, last, pa, perm, first, 0),
{
    reveal(map_progress);
    lemma_nothing_taken(pt0, m0, k0);
    lemma_mapped_below_start(pt0, m0, first, last, pa, perm);
}

/// What progress of `mappages` guarantees.
proof fn lemma_progress_facts(
    pt: &PageTable,
    mem: &PhysMem,
    kmem: &Kmem,
    pt0: &PageTable,
    m0: &PhysMem,
    k0: &Kmem,
    first: int,
    last: int,
    pa: int,
    perm: u64,
    a: int,
    done: int,
)
    requires
        map_progress(pt, mem, kmem, pt0, m0, k0, first, last, pa, perm, a, done),
    ensures
        pt.wf(mem),
        pt.apart_from_free(kmem),
        kmem.wf(mem),
        took_tables(pt0, pt, k0, kmem, k0@.len() - kmem@.len()),
        changed_in_tables(pt, m0, mem),
        a == first + 4096 * done,
        0 <= done,
        done > 0 ==> k0@.len() >= pt0.tables_needed(m0, first),
        mapped_below(pt, mem, pt0, m0, first, last, pa, perm, a),
        last % 4096 == 0,
        pt.root == pt0.root,
{
    reveal(map_progress);
}

/// A `mappages` run that found no table page for page `a`: the table is
/// sound, the allocator empty, the pages before `a` mapped, and the entries
/// that the pages up to `a` do not pass through as they were.
#[verifier::opaque]
pub open spec fn step_failed(
    pt: &PageTable,
    mem: &PhysMem,
    kmem: &Kmem,
    pt0: &PageTable,
    m0: &PhysMem,
    k0: &Kmem,
    first: int,
    last: int,
    pa: int,
    perm: u64,
    a: int,
    done: int,
) -> bool {
    &&& pt.wf(mem)
    &&& pt.apart_from_free(kmem)
    &&& kmem.wf(mem)
    &&& took_tables(pt0, pt, k0, kmem, k0@.len() - kmem@.len())
    &&& changed_in_tables(pt, m0, mem)
    &&& kmem@.len() == 0
    &&& map_outcome(pt, mem, pt0, m0, first, last, pa, perm, true)
    &&& (forall|v: int| 0 <= v < va_span() && pg_round_down_spec(v) == last ==> #[trigger] pt.translate(mem, v) is None)
    &&& (done == 0 ==> k0@.len() < pt0.tables_needed(m0, first))
    &&& first <= a
    &&& mapped_below(pt, mem, pt0, m0, first, last, pa, perm, a)
    &&& kept_outside(pt, mem, pt0, m0, first, a + 4096)
}

/// Maps page `a` of a `mappages` run to `p`.
#[verifier::spinoff_prover]
#[verifier::rlimit(100)]
fn map_step(
    pagetable: &mut PageTable,
    mem: &mut PhysMem,
    kmem: &mut Kmem,
    a: u64,
    p: u64,
    perm: u64,
    Ghost(pt0): Ghost<PageTable>,
    Ghost(m0): Ghost<PhysMem>,
    Ghost(k0): Ghost<Kmem>,
    Ghost(first): Ghost<int>,
    Ghost(last): Ghost<int>,
    Ghost(pa): Ghost<int>,
    Ghost(done): Ghost<int>,
) -> (ok: bool)
    requires
        map_progress(old(pagetable), old(mem), old(kmem), &pt0, &m0, &k0, first, last, pa, perm, a as int, done),
        a <= last,
        p == pa + (a - first),
    ensures
        final(pagetable).root == old(pagetable).root,
        ok ==> map_progress(final(pagetable), final(mem), final(kmem), &pt0, &m0, &k0, first, last, pa, perm,
            a + 4096, done + 1),
        ok ==> forall|v: int|
            #[trigger] va_indices(v).0 == va_indices(a as int).0 && va_indices(v).1 == va_indices(a as int).1
                ==> final(pagetable).tables_needed(final(mem), v) == 0,
        !ok ==> step_failed(final(pagetable), final(mem), final(kmem), &pt0, &m0, &k0, first, last, pa, perm, a as int,
            done),
        k0@.len() >= 2 * (last / 0x20_0000 - first / 0x20_0000 + 1) ==> ok,
        k0@.len() >= map_rest(&pt0, &m0, first, last) ==> ok,
        done == 0 && ok ==> final(kmem)@.len() + pt0.tables_needed(&m0, first) >= k0@.len(),
{
    reveal(map_progress);
    reveal(step_failed);
    let ghost pt1 = *pagetable;
    let ghost m1 = *mem;
    let ghost k1 = *kmem;
    proof {
        lemma_mapped_below_at(pagetable, mem, &pt0, &m0, first, last, pa, perm, a as int);
        assert(pt0.translate(&m0, a as int) is None);
    }
    let ghost needed = pagetable.tables_needed(mem, a as int);
    let ghost before = kmem@.len() as int;
    proof {
        lemma_budget_before(k0@.len() as int, before, needed, done, a as int, first, last);
    }
    let ok = pagetable.map_page(mem, kmem, a, p, perm);
    proof {
        lemma_kept_step(&pt1, &m1, pagetable, mem, &pt0, &m0, first, a as int);
        lemma_took_facts(&pt1, pagetable, &k1, kmem, k1@.len() - kmem@.len());
        lemma_took_trans(&pt0, &pt1, pagetable, &k0, &k1, kmem, k0@.len() - k1@.len(), k1@.len() - kmem@.len());
        lemma_changed_tables_trans(&pt1, pagetable, &m0, &m1, mem);
        if !ok {
            assert forall|v: int| 0 <= v < va_span() implies #[trigger] pagetable.translate(mem, v) == pt1.translate(&m1, v) by {}
            reveal(mapped_below);
            lemma_mapped_below_fail(pagetable, mem, &pt0, &m0, first, last, pa, perm, a as int);
            assert(mapped_below(pagetable, mem, &pt0, &m0, first, last, pa, perm, a as int));
        } else {
            lemma_mapped_below_step(pagetable, mem, &pt1, &m1, &pt0, &m0, first, last, pa, perm, a as int);
            lemma_budget_after(k0@.len() as int, before, kmem@.len() as int, needed, done, a as int, first);
            lemma_map_rest_step(&pt1, &m1, pagetable, mem, a as int, last);
            if (a + 4096) % 0x20_0000 != 0 {
                lemma_same_block(a as int, a + 4096);
            }
        }
    }
    ok
}

/// What `mappages(va, pa, size, perm)` guarantees of its result `r`.
#[verifier::opaque]
pub open spec fn mappages_post(
    pt0: &PageTable,
    m0: &PhysMem,
    k0: &Kmem,
    pt: &PageTable,
    mem: &PhysMem,
    kmem: &Kmem,
    va: u64,
    pa: u64,
    size: u64,
    perm: u64,
    r: i32,
) -> bool {
    &&& pt.root == pt0.root
    &&& pt.wf(mem)
    &&& pt.apart_from_free(kmem)
    &&& kmem.wf(mem)
    &&& took_tables(pt0, pt, k0, kmem, k0@.len() - kmem@.len())
    &&& changed_in_tables(pt, m0, mem)
    &&& r == 0 || r == -1
    &&& r == -1 ==> kmem@.len() == 0
    &&& k0@.len() >= 2 * (pg_round_down_spec(va + size - 1) / 0x20_0000 - pg_round_down_spec(va as int) / 0x20_0000 + 1) ==> r == 0
    &&& pg_round_down_spec(va + size - 1) == pg_round_down_spec(va as int) ==> (r == 0 <==> k0@.len()
            >= pt0.tables_needed(m0, va as int))
    &&& r == 0 ==> forall|v: int|
            #[trigger] va_indices(v).0 == va_indices(pg_round_down_spec(va + size - 1)).0 && va_indices(v).1
                == va_indices(pg_round_down_spec(va + size - 1)).1 ==> pt.tables_needed(mem, v) == 0
    &&& map_outcome(pt, mem, pt0, m0, pg_round_down_spec(va as int),
            pg_round_down_spec(va + size - 1), pa as int, perm, r == -1)
    &&& r == -1 ==> forall|v: int| 0 <= v < va_span() && pg_round_down_spec(v) == pg_round_down_spec(va + size - 1)
            ==> #[trigger] pt.translate(mem, v) is None
    &&& r == -1 ==> exists|f: int|
            pg_round_down_spec(va as int) <= f <= pg_round_down_spec(va + size - 1) && #[trigger] mapped_below(
                pt,
                mem,
                pt0,
                m0,
                pg_round_down_spec(va as int),
                pg_round_down_spec(va + size - 1),
                pa as int,
                perm,
                f,
            )
    &&& pg_round_down_spec(va + size - 1) == pg_round_down_spec(va as int) ==> kmem@.len() + pt0.tables_needed(m0,
            va as int) >= k0@.len()
    &&& kmem@.len() + 2 * (pg_round_down_spec(va + size - 1) / 0x20_0000 - pg_round_down_spec(va as int) / 0x20_0000
            + 1) >= k0@.len()
    &&& k0@.len() >= map_rest(pt0, m0, pg_round_down_spec(va as int), pg_round_down_spec(va + size - 1)) ==> r == 0
    &&& kmem@.len() + map_rest(pt0, m0, pg_round_down_spec(va as int), pg_round_down_spec(va + size - 1))
            >= k0@.len()
    &&& r == 0 ==> forall|v: int|
            #[trigger] va_indices(v).0 == va_indices(pg_round_down_spec(va + size - 1)).0 ==> pt.tables_needed(
                mem,
                v,
            ) <= 1
    &&& kept_outside(pt, mem, pt0, m0, pg_round_down_spec(va as int), pg_round_down_spec(va + size - 1) + 4096)
}

/// A `mappages` run that ran out of table pages at page `a`.
proof fn lemma_mappages_failed(
    pt0: &PageTable,
    m0: &PhysMem,
    k0: &Kmem,
    pt1: &PageTable,
    m1: &PhysMem,
    k1: &Kmem,
    pt: &PageTable,
    mem: &PhysMem,
    kmem: &Kmem,
    va: u64,
    pa: u64,
    size: u64,
    perm: u64,
    a: int,
    done: int,
)
    requires
        map_progress(pt1, m1, k1, pt0, m0, k0, pg_round_down_spec(va as int), pg_round_down_spec(va + size - 1),
            pa as int, perm, a, done),
        a <= pg_round_down_spec(va + size - 1),
        va_indices(va as int) == va_indices(pg_round_down_spec(va as int)),
        pt.root == pt1.root,
        pt1.root == pt0.root,
        ({
            let first = pg_round_down_spec(va as int);
            let last = pg_round_down_spec(va + size - 1);
            &&& step_failed(pt, mem, kmem, pt0, m0, k0, first, last, pa as int, perm, a, done)
            &&& (k0@.len() >= 2 * (last / 0x20_0000 - first / 0x20_0000 + 1) ==> false)
            &&& (k0@.len() >= map_rest(pt0, m0, first, last) ==> false)
        }),
    ensures
        mappages_post(pt0, m0, k0, pt, mem, kmem, va, pa, size, perm, -1i32),
{
    reveal(step_failed);
    reveal(mappages_post);
    lemma_progress_facts(pt1, m1, k1, pt0, m0, k0, pg_round_down_spec(va as int), pg_round_down_spec(va + size - 1),
        pa as int, perm, a, done);
    lemma_kept_wider(pt, mem, pt0, m0, pg_round_down_spec(va as int), a + 4096, pg_round_down_spec(va + size - 1) + 4096);
}

/// A `mappages` run that mapped its last page.
proof fn lemma_mappages_done(
    pt0: &PageTable,
    m0: &PhysMem,
    k0: &Kmem,
    pt: &PageTable,
    mem: &PhysMem,
    kmem: &Kmem,
    va: u64,
    pa: u64,
    size: u64,
    perm: u64,
    a: int,
    done: int,
)
    requires
        map_progress(pt, mem, kmem, pt0, m0, k0, pg_round_down_spec(va as int), pg_round_down_spec(va + size - 1),
            pa as int, perm, a + 4096, done + 1),
        a == pg_round_down_spec(va + size - 1),
        0 <= done,
        forall|v: int|
            #[trigger] va_indices(v).0 == va_indices(a).0 && va_indices(v).1 == va_indices(a).1
                ==> pt.tables_needed(mem, v) == 0,
        done == 0 ==> kmem@.len() + pt0.tables_needed(m0, pg_round_down_spec(va as int)) >= k0@.len(),
        va_indices(va as int) == va_indices(pg_round_down_spec(va as int)),
    ensures
        mappages_post(pt0, m0, k0, pt, mem, kmem, va, pa, size, perm, 0i32),
{
    reveal(mappages_post);
    reveal(map_progress);
    let first = pg_round_down_spec(va as int);
    let last = pg_round_down_spec(va + size - 1);
    lemma_progress_facts(pt, mem, kmem, pt0, m0, k0, first, last, pa as int, perm, a + 4096, done + 1);
    lemma_mapped_below_done(pt, mem, pt0, m0, first, last, pa as int, perm);
    lemma_va_indices_round(va as int);
    assert(pt.tables_needed(mem, a) == 0);
    assert forall|v: int| #[trigger] va_indices(v).0 == va_indices(a).0 implies pt.tables_needed(mem, v) <= 1 by {
        assert(pt.l1_present(va_indices(a).0));
    }
}

/// Maps the pages that cover `[va, va + size)` to consecutive physical
/// pages from `pa`, with permissions `perm`. Returns 0, or -1 when a table
/// was needed and the allocator had none left; the pages mapped before
/// that stay mapped. Mapping a page that is already mapped stops the
/// kernel ("remap"), as does a size of 0, so both are ruled out.
#[verifier::spinoff_prover]
#[verifier::rlimit(100)]
pub fn mappages(
    pagetable: &mut PageTable,
    mem: &mut PhysMem,
    kmem: &mut Kmem,
    va: u64,
    pa: u64,
    size: u64,
    perm: u64,
) -> (r: i32)
    requires
        old(pagetable).wf(old(mem)),
        old(pagetable).apart_from_free(old(kmem)),
        old(kmem).wf(old(mem)),
        size != 0,
        va + size - 1 <= u64::MAX,
        pg_round_down_spec(va + size - 1) <= MAXVA,
        pa + (pg_round_down_spec(va + size - 1) - pg_round_down_spec(va as int)) <= u64::MAX,
        forall|v: int|
            pg_round_down_spec(va as int) <= v <= pg_round_down_spec(va + size - 1) ==> #[trigger] old(
                pagetable,
            ).translate(old(mem), v) is None,
    ensures
        final(pagetable).root == old(pagetable).root,
        final(pagetable).wf(final(mem)),
        final(pagetable).apart_from_free(final(kmem)),
        final(kmem).wf(final(mem)),
        took_tables(old(pagetable), final(pagetable), old(kmem), final(kmem), old(kmem)@.len() - final(kmem)@.len()),
        changed_in_tables(final(pagetable), old(mem), final(mem)),
        r == 0 || r == -1,
        r == -1 ==> final(kmem)@.len() == 0,
        old(kmem)@.len() >= 2 * (pg_round_down_spec(va + size - 1) / 0x20_0000 - pg_round_down_spec(va as int) / 0x20_0000 + 1) ==> r == 0,
        pg_round_down_spec(va + size - 1) == pg_round_down_spec(va as int) ==> (r == 0 <==> old(kmem)@.len()
            >= old(pagetable).tables_needed(old(mem), va as int)),
        r == 0 ==> forall|v: int|
            #[trigger] va_indices(v).0 == va_indices(pg_round_down_spec(va + size - 1)).0 && va_indices(v).1
                == va_indices(pg_round_down_spec(va + size - 1)).1 ==> final(pagetable).tables_needed(final(mem), v) == 0,
        map_outcome(final(pagetable), final(mem), old(pagetable), old(mem), pg_round_down_spec(va as int),
            pg_round_down_spec(va + size - 1), pa as int, perm, r == -1),
        r == -1 ==> forall|v: int| 0 <= v < va_span() && pg_round_down_spec(v) == pg_round_down_spec(va + size - 1)
            ==> #[trigger] final(pagetable).translate(final(mem), v) is None,
        r == -1 ==> exists|f: int|
            pg_round_down_spec(va as int) <= f <= pg_round_down_spec(va + size - 1) && #[trigger] mapped_below(
                final(pagetable),
                final(mem),
                old(pagetable),
                old(mem),
                pg_round_down_spec(va as int),
                pg_round_down_spec(va + size - 1),
                pa as int,
                perm,
                f,
            ),
        pg_round_down_spec(va + size - 1) == pg_round_down_spec(va as int) ==> final(kmem)@.len() + old(
            pagetable,
        ).tables_needed(old(mem), va as int) >= old(kmem)@.len(),
        final(kmem)@.len() + 2 * (pg_round_down_spec(va + size - 1) / 0x20_0000 - pg_round_down_spec(va as int)
            / 0x20_0000 + 1) >= old(kmem)@.len(),
        old(kmem)@.len() >= map_rest(old(pagetable), old(mem), pg_round_down_spec(va as int), pg_round_down_spec(
            va + size - 1,
        )) ==> r == 0,
        final(kmem)@.len() + map_rest(old(pagetable), old(mem), pg_round_down_spec(va as int), pg_round_down_spec(
            va + size - 1,
        )) >= old(kmem)@.len(),
        r == 0 ==> forall|v: int|
            #[trigger] va_indices(v).0 == va_indices(pg_round_down_spec(va + size - 1)).0 ==> final(pagetable).tables_needed(final(mem), v)
                <= 1,
        kept_outside(final(pagetable), final(mem), old(pagetable), old(mem), pg_round_down_spec(va as int),
            pg_round_down_spec(va + size - 1) + 4096),
{
    let ghost pt0 = *pagetable;
    let ghost m0 = *mem;
    let ghost k0 = *kmem;
    let first = pg_round_down(va);
    let last = pg_round_down(va + size - 1);
    let mut a = first;
    let mut p = pa;
    let mut r: i32 = 0;
    let ghost mut done: int = 0;
    proof {
        lemma_progress_start(&pt0, &m0, &k0, first as int, last as int, pa as int, perm);
        lemma_va_indices_round(va as int);
    }
    loop
        invariant_except_break
            map_progress(pagetable, mem, kmem, &pt0, &m0, &k0, first as int, last as int, pa as int, perm, a as int, done),
            r == 0,
        invariant
            0 <= done,
            first == pg_round_down_spec(va as int),
            last == pg_round_down_spec(va + size - 1),
            a <= last,
            p == pa + (a - first),
            pa + (last - first) <= u64::MAX,
            va_indices(va as int) == va_indices(first as int),
            pt0 == *old(pagetable),
            m0 == *old(mem),
            k0 == *old(kmem),
        ensures
            mappages_post(&pt0, &m0, &k0, pagetable, mem, kmem, va, pa, size, perm, r),
        decreases last - a,
    {
        proof {
            lemma_progress_facts(pagetable, mem, kmem, &pt0, &m0, &k0, first as int, last as int, pa as int, perm, a as int, done);
        }
        let ghost pt1 = *pagetable;
        let ghost m1 = *mem;
        let ghost k1 = *kmem;
        let ok = map_step(pagetable, mem, kmem, a, p, perm, Ghost(pt0), Ghost(m0), Ghost(k0),
            Ghost(first as int), Ghost(last as int), Ghost(pa as int), Ghost(done));
        if !ok {
            r = -1;
            proof {
                lemma_mappages_failed(&pt0, &m0, &k0, &pt1, &m1, &k1, pagetable, mem, kmem, va, pa, size, perm, a as int, done);
            }
            break;
        }
        if a == last {
            proof {
                lemma_mappages_done(&pt0, &m0, &k0, pagetable, mem, kmem, va, pa, size, perm, a as int, done);
            }
            break;
        }
        a = a + PGSIZE;
        p = p + PGSIZE;
        proof {
            done = done + 1;
        }
    }
    proof {
        reveal(mappages_post);
    }
    r
}


/// How much the allocator must hold for `mappages(va, size)` to succeed:
/// the tables the first page lacks, and one for each further 2 MiB block
/// and 1 GiB region (`map_rest`).
pub open spec fn map_budget(pt: &PageTable, mem: &PhysMem, kmem: &Kmem, va: int, size: int) -> bool {
    kmem@.len() >= map_rest(pt, mem, pg_round_down_spec(va), pg_round_down_spec(va + size - 1))
}

/// What `mappages` needs of its arguments: a non-empty range that ends
/// below MAXVA, a physical range that does not wrap, and no page of the
/// range mapped yet.
pub open spec fn map_args_ok(pt: &PageTable, mem: &PhysMem, va: int, pa: int, size: int) -> bool {
    &&& size != 0
    &&& va + size - 1 <= u64::MAX
    &&& pg_round_down_spec(va + size - 1) <= MAXVA
    &&& pa + (pg_round_down_spec(va + size - 1) - pg_round_down_spec(va)) <= u64::MAX
    &&& forall|v: int|
        pg_round_down_spec(va) <= v <= pg_round_down_spec(va + size - 1) ==> #[trigger] pt.translate(mem, v) is None
}

/// Maps `[va, va + sz)` of the kernel page table to `[pa, pa + sz)`. The
/// kernel stops if that fails, so the allocator must hold enough for it.
pub fn kvmmap(kpgtbl: &mut PageTable, mem: &mut PhysMem, kmem: &mut Kmem, va: u64, pa: u64, sz: u64, perm: u64)
    requires
        old(kpgtbl).wf(old(mem)),
        old(kpgtbl).apart_from_free(old(kmem)),
        old(kmem).wf(old(mem)),
        map_args_ok(old(kpgtbl), old(mem), va as int, pa as int, sz as int),
        map_budget(old(kpgtbl), old(mem), old(kmem), va as int, sz as int),
    ensures
        final(kpgtbl).wf(final(mem)),
        final(kpgtbl).apart_from_free(final(kmem)),
        final(kmem).wf(final(mem)),
        final(kpgtbl).root == old(kpgtbl).root,
        took_tables(old(kpgtbl), final(kpgtbl), old(kmem), final(kmem), old(kmem)@.len() - final(kmem)@.len()),
        changed_in_tables(final(kpgtbl), old(mem), final(mem)),
        map_outcome(final(kpgtbl), final(mem), old(kpgtbl), old(mem), pg_round_down_spec(va as int),
            pg_round_down_spec(va + sz - 1), pa as int, perm, false),
        forall|v: int|
            #[trigger] va_indices(v).0 == va_indices(pg_round_down_spec(va + sz - 1)).0 && va_indices(v).1
                == va_indices(pg_round_down_spec(va + sz - 1)).1 ==> final(kpgtbl).tables_needed(final(mem), v) == 0,
        pg_round_down_spec(va + sz - 1) == pg_round_down_spec(va as int) ==> final(kmem)@.len() + old(
            kpgtbl,
        ).tables_needed(old(mem), va as int) >= old(kmem)@.len(),
        final(kmem)@.len() + 2 * (pg_round_down_spec(va + sz - 1) / 0x20_0000 - pg_round_down_spec(va as int)
            / 0x20_0000 + 1) >= old(kmem)@.len(),
        final(kmem)@.len() + map_rest(old(kpgtbl), old(mem), pg_round_down_spec(va as int), pg_round_down_spec(
            va + sz - 1,
        )) >= old(kmem)@.len(),
        forall|v: int|
            #[trigger] va_indices(v).0 == va_indices(pg_round_down_spec(va + sz - 1)).0 ==> final(kpgtbl).tables_needed(final(mem), v)
                <= 1,
{
    let r = mappages(kpgtbl, mem, kmem, va, pa, sz, perm);
    proof {
        assert(r == 0);
    }
}

/// Clears the user bit of the PTE for `va`, as for the guard page
/// below a user stack. The kernel stops when `va` has no PTE.
pub fn uvmclear(pgtbl: &mut PageTable, mem: &mut PhysMem, kmem: &mut Kmem, va: u64)
    requires
        va <= MAXVA,
        old(pgtbl).wf(old(mem)),
        old(pgtbl).apart_from_free(old(kmem)),
        old(kmem).wf(old(mem)),
        old(pgtbl).pte_addr(old(mem), va as int) is Some,
    ensures
        *final(pgtbl) == *old(pgtbl),
        *final(kmem) == *old(kmem),
        final(pgtbl).wf(final(mem)),
        final(kmem).wf(final(mem)),
        changed_in_tables(final(pgtbl), old(mem), final(mem)),
        forall|v: int| #[trigger] final(pgtbl).pte_addr(final(mem), v) == old(pgtbl).pte_addr(old(mem), v),
        forall|v: int| #[trigger] final(pgtbl).leaf(final(mem), v) == if va_indices(v) == va_indices(va as int) {
            Some(old(pgtbl).leaf(old(mem), va as int)->0 & !PTE_U)
        } else {
            old(pgtbl).leaf(old(mem), v)
        },
{
    reveal(PageTable::apart_from_free);
    reveal(Kmem::wf);
    reveal(PageTable::wf);
    reveal(PageTable::wf_tables);
    match pgtbl.walk(mem, kmem, va, false) {
        Some(a) => {
            let ghost m1 = *mem;
            let pte = mem.read_word(a);
            mem.write_word(a, pte & !PTE_U);
            proof {
                let (i, j, k) = va_indices(va as int);
                let t0 = pgtbl.l0_table(&m1, i, j);
                assert(pgtbl.owns(t0));
                assert(!kmem.is_free(t0));
                lemma_part_page_change(&m1, mem, a as int, 8, t0);
                assert forall|m: int| 0 <= m < seq![t0].len() implies #[trigger] seq![t0][m] % 4096 == 0
                    && !kmem.is_free(seq![t0][m]) by {}
                lemma_kmem_frame(kmem, &m1, mem, seq![t0]);
                lemma_set_leaf(pgtbl, &m1, mem, va as int, a, pte & !PTE_U);
            }
        },
        None => {
            proof {
                assert(false);
            }
        },
    }
}

/// A new, empty user page table on a page from the allocator. The
/// allocator must have a page: the kernel stops otherwise.
pub fn uvmcreate(mem: &mut PhysMem, kmem: &mut Kmem) -> (pt: PageTable)
    requires
        old(kmem).wf(old(mem)),
        old(kmem)@.len() > 0,
    ensures
        pt.wf(final(mem)),
        pt.apart_from_free(final(kmem)),
        final(kmem).wf(final(mem)),
        final(kmem)@ == old(kmem)@.drop_first(),
        final(kmem).end == old(kmem).end,
        pt.root == old(kmem)@[0],
        pt.tables@ == Map::<u64, int>::empty().insert(pt.root, root_code()),
        forall|i: int| 0 <= i < 512 ==> #[trigger] pt.root_pte(i) == 0,
        forall|v: int| #[trigger] pt.translate(final(mem), v) is None,
        forall|v: int| #[trigger] pt.pte_addr(final(mem), v) is None,
        changed_within(old(mem), final(mem), seq![old(kmem)@[0]]),
        forall|q: int| old(kmem)@[0] <= q < old(kmem)@[0] + PGSIZE ==> #[trigger] final(mem).byte(q) == 0,
{
    reveal(PageTable::apart_from_free);
    reveal(PageTable::wf);
    reveal(PageTable::wf_tables);
    reveal(PageTable::translate);
    reveal(Kmem::wf);
    let p = kmem.kalloc(mem);
    let ghost m1 = *mem;
    memset(mem, p, 0, PGSIZE);
    let z = PageTable::zero();
    let ghost zz = z;
    let ghost ze = z.entries@;
    let pt = PageTable { entries: z.entries, root: p, tables: Ghost(Map::empty().insert(p, root_code())) };
    proof {
        assert(pt.entries@ == ze);
        assert forall|i: int| 0 <= i < 512 implies #[trigger] pt.root_pte(i) == 0 by {
            assert(zz.root_pte(i) == 0);
            assert(pt.entries@[i] == ze[i]);
        }
        lemma_zero_invalid();
        lemma_page_change(old(mem), &m1, p);
        lemma_page_change(&m1, mem, p);
        lemma_changes_compose(old(mem), &m1, mem, seq![p], seq![p]);
        assert forall|q: int| mem.contains(q, 1) && outside_pages(seq![p], q) implies #[trigger] mem.byte(q)
            == old(mem).byte(q) by {
            assert(outside_pages(seq![p] + seq![p], q));
        }
        assert(!kmem.is_free(p)) by {
            if kmem@.contains(p) {
                let i = kmem@.index_of(p);
                assert(old(kmem)@[i + 1] == p);
            }
        }
        assert forall|m: int| 0 <= m < seq![p].len() implies #[trigger] seq![p][m] % 4096 == 0
            && !kmem.is_free(seq![p][m]) by {}
        lemma_kmem_frame(kmem, &m1, mem, seq![p]);
        assert forall|v: int| #[trigger] pt.pte_addr(mem, v) is None by {
            let (i, j, k) = va_indices(v);
            assert(pt.root_pte(i) == 0);
        }
        reveal(PageTable::wf);
        reveal(PageTable::mirrored);
        assert(p % 4096 == 0 && mem.contains(p as int, 4096));
        assert forall|i: int| 0 <= i < 512 implies #[trigger] mem.word(pt.root + 8 * i) == pt.root_pte(i) by {
            lemma_zero_word(mem, p + 8 * i);
        }
    }
    pt
}


/// `[src, src + n)` lies outside every free page and every table page of
/// `pt`.
pub open spec fn outside_tables_and_free(pt: &PageTable, kmem: &Kmem, src: int, n: int) -> bool {
    forall|q: int|
        src <= q < src + n ==> outside_pages(kmem@, q) && (forall|t: u64| #[trigger] pt.owns(t) ==> !(t <= q < t + 4096))
}

/// Loads the first user program: takes a page, clears it, maps it at
/// virtual address 0 for the user with read, write and execute, and
/// copies the `sz` bytes of the program at `src` into it. The mapping
/// is skipped, as the kernel does, when no table page is left for it.
/// The allocator must have the page itself (the kernel stops
/// otherwise), and the program must fit that page.
#[verifier::spinoff_prover]
#[verifier::rlimit(100)]
pub fn uvminit(pgtbl: &mut PageTable, mem: &mut PhysMem, kmem: &mut Kmem, src: u64, sz: u64)
    requires
        old(pgtbl).wf(old(mem)),
        old(pgtbl).apart_from_free(old(kmem)),
        old(kmem).wf(old(mem)),
        old(kmem)@.len() > 0,
        old(pgtbl).translate(old(mem), 0) is None,
        sz <= PGSIZE,
        old(mem).contains(src as int, sz as int),
        outside_tables_and_free(old(pgtbl), old(kmem), src as int, sz as int),
    ensures
        final(pgtbl).wf(final(mem)),
        final(pgtbl).apart_from_free(final(kmem)),
        final(kmem).wf(final(mem)),
        final(pgtbl).root == old(pgtbl).root,
        final(kmem)@.len() < old(kmem)@.len(),
        final(kmem)@ == old(kmem)@.skip(old(kmem)@.len() - final(kmem)@.len()),
        ({
            let m = old(kmem)@[0];
            &&& !final(pgtbl).owns(m)
            &&& forall|k: int| 0 <= k < sz ==> #[trigger] final(mem).byte(m + k) == old(mem).byte(src + k)
            &&& forall|q: int| m + sz <= q < m + PGSIZE ==> #[trigger] final(mem).byte(q) == 0
            &&& forall|v: int| 0 <= v < va_span() ==> #[trigger] final(pgtbl).translate(final(mem), v) == if pg_round_down_spec(v) == 0
                && old(kmem)@.len() > old(pgtbl).tables_needed(old(mem), 0) {
                Some(leaf_pte(m, PTE_R | PTE_W | PTE_X | PTE_U))
            } else {
                old(pgtbl).translate(old(mem), v)
            }
        }),
{
    reveal(map_outcome);
    reveal(PageTable::apart_from_free);
    reveal(Kmem::wf);
    reveal(changed_in_tables);
    let ghost pt0 = *pgtbl;
    let ghost k0 = *kmem;
    let m = kmem.kalloc(mem);
    let ghost m1 = *mem;
    memset(mem, m, 0, PGSIZE);
    let ghost m2 = *mem;
    proof {
        assert(!pt0.owns(m));
        lemma_page_change(old(mem), &m1, m);
        lemma_page_change(&m1, &m2, m);
        lemma_changes_compose(old(mem), &m1, &m2, seq![m], seq![m]);
        assert forall|q: int| m2.contains(q, 1) && outside_pages(seq![m], q) implies #[trigger] m2.byte(q)
            == old(mem).byte(q) by {
            assert(outside_pages(seq![m] + seq![m], q));
        }
        assert forall|j: int| 0 <= j < seq![m].len() implies #[trigger] seq![m][j] % 4096 == 0
            && !pt0.owns(seq![m][j]) by {}
        lemma_pt_frame(&pt0, old(mem), &m2, seq![m]);
        assert(!kmem.is_free(m)) by {
            if kmem@.contains(m) {
                let i = kmem@.index_of(m);
                assert(old(kmem)@[i + 1] == m);
            }
        }
        assert forall|j: int| 0 <= j < seq![m].len() implies #[trigger] seq![m][j] % 4096 == 0
            && !kmem.is_free(seq![m][j]) by {}
        lemma_kmem_frame(kmem, &m1, &m2, seq![m]);
        assert forall|t: u64| #[trigger] pgtbl.owns(t) implies !kmem.is_free(t) by {
            if kmem@.contains(t) {
                let i = kmem@.index_of(t);
                assert(old(kmem)@[i + 1] == t);
            }
        }
        assert(pgtbl.translate(mem, 0) is None);
        assert(map_args_ok(pgtbl, mem, 0, m as int, PGSIZE as int)) by {
            assert(pg_round_down_spec(0) == 0);
            assert(pg_round_down_spec(4095) == 0);
            assert forall|v: int| 0 <= v <= 0 implies #[trigger] pgtbl.translate(mem, v) is None by {}
        }
    }
    let ghost k1 = *kmem;
    let r = mappages(pgtbl, mem, kmem, 0, m, PGSIZE, PTE_R | PTE_W | PTE_X | PTE_U);
    let ghost m3 = *mem;
    proof {
        lemma_took_facts(&pt0, pgtbl, &k1, kmem, k1@.len() - kmem@.len());
        assert(!pgtbl.owns(m)) by {
            if pgtbl.owns(m) {
                let i = k1@.take(k1@.len() - kmem@.len()).index_of(m);
                assert(k1@[i] == m);
                assert(old(kmem)@[i + 1] == m);
            }
        }
    }
    proof {
        assert(k1@ =~= k0@.skip(1));
        assert(kmem@ =~= k0@.skip(k0@.len() - kmem@.len()));
        if sz > 0 {
            assert(outside_pages(k0@, src as int));
            assert(outside_pages(k0@, src + sz - 1));
            assert(k0@[0] == m);
        }
        assert forall|q: int| src <= q < src + sz implies #[trigger] m3.byte(q) == old(mem).byte(q) by {
            assert(outside_pages(k0@, q));
            assert(!(m <= q < m + 4096)) by {
                assert(k0@[0] == m);
            }
            assert(outside_pages(seq![m], q));
            assert(m2.byte(q) == old(mem).byte(q));
            assert forall|t: u64| #[trigger] pgtbl.owns(t) implies !(t <= q < t + 4096) by {
                if !pt0.owns(t) {
                    let i = k1@.take(k1@.len() - kmem@.len()).index_of(t);
                    assert(k1@[i] == t);
                    assert(k0@[i + 1] == t);
                }
            }
            reveal(changed_in_tables);
        }
    }
    memmove(mem, m, src, sz);
    proof {
        reveal(changed_in_tables);
        lemma_part_page_change(&m3, mem, m as int, sz as int, m);
        assert forall|j: int| 0 <= j < seq![m].len() implies #[trigger] seq![m][j] % 4096 == 0
            && !pgtbl.owns(seq![m][j]) by {}
        lemma_pt_frame(pgtbl, &m3, mem, seq![m]);
        assert forall|j: int| 0 <= j < seq![m].len() implies #[trigger] seq![m][j] % 4096 == 0
            && !kmem.is_free(seq![m][j]) by {
            assert(!kmem.is_free(m)) by {
                if kmem@.contains(m) {
                    let i = kmem@.index_of(m);
                    assert(k1@.skip(k1@.len() - kmem@.len())[i] == m);
                    assert(k0@[i + 1 + (k1@.len() - kmem@.len())] == m);
                }
            }
        }
        lemma_kmem_frame(kmem, &m3, mem, seq![m]);
        assert forall|q: int| m + sz <= q < m + PGSIZE implies #[trigger] mem.byte(q) == 0 by {
            assert(m2.byte(q) == 0);
            assert forall|t: u64| #[trigger] pgtbl.owns(t) implies !(t <= q < t + 4096) by {
                reveal(PageTable::wf);
                reveal(PageTable::wf_tables);
                assert(t % 4096 == 0);
                assert(t != m);
            }
            assert(m3.byte(q) == m2.byte(q));
        }
        assert forall|v: int| 0 <= v < va_span() implies #[trigger] pgtbl.translate(mem, v) == if pg_round_down_spec(v) == 0
            && old(kmem)@.len() > pt0.tables_needed(old(mem), 0) {
            Some(leaf_pte(m, PTE_R | PTE_W | PTE_X | PTE_U))
        } else {
            pt0.translate(old(mem), v)
        } by {
            assert(pgtbl.translate(mem, v) == pgtbl.translate(&m3, v));
            assert(pt0.translate(&m2, v) == pt0.translate(old(mem), v));
            assert(pt0.tables_needed(&m2, 0) == pt0.tables_needed(old(mem), 0));
            if pg_round_down_spec(v) == 0 {
                lemma_va_indices_round(v);
                assert(pt0.translate(old(mem), v) == pt0.translate(old(mem), 0)) by {
                    reveal(PageTable::translate);
                }
                assert(map_result(0, 0, m as int, PTE_R | PTE_W | PTE_X | PTE_U, v) == Some(leaf_pte(m, PTE_R | PTE_W | PTE_X | PTE_U)));
            } else {
                assert(map_result(0, 0, m as int, PTE_R | PTE_W | PTE_X | PTE_U, v) is None);
            }
        }
    }
}


/// Memory whose table pages of `pt` below the root are as they were
/// leaves the tree of tables, and all it maps, as it was.
proof fn lemma_tables_kept(pt: &PageTable, m1: &PhysMem, m2: &PhysMem)
    requires
        pt.wf_tables(m1),
        m2.base == m1.base,
        m2.bytes@.len() == m1.bytes@.len(),
        forall|t: u64, q: int| #![trigger pt.owns(t), m2.byte(q)] pt.owns(t) && pt.tables@[t] != root_code() && t <= q
            < t + 4096 ==> m2.byte(q) == m1.byte(q),
    ensures
        pt.wf_tables(m2),
        forall|i: int, j: int| 0 <= i < 512 && 0 <= j < 512 && pt.l1_present(i) ==> #[trigger] pt.l1_pte(m2, i, j) == pt.l1_pte(m1, i, j),
        forall|va: int| #[trigger] pt.pte_addr(m2, va) == pt.pte_addr(m1, va),
        forall|va: int| #[trigger] pt.leaf(m2, va) == pt.leaf(m1, va),
        forall|va: int| #[trigger] pt.translate(m2, va) == pt.translate(m1, va),
        forall|t: u64, w: int| pt.owns(t) && pt.tables@[t] != root_code() && 0 <= w < 512 ==> #[trigger] m2.word(t + 8 * w)
            == m1.word(t + 8 * w),
        forall|va: int| #[trigger] pt.tables_needed(m2, va) == pt.tables_needed(m1, va),
{
    reveal(took_tables);
    reveal(PageTable::translate);
    reveal(changed_in_tables);
    reveal(PageTable::apart_from_free);
    reveal(Kmem::wf);
    reveal(PageTable::wf);
    reveal(PageTable::wf_tables);
    assert forall|t: u64, w: int| pt.owns(t) && pt.tables@[t] != root_code() && 0 <= w < 512 implies #[trigger] m2.word(t + 8 * w)
        == m1.word(t + 8 * w) by {
        assert forall|q: int| t + 8 * w <= q < t + 8 * w + 8 implies #[trigger] m2.byte(q) == m1.byte(q) by {
            assert(pt.owns(t));
            assert(m2.byte(q) == m1.byte(q));
        }
        crate::memory::lemma_word_same(m2, m1, t + 8 * w);
    }
    assert forall|i: int, j: int| 0 <= i < 512 && 0 <= j < 512 && pt.l1_present(i) implies #[trigger] pt.l1_pte(m2, i, j) == pt.l1_pte(m1, i, j) by {
        assert(pt.owns(pt.l1_table(i)));
        assert(m2.word(pt.l1_table(i) + 8 * j) == m1.word(pt.l1_table(i) + 8 * j));
    }
    assert forall|va: int| #[trigger] pt.leaf(m2, va) == pt.leaf(m1, va) by {
        let (i, j, k) = va_indices(va);
        if pt.l0_present(m1, i, j) {
            assert(pt.l1_pte(m2, i, j) == pt.l1_pte(m1, i, j));
            let t = pt.l0_table(m1, i, j);
            assert(pt.owns(t));
            assert(m2.word(t + 8 * k) == m1.word(t + 8 * k));
        } else if pt.l1_present(i) {
            assert(pt.l1_pte(m2, i, j) == pt.l1_pte(m1, i, j));
        }
    }
    assert forall|va: int| #[trigger] pt.pte_addr(m2, va) == pt.pte_addr(m1, va) by {
        let (i, j, k) = va_indices(va);
        if pt.l1_present(i) {
            assert(pt.l1_pte(m2, i, j) == pt.l1_pte(m1, i, j));
        }
    }
    assert forall|va: int| #[trigger] pt.translate(m2, va) == pt.translate(m1, va) by {
        assert(pt.leaf(m2, va) == pt.leaf(m1, va));
    }
    assert forall|i: int, j: int|
        0 <= i < 512 && 0 <= j < 512 && #[trigger] pt.l0_present(m2, i, j) implies pt.owns(
        pt.l0_table(m2, i, j),
    ) && pt.tables@[pt.l0_table(m2, i, j)] == l0_code(i, j) by {
        assert(pt.l1_pte(m2, i, j) == pt.l1_pte(m1, i, j));
        assert(pt.l0_present(m1, i, j));
    }
    assert forall|va: int| #[trigger] pt.tables_needed(m2, va) == pt.tables_needed(m1, va) by {
        let (i, j, k) = va_indices(va);
        if pt.l1_present(i) {
            assert(pt.l1_pte(m2, i, j) == pt.l1_pte(m1, i, j));
        }
    }
}


/// Memory whose table pages of `pt` are as they were leaves the page
/// table, and all it maps, as it was.
pub proof fn lemma_pt_same_tables(pt: &PageTable, m1: &PhysMem, m2: &PhysMem)
    requires
        pt.wf(m1),
        m2.base == m1.base,
        m2.bytes@.len() == m1.bytes@.len(),
        forall|t: u64, q: int| #![trigger pt.owns(t), m2.byte(q)] pt.owns(t) && t <= q < t + 4096 ==> m2.byte(q) == m1.byte(q),
    ensures
        pt.wf(m2),
        forall|i: int, j: int| 0 <= i < 512 && 0 <= j < 512 && pt.l1_present(i) ==> #[trigger] pt.l1_pte(m2, i, j) == pt.l1_pte(m1, i, j),
        forall|va: int| #[trigger] pt.pte_addr(m2, va) == pt.pte_addr(m1, va),
        forall|va: int| #[trigger] pt.leaf(m2, va) == pt.leaf(m1, va),
        forall|va: int| #[trigger] pt.translate(m2, va) == pt.translate(m1, va),
        forall|t: u64, w: int| pt.owns(t) && 0 <= w < 512 ==> #[trigger] m2.word(t + 8 * w) == m1.word(t + 8 * w),
        forall|va: int| #[trigger] pt.tables_needed(m2, va) == pt.tables_needed(m1, va),
{
    reveal(PageTable::wf);
    reveal(PageTable::mirrored);
    reveal(PageTable::wf);
    reveal(PageTable::wf_tables);
    lemma_tables_kept(pt, m1, m2);
    assert forall|t: u64, w: int| pt.owns(t) && 0 <= w < 512 implies #[trigger] m2.word(t + 8 * w) == m1.word(t + 8 * w) by {
        assert forall|q: int| t + 8 * w <= q < t + 8 * w + 8 implies #[trigger] m2.byte(q) == m1.byte(q) by {
            assert(pt.owns(t));
            assert(m2.byte(q) == m1.byte(q));
        }
        crate::memory::lemma_word_same(m2, m1, t + 8 * w);
    }
    lemma_mirror_kept(pt, m1, pt, m2);
}

/// Changes to memory outside the table pages leave a page table, and all
/// it maps, as it was.
pub proof fn lemma_pt_frame(pt: &PageTable, m1: &PhysMem, m2: &PhysMem, pages: Seq<u64>)
    requires
        pt.wf(m1),
        changed_within(m1, m2, pages),
        forall|m: int| 0 <= m < pages.len() ==> #[trigger] pages[m] % 4096 == 0 && !pt.owns(pages[m]),
    ensures
        pt.wf(m2),
        forall|i: int, j: int| 0 <= i < 512 && 0 <= j < 512 && pt.l1_present(i) ==> #[trigger] pt.l1_pte(m2, i, j) == pt.l1_pte(m1, i, j),
        forall|va: int| #[trigger] pt.pte_addr(m2, va) == pt.pte_addr(m1, va),
        forall|va: int| #[trigger] pt.leaf(m2, va) == pt.leaf(m1, va),
        forall|va: int| #[trigger] pt.translate(m2, va) == pt.translate(m1, va),
        forall|t: u64, w: int| pt.owns(t) && 0 <= w < 512 ==> #[trigger] m2.word(t + 8 * w) == m1.word(t + 8 * w),
        forall|va: int| #[trigger] pt.tables_needed(m2, va) == pt.tables_needed(m1, va),
{
    reveal(PageTable::wf);
    reveal(PageTable::wf_tables);
    assert forall|t: u64, q: int| #![trigger pt.owns(t), m2.byte(q)] pt.owns(t) && t <= q < t + 4096 implies m2.byte(q) == m1.byte(q) by {
        assert(m1.contains(t as int, 4096));
        assert forall|m: int| 0 <= m < pages.len() implies !(#[trigger] pages[m] <= q < pages[m] + 4096) by {
            assert(!pt.owns(pages[m]));
            assert(pages[m] != t);
        }
    }
    lemma_pt_same_tables(pt, m1, m2);
}


/// What a mapping writes, `walkaddr` reads back: once `mappages` (or
/// `kvmmap`) has mapped the pages `[first, last]` to the physical pages
/// from `pa` with permissions that include the user bit, every address in
/// them has a valid user PTE, and `walkaddr` answers with the physical page that lies as far from `pa` as the address's page
/// from `first`.
pub proof fn law_walkaddr_after_map(
    pt: &PageTable,
    mem: &PhysMem,
    pt0: &PageTable,
    m0: &PhysMem,
    first: int,
    last: int,
    pa: u64,
    perm: u64,
    v: int,
)
    requires
        map_outcome(pt, mem, pt0, m0, first, last, pa as int, perm, false),
        pa % PGSIZE == 0,
        first % 4096 == 0,
        pa + (last - first) <= u64::MAX,
        perm < 1024,
        perm & PTE_U != 0,
        0 <= v < va_span(),
        first <= pg_round_down_spec(v) <= last,
    ensures
        pt.leaf(mem, v) matches Some(pte) && pte_valid(pte) && pte_user(pte) && pte2pa_spec(pte) == pa + (
            pg_round_down_spec(v) - first),
{
    reveal(map_outcome);
    reveal(PageTable::translate);
    let page = pg_round_down_spec(v);
    let f = (pa + (page - first)) as u64;
    assert(page % 4096 == 0) by (nonlinear_arith)
        requires
            page == v - v % 4096,
    ;
    assert(f % 4096 == 0) by (nonlinear_arith)
        requires
            f == pa + (page - first),
            pa % 4096 == 0,
            page % 4096 == 0,
            first % 4096 == 0,
    ;
    lemma_leaf_pte(f, perm);
    assert(map_result(first, last, pa as int, perm, v) == Some(leaf_pte(f, perm)));
    assert(pt.translate(mem, v) == Some(leaf_pte(f, perm)));
}

/// An address that a mapping leaves outside `[first, last]` translates as
/// it did before the mapping.
pub proof fn law_map_keeps_others(
    pt: &PageTable,
    mem: &PhysMem,
    pt0: &PageTable,
    m0: &PhysMem,
    first: int,
    last: int,
    pa: int,
    perm: u64,
    failed: bool,
    v: int,
)
    requires
        map_outcome(pt, mem, pt0, m0, first, last, pa, perm, failed),
        0 <= v < va_span(),
        !(first <= pg_round_down_spec(v) <= last),
    ensures
        pt.translate(mem, v) == pt0.translate(m0, v),
{
    reveal(map_outcome);
    assert(map_result(first, last, pa, perm, v) is None);
}


impl PageTable {
    /// The physical address that user address `va` reads through this
    /// table: the frame of its page plus the offset, when a valid PTE with
    /// the user bit maps it.
    pub open spec fn user_pa(&self, mem: &PhysMem, va: int) -> Option<int> {
        if 0 <= va <= MAXVA {
            match self.leaf(mem, va) {
                Some(pte) => if pte_valid(pte) && pte_user(pte) {
                    Some(pte2pa_spec(pte) + va % 4096)
                } else {
                    None
                },
                None => None,
            }
        } else {
            None
        }
    }

    /// How many table pages a walk that allocates would take for `va`.
    pub fn missing_tables(&self, mem: &PhysMem, va: u64) -> (r: u64)
        requires
            va <= MAXVA,
            self.wf(mem),
        ensures
            r == self.tables_needed(mem, va as int),
    {
        reveal(PageTable::wf);
        reveal(PageTable::wf_tables);
        let i = px(2, va) as usize;
        let j = px(1, va) as usize;
        if self.entries[i].data & PTE_V == 0 {
            return 2;
        }
        let t1 = pte2pa(self.entries[i].data);
        proof {
            assert(self.l1_present(i as int));
            assert(self.owns(t1));
        }
        let e1 = mem.read_word(t1 + 8 * (j as u64));
        proof {
            assert(self.l1_pte(mem, i as int, j as int) == e1);
        }
        if e1 & PTE_V == 0 {
            1
        } else {
            0
        }
    }

    /// Finds the address of the level-0 PTE for `va` without changing
    /// anything, or `None` when no table on the way exists.
    pub fn lookup(&self, mem: &PhysMem, va: u64) -> (r: Option<u64>)
        requires
            va <= MAXVA,
            self.wf(mem),
        ensures
            r == self.pte_addr(mem, va as int),
            r matches Some(a) ==> mem.contains(a as int, 8),
    {
        reveal(PageTable::wf);
        reveal(PageTable::wf_tables);
        let i = px(2, va) as usize;
        let j = px(1, va) as usize;
        let k = px(0, va);
        if self.entries[i].data & PTE_V == 0 {
            return None;
        }
        let t1 = pte2pa(self.entries[i].data);
        proof {
            assert(self.l1_present(i as int));
            assert(self.owns(t1));
        }
        let e1 = mem.read_word(t1 + 8 * (j as u64));
        if e1 & PTE_V == 0 {
            return None;
        }
        let t0 = pte2pa(e1);
        proof {
            assert(self.l1_pte(mem, i as int, j as int) == e1);
            assert(self.l0_present(mem, i as int, j as int));
            assert(self.owns(t0));
        }
        Some(t0 + 8 * k)
    }
}

} // verus!
