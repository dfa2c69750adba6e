//! Physical page-frame allocator: a list of free 4096-byte pages threaded
//! through the first word of each free page.
use vstd::prelude::*;
use crate::memory::{PhysMem, changed_only, changed_within, lemma_word_outside, lemma_word_outside_pages};
use crate::memlayout::PHYSTOP;
use crate::riscv::{PGSIZE, pg_round_up, pg_round_up_spec};
use crate::string::memset;
use vstd::set_lib::{set_int_range, lemma_int_range, lemma_len_subset};

verus! {

/// The allocator. `freelist` is the address of the first free page, or 0
/// when none is free; each free page holds the address of the next one in
/// its first word. `end` is the first address after the kernel image.
pub struct Kmem {
    pub freelist: u64,
    pub page_count: isize,
    pub end: u64,
    /// The free pages, first to be handed out first.
    pub pages: Ghost<Seq<u64>>,
}

/// A page the allocator may hold: page aligned, after the kernel and not
/// above PHYSTOP.
pub open spec fn valid_frame(end: u64, pa: int) -> bool {
    &&& pa % PGSIZE as int == 0
    &&& end <= pa <= PHYSTOP
}

/// The link stored in free page `i` of `pages`.
pub open spec fn next_link(pages: Seq<u64>, i: int) -> u64 {
    if i + 1 < pages.len() {
        pages[i + 1]
    } else {
        0
    }
}

/// The `n` pages from `first` upward, listed from the highest down, as a
/// run of `kfree` calls from `first` upward leaves them on the list.
pub open spec fn pages_down_from(first: int, n: int) -> Seq<u64> {
    Seq::new(n as nat, |i: int| (first + (n - 1 - i) * PGSIZE) as u64)
}

/// Distinct frames are at most as many as the page numbers up to PHYSTOP.
proof fn lemma_frame_count(pages: Seq<u64>, end: u64)
    requires
        forall|i: int| 0 <= i < pages.len() ==> valid_frame(end, #[trigger] pages[i] as int),
        forall|i: int, j: int| 0 <= i < j < pages.len() ==> pages[i] != pages[j],
    ensures
        pages.len() <= PHYSTOP / PGSIZE + 1,
{
    reveal(Kmem::wf);
    let nums = pages.map(|i: int, p: u64| p as int / 4096);
    let bound = (PHYSTOP / PGSIZE + 1) as int;
    assert forall|i: int, j: int| 0 <= i < nums.len() && 0 <= j < nums.len() && i != j implies nums[i]
        != nums[j] by {
        assert(pages[i] % 4096 == 0 && pages[j] % 4096 == 0);
        if i < j {
            assert(pages[i] != pages[j]);
        } else {
            assert(pages[j] != pages[i]);
        }
    }
    assert(nums.no_duplicates());
    nums.unique_seq_to_set();
    lemma_int_range(0, bound);
    assert forall|x: int| nums.to_set().contains(x) implies set_int_range(0, bound).contains(x) by {
        let i = nums.index_of(x);
        assert(valid_frame(end, pages[i] as int));
    }
    lemma_len_subset(nums.to_set(), set_int_range(0, bound));
}

/// Changes confined to pages off the free list keep the free list intact.
pub proof fn lemma_kmem_frame(kmem: &Kmem, m1: &PhysMem, m2: &PhysMem, pages: Seq<u64>)
    requires
        kmem.wf(m1),
        changed_within(m1, m2, pages),
        forall|m: int| 0 <= m < pages.len() ==> #[trigger] pages[m] % 4096 == 0 && !kmem.is_free(pages[m]),
    ensures
        kmem.wf(m2),
{
    reveal(Kmem::wf);
    assert forall|i: int| 0 <= i < kmem@.len() implies m2.word(#[trigger] kmem@[i] as int) == next_link(kmem@, i) by {
        let t = kmem@[i];
        assert(valid_frame(kmem.end, t as int));
        assert forall|m: int| 0 <= m < pages.len() implies #[trigger] pages[m] % 4096 == 0 && pages[m] != t by {
            assert(!kmem.is_free(pages[m]));
        }
        lemma_word_outside_pages(m1, m2, pages, t, 0);
    }
}

impl Kmem {
    /// The free pages, first to be handed out first.
    pub open spec fn view(&self) -> Seq<u64> {
        self.pages@
    }

    /// The free list in memory matches the model.
#[verifier::opaque]
    pub open spec fn wf(&self, mem: &PhysMem) -> bool {
        &&& mem.wf()
        &&& 0 < self.end
        &&& self.page_count == self@.len()
        &&& self.freelist == if self@.len() == 0 { 0 } else { self@[0] }
        &&& forall|i: int| 0 <= i < self@.len() ==> valid_frame(self.end, #[trigger] self@[i] as int)
        &&& forall|i: int| 0 <= i < self@.len() ==> mem.contains(#[trigger] self@[i] as int, PGSIZE as int)
        &&& forall|i: int, j: int| 0 <= i < j < self@.len() ==> self@[i] != self@[j]
        &&& forall|i: int| 0 <= i < self@.len() ==> mem.word(#[trigger] self@[i] as int) == next_link(self@, i)
    }

    /// Is `pa` on the free list?
    pub open spec fn is_free(&self, pa: u64) -> bool {
        self@.contains(pa)
    }

    /// An empty allocator for a kernel image that ends at `end`.
    pub fn new(end: u64) -> (k: Kmem)
        requires
            0 < end,
        ensures
            k.end == end,
            k@ == Seq::<u64>::empty(),
            k.freelist == 0,
            k.page_count == 0,
    {
        Kmem { freelist: 0, page_count: 0, end, pages: Ghost(Seq::empty()) }
    }

    /// Returns page `pa` to the allocator. The page is filled with 1s to
    /// catch dangling references, then linked at the head of the list.
    pub fn kfree(&mut self, mem: &mut PhysMem, pa: u64)
        requires
            old(self).wf(old(mem)),
            valid_frame(old(self).end, pa as int),
            old(mem).contains(pa as int, PGSIZE as int),
            !old(self).is_free(pa),
        ensures
            final(self).wf(final(mem)),
            final(self).end == old(self).end,
            final(self)@ == seq![pa].add(old(self)@),
            changed_only(old(mem), final(mem), pa as int, PGSIZE as int),
            final(mem).word(pa as int) == old(self).freelist,
            forall|q: int| pa + 8 <= q < pa + PGSIZE ==> #[trigger] final(mem).byte(q) == 1u8,
    {
        reveal(Kmem::wf);
        let ghost m0 = *mem;
        proof {
            let new_pages = seq![pa].add(old(self)@);
            assert forall|i: int, j: int| 0 <= i < j < new_pages.len() implies new_pages[i]
                != new_pages[j] by {
                if i > 0 {
                    assert(new_pages[i] == old(self)@[i - 1]);
                }
                assert(new_pages[j] == old(self)@[j - 1]);
            }
            assert forall|i: int| 0 <= i < new_pages.len() implies valid_frame(
                self.end,
                #[trigger] new_pages[i] as int,
            ) by {
                if i > 0 {
                    assert(new_pages[i] == old(self)@[i - 1]);
                }
            }
            lemma_frame_count(new_pages, self.end);
        }
        memset(mem, pa, 1, PGSIZE);
        let ghost m1 = *mem;
        self.page_count = self.page_count + 1;
        mem.write_word(pa, self.freelist);
        self.freelist = pa;
        proof {
            let old_pages = old(self)@;
            let new_pages = seq![pa].add(old_pages);
            self.pages = Ghost(new_pages);
            assert forall|i: int| 0 <= i < new_pages.len() implies mem.word(
                #[trigger] new_pages[i] as int,
            ) == next_link(new_pages, i) by {
                if i > 0 {
                    let p = new_pages[i];
                    assert(p == old_pages[i - 1]);
                    assert(p != pa);
                    assert(p % 4096 == 0 && pa % 4096 == 0);
                    assert(p + 8 <= pa || pa + PGSIZE <= p);
                    lemma_word_outside(&m0, &m1, pa as int, PGSIZE as int, p as int);
                    lemma_word_outside(&m1, mem, pa as int, 8, p as int);
                }
            }
            assert forall|i: int, j: int| 0 <= i < j < new_pages.len() implies new_pages[i]
                != new_pages[j] by {
                if i > 0 {
                    assert(new_pages[i] == old_pages[i - 1]);
                }
                assert(new_pages[j] == old_pages[j - 1]);
            }
            assert forall|i: int| 0 <= i < new_pages.len() implies valid_frame(
                self.end,
                #[trigger] new_pages[i] as int,
            ) && mem.contains(new_pages[i] as int, PGSIZE as int) by {
                if i > 0 {
                    assert(new_pages[i] == old_pages[i - 1]);
                }
            }
            assert forall|q: int| pa + 8 <= q < pa + PGSIZE implies #[trigger] mem.byte(q) == 1u8 by {
                assert(m1.byte(q) == 1u8);
            }
            assert forall|q: int|
                mem.contains(q, 1) && !(pa <= q < pa + PGSIZE) implies #[trigger] mem.byte(q)
                == m0.byte(q) by {
                assert(m1.byte(q) == m0.byte(q));
            }
        }
    }

    /// Hands out the page at the head of the free list, filled with 5s to
    /// catch uses of uninitialised memory. There must be a free page: the
    /// kernel stops with "out of memory" otherwise.
    pub fn kalloc(&mut self, mem: &mut PhysMem) -> (r: u64)
        requires
            old(self).wf(old(mem)),
            old(self)@.len() > 0,
        ensures
            final(self).wf(final(mem)),
            final(self).end == old(self).end,
            r == old(self)@[0],
            final(self)@ == old(self)@.drop_first(),
            valid_frame(old(self).end, r as int),
            r != 0,
            final(mem).contains(r as int, PGSIZE as int),
            changed_only(old(mem), final(mem), r as int, PGSIZE as int),
            forall|q: int| r <= q < r + PGSIZE ==> #[trigger] final(mem).byte(q) == 5u8,
    {
        reveal(Kmem::wf);
        let r = self.freelist;
        let ghost old_pages = self@;
        assert(valid_frame(self.end, old_pages[0] as int));
        self.page_count = self.page_count - 1;
        self.freelist = mem.read_word(r);
        let ghost m0 = *mem;
        memset(mem, r, 5, PGSIZE);
        proof {
            let new_pages = old_pages.drop_first();
            self.pages = Ghost(new_pages);
            assert forall|i: int| 0 <= i < new_pages.len() implies mem.word(
                #[trigger] new_pages[i] as int,
            ) == next_link(new_pages, i) by {
                let p = new_pages[i];
                assert(p == old_pages[i + 1]);
                assert(p != r);
                assert(p + 8 <= r || r + PGSIZE <= p);
                lemma_word_outside(&m0, mem, r as int, PGSIZE as int, p as int);
            }
            assert forall|i: int, j: int| 0 <= i < j < new_pages.len() implies new_pages[i]
                != new_pages[j] by {
                assert(new_pages[i] == old_pages[i + 1]);
                assert(new_pages[j] == old_pages[j + 1]);
            }
            assert forall|i: int| 0 <= i < new_pages.len() implies valid_frame(
                self.end,
                #[trigger] new_pages[i] as int,
            ) && mem.contains(new_pages[i] as int, PGSIZE as int) by {
                assert(new_pages[i] == old_pages[i + 1]);
            }
            if new_pages.len() == 0 {
                assert(next_link(old_pages, 0) == 0);
            } else {
                assert(next_link(old_pages, 0) == new_pages[0]);
            }
        }
        r
    }

    /// Frees every whole page in `[pa_start, pa_end)`, from the lowest up.
    pub fn freerange(&mut self, mem: &mut PhysMem, pa_start: u64, pa_end: u64)
        requires
            old(self).wf(old(mem)),
            pa_start + 2 * PGSIZE <= u64::MAX,
            pa_end + PGSIZE <= u64::MAX,
            pa_end <= old(mem).top(),
            ({
                let first = pg_round_up_spec(pa_start as int);
                let n = if first + PGSIZE <= pa_end { (pa_end - first) / PGSIZE as int } else { 0 };
                n > 0 ==> {
                    &&& old(self).end <= first
                    &&& first + (n - 1) * PGSIZE <= PHYSTOP
                    &&& old(mem).contains(first, n * PGSIZE)
                    &&& forall|k: int| 0 <= k < n ==> !old(self).is_free(#[trigger] (first + k * PGSIZE) as u64)
                }
            }),
        ensures
            final(self).wf(final(mem)),
            final(self).end == old(self).end,
            ({
                let first = pg_round_up_spec(pa_start as int);
                let n = if first + PGSIZE <= pa_end { (pa_end - first) / PGSIZE as int } else { 0 };
                &&& final(self)@ == pages_down_from(first, n).add(old(self)@)
                &&& changed_only(old(mem), final(mem), first, n * PGSIZE)
            }),
    {
        reveal(Kmem::wf);
        let first = pg_round_up(pa_start);
        let ghost n: int = if first + PGSIZE <= pa_end { (pa_end - first) / PGSIZE as int } else { 0 };
        let mut p: u64 = first;
        let ghost mut k: int = 0;
        while p + PGSIZE <= pa_end
            invariant
                self.wf(mem),
                self.end == old(self).end,
                first == pg_round_up_spec(pa_start as int),
                first % PGSIZE == 0,
                p == first + k * PGSIZE,
                0 <= k,
                n == if first + PGSIZE <= pa_end { (pa_end - first) / PGSIZE as int } else { 0 },
                k <= n,
                k > 0 ==> p <= pa_end,
                pa_start + 2 * PGSIZE <= u64::MAX,
                pa_end + PGSIZE <= u64::MAX,
                pa_end <= mem.top(),
                mem.wf(),
                n > 0 ==> {
                    &&& old(self).end <= first
                    &&& first + (n - 1) * PGSIZE <= PHYSTOP
                    &&& old(mem).contains(first as int, n * PGSIZE)
                    &&& forall|j: int| 0 <= j < n ==> !old(self).is_free(#[trigger] (first + j * PGSIZE) as u64)
                },
                self@ == pages_down_from(first as int, k).add(old(self)@),
                changed_only(old(mem), mem, first as int, n * PGSIZE),
            decreases pa_end - p,
        {
            proof {
                assert(k < n) by (nonlinear_arith)
                    requires
                        p == first + k * 4096,
                        p + 4096 <= pa_end,
                        n == (pa_end - first) / 4096,
                ;
                assert forall|j: int| 0 <= j < k implies #[trigger] pages_down_from(first as int, k)[j] != p by {
                    assert(pages_down_from(first as int, k)[j] == first + (k - 1 - j) * 4096);
                }
                assert(!old(self).is_free(p));
                if self@.contains(p) {
                    let i = self@.index_of(p);
                    if i >= k {
                        assert(old(self)@[i - k] == p);
                    }
                }
                assert(mem.contains(p as int, PGSIZE as int));
            }
            let ghost m0 = *mem;
            self.kfree(mem, p);
            proof {
                assert(pages_down_from(first as int, k + 1) =~= seq![p].add(pages_down_from(first as int, k)));
                assert(seq![p].add(pages_down_from(first as int, k).add(old(self)@)) =~= seq![p].add(pages_down_from(first as int, k)).add(old(self)@));
                assert(p + PGSIZE <= first + n * PGSIZE) by (nonlinear_arith)
                    requires p == first + k * 4096, k < n;
                k = k + 1;
            }
            p = p + PGSIZE;
        }
        proof {
            if n > 0 {
                assert(k >= n) by (nonlinear_arith)
                    requires
                        p == first + k * 4096,
                        p + 4096 > pa_end,
                        n == (pa_end - first) / 4096,
                        first + 4096 <= pa_end,
                ;
            } else {
                assert(k == 0);
            }
        }
    }

    /// The pages from the end of the kernel image up to PHYSTOP.
    pub open spec fn heap_pages(end: u64) -> Seq<u64> {
        let first = pg_round_up_spec(end as int);
        pages_down_from(first, if first + PGSIZE <= PHYSTOP { (PHYSTOP - first) / PGSIZE as int } else { 0 })
    }

    /// Hands every page between the end of the kernel image and PHYSTOP to
    /// the allocator, which starts empty.
    pub fn kinit(&mut self, mem: &mut PhysMem)
        requires
            old(self).wf(old(mem)),
            old(self)@.len() == 0,
            old(self).end <= PHYSTOP,
            PHYSTOP <= old(mem).top(),
            old(mem).contains(pg_round_up_spec(old(self).end as int), PHYSTOP - pg_round_up_spec(old(self).end as int)),
        ensures
            final(self).wf(final(mem)),
            final(self).end == old(self).end,
            final(self)@ == Kmem::heap_pages(old(self).end),
            changed_only(old(mem), final(mem), pg_round_up_spec(old(self).end as int), PHYSTOP - pg_round_up_spec(
                old(self).end as int,
            )),
    {
        let end = self.end;
        proof {
            let first = pg_round_up_spec(end as int);
            let n = if first + PGSIZE <= PHYSTOP { (PHYSTOP - first) / PGSIZE as int } else { 0 };
            if n > 0 {
                assert(first + (n - 1) * PGSIZE <= PHYSTOP) by (nonlinear_arith)
                    requires n == (PHYSTOP - first) / 4096, first <= PHYSTOP;
                assert(n * PGSIZE <= PHYSTOP - first) by (nonlinear_arith)
                    requires n == (PHYSTOP - first) / 4096, first <= PHYSTOP;
            }
            assert(pages_down_from(first, n).add(self@) =~= pages_down_from(first, n));
        }
        self.freerange(mem, end, PHYSTOP);
        proof {
            let first = pg_round_up_spec(end as int);
            let n = if first + PGSIZE <= PHYSTOP { (PHYSTOP - first) / PGSIZE as int } else { 0 };
            assert(pages_down_from(first, n).add(old(self)@) =~= pages_down_from(first, n));
            if n == 0 {
                assert forall|q: int| mem.contains(q, 1) && !(first <= q < first + (PHYSTOP - first)) implies #[trigger] mem.byte(q)
                    == old(mem).byte(q) by {}
            } else {
                assert(n * PGSIZE <= PHYSTOP - first) by (nonlinear_arith)
                    requires n == (PHYSTOP - first) / 4096, first <= PHYSTOP;
            }
        }
    }

    /// Exercises the allocator right after `kinit`: two pages out, the
    /// second back and out again (the same page comes back), then both
    /// back. The allocator ends as it began, its head the page just below
    /// PHYSTOP and its count the number of pages from the end of the kernel
    /// image to PHYSTOP, which is returned.
    pub fn allocator_test(&mut self, mem: &mut PhysMem) -> (cnt: isize)
        requires
            old(self).wf(old(mem)),
            old(self)@ == Kmem::heap_pages(old(self).end),
            old(self)@.len() >= 2,
        ensures
            final(self).wf(final(mem)),
            final(self)@ == old(self)@,
            final(self).freelist == PHYSTOP - PGSIZE,
            cnt == (PHYSTOP - old(self).end) / PGSIZE as int,
            cnt == final(self).page_count,
    {
        let ghost k0 = self@;
        proof {
            lemma_free_facts(self, mem);
            lemma_heap_math(self.end as int);
        }
        let a = self.kalloc(mem);
        let b = self.kalloc(mem);
        proof {
            assert(self@ =~= k0.skip(2));
            assert(!self.is_free(b)) by {
                if self@.contains(b) {
                    let i = self@.index_of(b);
                    assert(k0[i + 2] == b);
                }
            }
        }
        self.kfree(mem, b);
        let c = self.kalloc(mem);
        proof {
            assert(c == b);
            assert(self@ =~= k0.skip(2));
            assert(!self.is_free(c)) by {
                if self@.contains(c) {
                    let i = self@.index_of(c);
                    assert(k0[i + 2] == c);
                }
            }
        }
        self.kfree(mem, c);
        proof {
            assert(self@ =~= k0.skip(1));
            assert(!self.is_free(a)) by {
                if self@.contains(a) {
                    let i = self@.index_of(a);
                    assert(k0[i + 1] == a);
                }
            }
        }
        self.kfree(mem, a);
        proof {
            assert(self@ =~= k0);
            reveal(Kmem::wf);
        }
        self.page_count
    }
}

/// The free pages are aligned, distinct pages of memory.
pub proof fn lemma_free_facts(k: &Kmem, m: &PhysMem)
    requires
        k.wf(m),
    ensures
        forall|i: int| 0 <= i < k@.len() ==> m.contains(#[trigger] k@[i] as int, 4096),
        forall|i: int| 0 <= i < k@.len() ==> #[trigger] k@[i] % 4096 == 0,
        forall|i: int| 0 <= i < k@.len() ==> valid_frame(k.end, #[trigger] k@[i] as int),
        forall|i: int, j: int| 0 <= i < j < k@.len() ==> k@[i] != k@[j],
        k.freelist == if k@.len() == 0 { 0 } else { k@[0] },
        k.page_count == k@.len(),
        m.wf(),
{
    reveal(Kmem::wf);
}

/// The pages from `end` rounded up fill the space up to PHYSTOP: as many
/// as whole pages fit between `end` and PHYSTOP, the highest just below
/// PHYSTOP.
pub proof fn lemma_heap_math(end: int)
    requires
        0 <= end <= PHYSTOP,
    ensures
        ({
            let first = pg_round_up_spec(end);
            let n = if first + PGSIZE <= PHYSTOP { (PHYSTOP - first) / PGSIZE as int } else { 0 };
            &&& first + n * PGSIZE == PHYSTOP
            &&& n == (PHYSTOP - end) / PGSIZE as int
            &&& Kmem::heap_pages(end as u64).len() == n
            &&& n > 0 ==> Kmem::heap_pages(end as u64)[0] == PHYSTOP - PGSIZE
        }),
{
    let first = pg_round_up_spec(end);
    assert(first % 4096 == 0);
    assert(end <= first < end + 4096);
    assert(PHYSTOP % 4096 == 0);
    assert(first <= PHYSTOP);
    let n = if first + PGSIZE <= PHYSTOP { (PHYSTOP - first) / PGSIZE as int } else { 0 };
    assert((PHYSTOP - first) % 4096 == 0);
    assert(first + n * 4096 == PHYSTOP) by (nonlinear_arith)
        requires
            (PHYSTOP - first) % 4096 == 0,
            n == if first + 4096 <= PHYSTOP { (PHYSTOP - first) / 4096 } else { 0 },
            first <= PHYSTOP,
            first % 4096 == 0,
            PHYSTOP % 4096 == 0,
    ;
    assert(n == (PHYSTOP - end) / 4096) by (nonlinear_arith)
        requires
            first + n * 4096 == PHYSTOP,
            end <= first < end + 4096,
            0 <= n,
    ;
}


/// A page given back with `kfree` is the next one `kalloc` hands out, and
/// the free list is then as it was before the `kfree`: the same pages, the
/// same head and the same count.
pub proof fn law_kfree_then_kalloc(k0: &Kmem, m0: &PhysMem, k1: &Kmem, k2: &Kmem, m2: &PhysMem, pa: u64, r: u64)
    requires
        k0.wf(m0),
        k2.wf(m2),
        k1@ == seq![pa].add(k0@),
        r == k1@[0],
        k2@ == k1@.drop_first(),
    ensures
        r == pa,
        k2@ == k0@,
        k2.freelist == k0.freelist,
        k2.page_count == k0.page_count,
{
    assert(k2@ =~= k0@);
    lemma_free_facts(k0, m0);
    lemma_free_facts(k2, m2);
}

/// A page that `kalloc` hands out and `kfree` gives straight back leaves
/// the free list as it was: the same pages, head and count.
pub proof fn law_kalloc_then_kfree(k0: &Kmem, m0: &PhysMem, k1: &Kmem, k2: &Kmem, m2: &PhysMem, r: u64)
    requires
        k0.wf(m0),
        k2.wf(m2),
        k0@.len() > 0,
        r == k0@[0],
        k1@ == k0@.drop_first(),
        k2@ == seq![r].add(k1@),
    ensures
        k2@ == k0@,
        k2.freelist == k0.freelist,
        k2.page_count == k0.page_count,
{
    assert(k2@ =~= k0@);
    lemma_free_facts(k0, m0);
    lemma_free_facts(k2, m2);
}

/// A page that `kalloc` hands out is no longer free, so no later `kalloc`
/// hands it out again before it is given back.
pub proof fn law_kalloc_takes_page(k0: &Kmem, m0: &PhysMem, k1: &Kmem, r: u64)
    requires
        k0.wf(m0),
        k0@.len() > 0,
        r == k0@[0],
        k1@ == k0@.drop_first(),
    ensures
        !k1.is_free(r),
        forall|t: u64| #[trigger] k1.is_free(t) ==> k0.is_free(t) && t != r,
{
    lemma_free_facts(k0, m0);
    assert forall|t: u64| #[trigger] k1.is_free(t) implies k0.is_free(t) && t != r by {
        let x = k1@.index_of(t);
        assert(k0@[x + 1] == t);
    }
}

} // verus!
