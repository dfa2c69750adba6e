//! Physical memory: a byte-addressed window `[base, base + len)` of RAM,
//! with 64-bit little-endian words as the hardware reads page-table entries.
use vstd::prelude::*;
use vstd::bytes::{spec_u64_from_le_bytes, spec_u64_to_le_bytes, u64_from_le_bytes,
    u64_to_le_bytes, lemma_auto_spec_u64_to_from_le_bytes, spec_u64_to_le_bytes_to_open};
use vstd::slice::slice_subrange;

verus! {

/// A window of physical memory starting at physical address `base`.
pub struct PhysMem {
    pub base: u64,
    pub bytes: Vec<u8>,
}

impl PhysMem {
    /// One beyond the last physical address held.
    pub open spec fn top(&self) -> int {
        self.base + self.bytes@.len()
    }

    /// The window does not wrap around the address space.
    pub open spec fn wf(&self) -> bool {
        self.top() <= u64::MAX
    }

    /// `[pa, pa + n)` lies inside the window.
    pub open spec fn contains(&self, pa: int, n: int) -> bool {
        self.base <= pa && 0 <= n && pa + n <= self.top()
    }

    /// The byte at physical address `pa`.
    pub open spec fn byte(&self, pa: int) -> u8 {
        self.bytes@[pa - self.base]
    }

    /// The little-endian 64-bit word at physical address `pa`.
    pub open spec fn word(&self, pa: int) -> u64 {
        spec_u64_from_le_bytes(self.bytes@.subrange(pa - self.base, pa - self.base + 8))
    }

    /// Every byte of `[pa, pa + n)` is the same in `self` and `other`.
    pub open spec fn same_bytes(&self, other: &PhysMem, pa: int, n: int) -> bool {
        forall|q: int| pa <= q < pa + n ==> #[trigger] self.byte(q) == other.byte(q)
    }

    /// Memory `[base, base + size)` filled with zeros.
    pub fn new(base: u64, size: usize) -> (m: PhysMem)
        requires
            base + size <= u64::MAX,
        ensures
            m.wf(),
            m.base == base,
            m.bytes@.len() == size,
            forall|q: int| m.contains(q, 1) ==> #[trigger] m.byte(q) == 0,
    {
        let mut bytes: Vec<u8> = Vec::new();
        let mut i: usize = 0;
        while i < size
            invariant
                i <= size,
                bytes@.len() == i,
                forall|k: int| 0 <= k < i ==> #[trigger] bytes@[k] == 0,
            decreases size - i,
        {
            bytes.push(0);
            i = i + 1;
        }
        PhysMem { base, bytes }
    }

    /// Offset of `pa` within the window.
    fn offset(&self, pa: u64) -> (o: usize)
        requires
            self.contains(pa as int, 0),
        ensures
            o == pa - self.base,
    {
        let len = self.bytes.len();
        assert(pa - self.base <= len);
        (pa - self.base) as usize
    }

    /// Reads the byte at `pa`.
    pub fn read_byte(&self, pa: u64) -> (b: u8)
        requires
            self.contains(pa as int, 1),
        ensures
            b == self.byte(pa as int),
    {
        let o = self.offset(pa);
        self.bytes[o]
    }

    /// Writes the byte at `pa`; every other byte stays.
    pub fn write_byte(&mut self, pa: u64, b: u8)
        requires
            old(self).contains(pa as int, 1),
        ensures
            final(self).base == old(self).base,
            final(self).bytes@ == old(self).bytes@.update(pa - old(self).base, b),
            final(self).byte(pa as int) == b,
            changed_only(old(self), final(self), pa as int, 1),
    {
        let o = self.offset(pa);
        self.bytes.set(o, b);
        assert forall|q: int|
            self.contains(q, 1) && !(pa <= q < pa + 1) implies #[trigger] self.byte(q) == old(
            self,
        ).byte(q) by {
            assert(q - self.base != o);
        }
    }

    /// Copies out the `n` bytes at `[pa, pa + n)`.
    pub fn read_bytes(&self, pa: u64, n: u64) -> (r: Vec<u8>)
        requires
            self.wf(),
            self.contains(pa as int, n as int),
        ensures
            r@.len() == n,
            forall|k: int| 0 <= k < n ==> #[trigger] r@[k] == self.byte(pa + k),
    {
        let mut r: Vec<u8> = Vec::new();
        let mut k: u64 = 0;
        while k < n
            invariant
                k <= n,
                self.wf(),
                self.contains(pa as int, n as int),
                r@.len() == k,
                forall|j: int| 0 <= j < k ==> #[trigger] r@[j] == self.byte(pa + j),
            decreases n - k,
        {
            r.push(self.read_byte(pa + k));
            k = k + 1;
        }
        r
    }

    /// Reads the 64-bit word at `pa`.
    pub fn read_word(&self, pa: u64) -> (w: u64)
        requires
            self.contains(pa as int, 8),
        ensures
            w == self.word(pa as int),
    {
        let o = self.offset(pa);
        let len = self.bytes.len();
        assert(o + 8 <= len);
        let s = slice_subrange(self.bytes.as_slice(), o, o + 8);
        u64_from_le_bytes(s)
    }

    /// Writes the 64-bit word at `pa`; bytes outside `[pa, pa + 8)` stay.
    pub fn write_word(&mut self, pa: u64, w: u64)
        requires
            old(self).contains(pa as int, 8),
        ensures
            final(self).base == old(self).base,
            final(self).bytes@.len() == old(self).bytes@.len(),
            final(self).word(pa as int) == w,
            changed_only(old(self), final(self), pa as int, 8),
    {
        let o = self.offset(pa);
        let len = self.bytes.len();
        assert(o + 8 <= len);
        let bs = u64_to_le_bytes(w);
        let mut i: usize = 0;
        while i < 8
            invariant
                i <= 8,
                bs@ == spec_u64_to_le_bytes(w),
                bs@.len() == 8,
                o + 8 <= self.bytes@.len(),
                self.bytes@.len() == len,
                self.base == old(self).base,
                self.bytes@.len() == old(self).bytes@.len(),
                forall|k: int| 0 <= k < i ==> #[trigger] self.bytes@[o + k] == bs@[k],
                forall|k: int|
                    0 <= k < self.bytes@.len() && !(o <= k < o + 8) ==> #[trigger] self.bytes@[k]
                        == old(self).bytes@[k],
            decreases 8 - i,
        {
            self.bytes.set(o + i, bs[i]);
            i = i + 1;
        }
        proof {
            lemma_auto_spec_u64_to_from_le_bytes();
            assert forall|k: int| 0 <= k < 8 implies #[trigger] self.bytes@.subrange(
                o as int,
                o + 8,
            )[k] == spec_u64_to_le_bytes(w)[k] by {
                assert(self.bytes@[o + k] == bs@[k]);
            }
            assert(self.bytes@.subrange(o as int, o + 8) =~= spec_u64_to_le_bytes(w));
        }
    }
}

/// `after` differs from `before` at most in `[pa, pa + n)`.
pub open spec fn changed_only(before: &PhysMem, after: &PhysMem, pa: int, n: int) -> bool {
    &&& after.base == before.base
    &&& after.bytes@.len() == before.bytes@.len()
    &&& forall|q: int|
        after.contains(q, 1) && !(pa <= q < pa + n) ==> #[trigger] after.byte(q) == before.byte(q)
}

/// `q` lies in none of the pages that start at the addresses in `pages`.
pub open spec fn outside_pages(pages: Seq<u64>, q: int) -> bool {
    forall|m: int| 0 <= m < pages.len() ==> !(#[trigger] pages[m] <= q < pages[m] + 4096)
}

/// `after` differs from `before` at most inside the pages listed.
pub open spec fn changed_within(before: &PhysMem, after: &PhysMem, pages: Seq<u64>) -> bool {
    &&& after.base == before.base
    &&& after.bytes@.len() == before.bytes@.len()
    &&& forall|q: int|
        after.contains(q, 1) && outside_pages(pages, q) ==> #[trigger] after.byte(q) == before.byte(q)
}

/// A change confined to part of one page is a change within that page.
pub proof fn lemma_part_page_change(m1: &PhysMem, m2: &PhysMem, a: int, n: int, p: u64)
    requires
        changed_only(m1, m2, a, n),
        p <= a,
        a + n <= p + 4096,
    ensures
        changed_within(m1, m2, seq![p]),
{
    assert forall|q: int| m2.contains(q, 1) && outside_pages(seq![p], q) implies #[trigger] m2.byte(q)
        == m1.byte(q) by {
        assert(seq![p][0] == p);
    }
}

/// A change confined to one page is a change within that page.
pub proof fn lemma_page_change(m1: &PhysMem, m2: &PhysMem, p: u64)
    requires
        changed_only(m1, m2, p as int, 4096),
    ensures
        changed_within(m1, m2, seq![p]),
{
    assert forall|q: int| m2.contains(q, 1) && outside_pages(seq![p], q) implies #[trigger] m2.byte(q)
        == m1.byte(q) by {
        assert(seq![p][0] == p);
    }
}

/// Two changes within pages make one change within all of them.
pub proof fn lemma_changes_compose(m1: &PhysMem, m2: &PhysMem, m3: &PhysMem, a: Seq<u64>, b: Seq<u64>)
    requires
        changed_within(m1, m2, a),
        changed_within(m2, m3, b),
    ensures
        changed_within(m1, m3, a + b),
{
    assert forall|q: int| m3.contains(q, 1) && outside_pages(a + b, q) implies #[trigger] m3.byte(q)
        == m1.byte(q) by {
        assert forall|m: int| 0 <= m < a.len() implies !(#[trigger] a[m] <= q < a[m] + 4096) by {
            assert((a + b)[m] == a[m]);
        }
        assert forall|m: int| 0 <= m < b.len() implies !(#[trigger] b[m] <= q < b[m] + 4096) by {
            assert((a + b)[a.len() + m] == b[m]);
        }
        assert(m2.byte(q) == m1.byte(q));
    }
}

/// A word in an aligned page that is not among the changed pages keeps its
/// value.
pub proof fn lemma_word_outside_pages(before: &PhysMem, after: &PhysMem, pages: Seq<u64>, t: u64, w: int)
    requires
        changed_within(before, after, pages),
        before.contains(t as int, 4096),
        t % 4096 == 0,
        0 <= w < 512,
        forall|m: int| 0 <= m < pages.len() ==> #[trigger] pages[m] % 4096 == 0 && pages[m] != t,
    ensures
        after.word(t + 8 * w) == before.word(t + 8 * w),
{
    assert forall|r: int| t + 8 * w <= r < t + 8 * w + 8 implies #[trigger] after.byte(r)
        == before.byte(r) by {
        assert(after.contains(r, 1));
        assert forall|m: int| 0 <= m < pages.len() implies !(#[trigger] pages[m] <= r < pages[m] + 4096) by {
            assert(pages[m] % 4096 == 0 && pages[m] != t);
        }
    }
    lemma_word_same(after, before, t + 8 * w);
}

/// A word outside the changed region keeps its value.
pub proof fn lemma_word_outside(before: &PhysMem, after: &PhysMem, pa: int, n: int, q: int)
    requires
        changed_only(before, after, pa, n),
        before.contains(q, 8),
        q + 8 <= pa || pa + n <= q,
    ensures
        after.word(q) == before.word(q),
{
    assert forall|r: int| q <= r < q + 8 implies #[trigger] after.byte(r) == before.byte(r) by {
        assert(after.contains(r, 1));
    }
    lemma_word_same(after, before, q);
}

/// Every word outside the changed region keeps its value.
pub proof fn lemma_words_outside(before: &PhysMem, after: &PhysMem, pa: int, n: int)
    requires
        changed_only(before, after, pa, n),
    ensures
        forall|q: int| before.contains(q, 8) && (q + 8 <= pa || pa + n <= q) ==> #[trigger] after.word(q)
            == before.word(q),
{
    assert forall|q: int| before.contains(q, 8) && (q + 8 <= pa || pa + n <= q) implies #[trigger] after.word(q)
        == before.word(q) by {
        lemma_word_outside(before, after, pa, n, q);
    }
}

/// A word of eight zero bytes is zero.
pub proof fn lemma_zero_word(m: &PhysMem, pa: int)
    requires
        m.contains(pa, 8),
        forall|q: int| pa <= q < pa + 8 ==> #[trigger] m.byte(q) == 0,
    ensures
        m.word(pa) == 0,
{
    lemma_auto_spec_u64_to_from_le_bytes();
    spec_u64_to_le_bytes_to_open(0);
    assert((0u64 & 0xff) as u8 == 0 && ((0u64 >> 8u64) & 0xff) as u8 == 0 && ((0u64 >> 16u64)
        & 0xff) as u8 == 0 && ((0u64 >> 24u64) & 0xff) as u8 == 0 && ((0u64 >> 32u64) & 0xff) as u8
        == 0 && ((0u64 >> 40u64) & 0xff) as u8 == 0 && ((0u64 >> 48u64) & 0xff) as u8 == 0 && ((0u64
        >> 56u64) & 0xff) as u8 == 0) by (bit_vector);
    let o = pa - m.base;
    assert forall|k: int| 0 <= k < 8 implies #[trigger] m.bytes@.subrange(o, o + 8)[k]
        == spec_u64_to_le_bytes(0)[k] by {
        assert(m.byte(pa + k) == 0);
    }
    assert(m.bytes@.subrange(o, o + 8) =~= spec_u64_to_le_bytes(0));
}

/// Words whose bytes agree are equal.
pub proof fn lemma_word_same(m1: &PhysMem, m2: &PhysMem, pa: int)
    requires
        m1.base == m2.base,
        m1.contains(pa, 8),
        m2.contains(pa, 8),
        m1.same_bytes(m2, pa, 8),
    ensures
        m1.word(pa) == m2.word(pa),
{
    let o = pa - m1.base;
    assert forall|k: int| 0 <= k < 8 implies #[trigger] m1.bytes@.subrange(o, o + 8)[k]
        == m2.bytes@.subrange(o, o + 8)[k] by {
        assert(m1.byte(pa + k) == m2.byte(pa + k));
    }
    assert(m1.bytes@.subrange(o, o + 8) =~= m2.bytes@.subrange(o, o + 8));
}


/// The bytes at `pa` are those of the word there, little end first.
pub proof fn lemma_word_bytes(m: &PhysMem, pa: int)
    requires
        m.contains(pa, 8),
    ensures
        forall|i: int| 0 <= i < 8 ==> #[trigger] m.byte(pa + i) == spec_u64_to_le_bytes(m.word(pa))[i],
{
    let o = pa - m.base;
    let s = m.bytes@.subrange(o, o + 8);
    lemma_auto_spec_u64_to_from_le_bytes();
    assert(spec_u64_to_le_bytes(spec_u64_from_le_bytes(s)) == s);
    assert forall|i: int| 0 <= i < 8 implies #[trigger] m.byte(pa + i) == spec_u64_to_le_bytes(m.word(pa))[i] by {
        assert(s[i] == m.bytes@[o + i]);
    }
}

} // verus!
