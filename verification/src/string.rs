//! Byte-level memory operations on physical memory.
use vstd::prelude::*;
use crate::memory::{PhysMem, changed_only};

verus! {

/// Fills each byte of `[dst, dst + n)` with `c`.
pub fn memset(mem: &mut PhysMem, dst: u64, c: u8, n: u64)
    requires
        old(mem).wf(),
        old(mem).contains(dst as int, n as int),
    ensures
        changed_only(old(mem), final(mem), dst as int, n as int),
        forall|q: int| dst <= q < dst + n ==> #[trigger] final(mem).byte(q) == c,
{
    let mut i: u64 = 0;
    while i < n
        invariant
            i <= n,
            mem.wf(),
            mem.contains(dst as int, n as int),
            changed_only(old(mem), mem, dst as int, n as int),
            forall|q: int| dst <= q < dst + i ==> #[trigger] mem.byte(q) == c,
        decreases n - i,
    {
        mem.write_byte(dst + i, c);
        i = i + 1;
    }
}

/// Copies `n` bytes from `src` to `dst` and returns `dst`. The two regions must not overlap, as the slices that carry the
/// copy may not alias.
pub fn memmove(mem: &mut PhysMem, dst: u64, src: u64, n: u64) -> (r: u64)
    requires
        old(mem).wf(),
        old(mem).contains(dst as int, n as int),
        old(mem).contains(src as int, n as int),
        dst + n <= src || src + n <= dst,
    ensures
        r == dst,
        changed_only(old(mem), final(mem), dst as int, n as int),
        forall|k: int| 0 <= k < n ==> #[trigger] final(mem).byte(dst + k) == old(mem).byte(src + k),
{
    if n == 0 {
        return dst;
    }
    let mut i: u64 = 0;
    while i < n
        invariant
            i <= n,
            mem.wf(),
            mem.contains(dst as int, n as int),
            mem.contains(src as int, n as int),
            dst + n <= src || src + n <= dst,
            changed_only(old(mem), mem, dst as int, n as int),
            forall|k: int| 0 <= k < i ==> #[trigger] mem.byte(dst + k) == old(mem).byte(src + k),
        decreases n - i,
    {
        let b = mem.read_byte(src + i);
        assert(b == old(mem).byte(src + i));
        mem.write_byte(dst + i, b);
        i = i + 1;
    }
    dst
}

} // verus!
