//! Spinlocks, and interrupt disabling that nests.
use vstd::prelude::*;
use crate::riscv::{Hart, SSTATUS_SIE, sie_enabled, intr_get, intr_on, intr_off, r_tp};
use crate::proc::CPU;

verus! {

/// A lock around `inner`. `hartid` records the hart that holds it.
pub struct Mutex<T> {
    pub locked: bool,
    /// For debugging.
    pub name: &'static str,
    pub hartid: isize,
    pub inner: T,
}

/// Witness that a lock was taken by hart `hartid`; `Mutex::unlock` gives
/// it back.
pub struct MutexGuard {
    pub hartid: isize,
}

/// The hart id as a lock records it.
pub open spec fn hart_id(hart: &Hart) -> isize {
    hart.tp as isize
}

/// `cpu` and `hart` after `push_off`: interrupts off, one level deeper,
/// and at the first level the interrupt state before it remembered.
pub open spec fn pushed(cpu0: &CPU, hart0: &Hart, cpu: &CPU, hart: &Hart) -> bool {
    &&& *hart == Hart { sstatus: (hart0.sstatus & !SSTATUS_SIE) as u64, ..*hart0 }
    &&& cpu.noff == cpu0.noff + 1
    &&& cpu.intena == if cpu0.noff == 0 { sie_enabled(hart0.sstatus) } else { cpu0.intena }
    &&& cpu.process == cpu0.process
}

/// `cpu` and `hart` after `pop_off`: one level up, and interrupts back on
/// when that was the last level and they were on before the first.
pub open spec fn popped(cpu0: &CPU, hart0: &Hart, cpu: &CPU, hart: &Hart) -> bool {
    &&& cpu.noff == cpu0.noff - 1
    &&& cpu.intena == cpu0.intena
    &&& cpu.process == cpu0.process
    &&& *hart == if cpu.noff == 0 && cpu0.intena {
        Hart { sstatus: (hart0.sstatus | SSTATUS_SIE) as u64, ..*hart0 }
    } else {
        *hart0
    }
}

/// What `pop_off` needs: interrupts off, as `push_off` left them, and a
/// level to pop; the kernel stops otherwise.
pub open spec fn can_pop(cpu: &CPU, hart: &Hart) -> bool {
    !sie_enabled(hart.sstatus) && cpu.noff >= 1
}

/// Turns interrupts off, counting how deep: it takes as many `pop_off`s
/// to undo as there were `push_off`s, and interrupts come back on only if
/// they were on before the first.
pub fn push_off(cpu: &mut CPU, hart: &mut Hart)
    requires
        old(cpu).noff < i32::MAX,
    ensures
        pushed(old(cpu), old(hart), final(cpu), final(hart)),
{
    let old = intr_get(hart);
    intr_off(hart);
    if cpu.noff == 0 {
        cpu.intena = old;
    }
    cpu.noff = cpu.noff + 1;
}

/// Undoes one `push_off`.
pub fn pop_off(cpu: &mut CPU, hart: &mut Hart)
    requires
        can_pop(old(cpu), old(hart)),
    ensures
        popped(old(cpu), old(hart), final(cpu), final(hart)),
{
    if intr_get(hart) {
        proof {
            assert(false);
        }
    }
    if cpu.noff < 1 {
        proof {
            assert(false);
        }
    }
    cpu.noff = cpu.noff - 1;
    if cpu.noff == 0 && cpu.intena {
        intr_on(hart);
    }
}

impl<T> Mutex<T> {
    /// An unlocked lock around `data`.
    pub fn new(data: T, name: &'static str) -> (m: Mutex<T>)
        ensures
            !m.locked,
            m.name == name,
            m.hartid == 0,
            m.inner == data,
    {
        Mutex { locked: false, name, hartid: 0, inner: data }
    }

    /// The lock is held by `hart`.
    pub open spec fn held_by(&self, hart: &Hart) -> bool {
        self.locked && self.hartid == hart_id(hart)
    }

    /// Is the lock held by this hart?
    pub fn holding(&self, hart: &Hart) -> (r: bool)
        ensures
            r == self.held_by(hart),
    {
        self.locked && self.hartid == r_tp(hart) as isize
    }

    /// Takes the lock, with interrupts pushed off. Taking a lock the hart
    /// holds stops the kernel; one that another hart holds is waited for,
    /// and with a single hart that wait would never end, so the lock must
    /// be free.
    pub fn acquire(&mut self, cpu: &mut CPU, hart: &mut Hart)
        requires
            !old(self).locked,
            old(cpu).noff < i32::MAX,
        ensures
            pushed(old(cpu), old(hart), final(cpu), final(hart)),
            *final(self) == (Mutex { locked: true, hartid: hart_id(old(hart)), ..*old(self) }),
    {
        push_off(cpu, hart);
        if self.holding(hart) {
            proof {
                assert(false);
            }
        }
        self.locked = true;
        self.hartid = r_tp(hart) as isize;
    }

    /// Gives the lock back and pops interrupts. The hart must hold it.
    pub fn release(&mut self, cpu: &mut CPU, hart: &mut Hart)
        requires
            old(self).held_by(old(hart)),
            can_pop(old(cpu), old(hart)),
        ensures
            popped(old(cpu), old(hart), final(cpu), final(hart)),
            *final(self) == (Mutex { locked: false, hartid: -1isize, ..*old(self) }),
    {
        if !self.holding(hart) {
            proof {
                assert(false);
            }
        }
        self.hartid = -1;
        self.locked = false;
        pop_off(cpu, hart);
    }

    /// Takes the lock and returns the witness that it is held.
    pub fn lock(&mut self, cpu: &mut CPU, hart: &mut Hart) -> (g: MutexGuard)
        requires
            !old(self).locked,
            old(cpu).noff < i32::MAX,
        ensures
            pushed(old(cpu), old(hart), final(cpu), final(hart)),
            *final(self) == (Mutex { locked: true, hartid: hart_id(old(hart)), ..*old(self) }),
            g.hartid == hart_id(old(hart)),
    {
        self.acquire(cpu, hart);
        MutexGuard { hartid: self.hartid }
    }

    /// Gives back the lock that `g` witnesses.
    pub fn unlock(&mut self, g: MutexGuard, cpu: &mut CPU, hart: &mut Hart)
        requires
            old(self).held_by(old(hart)),
            g.hartid == old(self).hartid,
            can_pop(old(cpu), old(hart)),
        ensures
            popped(old(cpu), old(hart), final(cpu), final(hart)),
            *final(self) == (Mutex { locked: false, hartid: -1isize, ..*old(self) }),
    {
        self.release(cpu, hart);
    }
}


/// The state of interrupt nesting that `push_off` and `pop_off` keep:
/// inside a `push_off` interrupts are off.
pub open spec fn nesting_ok(cpu: &CPU, hart: &Hart) -> bool {
    &&& cpu.noff >= 0
    &&& cpu.noff > 0 ==> !sie_enabled(hart.sstatus)
}

/// A `pop_off` undoes the `push_off` before it: the hart is as it was,
/// interrupts on again exactly when they were on before, and the nesting
/// depth is back where it was.
pub proof fn law_push_then_pop(c0: &CPU, h0: &Hart, c1: &CPU, h1: &Hart, c2: &CPU, h2: &Hart)
    requires
        nesting_ok(c0, h0),
        pushed(c0, h0, c1, h1),
        popped(c1, h1, c2, h2),
    ensures
        can_pop(c1, h1),
        *h2 == *h0,
        c2.noff == c0.noff,
        c2.process == c0.process,
        c0.noff > 0 ==> c2.intena == c0.intena,
        nesting_ok(c2, h2),
{
    let s = h0.sstatus;
    assert((s & !2u64) & 2u64 == 0) by (bit_vector);
    assert(s & 2u64 != 0 ==> ((s & !2u64) | 2u64) == s) by (bit_vector);
    assert(s & 2u64 == 0 ==> (s & !2u64) == s) by (bit_vector);
}

/// `push_off` keeps the nesting sound, and so does a `pop_off` that may
/// be called.
pub proof fn law_nesting_kept(c0: &CPU, h0: &Hart, c1: &CPU, h1: &Hart)
    requires
        nesting_ok(c0, h0),
    ensures
        pushed(c0, h0, c1, h1) ==> nesting_ok(c1, h1) && can_pop(c1, h1),
        can_pop(c0, h0) && popped(c0, h0, c1, h1) ==> nesting_ok(c1, h1),
{
    let s = h0.sstatus;
    assert((s & !2u64) & 2u64 == 0) by (bit_vector);
}

/// A lock taken and given back by the same hart is free again, around
/// the same data, and the hart's interrupts are as before; in between the
/// hart holds it.
pub proof fn law_acquire_then_release<T>(
    l0: &Mutex<T>,
    c0: &CPU,
    h0: &Hart,
    l1: &Mutex<T>,
    c1: &CPU,
    h1: &Hart,
    l2: &Mutex<T>,
    c2: &CPU,
    h2: &Hart,
)
    requires
        nesting_ok(c0, h0),
        !l0.locked,
        pushed(c0, h0, c1, h1),
        *l1 == (Mutex { locked: true, hartid: hart_id(h0), ..*l0 }),
        popped(c1, h1, c2, h2),
        *l2 == (Mutex { locked: false, hartid: -1isize, ..*l1 }),
    ensures
        l1.held_by(h1),
        can_pop(c1, h1),
        !l2.locked,
        l2.inner == l0.inner,
        l2.name == l0.name,
        *h2 == *h0,
        c2.noff == c0.noff,
{
    law_push_then_pop(c0, h0, c1, h1, c2, h2);
}


/// Step `x` of a run of states is a `push_off`.
pub open spec fn pushed_at(cs: Seq<CPU>, hs: Seq<Hart>, x: int) -> bool {
    pushed(&cs[x], &hs[x], &cs[x + 1], &hs[x + 1])
}

/// Step `x` of a run of states is a `pop_off`.
pub open spec fn popped_at(cs: Seq<CPU>, hs: Seq<Hart>, x: int) -> bool {
    popped(&cs[x], &hs[x], &cs[x + 1], &hs[x + 1])
}

/// Nested `push_off`s are undone by as many `pop_off`s: from states
/// `cs[0]`, `hs[0]`, `k` pushes then `k` pops bring the hart back as it was,
/// the CPU to the same nesting depth and process, and its remembered
/// interrupt state too when it was already nested. In every state in
/// between, interrupts are off and the depth is positive: only the `k`-th
/// `pop_off` can turn interrupts back on.
pub proof fn law_nested_push_pop(cs: Seq<CPU>, hs: Seq<Hart>, k: nat)
    requires
        cs.len() == 2 * k + 1,
        hs.len() == 2 * k + 1,
        nesting_ok(&cs[0], &hs[0]),
        forall|x: int| 0 <= x < k ==> #[trigger] pushed_at(cs, hs, x),
        forall|x: int| k <= x < 2 * k ==> #[trigger] popped_at(cs, hs, x),
    ensures
        hs[2 * k as int] == hs[0],
        cs[2 * k as int].noff == cs[0].noff,
        cs[2 * k as int].process == cs[0].process,
        cs[0].noff > 0 ==> cs[2 * k as int].intena == cs[0].intena,
        forall|x: int| 0 < x < 2 * k ==> !sie_enabled(#[trigger] hs[x].sstatus) && cs[x].noff > 0,
    decreases k,
{
    if k > 0 {
        assert(pushed_at(cs, hs, 0));
        law_nesting_kept(&cs[0], &hs[0], &cs[1], &hs[1]);
        let ics = cs.subrange(1, 2 * k as int);
        let ihs = hs.subrange(1, 2 * k as int);
        let j = (k - 1) as nat;
        assert forall|x: int| 0 <= x < j implies #[trigger] pushed_at(ics, ihs, x) by {
            assert(pushed_at(cs, hs, x + 1));
        }
        assert forall|x: int| j <= x < 2 * j implies #[trigger] popped_at(ics, ihs, x) by {
            assert(popped_at(cs, hs, x + 1));
        }
        law_nested_push_pop(ics, ihs, j);
        assert(ics[2 * j as int] == cs[2 * k as int - 1]);
        assert(ihs[2 * j as int] == hs[2 * k as int - 1]);
        assert(cs[2 * k as int - 1] == cs[1]);
        assert(popped_at(cs, hs, 2 * k as int - 1));
        law_push_then_pop(&cs[0], &hs[0], &cs[1], &hs[1], &cs[2 * k as int], &hs[2 * k as int]);
        assert(cs[1].noff > 0 && !sie_enabled(hs[1].sstatus));
        assert forall|x: int| 0 < x < 2 * k implies !sie_enabled(#[trigger] hs[x].sstatus) && cs[x].noff > 0 by {
            if x == 1 || x == 2 * k - 1 {
                assert(hs[x] == hs[1]);
            } else {
                assert(hs[x] == ihs[x - 1]);
                assert(cs[x] == ics[x - 1]);
                assert(0 < x - 1 < 2 * j);
                let y = x - 1;
                assert(!sie_enabled(ihs[y].sstatus));
                assert(ics[y].noff > 0);
            }
        }
    }
}

} // verus!
