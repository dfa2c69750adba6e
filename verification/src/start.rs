//! Machine-mode start-up of a hart, before it drops to supervisor mode.
use vstd::prelude::*;
use crate::riscv::{Hart, MPP, set_mpp, set_mpp_spec, SSIE, STIE, SEIE, MSTATUS_MIE, MIE_MTIE, w_mepc, w_satp, w_medeleg,
    w_mideleg, r_sie, w_sie, w_pmpaddr0, w_pmpcfg0, r_mhartid, w_tp, w_mscratch, w_mtvec, r_mstatus, w_mstatus, r_mie,
    w_mie};
use crate::param::NCPU;
use crate::memlayout::CLINT;

verus! {

/// Sets up the hart for `main` (at address `main`) in supervisor mode:
/// `mret` goes to supervisor mode at `main`, paging is off, every
/// exception and interrupt is delegated to supervisor mode with its
/// interrupts enabled, physical memory protection lets supervisor mode
/// reach all memory, and `tp` holds the hart id. The `mret` itself is left
/// to the caller.
pub fn start(hart: &mut Hart, main: u64)
    ensures
        *final(hart) == (Hart {
            mstatus: set_mpp_spec(old(hart).mstatus, MPP::Supervisor),
            mepc: main,
            satp: 0,
            medeleg: 0xffff,
            mideleg: 0xffff,
            sie: (old(hart).sie | SSIE | STIE | SEIE) as u64,
            pmpaddr0: 0x3f_ffff_ffff_ffff,
            pmpcfg0: 0xf,
            tp: old(hart).mhartid,
            ..*old(hart)
        }),
{
    set_mpp(hart, MPP::Supervisor);
    w_mepc(hart, main);
    w_satp(hart, 0);
    w_medeleg(hart, 0xffff);
    w_mideleg(hart, 0xffff);
    let sie = r_sie(hart);
    w_sie(hart, sie | SSIE | STIE | SEIE);
    w_pmpaddr0(hart, 0x3f_ffff_ffff_ffff);
    w_pmpcfg0(hart, 0xf);
    let id = r_mhartid(hart);
    w_tp(hart, id);
}

/// Cycles between timer interrupts: about a tenth of a second in qemu.
pub const TIMER_INTERVAL: u64 = 1000000;

/// Address of the CLINT compare register of hart `id`.
pub open spec fn clint_timer_compare(id: int) -> int {
    CLINT + 0x4000 + 8 * id
}

/// A store to a device register: `value` to address `addr`.
#[derive(Clone, Copy, Debug, PartialEq, Eq, Structural)]
pub struct MmioWrite {
    pub addr: u64,
    pub value: u64,
}

/// Asks for timer interrupts on this hart, given the current time `mtime`
/// read from the CLINT: the compare register is to be set one interval
/// ahead (the returned store, for the caller to make), the hart's scratch
/// area records the register's address and the interval, mscratch points
/// at that area (the rows of five words lie at `scratch_addr` onward), and
/// machine-mode timer interrupts go to `timervec`.
pub fn timerinit(hart: &mut Hart, scratch: &mut Vec<[u64; 5]>, scratch_addr: u64, mtime: u64, timervec: u64) -> (w: MmioWrite)
    requires
        old(hart).mhartid < NCPU,
        old(hart).mhartid < old(scratch)@.len(),
        scratch_addr + 40 * old(hart).mhartid <= u64::MAX,
        mtime + TIMER_INTERVAL <= u64::MAX,
    ensures
        ({
            let id = old(hart).mhartid as int;
            let row = old(scratch)@[id];
            &&& w == (MmioWrite { addr: clint_timer_compare(id) as u64, value: (mtime + TIMER_INTERVAL) as u64 })
            &&& final(scratch)@.len() == old(scratch)@.len()
            &&& forall|j: int| 0 <= j < old(scratch)@.len() && j != id ==> #[trigger] final(scratch)@[j] == old(scratch)@[j]
            &&& final(scratch)@[id]@ == row@.update(3, clint_timer_compare(id) as u64).update(4, TIMER_INTERVAL)
            &&& *final(hart) == (Hart {
                mscratch: (scratch_addr + 40 * id) as u64,
                mtvec: timervec,
                mstatus: (old(hart).mstatus | MSTATUS_MIE) as u64,
                mie: (old(hart).mie | MIE_MTIE) as u64,
                ..*old(hart)
            })
        }),
{
    let id = r_mhartid(hart);
    let interval = TIMER_INTERVAL;
    let reg = CLINT + 0x4000 + 8 * id;
    let value = mtime + interval;
    let mut row = scratch[id as usize];
    row[3] = reg;
    row[4] = interval;
    scratch.set(id as usize, row);
    w_mscratch(hart, scratch_addr + 40 * id);
    w_mtvec(hart, timervec);
    let mstatus = r_mstatus(hart);
    w_mstatus(hart, mstatus | MSTATUS_MIE);
    let mie = r_mie(hart);
    w_mie(hart, mie | MIE_MTIE);
    MmioWrite { addr: reg, value }
}

} // verus!
