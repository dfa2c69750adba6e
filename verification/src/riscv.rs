//! RISC-V definitions: page geometry, PTE flags, CSR bits, and a model of
//! the control and status registers of one hart.
use vstd::prelude::*;

verus! {

/// Bytes per page.
pub const PGSIZE: u64 = 4096;

/// One beyond the highest virtual address: Sv39 with the top bit left
/// unused to avoid sign extension.
pub const MAXVA: u64 = 0x40_0000_0000;

/// Bits of offset within a page.
pub const PGSHIFT: u64 = 12;

/// Mask of a 9-bit page-table index.
pub const PXMASK: u64 = 0x1FF;

/// Sv39 mode in the satp register.
pub const SATP_SV39: u64 = 0x8000_0000_0000_0000;

/// PTE valid.
pub const PTE_V: u64 = 1;
/// PTE readable.
pub const PTE_R: u64 = 2;
/// PTE writable.
pub const PTE_W: u64 = 4;
/// PTE executable.
pub const PTE_X: u64 = 8;
/// PTE accessible in user mode.
pub const PTE_U: u64 = 16;

/// Previous-mode field of mstatus.
pub const MSTATUS_MPP_MASK: u64 = 0x1800;
pub const MSTATUS_MPP_M: u64 = 0x1800;
pub const MSTATUS_MPP_S: u64 = 0x800;
pub const MSTATUS_MPP_U: u64 = 0;
/// Machine-mode interrupt enable.
pub const MSTATUS_MIE: u64 = 0x8;

/// Supervisor software, timer and external interrupt enables.
pub const SSIE: u64 = 0x2;
pub const STIE: u64 = 0x20;
pub const SEIE: u64 = 0x200;

/// Machine-mode external, timer and software interrupt enables.
pub const MIE_MEIE: u64 = 0x800;
pub const MIE_MTIE: u64 = 0x80;
pub const MIE_MSIE: u64 = 0x8;

/// Previous mode, 1 = Supervisor, 0 = User.
pub const SSTATUS_SPP: u64 = 0x100;
/// Supervisor previous interrupt enable.
pub const SSTATUS_SPIE: u64 = 0x20;
/// User previous interrupt enable.
pub const SSTATUS_UPIE: u64 = 0x10;
/// Supervisor interrupt enable.
pub const SSTATUS_SIE: u64 = 0x2;
/// User interrupt enable.
pub const SSTATUS_UIE: u64 = 0x1;

/// `x` rounded down to a page boundary.
pub open spec fn pg_round_down_spec(x: int) -> int {
    x - x % (PGSIZE as int)
}

/// `x` rounded up to a page boundary.
pub open spec fn pg_round_up_spec(x: int) -> int {
    pg_round_down_spec(x + PGSIZE - 1)
}

/// Rounds `x` up to a page boundary.
pub fn pg_round_up(x: u64) -> (r: u64)
    requires
        x + PGSIZE - 1 <= u64::MAX,
    ensures
        r == pg_round_up_spec(x as int),
        r % PGSIZE == 0,
        x <= r < x + PGSIZE,
{
    let y: u64 = x + (PGSIZE - 1);
    let r: u64 = y & !(PGSIZE - 1);
    assert(y & !4095u64 == y - y % 4096) by (bit_vector);
    r
}

/// Rounds `x` down to a page boundary.
pub fn pg_round_down(x: u64) -> (r: u64)
    ensures
        r == pg_round_down_spec(x as int),
        r % PGSIZE == 0,
        r <= x < r + PGSIZE,
{
    let r: u64 = x & !(PGSIZE - 1);
    assert(x & !4095u64 == x - x % 4096) by (bit_vector);
    r
}

/// Bit position of the page-table index of `level` within a virtual address.
pub open spec fn px_shift_spec(level: int) -> int {
    PGSHIFT + 9 * level
}

/// Shift of the 9-bit index of `level` (level 2, 1, 0 -> 30, 21, 12).
pub fn px_shift(level: u64) -> (r: u64)
    requires
        level <= 2,
    ensures
        r == px_shift_spec(level as int),
{
    PGSHIFT + 9 * level
}

/// Size of the region that one entry of a table at `level` covers.
pub open spec fn level_span(level: int) -> int {
    if level == 0 {
        0x1000
    } else if level == 1 {
        0x20_0000
    } else {
        0x4000_0000
    }
}

/// The 9-bit page-table index of `va` at `level`.
pub open spec fn px_spec(level: int, va: int) -> int {
    (va / level_span(level)) % 512
}

/// Extracts the 9-bit page-table index of `va` at `level`.
pub fn px(level: u64, va: u64) -> (r: u64)
    requires
        level <= 2,
    ensures
        r == px_spec(level as int, va as int),
        r < 512,
{
    let s = px_shift(level);
    let r: u64 = (va >> s) & PXMASK;
    if level == 0 {
        assert((va >> 12u64) & 0x1ffu64 == (va / 0x1000) % 512) by (bit_vector);
    } else if level == 1 {
        assert((va >> 21u64) & 0x1ffu64 == (va / 0x20_0000) % 512) by (bit_vector);
    } else {
        assert((va >> 30u64) & 0x1ffu64 == (va / 0x4000_0000) % 512) by (bit_vector);
    }
    r
}

/// Physical address held in a PTE: bits 10.. of the PTE shifted to
/// bits 12.. (the top bits fall off, as the machine's shift does).
pub open spec fn pte2pa_spec(pte: u64) -> u64 {
    (pte >> 10u64) << 12u64
}

/// PTE bits that hold physical address `pa`.
pub open spec fn pa2pte_spec(pa: u64) -> u64 {
    (pa >> 12u64) << 10u64
}

/// Extracts the physical address from a PTE.
pub fn pte2pa(pte: u64) -> (r: u64)
    ensures
        r == pte2pa_spec(pte),
        r % PGSIZE == 0,
{
    let r: u64 = (pte >> 10) << 12;
    assert(((pte >> 10u64) << 12u64) % 4096 == 0) by (bit_vector);
    r
}

/// Shifts a physical address into the PTE layout.
pub fn pa2pte(pa: u64) -> (r: u64)
    ensures
        r == pa2pte_spec(pa),
{
    (pa >> 12) << 10
}

/// The PTE that maps page `pa` with permission bits `perm` and the valid
/// bit.
pub open spec fn leaf_pte(pa: u64, perm: u64) -> u64 {
    pa2pte_spec(pa) | perm | PTE_V
}

/// Is the valid bit of `pte` set?
pub open spec fn pte_valid(pte: u64) -> bool {
    pte & PTE_V != 0
}

/// Is the user bit of `pte` set?
pub open spec fn pte_user(pte: u64) -> bool {
    pte & PTE_U != 0
}

/// A PTE built from an aligned page and permission bits below bit 10
/// gives that page back and is valid; its user bit is that of `perm`.
pub proof fn lemma_leaf_pte(pa: u64, perm: u64)
    requires
        pa % PGSIZE == 0,
        perm < 1024,
    ensures
        pte2pa_spec(leaf_pte(pa, perm)) == pa,
        pte_valid(leaf_pte(pa, perm)),
        pte_user(leaf_pte(pa, perm)) == (perm & PTE_U != 0),
{
    assert(pa % 4096 == 0 && perm < 1024 ==> ((((pa >> 12u64) << 10u64) | perm | 1u64) >> 10u64)
        << 12u64 == pa) by (bit_vector);
    assert(((((pa >> 12u64) << 10u64) | perm | 1u64) & 1u64) != 0) by (bit_vector);
    assert(perm < 1024 ==> (((((pa >> 12u64) << 10u64) | perm | 1u64) & 16u64) != 0) == ((perm
        & 16u64) != 0)) by (bit_vector);
}

/// A PTE built for a page is valid whatever the permission bits.
pub proof fn lemma_leaf_valid(pa: u64, perm: u64)
    ensures
        pte_valid(leaf_pte(pa, perm)),
{
    assert(((((pa >> 12u64) << 10u64) | perm | 1u64) & 1u64) != 0) by (bit_vector);
}

/// The zero word is not a valid PTE.
pub proof fn lemma_zero_invalid()
    ensures
        !pte_valid(0),
{
    assert(0u64 & 1u64 == 0) by (bit_vector);
}

/// Satp value that selects Sv39 with the table at physical address `pagetable`.
pub open spec fn make_satp_spec(pagetable: u64) -> u64 {
    (SATP_SV39 | (pagetable >> 12)) as u64
}

/// Builds the satp value for the page table at `pagetable`.
pub fn make_satp(pagetable: u64) -> (r: u64)
    ensures
        r == make_satp_spec(pagetable),
        r == SATP_SV39 + pagetable / 4096,
{
    proof {
        law_satp_selects_root(pagetable);
    }
    SATP_SV39 | (pagetable >> 12)
}

/// The satp value for a table at `pa` selects Sv39 (mode 8 in the top four
/// bits) and holds the table's page number `pa / 4096` below them, every
/// bit of it; for a page-aligned table under 2^56 the 44-bit PPN field read
/// back, times 4096, is the table's address.
pub proof fn law_satp_selects_root(pa: u64)
    ensures
        make_satp_spec(pa) == 0x8000_0000_0000_0000u64 + pa / 4096,
        make_satp_spec(pa) >> 60u64 == 8,
        pa < 0x100_0000_0000_0000u64 && pa % 4096 == 0 ==> (make_satp_spec(pa) & 0xFFF_FFFF_FFFFu64) * 4096 == pa,
{
    let r: u64 = make_satp_spec(pa);
    assert(r == (0x8000_0000_0000_0000u64 | (pa >> 12u64)) as u64);
    assert(r == 0x8000_0000_0000_0000u64 + pa / 4096 && r >> 60u64 == 8 && (pa < 0x100_0000_0000_0000u64
        && pa % 4096 == 0 ==> (r & 0xFFF_FFFF_FFFFu64) * 4096 == pa)) by (bit_vector)
        requires
            r == (0x8000_0000_0000_0000u64 | (pa >> 12u64)) as u64,
    ;
}

/// Machine previous privilege mode.
#[derive(Clone, Copy, PartialEq, Eq, Debug)]
pub enum MPP {
    User,
    Supervisor,
    Machine,
}

/// The previous-mode field of mstatus that selects `mpp`.
pub open spec fn mpp_field(mpp: MPP) -> u64 {
    match mpp {
        MPP::User => MSTATUS_MPP_U,
        MPP::Supervisor => MSTATUS_MPP_S,
        MPP::Machine => MSTATUS_MPP_M,
    }
}

/// mstatus after `set_mpp(mpp)`: the previous-mode field set to `mpp`,
/// every other bit kept.
pub open spec fn set_mpp_spec(mstatus: u64, mpp: MPP) -> u64 {
    ((mstatus & !MSTATUS_MPP_MASK) | mpp_field(mpp)) as u64
}

/// The control and status registers of one hart. Registers are 64 bits
/// wide, so the model holds them, like addresses and PTEs, as `u64`.
#[derive(Clone, Copy, Debug)]
pub struct Hart {
    pub mstatus: u64,
    pub satp: u64,
    pub sip: u64,
    pub sie: u64,
    pub pmpaddr0: u64,
    pub pmpcfg0: u64,
    pub mie: u64,
    pub mepc: u64,
    pub sepc: u64,
    pub sstatus: u64,
    pub medeleg: u64,
    pub mideleg: u64,
    pub mhartid: u64,
    pub tp: u64,
    pub stvec: u64,
    pub mtvec: u64,
    pub scause: u64,
    pub stval: u64,
    pub mscratch: u64,
    /// Number of `sfence.vma` executed.
    pub tlb_flushes: u64,
}

impl Hart {
    /// A hart with every register zero.
    pub fn zero(hartid: u64) -> (h: Hart)
        ensures
            h.mhartid == hartid,
            h.mstatus == 0 && h.satp == 0 && h.sip == 0 && h.sie == 0,
            h.pmpaddr0 == 0 && h.pmpcfg0 == 0 && h.mie == 0 && h.mepc == 0,
            h.sepc == 0 && h.sstatus == 0 && h.medeleg == 0 && h.mideleg == 0,
            h.tp == 0 && h.stvec == 0 && h.mtvec == 0 && h.scause == 0,
            h.stval == 0 && h.mscratch == 0 && h.tlb_flushes == 0,
    {
        Hart {
            mstatus: 0,
            satp: 0,
            sip: 0,
            sie: 0,
            pmpaddr0: 0,
            pmpcfg0: 0,
            mie: 0,
            mepc: 0,
            sepc: 0,
            sstatus: 0,
            medeleg: 0,
            mideleg: 0,
            mhartid: hartid,
            tp: 0,
            stvec: 0,
            mtvec: 0,
            scause: 0,
            stval: 0,
            mscratch: 0,
            tlb_flushes: 0,
        }
    }
}

/// Reads the machine status register.
pub fn r_mstatus(h: &Hart) -> (x: u64)
    ensures
        x == h.mstatus,
{
    h.mstatus
}

/// Writes the machine status register.
pub fn w_mstatus(h: &mut Hart, x: u64)
    ensures
        *final(h) == (Hart { mstatus: x, ..*old(h) }),
{
    h.mstatus = x;
}

/// Reads the supervisor address translation and protection register.
pub fn r_satp(h: &Hart) -> (x: u64)
    ensures
        x == h.satp,
{
    h.satp
}

/// Writes the supervisor address translation and protection register.
pub fn w_satp(h: &mut Hart, x: u64)
    ensures
        *final(h) == (Hart { satp: x, ..*old(h) }),
{
    h.satp = x;
}

/// Reads the supervisor interrupt-pending register.
pub fn r_sip(h: &Hart) -> (x: u64)
    ensures
        x == h.sip,
{
    h.sip
}

/// Writes the supervisor interrupt-pending register.
pub fn w_sip(h: &mut Hart, x: u64)
    ensures
        *final(h) == (Hart { sip: x, ..*old(h) }),
{
    h.sip = x;
}

/// Reads the supervisor interrupt-enable register.
pub fn r_sie(h: &Hart) -> (x: u64)
    ensures
        x == h.sie,
{
    h.sie
}

/// Writes the supervisor interrupt-enable register.
pub fn w_sie(h: &mut Hart, x: u64)
    ensures
        *final(h) == (Hart { sie: x, ..*old(h) }),
{
    h.sie = x;
}

/// Writes the first physical-memory-protection address register.
pub fn w_pmpaddr0(h: &mut Hart, x: u64)
    ensures
        *final(h) == (Hart { pmpaddr0: x, ..*old(h) }),
{
    h.pmpaddr0 = x;
}

/// Writes the first physical-memory-protection configuration register.
pub fn w_pmpcfg0(h: &mut Hart, x: u64)
    ensures
        *final(h) == (Hart { pmpcfg0: x, ..*old(h) }),
{
    h.pmpcfg0 = x;
}

/// Reads the machine interrupt-enable register.
pub fn r_mie(h: &Hart) -> (x: u64)
    ensures
        x == h.mie,
{
    h.mie
}

/// Writes the machine interrupt-enable register.
pub fn w_mie(h: &mut Hart, x: u64)
    ensures
        *final(h) == (Hart { mie: x, ..*old(h) }),
{
    h.mie = x;
}

/// Writes the machine exception program counter.
pub fn w_mepc(h: &mut Hart, x: u64)
    ensures
        *final(h) == (Hart { mepc: x, ..*old(h) }),
{
    h.mepc = x;
}

/// Reads the supervisor exception program counter.
pub fn r_sepc(h: &Hart) -> (x: u64)
    ensures
        x == h.sepc,
{
    h.sepc
}

/// Writes the supervisor exception program counter.
pub fn w_sepc(h: &mut Hart, x: u64)
    ensures
        *final(h) == (Hart { sepc: x, ..*old(h) }),
{
    h.sepc = x;
}

/// Reads the supervisor status register.
pub fn r_sstatus(h: &Hart) -> (x: u64)
    ensures
        x == h.sstatus,
{
    h.sstatus
}

/// Writes the supervisor status register.
pub fn w_sstatus(h: &mut Hart, x: u64)
    ensures
        *final(h) == (Hart { sstatus: x, ..*old(h) }),
{
    h.sstatus = x;
}

/// Reads the machine exception delegation register.
pub fn r_medeleg(h: &Hart) -> (x: u64)
    ensures
        x == h.medeleg,
{
    h.medeleg
}

/// Writes the machine exception delegation register.
pub fn w_medeleg(h: &mut Hart, x: u64)
    ensures
        *final(h) == (Hart { medeleg: x, ..*old(h) }),
{
    h.medeleg = x;
}

/// Writes the machine interrupt delegation register.
pub fn w_mideleg(h: &mut Hart, x: u64)
    ensures
        *final(h) == (Hart { mideleg: x, ..*old(h) }),
{
    h.mideleg = x;
}

/// Reads the hart id register.
pub fn r_mhartid(h: &Hart) -> (x: u64)
    ensures
        x == h.mhartid,
{
    h.mhartid
}

/// Reads the thread pointer, which holds the hart id in the kernel.
pub fn r_tp(h: &Hart) -> (x: u64)
    ensures
        x == h.tp,
{
    h.tp
}

/// Writes the thread pointer, which holds the hart id in the kernel.
pub fn w_tp(h: &mut Hart, x: u64)
    ensures
        *final(h) == (Hart { tp: x, ..*old(h) }),
{
    h.tp = x;
}

/// Writes the supervisor trap vector.
pub fn w_stvec(h: &mut Hart, x: u64)
    ensures
        *final(h) == (Hart { stvec: x, ..*old(h) }),
{
    h.stvec = x;
}

/// Writes the machine trap vector.
pub fn w_mtvec(h: &mut Hart, x: u64)
    ensures
        *final(h) == (Hart { mtvec: x, ..*old(h) }),
{
    h.mtvec = x;
}

/// Reads the supervisor trap cause.
pub fn r_scause(h: &Hart) -> (x: u64)
    ensures
        x == h.scause,
{
    h.scause
}

/// Reads the supervisor trap value.
pub fn r_stval(h: &Hart) -> (x: u64)
    ensures
        x == h.stval,
{
    h.stval
}

/// Writes the machine scratch register.
pub fn w_mscratch(h: &mut Hart, x: u64)
    ensures
        *final(h) == (Hart { mscratch: x, ..*old(h) }),
{
    h.mscratch = x;
}

/// Whether supervisor interrupts are enabled in `sstatus`.
pub open spec fn sie_enabled(sstatus: u64) -> bool {
    sstatus & SSTATUS_SIE != 0
}

/// Sets the previous-mode field of mstatus to `mpp`, the mode that `mret`
/// enters.
pub fn set_mpp(h: &mut Hart, mpp: MPP)
    ensures
        *final(h) == (Hart { mstatus: set_mpp_spec(old(h).mstatus, mpp), ..*old(h) }),
{
    let field = match mpp {
        MPP::User => MSTATUS_MPP_U,
        MPP::Supervisor => MSTATUS_MPP_S,
        MPP::Machine => MSTATUS_MPP_M,
    };
    let mut x = r_mstatus(h);
    x = x & !MSTATUS_MPP_MASK;
    x = x | field;
    w_mstatus(h, x);
}

/// Enables supervisor interrupts.
pub fn intr_on(h: &mut Hart)
    ensures
        *final(h) == (Hart { sstatus: (old(h).sstatus | SSTATUS_SIE) as u64, ..*old(h) }),
        sie_enabled(final(h).sstatus),
{
    let old_v = r_sstatus(h);
    let v = old_v | SSTATUS_SIE;
    assert(v == old_v | 2u64 ==> v & 2u64 != 0) by (bit_vector);
    w_sstatus(h, v);
}

/// Disables supervisor interrupts.
pub fn intr_off(h: &mut Hart)
    ensures
        *final(h) == (Hart { sstatus: (old(h).sstatus & !SSTATUS_SIE) as u64, ..*old(h) }),
        !sie_enabled(final(h).sstatus),
{
    let old_v = r_sstatus(h);
    let v = old_v & !SSTATUS_SIE;
    assert(v == old_v & !2u64 ==> v & 2u64 == 0) by (bit_vector);
    w_sstatus(h, v);
}

/// Flushes every TLB entry (`sfence.vma zero, zero`), which the model
/// counts.
pub fn vma(h: &mut Hart)
    requires
        old(h).tlb_flushes < u64::MAX,
    ensures
        *final(h) == (Hart { tlb_flushes: (old(h).tlb_flushes + 1) as u64, ..*old(h) }),
{
    h.tlb_flushes = h.tlb_flushes + 1;
}

/// Are supervisor interrupts enabled?
pub fn intr_get(h: &Hart) -> (r: bool)
    ensures
        r == sie_enabled(h.sstatus),
{
    (r_sstatus(h) & SSTATUS_SIE) != 0
}


/// Rounding to pages: rounding down gives the page that holds `x`,
/// rounding up the first page boundary at or above `x`, and a boundary
/// rounds to itself either way.
pub proof fn law_page_rounding(x: int)
    ensures
        pg_round_down_spec(x) % 4096 == 0,
        pg_round_down_spec(x) <= x < pg_round_down_spec(x) + PGSIZE,
        pg_round_up_spec(x) % 4096 == 0,
        x <= pg_round_up_spec(x) < x + PGSIZE,
        pg_round_down_spec(pg_round_down_spec(x)) == pg_round_down_spec(x),
        pg_round_up_spec(pg_round_up_spec(x)) == pg_round_up_spec(x),
        pg_round_down_spec(pg_round_up_spec(x)) == pg_round_up_spec(x),
        pg_round_up_spec(pg_round_down_spec(x)) == pg_round_down_spec(x),
        x % 4096 == 0 ==> pg_round_down_spec(x) == x && pg_round_up_spec(x) == x,
{
    let d = pg_round_down_spec(x);
    let u = pg_round_up_spec(x);
    assert(d % 4096 == 0) by (nonlinear_arith)
        requires
            d == x - x % 4096,
    ;
    let y = x + 4095;
    assert(u % 4096 == 0) by (nonlinear_arith)
        requires
            u == y - y % 4096,
    ;
    assert((d + 4095) % 4096 == 4095) by (nonlinear_arith)
        requires
            d % 4096 == 0,
    ;
    assert((u + 4095) % 4096 == 4095) by (nonlinear_arith)
        requires
            u % 4096 == 0,
    ;
}

/// A page's physical address put into a PTE comes back out of it.
pub proof fn law_pte_roundtrip(pa: u64)
    requires
        pa % PGSIZE == 0,
    ensures
        pte2pa_spec(pa2pte_spec(pa)) == pa,
{
    assert(pa % 4096 == 0 ==> ((pa >> 12u64) << 10u64) >> 10u64 << 12u64 == pa) by (bit_vector);
}

} // verus!
