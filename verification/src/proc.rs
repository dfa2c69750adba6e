//! Processes: the registers saved for them, their slots in the process
//! pool, the stacks of the batch of applications, and per-hart state.
use vstd::prelude::*;
use crate::memory::{PhysMem, changed_only, lemma_words_outside};
use crate::param::{NPROC, NCPU, APP_BASE_ADDRESS, APP_SIZE_LIMIT, USER_STACK_SIZE, KERNEL_STACK_SIZE};
use crate::riscv::{Hart, PGSIZE, r_tp};
use crate::vm::PageTable;
use crate::kalloc::Kmem;

verus! {

/// The callee-saved registers that a context switch saves and restores.
#[derive(Clone, Copy, Debug)]
pub struct Context {
    pub ra: u64,
    pub sp: u64,
    pub s0: u64,
    pub s1: u64,
    pub s2: u64,
    pub s3: u64,
    pub s4: u64,
    pub s5: u64,
    pub s6: u64,
    pub s7: u64,
    pub s8: u64,
    pub s9: u64,
    pub s10: u64,
    pub s11: u64,
}

/// The context with every register zero.
pub open spec fn context_zero() -> Context {
    Context { ra: 0, sp: 0, s0: 0, s1: 0, s2: 0, s3: 0, s4: 0, s5: 0, s6: 0, s7: 0, s8: 0, s9: 0, s10: 0, s11: 0 }
}

impl Context {
    /// A context with every register zero.
    pub fn zero_init() -> (c: Context)
        ensures
            c == context_zero(),
    {
        Context { ra: 0, sp: 0, s0: 0, s1: 0, s2: 0, s3: 0, s4: 0, s5: 0, s6: 0, s7: 0, s8: 0, s9: 0, s10: 0, s11: 0 }
    }

    /// A context that, once switched to, runs `usertrapret` (at address
    /// `usertrapret`) on the kernel stack whose top is `kstack_ptr`.
    pub fn goto_usertrapret(kstack_ptr: u64, usertrapret: u64) -> (c: Context)
        ensures
            c == (Context { ra: usertrapret, sp: kstack_ptr, ..context_zero() }),
    {
        let mut ctx = Self::zero_init();
        ctx.ra = usertrapret;
        ctx.sp = kstack_ptr;
        ctx
    }
}

/// Per-process data for the trap handling code, saved in its own page: the
/// kernel state that `uservec` needs, then all user registers. Field `k`
/// lies at byte offset `8 * k`.
#[derive(Clone, Copy, Debug)]
pub struct TrapFrame {
    /// kernel page table
    pub kernel_satp: u64,
    /// top of the process's kernel stack
    pub kernel_sp: u64,
    /// address of `usertrap`
    pub kernel_trap: u64,
    /// saved user program counter
    pub epc: u64,
    /// saved kernel tp
    pub kernel_hartid: u64,
    pub ra: u64,
    pub sp: u64,
    pub gp: u64,
    pub tp: u64,
    pub t0: u64,
    pub t1: u64,
    pub t2: u64,
    pub s0: u64,
    pub s1: u64,
    pub a0: u64,
    pub a1: u64,
    pub a2: u64,
    pub a3: u64,
    pub a4: u64,
    pub a5: u64,
    pub a6: u64,
    pub a7: u64,
    pub s2: u64,
    pub s3: u64,
    pub s4: u64,
    pub s5: u64,
    pub s6: u64,
    pub s7: u64,
    pub s8: u64,
    pub s9: u64,
    pub s10: u64,
    pub s11: u64,
    pub t3: u64,
    pub t4: u64,
    pub t5: u64,
    pub t6: u64,
}

/// Size of a trap frame in bytes.
pub const TRAPFRAME_SIZE: u64 = 288;

/// Byte offset of `kernel_satp`.
pub const TF_KERNEL_SATP: u64 = 0;
/// Byte offset of `kernel_sp`.
pub const TF_KERNEL_SP: u64 = 8;
/// Byte offset of `kernel_trap`.
pub const TF_KERNEL_TRAP: u64 = 16;
/// Byte offset of `epc`.
pub const TF_EPC: u64 = 24;
/// Byte offset of `kernel_hartid`.
pub const TF_KERNEL_HARTID: u64 = 32;
/// Byte offset of `sp`.
pub const TF_SP: u64 = 48;
/// Byte offset of `a0`, the first argument and the return value.
pub const TF_A0: u64 = 112;
/// Byte offset of `a7`, the system-call number.
pub const TF_A7: u64 = 168;

/// The trap frame with every register zero.
pub open spec fn trapframe_zero() -> TrapFrame {
    TrapFrame { kernel_satp: 0, kernel_sp: 0, kernel_trap: 0, epc: 0, kernel_hartid: 0, ra: 0, sp: 0, gp: 0, tp: 0, t0: 0, t1: 0, t2: 0, s0: 0, s1: 0, a0: 0, a1: 0, a2: 0, a3: 0, a4: 0, a5: 0, a6: 0, a7: 0, s2: 0, s3: 0, s4: 0, s5: 0, s6: 0, s7: 0, s8: 0, s9: 0, s10: 0, s11: 0, t3: 0, t4: 0, t5: 0, t6: 0 }
}

/// The trap frame whose fields are the words `ws`, in layout order.
pub open spec fn trapframe_from(ws: Seq<u64>) -> TrapFrame {
    TrapFrame { kernel_satp: ws[0], kernel_sp: ws[1], kernel_trap: ws[2], epc: ws[3], kernel_hartid: ws[4], ra: ws[5], sp: ws[6], gp: ws[7], tp: ws[8], t0: ws[9], t1: ws[10], t2: ws[11], s0: ws[12], s1: ws[13], a0: ws[14], a1: ws[15], a2: ws[16], a3: ws[17], a4: ws[18], a5: ws[19], a6: ws[20], a7: ws[21], s2: ws[22], s3: ws[23], s4: ws[24], s5: ws[25], s6: ws[26], s7: ws[27], s8: ws[28], s9: ws[29], s10: ws[30], s11: ws[31], t3: ws[32], t4: ws[33], t5: ws[34], t6: ws[35] }
}

/// The 36 words of a trap frame held in memory at `a`.
pub open spec fn tf_words(mem: &PhysMem, a: int) -> Seq<u64> {
    Seq::new(36, |k: int| mem.word(a + 8 * k))
}

/// The trap frame held in memory at `a`.
pub open spec fn trapframe_at(mem: &PhysMem, a: int) -> TrapFrame {
    trapframe_from(tf_words(mem, a))
}

impl TrapFrame {
    /// The fields in layout order.
    pub open spec fn words(self) -> Seq<u64> {
        seq![self.kernel_satp, self.kernel_sp, self.kernel_trap, self.epc, self.kernel_hartid, self.ra, self.sp, self.gp, self.tp, self.t0, self.t1, self.t2, self.s0, self.s1, self.a0, self.a1, self.a2, self.a3, self.a4, self.a5, self.a6, self.a7, self.s2, self.s3, self.s4, self.s5, self.s6, self.s7, self.s8, self.s9, self.s10, self.s11, self.t3, self.t4, self.t5, self.t6]
    }

    /// A trap frame with every register zero.
    pub fn zero_init() -> (tf: TrapFrame)
        ensures
            tf == trapframe_zero(),
    {
        TrapFrame { kernel_satp: 0, kernel_sp: 0, kernel_trap: 0, epc: 0, kernel_hartid: 0, ra: 0, sp: 0, gp: 0, tp: 0, t0: 0, t1: 0, t2: 0, s0: 0, s1: 0, a0: 0, a1: 0, a2: 0, a3: 0, a4: 0, a5: 0, a6: 0, a7: 0, s2: 0, s3: 0, s4: 0, s5: 0, s6: 0, s7: 0, s8: 0, s9: 0, s10: 0, s11: 0, t3: 0, t4: 0, t5: 0, t6: 0 }
    }

    /// Sets the user stack pointer.
    pub fn set_sp(&mut self, sp: u64)
        ensures
            *final(self) == (TrapFrame { sp, ..*old(self) }),
    {
        self.sp = sp;
    }

    /// The trap frame an application starts from: entry point `entry`,
    /// user stack pointer `sp`, every other register zero.
    pub fn app_init_context(entry: u64, sp: u64) -> (tf: TrapFrame)
        ensures
            tf == (TrapFrame { epc: entry, sp, ..trapframe_zero() }),
    {
        let mut tf = Self::zero_init();
        tf.epc = entry;
        tf.set_sp(sp);
        tf
    }

    /// The fields in layout order.
    fn to_words(&self) -> (ws: Vec<u64>)
        ensures
            ws@ == self.words(),
    {
        vec![self.kernel_satp, self.kernel_sp, self.kernel_trap, self.epc, self.kernel_hartid, self.ra, self.sp, self.gp, self.tp, self.t0, self.t1, self.t2, self.s0, self.s1, self.a0, self.a1, self.a2, self.a3, self.a4, self.a5, self.a6, self.a7, self.s2, self.s3, self.s4, self.s5, self.s6, self.s7, self.s8, self.s9, self.s10, self.s11, self.t3, self.t4, self.t5, self.t6]
    }

    /// Reads the trap frame held in memory at `a`.
    pub fn load(mem: &PhysMem, a: u64) -> (tf: TrapFrame)
        requires
            mem.wf(),
            mem.contains(a as int, TRAPFRAME_SIZE as int),
        ensures
            tf == trapframe_at(mem, a as int),
    {
        let mut ws: Vec<u64> = Vec::new();
        let mut k: u64 = 0;
        while k < 36
            invariant
                k <= 36,
                mem.wf(),
                mem.contains(a as int, TRAPFRAME_SIZE as int),
                ws@.len() == k,
                forall|j: int| 0 <= j < k ==> #[trigger] ws@[j] == mem.word(a + 8 * j),
            decreases 36 - k,
        {
            ws.push(mem.read_word(a + 8 * k));
            k = k + 1;
        }
        proof {
            assert(ws@ =~= tf_words(mem, a as int));
        }
        TrapFrame { kernel_satp: ws[0], kernel_sp: ws[1], kernel_trap: ws[2], epc: ws[3], kernel_hartid: ws[4], ra: ws[5], sp: ws[6], gp: ws[7], tp: ws[8], t0: ws[9], t1: ws[10], t2: ws[11], s0: ws[12], s1: ws[13], a0: ws[14], a1: ws[15], a2: ws[16], a3: ws[17], a4: ws[18], a5: ws[19], a6: ws[20], a7: ws[21], s2: ws[22], s3: ws[23], s4: ws[24], s5: ws[25], s6: ws[26], s7: ws[27], s8: ws[28], s9: ws[29], s10: ws[30], s11: ws[31], t3: ws[32], t4: ws[33], t5: ws[34], t6: ws[35] }
    }

    /// Writes this trap frame to memory at `a`.
    pub fn store(&self, mem: &mut PhysMem, a: u64)
        requires
            old(mem).wf(),
            old(mem).contains(a as int, TRAPFRAME_SIZE as int),
        ensures
            trapframe_at(final(mem), a as int) == *self,
            changed_only(old(mem), final(mem), a as int, TRAPFRAME_SIZE as int),
    {
        let ws = self.to_words();
        let mut k: u64 = 0;
        while k < 36
            invariant
                k <= 36,
                ws@ == self.words(),
                mem.wf(),
                mem.contains(a as int, TRAPFRAME_SIZE as int),
                changed_only(old(mem), mem, a as int, TRAPFRAME_SIZE as int),
                forall|j: int| 0 <= j < k ==> #[trigger] mem.word(a + 8 * j) == ws@[j],
            decreases 36 - k,
        {
            let ghost m1 = *mem;
            mem.write_word(a + 8 * k, ws[k as usize]);
            proof {
                lemma_words_outside(&m1, mem, a + 8 * k, 8);
                assert forall|j: int| 0 <= j < k + 1 implies #[trigger] mem.word(a + 8 * j) == ws@[j] by {
                    if j < k {
                        assert(m1.word(a + 8 * j) == ws@[j]);
                    }
                }
            }
            k = k + 1;
        }
        proof {
            assert(tf_words(mem, a as int) =~= self.words());
        }
    }
}

/// A trap frame over zeroed memory is all zero.
pub proof fn lemma_zero_trapframe(mem: &PhysMem, a: int)
    requires
        mem.contains(a, TRAPFRAME_SIZE as int),
        forall|q: int| a <= q < a + TRAPFRAME_SIZE ==> #[trigger] mem.byte(q) == 0,
    ensures
        trapframe_at(mem, a) == trapframe_zero(),
{
    assert forall|k: int| 0 <= k < 36 implies #[trigger] tf_words(mem, a)[k] == 0 by {
        crate::memory::lemma_zero_word(mem, a + 8 * k);
    }
}

/// A trap frame whose bytes did not change reads the same.
pub proof fn lemma_frame_words_same(m1: &PhysMem, m2: &PhysMem, a: int)
    requires
        m2.base == m1.base,
        m2.bytes@.len() == m1.bytes@.len(),
        m1.contains(a, TRAPFRAME_SIZE as int),
        forall|q: int| a <= q < a + TRAPFRAME_SIZE ==> #[trigger] m2.byte(q) == m1.byte(q),
    ensures
        tf_words(m2, a) == tf_words(m1, a),
        trapframe_at(m2, a) == trapframe_at(m1, a),
{
    assert forall|k: int| 0 <= k < 36 implies #[trigger] tf_words(m2, a)[k] == tf_words(m1, a)[k] by {
        crate::memory::lemma_word_same(m2, m1, a + 8 * k);
    }
    assert(tf_words(m2, a) =~= tf_words(m1, a));
}

/// Writes word `k` of the trap frame at `a`; the other fields stay.
pub fn set_tf_word(mem: &mut PhysMem, a: u64, k: u64, v: u64)
    requires
        old(mem).wf(),
        old(mem).contains(a as int, TRAPFRAME_SIZE as int),
        k < 36,
    ensures
        tf_words(final(mem), a as int) == tf_words(old(mem), a as int).update(k as int, v),
        changed_only(old(mem), final(mem), a + 8 * k, 8),
{
    mem.write_word(a + 8 * k, v);
    proof {
        lemma_words_outside(old(mem), mem, a + 8 * k, 8);
        assert(tf_words(mem, a as int) =~= tf_words(old(mem), a as int).update(k as int, v));
    }
}

/// Life-cycle state of a process.
#[derive(Clone, Copy, PartialEq, Eq, Structural, Debug)]
pub enum ProcState {
    UNUSED,
    USED,
    SLEEPING,
    RUNNABLE,
    RUNNING,
    ZOMBIE,
}

impl Default for ProcState {
    /// A slot starts unused.
    fn default() -> (s: Self)
        ensures
            s == ProcState::UNUSED,
    {
        ProcState::UNUSED
    }
}

/// A slot of the process pool.
pub struct Proc {
    /// Physical address of the page holding the trap frame.
    pub trapframe: Option<u64>,
    /// Registers to switch to when the process next runs.
    pub context: Context,
    pub state: ProcState,
    /// Virtual address of the kernel stack page.
    pub kstack: u64,
    /// The user page table.
    pub pagetable: Option<PageTable>,
    pub killed: i64,
    pub pid: i64,
    /// Size of the user image in bytes.
    pub sz: u64,
}

impl Proc {
    /// An unused slot: no trap frame, no page table, every register and
    /// count zero.
    pub fn zero_init() -> (p: Proc)
        ensures
            p.context == context_zero(),
            p.state == ProcState::UNUSED,
            p.kstack == 0,
            p.trapframe is None,
            p.pagetable is None,
            p.killed == 0,
            p.pid == 0,
            p.sz == 0,
    {
        Proc {
            context: Context::zero_init(),
            state: ProcState::UNUSED,
            kstack: 0,
            trapframe: None,
            pagetable: None,
            killed: 0,
            pid: 0,
            sz: 0,
        }
    }

    /// The trap frame of the process, read from its page. The process must
    /// have one.
    pub fn trapframe(&self, mem: &PhysMem) -> (tf: Option<TrapFrame>)
        requires
            self.trapframe is Some,
            mem.wf(),
            mem.contains(self.trapframe->0 as int, TRAPFRAME_SIZE as int),
        ensures
            tf == Some(trapframe_at(mem, self.trapframe->0 as int)),
    {
        Some(TrapFrame::load(mem, self.trapframe.unwrap()))
    }
}

/// Per-hart state: the process it runs, as a slot of the pool, and the
/// depth of `push_off` nesting with the interrupt state before the first.
pub struct CPU {
    pub process: Option<usize>,
    pub noff: i32,
    pub intena: bool,
}

impl CPU {
    /// A hart that runs nothing, with interrupts never pushed off.
    pub fn zero() -> (c: CPU)
        ensures
            c.process is None,
            c.noff == 0,
            !c.intena,
    {
        CPU { process: None, noff: 0, intena: false }
    }
}

/// The kernel stack of one application, `KERNEL_STACK_SIZE` bytes from
/// `base`.
#[derive(Clone, Copy, Debug)]
pub struct KernelStack {
    pub base: u64,
}

/// The user stack of one application, `USER_STACK_SIZE` bytes from `base`.
#[derive(Clone, Copy, Debug)]
pub struct UserStack {
    pub base: u64,
}

impl KernelStack {
    /// The initial stack pointer: the top of the stack.
    pub fn get_sp(&self) -> (sp: u64)
        requires
            self.base + KERNEL_STACK_SIZE <= u64::MAX,
        ensures
            sp == self.base + KERNEL_STACK_SIZE,
    {
        self.base + KERNEL_STACK_SIZE as u64
    }

    /// Pushes `trap_cx` on this stack and returns the stack pointer below
    /// it, where it now lies.
    pub fn push_context(&self, mem: &mut PhysMem, trap_cx: TrapFrame) -> (sp: u64)
        requires
            old(mem).wf(),
            self.base + KERNEL_STACK_SIZE <= u64::MAX,
            old(mem).contains(self.base + KERNEL_STACK_SIZE - TRAPFRAME_SIZE, TRAPFRAME_SIZE as int),
        ensures
            sp == self.base + KERNEL_STACK_SIZE - TRAPFRAME_SIZE,
            trapframe_at(final(mem), sp as int) == trap_cx,
            changed_only(old(mem), final(mem), sp as int, TRAPFRAME_SIZE as int),
    {
        let trap_cx_ptr = self.get_sp() - TRAPFRAME_SIZE;
        trap_cx.store(mem, trap_cx_ptr);
        trap_cx_ptr
    }
}

impl UserStack {
    /// The initial stack pointer: the top of the stack.
    pub fn get_sp(&self) -> (sp: u64)
        requires
            self.base + USER_STACK_SIZE <= u64::MAX,
        ensures
            sp == self.base + USER_STACK_SIZE,
    {
        self.base + USER_STACK_SIZE as u64
    }
}

/// Load address of application `app_id` of the batch.
pub open spec fn base_of(app_id: int) -> int {
    APP_BASE_ADDRESS + app_id * APP_SIZE_LIMIT
}

/// Load address of application `app_id`: the batch's images follow one
/// another `APP_SIZE_LIMIT` apart.
pub fn get_base_i(app_id: usize) -> (r: usize)
    requires
        base_of(app_id as int) <= usize::MAX,
    ensures
        r == base_of(app_id as int),
{
    APP_BASE_ADDRESS + app_id * APP_SIZE_LIMIT
}

/// Builds, on the kernel stack of application `app_id`, the trap frame it
/// first returns to user mode with: entry at its load address, stack
/// pointer at the top of its user stack. Returns the kernel stack pointer
/// below that frame.
pub fn init_app_cx(mem: &mut PhysMem, kernel_stacks: &Vec<KernelStack>, user_stacks: &Vec<UserStack>, app_id: usize) -> (sp: u64)
    requires
        app_id < kernel_stacks@.len(),
        app_id < user_stacks@.len(),
        base_of(app_id as int) <= usize::MAX,
        old(mem).wf(),
        kernel_stacks@[app_id as int].base + KERNEL_STACK_SIZE <= u64::MAX,
        user_stacks@[app_id as int].base + USER_STACK_SIZE <= u64::MAX,
        old(mem).contains(kernel_stacks@[app_id as int].base + KERNEL_STACK_SIZE - TRAPFRAME_SIZE, TRAPFRAME_SIZE as int),
    ensures
        sp == kernel_stacks@[app_id as int].base + KERNEL_STACK_SIZE - TRAPFRAME_SIZE,
        trapframe_at(final(mem), sp as int) == (TrapFrame {
            epc: base_of(app_id as int) as u64,
            sp: (user_stacks@[app_id as int].base + USER_STACK_SIZE) as u64,
            ..trapframe_zero()
        }),
        changed_only(old(mem), final(mem), sp as int, TRAPFRAME_SIZE as int),
{
    let entry = get_base_i(app_id);
    let usp = user_stacks[app_id].get_sp();
    kernel_stacks[app_id].push_context(mem, TrapFrame::app_init_context(entry as u64, usp))
}

/// The hart's slot among `NCPU`: its id, which `tp` holds.
pub fn mycpu(hart: &Hart) -> (c: usize)
    requires
        hart.tp < NCPU,
    ensures
        c == hart.tp,
{
    r_tp(hart) as usize
}

/// The slot of the process this hart runs, which it must run one.
pub fn myproc(cpus: &Vec<CPU>, hart: &Hart) -> (p: usize)
    requires
        hart.tp < NCPU,
        hart.tp < cpus@.len(),
        cpus@[hart.tp as int].process is Some,
    ensures
        p == cpus@[hart.tp as int].process->0,
{
    let c = mycpu(hart);
    cpus[c].process.unwrap()
}

/// The first unused slot of the pool is `i`.
pub open spec fn first_unused(procs: Seq<Proc>, i: int) -> bool {
    &&& 0 <= i < procs.len()
    &&& procs[i].state == ProcState::UNUSED
    &&& forall|j: int| 0 <= j < i ==> #[trigger] procs[j].state != ProcState::UNUSED
}

/// Takes the first unused slot of the pool and sets it up: marks it used,
/// gives it the slot's index as pid, gives it a trap-frame page (a page
/// from the allocator, unless it has one), and points its saved stack
/// pointer at the top of its kernel stack page. Running out of slots, or
/// of pages for the trap frame, stops the kernel, so a slot must be unused
/// and a page at hand.
pub fn allocproc(procs: &mut Vec<Proc>, mem: &mut PhysMem, kmem: &mut Kmem) -> (i: usize)
    requires
        old(procs)@.len() <= NPROC,
        old(kmem).wf(old(mem)),
        exists|k: int| 0 <= k < old(procs)@.len() && old(procs)@[k].state == ProcState::UNUSED,
        forall|k: int| 0 <= k < old(procs)@.len() ==> #[trigger] old(procs)@[k].kstack + PGSIZE <= u64::MAX,
        forall|k: int| #[trigger] first_unused(old(procs)@, k) && old(procs)@[k].trapframe is None ==> old(kmem)@.len() > 0,
    ensures
        first_unused(old(procs)@, i as int),
        final(procs)@.len() == old(procs)@.len(),
        forall|j: int| 0 <= j < old(procs)@.len() && j != i ==> #[trigger] final(procs)@[j] == old(procs)@[j],
        final(procs)@[i as int] == (Proc {
            state: ProcState::USED,
            pid: i as i64,
            context: Context { sp: (old(procs)@[i as int].kstack + PGSIZE) as u64, ..old(procs)@[i as int].context },
            trapframe: final(procs)@[i as int].trapframe,
            ..old(procs)@[i as int]
        }),
        final(kmem).wf(final(mem)),
        final(kmem).end == old(kmem).end,
        old(procs)@[i as int].trapframe is Some ==> {
            &&& final(procs)@[i as int].trapframe == old(procs)@[i as int].trapframe
            &&& *final(kmem) == *old(kmem)
            &&& *final(mem) == *old(mem)
        },
        old(procs)@[i as int].trapframe is None ==> {
            let tf = old(kmem)@[0];
            &&& final(procs)@[i as int].trapframe == Some(tf)
            &&& final(kmem)@ == old(kmem)@.drop_first()
            &&& changed_only(old(mem), final(mem), tf as int, PGSIZE as int)
            &&& forall|q: int| tf <= q < tf + PGSIZE ==> #[trigger] final(mem).byte(q) == 5u8
        },
{
    let mut i: usize = 0;
    while i < procs.len()
        invariant
            i <= procs@.len(),
            procs@ == old(procs)@,
            *mem == *old(mem),
            *kmem == *old(kmem),
            kmem.wf(mem),
            procs@.len() <= NPROC,
            forall|j: int| 0 <= j < i ==> #[trigger] procs@[j].state != ProcState::UNUSED,
            exists|k: int| 0 <= k < procs@.len() && procs@[k].state == ProcState::UNUSED,
            forall|k: int| 0 <= k < procs@.len() ==> #[trigger] procs@[k].kstack + PGSIZE <= u64::MAX,
            forall|k: int| #[trigger] first_unused(procs@, k) && procs@[k].trapframe is None ==> kmem@.len() > 0,
        decreases procs@.len() - i,
    {
        if procs[i].state == ProcState::UNUSED {
            assert(first_unused(procs@, i as int));
            let sp = procs[i].kstack + PGSIZE;
            procs[i].state = ProcState::USED;
            procs[i].pid = i as i64;
            procs[i].context.sp = sp;
            if procs[i].trapframe.is_none() {
                let tf = kmem.kalloc(mem);
                procs[i].trapframe = Some(tf);
            }
            return i;
        }
        i = i + 1;
    }
    proof {
        let k = choose|k: int| 0 <= k < procs@.len() && procs@[k].state == ProcState::UNUSED;
        assert(procs@[k].state != ProcState::UNUSED);
    }
    i
}

/// Number of applications in the batch: the first word of the table the
/// kernel image holds at `num_app_addr`, which the start addresses of the
/// applications follow.
pub fn get_num_app(mem: &PhysMem, num_app_addr: u64) -> (n: u64)
    requires
        mem.contains(num_app_addr as int, 8),
    ensures
        n == mem.word(num_app_addr as int),
{
    mem.read_word(num_app_addr)
}

/// A switch that `sched` decided on: from the context of slot `prev` to
/// that of slot `next`, which the caller carries out.
#[derive(Clone, Copy, Debug, PartialEq, Eq, Structural)]
pub struct Switch {
    pub prev: usize,
    pub next: usize,
}

/// The slot `sched` hands the hart to after process `p`: the one after its
/// pid.
pub open spec fn next_slot(p: &Proc) -> int {
    p.pid + 1
}

/// Picks the next process to run, as a simple batch scheduler: the one
/// whose slot follows the pid of the current process. The hart is given
/// to it and it is marked running; the current process keeps the state its
/// caller gave it. Running out of applications stops the kernel, so one
/// must follow.
pub fn sched(procs: &mut Vec<Proc>, cpus: &mut Vec<CPU>, hart: &Hart, app_num: u64) -> (sw: Switch)
    requires
        hart.tp < NCPU,
        hart.tp < old(cpus)@.len(),
        old(procs)@.len() <= NPROC,
        old(cpus)@[hart.tp as int].process matches Some(p) && p < old(procs)@.len(),
        ({
            let p = old(cpus)@[hart.tp as int].process->0;
            0 <= next_slot(&old(procs)@[p as int]) < app_num && next_slot(&old(procs)@[p as int]) < old(procs)@.len()
        }),
    ensures
        sw.prev == old(cpus)@[hart.tp as int].process->0,
        sw.next == next_slot(&old(procs)@[sw.prev as int]),
        final(cpus)@ == old(cpus)@.update(hart.tp as int, CPU { process: Some(sw.next), ..old(cpus)@[hart.tp as int] }),
        final(procs)@ == old(procs)@.update(sw.next as int, Proc { state: ProcState::RUNNING, ..old(procs)@[sw.next as int] }),
{
    let p = myproc(cpus, hart);
    let next_id = (procs[p].pid + 1) as usize;
    assert(next_id == next_slot(&procs@[p as int]));
    let c = mycpu(hart);
    cpus[c].process = Some(next_id);
    procs[next_id].state = ProcState::RUNNING;
    proof {
        assert(cpus@ =~= old(cpus)@.update(hart.tp as int, CPU { process: Some(next_id), ..old(cpus)@[hart.tp as int] }));
        assert(procs@ =~= old(procs)@.update(next_id as int, Proc { state: ProcState::RUNNING, ..old(procs)@[next_id as int] }));
    }
    Switch { prev: p, next: next_id }
}


/// A trap frame read back is the one written: after `store` of `tf` at
/// `a`, `load` at `a` gives `tf`, and a store elsewhere, not overlapping
/// it, leaves it as it is.
pub proof fn law_store_then_load(tf: TrapFrame, m1: &PhysMem, m2: &PhysMem, a: int, b: int, r: TrapFrame)
    requires
        m1.contains(a, TRAPFRAME_SIZE as int),
        trapframe_at(m1, a) == tf,
        changed_only(m1, m2, b, TRAPFRAME_SIZE as int),
        a + TRAPFRAME_SIZE <= b || b + TRAPFRAME_SIZE <= a,
        r == trapframe_at(m2, a),
    ensures
        r == tf,
{
    lemma_frame_words_same(m1, m2, a);
}

/// Setting word `k` of a trap frame (`set_tf_word`) sets the field at that
/// place in the layout and no other: word 3 is the user pc, word 6 the user
/// stack pointer, words 14 to 16 the first three arguments, word 21 the
/// system-call number.
pub proof fn law_frame_word(ws: Seq<u64>, k: int, v: u64)
    requires
        ws.len() == 36,
        0 <= k < 36,
    ensures
        trapframe_from(ws.update(k, v)).words() == trapframe_from(ws).words().update(k, v),
        k == 3 ==> trapframe_from(ws.update(k, v)) == (TrapFrame { epc: v, ..trapframe_from(ws) }),
        k == 6 ==> trapframe_from(ws.update(k, v)) == (TrapFrame { sp: v, ..trapframe_from(ws) }),
        k == 14 ==> trapframe_from(ws.update(k, v)) == (TrapFrame { a0: v, ..trapframe_from(ws) }),
        k == 15 ==> trapframe_from(ws.update(k, v)) == (TrapFrame { a1: v, ..trapframe_from(ws) }),
        k == 16 ==> trapframe_from(ws.update(k, v)) == (TrapFrame { a2: v, ..trapframe_from(ws) }),
        k == 21 ==> trapframe_from(ws.update(k, v)) == (TrapFrame { a7: v, ..trapframe_from(ws) }),
{
    assert(trapframe_from(ws.update(k, v)).words() =~= trapframe_from(ws).words().update(k, v));
}


/// Layout of a trap frame in memory, as `uservec` and `userret` in the
/// trampoline save and restore the registers: field `k`, in declaration
/// order, is the word at byte offset `8 * k` (`kernel_satp` at 0, `a0` at
/// 112, `a7` at 168, `t3` at 256, `t6` at 280), and the same order gives
/// the words of a frame.
pub proof fn law_trapframe_layout(mem: &PhysMem, a: int, tf: TrapFrame)
    ensures
        trapframe_at(mem, a).kernel_satp == mem.word(a + 0),
        trapframe_at(mem, a).kernel_sp == mem.word(a + 8),
        trapframe_at(mem, a).kernel_trap == mem.word(a + 16),
        trapframe_at(mem, a).epc == mem.word(a + 24),
        trapframe_at(mem, a).kernel_hartid == mem.word(a + 32),
        trapframe_at(mem, a).ra == mem.word(a + 40),
        trapframe_at(mem, a).sp == mem.word(a + 48),
        trapframe_at(mem, a).gp == mem.word(a + 56),
        trapframe_at(mem, a).tp == mem.word(a + 64),
        trapframe_at(mem, a).t0 == mem.word(a + 72),
        trapframe_at(mem, a).t1 == mem.word(a + 80),
        trapframe_at(mem, a).t2 == mem.word(a + 88),
        trapframe_at(mem, a).s0 == mem.word(a + 96),
        trapframe_at(mem, a).s1 == mem.word(a + 104),
        trapframe_at(mem, a).a0 == mem.word(a + 112),
        trapframe_at(mem, a).a1 == mem.word(a + 120),
        trapframe_at(mem, a).a2 == mem.word(a + 128),
        trapframe_at(mem, a).a3 == mem.word(a + 136),
        trapframe_at(mem, a).a4 == mem.word(a + 144),
        trapframe_at(mem, a).a5 == mem.word(a + 152),
        trapframe_at(mem, a).a6 == mem.word(a + 160),
        trapframe_at(mem, a).a7 == mem.word(a + 168),
        trapframe_at(mem, a).s2 == mem.word(a + 176),
        trapframe_at(mem, a).s3 == mem.word(a + 184),
        trapframe_at(mem, a).s4 == mem.word(a + 192),
        trapframe_at(mem, a).s5 == mem.word(a + 200),
        trapframe_at(mem, a).s6 == mem.word(a + 208),
        trapframe_at(mem, a).s7 == mem.word(a + 216),
        trapframe_at(mem, a).s8 == mem.word(a + 224),
        trapframe_at(mem, a).s9 == mem.word(a + 232),
        trapframe_at(mem, a).s10 == mem.word(a + 240),
        trapframe_at(mem, a).s11 == mem.word(a + 248),
        trapframe_at(mem, a).t3 == mem.word(a + 256),
        trapframe_at(mem, a).t4 == mem.word(a + 264),
        trapframe_at(mem, a).t5 == mem.word(a + 272),
        trapframe_at(mem, a).t6 == mem.word(a + 280),
        tf.words()[0] == tf.kernel_satp,
        tf.words()[1] == tf.kernel_sp,
        tf.words()[2] == tf.kernel_trap,
        tf.words()[3] == tf.epc,
        tf.words()[4] == tf.kernel_hartid,
        tf.words()[5] == tf.ra,
        tf.words()[6] == tf.sp,
        tf.words()[7] == tf.gp,
        tf.words()[8] == tf.tp,
        tf.words()[9] == tf.t0,
        tf.words()[10] == tf.t1,
        tf.words()[11] == tf.t2,
        tf.words()[12] == tf.s0,
        tf.words()[13] == tf.s1,
        tf.words()[14] == tf.a0,
        tf.words()[15] == tf.a1,
        tf.words()[16] == tf.a2,
        tf.words()[17] == tf.a3,
        tf.words()[18] == tf.a4,
        tf.words()[19] == tf.a5,
        tf.words()[20] == tf.a6,
        tf.words()[21] == tf.a7,
        tf.words()[22] == tf.s2,
        tf.words()[23] == tf.s3,
        tf.words()[24] == tf.s4,
        tf.words()[25] == tf.s5,
        tf.words()[26] == tf.s6,
        tf.words()[27] == tf.s7,
        tf.words()[28] == tf.s8,
        tf.words()[29] == tf.s9,
        tf.words()[30] == tf.s10,
        tf.words()[31] == tf.s11,
        tf.words()[32] == tf.t3,
        tf.words()[33] == tf.t4,
        tf.words()[34] == tf.t5,
        tf.words()[35] == tf.t6,
        tf.words().len() == 36,
{
    let ws = tf_words(mem, a);
    assert(ws[0] == mem.word(a + 8 * 0));
    assert(ws[1] == mem.word(a + 8 * 1));
    assert(ws[2] == mem.word(a + 8 * 2));
    assert(ws[3] == mem.word(a + 8 * 3));
    assert(ws[4] == mem.word(a + 8 * 4));
    assert(ws[5] == mem.word(a + 8 * 5));
    assert(ws[6] == mem.word(a + 8 * 6));
    assert(ws[7] == mem.word(a + 8 * 7));
    assert(ws[8] == mem.word(a + 8 * 8));
    assert(ws[9] == mem.word(a + 8 * 9));
    assert(ws[10] == mem.word(a + 8 * 10));
    assert(ws[11] == mem.word(a + 8 * 11));
    assert(ws[12] == mem.word(a + 8 * 12));
    assert(ws[13] == mem.word(a + 8 * 13));
    assert(ws[14] == mem.word(a + 8 * 14));
    assert(ws[15] == mem.word(a + 8 * 15));
    assert(ws[16] == mem.word(a + 8 * 16));
    assert(ws[17] == mem.word(a + 8 * 17));
    assert(ws[18] == mem.word(a + 8 * 18));
    assert(ws[19] == mem.word(a + 8 * 19));
    assert(ws[20] == mem.word(a + 8 * 20));
    assert(ws[21] == mem.word(a + 8 * 21));
    assert(ws[22] == mem.word(a + 8 * 22));
    assert(ws[23] == mem.word(a + 8 * 23));
    assert(ws[24] == mem.word(a + 8 * 24));
    assert(ws[25] == mem.word(a + 8 * 25));
    assert(ws[26] == mem.word(a + 8 * 26));
    assert(ws[27] == mem.word(a + 8 * 27));
    assert(ws[28] == mem.word(a + 8 * 28));
    assert(ws[29] == mem.word(a + 8 * 29));
    assert(ws[30] == mem.word(a + 8 * 30));
    assert(ws[31] == mem.word(a + 8 * 31));
    assert(ws[32] == mem.word(a + 8 * 32));
    assert(ws[33] == mem.word(a + 8 * 33));
    assert(ws[34] == mem.word(a + 8 * 34));
    assert(ws[35] == mem.word(a + 8 * 35));
}

} // verus!
