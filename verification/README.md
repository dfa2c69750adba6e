# xv6_rs

A small batch kernel for RISC-V (Sv39), written in Verus: every
operation of the kernel is a Rust function over plain values (a
window of physical memory, the page-frame allocator, page tables, the
process pool, the CPUs and the hart's control registers) with a contract
that Verus proves.

Layout of `src/`:

- `riscv`, `memlayout`, `param`: constants, address arithmetic, PTE
  encoding and the hart's registers.
- `memory`, `string`: physical memory as bytes and words; `memset`,
  `memmove`.
- `kalloc`: the free-page list kept in the free pages themselves.
- `vm`, `uvm`: page tables, `walk`, `mappages`, `uvmalloc` and friends.
- `kvm`: the kernel page table and the kernel stacks.
- `proc`, `batch`, `launch`: the process pool, loading the applications
  and making them runnable.
- `syscall`, `sysfile`, `sysproc`, `trap`: the system-call path from a
  user trap back to user mode.
- `spinlock`: locks and nested interrupt disabling.
- `start`: machine-mode start-up and the timer.
- `user`: the user library's system calls as the registers of an `ecall`.

What the machine does in assembly (`mret`, `swtch`, `sret`, `ecall`) is
left to the caller: the library returns the switch or jump to make.
`app/` boots the model on the host and plays the batch of applications.
