# oxv6 verified core

A small RISC-V (Sv39, QEMU `virt`) kernel whose decision-making logic is
written in Verus and proved against its contracts.

- `src/` is the verified library: the physical page allocator (`mm`), Sv39
  page tables and the kernel address space (`vm`), task table and
  round-robin scheduling (`task`, `context`, `trap`), interrupt-nesting
  bookkeeping (`csr`), PLIC and UART register arithmetic (`plic`, `uart`),
  the console line discipline (`console`), the timer deadline (`timer`) and
  the shell's command parsing (`shell`). Each module states its laws as
  public proof functions next to the code they are about.
- `tests/` runs the library on concrete inputs.
- `app/` is the hardware-facing kernel: boot and trap entry, control
  registers, MMIO, SBI calls, spinlocks and the loops that drive devices and
  the scheduler. It only compiles its kernel parts for `riscv64`.
