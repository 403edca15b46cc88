//! Platform-level interrupt controller: register addresses per interrupt
//! source and per hart, and what to do with a claimed interrupt.

use vstd::prelude::*;

verus! {

/// Base physical address of the PLIC on the QEMU `virt` machine.
pub const PLIC_BASE: usize = 0x0c00_0000;

/// Interrupt source of UART0.
pub const UART0_IRQ: usize = 10;

/// Interrupt source of the VirtIO disk.
pub const VIRTIO0_IRQ: usize = 1;

/// The PLIC context of hart `hartid` in supervisor mode.
pub open spec fn s_context(hartid: int) -> int {
    2 * hartid + 1
}

/// Law: on the `virt` machine each hart owns two PLIC contexts, machine
/// mode first: the supervisor context of hart `h` is the odd context
/// right after its machine context `2 * h`, so distinct harts never share
/// a supervisor context and no supervisor context is a machine context.
pub proof fn lemma_s_context_of_hart(h: int, g: int)
    requires
        0 <= h,
        0 <= g,
    ensures
        s_context(h) == 2 * h + 1,
        s_context(h) % 2 == 1,
        s_context(h) / 2 == h,
        h != g ==> s_context(h) != s_context(g),
        s_context(h) != 2 * g,
{
}

/// Address of the priority register of interrupt source `irq`.
pub fn source_priority_ptr(irq: usize) -> (r: usize)
    requires
        PLIC_BASE + irq * 4 <= usize::MAX,
    ensures
        r == PLIC_BASE + irq * 4,
{
    broadcast use vstd::layout::layout_of_primitives;

    PLIC_BASE + irq * core::mem::size_of::<u32>()
}

/// Address of the interrupt-enable register of hart `hartid`'s
/// supervisor context.
pub fn senable_ptr(hartid: usize) -> (r: usize)
    requires
        PLIC_BASE + 0x2000 + s_context(hartid as int) * 0x80 <= usize::MAX,
    ensures
        r == PLIC_BASE + 0x2000 + s_context(hartid as int) * 0x80,
        r == 0x0c00_2000 + (2 * hartid + 1) * 0x80,
{
    let context: usize = 2 * hartid + 1;
    PLIC_BASE + 0x2000 + context * 0x80
}

/// Address of the priority-threshold register of hart `hartid`'s
/// supervisor context.
pub fn sthreshold_ptr(hartid: usize) -> (r: usize)
    requires
        PLIC_BASE + 0x20_0000 + s_context(hartid as int) * 0x1000 <= usize::MAX,
    ensures
        r == PLIC_BASE + 0x20_0000 + s_context(hartid as int) * 0x1000,
        r == 0x0c20_0000 + (2 * hartid + 1) * 0x1000,
{
    let context: usize = 2 * hartid + 1;
    PLIC_BASE + 0x20_0000 + context * 0x1000
}

/// Address of the claim/complete register of hart `hartid`'s supervisor
/// context.
pub fn sclaim_ptr(hartid: usize) -> (r: usize)
    requires
        PLIC_BASE + 0x20_0000 + s_context(hartid as int) * 0x1000 + 4 <= usize::MAX,
    ensures
        r == PLIC_BASE + 0x20_0000 + s_context(hartid as int) * 0x1000 + 4,
        r == 0x0c20_0004 + (2 * hartid + 1) * 0x1000,
{
    let context: usize = 2 * hartid + 1;
    PLIC_BASE + 0x20_0000 + context * 0x1000 + 4
}

/// The enable mask of a hart: the UART and VirtIO sources.
pub fn enable_mask() -> (r: u32)
    ensures
        r == 0x402,
        r == (1u32 << 10u32) | (1u32 << 1u32),
{
    let r: u32 = (1u32 << 10u32) | (1u32 << 1u32);
    assert(r == 0x402) by (bit_vector)
        requires
            r == (1u32 << 10u32) | (1u32 << 1u32),
    ;
    r
}

/// How a claimed external interrupt is handled.
#[derive(Clone, Copy, Debug, PartialEq, Eq)]
pub enum ExternalIrq {
    /// No interrupt was pending (claim returned 0); nothing to complete.
    Spurious,
    /// The UART raised it.
    Uart,
    /// The VirtIO disk raised it.
    Virtio,
    /// Some other source.
    Unknown(usize),
}

/// The handling of a claimed source number.
pub open spec fn irq_kind(irq: usize) -> ExternalIrq {
    if irq == 0 {
        ExternalIrq::Spurious
    } else if irq == UART0_IRQ {
        ExternalIrq::Uart
    } else if irq == VIRTIO0_IRQ {
        ExternalIrq::Virtio
    } else {
        ExternalIrq::Unknown(irq)
    }
}

/// Classifies a claimed external interrupt.
pub fn classify_irq(irq: usize) -> (r: ExternalIrq)
    ensures
        r == irq_kind(irq),
{
    if irq == UART0_IRQ {
        ExternalIrq::Uart
    } else if irq == VIRTIO0_IRQ {
        ExternalIrq::Virtio
    } else if irq == 0 {
        ExternalIrq::Spurious
    } else {
        ExternalIrq::Unknown(irq)
    }
}

/// Whether a claimed interrupt must be completed: every real source, that
/// is every claim but 0.
pub fn must_complete(irq: usize) -> (r: bool)
    ensures
        r == (irq_kind(irq) != ExternalIrq::Spurious),
        r == (irq != 0),
{
    irq != 0
}


/// Law: a claim of 0 means nothing was pending; source 10 is the UART and
/// source 1 the VirtIO disk; every other source is reported with its
/// number.
pub proof fn lemma_irq_kinds(irq: usize)
    ensures
        (irq_kind(irq) == ExternalIrq::Spurious) <==> irq == 0,
        (irq_kind(irq) == ExternalIrq::Uart) <==> irq == 10,
        (irq_kind(irq) == ExternalIrq::Virtio) <==> irq == 1,
        irq != 0 && irq != 1 && irq != 10 ==> irq_kind(irq) == ExternalIrq::Unknown(irq),
{
}

} // verus!
