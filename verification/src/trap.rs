//! Supervisor trap frames and decoding of the trap cause.

use vstd::prelude::*;

verus! {

/// Registers saved on entry to a supervisor trap: `x1`-`x31` (`x0` is
/// hard-wired to zero) followed by `sepc` and `sstatus`.
#[derive(Clone, Copy, Debug, PartialEq, Eq)]
pub struct TrapFrame {
    pub ra: usize,
    pub sp: usize,
    pub gp: usize,
    pub tp: usize,
    pub t0: usize,
    pub t1: usize,
    pub t2: usize,
    pub s0: usize,
    pub s1: usize,
    pub a0: usize,
    pub a1: usize,
    pub a2: usize,
    pub a3: usize,
    pub a4: usize,
    pub a5: usize,
    pub a6: usize,
    pub a7: usize,
    pub s2: usize,
    pub s3: usize,
    pub s4: usize,
    pub s5: usize,
    pub s6: usize,
    pub s7: usize,
    pub s8: usize,
    pub s9: usize,
    pub s10: usize,
    pub s11: usize,
    pub t3: usize,
    pub t4: usize,
    pub t5: usize,
    pub t6: usize,
    pub sepc: usize,
    pub sstatus: usize,
}

/// Bytes reserved for a trap frame on the stack: 33 saved words rounded up
/// to keep the stack 16-byte aligned.
pub const TRAP_FRAME_SIZE: usize = 272;

/// The frame whose `sret` starts a kernel task at `entry` with stack
/// `stack_top`, global pointer `gp`, thread pointer `tp` and `sstatus`
/// value `sstatus`; every other register is zero.
pub open spec fn kernel_task_frame(
    entry: usize,
    stack_top: usize,
    gp: usize,
    tp: usize,
    sstatus: usize,
) -> TrapFrame {
    TrapFrame {
        ra: 0,
        sp: stack_top,
        gp,
        tp,
        t0: 0,
        t1: 0,
        t2: 0,
        s0: 0,
        s1: 0,
        a0: 0,
        a1: 0,
        a2: 0,
        a3: 0,
        a4: 0,
        a5: 0,
        a6: 0,
        a7: 0,
        s2: 0,
        s3: 0,
        s4: 0,
        s5: 0,
        s6: 0,
        s7: 0,
        s8: 0,
        s9: 0,
        s10: 0,
        s11: 0,
        t3: 0,
        t4: 0,
        t5: 0,
        t6: 0,
        sepc: entry,
        sstatus,
    }
}

impl TrapFrame {
    /// The initial trap frame of a kernel task starting at `entry`.
    pub fn for_kernel_task(
        entry: usize,
        stack_top: usize,
        gp: usize,
        tp: usize,
        sstatus: usize,
    ) -> (r: Self)
        ensures
            r == kernel_task_frame(entry, stack_top, gp, tp, sstatus),
    {
        TrapFrame {
            ra: 0,
            sp: stack_top,
            gp,
            tp,
            t0: 0,
            t1: 0,
            t2: 0,
            s0: 0,
            s1: 0,
            a0: 0,
            a1: 0,
            a2: 0,
            a3: 0,
            a4: 0,
            a5: 0,
            a6: 0,
            a7: 0,
            s2: 0,
            s3: 0,
            s4: 0,
            s5: 0,
            s6: 0,
            s7: 0,
            s8: 0,
            s9: 0,
            s10: 0,
            s11: 0,
            t3: 0,
            t4: 0,
            t5: 0,
            t6: 0,
            sepc: entry,
            sstatus,
        }
    }
}

/// What a supervisor trap was raised for, decoded from `scause`.
#[derive(Clone, Copy, Debug, PartialEq, Eq)]
pub enum TrapCause {
    /// Supervisor software interrupt (code 1).
    SoftwareInterrupt,
    /// Supervisor timer interrupt (code 5).
    TimerInterrupt,
    /// Supervisor external interrupt (code 9).
    ExternalInterrupt,
    /// Any other interrupt, with its code.
    UnknownInterrupt(u64),
    /// A synchronous exception, with its code.
    Exception(u64),
}

/// The top bit of `scause`: set for interrupts, clear for exceptions.
pub const SCAUSE_INTERRUPT: u64 = 0x8000_0000_0000_0000;

/// The cause that `scause` reports: the top bit tells interrupts from
/// exceptions and the remaining bits give the code.
pub open spec fn cause_of(scause: u64) -> TrapCause {
    let code = scause % 0x8000_0000_0000_0000;
    if scause >= 0x8000_0000_0000_0000 {
        if code == 1 {
            TrapCause::SoftwareInterrupt
        } else if code == 5 {
            TrapCause::TimerInterrupt
        } else if code == 9 {
            TrapCause::ExternalInterrupt
        } else {
            TrapCause::UnknownInterrupt(code as u64)
        }
    } else {
        TrapCause::Exception(code as u64)
    }
}

/// Decodes the supervisor cause register.
pub fn decode_cause(scause: u64) -> (r: TrapCause)
    ensures
        r == cause_of(scause),
{
    let is_interrupt = (scause & SCAUSE_INTERRUPT) != 0;
    let code = scause & !SCAUSE_INTERRUPT;
    assert((scause & 0x8000_0000_0000_0000u64 != 0) == (scause >= 0x8000_0000_0000_0000u64)
        && scause & !0x8000_0000_0000_0000u64 == scause % 0x8000_0000_0000_0000u64)
        by (bit_vector);
    if is_interrupt {
        if code == 1 {
            TrapCause::SoftwareInterrupt
        } else if code == 5 {
            TrapCause::TimerInterrupt
        } else if code == 9 {
            TrapCause::ExternalInterrupt
        } else {
            TrapCause::UnknownInterrupt(code)
        }
    } else {
        TrapCause::Exception(code)
    }
}

/// Law: the decoded code and kind give back the raw `scause` value.
pub proof fn lemma_cause_round_trip(scause: u64)
    ensures
        match cause_of(scause) {
            TrapCause::SoftwareInterrupt => scause == 0x8000_0000_0000_0000u64 + 1,
            TrapCause::TimerInterrupt => scause == 0x8000_0000_0000_0000u64 + 5,
            TrapCause::ExternalInterrupt => scause == 0x8000_0000_0000_0000u64 + 9,
            TrapCause::UnknownInterrupt(c) => scause == 0x8000_0000_0000_0000u64 + c && c != 1
                && c != 5 && c != 9 && c < 0x8000_0000_0000_0000u64,
            TrapCause::Exception(c) => scause == c && c < 0x8000_0000_0000_0000u64,
        },
{
}

} // verus!
