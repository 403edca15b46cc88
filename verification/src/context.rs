//! Saved callee-saved register context of a kernel task.

use vstd::prelude::*;

verus! {

/// Callee-saved registers preserved across a context switch: `ra`, `sp`
/// and `s0`-`s11`.
#[derive(Clone, Copy, Debug, PartialEq, Eq)]
pub struct Context {
    pub ra: usize,
    pub sp: usize,
    pub s0: usize,
    pub s1: usize,
    pub s2: usize,
    pub s3: usize,
    pub s4: usize,
    pub s5: usize,
    pub s6: usize,
    pub s7: usize,
    pub s8: usize,
    pub s9: usize,
    pub s10: usize,
    pub s11: usize,
}

/// The context whose return address is `ra`, stack pointer `sp`, and all
/// saved registers zero.
pub open spec fn context_with(ra: usize, sp: usize) -> Context {
    Context {
        ra,
        sp,
        s0: 0,
        s1: 0,
        s2: 0,
        s3: 0,
        s4: 0,
        s5: 0,
        s6: 0,
        s7: 0,
        s8: 0,
        s9: 0,
        s10: 0,
        s11: 0,
    }
}

impl Context {
    /// An all-zero context.
    pub fn zero() -> (r: Self)
        ensures
            r == context_with(0, 0),
    {
        Context {
            ra: 0,
            sp: 0,
            s0: 0,
            s1: 0,
            s2: 0,
            s3: 0,
            s4: 0,
            s5: 0,
            s6: 0,
            s7: 0,
            s8: 0,
            s9: 0,
            s10: 0,
            s11: 0,
        }
    }

    /// The first context of a new task: switching to it returns into
    /// `entry` with the stack pointer at `stack_top`.
    pub fn new(entry: usize, stack_top: usize) -> (r: Self)
        ensures
            r == context_with(entry, stack_top),
    {
        Context {
            ra: entry,
            sp: stack_top,
            s0: 0,
            s1: 0,
            s2: 0,
            s3: 0,
            s4: 0,
            s5: 0,
            s6: 0,
            s7: 0,
            s8: 0,
            s9: 0,
            s10: 0,
            s11: 0,
        }
    }
}

} // verus!
