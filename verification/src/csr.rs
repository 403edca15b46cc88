//! Supervisor status bits and the per-hart bookkeeping behind nested
//! interrupt-disabling critical sections (`push_off` / `pop_off`).

use vstd::prelude::*;

verus! {

/// `sstatus.SIE`: supervisor interrupts enabled.
pub const SSTATUS_SIE: usize = 2;

/// `sstatus.SPIE`: interrupts enabled before the trap.
pub const SSTATUS_SPIE: usize = 32;

/// `sstatus.SPP`: the trap came from supervisor mode.
pub const SSTATUS_SPP: usize = 256;

/// `sie.SEIE`: supervisor external interrupts enabled.
pub const SIE_SEIE: usize = 512;

/// `sie.STIE`: supervisor timer interrupts enabled.
pub const SIE_STIE: usize = 32;

/// Number of harts the kernel supports.
pub const MAX_HARTS: usize = 4;

/// Per-hart depth of nested interrupt-disabled sections, and whether
/// interrupts were enabled when the outermost one began.
pub struct InterruptNesting {
    noff: Vec<usize>,
    intena: Vec<bool>,
}

/// The depths after a `push_off` on hart `h` (the counter wraps like an
/// atomic add).
pub open spec fn depth_after_push(noff: Seq<usize>, h: int) -> Seq<usize> {
    noff.update(h, if noff[h] == usize::MAX { 0 } else { (noff[h] + 1) as usize })
}

/// The saved enable flags after a `push_off` on hart `h` that found
/// interrupts `enabled`: only the outermost section records the state.
pub open spec fn saved_after_push(noff: Seq<usize>, intena: Seq<bool>, h: int, enabled: bool) -> Seq<
    bool,
> {
    if noff[h] == 0 {
        intena.update(h, enabled)
    } else {
        intena
    }
}

/// Whether the `pop_off` that ends the section on hart `h` re-enables
/// interrupts: only when it closes the outermost section and interrupts
/// were enabled before it began.
pub open spec fn pop_enables(noff: Seq<usize>, intena: Seq<bool>, h: int) -> bool {
    noff[h] == 1 && intena[h]
}

impl InterruptNesting {
    /// Nesting depth per hart.
    pub closed spec fn depths(&self) -> Seq<usize> {
        self.noff@
    }

    /// Saved interrupt-enable flag per hart.
    pub closed spec fn saved(&self) -> Seq<bool> {
        self.intena@
    }

    /// One entry per hart.
    pub open spec fn wf(&self) -> bool {
        &&& self.depths().len() == MAX_HARTS
        &&& self.saved().len() == MAX_HARTS
    }

    /// No hart inside a section; nothing saved.
    pub fn new() -> (r: Self)
        ensures
            r.wf(),
            r.depths() == Seq::new(MAX_HARTS as nat, |i: int| 0usize),
            r.saved() == Seq::new(MAX_HARTS as nat, |i: int| false),
    {
        let mut noff: Vec<usize> = Vec::new();
        let mut intena: Vec<bool> = Vec::new();
        let mut i: usize = 0;
        while i < MAX_HARTS
            invariant
                i <= MAX_HARTS,
                noff@ == Seq::new(i as nat, |j: int| 0usize),
                intena@ == Seq::new(i as nat, |j: int| false),
            decreases MAX_HARTS - i,
        {
            noff.push(0);
            intena.push(false);
            i = i + 1;
            assert(noff@ =~= Seq::new(i as nat, |j: int| 0usize));
            assert(intena@ =~= Seq::new(i as nat, |j: int| false));
        }
        InterruptNesting { noff, intena }
    }

    /// The nesting depth of hart `hartid`.
    pub fn depth(&self, hartid: usize) -> (r: usize)
        requires
            self.wf(),
            hartid < MAX_HARTS,
        ensures
            r == self.depths()[hartid as int],
    {
        self.noff[hartid]
    }

    /// Enters an interrupt-disabled section on hart `hartid`, which found
    /// interrupts `enabled` before disabling them. Only the outermost
    /// section records that state.
    pub fn push_off(&mut self, hartid: usize, enabled: bool)
        requires
            old(self).wf(),
            hartid < MAX_HARTS,
        ensures
            final(self).wf(),
            final(self).depths() == depth_after_push(old(self).depths(), hartid as int),
            final(self).saved() == saved_after_push(
                old(self).depths(),
                old(self).saved(),
                hartid as int,
                enabled,
            ),
            old(self).depths()[hartid as int] < usize::MAX ==> final(self).depths()[hartid as int]
                == old(self).depths()[hartid as int] + 1,
            forall|j: int| 0 <= j < MAX_HARTS && j != hartid ==> #[trigger] final(self).depths()[j]
                == old(self).depths()[j],
    {
        let n: usize = self.noff[hartid];
        if n == 0 {
            self.intena.set(hartid, enabled);
        }
        let next: usize = if n == usize::MAX {
            0
        } else {
            n + 1
        };
        self.noff.set(hartid, next);
    }

    /// Leaves an interrupt-disabled section on hart `hartid`; interrupts
    /// must still be disabled and a section must be open. Returns whether
    /// interrupts are to be enabled again.
    pub fn pop_off(&mut self, hartid: usize, enabled: bool) -> (r: bool)
        requires
            old(self).wf(),
            hartid < MAX_HARTS,
            !enabled,
            old(self).depths()[hartid as int] > 0,
        ensures
            final(self).wf(),
            final(self).depths() == old(self).depths().update(
                hartid as int,
                (old(self).depths()[hartid as int] - 1) as usize,
            ),
            final(self).saved() == old(self).saved(),
            r == pop_enables(old(self).depths(), old(self).saved(), hartid as int),
            r == (old(self).depths()[hartid as int] == 1 && old(self).saved()[hartid as int]),
    {
        let n: usize = self.noff[hartid];
        self.noff.set(hartid, n - 1);
        n == 1 && self.intena[hartid]
    }
}

/// Law: an outermost `push_off` followed by its `pop_off` restores the
/// depth and re-enables interrupts exactly when they were enabled before.
pub proof fn lemma_push_pop_restores(noff: Seq<usize>, intena: Seq<bool>, h: int, enabled: bool)
    requires
        0 <= h < noff.len(),
        h < intena.len(),
        noff[h] == 0,
    ensures
        pop_enables(
            depth_after_push(noff, h),
            saved_after_push(noff, intena, h, enabled),
            h,
        ) == enabled,
        depth_after_push(noff, h).update(h, (depth_after_push(noff, h)[h] - 1) as usize) == noff,
{
    assert(depth_after_push(noff, h).update(h, (depth_after_push(noff, h)[h] - 1) as usize)
        =~= noff);
}

/// Law: a nested `push_off` keeps the state saved by the outermost one,
/// and the `pop_off` that closes it never re-enables interrupts.
pub proof fn lemma_nested_push_keeps_saved(
    noff: Seq<usize>,
    intena: Seq<bool>,
    h: int,
    enabled: bool,
)
    requires
        0 <= h < noff.len(),
        h < intena.len(),
        0 < noff[h] < usize::MAX,
    ensures
        saved_after_push(noff, intena, h, enabled) == intena,
        !pop_enables(depth_after_push(noff, h), saved_after_push(noff, intena, h, enabled), h),
{
}


/// Law: below the wrap point every `push_off` deepens its hart's nesting by
/// exactly one and leaves the other harts alone.
pub proof fn lemma_push_adds_one(noff: Seq<usize>, h: int)
    requires
        0 <= h < noff.len(),
        noff[h] < usize::MAX,
    ensures
        depth_after_push(noff, h).len() == noff.len(),
        depth_after_push(noff, h)[h] == noff[h] + 1,
        forall|j: int| 0 <= j < noff.len() && j != h ==> #[trigger] depth_after_push(noff, h)[j]
            == noff[j],
{
}

/// Law: only the `pop_off` that closes the outermost section may re-enable
/// interrupts, and it does exactly when they were enabled when that
/// section began.
pub proof fn lemma_only_outermost_pop_enables(noff: Seq<usize>, intena: Seq<bool>, h: int)
    requires
        0 <= h < noff.len(),
        h < intena.len(),
    ensures
        pop_enables(noff, intena, h) <==> (noff[h] == 1 && intena[h]),
{
}

/// `push_off` applied `n` times on hart `h`.
pub open spec fn depth_after_pushes(noff: Seq<usize>, h: int, n: nat) -> Seq<usize>
    decreases n,
{
    if n == 0 {
        noff
    } else {
        depth_after_push(depth_after_pushes(noff, h, (n - 1) as nat), h)
    }
}

/// Law: `n` nested `push_off`s from depth 0 leave the hart at depth `n`,
/// so the first `n - 1` of the matching `pop_off`s find a depth above one
/// and never re-enable interrupts; only the last one may.
pub proof fn lemma_nested_sections_stay_disabled(
    noff: Seq<usize>,
    intena: Seq<bool>,
    h: int,
    n: nat,
    k: nat,
)
    requires
        0 <= h < noff.len(),
        h < intena.len(),
        noff[h] == 0,
        n < usize::MAX,
        k < n,
    ensures
        depth_after_pushes(noff, h, n)[h] == n,
        depth_after_pushes(noff, h, n).len() == noff.len(),
        !pop_enables(depth_after_pushes(noff, h, n).update(h, (n - k) as usize), intena, h)
            <== k + 1 < n,
{
    lemma_pushes_depth(noff, h, n);
}

/// `n` pushes from depth 0 reach depth `n` and touch no other hart.
proof fn lemma_pushes_depth(noff: Seq<usize>, h: int, n: nat)
    requires
        0 <= h < noff.len(),
        noff[h] == 0,
        n < usize::MAX,
    ensures
        depth_after_pushes(noff, h, n)[h] == n,
        depth_after_pushes(noff, h, n).len() == noff.len(),
    decreases n,
{
    if n > 0 {
        lemma_pushes_depth(noff, h, (n - 1) as nat);
    }
}

} // verus!
