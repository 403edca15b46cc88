//! Task control blocks, the task table, and the scheduling decisions made
//! on it: task creation, round-robin preemption on timer ticks, and the
//! per-CPU scheduler loop's choice of the next task.

use vstd::prelude::*;
use crate::context::{Context, context_with};
use crate::trap::{TrapFrame, TRAP_FRAME_SIZE, kernel_task_frame};

verus! {

/// Slots of the task table that `TaskManager::new` creates: the table of
/// the timer-driven round-robin scheduler.
pub const MAX_TASKS: usize = 2;

/// Slots of the task table that the per-CPU scheduler loops share.
pub const SCHEDULER_MAX_TASKS: usize = 16;

/// Size of each kernel stack: one page.
pub const KERNEL_STACK_SIZE: usize = 4096;

/// Task identifier.
pub type TaskId = usize;

/// Runtime state of a task slot.
#[derive(Clone, Copy, Debug, PartialEq, Eq, Structural)]
pub enum TaskState {
    /// The slot holds no task.
    Unused,
    /// The task is ready to run when the scheduler selects it.
    Runnable,
    /// The task is executing on a CPU.
    Running,
    /// The task has exited; its slot is kept for bookkeeping.
    Zombie,
}

/// A task-control block.
#[derive(Clone, Copy, Debug)]
pub struct Task {
    /// Identifier assigned at creation.
    pub pid: TaskId,
    /// Current execution state.
    pub state: TaskState,
    /// Base address of the task's kernel stack.
    pub kernel_stack: usize,
    /// Address of the trap frame to resume the task from.
    pub trap_frame: usize,
}

/// The unused slot.
pub open spec fn empty_task() -> Task {
    Task { pid: 0, state: TaskState::Unused, kernel_stack: 0, trap_frame: 0 }
}

/// The runnable task `pid` whose kernel stack starts at `kernel_stack`; its
/// trap frame sits at the top of that stack.
pub open spec fn new_task(pid: TaskId, kernel_stack: usize) -> Task {
    Task {
        pid,
        state: TaskState::Runnable,
        kernel_stack,
        trap_frame: (kernel_stack + KERNEL_STACK_SIZE - TRAP_FRAME_SIZE) as usize,
    }
}

impl Task {
    /// A task slot in the unused state.
    pub fn empty() -> (r: Self)
        ensures
            r == empty_task(),
    {
        Task { pid: 0, state: TaskState::Unused, kernel_stack: 0, trap_frame: 0 }
    }

    /// Builds the runnable task `pid` on the kernel stack at `kernel_stack`.
    /// Also returns the initial trap frame, which belongs at the task's
    /// `trap_frame` address: resuming from it enters `entry` with the stack
    /// pointer at the top of the stack.
    pub fn new(
        pid: TaskId,
        kernel_stack: usize,
        entry: usize,
        gp: usize,
        tp: usize,
        initial_sstatus: usize,
    ) -> (r: (Self, TrapFrame))
        requires
            kernel_stack + KERNEL_STACK_SIZE <= usize::MAX,
        ensures
            r.0 == new_task(pid, kernel_stack),
            r.1 == kernel_task_frame(
                entry,
                (kernel_stack + KERNEL_STACK_SIZE) as usize,
                gp,
                tp,
                initial_sstatus,
            ),
    {
        let stack_top: usize = kernel_stack + KERNEL_STACK_SIZE;
        let frame_addr: usize = stack_top - TRAP_FRAME_SIZE;
        let frame = TrapFrame::for_kernel_task(entry, stack_top, gp, tp, initial_sstatus);
        (Task { pid, state: TaskState::Runnable, kernel_stack, trap_frame: frame_addr }, frame)
    }
}

/// Whether slot `t` holds a task (in any state but `Unused`).
pub open spec fn in_use(t: Task) -> bool {
    t.state != TaskState::Unused
}

/// The first index of `s` whose task satisfies `p`.
pub open spec fn first_index(s: Seq<Task>, p: spec_fn(Task) -> bool) -> Option<int>
    decreases s.len(),
{
    if s.len() == 0 {
        None
    } else {
        match first_index(s.drop_last(), p) {
            Some(i) => Some(i),
            None => if p(s.last()) {
                Some(s.len() - 1)
            } else {
                None
            },
        }
    }
}

/// `first_index` finds the least index that satisfies `p`, if any does.
pub proof fn lemma_first_index(s: Seq<Task>, p: spec_fn(Task) -> bool)
    ensures
        match first_index(s, p) {
            Some(k) => 0 <= k < s.len() && p(s[k]) && forall|j: int| 0 <= j < k ==> !p(#[trigger] s[j]),
            None => forall|j: int| 0 <= j < s.len() ==> !p(#[trigger] s[j]),
        },
    decreases s.len(),
{
    if s.len() > 0 {
        lemma_first_index(s.drop_last(), p);
        assert forall|j: int| 0 <= j < s.len() - 1 implies s.drop_last()[j] == s[j] by {}
    }
}

/// `first_index` is the least index that satisfies `p`.
pub proof fn lemma_first_index_is(s: Seq<Task>, p: spec_fn(Task) -> bool, k: int)
    requires
        0 <= k < s.len(),
        p(s[k]),
        forall|j: int| 0 <= j < k ==> !p(#[trigger] s[j]),
    ensures
        first_index(s, p) == Some(k),
{
    lemma_first_index(s, p);
}

/// Holds of a slot in use with identifier `pid`.
pub open spec fn used_with_pid(pid: TaskId) -> spec_fn(Task) -> bool {
    |t: Task| in_use(t) && t.pid == pid
}

/// Holds of a slot with identifier `pid`, whatever its state.
pub open spec fn has_pid(pid: TaskId) -> spec_fn(Task) -> bool {
    |t: Task| t.pid == pid
}

/// Holds of an unused slot.
pub open spec fn unused() -> spec_fn(Task) -> bool {
    |t: Task| !in_use(t)
}

/// Holds of a runnable task.
pub open spec fn runnable() -> spec_fn(Task) -> bool {
    |t: Task| t.state == TaskState::Runnable
}

/// The slot `off` places after `current`, wrapping around a table of `n`
/// slots.
pub open spec fn rr_slot(current: int, off: int, n: int) -> int {
    (current + off) % n
}

/// Within a table of `n` slots, the slot `off` places after `current`
/// (with `off` below `n`) is found by one wrap-around at most.
pub proof fn lemma_rr_slot(current: int, off: int, n: int)
    requires
        0 <= current < n,
        0 <= off < n,
    ensures
        rr_slot(current, off, n) == if current + off < n {
            current + off
        } else {
            current + off - n
        },
{
    if current + off < n {
        vstd::arithmetic::div_mod::lemma_small_mod((current + off) as nat, n as nat);
    } else {
        vstd::arithmetic::div_mod::lemma_small_mod((current + off - n) as nat, n as nat);
        vstd::arithmetic::div_mod::lemma_mod_add_multiples_vanish(current + off - n, n);
    }
}

/// The nearest runnable slot after `current` in round-robin order, looking
/// at the slots `current + off`, `current + off + 1`, ... up to (not
/// including) `current` itself.
pub open spec fn runnable_from(tasks: Seq<Task>, current: int, off: int) -> Option<int>
    decreases tasks.len() - off,
{
    if off >= tasks.len() || off < 1 {
        None
    } else {
        let i = rr_slot(current, off, tasks.len() as int);
        if tasks[i].state == TaskState::Runnable {
            Some(i)
        } else {
            runnable_from(tasks, current, off + 1)
        }
    }
}

/// The next runnable slot after `current`, other slots only.
pub open spec fn next_runnable(tasks: Seq<Task>, current: int) -> Option<int> {
    runnable_from(tasks, current, 1)
}


/// A well-formed task table: at least one slot (and few enough that two
/// slot indices add up without overflow), unused slots blank, and the
/// tasks in use carrying distinct identifiers in `1..next_pid`.
pub open spec fn table_ok(tasks: Seq<Task>, next_pid: TaskId) -> bool {
    &&& 1 <= tasks.len()
    &&& 2 * tasks.len() <= usize::MAX
    &&& next_pid >= 1
    &&& forall|i: int| 0 <= i < tasks.len() && !in_use(#[trigger] tasks[i]) ==> tasks[i].pid == 0
    &&& forall|i: int| 0 <= i < tasks.len() && in_use(#[trigger] tasks[i]) ==> 1 <= tasks[i].pid < next_pid
    &&& forall|i: int, j: int|
        0 <= i < tasks.len() && 0 <= j < tasks.len() && i != j && in_use(#[trigger] tasks[i])
            && in_use(#[trigger] tasks[j]) ==> tasks[i].pid != tasks[j].pid
}

/// `t` with its state replaced by `state`.
pub open spec fn with_state(t: Task, state: TaskState) -> Task {
    Task { pid: t.pid, state, kernel_stack: t.kernel_stack, trap_frame: t.trap_frame }
}

/// `t` parked with `state` and resumable from the trap frame at `frame`.
pub open spec fn parked(t: Task, state: TaskState, frame: usize) -> Task {
    Task { pid: t.pid, state, kernel_stack: t.kernel_stack, trap_frame: frame }
}

/// What a timer tick does to the table and the current task, and which
/// trap frame is resumed. The current task is parked with the interrupted
/// frame and the nearest runnable task after it, in slot order, runs next;
/// when there is none, the current task keeps running. Without a current
/// task in the table nothing changes.
pub open spec fn tick_outcome(tasks: Seq<Task>, current: Option<TaskId>, frame: usize) -> (
    Seq<Task>,
    Option<TaskId>,
    usize,
) {
    match current {
        None => (tasks, current, frame),
        Some(pid) => match first_index(tasks, used_with_pid(pid)) {
            None => (tasks, current, frame),
            Some(ci) => match next_runnable(tasks, ci) {
                None => (tasks.update(ci, parked(tasks[ci], TaskState::Running, frame)), current, frame),
                Some(ni) => (
                    tasks.update(ci, parked(tasks[ci], TaskState::Runnable, frame)).update(
                        ni,
                        with_state(tasks[ni], TaskState::Running),
                    ),
                    Some(tasks[ni].pid),
                    tasks[ni].trap_frame,
                ),
            },
        },
    }
}

/// Global scheduler state: the task table, the next identifier to hand
/// out, and the task currently running on the CPU.
pub struct TaskManager {
    tasks: Vec<Task>,
    next_pid: TaskId,
    current: Option<TaskId>,
}

impl TaskManager {
    /// The task table.
    pub closed spec fn tasks(&self) -> Seq<Task> {
        self.tasks@
    }

    /// The identifier the next created task receives.
    pub closed spec fn next_pid(&self) -> TaskId {
        self.next_pid
    }

    /// The task scheduled on the CPU, if any.
    pub closed spec fn current(&self) -> Option<TaskId> {
        self.current
    }

    /// The table is well formed.
    pub open spec fn wf(&self) -> bool {
        table_ok(self.tasks(), self.next_pid())
    }

    /// An empty task manager with `MAX_TASKS` slots.
    pub fn new() -> (r: Self)
        ensures
            r.wf(),
            r.tasks() == Seq::new(MAX_TASKS as nat, |i: int| empty_task()),
            r.next_pid() == 1,
            r.current() is None,
    {
        TaskManager::with_capacity(MAX_TASKS)
    }

    /// An empty task manager with `capacity` slots.
    pub fn with_capacity(capacity: usize) -> (r: Self)
        requires
            1 <= capacity,
            2 * capacity <= usize::MAX,
        ensures
            r.wf(),
            r.tasks() == Seq::new(capacity as nat, |i: int| empty_task()),
            r.next_pid() == 1,
            r.current() is None,
    {
        let mut tasks: Vec<Task> = Vec::new();
        let mut i: usize = 0;
        while i < capacity
            invariant
                i <= capacity,
                tasks@ == Seq::new(i as nat, |j: int| empty_task()),
            decreases capacity - i,
        {
            tasks.push(Task::empty());
            i = i + 1;
            assert(tasks@ =~= Seq::new(i as nat, |j: int| empty_task()));
        }
        TaskManager { tasks, next_pid: 1, current: None }
    }

    /// The task currently scheduled on the CPU.
    pub fn current_task(&self) -> (r: Option<TaskId>)
        ensures
            r == self.current(),
    {
        self.current
    }

    /// Creates a runnable task in the first unused slot on the kernel stack
    /// at `kernel_stack`, giving it the next identifier. Returns that
    /// identifier with the task's initial trap frame (to be stored at its
    /// `trap_frame` address), or `None` when every slot is in use.
    pub fn create_task(
        &mut self,
        kernel_stack: usize,
        entry: usize,
        gp: usize,
        tp: usize,
        initial_sstatus: usize,
    ) -> (r: Option<(TaskId, TrapFrame)>)
        requires
            old(self).wf(),
            first_index(old(self).tasks(), unused()) is Some ==> {
                &&& old(self).next_pid() < usize::MAX
                &&& kernel_stack + KERNEL_STACK_SIZE <= usize::MAX
            },
        ensures
            final(self).wf(),
            final(self).current() == old(self).current(),
            match first_index(old(self).tasks(), unused()) {
                None => {
                    &&& r is None
                    &&& final(self).tasks() == old(self).tasks()
                    &&& final(self).next_pid() == old(self).next_pid()
                },
                Some(k) => {
                    &&& r == Some(
                        (
                            old(self).next_pid(),
                            kernel_task_frame(
                                entry,
                                (kernel_stack + KERNEL_STACK_SIZE) as usize,
                                gp,
                                tp,
                                initial_sstatus,
                            ),
                        ),
                    )
                    &&& final(self).tasks() == old(self).tasks().update(
                        k,
                        new_task(old(self).next_pid(), kernel_stack),
                    )
                    &&& final(self).next_pid() == old(self).next_pid() + 1
                },
            },
    {
        proof {
            lemma_first_index(self.tasks@, unused());
        }
        let mut i: usize = 0;
        while i < self.tasks.len()
            invariant
                self.wf(),
                *self == *old(self),
                first_index(old(self).tasks(), unused()) is Some ==> {
                    &&& old(self).next_pid() < usize::MAX
                    &&& kernel_stack + KERNEL_STACK_SIZE <= usize::MAX
                },
                i <= self.tasks@.len(),
                forall|j: int| 0 <= j < i ==> !(#[trigger] unused()(self.tasks@[j])),
            decreases self.tasks@.len() - i,
        {
            if self.tasks[i].state == TaskState::Unused {
                proof {
                    lemma_first_index_is(self.tasks@, unused(), i as int);
                }
                let pid: TaskId = self.next_pid;
                self.next_pid = self.next_pid + 1;
                let (task, frame) = Task::new(pid, kernel_stack, entry, gp, tp, initial_sstatus);
                self.tasks.set(i, task);
                proof {
                    let t = self.tasks@;
                    let o = old(self).tasks();
                    assert forall|a: int, b: int|
                        0 <= a < t.len() && 0 <= b < t.len() && a != b && in_use(#[trigger] t[a])
                            && in_use(#[trigger] t[b]) implies t[a].pid != t[b].pid by {
                        if a != i && b != i {
                            assert(in_use(o[a]) && in_use(o[b]));
                        }
                        if a == i {
                            assert(in_use(o[b]));
                        }
                        if b == i {
                            assert(in_use(o[a]));
                        }
                    }
                    assert forall|a: int| 0 <= a < t.len() && in_use(#[trigger] t[a]) implies 1
                        <= t[a].pid < self.next_pid by {
                        if a != i {
                            assert(in_use(o[a]));
                        }
                    }
                    assert forall|a: int| 0 <= a < t.len() && !in_use(#[trigger] t[a]) implies t[a].pid == 0 by {
                        if a != i {
                            assert(!in_use(o[a]));
                        }
                    }
                }
                return Some((pid, frame));
            }
            i = i + 1;
        }
        None
    }

    /// The task in use with identifier `pid`.
    pub fn get(&self, pid: TaskId) -> (r: Option<&Task>)
        requires
            self.wf(),
        ensures
            match first_index(self.tasks(), used_with_pid(pid)) {
                None => r is None,
                Some(k) => r matches Some(t) && *t == self.tasks()[k],
            },
    {
        proof {
            lemma_first_index(self.tasks@, used_with_pid(pid));
        }
        match self.index_of_pid(pid) {
            Some(i) => Some(&self.tasks[i]),
            None => None,
        }
    }

    /// The table index of the task in use with identifier `pid`.
    pub fn index_of_pid(&self, pid: TaskId) -> (r: Option<usize>)
        requires
            self.wf(),
        ensures
            match first_index(self.tasks(), used_with_pid(pid)) {
                None => r is None,
                Some(k) => r == Some(k as usize),
            },
            r matches Some(i) ==> i < self.tasks().len(),
    {
        proof {
            lemma_first_index(self.tasks@, used_with_pid(pid));
        }
        let mut i: usize = 0;
        while i < self.tasks.len()
            invariant
                i <= self.tasks@.len(),
                forall|j: int| 0 <= j < i ==> !(#[trigger] used_with_pid(pid)(self.tasks@[j])),
            decreases self.tasks@.len() - i,
        {
            let t = self.tasks[i];
            if t.state != TaskState::Unused && t.pid == pid {
                proof {
                    lemma_first_index_is(self.tasks@, used_with_pid(pid), i as int);
                }
                return Some(i);
            }
            i = i + 1;
        }
        None
    }

    /// The table index of the first slot holding identifier `pid`, whatever
    /// its state.
    pub fn find_pid(&self, pid: TaskId) -> (r: Option<usize>)
        requires
            self.wf(),
        ensures
            match first_index(self.tasks(), has_pid(pid)) {
                None => r is None,
                Some(k) => r == Some(k as usize),
            },
    {
        proof {
            lemma_first_index(self.tasks@, has_pid(pid));
        }
        let mut i: usize = 0;
        while i < self.tasks.len()
            invariant
                i <= self.tasks@.len(),
                forall|j: int| 0 <= j < i ==> !(#[trigger] has_pid(pid)(self.tasks@[j])),
            decreases self.tasks@.len() - i,
        {
            if self.tasks[i].pid == pid {
                proof {
                    lemma_first_index_is(self.tasks@, has_pid(pid), i as int);
                }
                return Some(i);
            }
            i = i + 1;
        }
        None
    }

    /// The nearest runnable slot after `current_index` in round-robin
    /// order, looking only at the other slots.
    pub fn find_next_runnable_index(&self, current_index: usize) -> (r: Option<usize>)
        requires
            self.wf(),
            current_index + self.tasks().len() <= usize::MAX,
        ensures
            match next_runnable(self.tasks(), current_index as int) {
                None => r is None,
                Some(k) => r == Some(k as usize),
            },
    {
        let n: usize = self.tasks.len();
        let mut offset: usize = 1;
        while offset < n
            invariant
                1 <= offset <= n,
                self.tasks@.len() == n,
                current_index + n <= usize::MAX,
                next_runnable(self.tasks@, current_index as int) == runnable_from(
                    self.tasks@,
                    current_index as int,
                    offset as int,
                ),
            decreases n - offset,
        {
            let index: usize = (current_index + offset) % n;
            if self.tasks[index].state == TaskState::Runnable {
                return Some(index);
            }
            offset = offset + 1;
        }
        None
    }
}


/// The round-robin search from `current` never looks at `current` itself.
proof fn lemma_runnable_from_ignores_current(a: Seq<Task>, b: Seq<Task>, current: int, off: int)
    requires
        0 <= current < a.len(),
        a.len() == b.len(),
        forall|j: int| 0 <= j < a.len() && j != current ==> a[j] == b[j],
    ensures
        runnable_from(a, current, off) == runnable_from(b, current, off),
    decreases a.len() - off,
{
    if off >= 1 && off < a.len() {
        let i = rr_slot(current, off, a.len() as int);
        lemma_rr_slot(current, off, a.len() as int);
        assert(i != current);
        lemma_runnable_from_ignores_current(a, b, current, off + 1);
    }
}

/// The round-robin search from `current` only yields runnable slots.
pub proof fn lemma_runnable_from_is_runnable(tasks: Seq<Task>, current: int, off: int)
    requires
        0 <= current < tasks.len(),
    ensures
        runnable_from(tasks, current, off) matches Some(i) ==> 0 <= i < tasks.len()
            && tasks[i].state == TaskState::Runnable && i != current,
    decreases tasks.len() - off,
{
    if off >= 1 && off < tasks.len() {
        lemma_rr_slot(current, off, tasks.len() as int);
        lemma_runnable_from_is_runnable(tasks, current, off + 1);
    }
}

impl TaskManager {
    /// Handles a timer tick on the CPU: the current task is parked with the
    /// interrupted trap frame at `frame`, and the nearest runnable task after
    /// it in slot order is selected. Returns the address of the trap frame
    /// to resume.
    pub fn timer_tick(&mut self, frame: usize) -> (r: usize)
        requires
            old(self).wf(),
        ensures
            final(self).wf(),
            final(self).next_pid() == old(self).next_pid(),
            (final(self).tasks(), final(self).current(), r) == tick_outcome(
                old(self).tasks(),
                old(self).current(),
                frame,
            ),
    {
        let current_pid: TaskId = match self.current {
            Some(pid) => pid,
            None => {
                return frame;
            },
        };
        let current_index: usize = match self.index_of_pid(current_pid) {
            Some(i) => i,
            None => {
                return frame;
            },
        };
        let ghost t0 = self.tasks@;
        proof {
            lemma_first_index(t0, used_with_pid(current_pid));
        }
        let cur = self.tasks[current_index];
        let parked_cur = Task {
            pid: cur.pid,
            state: TaskState::Runnable,
            kernel_stack: cur.kernel_stack,
            trap_frame: frame,
        };
        self.tasks.set(current_index, parked_cur);
        proof {
            lemma_runnable_from_ignores_current(self.tasks@, t0, current_index as int, 1);
            lemma_runnable_from_is_runnable(t0, current_index as int, 1);
        }
        let next_index = match self.find_next_runnable_index(current_index) {
            Some(i) => i,
            None => {
                let running = Task {
                    pid: cur.pid,
                    state: TaskState::Running,
                    kernel_stack: cur.kernel_stack,
                    trap_frame: frame,
                };
                self.tasks.set(current_index, running);
                proof {
                    assert(self.tasks@ =~= t0.update(
                        current_index as int,
                        parked(t0[current_index as int], TaskState::Running, frame),
                    ));
                    self.lemma_same_pids_wf(t0);
                }
                return frame;
            },
        };
        let nxt = self.tasks[next_index];
        let running = Task {
            pid: nxt.pid,
            state: TaskState::Running,
            kernel_stack: nxt.kernel_stack,
            trap_frame: nxt.trap_frame,
        };
        self.tasks.set(next_index, running);
        self.current = Some(nxt.pid);
        proof {
            assert(self.tasks@ =~= t0.update(
                current_index as int,
                parked(t0[current_index as int], TaskState::Runnable, frame),
            ).update(next_index as int, with_state(t0[next_index as int], TaskState::Running)));
            self.lemma_same_pids_wf(t0);
        }
        nxt.trap_frame
    }

    /// A table whose slots keep their identifiers and stay in use exactly
    /// where they were stays well formed.
    proof fn lemma_same_pids_wf(&self, before: Seq<Task>)
        requires
            table_ok(before, self.next_pid),
            self.tasks@.len() == before.len(),
            forall|i: int|
                0 <= i < before.len() ==> #[trigger] self.tasks@[i].pid == before[i].pid && in_use(
                    self.tasks@[i],
                ) == in_use(before[i]),
        ensures
            self.wf(),
    {
        let t = self.tasks@;
        assert forall|a: int, b: int|
            0 <= a < t.len() && 0 <= b < t.len() && a != b && in_use(#[trigger] t[a]) && in_use(
                #[trigger] t[b],
            ) implies t[a].pid != t[b].pid by {
            assert(t[a].pid == before[a].pid && t[b].pid == before[b].pid);
            assert(in_use(before[a]) && in_use(before[b]));
        }
        assert forall|a: int| 0 <= a < t.len() && in_use(#[trigger] t[a]) implies 1 <= t[a].pid
            < self.next_pid by {
            assert(t[a].pid == before[a].pid);
            assert(in_use(before[a]));
        }
        assert forall|a: int| 0 <= a < t.len() && !in_use(#[trigger] t[a]) implies t[a].pid == 0 by {
            assert(t[a].pid == before[a].pid);
            assert(!in_use(before[a]));
        }
    }
}


/// Every running task is the current task, found in its own slot: at most
/// one task runs, and it is the one the CPU believes is current.
pub open spec fn single_running(tasks: Seq<Task>, current: Option<TaskId>) -> bool {
    forall|i: int|
        0 <= i < tasks.len() && (#[trigger] tasks[i]).state == TaskState::Running ==> {
            &&& current is Some
            &&& first_index(tasks, used_with_pid(current->0)) == Some(i)
        }
}

/// Law: a timer tick keeps the table well formed and keeps at most one
/// task running, the current one.
pub proof fn lemma_tick_single_running(
    tasks: Seq<Task>,
    current: Option<TaskId>,
    frame: usize,
    next_pid: TaskId,
)
    requires
        table_ok(tasks, next_pid),
        single_running(tasks, current),
    ensures
        table_ok(tick_outcome(tasks, current, frame).0, next_pid),
        single_running(tick_outcome(tasks, current, frame).0, tick_outcome(tasks, current, frame).1),
{
    let out = tick_outcome(tasks, current, frame);
    match current {
        None => {},
        Some(pid) => {
            lemma_first_index(tasks, used_with_pid(pid));
            match first_index(tasks, used_with_pid(pid)) {
                None => {},
                Some(ci) => {
                    lemma_runnable_from_is_runnable(tasks, ci, 1);
                    let t2 = out.0;
                    assert forall|j: int| 0 <= j < tasks.len() implies #[trigger] t2[j].pid
                        == tasks[j].pid && in_use(t2[j]) == in_use(tasks[j]) by {}
                    assert forall|a: int, b: int|
                        0 <= a < t2.len() && 0 <= b < t2.len() && a != b && in_use(#[trigger] t2[a])
                            && in_use(#[trigger] t2[b]) implies t2[a].pid != t2[b].pid by {
                        assert(t2[a].pid == tasks[a].pid && t2[b].pid == tasks[b].pid);
                        assert(in_use(tasks[a]) && in_use(tasks[b]));
                    }
                    assert forall|a: int| 0 <= a < t2.len() && in_use(#[trigger] t2[a]) implies 1
                        <= t2[a].pid < next_pid by {
                        assert(t2[a].pid == tasks[a].pid);
                        assert(in_use(tasks[a]));
                    }
                    assert forall|a: int| 0 <= a < t2.len() && !in_use(#[trigger] t2[a]) implies t2[a].pid
                        == 0 by {
                        assert(t2[a].pid == tasks[a].pid);
                        assert(!in_use(tasks[a]));
                    }
                    match next_runnable(tasks, ci) {
                        None => {
                            assert forall|j: int| 0 <= j < ci implies !(#[trigger] used_with_pid(
                                pid,
                            )(t2[j])) by {
                                assert(t2[j] == tasks[j]);
                            }
                            lemma_first_index_is(t2, used_with_pid(pid), ci);
                            assert forall|i: int|
                                0 <= i < t2.len() && (#[trigger] t2[i]).state
                                    == TaskState::Running implies {
                                &&& out.1 is Some
                                &&& first_index(t2, used_with_pid(out.1->0)) == Some(i)
                            } by {
                                if i != ci {
                                    assert(tasks[i] == t2[i]);
                                }
                            }
                        },
                        Some(ni) => {
                            let np = tasks[ni].pid;
                            assert(in_use(tasks[ni]));
                            assert forall|j: int| 0 <= j < ni implies !(#[trigger] used_with_pid(
                                np,
                            )(t2[j])) by {
                                assert(t2[j].pid == tasks[j].pid && in_use(t2[j]) == in_use(tasks[j]));
                            }
                            lemma_first_index_is(t2, used_with_pid(np), ni);
                            assert forall|i: int|
                                0 <= i < t2.len() && (#[trigger] t2[i]).state
                                    == TaskState::Running implies {
                                &&& out.1 is Some
                                &&& first_index(t2, used_with_pid(out.1->0)) == Some(i)
                            } by {
                                if i != ci && i != ni {
                                    assert(tasks[i] == t2[i]);
                                }
                            }
                        },
                    }
                },
            }
        },
    }
}

/// Law: when the slot `off` places after `current` holds a runnable task,
/// the round-robin choice is the runnable slot at the least offset `o`
/// (at most `off`); every slot at a smaller offset is not runnable.
pub proof fn lemma_tick_is_round_robin(tasks: Seq<Task>, current: int, off: int) -> (o: int)
    requires
        0 <= current < tasks.len(),
        1 <= off < tasks.len(),
        tasks[rr_slot(current, off, tasks.len() as int)].state == TaskState::Runnable,
    ensures
        1 <= o <= off,
        next_runnable(tasks, current) == Some(rr_slot(current, o, tasks.len() as int)),
        forall|p: int|
            1 <= p < o ==> tasks[#[trigger] rr_slot(current, p, tasks.len() as int)].state
                != TaskState::Runnable,
{
    lemma_runnable_from_finds(tasks, current, 1, off)
}

/// The search from offset `start` stops at the least runnable offset.
proof fn lemma_runnable_from_finds(tasks: Seq<Task>, current: int, start: int, off: int) -> (o: int)
    requires
        0 <= current < tasks.len(),
        1 <= start <= off < tasks.len(),
        tasks[rr_slot(current, off, tasks.len() as int)].state == TaskState::Runnable,
    ensures
        start <= o <= off,
        runnable_from(tasks, current, start) == Some(rr_slot(current, o, tasks.len() as int)),
        forall|p: int|
            start <= p < o ==> tasks[#[trigger] rr_slot(current, p, tasks.len() as int)].state
                != TaskState::Runnable,
    decreases off - start,
{
    if tasks[rr_slot(current, start, tasks.len() as int)].state == TaskState::Runnable {
        start
    } else {
        let o = lemma_runnable_from_finds(tasks, current, start + 1, off);
        assert forall|p: int| start <= p < o implies tasks[#[trigger] rr_slot(current, p, tasks.len() as int)].state
            != TaskState::Runnable by {
            if p > start {
            }
        }
        o
    }
}


/// What starting the scheduler prepared: the two first tasks, the trap
/// frames to store at their `trap_frame` addresses, their stacks, and the
/// context to switch into first.
pub struct SchedulerStart {
    pub pid1: TaskId,
    pub pid2: TaskId,
    pub stack1: usize,
    pub stack2: usize,
    pub frame1: TrapFrame,
    pub frame2: TrapFrame,
    pub first_context: Context,
}

/// The table after `create_task` put the task `pid` with stack `stack` into
/// the first unused slot.
pub open spec fn after_create(tasks: Seq<Task>, pid: TaskId, stack: usize) -> Seq<Task> {
    match first_index(tasks, unused()) {
        Some(k) => tasks.update(k, new_task(pid, stack)),
        None => tasks,
    }
}

/// The table after the first slot holding `pid` was marked running.
pub open spec fn after_start(tasks: Seq<Task>, pid: TaskId) -> Seq<Task> {
    match first_index(tasks, has_pid(pid)) {
        Some(k) => tasks.update(k, with_state(tasks[k], TaskState::Running)),
        None => tasks,
    }
}

/// Two distinct slots of `tasks` are unused.
pub open spec fn two_unused(tasks: Seq<Task>) -> bool {
    exists|a: int, b: int|
        0 <= a < b < tasks.len() && !in_use(#[trigger] tasks[a]) && !in_use(#[trigger] tasks[b])
}

impl TaskManager {
    /// Makes the task `pid` the current task and marks the first slot that
    /// holds `pid` running.
    pub fn start_first(&mut self, pid: TaskId)
        requires
            old(self).wf(),
            first_index(old(self).tasks(), has_pid(pid)) matches Some(k) && in_use(
                old(self).tasks()[k],
            ),
        ensures
            final(self).wf(),
            final(self).next_pid() == old(self).next_pid(),
            final(self).current() == Some(pid),
            final(self).tasks() == after_start(old(self).tasks(), pid),
    {
        proof {
            lemma_first_index(self.tasks@, has_pid(pid));
        }
        let ghost t0 = self.tasks@;
        self.current = Some(pid);
        match self.find_pid(pid) {
            Some(i) => {
                let t = self.tasks[i];
                self.tasks.set(
                    i,
                    Task {
                        pid: t.pid,
                        state: TaskState::Running,
                        kernel_stack: t.kernel_stack,
                        trap_frame: t.trap_frame,
                    },
                );
                proof {
                    assert(self.tasks@ =~= after_start(t0, pid));
                    self.lemma_same_pids_wf(t0);
                }
            },
            None => {},
        }
    }

    /// Prepares the first two kernel tasks: takes a kernel stack page for
    /// each from `kmem`, creates the tasks entering `entry1` and `entry2`,
    /// and makes the first one current and running. Returns what is needed
    /// to start executing: the identifiers, stacks and initial trap frames,
    /// and the context that enters the first task.
    pub fn prepare_scheduler(
        &mut self,
        kmem: &mut crate::mm::PhysicalMemoryAllocator,
        entry1: usize,
        entry2: usize,
        gp: usize,
        tp: usize,
        initial_sstatus: usize,
    ) -> (r: SchedulerStart)
        requires
            old(self).wf(),
            old(kmem).wf(),
            old(kmem).free_pages().len() >= 2,
            two_unused(old(self).tasks()),
            old(self).next_pid() + 2 <= usize::MAX,
        ensures
            final(self).wf(),
            final(kmem).wf(),
            final(kmem).kernel_end() == old(kmem).kernel_end(),
            final(kmem).free_pages() == old(kmem).free_pages().skip(2),
            r.stack1 == old(kmem).free_pages()[0],
            r.stack2 == old(kmem).free_pages()[1],
            r.pid1 == old(self).next_pid(),
            r.pid2 == old(self).next_pid() + 1,
            r.frame1 == kernel_task_frame(entry1, (r.stack1 + KERNEL_STACK_SIZE) as usize, gp, tp, initial_sstatus),
            r.frame2 == kernel_task_frame(entry2, (r.stack2 + KERNEL_STACK_SIZE) as usize, gp, tp, initial_sstatus),
            r.first_context == context_with(entry1, (r.stack1 + KERNEL_STACK_SIZE) as usize),
            final(self).next_pid() == old(self).next_pid() + 2,
            final(self).current() == Some(r.pid1),
            final(self).tasks() == after_start(
                after_create(after_create(old(self).tasks(), r.pid1, r.stack1), r.pid2, r.stack2),
                r.pid1,
            ),
    {
        let ghost f0 = kmem.free_pages();
        let ghost t0 = self.tasks@;
        proof {
            kmem.lemma_frames_valid();
            assert(crate::mm::is_free_frame(f0[0] as int, kmem.kernel_end() as int));
            assert(crate::mm::is_free_frame(f0[1] as int, kmem.kernel_end() as int));
        }
        let stack1 = kmem.kalloc();
        proof {
            assert(kmem.free_pages()[0] == f0[1]);
        }
        let stack2 = kmem.kalloc();
        proof {
            assert(kmem.free_pages() =~= f0.skip(2));
            lemma_first_index(t0, unused());
            let (a, b) = choose|a: int, b: int|
                0 <= a < b < t0.len() && !in_use(#[trigger] t0[a]) && !in_use(#[trigger] t0[b]);
            assert(unused()(t0[a]));
        }
        let (pid1, frame1) = self.create_task(stack1, entry1, gp, tp, initial_sstatus).unwrap();
        let ghost t1 = self.tasks@;
        proof {
            let k1 = first_index(t0, unused())->0;
            lemma_first_index(t1, unused());
            let (a, b) = choose|a: int, b: int|
                0 <= a < b < t0.len() && !in_use(#[trigger] t0[a]) && !in_use(#[trigger] t0[b]);
            if a != k1 {
                assert(t1[a] == t0[a]);
                assert(unused()(t1[a]));
            } else {
                assert(t1[b] == t0[b]);
                assert(unused()(t1[b]));
            }
        }
        let (pid2, frame2) = self.create_task(stack2, entry2, gp, tp, initial_sstatus).unwrap();
        let ghost t2 = self.tasks@;
        proof {
            let k1 = first_index(t0, unused())->0;
            let k2 = first_index(t1, unused())->0;
            assert(k1 != k2);
            assert(t2[k1] == new_task(pid1, stack1));
            assert forall|j: int| 0 <= j < k1 implies !(#[trigger] has_pid(pid1)(t2[j])) by {
                if j != k2 {
                    assert(t2[j] == t0[j]);
                    if in_use(t0[j]) {
                        assert(t0[j].pid < pid1);
                    } else {
                        assert(t0[j].pid == 0);
                    }
                }
            }
            lemma_first_index_is(t2, has_pid(pid1), k1);
        }
        self.start_first(pid1);
        let first_context = Context::new(entry1, stack1 + KERNEL_STACK_SIZE);
        SchedulerStart {
            pid1,
            pid2,
            stack1,
            stack2,
            frame1,
            frame2,
            first_context,
        }
    }

    /// Picks the first runnable task for a CPU's scheduler loop and marks it
    /// running. Returns its slot and identifier, or `None` when no task is
    /// runnable.
    pub fn claim_runnable(&mut self) -> (r: Option<(usize, TaskId)>)
        requires
            old(self).wf(),
        ensures
            final(self).wf(),
            final(self).next_pid() == old(self).next_pid(),
            final(self).current() == old(self).current(),
            match first_index(old(self).tasks(), runnable()) {
                None => r is None && final(self).tasks() == old(self).tasks(),
                Some(k) => {
                    &&& r == Some((k as usize, old(self).tasks()[k].pid))
                    &&& final(self).tasks() == old(self).tasks().update(
                        k,
                        with_state(old(self).tasks()[k], TaskState::Running),
                    )
                },
            },
    {
        proof {
            lemma_first_index(self.tasks@, runnable());
        }
        let ghost t0 = self.tasks@;
        let mut i: usize = 0;
        while i < self.tasks.len()
            invariant
                self.wf(),
                *self == *old(self),
                t0 == self.tasks@,
                i <= self.tasks@.len(),
                forall|j: int| 0 <= j < i ==> !(#[trigger] runnable()(self.tasks@[j])),
            decreases self.tasks@.len() - i,
        {
            let t = self.tasks[i];
            if t.state == TaskState::Runnable {
                proof {
                    lemma_first_index_is(self.tasks@, runnable(), i as int);
                }
                self.tasks.set(
                    i,
                    Task {
                        pid: t.pid,
                        state: TaskState::Running,
                        kernel_stack: t.kernel_stack,
                        trap_frame: t.trap_frame,
                    },
                );
                proof {
                    self.lemma_same_pids_wf(t0);
                }
                return Some((i, t.pid));
            }
            i = i + 1;
        }
        None
    }

    /// After the task in slot `index` gave the CPU back to the scheduler
    /// loop: a task still marked running becomes runnable again.
    pub fn finish_run(&mut self, index: usize)
        requires
            old(self).wf(),
            index < old(self).tasks().len(),
        ensures
            final(self).wf(),
            final(self).next_pid() == old(self).next_pid(),
            final(self).current() == old(self).current(),
            final(self).tasks() == if old(self).tasks()[index as int].state == TaskState::Running {
                old(self).tasks().update(
                    index as int,
                    with_state(old(self).tasks()[index as int], TaskState::Runnable),
                )
            } else {
                old(self).tasks()
            },
    {
        let ghost t0 = self.tasks@;
        let t = self.tasks[index];
        if t.state == TaskState::Running {
            self.tasks.set(
                index,
                Task {
                    pid: t.pid,
                    state: TaskState::Runnable,
                    kernel_stack: t.kernel_stack,
                    trap_frame: t.trap_frame,
                },
            );
            proof {
                self.lemma_same_pids_wf(t0);
            }
        }
    }
}

/// Maximum number of CPU cores.
pub const MAX_CPUS: usize = 8;

/// Per-CPU state: the task the core runs and the context of its scheduler
/// loop.
pub struct Cpu {
    pub current_task: Option<TaskId>,
    pub scheduler_context: Context,
}

impl Cpu {
    /// A core running no task, with a zero scheduler context.
    pub fn new() -> (r: Self)
        ensures
            r.current_task is None,
            r.scheduler_context == context_with(0, 0),
    {
        Cpu { current_task: None, scheduler_context: Context::zero() }
    }

    /// Takes the task the core runs, leaving it running none (the core
    /// yields back to its scheduler loop).
    pub fn take_current(&mut self) -> (r: Option<TaskId>)
        ensures
            r == old(self).current_task,
            final(self).current_task is None,
            final(self).scheduler_context == old(self).scheduler_context,
    {
        let pid = self.current_task;
        self.current_task = None;
        pid
    }
}


impl TaskManager {
    /// The task in slot `index`.
    pub fn task_at(&self, index: usize) -> (r: Task)
        requires
            self.wf(),
            index < self.tasks().len(),
        ensures
            r == self.tasks()[index as int],
    {
        self.tasks[index]
    }
}


/// Law: two scheduler passes with no `finish_run` between them never
/// claim the same task: the first claim marks its task running, so the
/// second finds a different slot, holding a different process.
pub proof fn lemma_claims_exclusive(t0: Seq<Task>, next_pid: TaskId, k1: int, k2: int)
    requires
        table_ok(t0, next_pid),
        first_index(t0, runnable()) == Some(k1),
        first_index(t0.update(k1, with_state(t0[k1], TaskState::Running)), runnable()) == Some(
            k2,
        ),
    ensures
        k1 != k2,
        t0[k1].pid != t0.update(k1, with_state(t0[k1], TaskState::Running))[k2].pid,
{
    let t1 = t0.update(k1, with_state(t0[k1], TaskState::Running));
    lemma_first_index(t0, runnable());
    lemma_first_index(t1, runnable());
    assert(runnable()(t1[k2]));
    assert(k1 != k2);
    assert(t1[k2] == t0[k2]);
    assert(in_use(t0[k1]) && in_use(t0[k2]));
}


/// What each hart's scheduler loop is running agrees with the table: a
/// hart that runs `p` finds `p` in use and running in the table, and no two
/// harts run the same task.
pub open spec fn harts_ok(tasks: Seq<Task>, running_on: Seq<Option<TaskId>>) -> bool {
    &&& forall|h: int|
        0 <= h < running_on.len() && (#[trigger] running_on[h]) is Some ==> {
            &&& first_index(tasks, used_with_pid(running_on[h]->0)) matches Some(j)
            &&& tasks[j].state == TaskState::Running
        }
    &&& forall|h1: int, h2: int|
        0 <= h1 < running_on.len() && 0 <= h2 < running_on.len() && h1 != h2 && (
        #[trigger] running_on[h1]) is Some ==> running_on[h1] != #[trigger] running_on[h2]
}

/// Law: a hart that is running nothing and claims a task keeps the harts
/// exclusive: the task it now runs is running on no other hart.
pub proof fn lemma_claim_keeps_harts_exclusive(
    t0: Seq<Task>,
    next_pid: TaskId,
    running_on: Seq<Option<TaskId>>,
    h: int,
    k: int,
)
    requires
        table_ok(t0, next_pid),
        harts_ok(t0, running_on),
        0 <= h < running_on.len(),
        running_on[h] is None,
        first_index(t0, runnable()) == Some(k),
    ensures
        harts_ok(
            t0.update(k, with_state(t0[k], TaskState::Running)),
            running_on.update(h, Some(t0[k].pid)),
        ),
{
    let t1 = t0.update(k, with_state(t0[k], TaskState::Running));
    let r1 = running_on.update(h, Some(t0[k].pid));
    let p = t0[k].pid;
    lemma_first_index(t0, runnable());
    assert(in_use(t0[k]));
    assert forall|g: int| 0 <= g < r1.len() && (#[trigger] r1[g]) is Some implies {
        &&& first_index(t1, used_with_pid(r1[g]->0)) matches Some(j)
        &&& t1[j].state == TaskState::Running
    } by {
        let q = r1[g]->0;
        lemma_first_index(t0, used_with_pid(q));
        if g == h {
            assert forall|j: int| 0 <= j < k implies !(#[trigger] used_with_pid(p)(t1[j])) by {
                assert(t1[j] == t0[j]);
            }
            lemma_first_index_is(t1, used_with_pid(p), k);
        } else {
            let j = first_index(t0, used_with_pid(q))->0;
            assert(t0[j].state == TaskState::Running);
            assert(j != k);
            assert forall|i: int| 0 <= i < j implies !(#[trigger] used_with_pid(q)(t1[i])) by {
                if i != k {
                    assert(t1[i] == t0[i]);
                } else {
                    assert(!used_with_pid(q)(t0[i]));
                }
            }
            lemma_first_index_is(t1, used_with_pid(q), j);
        }
    }
    assert forall|h1: int, h2: int|
        0 <= h1 < r1.len() && 0 <= h2 < r1.len() && h1 != h2 && (#[trigger] r1[h1]) is Some
            implies r1[h1] != #[trigger] r1[h2] by {
        if h1 == h || h2 == h {
            let g = if h1 == h {
                h2
            } else {
                h1
            };
            if r1[g] is Some {
                let q = r1[g]->0;
                lemma_first_index(t0, used_with_pid(q));
                let j = first_index(t0, used_with_pid(q))->0;
                assert(t0[j].state == TaskState::Running);
                if q == p {
                    assert(j != k);
                }
            }
        }
    }
}

/// Law: a hart that stops running its task, whose slot goes back to
/// runnable, keeps the harts exclusive.
pub proof fn lemma_finish_keeps_harts_exclusive(
    t0: Seq<Task>,
    next_pid: TaskId,
    running_on: Seq<Option<TaskId>>,
    h: int,
    k: int,
)
    requires
        table_ok(t0, next_pid),
        harts_ok(t0, running_on),
        0 <= h < running_on.len(),
        running_on[h] is Some,
        first_index(t0, used_with_pid(running_on[h]->0)) == Some(k),
    ensures
        harts_ok(
            t0.update(k, with_state(t0[k], TaskState::Runnable)),
            running_on.update(h, None),
        ),
{
    let t1 = t0.update(k, with_state(t0[k], TaskState::Runnable));
    let r1 = running_on.update(h, None);
    let p = running_on[h]->0;
    lemma_first_index(t0, used_with_pid(p));
    assert forall|g: int| 0 <= g < r1.len() && (#[trigger] r1[g]) is Some implies {
        &&& first_index(t1, used_with_pid(r1[g]->0)) matches Some(j)
        &&& t1[j].state == TaskState::Running
    } by {
        let q = r1[g]->0;
        assert(g != h);
        assert(running_on[g] == r1[g]);
        assert(running_on[g] != running_on[h]);
        lemma_first_index(t0, used_with_pid(q));
        let j = first_index(t0, used_with_pid(q))->0;
        assert(j != k);
        assert forall|i: int| 0 <= i < j implies !(#[trigger] used_with_pid(q)(t1[i])) by {
            if i != k {
                assert(t1[i] == t0[i]);
            }
        }
        lemma_first_index_is(t1, used_with_pid(q), j);
    }
    assert forall|h1: int, h2: int|
        0 <= h1 < r1.len() && 0 <= h2 < r1.len() && h1 != h2 && (#[trigger] r1[h1]) is Some
            implies r1[h1] != #[trigger] r1[h2] by {
        assert(running_on[h1] != running_on[h2]);
    }
}

} // verus!
