//! The task scheduler: who runs next, and what the processor must be told when it switches.
//!
//! Runnable tasks take turns. A task whose budget is used up is passed over until it is
//! replenished. A cooperative yield and the timer tick make the same decision; whoever drives the
//! scheduler performs the switch that it is handed.

use crate::cap::sched::Budget;
use crate::kernel::arch::AddressSpace;
use vstd::prelude::*;

verus! {

/// The size of a page.
pub const PAGE: u64 = 4096;

/// The usable stack of a task.
pub const STACK_BYTES: u64 = 16384;

/// The order of the block that a task's stack lies in: the stack at its top, and an unmapped guard
/// page below.
pub const GUARDED_STACK_ORDER: u8 = 3;

/// The size of that block.
pub const BLOCK_BYTES: u64 = 32768;

/// The number of frames in that block.
pub const KERNEL_STACK_FRAMES: u64 = 8;

/// What a task can be.
#[derive(Clone, Copy, PartialEq, Eq, Structural, Debug)]
pub enum State {
    /// It may run, if it has budget.
    Runnable,
    /// It never runs again; its stack and tables are still held.
    Finished,
    /// It holds nothing any more.
    Reaped,
}

/// A task, as far as scheduling goes.
#[derive(Clone, Copy, PartialEq, Eq, Structural, Debug)]
pub struct Task {
    /// The physical base of its stack block; the first task runs on the boot stack.
    pub stack_phys: Option<u64>,
    /// Its CPU-time budget.
    pub budget: Budget,
    /// What it is.
    pub state: State,
    /// The process that it runs.
    pub proc_id: Option<usize>,
    /// Its isolation domain.
    pub domain: Option<u64>,
    /// Its address space.
    pub space: AddressSpace,
}

impl Task {
    /// The task can be given the processor.
    pub open spec fn ready(self) -> bool {
        self.state == State::Runnable && self.budget.available() > 0
    }

    /// Can the task be given the processor?
    fn is_ready(&self) -> (b: bool)
        ensures
            b == self.ready(),
    {
        self.state == State::Runnable && !self.budget.is_depleted()
    }
}

/// All tasks, and which of them runs.
pub struct Scheduler {
    tasks: Vec<Task>,
    current: usize,
}

/// The state of a [`Scheduler`].
#[verifier::ext_equal]
pub struct SchedulerView {
    pub tasks: Seq<Task>,
    pub current: int,
}

/// A switch to perform: from whom to whom, and what the new task runs with.
#[derive(Clone, Copy, PartialEq, Eq, Structural, Debug)]
pub struct Switch {
    /// The task that stops.
    pub from: usize,
    /// The task that goes on.
    pub to: usize,
    /// The top of its kernel stack; `None` for the boot stack.
    pub kernel_stack: Option<u64>,
    /// Its isolation domain.
    pub domain: Option<u64>,
    /// Its address space.
    pub space: AddressSpace,
}

/// What a reaped task held.
#[derive(Clone, Copy, PartialEq, Eq, Structural, Debug)]
pub struct ReapedTask {
    /// Its stack block.
    pub block: Option<u64>,
    /// Its address space.
    pub space: AddressSpace,
}

impl View for Scheduler {
    type V = SchedulerView;

    closed spec fn view(&self) -> SchedulerView {
        SchedulerView { tasks: self.tasks@, current: self.current as int }
    }
}

impl SchedulerView {
    /// One of the tasks runs.
    pub open spec fn wf(self) -> bool {
        0 <= self.current < self.tasks.len()
    }

    /// The task `step` places after the running one, in turn.
    pub open spec fn turn(self, step: int) -> int {
        (self.current + step) % (self.tasks.len() as int)
    }

    /// The first ready task from `step` places after the running one on, in turn. The turn ends
    /// before it comes back to the running task.
    pub open spec fn next_ready(self, step: int) -> Option<int>
        decreases self.tasks.len() - step,
    {
        if step >= self.tasks.len() {
            None
        } else if self.tasks[self.turn(step)].ready() {
            Some(self.turn(step))
        } else {
            self.next_ready(step + 1)
        }
    }

    /// The number of ready tasks among the first `n`, without `who`.
    pub open spec fn ready_besides(self, who: int, n: int) -> int
        decreases n,
    {
        if n <= 0 {
            0
        } else {
            self.ready_besides(who, n - 1) + if n - 1 != who && self.tasks[n - 1].ready() {
                1int
            } else {
                0
            }
        }
    }

    /// The switch to task `to`.
    pub open spec fn switch_to(self, to: int, hhdm: u64) -> Switch {
        Switch {
            from: self.current as usize,
            to: to as usize,
            kernel_stack: match self.tasks[to].stack_phys {
                Some(block) => Some((block + hhdm + BLOCK_BYTES) as u64),
                None => None,
            },
            domain: self.tasks[to].domain,
            space: self.tasks[to].space,
        }
    }

    /// Task `i` with another state.
    pub open spec fn with_task(self, i: int, t: Task) -> SchedulerView {
        SchedulerView { tasks: self.tasks.update(i, t), ..self }
    }

    /// Every stack block lies in the direct map.
    pub open spec fn stacks_fit(self, hhdm: u64) -> bool {
        forall|i: int|
            0 <= i < self.tasks.len() ==> match (#[trigger] self.tasks[i]).stack_phys {
                Some(block) => block + hhdm + BLOCK_BYTES <= u64::MAX,
                None => true,
            }
    }

    /// The last finished task of process `proc_id` among the first `n`.
    pub open spec fn last_finished(self, proc_id: usize, n: int) -> Option<int>
        decreases n,
    {
        if n <= 0 {
            None
        } else if self.tasks[n - 1].proc_id == Some(proc_id) && self.tasks[n - 1].state
            == State::Finished {
            Some(n - 1)
        } else {
            self.last_finished(proc_id, n - 1)
        }
    }
}

impl Scheduler {
    /// One of the tasks runs.
    pub open spec fn wf(&self) -> bool {
        self@.wf()
    }

    /// The next ready task in turn after the running one; `None` if no task but the running one
    /// is ready.
    pub fn pick_next(&self) -> (r: Option<usize>)
        requires
            self.wf(),
        ensures
            match r {
                Some(i) => {
                    &&& self@.next_ready(1) == Some(i as int)
                    &&& i < self@.tasks.len()
                    &&& i != self@.current
                    &&& self@.tasks[i as int].ready()
                },
                None => {
                    &&& self@.next_ready(1) is None
                    &&& forall|i: int|
                        0 <= i < self@.tasks.len() && i != self@.current ==> !(
                        #[trigger] self@.tasks[i]).ready()
                },
            },
    {
        let n: usize = self.tasks.len();
        let mut step: usize = 1;
        let mut i: usize = self.current;
        proof {
            lemma_turn_step(self@, 0);
        }
        while step < n
            invariant
                1 <= step,
                step <= n,
                n == self@.tasks.len(),
                n == self.tasks@.len(),
                self.wf(),
                i < n,
                i == self@.turn(step - 1),
                self@.next_ready(1) == self@.next_ready(step as int),
            decreases n - step,
        {
            proof {
                lemma_turn_step(self@, step - 1);
                lemma_turn_leaves(self@, step as int);
            }
            i = if i + 1 == n {
                0
            } else {
                i + 1
            };
            if self.tasks[i].is_ready() {
                return Some(i);
            }
            step = step + 1;
        }
        proof {
            lemma_nobody_else(self@);
        }
        None
    }

    /// The number of ready tasks other than `who`.
    pub fn runnable_besides(&self, who: usize) -> (n: usize)
        ensures
            n == self@.ready_besides(who as int, self@.tasks.len() as int),
    {
        let mut n: usize = 0;
        let mut i: usize = 0;
        while i < self.tasks.len()
            invariant
                i <= self@.tasks.len(),
                self@.tasks == self.tasks@,
                n <= i,
                n == self@.ready_besides(who as int, i as int),
            decreases self@.tasks.len() - i,
        {
            if i != who && self.tasks[i].is_ready() {
                n = n + 1;
            }
            i = i + 1;
        }
        n
    }
}

proof fn lemma_turn_step(v: SchedulerView, step: int)
    requires
        v.wf(),
        0 <= step,
    ensures
        0 <= v.turn(step) < v.tasks.len(),
        v.turn(0) == v.current,
        v.turn(step + 1) == (if v.turn(step) + 1 == v.tasks.len() {
            0
        } else {
            v.turn(step) + 1
        }),
{
    let n = v.tasks.len() as int;
    let a = v.current + step;
    let q = a / n;
    let r = a % n;
    vstd::arithmetic::div_mod::lemma_fundamental_div_mod(a, n);
    vstd::arithmetic::div_mod::lemma_small_mod(v.current as nat, n as nat);
    if r + 1 < n {
        assert(a + 1 == n * q + (r + 1));
        vstd::arithmetic::div_mod::lemma_fundamental_div_mod_converse(a + 1, n, q, r + 1);
    } else {
        assert(a + 1 == n * (q + 1) + 0) by (nonlinear_arith)
            requires
                a == n * q + r,
                r + 1 == n,
        ;
        vstd::arithmetic::div_mod::lemma_fundamental_div_mod_converse(a + 1, n, q + 1, 0);
    }
}

/// The turn does not come back to the running task before it has passed all others.
proof fn lemma_turn_leaves(v: SchedulerView, step: int)
    requires
        v.wf(),
        1 <= step < v.tasks.len(),
    ensures
        v.turn(step) != v.current,
        v.turn(step) == (if v.current + step < v.tasks.len() {
            v.current + step
        } else {
            v.current + step - v.tasks.len()
        }),
{
    let n = v.tasks.len() as int;
    if v.current + step < n {
        vstd::arithmetic::div_mod::lemma_small_mod((v.current + step) as nat, n as nat);
    } else {
        vstd::arithmetic::div_mod::lemma_fundamental_div_mod_converse(
            v.current + step,
            n,
            1,
            v.current + step - n,
        );
    }
}

/// Where nobody is next, nobody but the running task is ready: each of them has its turn.
proof fn lemma_nobody_else(v: SchedulerView)
    requires
        v.wf(),
        v.next_ready(1) is None,
    ensures
        forall|i: int|
            0 <= i < v.tasks.len() && i != v.current ==> !(#[trigger] v.tasks[i]).ready(),
{
    law_next_is_ready_and_nearest(v, 1);
    assert forall|i: int| 0 <= i < v.tasks.len() && i != v.current implies !(
    #[trigger] v.tasks[i]).ready() by {
        let step = if i > v.current {
            i - v.current
        } else {
            i - v.current + v.tasks.len()
        };
        lemma_turn_leaves(v, step);
        assert(!v.tasks[v.turn(step)].ready());
    }
}

/// The scheduler with the running boot context as its only task. That task never lacks budget.
pub fn bootstrap(kernel_space: AddressSpace) -> (s: Scheduler)
    ensures
        s.wf(),
        s@.current == 0,
        s@.tasks == seq![
            Task {
                stack_phys: None,
                budget: Budget { capacity: u32::MAX, consumed: 0, period: u32::MAX },
                state: State::Runnable,
                proc_id: None,
                domain: None,
                space: kernel_space,
            },
        ],
{
    let idle = Task {
        stack_phys: None,
        budget: Budget::new(u32::MAX, u32::MAX),
        state: State::Runnable,
        proc_id: None,
        domain: None,
        space: kernel_space,
    };
    let mut tasks: Vec<Task> = Vec::new();
    tasks.push(idle);
    let s = Scheduler { tasks, current: 0 };
    assert(s@.tasks =~= seq![idle]);
    s
}

/// The physical address of the guard page of a stack block.
pub fn guard_phys(block: u64) -> (g: u64)
    requires
        block + BLOCK_BYTES <= u64::MAX,
    ensures
        g == block + (BLOCK_BYTES - STACK_BYTES) - PAGE,
        block <= g,
        g + PAGE + STACK_BYTES == block + BLOCK_BYTES,
{
    let stack_base: u64 = block + (BLOCK_BYTES - STACK_BYTES);
    stack_base - PAGE
}

/// Add a kernel task whose stack block is at `block`. It shares the kernel's address space.
pub fn spawn(s: &mut Scheduler, block: u64, budget: Budget, kernel_space: AddressSpace) -> (i:
    usize)
    requires
        old(s).wf(),
    ensures
        final(s).wf(),
        i == old(s)@.tasks.len(),
        final(s)@ == (SchedulerView {
            tasks: old(s)@.tasks.push(
                Task {
                    stack_phys: Some(block),
                    budget,
                    state: State::Runnable,
                    proc_id: None,
                    domain: None,
                    space: kernel_space,
                },
            ),
            ..old(s)@
        }),
{
    spawn_inner(s, block, budget, None, None, kernel_space)
}

/// Add a task that runs process `proc_id`, in its domain and address space.
pub fn spawn_proc(
    s: &mut Scheduler,
    block: u64,
    budget: Budget,
    proc_id: usize,
    domain: u64,
    space: AddressSpace,
) -> (i: usize)
    requires
        old(s).wf(),
    ensures
        final(s).wf(),
        i == old(s)@.tasks.len(),
        final(s)@ == (SchedulerView {
            tasks: old(s)@.tasks.push(
                Task {
                    stack_phys: Some(block),
                    budget,
                    state: State::Runnable,
                    proc_id: Some(proc_id),
                    domain: Some(domain),
                    space,
                },
            ),
            ..old(s)@
        }),
{
    spawn_inner(s, block, budget, Some(proc_id), Some(domain), space)
}

fn spawn_inner(
    s: &mut Scheduler,
    block: u64,
    budget: Budget,
    proc_id: Option<usize>,
    domain: Option<u64>,
    space: AddressSpace,
) -> (i: usize)
    requires
        old(s).wf(),
    ensures
        final(s).wf(),
        i == old(s)@.tasks.len(),
        final(s)@ == (SchedulerView {
            tasks: old(s)@.tasks.push(
                Task {
                    stack_phys: Some(block),
                    budget,
                    state: State::Runnable,
                    proc_id,
                    domain,
                    space,
                },
            ),
            ..old(s)@
        }),
{
    let i: usize = s.tasks.len();
    s.tasks.push(
        Task {
            stack_phys: Some(block),
            budget,
            state: State::Runnable,
            proc_id,
            domain,
            space,
        },
    );
    i
}

/// The process that the running task runs.
#[must_use]
pub fn current_proc_id(s: &Scheduler) -> (p: Option<usize>)
    requires
        s.wf(),
    ensures
        p == s@.tasks[s@.current].proc_id,
{
    s.tasks[s.current].proc_id
}

/// The top of task `i`'s kernel stack, in the direct map.
pub fn kernel_stack_top(s: &Scheduler, i: usize, hhdm: u64) -> (top: Option<u64>)
    requires
        i < s@.tasks.len(),
        s@.stacks_fit(hhdm),
    ensures
        top == s@.switch_to(i as int, hhdm).kernel_stack,
{
    assert(s@.tasks[i as int] == s.tasks@[i as int]);
    match s.tasks[i].stack_phys {
        Some(block) => Some(block + hhdm + BLOCK_BYTES),
        None => None,
    }
}

/// Hand the processor to the next ready task in turn. `None` if no task but the running one is
/// ready.
pub fn schedule(s: &mut Scheduler, hhdm: u64) -> (r: Option<Switch>)
    requires
        old(s).wf(),
        old(s)@.stacks_fit(hhdm),
    ensures
        final(s).wf(),
        match old(s)@.next_ready(1) {
            Some(next) => {
                &&& next != old(s)@.current
                &&& r == Some(old(s)@.switch_to(next, hhdm))
                &&& final(s)@ == (SchedulerView { current: next, ..old(s)@ })
            },
            None => r is None && final(s)@ == old(s)@,
        },
{
    match s.pick_next() {
        Some(next) => Some(hand_over(s, next, hhdm)),
        None => None,
    }
}

fn hand_over(s: &mut Scheduler, next: usize, hhdm: u64) -> (r: Switch)
    requires
        old(s).wf(),
        next < old(s)@.tasks.len(),
        old(s)@.stacks_fit(hhdm),
    ensures
        final(s).wf(),
        r == old(s)@.switch_to(next as int, hhdm),
        final(s)@ == (SchedulerView { current: next as int, ..old(s)@ }),
{
    let from: usize = s.current;
    let kernel_stack = kernel_stack_top(s, next, hhdm);
    s.current = next;
    let t = s.tasks[next];
    Switch { from, to: next, kernel_stack, domain: t.domain, space: t.space }
}

/// Yield the processor.
pub fn yield_now(s: &mut Scheduler, hhdm: u64) -> (r: Option<Switch>)
    requires
        old(s).wf(),
        old(s)@.stacks_fit(hhdm),
    ensures
        final(s).wf(),
        match old(s)@.next_ready(1) {
            Some(next) => {
                &&& next != old(s)@.current
                &&& r == Some(old(s)@.switch_to(next, hhdm))
                &&& final(s)@ == (SchedulerView { current: next, ..old(s)@ })
            },
            None => r is None && final(s)@ == old(s)@,
        },
{
    schedule(s, hhdm)
}

/// Take the processor from the running task, from the timer interrupt.
pub fn preempt(s: &mut Scheduler, hhdm: u64) -> (r: Option<Switch>)
    requires
        old(s).wf(),
        old(s)@.stacks_fit(hhdm),
    ensures
        final(s).wf(),
        match old(s)@.next_ready(1) {
            Some(next) => {
                &&& next != old(s)@.current
                &&& r == Some(old(s)@.switch_to(next, hhdm))
                &&& final(s)@ == (SchedulerView { current: next, ..old(s)@ })
            },
            None => r is None && final(s)@ == old(s)@,
        },
{
    schedule(s, hhdm)
}

/// Retire the running task for good, and hand the processor to the next ready one. `None` if no
/// task is ready: wait for an interrupt, and call [`leave`].
pub fn exit_current(s: &mut Scheduler, hhdm: u64) -> (r: Option<Switch>)
    requires
        old(s).wf(),
        old(s)@.stacks_fit(hhdm),
    ensures
        final(s).wf(),
        ({
            let retired = old(s)@.with_task(
                old(s)@.current,
                Task { state: State::Finished, ..old(s)@.tasks[old(s)@.current] },
            );
            match retired.next_ready(1) {
                Some(next) => {
                    &&& next != retired.current
                    &&& r == Some(retired.switch_to(next, hhdm))
                    &&& final(s)@ == (SchedulerView { current: next, ..retired })
                },
                None => r is None && final(s)@ == retired,
            }
        }),
{
    let i: usize = s.current;
    let mut t = s.tasks[i];
    t.state = State::Finished;
    s.tasks.set(i, t);
    assert(s@ =~= old(s)@.with_task(old(s)@.current, t));
    assert(s@.stacks_fit(hhdm)) by {
        assert forall|k: int| 0 <= k < s@.tasks.len() implies match (
        #[trigger] s@.tasks[k]).stack_phys {
            Some(block) => block + hhdm + BLOCK_BYTES <= u64::MAX,
            None => true,
        } by {
            assert(s@.tasks[k].stack_phys == old(s)@.tasks[k].stack_phys);
        }
    }
    leave(s, hhdm)
}

/// Hand the processor from a finished task to the next ready one.
pub fn leave(s: &mut Scheduler, hhdm: u64) -> (r: Option<Switch>)
    requires
        old(s).wf(),
        old(s)@.stacks_fit(hhdm),
        old(s)@.tasks[old(s)@.current].state == State::Finished,
    ensures
        final(s).wf(),
        match old(s)@.next_ready(1) {
            Some(next) => {
                &&& next != old(s)@.current
                &&& r == Some(old(s)@.switch_to(next, hhdm))
                &&& final(s)@ == (SchedulerView { current: next, ..old(s)@ })
            },
            None => r is None && final(s)@ == old(s)@,
        },
{
    match s.pick_next() {
        Some(next) => Some(hand_over(s, next, hhdm)),
        None => None,
    }
}

/// Take what the last finished task of process `proc_id` held, so that it can be reclaimed. A slot
/// of the process table is reused, and the last task is the one that just died.
pub fn reap_finished(s: &mut Scheduler, proc_id: usize) -> (r: Option<ReapedTask>)
    requires
        old(s).wf(),
    ensures
        final(s).wf(),
        match old(s)@.last_finished(proc_id, old(s)@.tasks.len() as int) {
            Some(i) => {
                &&& r == Some(
                    ReapedTask {
                        block: old(s)@.tasks[i].stack_phys,
                        space: old(s)@.tasks[i].space,
                    },
                )
                &&& final(s)@ == old(s)@.with_task(
                    i,
                    Task { stack_phys: None, state: State::Reaped, ..old(s)@.tasks[i] },
                )
            },
            None => r is None && final(s)@ == old(s)@,
        },
{
    let mut n: usize = s.tasks.len();
    while n > 0
        invariant
            s.wf(),
            s@ == old(s)@,
            n <= s.tasks@.len(),
            s@.tasks == s.tasks@,
            s@.last_finished(proc_id, n as int) == s@.last_finished(
                proc_id,
                s@.tasks.len() as int,
            ),
        decreases n,
    {
        let i: usize = n - 1;
        let t = s.tasks[i];
        let matches_proc = match t.proc_id {
            Some(p) => p == proc_id,
            None => false,
        };
        if matches_proc && t.state == State::Finished {
            let mut reaped = t;
            reaped.stack_phys = None;
            reaped.state = State::Reaped;
            s.tasks.set(i, reaped);
            return Some(ReapedTask { block: t.stack_phys, space: t.space });
        }
        n = i;
    }
    None
}

/// Charge a tick to the running task. Should it be preempted?
pub fn on_tick(s: &mut Scheduler) -> (preempt: bool)
    requires
        old(s).wf(),
    ensures
        final(s).wf(),
        final(s)@.current == old(s)@.current,
        final(s)@.tasks.len() == old(s)@.tasks.len(),
        forall|i: int|
            0 <= i < old(s)@.tasks.len() && i != old(s)@.current ==> #[trigger] final(s)@.tasks[i]
                == old(s)@.tasks[i],
        ({
            let before = old(s)@.tasks[old(s)@.current];
            let after = final(s)@.tasks[old(s)@.current];
            &&& after.budget.consumed == (if before.budget.consumed < u32::MAX {
                before.budget.consumed + 1
            } else {
                u32::MAX as int
            })
            &&& after == (Task {
                budget: Budget { consumed: after.budget.consumed, ..before.budget },
                ..before
            })
        }),
        preempt == (exists|i: int|
            0 <= i < old(s)@.tasks.len() && i != old(s)@.current && (
            #[trigger] old(s)@.tasks[i]).ready()),
{
    let i: usize = s.current;
    let mut t = s.tasks[i];
    t.budget.charge(1);
    s.tasks.set(i, t);
    proof {
        lemma_ready_besides(s@, i as int, s@.tasks.len() as int);
        assert forall|k: int| 0 <= k < s@.tasks.len() && k != i implies s@.tasks[k]
            == #[trigger] old(s)@.tasks[k] by {}
    }
    s.runnable_besides(i) > 0
}

proof fn lemma_ready_besides(v: SchedulerView, who: int, n: int)
    requires
        0 <= n <= v.tasks.len(),
    ensures
        v.ready_besides(who, n) >= 0,
        v.ready_besides(who, n) > 0 <==> exists|i: int|
            0 <= i < n && i != who && (#[trigger] v.tasks[i]).ready(),
    decreases n,
{
    if n > 0 {
        lemma_ready_besides(v, who, n - 1);
        if v.ready_besides(who, n) > 0 && v.ready_besides(who, n - 1) <= 0 {
            assert(v.tasks[n - 1].ready());
        }
    }
}

/// Note that `space` is about to be used. Must its tables be loaded, that is, does it differ from
/// the one in use?
pub fn activate_space(active: &mut AddressSpace, space: AddressSpace) -> (load: bool)
    ensures
        load == (*old(active) != space),
        *final(active) == space,
{
    if space.primary != active.primary || space.secondary != active.secondary {
        *active = space;
        true
    } else {
        false
    }
}

/// Only a task that is runnable and has budget, and that does not run already, is ever handed the
/// processor, and no ready task is passed over: every task between the running one and the next in
/// turn is not ready.
pub proof fn law_next_is_ready_and_nearest(v: SchedulerView, step: int)
    requires
        v.wf(),
        1 <= step,
    ensures
        match v.next_ready(step) {
            Some(next) => {
                &&& 0 <= next < v.tasks.len()
                &&& next != v.current
                &&& v.tasks[next].ready()
                &&& exists|k: int|
                    step <= k < v.tasks.len() && next == #[trigger] v.turn(k) && forall|j: int|
                        step <= j < k ==> !(#[trigger] v.tasks[v.turn(j)]).ready()
            },
            None => forall|j: int|
                step <= j < v.tasks.len() ==> !(#[trigger] v.tasks[v.turn(j)]).ready(),
        },
    decreases v.tasks.len() - step,
{
    if step < v.tasks.len() {
        lemma_turn_step(v, step);
        lemma_turn_leaves(v, step);
        if !v.tasks[v.turn(step)].ready() {
            law_next_is_ready_and_nearest(v, step + 1);
            match v.next_ready(step + 1) {
                Some(next) => {
                    let k = choose|k: int|
                        step + 1 <= k < v.tasks.len() && next == #[trigger] v.turn(k)
                            && forall|j: int|
                            step + 1 <= j < k ==> !(#[trigger] v.tasks[v.turn(j)]).ready();
                    assert(next == v.turn(k));
                },
                None => {},
            }
        } else {
            assert(v.next_ready(step) == Some(v.turn(step)));
        }
    }
}

/// A reaped task is not reaped again, nor ever handed the processor.
pub proof fn law_reaped_is_out(v: SchedulerView, i: int, proc_id: usize)
    requires
        v.wf(),
        0 <= i < v.tasks.len(),
        v.tasks[i].state == State::Reaped,
    ensures
        v.last_finished(proc_id, v.tasks.len() as int) != Some(i),
        v.next_ready(1) != Some(i),
{
    lemma_last_finished(v, proc_id, v.tasks.len() as int);
    law_next_is_ready_and_nearest(v, 1);
}

proof fn lemma_last_finished(v: SchedulerView, proc_id: usize, n: int)
    requires
        0 <= n <= v.tasks.len(),
    ensures
        match v.last_finished(proc_id, n) {
            Some(i) => 0 <= i < n && v.tasks[i].state == State::Finished && v.tasks[i].proc_id
                == Some(proc_id),
            None => true,
        },
    decreases n,
{
    if n > 0 {
        lemma_last_finished(v, proc_id, n - 1);
    }
}

/// How many places task `i` comes after the running one, in turn.
pub open spec fn places_after(v: SchedulerView, i: int) -> int {
    if i > v.current {
        i - v.current
    } else {
        i - v.current + v.tasks.len()
    }
}

/// Task `i` does not run, may run, and has CPU time left.
pub open spec fn could_run(v: SchedulerView, i: int) -> bool {
    &&& 0 <= i < v.tasks.len()
    &&& i != v.current
    &&& v.tasks[i].state == State::Runnable
    &&& v.tasks[i].budget.consumed < v.tasks[i].budget.capacity
}

/// Who is next is the first of those that could run to come after the running task, in turn; nobody
/// is next exactly if none of them could.
pub proof fn law_turns_go_round(v: SchedulerView)
    requires
        v.wf(),
    ensures
        match v.next_ready(1) {
            Some(next) => {
                &&& could_run(v, next)
                &&& forall|i: int| #[trigger]
                    could_run(v, i) ==> places_after(v, next) <= places_after(v, i)
            },
            None => forall|i: int| !#[trigger] could_run(v, i),
        },
{
    law_next_is_ready_and_nearest(v, 1);
    match v.next_ready(1) {
        Some(next) => {
            let k = choose|k: int|
                1 <= k < v.tasks.len() && next == #[trigger] v.turn(k) && forall|j: int|
                    1 <= j < k ==> !(#[trigger] v.tasks[v.turn(j)]).ready();
            lemma_turn_leaves(v, k);
            assert forall|i: int| #[trigger] could_run(v, i) implies places_after(v, next)
                <= places_after(v, i) by {
                let j = places_after(v, i);
                lemma_turn_leaves(v, j);
                assert(v.tasks[v.turn(j)].ready());
            }
        },
        None => {
            assert forall|i: int| !#[trigger] could_run(v, i) by {
                if could_run(v, i) {
                    let j = places_after(v, i);
                    lemma_turn_leaves(v, j);
                    assert(v.tasks[v.turn(j)].ready());
                }
            }
        },
    }
}

/// A switch says who stops and who goes on, and gives the one who goes on its own stack, domain and
/// address space. The stack grows down from the end of its block.
pub proof fn law_switches_carry_the_tasks_own(v: SchedulerView, to: int, hhdm: u64)
    requires
        v.wf(),
        v.tasks.len() <= usize::MAX,
        0 <= to < v.tasks.len(),
        v.stacks_fit(hhdm),
    ensures
        ({
            let s = v.switch_to(to, hhdm);
            let t = v.tasks[to];
            &&& s.from == v.current
            &&& s.to == to
            &&& s.domain == t.domain
            &&& s.space == t.space
            &&& s.kernel_stack is Some == t.stack_phys is Some
            &&& t.stack_phys matches Some(block) ==> s.kernel_stack->0 == hhdm + block + 8 * 4096
        }),
{
}

/// A finished task of a process is found if there is one, and it is the last.
pub proof fn law_the_last_to_finish_is_found(v: SchedulerView, proc_id: usize)
    ensures
        match v.last_finished(proc_id, v.tasks.len() as int) {
            Some(i) => {
                &&& 0 <= i < v.tasks.len()
                &&& v.tasks[i].proc_id == Some(proc_id)
                &&& v.tasks[i].state == State::Finished
                &&& forall|j: int|
                    i < j < v.tasks.len() ==> !((#[trigger] v.tasks[j]).proc_id == Some(proc_id)
                        && v.tasks[j].state == State::Finished)
            },
            None => forall|j: int|
                0 <= j < v.tasks.len() ==> !((#[trigger] v.tasks[j]).proc_id == Some(proc_id)
                    && v.tasks[j].state == State::Finished),
        },
{
    lemma_nothing_later(v, proc_id, v.tasks.len() as int);
}

proof fn lemma_nothing_later(v: SchedulerView, proc_id: usize, n: int)
    requires
        0 <= n <= v.tasks.len(),
    ensures
        match v.last_finished(proc_id, n) {
            Some(i) => {
                &&& 0 <= i < n
                &&& v.tasks[i].proc_id == Some(proc_id)
                &&& v.tasks[i].state == State::Finished
                &&& forall|j: int|
                    i < j < n ==> !((#[trigger] v.tasks[j]).proc_id == Some(proc_id)
                        && v.tasks[j].state == State::Finished)
            },
            None => forall|j: int|
                0 <= j < n ==> !((#[trigger] v.tasks[j]).proc_id == Some(proc_id)
                    && v.tasks[j].state == State::Finished),
        },
    decreases n,
{
    if n > 0 {
        lemma_nothing_later(v, proc_id, n - 1);
    }
}

/// The tasks among the first `n` that may run and have CPU time left, without `who`.
pub open spec fn contenders(v: SchedulerView, who: int, n: int) -> Set<int> {
    Set::new(
        |i: int|
            0 <= i < n && i != who && v.tasks[i].state == State::Runnable
                && v.tasks[i].budget.consumed < v.tasks[i].budget.capacity,
    )
}

/// The count of ready tasks is the number of those that may run and have CPU time left.
pub proof fn law_ready_tasks_are_counted(v: SchedulerView, who: int, n: int)
    requires
        0 <= n <= v.tasks.len(),
    ensures
        contenders(v, who, n).finite(),
        v.ready_besides(who, n) == contenders(v, who, n).len(),
    decreases n,
{
    if n == 0 {
        assert(contenders(v, who, n) =~= Set::empty());
    } else {
        law_ready_tasks_are_counted(v, who, n - 1);
        let before = contenders(v, who, n - 1);
        let now = contenders(v, who, n);
        if n - 1 != who && v.tasks[n - 1].ready() {
            assert(now =~= before.insert(n - 1));
        } else {
            assert(now =~= before);
        }
    }
}

/// Another state for one task leaves every other task, and who runs, as they are.
pub proof fn law_tasks_change_alone(v: SchedulerView, i: int, t: Task, j: int)
    requires
        0 <= i < v.tasks.len(),
        0 <= j < v.tasks.len(),
    ensures
        v.with_task(i, t).tasks.len() == v.tasks.len(),
        v.with_task(i, t).current == v.current,
        v.with_task(i, t).tasks[i] == t,
        i != j ==> v.with_task(i, t).tasks[j] == v.tasks[j],
{
}

} // verus!
