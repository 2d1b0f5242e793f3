//! Round-robin scheduler for kernel tasks.
//!
//! Tasks live in *stable slots*: a slot index never changes while a task is
//! alive. The scheduler decides which slot runs next; the context switch itself
//! is left to the machine, which is told the slots to switch between.
use vstd::prelude::*;
use super::task::{BlockReason, Task, TaskId, TaskState};

verus! {

/// Default time slice in ticks before a running task is preempted.
pub const DEFAULT_SLICE: u64 = 2;

/// Sentinel for "no task slot" (the boot context).
pub const NO_TASK: usize = usize::MAX;

/// What the machine has to do after a scheduling decision.
#[derive(Clone, Copy, PartialEq, Eq, Structural, Debug)]
pub enum Action {
    /// Go on with the current context.
    Return,
    /// Save the current context in slot `from` ([`NO_TASK`]: the boot context)
    /// and resume the one in slot `to`.
    Switch { from: usize, to: usize },
    /// The current task is blocked and no task is ready: wait for an interrupt,
    /// then ask [`Scheduler::awaken`].
    Wait,
}

pub struct Scheduler<F> {
    pub slots: Vec<Option<Task<F>>>,
    pub current: usize,
    pub next_id: u32,
    pub cursor: usize,
    pub active: bool,
}

/// The state of a [`Scheduler`].
#[verifier::ext_equal]
pub struct Sched<F> {
    pub slots: Seq<Option<Task<F>>>,
    pub current: usize,
    pub next_id: u32,
    pub cursor: usize,
    pub active: bool,
}

impl<F> View for Scheduler<F> {
    type V = Sched<F>;

    open spec fn view(&self) -> Sched<F> {
        Sched {
            slots: self.slots@,
            current: self.current,
            next_id: self.next_id,
            cursor: self.cursor,
            active: self.active,
        }
    }
}

/// The first free slot from `i` on, or the one behind the end.
pub open spec fn hole_from<F>(slots: Seq<Option<Task<F>>>, i: int) -> int
    decreases slots.len() - i,
{
    if i >= slots.len() || slots[i] is None {
        i
    } else {
        hole_from(slots, i + 1)
    }
}

/// How far behind `cursor` slot `i` comes in the cyclic order of `n` slots.
pub open spec fn distance(n: int, cursor: int, i: int) -> int {
    if i >= cursor {
        i - cursor
    } else {
        i + n - cursor
    }
}

/// The task with a new state and block reason, if it is blocked on `why`.
pub open spec fn unblocked<F>(slot: Option<Task<F>>, why: spec_fn(BlockReason) -> bool) -> Option<
    Task<F>,
> {
    match slot {
        Some(t) if t.state == TaskState::Blocked && why(t.block) => Some(
            Task { state: TaskState::Ready, block: BlockReason::Nothing, ..t },
        ),
        _ => slot,
    }
}

/// Whether a task that sleeps for this reason is due at `now`.
pub open spec fn due(now: u64) -> spec_fn(BlockReason) -> bool {
    |b: BlockReason| b matches BlockReason::Sleep { wake_at } && now >= wake_at
}

/// Whether a task waits for `id` for this reason.
pub open spec fn waits_for(id: TaskId) -> spec_fn(BlockReason) -> bool {
    |b: BlockReason| b == BlockReason::Join { id }
}

/// The name of a state.
pub open spec fn name_of(s: TaskState) -> &'static str {
    match s {
        TaskState::Ready => "ready",
        TaskState::Running => "running",
        TaskState::Blocked => "blocked",
        TaskState::Zombie => "zombie",
    }
}

/// `(id, state)` for every live task, in slot order.
pub open spec fn snapshot_of<F>(slots: Seq<Option<Task<F>>>) -> Seq<(u32, &'static str)>
    decreases slots.len(),
{
    if slots.len() == 0 {
        seq![]
    } else {
        let rest = snapshot_of(slots.drop_last());
        match slots.last() {
            Some(t) => rest.push((t.id.0, name_of(t.state))),
            None => rest,
        }
    }
}

impl<F> Sched<F> {
    /// What every operation keeps: the cursor is at most behind the last slot,
    /// and the current slot, unless it is the boot context, holds a task.
    pub open spec fn wf(self) -> bool {
        &&& self.cursor <= self.slots.len()
        &&& self.current != NO_TASK ==> self.live(self.current as int)
        &&& self.slots.len() < NO_TASK
    }

    /// Whether slot `i` holds a task.
    pub open spec fn live(self, i: int) -> bool {
        0 <= i < self.slots.len() && self.slots[i] is Some
    }

    /// Whether slot `i` holds a task in state `st`.
    pub open spec fn in_state(self, i: int, st: TaskState) -> bool {
        self.live(i) && self.slots[i]->0.state == st
    }

    /// Whether slot `i` is runnable.
    pub open spec fn ready(self, i: int) -> bool {
        self.in_state(i, TaskState::Ready)
    }

    /// How long slot `i` is from its turn.
    pub open spec fn turn(self, i: int) -> int {
        distance(self.slots.len() as int, self.cursor as int, i)
    }

    /// Whether slot `i` is the runnable slot that comes first after the cursor.
    pub open spec fn is_next(self, i: int) -> bool {
        self.ready(i) && forall|j: int| #[trigger] self.ready(j) ==> self.turn(i) <= self.turn(j)
    }

    /// The runnable slot that comes first after the cursor, if any is runnable.
    pub open spec fn next(self) -> Option<usize> {
        if exists|i: int| self.is_next(i) {
            Some((choose|i: int| self.is_next(i)) as usize)
        } else {
            None
        }
    }

    /// Whether slot `i` is the first that holds task `id`.
    pub open spec fn is_slot_of(self, i: int, id: TaskId) -> bool {
        &&& self.live(i)
        &&& self.slots[i]->0.id == id
        &&& forall|j: int| 0 <= j < i && #[trigger] self.live(j) ==> self.slots[j]->0.id != id
    }

    /// Whether task `id` is gone or finished.
    pub open spec fn finished(self, id: TaskId) -> bool {
        forall|i: int| #[trigger] self.is_slot_of(i, id) ==> self.slots[i]->0.state == TaskState::Zombie
    }

    /// The state once the current task was given state `st` and block reason `b`.
    pub open spec fn current_set(self, st: TaskState, b: BlockReason) -> Sched<F> {
        let i = self.current as int;
        Sched {
            slots: self.slots.update(i, Some(Task { state: st, block: b, ..self.slots[i]->0 })),
            ..self
        }
    }

    /// The state once slot `i` was made the running one.
    pub open spec fn switched(self, i: usize) -> Sched<F> {
        Sched {
            slots: self.slots.update(
                i as int,
                Some(Task { state: TaskState::Running, ..self.slots[i as int]->0 }),
            ),
            current: i,
            cursor: (i + 1) as usize,
            ..self
        }
    }

    /// The state once the current task, if it is running, was made ready.
    pub open spec fn demoted(self) -> Sched<F> {
        let i = self.current as int;
        if self.current != NO_TASK && self.in_state(i, TaskState::Running) {
            self.current_set(TaskState::Ready, self.slots[i]->0.block)
        } else {
            self
        }
    }

    /// What a scheduling decision does: the next runnable slot becomes the
    /// running one.
    pub open spec fn scheduled(self) -> (Option<(usize, usize)>, Sched<F>) {
        let d = self.demoted();
        match d.next() {
            Some(i) => (Some((self.current, i)), d.switched(i)),
            None => (None, d),
        }
    }

    /// What a blocked task does: another task is resumed, or an event awaited.
    pub open spec fn gave_way(self) -> (Action, Sched<F>) {
        match self.scheduled() {
            (Some((from, to)), s) => (Action::Switch { from, to }, s),
            (None, s) => (Action::Wait, s),
        }
    }

    /// The state once every task that is blocked on `why` was made ready.
    pub open spec fn woken(self, why: spec_fn(BlockReason) -> bool) -> Sched<F> {
        Sched {
            slots: self.slots.map_values(|s: Option<Task<F>>| unblocked(s, why)),
            ..self
        }
    }

    /// The state once a tick was charged to the current task.
    pub open spec fn charged(self) -> Sched<F> {
        let i = self.current as int;
        if self.current == NO_TASK {
            self
        } else {
            let t = self.slots[i]->0;
            Sched {
                slots: self.slots.update(
                    i,
                    Some(
                        Task {
                            slice: if t.slice == 0 {
                                DEFAULT_SLICE
                            } else {
                                (t.slice - 1) as u64
                            },
                            ..t
                        },
                    ),
                ),
                ..self
            }
        }
    }

    /// Whether the current task has used up its time slice.
    pub open spec fn slice_over(self) -> bool {
        self.current != NO_TASK && self.slots[self.current as int]->0.slice == 0
    }

    /// What a timer tick does: due sleepers are woken, and a task that has used
    /// up its slice gives way.
    pub open spec fn ticked(self, now: u64) -> (Action, Sched<F>) {
        if !self.active {
            (Action::Return, self)
        } else {
            let w = self.woken(due(now));
            if w.slice_over() {
                match w.charged().scheduled() {
                    (Some((from, to)), s) => (Action::Switch { from, to }, s),
                    (None, s) => (Action::Return, s),
                }
            } else {
                (Action::Return, w.charged())
            }
        }
    }

    /// The state once the current task was finished, its joiners woken and its
    /// slot freed.
    pub open spec fn buried(self) -> Sched<F> {
        let i = self.current as int;
        let w = self.current_set(TaskState::Zombie, self.slots[i]->0.block).woken(
            waits_for(self.slots[i]->0.id),
        );
        Sched { slots: w.slots.update(i, None), current: NO_TASK, ..w }
    }

    /// What the end of the current task does: its slot is freed, and the next
    /// runnable slot, if there is one, becomes the running one.
    pub open spec fn exited(self) -> (Option<usize>, Sched<F>) {
        let b = self.buried();
        match b.next() {
            Some(i) => (Some(i), b.switched(i)),
            None => (None, b),
        }
    }
}

proof fn lemma_next_is<F>(s: Sched<F>, i: int)
    requires
        s.wf(),
        s.is_next(i),
    ensures
        s.next() == Some(i as usize),
{
    let j = choose|j: int| s.is_next(j);
    assert(s.is_next(j));
    assert(s.turn(i) == s.turn(j));
}

proof fn lemma_next_picks<F>(s: Sched<F>)
    requires
        s.wf(),
        s.next() is Some,
    ensures
        s.is_next(s.next()->0 as int),
{
    let j = choose|j: int| s.is_next(j);
    assert(s.is_next(j));
}

impl<F> Scheduler<F> {
    pub fn new() -> (r: Scheduler<F>)
        ensures
            r@ == (Sched::<F> {
                slots: seq![],
                current: NO_TASK,
                next_id: 1,
                cursor: 0,
                active: false,
            }),
            r@.wf(),
    {
        let r = Scheduler {
            slots: Vec::new(),
            current: NO_TASK,
            next_id: 1,
            cursor: 0,
            active: false,
        };
        assert(r@.slots =~= seq![]);
        r
    }

    /// Add a ready task with the body `func`, which starts at `entry`.
    fn add(&mut self, func: F, entry: u64) -> (id: TaskId)
        requires
            old(self)@.wf(),
            old(self)@.next_id < u32::MAX,
            old(self)@.slots.len() + 1 < NO_TASK,
        ensures
            final(self)@.wf(),
            id == TaskId(old(self)@.next_id),
            exists|t: Task<F>| #[trigger] t.fresh(id, func, DEFAULT_SLICE, entry)
                && final(self)@ == added(old(self)@, t),
    {
        let id = TaskId(self.next_id);
        self.next_id = self.next_id + 1;
        let task = Task::new(id, func, DEFAULT_SLICE, entry);
        let ghost t = task;
        let mut i: usize = 0;
        while i < self.slots.len()
            invariant
                i <= self.slots@.len(),
                self@ == (Sched { next_id: (old(self)@.next_id + 1) as u32, ..old(self)@ }),
                old(self)@.wf(),
                old(self)@.next_id < u32::MAX,
                hole_from(old(self)@.slots, 0) == hole_from(old(self)@.slots, i as int),
                task == t,
                t.fresh(id, func, DEFAULT_SLICE, entry),
                id == TaskId(old(self)@.next_id),
            decreases self.slots@.len() - i,
        {
            if self.slots[i].is_none() {
                self.slots[i] = Some(task);
                assert(self@ =~= added(old(self)@, t));
                return id;
            }
            i = i + 1;
        }
        self.slots.push(Some(task));
        assert(self@ =~= added(old(self)@, t));
        id
    }

    pub fn find_slot(&self, id: TaskId) -> (r: Option<usize>)
        ensures
            match r {
                Some(i) => self@.is_slot_of(i as int, id),
                None => forall|i: int| #[trigger] self@.live(i) ==> self@.slots[i]->0.id != id,
            },
    {
        let mut i: usize = 0;
        while i < self.slots.len()
            invariant
                i <= self.slots@.len(),
                forall|j: int| 0 <= j < i && #[trigger] self@.live(j) ==> self@.slots[j]->0.id != id,
            decreases self.slots@.len() - i,
        {
            if let Some(t) = &self.slots[i] {
                if t.id.0 == id.0 {
                    assert(self@.live(i as int));
                    return Some(i);
                }
            }
            i = i + 1;
        }
        None
    }

    fn is_finished(&self, id: TaskId) -> (r: bool)
        ensures
            r == self@.finished(id),
    {
        match self.find_slot(id) {
            None => true,
            Some(i) => {
                proof {
                    assert forall|j: int| #[trigger] self@.is_slot_of(j, id) implies j == i by {
                        assert(self@.live(j) && self@.live(i as int));
                    }
                }
                match &self.slots[i] {
                    Some(t) => t.state == TaskState::Zombie,
                    None => true,
                }
            },
        }
    }

    /// Next runnable slot (round robin), or `None` if there is none.
    pub fn next_ready(&self) -> (r: Option<usize>)
        requires
            self@.wf(),
        ensures
            r == self@.next(),
    {
        let n: usize = self.slots.len();
        let mut i: usize = 0;
        while i < n
            invariant
                n == self.slots@.len(),
                i <= n,
                self@.wf(),
                forall|j: int| #[trigger] self@.ready(j) ==> self@.turn(j) >= i,
            decreases n - i,
        {
            let idx: usize = if i < n - self.cursor {
                self.cursor + i
            } else {
                i - (n - self.cursor)
            };
            assert(self@.turn(idx as int) == i);
            if let Some(t) = &self.slots[idx] {
                if t.state == TaskState::Ready {
                    assert(self@.ready(idx as int));
                    proof {
                        lemma_next_is(self@, idx as int);
                    }
                    return Some(idx);
                }
            }
            proof {
                assert(!self@.ready(idx as int));
                assert forall|j: int| #[trigger] self@.ready(j) implies self@.turn(j) >= i + 1 by {
                    if self@.turn(j) == i {
                        assert(j == idx);
                    }
                }
            }
            i = i + 1;
        }
        proof {
            if self@.next() is Some {
                lemma_next_picks(self@);
                assert(self@.ready(self@.next()->0 as int));
            }
        }
        None
    }

    /// Mark `idx` Running and return the slots to switch between.
    pub fn prep_switch(&mut self, idx: usize) -> (r: (usize, usize))
        requires
            old(self)@.wf(),
            old(self)@.live(idx as int),
        ensures
            final(self)@.wf(),
            r == (old(self)@.current, idx),
            final(self)@ == old(self)@.switched(idx),
    {
        let old_slot: usize = self.current;
        if let Some(t) = &mut self.slots[idx] {
            t.state = TaskState::Running;
        }
        self.current = idx;
        self.cursor = idx + 1;
        assert(self@ =~= old(self)@.switched(idx));
        (old_slot, idx)
    }

    fn set_current(&mut self, st: TaskState, b: BlockReason)
        requires
            old(self)@.wf(),
            old(self)@.current != NO_TASK,
        ensures
            final(self)@.wf(),
            final(self)@ == old(self)@.current_set(st, b),
    {
        let cur: usize = self.current;
        if let Some(t) = &mut self.slots[cur] {
            t.state = st;
            t.block = b;
        }
        assert(self@ =~= old(self)@.current_set(st, b));
    }

    /// Choose the next runnable task and make it the running one; returns the
    /// slots to switch between.
    pub fn schedule(&mut self) -> (r: Option<(usize, usize)>)
        requires
            old(self)@.wf(),
        ensures
            final(self)@.wf(),
            (r, final(self)@) == old(self)@.scheduled(),
    {
        let cur: usize = self.current;
        if cur != NO_TASK {
            if let Some(t) = &mut self.slots[cur] {
                if t.state == TaskState::Running {
                    t.state = TaskState::Ready;
                }
            }
        }
        assert(self@ =~= old(self)@.demoted());
        match self.next_ready() {
            Some(idx) => {
                proof {
                    lemma_next_picks(self@);
                }
                Some(self.prep_switch(idx))
            },
            None => None,
        }
    }

    fn give_way(&mut self) -> (r: Action)
        requires
            old(self)@.wf(),
        ensures
            final(self)@.wf(),
            (r, final(self)@) == old(self)@.gave_way(),
    {
        match self.schedule() {
            Some((from, to)) => Action::Switch { from, to },
            None => Action::Wait,
        }
    }

    fn wake_sleepers(&mut self, now: u64)
        requires
            old(self)@.wf(),
        ensures
            final(self)@.wf(),
            final(self)@ == old(self)@.woken(due(now)),
    {
        let mut i: usize = 0;
        while i < self.slots.len()
            invariant
                i <= self.slots@.len(),
                self.slots@.len() == old(self)@.slots.len(),
                self@ == (Sched { slots: self.slots@, ..old(self)@ }),
                old(self)@.wf(),
                forall|j: int|
                    0 <= j < i ==> self.slots@[j] == unblocked(old(self)@.slots[j], due(now)),
                forall|j: int|
                    i <= j < self.slots@.len() ==> self.slots@[j] == old(self)@.slots[j],
            decreases self.slots@.len() - i,
        {
            let ghost before = self.slots@;
            if let Some(t) = &mut self.slots[i] {
                if t.state == TaskState::Blocked {
                    if let BlockReason::Sleep { wake_at } = t.block {
                        if now >= wake_at {
                            t.state = TaskState::Ready;
                            t.block = BlockReason::Nothing;
                        }
                    }
                }
            }
            assert(self.slots@ =~= before.update(i as int, unblocked(before[i as int], due(now))));
            i = i + 1;
        }
        assert(self@ =~= old(self)@.woken(due(now)));
        assert(self@.current != NO_TASK ==> old(self)@.live(self@.current as int));
    }

    fn wake_joiners(&mut self, id: TaskId)
        requires
            old(self)@.wf(),
        ensures
            final(self)@.wf(),
            final(self)@ == old(self)@.woken(waits_for(id)),
    {
        let mut i: usize = 0;
        while i < self.slots.len()
            invariant
                i <= self.slots@.len(),
                self.slots@.len() == old(self)@.slots.len(),
                self@ == (Sched { slots: self.slots@, ..old(self)@ }),
                old(self)@.wf(),
                forall|j: int|
                    0 <= j < i ==> self.slots@[j] == unblocked(old(self)@.slots[j], waits_for(id)),
                forall|j: int|
                    i <= j < self.slots@.len() ==> self.slots@[j] == old(self)@.slots[j],
            decreases self.slots@.len() - i,
        {
            let ghost before = self.slots@;
            if let Some(t) = &mut self.slots[i] {
                if t.state == TaskState::Blocked {
                    if let BlockReason::Join { id: awaited } = t.block {
                        if awaited.0 == id.0 {
                            t.state = TaskState::Ready;
                            t.block = BlockReason::Nothing;
                        }
                    }
                }
            }
            assert(self.slots@ =~= before.update(
                i as int,
                unblocked(before[i as int], waits_for(id)),
            ));
            i = i + 1;
        }
        assert(self@ =~= old(self)@.woken(waits_for(id)));
        assert(self@.current != NO_TASK ==> old(self)@.live(self@.current as int));
    }

    /// After [`Action::Wait`] and an interrupt: go on if the current task was
    /// resumed meanwhile, else resume another task, or wait again.
    pub fn awaken(&mut self) -> (r: Action)
        requires
            old(self)@.wf(),
        ensures
            final(self)@.wf(),
            (r, final(self)@) == if old(self)@.current != NO_TASK && old(self)@.in_state(
                old(self)@.current as int,
                TaskState::Running,
            ) {
                (Action::Return, old(self)@)
            } else {
                old(self)@.gave_way()
            },
    {
        let cur: usize = self.current;
        if cur != NO_TASK {
            if let Some(t) = &self.slots[cur] {
                if t.state == TaskState::Running {
                    return Action::Return;
                }
            }
        }
        self.give_way()
    }

    /// Terminate the current task. Returns the slot to resume, if any is
    /// runnable; the context that is left is never resumed.
    pub fn exit_current(&mut self) -> (r: Option<usize>)
        requires
            old(self)@.wf(),
            old(self)@.current != NO_TASK,
        ensures
            final(self)@.wf(),
            (r, final(self)@) == old(self)@.exited(),
    {
        let cur: usize = self.current;
        let (dead_id, block) = match &self.slots[cur] {
            Some(t) => (t.id, t.block),
            None => (TaskId(0), BlockReason::Nothing),
        };
        self.set_current(TaskState::Zombie, block);
        self.wake_joiners(dead_id);
        self.slots[cur] = None;
        self.current = NO_TASK;
        assert(self@ =~= old(self)@.buried());
        match self.next_ready() {
            Some(idx) => {
                proof {
                    lemma_next_picks(self@);
                }
                self.prep_switch(idx);
                Some(idx)
            },
            None => None,
        }
    }

    /// Take the body of the current task (only succeeds once).
    pub fn current_task_body(&mut self) -> (r: Option<F>)
        requires
            old(self)@.wf(),
            old(self)@.current != NO_TASK,
        ensures
            final(self)@.wf(),
            r == old(self)@.slots[old(self)@.current as int]->0.func,
            final(self)@ == (Sched {
                slots: old(self)@.slots.update(
                    old(self)@.current as int,
                    Some(Task { func: None, ..old(self)@.slots[old(self)@.current as int]->0 }),
                ),
                ..old(self)@
            }),
    {
        let cur: usize = self.current;
        let f = match &mut self.slots[cur] {
            Some(t) => t.take_func(),
            None => None,
        };
        assert(self@.slots =~= old(self)@.slots.update(
            old(self)@.current as int,
            Some(Task { func: None, ..old(self)@.slots[old(self)@.current as int]->0 }),
        ));
        f
    }
}

/// `s` with the new task `t` in its first free slot.
pub open spec fn added<F>(s: Sched<F>, t: Task<F>) -> Sched<F> {
    let i = hole_from(s.slots, 0);
    Sched {
        slots: if i < s.slots.len() {
            s.slots.update(i, Some(t))
        } else {
            s.slots.push(Some(t))
        },
        next_id: (s.next_id + 1) as u32,
        ..s
    }
}

/// Whether the scheduler has been armed.
pub fn active<F>(s: &Scheduler<F>) -> (r: bool)
    ensures
        r == s@.active,
{
    s.active
}

/// Arm the scheduler (must run before the timer starts preempting).
pub fn init<F>(s: &mut Scheduler<F>)
    requires
        old(s)@.wf(),
    ensures
        final(s)@.wf(),
        final(s)@ == (Sched { active: true, ..old(s)@ }),
{
    s.active = true;
}

/// Add a kernel task to the run queue.
pub fn spawn<F>(s: &mut Scheduler<F>, func: F, entry: u64) -> (id: TaskId)
    requires
        old(s)@.wf(),
        old(s)@.next_id < u32::MAX,
        old(s)@.slots.len() + 1 < NO_TASK,
    ensures
        final(s)@.wf(),
        id == TaskId(old(s)@.next_id),
        exists|t: Task<F>| #[trigger] t.fresh(id, func, DEFAULT_SLICE, entry)
            && final(s)@ == added(old(s)@, t),
{
    s.add(func, entry)
}

/// Enter task context: make the first Ready task the running one. Returns the
/// slots to switch between, or `None` if there is no task to run.
pub fn start<F>(s: &mut Scheduler<F>) -> (r: Option<(usize, usize)>)
    requires
        old(s)@.wf(),
    ensures
        final(s)@.wf(),
        match old(s)@.next() {
            Some(i) => r == Some((old(s)@.current, i)) && final(s)@ == old(s)@.switched(i),
            None => r is None && final(s)@ == old(s)@,
        },
{
    match s.next_ready() {
        Some(idx) => {
            proof {
                lemma_next_picks(s@);
            }
            Some(s.prep_switch(idx))
        },
        None => None,
    }
}

/// Voluntarily give up the CPU.
pub fn yield_now<F>(s: &mut Scheduler<F>) -> (r: Action)
    requires
        old(s)@.wf(),
    ensures
        final(s)@.wf(),
        (r, final(s)@) == if !old(s)@.active {
            (Action::Return, old(s)@)
        } else {
            match old(s)@.scheduled() {
                (Some((from, to)), t) => (Action::Switch { from, to }, t),
                (None, t) => (Action::Return, t),
            }
        },
{
    if !active(s) {
        return Action::Return;
    }
    match s.schedule() {
        Some((from, to)) => Action::Switch { from, to },
        None => Action::Return,
    }
}

/// Block the current task for at least `ticks` timer ticks from `now` on.
pub fn sleep<F>(s: &mut Scheduler<F>, now: u64, ticks: u64) -> (r: Action)
    requires
        old(s)@.wf(),
        old(s)@.active ==> old(s)@.current != NO_TASK,
        old(s)@.active ==> now + ticks <= u64::MAX,
    ensures
        final(s)@.wf(),
        (r, final(s)@) == if !old(s)@.active {
            (Action::Return, old(s)@)
        } else {
            old(s)@.current_set(
                TaskState::Blocked,
                BlockReason::Sleep { wake_at: (now + ticks) as u64 },
            ).gave_way()
        },
{
    if !active(s) {
        return Action::Return;
    }
    let wake: u64 = now + ticks;
    s.set_current(TaskState::Blocked, BlockReason::Sleep { wake_at: wake });
    s.give_way()
}

/// Block until task `id` finishes.
pub fn join<F>(s: &mut Scheduler<F>, id: TaskId) -> (r: Action)
    requires
        old(s)@.wf(),
        old(s)@.active && !old(s)@.finished(id) ==> old(s)@.current != NO_TASK,
    ensures
        final(s)@.wf(),
        (r, final(s)@) == if !old(s)@.active || old(s)@.finished(id) {
            (Action::Return, old(s)@)
        } else {
            old(s)@.current_set(TaskState::Blocked, BlockReason::Join { id }).gave_way()
        },
{
    if !active(s) {
        return Action::Return;
    }
    if s.is_finished(id) {
        return Action::Return;
    }
    s.set_current(TaskState::Blocked, BlockReason::Join { id });
    s.give_way()
}

/// Called on every timer interrupt: wake sleepers and account for time slices.
pub fn tick<F>(s: &mut Scheduler<F>, now: u64) -> (r: Action)
    requires
        old(s)@.wf(),
    ensures
        final(s)@.wf(),
        (r, final(s)@) == old(s)@.ticked(now),
{
    if !active(s) {
        return Action::Return;
    }
    s.wake_sleepers(now);
    let ghost w = s@;
    let cur: usize = s.current;
    let preempt = if cur == NO_TASK {
        false
    } else if let Some(t) = &mut s.slots[cur] {
        if t.slice == 0 {
            t.slice = DEFAULT_SLICE;
            true
        } else {
            t.slice = t.slice - 1;
            false
        }
    } else {
        false
    };
    assert(s@ =~= w.charged());
    if preempt {
        match s.schedule() {
            Some((from, to)) => Action::Switch { from, to },
            None => Action::Return,
        }
    } else {
        Action::Return
    }
}

/// How many of the slots hold a task.
pub open spec fn live_count<F>(slots: Seq<Option<Task<F>>>) -> nat
    decreases slots.len(),
{
    if slots.len() == 0 {
        0
    } else {
        live_count(slots.drop_last()) + if slots.last() is Some {
            1nat
        } else {
            0nat
        }
    }
}

/// Number of tasks currently alive (any state).
pub fn task_count<F>(s: &Scheduler<F>) -> (n: usize)
    ensures
        n == live_count(s@.slots),
{
    let mut n: usize = 0;
    let mut i: usize = 0;
    while i < s.slots.len()
        invariant
            n <= i <= s.slots@.len(),
            n == live_count(s@.slots.take(i as int)),
        decreases s.slots@.len() - i,
    {
        assert(s@.slots.take(i + 1).drop_last() =~= s@.slots.take(i as int));
        if s.slots[i].is_some() {
            n = n + 1;
        }
        i = i + 1;
    }
    assert(s@.slots.take(i as int) =~= s@.slots);
    n
}

/// A `ps`-style snapshot: `(id, state)` for every live task.
pub fn snapshot<F>(s: &Scheduler<F>) -> (r: Vec<(u32, &'static str)>)
    ensures
        r@ == snapshot_of(s@.slots),
{
    let mut r: Vec<(u32, &'static str)> = Vec::new();
    let mut i: usize = 0;
    while i < s.slots.len()
        invariant
            i <= s.slots@.len(),
            r@ == snapshot_of(s@.slots.take(i as int)),
        decreases s.slots@.len() - i,
    {
        assert(s@.slots.take(i + 1).drop_last() =~= s@.slots.take(i as int));
        if let Some(t) = &s.slots[i] {
            r.push((t.id.0, state_name(t.state)));
        }
        i = i + 1;
    }
    assert(s@.slots.take(i as int) =~= s@.slots);
    r
}

fn state_name(s: TaskState) -> (r: &'static str)
    ensures
        r == name_of(s),
{
    match s {
        TaskState::Ready => "ready",
        TaskState::Running => "running",
        TaskState::Blocked => "blocked",
        TaskState::Zombie => "zombie",
    }
}

impl<F> Sched<F> {
    /// What holds from the first task on: every task has an identifier of its
    /// own, given out before, and no task but the current one is running.
    pub open spec fn sound(self) -> bool {
        &&& self.wf()
        &&& forall|i: int| #[trigger] self.live(i) ==> self.slots[i]->0.id.0 < self.next_id
        &&& forall|i: int, j: int|
            #![trigger self.live(i), self.live(j)]
            self.live(i) && self.live(j) && i != j ==> self.slots[i]->0.id != self.slots[j]->0.id
        &&& forall|i: int| #[trigger] self.in_state(i, TaskState::Running) ==> i == self.current
    }

    /// Whether the same slots hold the same tasks in `other`, as far as
    /// identifiers go.
    pub open spec fn same_tasks(self, other: Sched<F>) -> bool {
        &&& self.slots.len() == other.slots.len()
        &&& self.next_id == other.next_id
        &&& forall|i: int| #[trigger] self.live(i) == other.live(i)
        &&& forall|i: int| #[trigger] other.live(i) ==> self.slots[i]->0.id == other.slots[i]->0.id
    }

    /// The slot that a scheduling decision picks.
    pub open spec fn picked(self) -> Option<usize> {
        match self.scheduled().0 {
            Some((_, to)) => Some(to),
            None => None,
        }
    }

    /// The state after `k` scheduling decisions.
    pub open spec fn after(self, k: nat) -> Sched<F>
        decreases k,
    {
        if k == 0 {
            self
        } else {
            self.scheduled().1.after((k - 1) as nat)
        }
    }
}

proof fn lemma_hole<F>(slots: Seq<Option<Task<F>>>, i: int)
    requires
        0 <= i <= slots.len(),
    ensures
        i <= hole_from(slots, i) <= slots.len(),
        hole_from(slots, i) < slots.len() ==> slots[hole_from(slots, i)] is None,
    decreases slots.len() - i,
{
    if i < slots.len() && slots[i] is Some {
        lemma_hole(slots, i + 1);
    }
}

/// A new task takes a free slot, gets an identifier that no live task has, and
/// leaves every other task alone.
pub proof fn law_spawn_is_sound<F>(s: Sched<F>, t: Task<F>, func: F, entry: u64)
    requires
        s.sound(),
        s.next_id < u32::MAX,
        s.slots.len() + 1 < NO_TASK,
        t.fresh(TaskId(s.next_id), func, DEFAULT_SLICE, entry),
    ensures
        added(s, t).sound(),
        forall|i: int| #[trigger] s.live(i) ==> added(s, t).slots[i] == s.slots[i],
        forall|i: int| #[trigger] s.live(i) ==> s.slots[i]->0.id != t.id,
{
    lemma_hole(s.slots, 0);
    let a = added(s, t);
    let h = hole_from(s.slots, 0);
    assert forall|i: int| #[trigger] a.live(i) implies i == h || s.live(i) && a.slots[i]
        == s.slots[i] by {}
    assert forall|i: int| #[trigger] a.in_state(i, TaskState::Running) implies i == a.current by {
        assert(a.live(i));
        assert(i != h);
        assert(s.live(i));
        assert(s.in_state(i, TaskState::Running));
    }
    if a.current != NO_TASK {
        assert(s.live(a.current as int));
    }
}

proof fn lemma_same_tasks_sound<F>(s: Sched<F>, t: Sched<F>)
    requires
        s.sound(),
        t.wf(),
        s.same_tasks(t),
        forall|i: int| #[trigger] t.in_state(i, TaskState::Running) ==> i == t.current,
    ensures
        t.sound(),
{
    assert forall|i: int| #[trigger] t.live(i) implies t.slots[i]->0.id.0 < t.next_id by {
        assert(s.live(i));
    }
    assert forall|i: int, j: int|
        #![trigger t.live(i), t.live(j)]
        t.live(i) && t.live(j) && i != j implies t.slots[i]->0.id != t.slots[j]->0.id by {
        assert(s.live(i) && s.live(j));
    }
}

proof fn lemma_set_current_sound<F>(s: Sched<F>, st: TaskState, b: BlockReason)
    requires
        s.sound(),
        s.current != NO_TASK,
    ensures
        s.current_set(st, b).sound(),
        s.same_tasks(s.current_set(st, b)),
{
    let t = s.current_set(st, b);
    assert forall|i: int| #[trigger] s.live(i) == t.live(i) by {}
    assert(t.live(t.current as int));
    assert forall|i: int| #[trigger] t.in_state(i, TaskState::Running) implies i == t.current by {
        if i != t.current {
            assert(s.in_state(i, TaskState::Running));
        }
    }
    lemma_same_tasks_sound(s, t);
}

proof fn lemma_woken_sound<F>(s: Sched<F>, why: spec_fn(BlockReason) -> bool)
    requires
        s.sound(),
    ensures
        s.woken(why).sound(),
        s.same_tasks(s.woken(why)),
{
    let t = s.woken(why);
    assert forall|i: int| #[trigger] s.live(i) == t.live(i) by {
        if 0 <= i < s.slots.len() {
            assert(t.slots[i] == unblocked(s.slots[i], why));
        }
    }
    assert forall|i: int| #[trigger] t.live(i) implies s.slots[i]->0.id == t.slots[i]->0.id by {
        assert(s.live(i));
        assert(t.slots[i] == unblocked(s.slots[i], why));
    }
    if t.current != NO_TASK {
        assert(s.live(t.current as int));
    }
    assert forall|i: int| #[trigger] t.in_state(i, TaskState::Running) implies i == t.current by {
        assert(t.live(i));
        assert(t.slots[i] == unblocked(s.slots[i], why));
        assert(s.in_state(i, TaskState::Running));
    }
    lemma_same_tasks_sound(s, t);
}

proof fn lemma_switched_sound<F>(s: Sched<F>, i: usize)
    requires
        s.sound(),
        s.live(i as int),
        forall|j: int| !#[trigger] s.in_state(j, TaskState::Running),
    ensures
        s.switched(i).sound(),
        s.same_tasks(s.switched(i)),
{
    let t = s.switched(i);
    assert forall|j: int| #[trigger] s.live(j) == t.live(j) by {}
    assert(t.live(t.current as int));
    assert forall|j: int| #[trigger] t.in_state(j, TaskState::Running) implies j == t.current by {
        if j != i {
            assert(s.in_state(j, TaskState::Running));
        }
    }
    lemma_same_tasks_sound(s, t);
}

proof fn lemma_demoted_sound<F>(s: Sched<F>)
    requires
        s.sound(),
    ensures
        s.demoted().sound(),
        s.same_tasks(s.demoted()),
        forall|j: int| !#[trigger] s.demoted().in_state(j, TaskState::Running),
{
    let d = s.demoted();
    if s.current != NO_TASK && s.in_state(s.current as int, TaskState::Running) {
        lemma_set_current_sound(s, TaskState::Ready, s.slots[s.current as int]->0.block);
    }
    assert forall|j: int| !#[trigger] d.in_state(j, TaskState::Running) by {
        if d.in_state(j, TaskState::Running) {
            assert(s.in_state(j, TaskState::Running));
        }
    }
}

/// A scheduling decision keeps every task, and at most one task, the current
/// one, is running afterwards.
pub proof fn law_schedule_is_sound<F>(s: Sched<F>)
    requires
        s.sound(),
    ensures
        s.scheduled().1.sound(),
        s.same_tasks(s.scheduled().1),
        s.scheduled().0 is Some ==> s.scheduled().1.in_state(
            s.scheduled().1.current as int,
            TaskState::Running,
        ),
{
    lemma_demoted_sound(s);
    let d = s.demoted();
    if d.next() is Some {
        lemma_next_picks(d);
        lemma_switched_sound(d, d.next()->0);
        let t = d.switched(d.next()->0);
        assert forall|i: int| #[trigger] s.live(i) == t.live(i) by {
            assert(s.live(i) == d.live(i));
        }
        assert forall|i: int| #[trigger] t.live(i) implies s.slots[i]->0.id == t.slots[i]->0.id by {
            assert(d.live(i));
        }
    }
}

/// Blocking the current task keeps every task, and at most one task, the current
/// one, is running afterwards.
pub proof fn law_block_is_sound<F>(s: Sched<F>, b: BlockReason)
    requires
        s.sound(),
        s.current != NO_TASK,
    ensures
        s.current_set(TaskState::Blocked, b).gave_way().1.sound(),
        s.same_tasks(s.current_set(TaskState::Blocked, b).gave_way().1),
{
    let t = s.current_set(TaskState::Blocked, b);
    lemma_set_current_sound(s, TaskState::Blocked, b);
    law_schedule_is_sound(t);
    let u = t.gave_way().1;
    assert forall|i: int| #[trigger] s.live(i) == u.live(i) by {
        assert(s.live(i) == t.live(i));
    }
    assert forall|i: int| #[trigger] u.live(i) implies s.slots[i]->0.id == u.slots[i]->0.id by {
        assert(t.live(i));
    }
}

proof fn lemma_charged_sound<F>(s: Sched<F>)
    requires
        s.sound(),
    ensures
        s.charged().sound(),
        s.same_tasks(s.charged()),
        forall|i: int, st: TaskState| #[trigger] s.charged().in_state(i, st) == s.in_state(i, st),
{
    let t = s.charged();
    assert forall|i: int| #[trigger] s.live(i) == t.live(i) by {}
    if t.current != NO_TASK {
        assert(s.live(t.current as int));
    }
    assert forall|i: int, st: TaskState| #[trigger] t.in_state(i, st) == s.in_state(i, st) by {}
    lemma_same_tasks_sound(s, t);
}

/// A timer tick keeps every task, and at most one task, the current one, is
/// running afterwards.
pub proof fn law_tick_is_sound<F>(s: Sched<F>, now: u64)
    requires
        s.sound(),
    ensures
        s.ticked(now).1.sound(),
        s.same_tasks(s.ticked(now).1),
{
    if s.active {
        let w = s.woken(due(now));
        lemma_woken_sound(s, due(now));
        lemma_charged_sound(w);
        let c = w.charged();
        law_schedule_is_sound(c);
        let t = s.ticked(now).1;
        assert forall|i: int| #[trigger] s.live(i) == t.live(i) by {
            assert(s.live(i) == w.live(i));
            assert(w.live(i) == c.live(i));
            assert(c.live(i) == c.scheduled().1.live(i));
        }
        assert forall|i: int| #[trigger] t.live(i) implies s.slots[i]->0.id == t.slots[i]->0.id by {
            assert(w.live(i) && c.live(i) && s.live(i));
        }
    } else {
        assert forall|i: int| #[trigger] s.live(i) == s.ticked(now).1.live(i) by {}
    }
}

/// The end of the current task frees its slot and no other, wakes exactly the
/// tasks that waited for it, and leaves at most one task running.
pub proof fn law_exit_wakes_joiners<F>(s: Sched<F>, i: int)
    requires
        s.sound(),
        s.current != NO_TASK,
    ensures
        s.exited().1.sound(),
        s.exited().1.finished(s.slots[s.current as int]->0.id),
        s.exited().1.live(i) == (s.live(i) && i != s.current),
        s.live(i) && i != s.current ==> {
            let dead = s.slots[s.current as int]->0.id;
            let waited = s.in_state(i, TaskState::Blocked) && s.slots[i]->0.block
                == BlockReason::Join { id: dead };
            let b = s.buried().slots[i]->0;
            &&& waited ==> b.state == TaskState::Ready && b.block == BlockReason::Nothing
            &&& !waited ==> b == s.slots[i]->0
            &&& s.exited().0 != Some(i as usize) ==> s.exited().1.slots[i] == s.buried().slots[i]
        },
{
    let cur = s.current as int;
    let dead = s.slots[cur]->0.id;
    let z = s.current_set(TaskState::Zombie, s.slots[cur]->0.block);
    lemma_set_current_sound(s, TaskState::Zombie, s.slots[cur]->0.block);
    let w = z.woken(waits_for(dead));
    lemma_woken_sound(z, waits_for(dead));
    let b = s.buried();
    assert forall|j: int| #[trigger] b.live(j) == (s.live(j) && j != cur) by {
        assert(s.live(j) == z.live(j));
        assert(z.live(j) == w.live(j));
    }
    assert forall|j: int| #[trigger] b.live(j) implies b.slots[j] == w.slots[j] && w.live(j)
        && b.slots[j]->0.id == s.slots[j]->0.id && s.live(j) by {
        assert(s.live(j) == z.live(j));
        assert(z.live(j) == w.live(j));
    }
    assert forall|j: int| !#[trigger] b.in_state(j, TaskState::Running) by {
        if b.in_state(j, TaskState::Running) {
            assert(b.live(j));
            assert(w.slots[j] == unblocked(z.slots[j], waits_for(dead)));
            assert(z.in_state(j, TaskState::Running));
            assert(s.in_state(j, TaskState::Running));
        }
    }
    assert(b.sound());
    if 0 <= i < s.slots.len() && i != cur {
        assert(b.slots[i] == unblocked(s.slots[i], waits_for(dead)));
    }
    assert forall|j: int| #[trigger] b.live(j) implies b.slots[j]->0.id != dead by {
        assert(s.live(j) && s.live(cur));
    }
    if b.next() is Some {
        lemma_next_picks(b);
        lemma_switched_sound(b, b.next()->0);
        let t = b.switched(b.next()->0);
        assert forall|j: int| #[trigger] t.is_slot_of(j, dead) implies false by {
            assert(b.live(j));
        }
        assert(t.live(i) == b.live(i));
    } else {
        assert forall|j: int| #[trigger] b.is_slot_of(j, dead) implies false by {
            assert(b.live(j));
        }
    }
}

/// A sleeper stays asleep on every tick before its time, and is awake after the
/// first tick at or after it.
pub proof fn law_sleeper_wakes_on_time<F>(s: Sched<F>, i: int, wake_at: u64, now: u64)
    requires
        s.sound(),
        s.active,
        s.in_state(i, TaskState::Blocked),
        s.slots[i]->0.block == (BlockReason::Sleep { wake_at }),
    ensures
        s.ticked(now).1.live(i),
        now < wake_at ==> s.ticked(now).1.slots[i]->0.state == TaskState::Blocked && s.ticked(
            now,
        ).1.slots[i]->0.block == s.slots[i]->0.block,
        now >= wake_at ==> (s.ticked(now).1.ready(i) || s.ticked(now).1.in_state(
            i,
            TaskState::Running,
        )) && s.ticked(now).1.slots[i]->0.block == BlockReason::Nothing,
{
    let w = s.woken(due(now));
    lemma_woken_sound(s, due(now));
    assert(w.slots[i] == unblocked(s.slots[i], due(now)));
    lemma_charged_sound(w);
    let c = w.charged();
    lemma_demoted_sound(c);
    let d = c.demoted();
    if d.next() is Some {
        lemma_next_picks(d);
    }
}

/// A task that becomes blocked by `sleep` is asleep right away.
pub proof fn law_sleep_blocks<F>(s: Sched<F>, b: BlockReason)
    requires
        s.sound(),
        s.current != NO_TASK,
    ensures
        s.current_set(TaskState::Blocked, b).gave_way().1.in_state(
            s.current as int,
            TaskState::Blocked,
        ),
        s.current_set(TaskState::Blocked, b).gave_way().1.slots[s.current as int]->0.block == b,
{
    let t = s.current_set(TaskState::Blocked, b);
    lemma_set_current_sound(s, TaskState::Blocked, b);
    let d = t.demoted();
    lemma_demoted_sound(t);
    if d.next() is Some {
        lemma_next_picks(d);
    }
}

/// A ready task comes closer to its turn with every scheduling decision that
/// picks another one; none is ever passed over.
pub proof fn law_round_robin<F>(s: Sched<F>, j: int)
    requires
        s.sound(),
        s.ready(j),
    ensures
        s.scheduled().0 is Some,
        s.picked() != Some(j as usize) ==> {
            &&& s.scheduled().1.ready(j)
            &&& s.scheduled().1.slots.len() == s.slots.len()
            &&& s.scheduled().1.turn(j) < s.turn(j)
        },
        0 <= s.turn(j) < s.slots.len(),
{
    lemma_demoted_sound(s);
    let d = s.demoted();
    assert(d.ready(j));
    lemma_next_exists(d, j);
    lemma_next_picks(d);
}

proof fn lemma_next_exists<F>(s: Sched<F>, j: int)
    requires
        s.wf(),
        s.ready(j),
    ensures
        s.next() is Some,
    decreases s.turn(j),
{
    if !s.is_next(j) {
        let k = choose|k: int| #[trigger] s.ready(k) && s.turn(k) < s.turn(j);
        lemma_next_exists(s, k);
    }
}

/// No task starves: of as many scheduling decisions in a row as there are slots,
/// one picks a task that was ready from the start.
pub proof fn law_no_starvation<F>(s: Sched<F>, j: int)
    requires
        s.sound(),
        s.ready(j),
    ensures
        exists|k: nat|
            k < s.slots.len() && #[trigger] s.after(k).picked() == Some(j as usize),
{
    lemma_starvation(s, j);
}

proof fn lemma_starvation<F>(s: Sched<F>, j: int)
    requires
        s.sound(),
        s.ready(j),
    ensures
        exists|k: nat|
            k <= s.turn(j) < s.slots.len() && #[trigger] s.after(k).picked() == Some(j as usize),
    decreases s.turn(j),
{
    law_round_robin(s, j);
    if s.picked() == Some(j as usize) {
        assert(s.after(0).picked() == Some(j as usize));
    } else {
        let t = s.scheduled().1;
        law_schedule_is_sound(s);
        lemma_starvation(t, j);
        let k = choose|k: nat|
            k <= t.turn(j) < t.slots.len() && #[trigger] t.after(k).picked() == Some(j as usize);
        assert(s.after(k + 1) == t.after(k));
    }
}

/// A running task is not preempted while ticks of its slice remain, and each tick
/// uses up one.
pub proof fn law_slice_is_honoured<F>(s: Sched<F>, now: u64)
    requires
        s.sound(),
        s.active,
        s.current != NO_TASK,
        s.in_state(s.current as int, TaskState::Running),
    ensures
        s.slots[s.current as int]->0.slice > 0 ==> {
            &&& s.ticked(now).0 == Action::Return
            &&& s.ticked(now).1.current == s.current
            &&& s.ticked(now).1.slots[s.current as int]->0.slice == s.slots[s.current as int]->0.slice
                - 1
        },
        s.slots[s.current as int]->0.slice == 0 ==> s.ticked(now).0 is Switch,
{
    let w = s.woken(due(now));
    lemma_woken_sound(s, due(now));
    assert(w.slots[s.current as int] == unblocked(s.slots[s.current as int], due(now)));
    lemma_charged_sound(w);
    if s.slots[s.current as int]->0.slice == 0 {
        let c = w.charged();
        lemma_demoted_sound(c);
        assert(c.demoted().ready(s.current as int));
        lemma_next_exists(c.demoted(), s.current as int);
    }
}

/// Entering task context from the boot context makes one task the running one.
pub proof fn law_start_is_sound<F>(s: Sched<F>)
    requires
        s.sound(),
        s.current == NO_TASK,
        s.next() is Some,
    ensures
        s.switched(s.next()->0).sound(),
        s.same_tasks(s.switched(s.next()->0)),
        s.switched(s.next()->0).in_state(s.next()->0 as int, TaskState::Running),
{
    lemma_next_picks(s);
    assert forall|j: int| !#[trigger] s.in_state(j, TaskState::Running) by {
        if s.in_state(j, TaskState::Running) {
            assert(j == s.current);
        }
    }
    lemma_switched_sound(s, s.next()->0);
}

proof fn lemma_snapshot_full<F>(slots: Seq<Option<Task<F>>>)
    requires
        forall|i: int| 0 <= i < slots.len() ==> (#[trigger] slots[i]) is Some,
    ensures
        snapshot_of(slots).len() == slots.len(),
    decreases slots.len(),
{
    if slots.len() > 0 {
        assert(slots[slots.len() - 1] is Some);
        assert forall|i: int| 0 <= i < slots.len() - 1 implies (
        #[trigger] slots.drop_last()[i]) is Some by {
            assert(slots.drop_last()[i] == slots[i]);
        }
        lemma_snapshot_full(slots.drop_last());
    }
}

proof fn lemma_hole_is_first<F>(slots: Seq<Option<Task<F>>>, i: int, j: int)
    requires
        0 <= i <= j < hole_from(slots, i),
        i <= slots.len(),
    ensures
        j < slots.len(),
        slots[j] is Some,
    decreases slots.len() - i,
{
    if i < slots.len() && slots[i] is Some && i < j {
        lemma_hole_is_first(slots, i + 1, j);
    }
}

/// Filling a free slot behind `h` taken ones adds one task, in place `h`.
proof fn lemma_filled_slot<F>(slots: Seq<Option<Task<F>>>, h: int, t: Task<F>)
    requires
        0 <= h < slots.len(),
        slots[h] is None,
        forall|i: int| 0 <= i < h ==> (#[trigger] slots[i]) is Some,
    ensures
        h <= snapshot_of(slots).len(),
        live_count(slots.update(h, Some(t))) == live_count(slots) + 1,
        snapshot_of(slots.update(h, Some(t))) == snapshot_of(slots).insert(
            h,
            (t.id.0, name_of(t.state)),
        ),
    decreases slots.len(),
{
    let x = (t.id.0, name_of(t.state));
    let filled = slots.update(h, Some(t));
    let front = slots.drop_last();
    if h == slots.len() - 1 {
        assert(filled.drop_last() =~= front);
        assert forall|i: int| 0 <= i < front.len() implies (#[trigger] front[i]) is Some by {
            assert(front[i] == slots[i]);
        }
        lemma_snapshot_full(front);
        assert(snapshot_of(front).push(x) =~= snapshot_of(front).insert(h, x));
    } else {
        assert(filled.drop_last() =~= front.update(h, Some(t)));
        assert forall|i: int| 0 <= i < h implies (#[trigger] front[i]) is Some by {
            assert(front[i] == slots[i]);
        }
        lemma_filled_slot(front, h, t);
        match slots.last() {
            Some(u) => {
                let y = (u.id.0, name_of(u.state));
                assert(snapshot_of(front).insert(h, x).push(y) =~= snapshot_of(front).push(y).insert(
                    h,
                    x,
                ));
            },
            None => {},
        }
    }
}

/// A new task counts as one more, and appears in the snapshot as ready, with its
/// identifier, where its slot is; the rest of the snapshot stays. Its identifier is
/// greater than that of every live task, and the next one will be greater still.
pub proof fn law_spawn_adds_one<F>(s: Sched<F>, t: Task<F>, func: F, entry: u64)
    requires
        s.sound(),
        s.next_id < u32::MAX,
        t.fresh(TaskId(s.next_id), func, DEFAULT_SLICE, entry),
    ensures
        live_count(added(s, t).slots) == live_count(s.slots) + 1,
        0 <= hole_from(s.slots, 0) <= snapshot_of(s.slots).len(),
        snapshot_of(added(s, t).slots) == snapshot_of(s.slots).insert(
            hole_from(s.slots, 0),
            (t.id.0, "ready"),
        ),
        forall|i: int| #[trigger] s.live(i) ==> s.slots[i]->0.id.0 < t.id.0,
        t.id.0 == s.next_id,
        added(s, t).next_id == s.next_id + 1,
        t.func == Some(func),
{
    let h = hole_from(s.slots, 0);
    lemma_hole(s.slots, 0);
    assert forall|i: int| 0 <= i < h implies (#[trigger] s.slots[i]) is Some by {
        lemma_hole_is_first(s.slots, 0, i);
    }
    if h < s.slots.len() {
        lemma_filled_slot(s.slots, h, t);
    } else {
        lemma_snapshot_full(s.slots);
        let a = s.slots.push(Some(t));
        assert(a.drop_last() =~= s.slots);
        assert(snapshot_of(s.slots).push((t.id.0, "ready")) =~= snapshot_of(s.slots).insert(
            h,
            (t.id.0, "ready"),
        ));
    }
}

/// No operation but the spawning of a task gives identifiers out, so that none is
/// given out twice, not even after the task with it has gone.
pub proof fn law_only_spawn_gives_identifiers<F>(
    s: Sched<F>,
    now: u64,
    st: TaskState,
    b: BlockReason,
    i: usize,
)
    ensures
        s.scheduled().1.next_id == s.next_id,
        s.current_set(st, b).gave_way().1.next_id == s.next_id,
        s.ticked(now).1.next_id == s.next_id,
        s.exited().1.next_id == s.next_id,
        s.switched(i).next_id == s.next_id,
{
}

impl<F> Sched<F> {
    /// Whether slot `i` holds a task that can run: one that is ready or running.
    pub open spec fn runnable(self, i: int) -> bool {
        self.in_state(i, TaskState::Ready) || self.in_state(i, TaskState::Running)
    }

    /// The slot that comes `m` places after the cursor in the cyclic order.
    pub open spec fn place(self, m: int) -> int {
        if self.cursor + m < self.slots.len() {
            self.cursor + m
        } else {
            self.cursor + m - self.slots.len()
        }
    }

    /// The slots that can run, in the cyclic order from `m` places after the cursor
    /// on up to one full turn.
    pub open spec fn queue_from(self, m: int) -> Seq<usize>
        decreases self.slots.len() - m,
    {
        if m >= self.slots.len() {
            seq![]
        } else if self.runnable(self.place(m)) {
            seq![self.place(m) as usize] + self.queue_from(m + 1)
        } else {
            self.queue_from(m + 1)
        }
    }
}

proof fn lemma_demoted_ready<F>(s: Sched<F>)
    requires
        s.sound(),
    ensures
        forall|i: int| #[trigger] s.demoted().ready(i) == s.runnable(i),
        s.demoted().wf(),
        s.demoted().cursor == s.cursor,
        s.demoted().slots.len() == s.slots.len(),
{
    lemma_demoted_sound(s);
    let d = s.demoted();
    assert forall|i: int| #[trigger] d.ready(i) == s.runnable(i) by {
        if s.in_state(i, TaskState::Running) {
            assert(i == s.current);
        }
        if d.ready(i) {
            assert(d.live(i));
        }
    }
}

proof fn lemma_step_keeps_runnable<F>(s: Sched<F>)
    requires
        s.sound(),
        s.scheduled().0 is Some,
    ensures
        s.scheduled().1.sound(),
        s.scheduled().1.slots.len() == s.slots.len(),
        forall|i: int| #[trigger] s.scheduled().1.runnable(i) == s.runnable(i),
        s.picked() is Some,
        s.runnable(s.picked()->0 as int),
        s.scheduled().1.cursor == s.picked()->0 + 1,
        s.scheduled().1.current == s.picked()->0,
{
    law_schedule_is_sound(s);
    lemma_demoted_ready(s);
    let d = s.demoted();
    lemma_next_picks(d);
    let p = d.next()->0 as int;
    assert(d.ready(p));
    let t = s.scheduled().1;
    assert forall|i: int| #[trigger] t.runnable(i) == s.runnable(i) by {
        assert(d.ready(i) == s.runnable(i));
        if i != p && 0 <= i < t.slots.len() {
            assert(t.slots[i] == d.slots[i]);
            if t.in_state(i, TaskState::Running) {
                assert(d.in_state(i, TaskState::Running));
                lemma_demoted_sound(s);
            }
        }
    }
}

proof fn lemma_queue_has<F>(s: Sched<F>, m: int)
    requires
        s.wf(),
        0 <= m <= s.slots.len(),
    ensures
        forall|x: int|
            0 <= x < s.queue_from(m).len() ==> {
                let i = #[trigger] s.queue_from(m)[x] as int;
                s.runnable(i) && m <= s.turn(i) < s.slots.len()
            },
        forall|i: int|
            s.runnable(i) && s.turn(i) >= m ==> #[trigger] s.queue_from(m).contains(i as usize),
        s.queue_from(m).no_duplicates(),
    decreases s.slots.len() - m,
{
    let q = s.queue_from(m);
    if m < s.slots.len() {
        lemma_queue_has(s, m + 1);
        let rest = s.queue_from(m + 1);
        let p = s.place(m);
        assert(0 <= p < s.slots.len());
        assert(s.turn(p) == m);
        if s.runnable(p) {
            assert forall|x: int| 0 <= x < q.len() implies {
                let i = #[trigger] q[x] as int;
                s.runnable(i) && m <= s.turn(i) < s.slots.len()
            } by {
                if x > 0 {
                    assert(q[x] == rest[x - 1]);
                }
            }
            assert forall|i: int| s.runnable(i) && s.turn(i) >= m implies #[trigger] q.contains(
                i as usize,
            ) by {
                if s.turn(i) == m {
                    assert(i == p);
                    assert(q[0] == i as usize);
                } else {
                    assert(rest.contains(i as usize));
                    let x = rest.index_of(i as usize);
                    assert(q[x + 1] == i as usize);
                }
            }
            assert forall|x: int, y: int| 0 <= x < q.len() && 0 <= y < q.len() && x != y implies q[x]
                != q[y] by {
                if x > 0 {
                    assert(q[x] == rest[x - 1]);
                }
                if y > 0 {
                    assert(q[y] == rest[y - 1]);
                }
            }
        } else {
            assert forall|i: int| s.runnable(i) && s.turn(i) >= m implies #[trigger] q.contains(
                i as usize,
            ) by {
                if s.turn(i) == m {
                    assert(i == p);
                }
                assert(rest.contains(i as usize));
            }
        }
    }
}

/// From a state `s` whose cursor stands `c` places after that of `s0`, with nothing
/// that can run from there up to place `m`, the slots from place `m` on are picked
/// in their order.
proof fn lemma_round<F>(s0: Sched<F>, s: Sched<F>, c: int, m: int, x: nat)
    requires
        s0.wf(),
        s.sound(),
        s.slots.len() == s0.slots.len(),
        forall|i: int| #[trigger] s.runnable(i) == s0.runnable(i),
        0 <= c <= m <= s0.slots.len(),
        forall|i: int|
            0 <= i < s0.slots.len() ==> #[trigger] s.turn(i) == if s0.turn(i) >= c {
                s0.turn(i) - c
            } else {
                s0.turn(i) + s0.slots.len() - c
            },
        forall|i: int| #[trigger] s0.runnable(i) ==> !(c <= s0.turn(i) < m),
        x < s0.queue_from(m).len(),
    ensures
        s.after(x).picked() == Some(s0.queue_from(m)[x as int]),
        s.after(x).sound(),
        forall|i: int| #[trigger] s.after(x).runnable(i) == s0.runnable(i),
    decreases s0.slots.len() - m,
{
    let n = s0.slots.len() as int;
    let p = s0.place(m);
    assert(m < n);
    assert(0 <= p < n);
    assert(s0.turn(p) == m);
    if !s0.runnable(p) {
        assert forall|i: int| #[trigger] s0.runnable(i) implies !(c <= s0.turn(i) < m + 1) by {
            if s0.turn(i) == m {
                assert(i == p);
            }
        }
        lemma_round(s0, s, c, m + 1, x);
    } else {
        let d = s.demoted();
        lemma_demoted_ready(s);
        assert(s.runnable(p));
        assert(d.ready(p));
        assert(d.is_next(p)) by {
            assert forall|j: int| #[trigger] d.ready(j) implies d.turn(p) <= d.turn(j) by {
                assert(s.runnable(j));
                assert(s0.runnable(j));
                assert(d.turn(j) == s.turn(j));
                assert(d.turn(p) == s.turn(p));
                assert(s.turn(p) == m - c);
            }
        }
        lemma_next_is(d, p);
        assert(s.picked() == Some(p as usize));
        lemma_step_keeps_runnable(s);
        if x == 0 {
            assert(s.after(0) == s);
            assert(s0.queue_from(m)[0] == p as usize);
        } else {
            let t = s.scheduled().1;
            assert forall|i: int| 0 <= i < n implies #[trigger] t.turn(i) == if s0.turn(i) >= m + 1 {
                s0.turn(i) - (m + 1)
            } else {
                s0.turn(i) + n - (m + 1)
            } by {
                assert(t.cursor == p + 1);
            }
            assert forall|i: int| #[trigger] t.runnable(i) == s0.runnable(i) by {
                assert(s.runnable(i) == s0.runnable(i));
            }
            let y = (x - 1) as nat;
            assert(s0.queue_from(m) == seq![p as usize] + s0.queue_from(m + 1));
            lemma_round(s0, t, m + 1, m + 1, y);
            assert(s.after(x) == t.after(y));
            assert(s0.queue_from(m)[x as int] == s0.queue_from(m + 1)[y as int]);
        }
    }
}

/// Round robin: of as many scheduling decisions in a row as there are tasks that
/// can run, each picks another one of them, so that each is picked exactly once and
/// no other task ever. After each decision the picked task is the current one, and
/// no task but it is running.
pub proof fn law_round_picks_each_once<F>(s: Sched<F>)
    requires
        s.sound(),
    ensures
        ({
            let q = s.queue_from(0);
            &&& q.no_duplicates()
            &&& forall|i: int| s.runnable(i) ==> #[trigger] q.contains(i as usize)
            &&& forall|x: int| 0 <= x < q.len() ==> s.runnable(#[trigger] q[x] as int)
            &&& forall|x: nat|
                x < q.len() ==> {
                    let t = (#[trigger] s.after(x)).scheduled().1;
                    &&& s.after(x).picked() == Some(q[x as int])
                    &&& t.sound()
                    &&& t.current == q[x as int]
                    &&& t.in_state(t.current as int, TaskState::Running)
                    &&& forall|i: int| #[trigger] t.runnable(i) == s.runnable(i)
                }
        }),
{
    let q = s.queue_from(0);
    lemma_queue_has(s, 0);
    assert forall|i: int| s.runnable(i) implies #[trigger] q.contains(i as usize) by {
        assert(s.turn(i) >= 0);
    }
    assert forall|x: nat| x < q.len() implies {
        let t = (#[trigger] s.after(x)).scheduled().1;
        &&& s.after(x).picked() == Some(q[x as int])
        &&& t.sound()
        &&& t.current == q[x as int]
        &&& t.in_state(t.current as int, TaskState::Running)
        &&& forall|i: int| #[trigger] t.runnable(i) == s.runnable(i)
    } by {
        lemma_round(s, s, 0, 0, x);
        let a = s.after(x);
        lemma_step_keeps_runnable(a);
        law_schedule_is_sound(a);
        let t = a.scheduled().1;
        assert forall|i: int| #[trigger] t.runnable(i) == s.runnable(i) by {
            assert(a.runnable(i) == s.runnable(i));
        }
    }
}

/// Which ready slot comes next: the first from the cursor on; if none is ready there,
/// the first of all.
pub proof fn law_next_is_first_from_cursor<F>(s: Sched<F>, j: int)
    requires
        s.wf(),
        s.ready(j),
    ensures
        s.next() is Some,
        s.ready(s.next()->0 as int),
        j >= s.cursor ==> s.cursor <= s.next()->0 <= j,
        j < s.cursor && s.next()->0 < s.cursor ==> s.next()->0 <= j,
{
    lemma_next_exists(s, j);
    lemma_next_picks(s);
    let i = s.next()->0 as int;
    assert(s.turn(i) <= s.turn(j));
}

/// What a scheduling decision changes: the task that is picked is running then, the
/// one that was running is ready if another was picked, and nothing else of any task
/// changes. The search goes on behind the picked slot.
pub proof fn law_schedule_changes_states_only<F>(s: Sched<F>, i: int)
    requires
        s.sound(),
        s.live(i),
    ensures
        ({
            let (r, t) = s.scheduled();
            let a = s.slots[i]->0;
            let b = t.slots[i]->0;
            &&& t.live(i)
            &&& b.id == a.id && b.block == a.block && b.ctx == a.ctx && b.slice == a.slice && b.stack
                == a.stack && b.func == a.func
            &&& match r {
                Some((from, to)) => from == s.current && t.current == to && t.cursor == to + 1,
                None => t.current == s.current && t.cursor == s.cursor,
            }
            &&& b.state == if s.picked() == Some(i as usize) {
                TaskState::Running
            } else if a.state is Running {
                TaskState::Ready
            } else {
                a.state
            }
            &&& t.active == s.active
        }),
{
    lemma_demoted_sound(s);
    let d = s.demoted();
    if d.next() is Some {
        lemma_next_picks(d);
    }
    if s.in_state(i, TaskState::Running) {
        assert(i == s.current);
    }
}

/// What a tick changes: a sleeper whose time has come is no longer blocked; the
/// current task has a tick of its slice less, or two if none was left; and nothing
/// else of any task changes but who runs.
pub proof fn law_tick_changes_little<F>(s: Sched<F>, now: u64, i: int)
    requires
        s.sound(),
        s.live(i),
    ensures
        ({
            let t = s.ticked(now).1;
            let a = s.slots[i]->0;
            let b = t.slots[i]->0;
            let awake = s.active && a.state is Blocked && (a.block matches BlockReason::Sleep {
                wake_at,
            } && wake_at <= now);
            &&& t.live(i)
            &&& b.id == a.id && b.ctx == a.ctx && b.stack == a.stack && b.func == a.func
            &&& b.slice == if !s.active || i != s.current {
                a.slice as int
            } else if a.slice == 0 {
                2
            } else {
                a.slice - 1
            }
            &&& awake ==> b.block is Nothing && !(b.state is Blocked)
            &&& !awake ==> b.block == a.block && (b.state is Blocked <==> a.state is Blocked)
            &&& b.state is Zombie <==> a.state is Zombie
        }),
{
    if s.active {
        let w = s.woken(due(now));
        lemma_woken_sound(s, due(now));
        assert(w.slots[i] == unblocked(s.slots[i], due(now)));
        assert(w.live(i));
        lemma_charged_sound(w);
        let c = w.charged();
        assert(c.live(i));
        law_schedule_changes_states_only(c, i);
        if w.slice_over() {
            assert(s.live(s.current as int));
        }
    }
}

/// A task is finished once it is a zombie or gone.
pub proof fn law_finished_tasks<F>(s: Sched<F>, id: TaskId, i: int)
    requires
        s.sound(),
    ensures
        s.live(i) && s.slots[i]->0.id == id ==> (s.finished(id) <==> s.slots[i]->0.state is Zombie),
        (forall|j: int| #[trigger] s.live(j) ==> s.slots[j]->0.id != id) ==> s.finished(id),
{
    if s.live(i) && s.slots[i]->0.id == id {
        assert forall|j: int| #[trigger] s.is_slot_of(j, id) implies j == i by {
            assert(s.live(j) && s.live(i));
        }
        assert(s.is_slot_of(i, id)) by {
            assert forall|j: int| 0 <= j < i && #[trigger] s.live(j) implies s.slots[j]->0.id != id by {
                assert(s.live(j) && s.live(i));
            }
        }
    }
}

/// The snapshot lists the tasks slot by slot, with their identifiers and the names of
/// their states, and they are counted one by one; a free slot is not listed.
pub proof fn law_snapshot_lists_slots<F>(
    a: Seq<Option<Task<F>>>,
    b: Seq<Option<Task<F>>>,
    t: Task<F>,
)
    ensures
        snapshot_of(a + b) == snapshot_of(a) + snapshot_of(b),
        live_count(a + b) == live_count(a) + live_count(b),
        live_count(seq![Some(t)]) == 1,
        live_count(seq![None::<Task<F>>]) == 0,
        snapshot_of(seq![None::<Task<F>>]) == Seq::<(u32, &'static str)>::empty(),
        t.state is Ready ==> snapshot_of(seq![Some(t)]) == seq![(t.id.0, "ready")],
        t.state is Running ==> snapshot_of(seq![Some(t)]) == seq![(t.id.0, "running")],
        t.state is Blocked ==> snapshot_of(seq![Some(t)]) == seq![(t.id.0, "blocked")],
        t.state is Zombie ==> snapshot_of(seq![Some(t)]) == seq![(t.id.0, "zombie")],
    decreases b.len(),
{
    reveal_with_fuel(snapshot_of, 2);
    reveal_with_fuel(live_count, 2);
    let none = Seq::<Option<Task<F>>>::empty();
    let one = seq![Some(t)];
    let hole = seq![None::<Task<F>>];
    assert(one.drop_last() =~= none);
    assert(hole.drop_last() =~= none);
    assert(snapshot_of(one) =~= seq![(t.id.0, name_of(t.state))]);
    assert(snapshot_of(hole) =~= Seq::<(u32, &'static str)>::empty());
    if b.len() == 0 {
        assert(a + b =~= a);
        assert(snapshot_of(a) + snapshot_of(b) =~= snapshot_of(a));
    } else {
        assert((a + b).drop_last() =~= a + b.drop_last());
        assert((a + b).last() == b.last());
        law_snapshot_lists_slots(a, b.drop_last(), t);
        assert(snapshot_of(a + b) =~= snapshot_of(a) + snapshot_of(b));
    }
}

/// A new task takes the first free slot, or one behind the others if none is free; it
/// starts with two ticks, and the other slots keep what they hold.
pub proof fn law_spawn_takes_first_free_slot<F>(s: Sched<F>, t: Task<F>, func: F, entry: u64, j: int)
    requires
        s.wf(),
        s.next_id < u32::MAX,
        t.fresh(TaskId(s.next_id), func, DEFAULT_SLICE, entry),
    ensures
        ({
            let a = added(s, t);
            let i = hole_from(s.slots, 0);
            &&& 0 <= i <= s.slots.len()
            &&& !s.live(i)
            &&& 0 <= j < i ==> s.live(j)
            &&& a.slots[i] == Some(t)
            &&& t.slice == 2
            &&& 0 <= j < s.slots.len() && j != i ==> a.slots[j] == s.slots[j]
            &&& a.current == s.current && a.cursor == s.cursor && a.active == s.active
        }),
{
    lemma_hole(s.slots, 0);
    if 0 <= j < hole_from(s.slots, 0) {
        lemma_hole_is_first(s.slots, 0, j);
    }
}

/// What blocking changes: the current task is blocked for the reason that it gave, and
/// nothing else of any task changes but who runs.
pub proof fn law_block_changes_little<F>(s: Sched<F>, why: BlockReason, i: int)
    requires
        s.sound(),
        s.current != NO_TASK,
        s.live(i),
    ensures
        ({
            let t = s.current_set(TaskState::Blocked, why).gave_way().1;
            let a = s.slots[i]->0;
            let b = t.slots[i]->0;
            &&& t.live(i)
            &&& b.id == a.id && b.ctx == a.ctx && b.slice == a.slice && b.stack == a.stack && b.func
                == a.func
            &&& i == s.current ==> b.state is Blocked && b.block == why
            &&& i != s.current ==> b.block == a.block && (b.state is Blocked <==> a.state is Blocked)
                && (b.state is Zombie <==> a.state is Zombie)
        }),
{
    let u = s.current_set(TaskState::Blocked, why);
    lemma_set_current_sound(s, TaskState::Blocked, why);
    assert(u.live(i));
    law_schedule_changes_states_only(u, i);
    law_sleep_blocks(s, why);
}

/// What the end of the current task changes of the others: those that waited for it are
/// no longer blocked, and nothing else but who runs.
pub proof fn law_exit_changes_little<F>(s: Sched<F>, i: int)
    requires
        s.sound(),
        s.current != NO_TASK,
        s.live(i),
        i != s.current,
    ensures
        ({
            let t = s.exited().1;
            let a = s.slots[i]->0;
            let b = t.slots[i]->0;
            let waited = a.state is Blocked && (a.block matches BlockReason::Join { id } && id
                == s.slots[s.current as int]->0.id);
            &&& t.live(i)
            &&& !t.live(s.current as int)
            &&& b.id == a.id && b.ctx == a.ctx && b.slice == a.slice && b.stack == a.stack && b.func
                == a.func
            &&& waited ==> b.block is Nothing && !(b.state is Blocked)
            &&& !waited ==> b.block == a.block && (b.state is Blocked <==> a.state is Blocked)
            &&& b.state is Zombie <==> a.state is Zombie
        }),
{
    law_exit_wakes_joiners(s, i);
    law_exit_wakes_joiners(s, s.current as int);
    let cur = s.current as int;
    let dead = s.slots[cur]->0.id;
    let g = s.buried();
    assert(g.slots[i] == unblocked(s.slots[i], waits_for(dead)));
    assert(g.wf()) by {
        assert(g.slots.len() == s.slots.len());
    }
    if g.next() is Some {
        lemma_next_picks(g);
    }
}

} // verus!
