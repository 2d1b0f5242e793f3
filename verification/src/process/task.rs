//! Task abstraction: identity, state machine, and per-task kernel stack.
use vstd::prelude::*;
use super::context::{
    self, framed, law_initial_frame_is_inside, law_word_reads_back, return_slot, word_at, TaskContext,
};

verus! {

/// Unique task identifier (newtype so it can't be confused with a plain u32).
#[derive(Clone, Copy, PartialEq, Eq, PartialOrd, Ord, Structural, Debug)]
pub struct TaskId(pub u32);

/// Cooperative + preemptive lifecycle of a task.
#[derive(Clone, Copy, PartialEq, Eq, Structural, Debug)]
pub enum TaskState {
    /// Runnable, waiting for its turn.
    Ready,
    /// Currently executing on the CPU.
    Running,
    /// Waiting for an event (see [`BlockReason`]).
    Blocked,
    /// Finished; awaiting `join`. Its stack is freed on reaping.
    Zombie,
}

/// Why a task is [`TaskState::Blocked`].
#[derive(Clone, Copy, PartialEq, Eq, Structural, Debug)]
pub enum BlockReason {
    /// Not blocked.
    Nothing,
    /// Blocked until the timer reaches `wake_at` ticks.
    Sleep { wake_at: u64 },
    /// Blocked until task `id` becomes a [`TaskState::Zombie`].
    Join { id: TaskId },
}

/// Size of each task's kernel stack (16 KiB).
pub const KERNEL_STACK_SIZE: usize = 16384;

/// A heap-allocated, per-task kernel stack.
///
/// The backing buffer is never resized, so its address stays valid for the
/// task's whole life.
pub struct KernelStack {
    pub buffer: Vec<u8>,
    /// Address of the buffer's first byte.
    pub origin: u64,
}

/// `Vec::as_ptr`: the address of the buffer's first byte. The address behind its
/// last byte is an address too. Which address it is, the allocator decides.
#[verifier::external_body]
fn address_of(v: &Vec<u8>) -> (r: u64)
    ensures
        r + v@.len() <= u64::MAX,
{
    v.as_ptr() as u64
}

impl KernelStack {
    pub open spec fn wf(self) -> bool {
        &&& self.buffer@.len() == KERNEL_STACK_SIZE
        &&& self.origin + KERNEL_STACK_SIZE <= u64::MAX
    }

    /// First 16-byte aligned address of the buffer.
    pub open spec fn base(self) -> int {
        (self.origin + 15) / 16 * 16
    }

    /// Bytes from there to the buffer's last 16-byte aligned address.
    pub open spec fn size(self) -> int {
        (self.origin + KERNEL_STACK_SIZE) / 16 * 16 - self.base()
    }

    /// Whether the stack holds the frame of a task that starts at `entry`, and
    /// nothing else, and `ctx` points to that frame.
    pub open spec fn starts_at(self, ctx: TaskContext, entry: u64) -> bool {
        let slot = return_slot(self.base() as u64, self.size() as usize);
        &&& ctx.rsp == slot - 48
        &&& word_at(self.buffer@, slot - self.origin, entry)
        &&& forall|j: int|
            0 <= j < self.buffer@.len() && !(slot - self.origin <= j < slot - self.origin + 8)
                ==> self.buffer@[j] == 0
    }

    pub fn new() -> (r: KernelStack)
        ensures
            r.wf(),
            forall|i: int| 0 <= i < KERNEL_STACK_SIZE ==> r.buffer@[i] == 0,
    {
        let buffer = vec![0u8; KERNEL_STACK_SIZE];
        let origin: u64 = address_of(&buffer);
        KernelStack { buffer, origin }
    }

    /// 16-byte-aligned base address of the usable region.
    pub fn aligned_base(&self) -> (r: u64)
        requires
            self.wf(),
        ensures
            r == self.base(),
    {
        let raised: u64 = self.origin + 15;
        raised - raised % 16
    }

    /// Usable (aligned) size in bytes.
    pub fn usable_size(&self) -> (r: usize)
        requires
            self.wf(),
        ensures
            r == self.size(),
    {
        let base: u64 = self.aligned_base();
        let end: u64 = self.origin + self.buffer.len() as u64;
        (end - end % 16 - base) as usize
    }

    /// Produce the initial [`TaskContext`] that will start running at `entry`.
    pub fn initial_context(&mut self, entry: u64) -> (r: TaskContext)
        requires
            old(self).wf(),
        ensures
            final(self).wf(),
            final(self).origin == old(self).origin,
            r.rsp == return_slot(old(self).base() as u64, old(self).size() as usize) - 48,
            framed(old(self).buffer@, final(self).buffer@, r.rsp - old(self).origin, entry),
    {
        let base: u64 = self.aligned_base();
        let size: usize = self.usable_size();
        context::initial_context(self.buffer.as_mut_slice(), self.origin, base, size, entry)
    }

    /// Debug helper: the stack's address range.
    pub fn range(&self) -> (r: (u64, u64))
        requires
            self.wf(),
        ensures
            r.0 == self.base(),
            r.1 == self.size(),
    {
        (self.aligned_base(), self.usable_size() as u64)
    }
}

/// A single schedulable kernel task, with a body of type `F`.
pub struct Task<F> {
    pub id: TaskId,
    pub state: TaskState,
    pub block: BlockReason,
    pub ctx: TaskContext,
    /// Remaining ticks of the current time slice before the timer preempts it.
    pub slice: u64,
    pub stack: KernelStack,
    pub func: Option<F>,
}

impl<F> Task<F> {
    /// Whether the task is new: ready, not blocked, with its body, and about to
    /// start at `entry` on its own stack.
    pub open spec fn fresh(self, id: TaskId, func: F, slice: u64, entry: u64) -> bool {
        &&& self.id == id
        &&& self.state == TaskState::Ready
        &&& self.block == BlockReason::Nothing
        &&& self.slice == slice
        &&& self.func == Some(func)
        &&& self.stack.wf()
        &&& self.stack.starts_at(self.ctx, entry)
    }

    /// Create a ready task with a fresh stack wired to `entry`.
    pub fn new(id: TaskId, func: F, slice: u64, entry: u64) -> (t: Task<F>)
        ensures
            t.fresh(id, func, slice, entry),
    {
        let mut stack = KernelStack::new();
        let ghost blank = stack.buffer@;
        let ctx = stack.initial_context(entry);
        proof {
            let m = stack.buffer@;
            let slot = ctx.rsp - stack.origin + 48;
            assert forall|j: int| 0 <= j < m.len() && !(slot <= j < slot + 8) implies m[j] == 0 by {
                if slot - 48 <= j < slot {
                    let k = (j - (slot - 48)) / 8;
                    let p = ctx.rsp - stack.origin + 8 * k;
                    assert(word_at(m, p, 0));
                    assert(m[j] == m.subrange(p, p + 8)[j - p]);
                    context::lemma_zero_word(j - p);
                } else {
                    assert(m[j] == blank[j]);
                }
            }
        }
        Task {
            id,
            state: TaskState::Ready,
            block: BlockReason::Nothing,
            ctx,
            slice,
            stack,
            func: Some(func),
        }
    }

    /// Take the task body (only succeeds once).
    pub fn take_func(&mut self) -> (r: Option<F>)
        ensures
            r == old(self).func,
            *final(self) == (Task { func: None, ..*old(self) }),
    {
        self.func.take()
    }

    /// View of the stack range (for diagnostics).
    pub fn stack_range(&self) -> (r: (u64, u64))
        requires
            self.stack.wf(),
        ensures
            r.0 == self.stack.base(),
            r.1 == self.stack.size(),
    {
        self.stack.range()
    }
}

/// The usable range of a stack is aligned, lies inside its buffer, and is all of it
/// but for at most 16 bytes.
pub proof fn law_stack_range(k: KernelStack)
    requires
        k.wf(),
    ensures
        k.base() % 16 == 0,
        k.size() % 16 == 0,
        k.size() == KERNEL_STACK_SIZE || k.size() == KERNEL_STACK_SIZE - 16,
        k.origin <= k.base(),
        k.base() + k.size() <= k.origin + KERNEL_STACK_SIZE,
{
}

/// Where a fresh task starts: its saved stack pointer is aligned and inside its stack;
/// above six zero registers, eight bytes each, stands the address of its entry.
pub proof fn law_fresh_task_starts_at_entry<F>(
    t: Task<F>,
    id: TaskId,
    func: F,
    slice: u64,
    entry: u64,
    j: int,
)
    requires
        t.fresh(id, func, slice, entry),
    ensures
        ({
            let m = t.stack.buffer@;
            let at = t.ctx.rsp - t.stack.origin;
            &&& t.id == id && t.slice == slice && t.func == Some(func)
            &&& t.state is Ready && t.block is Nothing
            &&& t.ctx.rsp % 16 == 0
            &&& 0 <= at && at + 56 <= m.len()
            &&& 0 <= j < 48 ==> m[at + j] == 0
            &&& m[at + 48] + m[at + 49] * 0x100 + m[at + 50] * 0x1_0000 + m[at + 51] * 0x100_0000 + m[
            at + 52] * 0x1_0000_0000 + m[at + 53] * 0x100_0000_0000 + m[at + 54]
                * 0x1_0000_0000_0000 + m[at + 55] * 0x100_0000_0000_0000 == entry
        }),
{
    let k = t.stack;
    law_stack_range(k);
    law_initial_frame_is_inside(k.base() as u64, k.size() as usize);
    let slot = return_slot(k.base() as u64, k.size() as usize);
    law_word_reads_back(k.buffer@, slot - k.origin, entry);
}

} // verus!
