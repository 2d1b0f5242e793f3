//! Task contexts.
//!
//! A context switch saves six callee-saved registers and the stack pointer, and
//! restores the next task's. Only `rsp` needs to be remembered per task: the
//! registers are pushed on the task's own kernel stack, and the instruction
//! pointer is the return address that sits above them.
use vstd::prelude::*;

verus! {

/// Per-task switch state. Just the saved stack pointer; everything else lives on
/// the stack pointed to by `rsp`.
#[derive(Clone, Copy, PartialEq, Eq, Structural, Debug)]
pub struct TaskContext {
    pub rsp: u64,
}

/// The `n` bytes of `x`, least significant first.
pub open spec fn le_bytes(x: nat, n: nat) -> Seq<u8>
    decreases n,
{
    if n == 0 {
        seq![]
    } else {
        seq![(x % 256) as u8] + le_bytes(x / 256, (n - 1) as nat)
    }
}

/// Whether the eight bytes at `i` spell `x`, least significant first.
pub open spec fn word_at(m: Seq<u8>, i: int, x: u64) -> bool {
    m.subrange(i, i + 8) == le_bytes(x as nat, 8)
}

/// The 16-byte aligned top of the stack that spans `base..base + size`.
pub open spec fn stack_top(base: u64, size: usize) -> int {
    (base + size) / 16 * 16
}

/// The slot that holds the return address of a fresh task.
pub open spec fn return_slot(base: u64, size: usize) -> int {
    stack_top(base, size) - 16
}

/// Whether `after` is `before` with the frame of a fresh task at `i`: six zero
/// words, then the return address `entry`.
pub open spec fn framed(before: Seq<u8>, after: Seq<u8>, i: int, entry: u64) -> bool {
    &&& after.len() == before.len()
    &&& word_at(after, i + 48, entry)
    &&& forall|k: int| 0 <= k < 6 ==> word_at(after, #[trigger] (i + 8 * k), 0)
    &&& forall|j: int| 0 <= j < before.len() && !(i <= j < i + 56) ==> after[j] == before[j]
}

proof fn lemma_le_bytes_len(x: nat, n: nat)
    ensures
        le_bytes(x, n).len() == n,
    decreases n,
{
    if n > 0 {
        lemma_le_bytes_len(x / 256, (n - 1) as nat);
    }
}

fn write_word(m: &mut [u8], at: usize, x: u64)
    requires
        at + 8 <= old(m)@.len(),
    ensures
        final(m)@ == old(m)@.take(at as int) + le_bytes(x as nat, 8) + old(m)@.skip(at + 8),
        final(m)@.len() == old(m)@.len(),
        word_at(final(m)@, at as int, x),
        forall|j: int|
            0 <= j < old(m)@.len() && !(at <= j < at + 8) ==> final(m)@[j] == old(m)@[j],
{
    let len: usize = m.len();
    let mut rest: u64 = x;
    let mut i: usize = 0;
    while i < 8
        invariant
            i <= 8,
            at + 8 <= len,
            len == m@.len(),
            m@.len() == old(m)@.len(),
            m@.subrange(at as int, at + i) + le_bytes(rest as nat, (8 - i) as nat) == le_bytes(
                x as nat,
                8,
            ),
            forall|j: int|
                0 <= j < m@.len() && !(at <= j < at + 8) ==> m@[j] == old(m)@[j],
        decreases 8 - i,
    {
        let ghost before = m@;
        m[at + i] = (rest % 256) as u8;
        proof {
            let b = (rest % 256) as u8;
            assert(m@.subrange(at as int, at + i + 1) =~= before.subrange(at as int, at + i).push(
                b,
            ));
            assert(before.subrange(at as int, at + i).push(b) + le_bytes(
                (rest / 256) as nat,
                (8 - i - 1) as nat,
            ) =~= before.subrange(at as int, at + i) + le_bytes(rest as nat, (8 - i) as nat));
        }
        rest = rest / 256;
        i = i + 1;
    }
    proof {
        lemma_le_bytes_len(x as nat, 8);
        assert(m@.subrange(at as int, at + 8) =~= le_bytes(x as nat, 8));
        assert(m@ =~= old(m)@.take(at as int) + m@.subrange(at as int, at + 8) + old(m)@.skip(
            at + 8,
        ));
    }
}

/// Build the [`TaskContext`] for a brand-new task whose stack spans
/// `stack_base..stack_base + stack_size` and whose entry point is `entry`.
/// `memory` is the memory that starts at address `origin` and holds the stack.
///
/// The synthetic frame matches what a context switch pops: six zeroed
/// callee-saved slots followed by a return address. On first resume the task
/// "returns" into `entry`.
pub fn initial_context(
    memory: &mut [u8],
    origin: u64,
    stack_base: u64,
    stack_size: usize,
    entry: u64,
) -> (r: TaskContext)
    requires
        origin <= stack_base,
        stack_base + stack_size <= origin + old(memory)@.len() <= u64::MAX,
        stack_size >= 80,
    ensures
        r.rsp == return_slot(stack_base, stack_size) - 48,
        framed(old(memory)@, final(memory)@, r.rsp - origin, entry),
{
    let end: u64 = stack_base + stack_size as u64;
    let top: u64 = end - end % 16;
    let ret_slot: u64 = top - 16;
    let len: usize = memory.len();
    assert(ret_slot - origin <= len);
    let at: usize = (ret_slot - origin) as usize;
    write_word(memory, at, entry);
    let mut i: usize = 0;
    while i < 6
        invariant
            i <= 6,
            at >= 48,
            at + 8 <= memory@.len(),
            memory@.len() == old(memory)@.len(),
            word_at(memory@, at as int, entry),
            forall|k: int| 0 <= k < i ==> word_at(memory@, #[trigger] (at - 8 - 8 * k), 0),
            forall|j: int|
                0 <= j < memory@.len() && !(at - 48 <= j < at + 8) ==> memory@[j] == old(memory)@[j],
        decreases 6 - i,
    {
        let ghost before = memory@;
        write_word(memory, at - 8 - i * 8, 0);
        proof {
            assert(memory@.subrange(at as int, at + 8) =~= before.subrange(at as int, at + 8));
            assert forall|k: int| 0 <= k < i + 1 implies word_at(
                memory@,
                #[trigger] (at - 8 - 8 * k),
                0,
            ) by {
                if k < i {
                    let p = at - 8 - 8 * k;
                    assert(memory@.subrange(p, p + 8) =~= before.subrange(p, p + 8));
                }
            }
        }
        i = i + 1;
    }
    proof {
        assert forall|k: int| 0 <= k < 6 implies word_at(
            memory@,
            #[trigger] (ret_slot - 48 - origin + 8 * k),
            0,
        ) by {
            assert(at - 8 - 8 * (5 - k) == ret_slot - 48 - origin + 8 * k);
        }
    }
    TaskContext { rsp: ret_slot - 48 }
}

/// Every byte of a zero word is zero.
pub(crate) proof fn lemma_zero_word(i: int)
    requires
        0 <= i < 8,
    ensures
        le_bytes(0, 8)[i] == 0,
{
    reveal_with_fuel(le_bytes, 9);
}

/// The saved stack pointer of a fresh task is 16-byte aligned and lies inside its
/// stack, and so does the slot with the return address above the six registers.
pub proof fn law_initial_frame_is_inside(base: u64, size: usize)
    requires
        size >= 80,
        base + size <= u64::MAX,
    ensures
        (return_slot(base, size) - 48) % 16 == 0,
        base <= return_slot(base, size) - 48,
        return_slot(base, size) + 8 <= base + size,
{
}

/// A word in memory reads as the number that it spells, each byte weighing 256 times
/// the one before.
pub proof fn law_word_reads_back(m: Seq<u8>, i: int, x: u64)
    requires
        0 <= i,
        i + 8 <= m.len(),
        word_at(m, i, x),
    ensures
        m[i] + m[i + 1] * 0x100 + m[i + 2] * 0x1_0000 + m[i + 3] * 0x100_0000 + m[i + 4]
            * 0x1_0000_0000 + m[i + 5] * 0x100_0000_0000 + m[i + 6] * 0x1_0000_0000_0000 + m[i + 7]
            * 0x100_0000_0000_0000 == x,
{
    let w = m.subrange(i, i + 8);
    assert(w == le_bytes(x as nat, 8));
    let n = x as nat;
    reveal_with_fuel(le_bytes, 9);
    assert(w[0] == m[i] && w[1] == m[i + 1] && w[2] == m[i + 2] && w[3] == m[i + 3]);
    assert(w[4] == m[i + 4] && w[5] == m[i + 5] && w[6] == m[i + 6] && w[7] == m[i + 7]);
    let n1 = n / 256;
    let n2 = n1 / 256;
    let n3 = n2 / 256;
    let n4 = n3 / 256;
    let n5 = n4 / 256;
    let n6 = n5 / 256;
    let n7 = n6 / 256;
    assert(w[0] == n % 256 && w[1] == n1 % 256 && w[2] == n2 % 256 && w[3] == n3 % 256);
    assert(w[4] == n4 % 256 && w[5] == n5 % 256 && w[6] == n6 % 256 && w[7] == n7 % 256);
    assert(n7 < 256);
}

/// The top of a stack is the last multiple of sixteen in it, and the return address of
/// a fresh task stands sixteen bytes below.
pub proof fn law_stack_top_is_aligned(base: u64, size: usize)
    ensures
        stack_top(base, size) % 16 == 0,
        stack_top(base, size) <= base + size < stack_top(base, size) + 16,
        return_slot(base, size) + 16 == stack_top(base, size),
{
}

} // verus!
