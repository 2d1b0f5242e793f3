//! Interrupt vectors, and what the hardware interrupts do.
//!
//! The 8259 controllers are remapped so that IRQ0..15 arrive at vectors 32..47,
//! which leaves 0..31 for CPU exceptions.
use vstd::prelude::*;
use crate::drivers::keyboard::{handle_scancode, KeyboardState};
use crate::process::scheduler::{self, Action, Scheduler};
use crate::timer::{self, Timer};

verus! {

/// Primary controller offset (IRQ0 -> vector 32).
pub const PIC_1_OFFSET: u8 = 32;

/// Secondary controller offset (IRQ8 -> vector 40).
pub const PIC_2_OFFSET: u8 = 40;

/// Vector for the PIT timer (IRQ0).
pub const TIMER_INTERRUPT_INDEX: u8 = PIC_1_OFFSET;

/// Vector for the PS/2 keyboard (IRQ1).
pub const KEYBOARD_INTERRUPT_INDEX: u8 = PIC_1_OFFSET + 1;

/// Vector of the system-call gate.
pub const SYSCALL_INTERRUPT_INDEX: u8 = 0x80;

/// The interrupt masks with IRQ0 (timer) and IRQ1 (keyboard) unmasked and all
/// others as they were.
pub fn unmask(masks: [u8; 2]) -> (r: [u8; 2])
    ensures
        r@ == seq![masks@[0] & !0x03u8, masks@[1]],
        r@[0] == masks@[0] - masks@[0] % 4,
{
    let m: u8 = masks[0];
    assert(m & !0x03u8 == m - m % 4) by (bit_vector);
    let r = [m & !0x03u8, masks[1]];
    assert(r@ =~= seq![masks@[0] & !0x03u8, masks@[1]]);
    r
}

/// What a timer interrupt does: advance the clock, and give the scheduler a
/// chance to preempt.
pub fn timer_interrupt<F>(t: &mut Timer, s: &mut Scheduler<F>) -> (r: Action)
    requires
        old(s)@.wf(),
    ensures
        final(s)@.wf(),
        final(t).ticks == if old(t).ticks == u64::MAX {
            0
        } else {
            (old(t).ticks + 1) as u64
        },
        (r, final(s)@) == old(s)@.ticked(final(t).ticks),
{
    timer::tick(t);
    scheduler::tick(s, timer::ticks(t))
}

/// What a keyboard interrupt does: decode the scancode that was read.
pub fn keyboard_interrupt(kb: &mut KeyboardState, scancode: u8)
    ensures
        final(kb)@ == old(kb)@.scanned(scancode),
{
    handle_scancode(kb, scancode);
}

} // verus!
