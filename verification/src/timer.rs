//! PIT (8253/8254) timer, programmed to fire IRQ0 at ~100 Hz.
use vstd::prelude::*;

verus! {

/// PIT channel 0 data port.
pub const PIT_CHANNEL0: u16 = 0x40;

/// PIT command port.
pub const PIT_COMMAND: u16 = 0x43;

/// PIT base oscillator frequency (Hz).
pub const PIT_BASE_FREQUENCY: u64 = 1_193_182;

/// Desired timer frequency (Hz) -> a tick every 10 ms.
pub const HZ: u64 = 100;

/// Monotonic tick counter, advanced on every IRQ0.
pub struct Timer {
    pub ticks: u64,
}

impl Timer {
    /// A clock at boot.
    pub fn new() -> (r: Timer)
        ensures
            r.ticks == 0,
    {
        Timer { ticks: 0 }
    }
}

/// Number of timer interrupts since boot.
pub fn ticks(t: &Timer) -> (r: u64)
    ensures
        r == t.ticks,
{
    t.ticks
}

/// Called on every IRQ0 to advance the clock; the largest count is followed by
/// zero.
pub fn tick(t: &mut Timer)
    ensures
        final(t).ticks == if old(t).ticks == u64::MAX {
            0
        } else {
            (old(t).ticks + 1) as u64
        },
{
    t.ticks = t.ticks.wrapping_add(1);
}

/// The port writes that program PIT channel 0 to generate `HZ` interrupts per
/// second: the mode (low byte then high byte, square wave, binary), then the two
/// bytes of the divisor, each as a write of its own.
pub fn init() -> (r: [(u16, u8); 3])
    ensures
        r@ == seq![
            (PIT_COMMAND, 0x36u8),
            (PIT_CHANNEL0, (PIT_BASE_FREQUENCY / HZ % 256) as u8),
            (PIT_CHANNEL0, (PIT_BASE_FREQUENCY / HZ / 256) as u8),
        ],
        r@[0] == (0x43u16, 0x36u8),
        r@[1].0 == 0x40 && r@[2].0 == 0x40,
        (r@[1].1 + 256 * r@[2].1) * 100 <= 1_193_182 < (r@[1].1 + 256 * r@[2].1 + 1) * 100,
{
    let divisor: u16 = (PIT_BASE_FREQUENCY / HZ) as u16;
    let r = [
        (PIT_COMMAND, 0x36u8),
        (PIT_CHANNEL0, (divisor % 256) as u8),
        (PIT_CHANNEL0, (divisor / 256) as u8),
    ];
    assert(r@ =~= seq![
        (PIT_COMMAND, 0x36u8),
        (PIT_CHANNEL0, (PIT_BASE_FREQUENCY / HZ % 256) as u8),
        (PIT_CHANNEL0, (PIT_BASE_FREQUENCY / HZ / 256) as u8),
    ]);
    r
}

/// Whether a second or more has passed between two readings of the clock.
pub fn clock_due(last: u64, now: u64) -> (r: bool)
    requires
        last <= now,
    ensures
        r == (now - last >= HZ),
        r <==> now >= last + 100,
{
    now - last >= HZ
}

} // verus!
