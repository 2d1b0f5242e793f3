//! The state that the kernel's parts share: console, keyboard, network, memory
//! and clock.
use vstd::prelude::*;
use crate::drivers::keyboard::{KeyboardState, KeyboardView};
use crate::memory::heap::HeapStats;
use crate::memory::pmm::{BitmapFrameAllocator, Frames, NUM_FRAMES};
use crate::net::{Stack, StackView};
use crate::serial::Serial;
use crate::timer::Timer;

verus! {

pub struct System {
    pub serial: Serial,
    pub keyboard: KeyboardState,
    pub net: Stack,
    pub frames: BitmapFrameAllocator,
    /// How full the heap was when that was last taken down.
    pub heap: HeapStats,
    pub timer: Timer,
}

/// The state of a [`System`].
#[verifier::ext_equal]
pub struct SystemView {
    pub serial: Seq<u8>,
    pub keyboard: KeyboardView,
    pub net: StackView,
    pub frames: Frames,
    pub heap: HeapStats,
    pub ticks: u64,
}

impl View for System {
    type V = SystemView;

    open spec fn view(&self) -> SystemView {
        SystemView {
            serial: self.serial@,
            keyboard: self.keyboard@,
            net: self.net@,
            frames: self.frames@,
            heap: self.heap,
            ticks: self.timer.ticks,
        }
    }
}

impl System {
    /// The state at boot: nothing to send, nothing typed, no card, no frame
    /// released, the clock at zero.
    pub fn new(heap: HeapStats) -> (r: System)
        ensures
            r.frames.wf(),
            r@ == (SystemView {
                serial: seq![],
                keyboard: KeyboardView { fed: seq![], seen: seq![], buffer: seq![] },
                net: StackView {
                    nic: None,
                    cache: Map::empty(),
                    sockets: seq![],
                    events: seq![],
                },
                frames: Frames { used: Seq::new(NUM_FRAMES as nat, |f: int| true), hint: 0 },
                heap,
                ticks: 0,
            }),
    {
        System {
            serial: crate::serial::init(),
            keyboard: KeyboardState::new(),
            net: Stack::new(),
            frames: BitmapFrameAllocator::new(),
            heap,
            timer: Timer::new(),
        }
    }
}

} // verus!
