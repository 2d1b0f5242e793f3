//! Serial (COM1) console output.
//!
//! The serial port does not depend on a display; all of the kernel's output ends
//! up here. The bytes wait in order until the machine sends them.
use vstd::prelude::*;
use vstd::utf8::encode_utf8;
use crate::bytes::extend;

verus! {

/// I/O port of the 16550 UART.
pub const COM1: u16 = 0x3f8;

/// The console: bytes that have not been sent yet.
pub struct Serial {
    pub pending: Vec<u8>,
}

impl View for Serial {
    type V = Seq<u8>;

    open spec fn view(&self) -> Seq<u8> {
        self.pending@
    }
}

/// A console with nothing to send.
pub fn init() -> (r: Serial)
    ensures
        r@ == Seq::<u8>::empty(),
{
    Serial { pending: Vec::new() }
}

/// Write text to the console.
pub fn _print(s: &mut Serial, text: &str)
    ensures
        final(s)@ == old(s)@ + encode_utf8(text@),
{
    extend(&mut s.pending, text.as_bytes());
}

/// Write raw bytes to the serial console (the buffer is arbitrary bytes and not
/// guaranteed to be valid UTF-8).
pub fn write_bytes(s: &mut Serial, bytes: &[u8])
    ensures
        final(s)@ == old(s)@ + bytes@,
{
    extend(&mut s.pending, bytes);
}

impl Serial {
    /// Hand out the bytes to send, in order.
    pub fn take_pending(&mut self) -> (r: Vec<u8>)
        ensures
            r@ == old(self)@,
            final(self)@ == Seq::<u8>::empty(),
    {
        let mut r: Vec<u8> = Vec::new();
        std::mem::swap(&mut r, &mut self.pending);
        r
    }
}

} // verus!
