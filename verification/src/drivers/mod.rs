//! Hardware device drivers.
//!
//! * `keyboard` - PS/2 keyboard feeding `/dev/kbd`.
//! * `e1000` - Intel e1000 network card (PCI), polled transmit/receive.

pub mod e1000;
pub mod keyboard;
