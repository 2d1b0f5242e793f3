//! The host-side runner: how the virtual machine is started, and what its exit
//! status means.
use vstd::prelude::*;
use crate::text::{owned, push_text, texts};

verus! {

/// Exit status with which the guest reports success.
pub const QEMU_SUCCESS: i32 = 0x10;

/// Exit status with which the guest reports failure.
pub const QEMU_FAILED: i32 = 0x11;

/// The exit code for a status of the virtual machine; one that was killed by a
/// signal has none.
pub fn exit_code(status: Option<i32>) -> (r: i32)
    ensures
        r == match status {
            Some(QEMU_SUCCESS) => 0,
            Some(QEMU_FAILED) => 1,
            Some(code) => code,
            None => 1,
        },
{
    match status {
        Some(QEMU_SUCCESS) => 0,
        Some(QEMU_FAILED) => 1,
        Some(code) => code,
        None => 1,
    }
}

/// The arguments that start the virtual machine from a disk image: 128 MiB of
/// memory, the console on standard output, no display, an exit device, and an
/// e1000 card on a user-mode network.
pub open spec fn machine_args(image: Seq<char>) -> Seq<Seq<char>> {
    seq![
        "-drive"@,
        "format=raw,file="@ + image,
        "-m"@,
        "128M"@,
        "-serial"@,
        "stdio"@,
        "-display"@,
        "none"@,
        "-no-reboot"@,
        "-device"@,
        "isa-debug-exit,iobase=0xf4,iosize=0x04"@,
        "-netdev"@,
        "user,id=n0,hostfwd=tcp::1234-:1234,hostfwd=udp::9999-:9999"@,
        "-device"@,
        "e1000,netdev=n0"@,
    ]
}

/// The arguments that start the virtual machine from a disk image.
pub fn qemu_args(image: &str) -> (r: Vec<String>)
    ensures
        texts(r@) == machine_args(image@),
{
    let mut drive = owned("format=raw,file=");
    push_text(&mut drive, image);
    let mut r: Vec<String> = Vec::new();
    r.push(owned("-drive"));
    r.push(drive);
    r.push(owned("-m"));
    r.push(owned("128M"));
    r.push(owned("-serial"));
    r.push(owned("stdio"));
    r.push(owned("-display"));
    r.push(owned("none"));
    r.push(owned("-no-reboot"));
    r.push(owned("-device"));
    r.push(owned("isa-debug-exit,iobase=0xf4,iosize=0x04"));
    r.push(owned("-netdev"));
    r.push(owned("user,id=n0,hostfwd=tcp::1234-:1234,hostfwd=udp::9999-:9999"));
    r.push(owned("-device"));
    r.push(owned("e1000,netdev=n0"));
    assert(texts(r@) =~= machine_args(image@));
    r
}

} // verus!
