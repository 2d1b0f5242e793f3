//! `devfs` - device files behind the VFS interface.
//!
//! Mounted at `/dev`. Writing to `/dev/console` goes to the serial port;
//! `/dev/null` swallows everything; `/dev/zero` yields infinite `\0` on read;
//! `/dev/kbd` reads decoded keypresses.
use vstd::prelude::*;
use super::vfs::{FsError, FsResult, Inode, InodeView};
use crate::bytes::{fitting, overlaid};
use crate::drivers::keyboard::{read_key, KeyboardState, KeyboardView};
use crate::text::{owned, same_text};

verus! {

/// The `devfs` filesystem object (stateless).
pub struct DevFs;

/// The device with this name.
pub open spec fn device(name: Seq<char>) -> FsResult<InodeView> {
    if name == "console"@ {
        Ok(InodeView::Console)
    } else if name == "null"@ {
        Ok(InodeView::Null)
    } else if name == "zero"@ {
        Ok(InodeView::Zero)
    } else if name == "kbd"@ {
        Ok(InodeView::Kbd)
    } else {
        Err(FsError::NotFound)
    }
}

impl DevFs {
    pub fn name(&self) -> (r: &'static str)
        ensures
            r == "devfs",
    {
        "devfs"
    }

    pub fn root(&self) -> (r: Inode)
        ensures
            r@ == InodeView::DevDir,
    {
        Inode::DevDir
    }
}

/// The device with this name, in the `/dev` directory.
pub fn lookup(name: &str) -> (r: FsResult<Inode>)
    ensures
        crate::fs::vfs::inode_result(r) == device(name@),
{
    if same_text(name, "console") {
        Ok(Inode::Console)
    } else if same_text(name, "null") {
        Ok(Inode::Null)
    } else if same_text(name, "zero") {
        Ok(Inode::Zero)
    } else if same_text(name, "kbd") {
        Ok(Inode::Kbd)
    } else {
        Err(FsError::NotFound)
    }
}

/// The names in the `/dev` directory.
pub open spec fn device_names() -> Seq<Seq<char>> {
    seq!["console"@, "null"@, "zero"@, "kbd"@]
}

/// The names in the `/dev` directory.
pub fn list_dir() -> (r: Vec<String>)
    ensures
        crate::text::texts(r@) == device_names(),
{
    let mut r: Vec<String> = Vec::new();
    r.push(owned("console"));
    r.push(owned("null"));
    r.push(owned("zero"));
    r.push(owned("kbd"));
    assert(crate::text::texts(r@) =~= device_names());
    r
}

/// Fill `buf` with zeros.
pub fn read_zero(buf: &mut [u8]) -> (n: usize)
    ensures
        n == old(buf)@.len(),
        final(buf)@ == Seq::new(old(buf)@.len(), |i: int| 0u8),
{
    let mut i: usize = 0;
    while i < buf.len()
        invariant
            i <= buf@.len(),
            buf@.len() == old(buf)@.len(),
            forall|j: int| 0 <= j < i ==> buf@[j] == 0,
        decreases buf@.len() - i,
    {
        buf[i] = 0;
        i = i + 1;
    }
    assert(buf@ =~= Seq::new(old(buf)@.len(), |i: int| 0u8));
    i
}

/// Fill `buf` with however many keys are buffered (none if there are none).
pub fn read_kbd(kb: &mut KeyboardState, buf: &mut [u8]) -> (n: usize)
    ensures
        n == fitting(old(kb)@.buffer, old(buf)@.len()),
        final(buf)@ == overlaid(old(buf)@, old(kb)@.buffer),
        final(kb)@ == (KeyboardView { buffer: old(kb)@.buffer.skip(n as int), ..old(kb)@ }),
{
    let mut n: usize = 0;
    assert(kb@.buffer.skip(0) =~= kb@.buffer);
    while n < buf.len()
        invariant
            n <= buf@.len(),
            n <= old(kb)@.buffer.len(),
            buf@.len() == old(buf)@.len(),
            kb@ == (KeyboardView { buffer: old(kb)@.buffer.skip(n as int), ..old(kb)@ }),
            forall|j: int| 0 <= j < n ==> buf@[j] == old(kb)@.buffer[j],
            forall|j: int| n <= j < buf@.len() ==> buf@[j] == old(buf)@[j],
        decreases buf@.len() - n,
    {
        match read_key(kb) {
            Some(b) => {
                buf[n] = b;
                n = n + 1;
                assert(kb@.buffer =~= old(kb)@.buffer.skip(n as int));
            },
            None => {
                assert(buf@ =~= overlaid(old(buf)@, old(kb)@.buffer));
                return n;
            },
        }
    }
    assert(buf@ =~= overlaid(old(buf)@, old(kb)@.buffer));
    n
}

} // verus!
