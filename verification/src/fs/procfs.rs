//! `procfs` - synthetic files over live kernel state.
//!
//! Mounted at `/proc`. Nothing is stored: reading a file regenerates its text
//! from the running kernel, so that information looks exactly like files.
use vstd::prelude::*;
use vstd::utf8::encode_utf8;
use super::vfs::{inode_result, FsError, FsResult, Inode, InodeView};
use crate::bytes::{fitting, overlaid, read_at, rest_from};
use crate::system::{System, SystemView};
use crate::text::{decimal, owned, push_decimal, push_text, push_usize, same_text, texts};
use crate::timer::HZ;

verus! {

/// The `procfs` filesystem object (stateless).
pub struct ProcFs;

/// A read-only synthetic file, by what its text says.
#[derive(Clone, Copy, PartialEq, Eq, Structural, Debug)]
pub enum ProcFile {
    Meminfo,
    Uptime,
}

impl ProcFs {
    pub fn name(&self) -> (r: &'static str)
        ensures
            r == "procfs",
    {
        "procfs"
    }

    pub fn root(&self) -> (r: Inode)
        ensures
            r@ == InodeView::ProcDir,
    {
        Inode::ProcDir
    }
}

/// The synthetic file with this name.
pub open spec fn proc_file(name: Seq<char>) -> FsResult<InodeView> {
    if name == "meminfo"@ {
        Ok(InodeView::Proc(ProcFile::Meminfo))
    } else if name == "uptime"@ {
        Ok(InodeView::Proc(ProcFile::Uptime))
    } else {
        Err(FsError::NotFound)
    }
}

/// The synthetic file with this name, in the `/proc` directory.
pub fn lookup(name: &str) -> (r: FsResult<Inode>)
    ensures
        inode_result(r) == proc_file(name@),
{
    if same_text(name, "meminfo") {
        Ok(Inode::Proc(ProcFile::Meminfo))
    } else if same_text(name, "uptime") {
        Ok(Inode::Proc(ProcFile::Uptime))
    } else {
        Err(FsError::NotFound)
    }
}

/// The names in the `/proc` directory.
pub open spec fn proc_names() -> Seq<Seq<char>> {
    seq!["meminfo"@, "uptime"@]
}

/// The names in the `/proc` directory.
pub fn list_dir() -> (r: Vec<String>)
    ensures
        texts(r@) == proc_names(),
{
    let mut r: Vec<String> = Vec::new();
    r.push(owned("meminfo"));
    r.push(owned("uptime"));
    assert(texts(r@) =~= proc_names());
    r
}

/// What `/proc/meminfo` says.
pub open spec fn meminfo_text(s: SystemView) -> Seq<char> {
    "MemTotal: "@ + decimal(s.heap.total as nat / 1024) + " KiB\nMemUsed: "@ + decimal(
        s.heap.used as nat / 1024,
    ) + " KiB\nMemFree: "@ + decimal(s.heap.free as nat / 1024) + " KiB\nFreeFrames: "@ + decimal(
        s.frames.free_count() as nat,
    ) + "\n"@
}

/// What `/proc/uptime` says.
pub open spec fn uptime_text(s: SystemView) -> Seq<char> {
    decimal(s.ticks as nat / 100) + " seconds since boot\n"@
}

/// What a synthetic file says.
pub open spec fn proc_text(p: ProcFile, s: SystemView) -> Seq<char> {
    match p {
        ProcFile::Meminfo => meminfo_text(s),
        ProcFile::Uptime => uptime_text(s),
    }
}

pub fn meminfo(s: &System) -> (r: String)
    ensures
        r@ == meminfo_text(s@),
{
    let free_frames: usize = s.frames.free_count();
    let mut r = owned("MemTotal: ");
    push_usize(&mut r, s.heap.total / 1024);
    push_text(&mut r, " KiB\nMemUsed: ");
    push_usize(&mut r, s.heap.used / 1024);
    push_text(&mut r, " KiB\nMemFree: ");
    push_usize(&mut r, s.heap.free / 1024);
    push_text(&mut r, " KiB\nFreeFrames: ");
    push_usize(&mut r, free_frames);
    push_text(&mut r, "\n");
    r
}

pub fn uptime(s: &System) -> (r: String)
    ensures
        r@ == uptime_text(s@),
{
    let secs: u64 = s.timer.ticks / HZ;
    let mut r = String::new();
    push_decimal(&mut r, secs);
    push_text(&mut r, " seconds since boot\n");
    assert(r@ =~= uptime_text(s@));
    r
}

/// Read a synthetic file from `offset` on.
pub fn read(p: ProcFile, s: &System, offset: u64, buf: &mut [u8]) -> (n: usize)
    ensures
        n == fitting(rest_from(encode_utf8(proc_text(p, s@)), offset), old(buf)@.len()),
        final(buf)@ == overlaid(
            old(buf)@,
            rest_from(encode_utf8(proc_text(p, s@)), offset),
        ),
{
    let content = match p {
        ProcFile::Meminfo => meminfo(s),
        ProcFile::Uptime => uptime(s),
    };
    read_at(content.as_str().as_bytes(), offset, buf)
}

/// What `/proc/uptime` says: the whole seconds in the ticks, of which a hundred make
/// one.
pub proof fn law_uptime_counts_seconds(s: SystemView, seconds: nat)
    requires
        seconds * 100 <= s.ticks < (seconds + 1) * 100,
    ensures
        proc_text(ProcFile::Uptime, s) == decimal(seconds) + " seconds since boot\n"@,
{
    assert(s.ticks as nat / 100 == seconds);
}

/// What `/proc/meminfo` says: the whole KiB of the heap in all, in use and free, and
/// the number of free frames.
pub proof fn law_meminfo_counts_kib(s: SystemView, total: nat, used: nat, free: nat)
    requires
        total * 1024 <= s.heap.total < (total + 1) * 1024,
        used * 1024 <= s.heap.used < (used + 1) * 1024,
        free * 1024 <= s.heap.free < (free + 1) * 1024,
    ensures
        proc_text(ProcFile::Meminfo, s) == "MemTotal: "@ + decimal(total) + " KiB\nMemUsed: "@
            + decimal(used) + " KiB\nMemFree: "@ + decimal(free) + " KiB\nFreeFrames: "@ + decimal(
            s.frames.free_count() as nat,
        ) + "\n"@,
{
    assert(s.heap.total as nat / 1024 == total);
    assert(s.heap.used as nat / 1024 == used);
    assert(s.heap.free as nat / 1024 == free);
}

} // verus!
