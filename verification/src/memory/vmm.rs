//! Virtual memory manager: what is mapped where, and with which flags.
//!
//! All of physical memory is mapped at a fixed offset, so a physical frame can
//! always be reached at `offset + phys_addr`.
use vstd::prelude::*;
use x86_64::VirtAddr;
use super::pmm::BitmapFrameAllocator;

verus! {

/// Page-table entry bits.
pub const PRESENT: u64 = 0x1;

pub const WRITABLE: u64 = 0x2;

pub const USER_ACCESSIBLE: u64 = 0x4;

pub const NO_CACHE: u64 = 0x10;

pub const NO_EXECUTE: u64 = 0x8000_0000_0000_0000;

/// Errors from the mapping helpers.
#[derive(Clone, Copy, PartialEq, Eq, Structural, Debug)]
pub enum MapError {
    MapFailed,
    OutOfFrames,
}

/// Whether bits 48 to 63 of `addr` are all copies of bit 47.
pub open spec fn canonical(addr: u64) -> bool {
    addr < 0x8000_0000_0000 || addr >= 0xffff_8000_0000_0000
}

/// `VirtAddr::try_new` accepts exactly the addresses whose bits 48 to 63 are
/// copies of bit 47.
#[verifier::external_body]
pub(crate) fn is_canonical(addr: u64) -> (r: bool)
    ensures
        r == canonical(addr),
{
    VirtAddr::try_new(addr).is_ok()
}

/// The page that holds `addr`: its first address.
pub open spec fn page_of(addr: u64) -> u64 {
    (addr - addr % 4096) as u64
}

/// The page that holds `addr`.
pub fn containing_page(addr: u64) -> (r: u64)
    ensures
        r == page_of(addr),
{
    addr - addr % 4096
}

/// Where physical memory is mapped, once that is known.
pub struct PhysMap {
    pub ready: bool,
    pub offset: u64,
}

impl PhysMap {
    /// Not known yet.
    pub fn new() -> (r: PhysMap)
        ensures
            r.known() is None,
    {
        PhysMap { ready: false, offset: 0 }
    }

    /// The offset, if it was recorded.
    pub open spec fn known(self) -> Option<u64> {
        if self.ready {
            Some(self.offset)
        } else {
            None
        }
    }
}

/// Record the physical-memory offset. Returns false, and records nothing, for an
/// address that is not canonical.
pub fn set_phys_offset(m: &mut PhysMap, offset: u64) -> (r: bool)
    ensures
        r == canonical(offset),
        final(m).known() == if r {
            Some(offset)
        } else {
            old(m).known()
        },
{
    if !is_canonical(offset) {
        return false;
    }
    m.offset = offset;
    m.ready = true;
    true
}

/// The physical-memory offset, or `None` before it was recorded.
pub fn phys_offset(m: &PhysMap) -> (r: Option<u64>)
    ensures
        r == m.known(),
{
    if m.ready {
        Some(m.offset)
    } else {
        None
    }
}

/// Convenience: default flags for a kernel-writable, non-executable page.
pub fn kernel_data_flags() -> (r: u64)
    ensures
        r == PRESENT + WRITABLE + NO_EXECUTE,
        r == 0x8000_0000_0000_0003,
{
    PRESENT + WRITABLE + NO_EXECUTE
}

/// Allocate one free physical frame (4 KiB) without mapping it.
pub fn alloc_frame(frames: &mut BitmapFrameAllocator) -> (r: Option<u64>)
    requires
        old(frames).wf(),
    ensures
        final(frames).wf(),
        (r, final(frames)@) == old(frames)@.allocated(),
{
    frames.allocate_frame()
}

/// Allocate the frame that a page is going to be mapped to.
pub fn frame_to_map(frames: &mut BitmapFrameAllocator) -> (r: Result<u64, MapError>)
    requires
        old(frames).wf(),
    ensures
        final(frames).wf(),
        final(frames)@ == old(frames)@.allocated().1,
        r == match old(frames)@.allocated().0 {
            Some(f) => Ok(f),
            None => Err(MapError::OutOfFrames),
        },
{
    match frames.allocate_frame() {
        Some(f) => Ok(f),
        None => Err(MapError::OutOfFrames),
    }
}

/// The outcome of mapping a page: the number of extra frames consumed for
/// intermediate page tables, from the free frames before and after the attempt.
pub fn map_page(mapped: bool, free_before: usize, free_after: usize) -> (r: Result<usize, MapError>)
    requires
        free_after <= free_before,
    ensures
        r == if mapped {
            Ok((free_before - free_after) as usize)
        } else {
            Err(MapError::MapFailed)
        },
{
    if mapped {
        Ok(free_before - free_after)
    } else {
        Err(MapError::MapFailed)
    }
}

/// The outcome of mapping a page to `frame`: its physical address, or why not.
pub fn allocate_and_map(frame: u64, mapped: Result<usize, MapError>) -> (r: Result<u64, MapError>)
    ensures
        r == match mapped {
            Ok(_) => Ok(frame),
            Err(e) => Err(e),
        },
{
    match mapped {
        Ok(_) => Ok(frame),
        Err(e) => Err(e),
    }
}

/// The page of an address starts at a multiple of 4096 and holds the address.
pub proof fn law_page_holds_address(addr: u64)
    ensures
        page_of(addr) % 4096 == 0,
        page_of(addr) <= addr < page_of(addr) + 4096,
{
}

/// Canonical addresses are those whose top seventeen bits are all clear or all set.
pub proof fn law_canonical_addresses(addr: u64)
    ensures
        canonical(addr) <==> addr / 0x8000_0000_0000 == 0 || addr / 0x8000_0000_0000 == 0x1_ffff,
{
}

} // verus!
