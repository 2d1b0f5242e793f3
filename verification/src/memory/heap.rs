//! Kernel heap on top of `linked_list_allocator`.
//!
//! A fixed virtual range (`HEAP_START..HEAP_START + HEAP_SIZE`) is backed page by
//! page with freshly allocated physical frames, then handed to the allocator.
use linked_list_allocator::Heap;
use vstd::prelude::*;

verus! {

/// Virtual address at which the kernel heap starts, well above the physically
/// mapped region and the kernel image.
pub const HEAP_START: u64 = 0xffff_a000_0000_0000;

/// Heap size in bytes (1 MiB == 256 frames).
pub const HEAP_SIZE: usize = 0x10_0000;

/// `linked_list_allocator::Heap`, a list of the free holes in one memory range.
#[verifier::external_type_specification]
#[verifier::external_body]
pub struct ExHeap(Heap);

/// How many bytes of the heap are allocated.
pub uninterp spec fn heap_used(h: Heap) -> nat;

/// How many bytes the heap spans.
pub uninterp spec fn heap_size(h: Heap) -> nat;

/// Number of pages that back the heap.
pub fn page_count() -> (r: usize)
    ensures
        r * 4096 == HEAP_SIZE,
        r == 256,
{
    HEAP_SIZE / 4096
}

/// The virtual address of the heap's page `i`.
pub fn heap_page(i: usize) -> (r: u64)
    requires
        i * 4096 < HEAP_SIZE,
    ensures
        r == HEAP_START + i * 4096,
        r == 0xffff_a000_0000_0000 + i * 4096,
{
    HEAP_START + i as u64 * 4096
}

/// Allocated (in use) heap bytes, for diagnostics: `Heap::used`.
#[verifier::external_body]
pub fn used_bytes(h: &Heap) -> (r: usize)
    ensures
        r == heap_used(*h),
{
    h.used()
}

/// Free heap bytes, for diagnostics: `Heap::free`, which is the size less what is used.
#[verifier::external_body]
pub fn free_bytes(h: &Heap) -> (r: usize)
    ensures
        r == heap_size(*h) - heap_used(*h),
{
    h.free()
}

/// Total usable heap size in bytes: `Heap::size`.
#[verifier::external_body]
pub fn total_bytes(h: &Heap) -> (r: usize)
    ensures
        r == heap_size(*h),
{
    h.size()
}

/// How full the heap is.
#[derive(Clone, Copy, PartialEq, Eq, Structural, Debug)]
pub struct HeapStats {
    pub used: usize,
    pub free: usize,
    pub total: usize,
}

/// Take down how full the heap is.
pub fn stats(h: &Heap) -> (r: HeapStats)
    ensures
        r.used == heap_used(*h),
        r.total == heap_size(*h),
        r.used + r.free == r.total,
{
    HeapStats { used: used_bytes(h), free: free_bytes(h), total: total_bytes(h) }
}

} // verus!
