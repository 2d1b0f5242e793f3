//! Memory management.
//!
//!   * `pmm`  - bitmap allocator of physical frames,
//!   * `vmm`  - what is mapped where, and with which flags,
//!   * `heap` - the kernel heap.
//!
//! Initialization order is fixed: record the physical-memory offset, build the
//! frame allocator from the memory map, then map and turn on the kernel heap.
use vstd::prelude::*;

pub mod heap;
pub mod pmm;
pub mod vmm;

use pmm::{end_frame, first_frame, BitmapFrameAllocator, Frames, NUM_FRAMES, PAGE_SIZE};

verus! {

/// What the firmware says of a range of physical memory.
#[derive(Clone, Copy, PartialEq, Eq, Structural, Debug)]
pub enum RegionKind {
    /// Free for the kernel to use.
    Usable,
    /// Taken by the boot loader, the firmware or a device.
    Reserved,
}

/// One entry of the firmware memory map.
#[derive(Clone, Copy, PartialEq, Eq, Structural, Debug)]
pub struct Region {
    pub start: u64,
    pub end: u64,
    pub kind: RegionKind,
}

impl Region {
    /// Whether the region touches frame `f`.
    pub open spec fn covers(self, f: int) -> bool {
        first_frame(self.start) <= f < end_frame(self.end)
    }
}

/// The frames once each region, one after the other, was freed if it is usable
/// and marked used otherwise.
pub open spec fn regions_marked(v: Frames, regions: Seq<Region>) -> Frames
    decreases regions.len(),
{
    if regions.len() == 0 {
        v
    } else {
        let r = regions.last();
        regions_marked(v, regions.drop_last()).marked(r.start, r.end, r.kind != RegionKind::Usable)
    }
}

/// The frames once the memory map was applied, and the kernel image and the
/// first page were protected.
pub open spec fn seeded(v: Frames, regions: Seq<Region>, kernel_start: u64, kernel_len: u64) -> Frames {
    regions_marked(v, regions).marked(kernel_start, (kernel_start + kernel_len) as u64, true).marked(
        0,
        PAGE_SIZE,
        true,
    )
}

/// How many of `regions` are usable.
pub open spec fn usable_count(regions: Seq<Region>) -> nat
    decreases regions.len(),
{
    if regions.len() == 0 {
        0
    } else {
        usable_count(regions.drop_last()) + if regions.last().kind == RegionKind::Usable {
            1nat
        } else {
            0nat
        }
    }
}

/// Seed the frame allocator from the firmware memory map. Returns the number of
/// usable regions and of free frames.
///
/// The kernel image may live in a "usable" region per the firmware map, so it is
/// protected explicitly, along with the very first page (null guard).
pub fn init(
    alloc: &mut BitmapFrameAllocator,
    regions: &[Region],
    kernel_start: u64,
    kernel_len: u64,
) -> (r: (usize, usize))
    requires
        old(alloc).wf(),
        kernel_start + kernel_len <= u64::MAX,
    ensures
        final(alloc).wf(),
        final(alloc)@ == seeded(old(alloc)@, regions@, kernel_start, kernel_len),
        r.0 == usable_count(regions@),
        r.1 == final(alloc)@.free_count(),
{
    let mut i: usize = 0;
    assert(regions@.take(0) =~= seq![]);
    while i < regions.len()
        invariant
            i <= regions@.len(),
            alloc.wf(),
            alloc@ == regions_marked(old(alloc)@, regions@.take(i as int)),
        decreases regions@.len() - i,
    {
        let region = regions[i];
        assert(regions@.take(i + 1).drop_last() =~= regions@.take(i as int));
        match region.kind {
            RegionKind::Usable => alloc.mark_free_range(region.start..region.end),
            RegionKind::Reserved => alloc.mark_used_range(region.start..region.end),
        }
        i = i + 1;
    }
    assert(regions@.take(i as int) =~= regions@);
    alloc.mark_used_range(kernel_start..(kernel_start + kernel_len));
    alloc.mark_used_range(0..PAGE_SIZE);
    (count_usable(regions), alloc.free_count())
}

fn count_usable(regions: &[Region]) -> (n: usize)
    ensures
        n == usable_count(regions@),
{
    let mut n: usize = 0;
    let mut i: usize = 0;
    assert(regions@.take(0) =~= seq![]);
    while i < regions.len()
        invariant
            n <= i <= regions@.len(),
            n == usable_count(regions@.take(i as int)),
        decreases regions@.len() - i,
    {
        assert(regions@.take(i + 1).drop_last() =~= regions@.take(i as int));
        if regions[i].kind == RegionKind::Usable {
            n = n + 1;
        }
        i = i + 1;
    }
    assert(regions@.take(i as int) =~= regions@);
    n
}

proof fn lemma_last_region_decides(v: Frames, regions: Seq<Region>, f: int)
    requires
        v.wf(),
        0 <= f < NUM_FRAMES,
    ensures
        regions_marked(v, regions).wf(),
        (forall|i: int| 0 <= i < regions.len() ==> !(#[trigger] regions[i]).covers(f))
            ==> regions_marked(v, regions).used[f] == v.used[f],
        (forall|i: int|
            0 <= i < regions.len() && (#[trigger] regions[i]).covers(f) ==> regions[i].kind
                != RegionKind::Usable) && v.used[f] ==> regions_marked(v, regions).used[f],
        (exists|i: int| 0 <= i < regions.len() && (#[trigger] regions[i]).covers(f)) && (forall|i: int|
            0 <= i < regions.len() && (#[trigger] regions[i]).covers(f) ==> regions[i].kind
                == RegionKind::Usable) ==> !regions_marked(v, regions).used[f],
    decreases regions.len(),
{
    if regions.len() > 0 {
        let front = regions.drop_last();
        lemma_last_region_decides(v, front, f);
        assert(forall|i: int| 0 <= i < front.len() ==> #[trigger] front[i] == regions[i]);
        assert(regions.last() == regions[regions.len() - 1]);
        if regions.last().covers(f) {
        } else if exists|i: int| 0 <= i < regions.len() && (#[trigger] regions[i]).covers(f) {
            let i = choose|i: int| 0 <= i < regions.len() && (#[trigger] regions[i]).covers(f);
            assert(front[i].covers(f));
        }
    }
}

/// After initialization the kernel image and the first page are used, and so is
/// every frame that no usable region covers; a frame outside both that only
/// usable regions cover is free.
pub proof fn law_init_frees_exactly_usable_memory(
    v: Frames,
    regions: Seq<Region>,
    kernel_start: u64,
    kernel_len: u64,
    f: int,
)
    requires
        v.wf(),
        forall|i: int| 0 <= i < NUM_FRAMES ==> v.used[i],
        kernel_start + kernel_len <= u64::MAX,
        0 <= f < NUM_FRAMES,
    ensures
        seeded(v, regions, kernel_start, kernel_len).wf(),
        f == 0 ==> seeded(v, regions, kernel_start, kernel_len).used[f],
        first_frame(kernel_start) <= f < end_frame((kernel_start + kernel_len) as u64) ==> seeded(
            v,
            regions,
            kernel_start,
            kernel_len,
        ).used[f],
        (forall|i: int|
            0 <= i < regions.len() && (#[trigger] regions[i]).covers(f) ==> regions[i].kind
                != RegionKind::Usable) ==> seeded(v, regions, kernel_start, kernel_len).used[f],
        f != 0 && !(first_frame(kernel_start) <= f < end_frame((kernel_start + kernel_len) as u64))
            && (exists|i: int| 0 <= i < regions.len() && (#[trigger] regions[i]).covers(f)) && (forall|
            i: int,
        |
            0 <= i < regions.len() && (#[trigger] regions[i]).covers(f) ==> regions[i].kind
                == RegionKind::Usable) ==> !seeded(v, regions, kernel_start, kernel_len).used[f],
{
    lemma_last_region_decides(v, regions, f);
}

/// Whether two rounds of the same work left as much behind as one: the heap holds
/// at most 1 KiB more, and as many frames are free.
pub fn stable(heap1: usize, frames1: usize, heap2: usize, frames2: usize) -> (r: bool)
    ensures
        r == (heap2 <= heap1 + 1024 && frames2 == frames1),
{
    (heap2 <= heap1 || heap2 - heap1 <= 1024) && frames2 == frames1
}

/// A region covers the frame of every byte in it, and no frame that ends before it or
/// starts behind it.
pub proof fn law_region_covers_its_bytes(r: Region, f: int, a: int)
    ensures
        r.start <= a < r.end && f * 4096 <= a < (f + 1) * 4096 ==> r.covers(f),
        r.end <= f * 4096 || (f + 1) * 4096 <= r.start ==> !r.covers(f),
{
}

/// Usable regions are counted one by one.
pub proof fn law_usable_regions_are_counted(s: Seq<Region>, t: Seq<Region>, r: Region)
    ensures
        usable_count(s + t) == usable_count(s) + usable_count(t),
        r.kind is Usable ==> usable_count(seq![r]) == 1,
        r.kind is Reserved ==> usable_count(seq![r]) == 0,
    decreases t.len(),
{
    reveal_with_fuel(usable_count, 2);
    assert(seq![r].drop_last() =~= seq![]);
    if t.len() == 0 {
        assert(s + t =~= s);
    } else {
        assert((s + t).drop_last() =~= s + t.drop_last());
        law_usable_regions_are_counted(s, t.drop_last(), r);
    }
}

/// Where regions overlap, the last one decides: a frame that it covers is free exactly
/// if it is usable, and the others are as before.
pub proof fn law_last_region_decides(v: Frames, regions: Seq<Region>, r: Region, f: int)
    requires
        v.wf(),
        0 <= f < NUM_FRAMES,
    ensures
        r.covers(f) ==> (regions_marked(v, regions.push(r)).used[f] <==> r.kind is Reserved),
        !r.covers(f) ==> regions_marked(v, regions.push(r)).used[f] == regions_marked(
            v,
            regions,
        ).used[f],
        regions_marked(v, seq![]) == v,
{
    lemma_last_region_decides(v, regions, f);
    assert(regions.push(r).drop_last() =~= regions);
}

} // verus!
