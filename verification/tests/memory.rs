use linked_list_allocator::Heap;
use simplelinux::memory::heap;
use simplelinux::memory::pmm::{self, BitmapFrameAllocator, NUM_FRAMES};
use simplelinux::memory::vmm::{self, MapError, PhysMap};
use simplelinux::memory::{self, Region, RegionKind};
use std::alloc::Layout;
use std::mem::MaybeUninit;
use x86_64::structures::paging::PageTableFlags;

fn usable(start: u64, end: u64) -> Region {
    Region { start, end, kind: RegionKind::Usable }
}

fn reserved(start: u64, end: u64) -> Region {
    Region { start, end, kind: RegionKind::Reserved }
}

#[test]
fn all_frames_start_used() {
    let mut a = BitmapFrameAllocator::new();
    assert_eq!(a.free_count(), 0);
    assert_eq!(a.allocate_frame(), None);
    assert!(a.frame_used(0));
    assert!(a.frame_used(NUM_FRAMES - 1));
}

#[test]
fn bit_index_splits_word_and_bit() {
    assert_eq!(BitmapFrameAllocator::bit_index(0), (0, 0));
    assert_eq!(BitmapFrameAllocator::bit_index(63), (0, 63));
    assert_eq!(BitmapFrameAllocator::bit_index(64), (1, 0));
    assert_eq!(BitmapFrameAllocator::bit_index(130), (2, 2));
}

#[test]
fn set_used_touches_one_frame() {
    let mut a = BitmapFrameAllocator::new();
    a.set_used(100, false);
    assert!(!a.frame_used(100));
    assert!(a.frame_used(99));
    assert!(a.frame_used(101));
    assert_eq!(a.free_count(), 1);
    a.set_used(100, true);
    assert_eq!(a.free_count(), 0);
}

#[test]
fn ranges_cover_partial_pages_and_are_clamped() {
    let a = BitmapFrameAllocator::new();
    assert_eq!(a.frames_for(0..4096), Some(0..1));
    assert_eq!(a.frames_for(4095..4097), Some(0..2));
    assert_eq!(a.frames_for(4096..4096), None);
    assert_eq!(a.frames_for(8192..4096), None);
    assert_eq!(a.frames_for(0..u64::MAX), Some(0..NUM_FRAMES));
    assert_eq!(a.frames_for((1 << 30)..(1 << 31)), None);
    assert_eq!(a.frames_for(u64::MAX..u64::MAX), None);
}

#[test]
fn allocation_hands_out_each_frame_once() {
    let mut a = BitmapFrameAllocator::new();
    a.mark_free_range(0x10_0000..0x10_5000);
    assert_eq!(a.free_count(), 5);
    let mut got = Vec::new();
    while let Some(f) = a.allocate_frame() {
        got.push(f);
    }
    assert_eq!(got, vec![0x10_0000, 0x10_1000, 0x10_2000, 0x10_3000, 0x10_4000]);
    assert_eq!(a.free_count(), 0);
}

#[test]
fn search_starts_at_the_last_group() {
    let mut a = BitmapFrameAllocator::new();
    a.mark_free_range(0..0x1000);
    a.mark_free_range(64 * 4096..66 * 4096);
    a.next_word = 1;
    assert_eq!(a.allocate_frame(), Some(64 * 4096));
    assert_eq!(a.allocate_frame(), Some(65 * 4096));
    assert_eq!(a.allocate_frame(), Some(0));
    assert_eq!(a.next_word, 0);
    assert_eq!(a.allocate_frame(), None);
}

#[test]
fn release_undoes_allocation() {
    let mut a = BitmapFrameAllocator::new();
    a.mark_free_range(0x20_0000..0x20_2000);
    let f = a.allocate_frame().unwrap();
    a.deallocate_frame(f);
    assert_eq!(a.free_count(), 2);
    assert_eq!(a.allocate_frame(), Some(f));
    // Not covered by the bitmap.
    a.deallocate_frame(1 << 30);
    assert_eq!(a.free_count(), 1);
}

#[test]
fn used_frame_is_kept() {
    let mut a = BitmapFrameAllocator::new();
    a.mark_free_range(0..0x3000);
    a.mark_used_range(0x1000..0x2000);
    assert_eq!(a.allocate_frame(), Some(0));
    assert_eq!(a.allocate_frame(), Some(0x2000));
    assert_eq!(a.allocate_frame(), None);
}

#[test]
fn frame_self_test_restores() {
    let mut a = BitmapFrameAllocator::new();
    a.mark_free_range(0..2000 * 4096);
    assert_eq!(pmm::self_test(&mut a), (2000, 1000, 2000));
    // The last frame that was reserved is number 999, in group 15.
    assert_eq!(a.next_word, 15);
    assert_eq!(a.free_count(), 2000);
}

#[test]
fn init_frees_usable_regions_only() {
    let mut a = BitmapFrameAllocator::new();
    let map = [usable(0, 0x9_f000), reserved(0x9_f000, 0x10_0000), usable(0x10_0000, 0x20_0000)];
    let (regions, free) = memory::init(&mut a, &map, 0x10_0000, 0x1_0800);
    assert_eq!(regions, 2);
    // 159 + 256 frames, less the first page and the 17 frames of the kernel.
    assert_eq!(free, 159 + 256 - 1 - 17);
    assert!(a.frame_used(0));
    assert!(!a.frame_used(1));
    assert!(a.frame_used(0x9f));
    assert!(a.frame_used(0x100));
    assert!(a.frame_used(0x110));
    assert!(!a.frame_used(0x111));
    assert!(a.frame_used(0x200));
}

#[test]
fn later_regions_win() {
    let mut a = BitmapFrameAllocator::new();
    let map = [usable(0x10_0000, 0x20_0000), reserved(0x18_0000, 0x19_0000)];
    memory::init(&mut a, &map, 0, 0);
    assert!(a.frame_used(0x180));
    assert!(!a.frame_used(0x190));
}

#[test]
fn flags_match_the_page_table_format() {
    let data = PageTableFlags::PRESENT | PageTableFlags::WRITABLE | PageTableFlags::NO_EXECUTE;
    assert_eq!(vmm::kernel_data_flags(), data.bits());
    assert_eq!(vmm::PRESENT, PageTableFlags::PRESENT.bits());
    assert_eq!(vmm::WRITABLE, PageTableFlags::WRITABLE.bits());
    assert_eq!(vmm::USER_ACCESSIBLE, PageTableFlags::USER_ACCESSIBLE.bits());
    assert_eq!(vmm::NO_CACHE, PageTableFlags::NO_CACHE.bits());
    assert_eq!(vmm::NO_EXECUTE, PageTableFlags::NO_EXECUTE.bits());
    assert_eq!(simplelinux::drivers::e1000::mmio_flags(), (data | PageTableFlags::NO_CACHE).bits());
}

#[test]
fn physical_offset_is_recorded_once_canonical() {
    let mut m = PhysMap::new();
    assert_eq!(vmm::phys_offset(&m), None);
    assert!(!vmm::set_phys_offset(&mut m, 0x0000_8000_0000_0000));
    assert_eq!(vmm::phys_offset(&m), None);
    assert!(!vmm::set_phys_offset(&mut m, 0xffff_7fff_ffff_f000));
    assert!(vmm::set_phys_offset(&mut m, 0xffff_8000_0000_0000));
    assert_eq!(vmm::phys_offset(&m), Some(0xffff_8000_0000_0000));
    assert!(vmm::set_phys_offset(&mut m, 0x0000_7fff_ffff_ffff));
    assert_eq!(vmm::phys_offset(&m), Some(0x0000_7fff_ffff_ffff));
}

#[test]
fn mapping_outcomes() {
    let mut a = BitmapFrameAllocator::new();
    assert_eq!(vmm::frame_to_map(&mut a), Err(MapError::OutOfFrames));
    assert_eq!(vmm::alloc_frame(&mut a), None);
    a.mark_free_range(0x5000..0x7000);
    assert_eq!(vmm::frame_to_map(&mut a), Ok(0x5000));
    assert_eq!(vmm::alloc_frame(&mut a), Some(0x6000));
    assert_eq!(vmm::map_page(true, 10, 7), Ok(3));
    assert_eq!(vmm::map_page(false, 10, 10), Err(MapError::MapFailed));
    assert_eq!(vmm::allocate_and_map(0x5000, Ok(2)), Ok(0x5000));
    assert_eq!(vmm::allocate_and_map(0x5000, Err(MapError::MapFailed)), Err(MapError::MapFailed));
    assert_eq!(vmm::containing_page(0x40_1fff), 0x40_1000);
}

#[test]
fn heap_layout() {
    assert_eq!(heap::page_count(), 256);
    assert_eq!(heap::heap_page(0), heap::HEAP_START);
    assert_eq!(heap::heap_page(255), heap::HEAP_START + 255 * 4096);
}

#[test]
fn heap_statistics_follow_the_allocator() {
    let backing: &'static mut [MaybeUninit<u8>] =
        Box::leak(vec![MaybeUninit::uninit(); 65536].into_boxed_slice());
    let mut h = Heap::from_slice(backing);
    let total = heap::total_bytes(&h);
    assert!(total > 65000 && total <= 65536);
    assert_eq!(heap::used_bytes(&h), 0);
    assert_eq!(heap::free_bytes(&h), total);
    h.allocate_first_fit(Layout::from_size_align(4096, 8).unwrap()).unwrap();
    assert_eq!(heap::used_bytes(&h), 4096);
    assert_eq!(heap::free_bytes(&h), total - 4096);
    let s = heap::stats(&h);
    assert_eq!((s.used, s.free, s.total), (4096, total - 4096, total));
    let none = Heap::empty();
    assert_eq!(heap::total_bytes(&none), 0);
}
