use oros::memory::allocator::{HEAP_SIZE, HEAP_START};
use oros::memory::frame::{containing_frame, BootInfoFrameAllocator, MemoryRegion, FRAME_SIZE};
use oros::memory::paging::{heap_page_range, heap_pages};

fn region(start: u64, end: u64, usable: bool) -> MemoryRegion {
    MemoryRegion { start, end, usable }
}

#[test]
fn frames_come_from_usable_regions_in_order() {
    let map = vec![
        region(0x0, 0x1000, false),
        region(0x1000, 0x3000, true),
        region(0x3000, 0x10000, false),
        region(0x10000, 0x11000, true),
    ];
    let mut frames = BootInfoFrameAllocator::init(&map);
    assert_eq!(frames.allocate_frame(), Some(0x1000));
    assert_eq!(frames.allocate_frame(), Some(0x2000));
    assert_eq!(frames.allocate_frame(), Some(0x10000));
    assert_eq!(frames.allocate_frame(), None);
    assert_eq!(frames.allocate_frame(), None);
}

#[test]
fn frames_of_unaligned_region_round_down() {
    let map = [region(0x1800, 0x3000, true)];
    let mut frames = BootInfoFrameAllocator::init(&map);
    assert_eq!(frames.allocate_frame(), Some(0x1000));
    assert_eq!(frames.allocate_frame(), Some(0x2000));
    assert_eq!(frames.allocate_frame(), None);
}

#[test]
fn empty_map_has_no_frames() {
    let map = [region(0x5000, 0x5000, true)];
    let mut frames = BootInfoFrameAllocator::init(&map);
    assert_eq!(frames.allocate_frame(), None);
}

#[test]
fn containing_frame_aligns_down() {
    assert_eq!(FRAME_SIZE, 4096);
    assert_eq!(containing_frame(0x1fff), 0x1000);
    assert_eq!(containing_frame(0x2000), 0x2000);
}

#[test]
fn heap_window_pages() {
    let (first, last) = heap_page_range(HEAP_START, HEAP_SIZE as u64);
    assert_eq!(first, 0x4444_4444_0000);
    assert_eq!(last, 0x4444_4444_0000 + 24 * 4096);
    let pages = heap_pages(HEAP_START, HEAP_SIZE as u64);
    assert_eq!(pages.len(), 25);
    assert_eq!(pages[0], first);
    assert_eq!(pages[24], last);
}

#[test]
fn unaligned_window_covers_partial_pages() {
    let pages = heap_pages(0x1ff0, 0x20);
    assert_eq!(pages, vec![0x1000, 0x2000]);
}
