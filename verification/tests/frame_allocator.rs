use kernel::memory::BootInfoFrameAllocator;
use kernel::memory::MemoryRegion;
use kernel::memory::MemoryRegionKind;

fn usable(start: u64, end: u64) -> MemoryRegion {
    MemoryRegion { start, end, kind: MemoryRegionKind::Usable }
}

fn reserved(start: u64, end: u64) -> MemoryRegion {
    MemoryRegion { start, end, kind: MemoryRegionKind::Reserved }
}

#[test]
fn three_frames_then_none() {
    let mut fa = BootInfoFrameAllocator::init(vec![usable(0x100000, 0x103000)]);
    assert_eq!(fa.allocate_frame(), Some(0x100000));
    assert_eq!(fa.allocate_frame(), Some(0x101000));
    assert_eq!(fa.allocate_frame(), Some(0x102000));
    assert_eq!(fa.allocate_frame(), None);
}

#[test]
fn frames_ascending_and_distinct() {
    let mut fa = BootInfoFrameAllocator::init(vec![
        usable(0x1000, 0x4000),
        reserved(0x4000, 0x9000),
        usable(0x10000, 0x12000),
        usable(0x40000, 0x43000),
    ]);
    let mut frames = Vec::new();
    while let Some(f) = fa.allocate_frame() {
        frames.push(f);
    }
    assert_eq!(frames.len(), 3 + 2 + 3);
    for w in frames.windows(2) {
        assert!(w[0] < w[1]);
    }
}

#[test]
fn reserved_regions_are_skipped() {
    let mut fa = BootInfoFrameAllocator::init(vec![
        reserved(0x0, 0x5000),
        usable(0x8000, 0x9000),
        reserved(0x9000, 0x20000),
    ]);
    assert_eq!(fa.allocate_frame(), Some(0x8000));
    assert_eq!(fa.allocate_frame(), None);
}

#[test]
fn exhaustion_is_permanent() {
    let mut fa = BootInfoFrameAllocator::init(vec![usable(0x2000, 0x4000)]);
    assert!(fa.allocate_frame().is_some());
    assert!(fa.allocate_frame().is_some());
    for _ in 0..10 {
        assert_eq!(fa.allocate_frame(), None);
    }
}

#[test]
fn empty_memory_map_has_no_frames() {
    let mut fa = BootInfoFrameAllocator::init(Vec::new());
    assert_eq!(fa.remaining_frames(), 0);
    assert_eq!(fa.allocate_frame(), None);
}

#[test]
fn remaining_frames_counts_down() {
    let mut fa = BootInfoFrameAllocator::init(vec![usable(0x100000, 0x105000)]);
    assert_eq!(fa.remaining_frames(), 5);
    fa.allocate_frame();
    assert_eq!(fa.remaining_frames(), 4);
    fa.allocate_frame();
    fa.allocate_frame();
    fa.allocate_frame();
    fa.allocate_frame();
    assert_eq!(fa.remaining_frames(), 0);
    assert_eq!(fa.allocate_frame(), None);
    assert_eq!(fa.remaining_frames(), 0);
}
