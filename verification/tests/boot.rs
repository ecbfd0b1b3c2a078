use kernel::acpi::AcpiMapError;
use kernel::acpi::Handler;
use kernel::allocator::align_up;
use kernel::allocator::init_heap;
use kernel::allocator::InitHeapError;
use kernel::allocator::HEAP_SIZE;
use kernel::allocator::HEAP_START;
use kernel::fixed_size_block;
use kernel::gdt::IstIndex;
use kernel::interrupts::InterruptIndex;
use kernel::memory::BootInfoFrameAllocator;
use kernel::memory::MemoryRegion;
use kernel::memory::MemoryRegionKind;
use kernel::paging::Translation;
use kernel::paging::Translator;
use kernel::paging::FLAG_NO_CACHE;
use kernel::paging::FLAG_PRESENT;
use kernel::paging::FLAG_WRITABLE;
use kernel::paging::FLAG_WRITE_THROUGH;

fn frames(count: u64) -> BootInfoFrameAllocator {
    BootInfoFrameAllocator::init(vec![MemoryRegion {
        start: 0x100000,
        end: 0x100000 + count * 0x1000,
        kind: MemoryRegionKind::Usable,
    }])
}

#[test]
fn heap_initialization_maps_every_page() {
    let mut translator = Translator::new(0);
    // 25 heap pages plus 3 page-table frames
    let mut fa = frames(28);
    let mut heap = fixed_size_block::Allocator::new();
    assert_eq!(init_heap(&mut translator, &mut fa, &mut heap), Ok(()));
    assert_eq!(fa.remaining_frames(), 0);
    assert!(heap.is_initialized());
    let flags = FLAG_PRESENT | FLAG_WRITABLE;
    let pages = HEAP_SIZE / 4096;
    assert_eq!(pages, 25);
    let mut seen = Vec::new();
    for k in 0..pages {
        let page = HEAP_START + k * 4096;
        let t = translator.translate(page).expect("heap page not mapped");
        assert_eq!(t.page, page);
        assert_eq!(t.flags, flags);
        assert!(!seen.contains(&t.frame), "two heap pages share a frame");
        seen.push(t.frame);
    }
    // the first page got the first frame; its successors follow the
    // three page-table frames
    assert_eq!(translator.translate(HEAP_START).unwrap().frame, 0x100000);
    assert_eq!(translator.translate(HEAP_START + 4096).unwrap().frame, 0x104000);
    assert_eq!(translator.translate(HEAP_START + 2 * 4096).unwrap().frame, 0x105000);
}

#[test]
fn heap_initialization_fails_without_enough_frames() {
    let mut translator = Translator::new(0);
    let mut fa = frames(10);
    let mut heap = fixed_size_block::Allocator::new();
    assert_eq!(
        init_heap(&mut translator, &mut fa, &mut heap),
        Err(InitHeapError::FrameAllocationFailed)
    );
    assert!(!heap.is_initialized());
}

#[test]
fn heap_initialization_twice_is_rejected() {
    let mut translator = Translator::new(0);
    let mut fa = frames(64);
    let mut heap = fixed_size_block::Allocator::new();
    assert_eq!(init_heap(&mut translator, &mut fa, &mut heap), Ok(()));
    let left = fa.remaining_frames();
    assert_eq!(
        init_heap(&mut translator, &mut fa, &mut heap),
        Err(InitHeapError::AlreadyInitialized)
    );
    // the rejected attempt consumed nothing
    assert_eq!(fa.remaining_frames(), left);
}

#[test]
fn heap_serves_allocations_after_boot() {
    let mut translator = Translator::new(0);
    let mut fa = frames(32);
    let mut heap = fixed_size_block::Allocator::new();
    assert_eq!(init_heap(&mut translator, &mut fa, &mut heap), Ok(()));
    let a = heap.allocate(10, 4).unwrap();
    assert_eq!(a, HEAP_START);
    assert_eq!(a % 16, 0);
    heap.deallocate(a, 10, 4);
    assert_eq!(heap.allocate(10, 4), Some(a));
}

#[test]
fn acpi_handler_maps_the_table_page() {
    let mut translator = Translator::new(0x1000_0000_0000);
    let mut fa = frames(8);
    let handler = Handler;
    let m = handler
        .map_physical_region(&mut translator, &mut fa, 0xFEE0_0030, 0x40)
        .unwrap();
    assert_eq!(m.physical_start, 0xFEE0_0030);
    assert_eq!(m.virtual_start, 0x1000_FEE0_0030);
    assert_eq!(m.region_length, 0x40);
    assert_eq!(m.mapped_length, 0x40);
    let flags = FLAG_PRESENT | FLAG_WRITABLE | FLAG_NO_CACHE | FLAG_WRITE_THROUGH;
    assert_eq!(
        translator.translate(0x1000_FEE0_0000),
        Some(Translation { page: 0x1000_FEE0_0000, frame: 0xFEE0_0000, flags })
    );
}

#[test]
fn acpi_handler_tolerates_an_existing_mapping() {
    let mut translator = Translator::new(0x1000_0000_0000);
    let mut fa = frames(8);
    let handler = Handler;
    let first = handler
        .map_physical_region(&mut translator, &mut fa, 0xFEE0_0000, 0x1000)
        .unwrap();
    // a second region on the same page: success, translation untouched
    let second = handler
        .map_physical_region(&mut translator, &mut fa, 0xFEE0_0400, 0x10)
        .unwrap();
    assert_eq!(second.virtual_start, 0x1000_FEE0_0400);
    let t = translator.translate(0x1000_FEE0_0000).unwrap();
    assert_eq!(t.frame, 0xFEE0_0000);
    assert_eq!(first.virtual_start, 0x1000_FEE0_0000);
}

#[test]
fn acpi_handler_out_of_memory_is_an_error() {
    let mut translator = Translator::new(0x1000_0000_0000);
    let mut fa = frames(0);
    let handler = Handler;
    assert_eq!(
        handler
            .map_physical_region(&mut translator, &mut fa, 0xFEE0_0030, 0x40)
            .unwrap_err(),
        AcpiMapError::OutOfMemory
    );
}

#[test]
fn acpi_handler_unmaps_the_region_page() {
    let mut translator = Translator::new(0x1000_0000_0000);
    let mut fa = frames(8);
    let handler = Handler;
    let m = handler
        .map_physical_region(&mut translator, &mut fa, 0xFEE0_0030, 0x40)
        .unwrap();
    Handler::unmap_physical_region(&mut translator, m.virtual_start);
    assert_eq!(translator.translate(0x1000_FEE0_0000), None);
    // unmapping again is benign
    Handler::unmap_physical_region(&mut translator, m.virtual_start);
}

#[test]
fn ist_index_values() {
    assert_eq!(IstIndex::DoubleFault.as_u16(), 0);
    assert_eq!(IstIndex::PageFault.as_u16(), 1);
    assert_eq!(IstIndex::InvalidTSS.as_u16(), 2);
    assert_eq!(IstIndex::DivideError.as_u16(), 3);
    assert_eq!(IstIndex::SegmentNotPresent.as_u16(), 4);
    assert_eq!(IstIndex::StackSegmentFault.as_u16(), 5);
    assert_eq!(IstIndex::GeneralProtectionFault.as_u16(), 6);
    assert_eq!(IstIndex::DoubleFault.as_usize(), 0);
    assert_eq!(IstIndex::GeneralProtectionFault.as_usize(), 6);
}

#[test]
fn interrupt_index_values() {
    assert_eq!(InterruptIndex::Timer.as_u8(), 32);
    assert_eq!(InterruptIndex::Keyboard.as_u8(), 33);
    assert_eq!(InterruptIndex::LapicErr.as_u8(), 49);
    assert_eq!(InterruptIndex::Spurious.as_u8(), 255);
    assert_eq!(InterruptIndex::offset(), 32);
    assert_eq!(InterruptIndex::Timer.base_irq_index(), 0);
    assert_eq!(InterruptIndex::Keyboard.base_irq_index(), 1);
    assert_eq!(InterruptIndex::LapicErr.base_irq_index(), 17);
    assert_eq!(InterruptIndex::Spurious.base_irq_index(), 223);
    assert_eq!(InterruptIndex::Keyboard.as_usize(), 33);
}

#[test]
fn align_up_values() {
    assert_eq!(align_up(0, 1), 0);
    assert_eq!(align_up(5, 8), 8);
    assert_eq!(align_up(8, 8), 8);
    assert_eq!(align_up(9, 8), 16);
    assert_eq!(align_up(0x1001, 0x1000), 0x2000);
    assert_eq!(align_up(0x1000, 0x1000), 0x1000);
}
