use kernel::memory::BootInfoFrameAllocator;
use kernel::memory::MemoryRegion;
use kernel::memory::MemoryRegionKind;
use kernel::paging::MapError;
use kernel::paging::Translation;
use kernel::paging::Translator;
use kernel::paging::FLAG_PRESENT;
use kernel::paging::FLAG_WRITABLE;

fn frames(count: u64) -> BootInfoFrameAllocator {
    BootInfoFrameAllocator::init(vec![MemoryRegion {
        start: 0x100000,
        end: 0x100000 + count * 0x1000,
        kind: MemoryRegionKind::Usable,
    }])
}

#[test]
fn physical_to_virtual_is_offset_arithmetic() {
    let translator = Translator::new(0x1000_0000_0000);
    assert_eq!(translator.physical_to_virtual(0), 0x1000_0000_0000);
    assert_eq!(translator.physical_to_virtual(0xFEE0_0030), 0x1000_FEE0_0030);
}

#[test]
fn mapping_installs_a_translation() {
    let mut translator = Translator::new(0);
    let mut fa = frames(10);
    let flags = FLAG_PRESENT | FLAG_WRITABLE;
    assert_eq!(translator.map_page(0x2000_0000, 0x7000, flags, &mut fa), Ok(()));
    assert_eq!(
        translator.translate(0x2000_0000),
        Some(Translation { page: 0x2000_0000, frame: 0x7000, flags })
    );
    assert_eq!(translator.translate(0x2000_1000), None);
    // three intermediate tables were created, one frame each
    assert_eq!(fa.remaining_frames(), 7);
}

#[test]
fn mapping_in_the_same_table_reuses_tables() {
    let mut translator = Translator::new(0);
    let mut fa = frames(10);
    let flags = FLAG_PRESENT | FLAG_WRITABLE;
    assert_eq!(translator.map_page(0x2000_0000, 0x7000, flags, &mut fa), Ok(()));
    assert_eq!(fa.remaining_frames(), 7);
    // the next page of the same 2 MiB block needs no new tables
    assert_eq!(translator.map_page(0x2000_1000, 0x8000, flags, &mut fa), Ok(()));
    assert_eq!(fa.remaining_frames(), 7);
    // a page in a distant 2 MiB block needs a new level-1 table
    assert_eq!(translator.map_page(0x2020_0000, 0x9000, flags, &mut fa), Ok(()));
    assert_eq!(fa.remaining_frames(), 6);
}

#[test]
fn mapping_twice_keeps_the_first_target() {
    let mut translator = Translator::new(0);
    let mut fa = frames(10);
    let flags = FLAG_PRESENT | FLAG_WRITABLE;
    assert_eq!(translator.map_page(0x4000_0000, 0xA000, flags, &mut fa), Ok(()));
    let before = fa.remaining_frames();
    // same page, different frame: benign no-op that still succeeds
    assert_eq!(translator.map_page(0x4000_0000, 0xB000, FLAG_PRESENT, &mut fa), Ok(()));
    assert_eq!(
        translator.translate(0x4000_0000),
        Some(Translation { page: 0x4000_0000, frame: 0xA000, flags })
    );
    assert_eq!(fa.remaining_frames(), before);
}

#[test]
fn mapping_fails_without_frames_for_tables() {
    let mut translator = Translator::new(0);
    let mut fa = frames(2);
    let flags = FLAG_PRESENT | FLAG_WRITABLE;
    assert_eq!(
        translator.map_page(0x2000_0000, 0x7000, flags, &mut fa),
        Err(MapError::FrameAllocationFailed)
    );
    // the failure left both managers untouched
    assert_eq!(translator.translate(0x2000_0000), None);
    assert_eq!(fa.remaining_frames(), 2);
}

#[test]
fn unmapping_removes_only_that_page() {
    let mut translator = Translator::new(0);
    let mut fa = frames(10);
    let flags = FLAG_PRESENT | FLAG_WRITABLE;
    translator.map_page(0x2000_0000, 0x7000, flags, &mut fa).unwrap();
    translator.map_page(0x2000_1000, 0x8000, flags, &mut fa).unwrap();
    assert_eq!(translator.unmap_page(0x2000_0000), Ok(()));
    assert_eq!(translator.translate(0x2000_0000), None);
    assert_eq!(
        translator.translate(0x2000_1000),
        Some(Translation { page: 0x2000_1000, frame: 0x8000, flags })
    );
}

#[test]
fn unmapping_a_missing_page_is_benign() {
    let mut translator = Translator::new(0);
    assert_eq!(translator.unmap_page(0x5000_0000), Ok(()));
    let mut fa = frames(10);
    let flags = FLAG_PRESENT | FLAG_WRITABLE;
    translator.map_page(0x5000_0000, 0x7000, flags, &mut fa).unwrap();
    assert_eq!(translator.unmap_page(0x5000_0000), Ok(()));
    // a second unmap of the same page is a no-op that succeeds
    assert_eq!(translator.unmap_page(0x5000_0000), Ok(()));
    assert_eq!(translator.translate(0x5000_0000), None);
}
