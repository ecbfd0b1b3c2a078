use kernel::linked_list::Allocator;

#[test]
fn first_fit_takes_the_first_block() {
    let mut fallback = Allocator::new();
    assert!(!fallback.is_initialized());
    fallback.init(0x1000, 0x1000);
    assert!(fallback.is_initialized());
    assert_eq!(fallback.allocate_first_fit(0x100, 1), Ok(0x1000));
    assert_eq!(fallback.allocate_first_fit(0x100, 1), Ok(0x1100));
}

#[test]
fn alignment_splits_off_a_lead() {
    let mut fallback = Allocator::new();
    fallback.init(0x1008, 0x1000);
    // 0x1008 is not 16-aligned; the block starts at 0x1010 and the
    // eight lead bytes stay free
    assert_eq!(fallback.allocate_first_fit(16, 16), Ok(0x1010));
    assert_eq!(fallback.allocate_first_fit(8, 1), Ok(0x1008));
}

#[test]
fn failure_when_nothing_fits() {
    let mut fallback = Allocator::new();
    fallback.init(0x1000, 0x100);
    assert_eq!(fallback.allocate_first_fit(0x101, 1), Err(()));
    // the failed attempt changed nothing
    assert_eq!(fallback.allocate_first_fit(0x100, 1), Ok(0x1000));
}

#[test]
fn coalescing_rebuilds_large_blocks() {
    let mut fallback = Allocator::new();
    fallback.init(0x1000, 0x3000);
    let a = fallback.allocate_first_fit(0x1000, 1).unwrap();
    let b = fallback.allocate_first_fit(0x1000, 1).unwrap();
    let c = fallback.allocate_first_fit(0x1000, 1).unwrap();
    assert_eq!((a, b, c), (0x1000, 0x2000, 0x3000));
    assert_eq!(fallback.allocate_first_fit(1, 1), Err(()));
    // free the two outer blocks: two separate 4 KiB fragments
    fallback.deallocate(a, 0x1000);
    fallback.deallocate(c, 0x1000);
    assert_eq!(fallback.allocate_first_fit(0x1800, 1), Err(()));
    // freeing the middle block merges all three
    fallback.deallocate(b, 0x1000);
    assert_eq!(fallback.allocate_first_fit(0x3000, 1), Ok(0x1000));
}

#[test]
fn adjacent_frees_merge_with_predecessor_and_successor() {
    let mut fallback = Allocator::new();
    fallback.init(0x1000, 0x1000);
    let a = fallback.allocate_first_fit(0x400, 1).unwrap();
    let b = fallback.allocate_first_fit(0x400, 1).unwrap();
    fallback.deallocate(a, 0x400);
    // freeing b merges with the hole before it and the tail after it
    fallback.deallocate(b, 0x400);
    assert_eq!(fallback.allocate_first_fit(0x1000, 1), Ok(0x1000));
}

#[test]
fn exact_fit_consumes_the_whole_block() {
    let mut fallback = Allocator::new();
    fallback.init(0x1000, 0x100);
    assert_eq!(fallback.allocate_first_fit(0x100, 1), Ok(0x1000));
    assert_eq!(fallback.allocate_first_fit(1, 1), Err(()));
    fallback.deallocate(0x1000, 0x100);
    assert_eq!(fallback.allocate_first_fit(0x100, 1), Ok(0x1000));
}
