use kernel::fixed_size_block::block_size;
use kernel::fixed_size_block::list_index;
use kernel::fixed_size_block::Allocator;
use kernel::fixed_size_block::InitError;

const HEAP_BASE: u64 = 0x10000;
const HEAP_LEN: u64 = 0x10000;

fn fresh_heap() -> Allocator {
    let mut heap = Allocator::new();
    assert_eq!(heap.init(HEAP_BASE, HEAP_LEN), Ok(()));
    heap
}

/// The number of bytes an allocation with this layout occupies.
fn span_of(size: u64, align: u64) -> u64 {
    match list_index(size, align) {
        Some(c) => block_size(c),
        None => size,
    }
}

#[test]
fn class_selection_small_request() {
    // size 10, align 4: required 10, smallest class >= 10 is 16
    assert_eq!(list_index(10, 4), Some(1));
    assert_eq!(block_size(1), 16);
    let mut heap = fresh_heap();
    let addr = heap.allocate(10, 4).unwrap();
    assert_eq!(addr % 16, 0);
    assert_eq!(addr, HEAP_BASE);
}

#[test]
fn class_selection_by_alignment() {
    // alignment dominates: size 10, align 64 takes the 64-byte class
    assert_eq!(list_index(10, 64), Some(3));
    let mut heap = fresh_heap();
    let addr = heap.allocate(10, 64).unwrap();
    assert_eq!(addr % 64, 0);
}

#[test]
fn oversized_request_goes_to_fallback() {
    // 4096 exceeds the largest class (2048): delegated whole
    assert_eq!(list_index(4096, 4096), None);
    let mut heap = fresh_heap();
    let small = heap.allocate(10, 4).unwrap();
    assert_eq!(small, HEAP_BASE);
    let big = heap.allocate(4096, 4096).unwrap();
    // first fit after the 16-byte block, aligned up to 4096
    assert_eq!(big, 0x11000);
    assert_eq!(big % 4096, 0);
}

#[test]
fn boundary_class_2048() {
    assert_eq!(list_index(2048, 1), Some(8));
    assert_eq!(list_index(2049, 1), None);
    assert_eq!(list_index(1, 2048), Some(8));
    assert_eq!(list_index(1, 4096), None);
}

#[test]
fn every_class_returns_class_aligned_blocks() {
    let mut heap = fresh_heap();
    for (size, class) in [
        (1u64, 8u64),
        (8, 8),
        (9, 16),
        (17, 32),
        (33, 64),
        (65, 128),
        (129, 256),
        (257, 512),
        (513, 1024),
        (1025, 2048),
    ] {
        let addr = heap.allocate(size, 1).unwrap();
        assert_eq!(addr % class, 0, "size {size} should be {class}-aligned");
    }
}

#[test]
fn free_list_reuse_returns_same_address() {
    let mut heap = fresh_heap();
    // shift the fallback cursor so the reused block is not just "first fit"
    let _ = heap.allocate(40, 8).unwrap();
    let a = heap.allocate(100, 8).unwrap();
    heap.deallocate(a, 100, 8);
    let b = heap.allocate(100, 8).unwrap();
    assert_eq!(a, b);
    // and again, with an intervening allocation of another class
    heap.deallocate(b, 100, 8);
    let _ = heap.allocate(7, 1).unwrap();
    let c = heap.allocate(100, 8).unwrap();
    assert_eq!(a, c);
}

#[test]
fn double_init_is_rejected() {
    let mut heap = Allocator::new();
    assert!(!heap.is_initialized());
    assert_eq!(heap.init(HEAP_BASE, HEAP_LEN), Ok(()));
    assert!(heap.is_initialized());
    assert_eq!(heap.init(HEAP_BASE, HEAP_LEN), Err(InitError::AlreadyInitialized));
    assert_eq!(heap.init(0x40000, 0x1000), Err(InitError::AlreadyInitialized));
    // the heap still works after the rejected attempts
    assert!(heap.allocate(10, 4).is_some());
}

#[test]
fn allocation_failure_returns_none() {
    let mut heap = Allocator::new();
    assert_eq!(heap.init(0x1000, 0x100), Ok(()));
    assert_eq!(heap.allocate(512, 1), None);
    // a small allocation still succeeds afterwards
    assert!(heap.allocate(8, 1).is_some());
}

#[test]
fn live_allocations_never_overlap() {
    let mut heap = fresh_heap();
    let mut live: Vec<(u64, u64)> = Vec::new();
    let mut rng: u64 = 0x2545F4914F6CDD1D;
    let layouts = [(1u64, 1u64), (10, 4), (16, 16), (100, 8), (700, 2), (2048, 2048), (3000, 8)];
    for step in 0..400 {
        rng = rng.wrapping_mul(6364136223846793005).wrapping_add(1442695040888963407);
        let choice = (rng >> 33) as usize;
        if choice % 3 != 0 || live.is_empty() {
            let (size, align) = layouts[(choice / 3) % layouts.len()];
            if let Some(addr) = heap.allocate(size, align) {
                let span = span_of(size, align);
                for &(a, s) in &live {
                    assert!(
                        addr + span <= a || a + s <= addr,
                        "overlap at step {step}: [{addr:#x},{:#x}) vs [{a:#x},{:#x})",
                        addr + span,
                        a + s
                    );
                }
                live.push((addr, span));
            }
        } else {
            let idx = (choice / 3) % live.len();
            let (addr, span) = live.swap_remove(idx);
            // spans map back to the layout they were allocated with
            heap.deallocate(addr, span, 1);
        }
    }
    assert!(!live.is_empty());
}

#[test]
fn oversized_blocks_return_to_the_fallback() {
    let mut heap = Allocator::new();
    assert_eq!(heap.init(0x1000, 0x2000), Ok(()));
    let a = heap.allocate(4096, 1).unwrap();
    assert_eq!(a, 0x1000);
    let b = heap.allocate(4096, 1).unwrap();
    assert_eq!(b, 0x2000);
    assert_eq!(heap.allocate(4096, 1), None);
    heap.deallocate(a, 4096, 1);
    // the freed range is tracked first-fit, not cached in a class
    assert_eq!(heap.allocate(4096, 1), Some(a));
}

#[test]
fn largest_class_request_is_2048_aligned() {
    let mut heap = fresh_heap();
    let a = heap.allocate(2048, 2048).unwrap();
    assert_eq!(a % 2048, 0);
    heap.deallocate(a, 2048, 2048);
    assert_eq!(heap.allocate(1500, 2048), Some(a));
}
