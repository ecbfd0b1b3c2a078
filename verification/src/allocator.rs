//! Heap region constants and address-alignment arithmetic.
//!
//! The kernel heap occupies one fixed virtual range, `HEAP_START ..
//! HEAP_START + HEAP_SIZE`; the boot path maps that range page by page
//! and then hands it to the heap allocator exactly once.

use crate::fixed_size_block;
use crate::memory::BootInfoFrameAllocator;
use crate::memory::PAGE_SIZE;
use crate::paging::FLAG_PRESENT;
use crate::paging::FLAG_WRITABLE;
use crate::paging::l1_key;
use crate::paging::l2_key;
use crate::paging::l3_key;
use crate::paging::MapError;
use crate::paging::Translation;
use crate::paging::Translator;
use vstd::prelude::*;

verus! {

/// First virtual address of the kernel heap.
pub const HEAP_START: u64 = 0x4444_4444_0000;

/// Size of the kernel heap in bytes (100 KiB).
pub const HEAP_SIZE: u64 = 100 * 1024;

/// The smallest multiple of `align` that is at least `addr`.
pub open spec fn spec_align_up(addr: int, align: int) -> int {
    ((addr + align - 1) / align) * align
}

/// `spec_align_up` really is the smallest aligned address at or above `addr`.
pub proof fn lemma_align_up_bounds(addr: int, align: int)
    requires
        0 <= addr,
        1 <= align,
    ensures
        spec_align_up(addr, align) % align == 0,
        addr <= spec_align_up(addr, align) < addr + align,
{
    let q = (addr + align - 1) / align;
    vstd::arithmetic::div_mod::lemma_fundamental_div_mod(addr + align - 1, align);
    vstd::arithmetic::div_mod::lemma_mod_multiples_basic(q, align);
    assert(addr <= q * align < addr + align) by (nonlinear_arith)
        requires
            1 <= align,
            addr + align - 1 == align * q + (addr + align - 1) % align,
            0 <= (addr + align - 1) % align < align,
    {}
}

/// Align the given address `addr` upwards to alignment `align`.
pub fn align_up(addr: u64, align: u64) -> (r: u64)
    requires
        1 <= align,
        addr + align - 1 <= u64::MAX,
    ensures
        r == spec_align_up(addr as int, align as int),
{
    proof {
        lemma_align_up_bounds(addr as int, align as int);
    }
    let rem = addr % align;
    if rem == 0 {
        proof {
            assert(addr % align == 0 ==> addr == spec_align_up(addr as int, align as int))
                by (nonlinear_arith)
                requires
                    1 <= align,
                    0 <= addr,
            {}
        }
        addr
    } else {
        let r = addr + (align - rem);
        proof {
            assert(r % align == 0) by (nonlinear_arith)
                requires
                    1 <= align,
                    0 < addr % align,
                    r == addr + align - addr % align,
            {}
            assert(r == spec_align_up(addr as int, align as int)) by {
                lemma_align_up_unique(addr as int, align as int, r as int);
            }
        }
        r
    }
}

/// How many pages back the heap.
pub open spec fn heap_page_count() -> int {
    HEAP_SIZE as int / PAGE_SIZE as int
}

/// The `k`-th page of the heap range.
pub open spec fn heap_page(k: int) -> u64 {
    (HEAP_START + k * PAGE_SIZE) as u64
}

/// Whether `q` is one of the heap's pages.
pub open spec fn is_heap_page(q: u64) -> bool {
    exists|k: int| 0 <= k < heap_page_count() && q == heap_page(k)
}

/// The usable frame that ends up backing the `k`-th heap page, given
/// the frame cursor at entry and the number `m` of page tables the
/// heap range was missing: the first page's frame is drawn first, the
/// `m` table frames next, and one more frame per further page.
pub open spec fn heap_frame(fa0: BootInfoFrameAllocator, m: int, k: int) -> u64 {
    if k == 0 {
        fa0.frames()[fa0.cursor()]
    } else {
        fa0.frames()[fa0.cursor() + m + k]
    }
}

/// The first `j` heap pages are mapped and the rest are not.
pub open spec fn heap_mapped_prefix(t: Translator, j: int) -> bool {
    &&& forall|k: int| 0 <= k < j ==> t.maps(#[trigger] heap_page(k))
    &&& forall|k: int| j <= k < heap_page_count() ==> !t.maps(#[trigger] heap_page(k))
}

/// Failure initializing the heap.
#[derive(Clone, Copy, Debug, PartialEq, Eq, Structural)]
pub enum InitHeapError {
    /// A page or page-table frame could not be obtained; fatal at boot.
    FrameAllocationFailed,
    /// The heap was already initialized; a second initialization is
    /// rejected and changes nothing.
    AlreadyInitialized,
}

/// Where the heap base sits within each page-table span.
proof fn lemma_heap_start_offsets()
    ensures
        HEAP_START % PAGE_SIZE == 0,
        HEAP_START % crate::paging::L1_TABLE_SPAN == 0x4_0000,
        HEAP_START % crate::paging::L2_TABLE_SPAN == 0x444_0000,
        HEAP_START % crate::paging::L3_TABLE_SPAN == 0x44_4444_0000,
{
    vstd::arithmetic::div_mod::lemma_fundamental_div_mod_converse(
        HEAP_START as int,
        PAGE_SIZE as int,
        0x4_4444_4440,
        0,
    );
    vstd::arithmetic::div_mod::lemma_fundamental_div_mod_converse(
        HEAP_START as int,
        crate::paging::L1_TABLE_SPAN as int,
        0x222_2222,
        0x4_0000,
    );
    vstd::arithmetic::div_mod::lemma_fundamental_div_mod_converse(
        HEAP_START as int,
        crate::paging::L2_TABLE_SPAN as int,
        0x1_1111,
        0x444_0000,
    );
    vstd::arithmetic::div_mod::lemma_fundamental_div_mod_converse(
        HEAP_START as int,
        crate::paging::L3_TABLE_SPAN as int,
        0x88,
        0x44_4444_0000,
    );
}

/// Dividing by `d` ignores an offset that stays within the divisor.
proof fn lemma_key_stable(base: u64, off: u64, d: u64)
    requires
        1 <= d,
        base % d + off < d,
        base + off <= u64::MAX,
    ensures
        ((base + off) as u64) / d == base / d,
{
    let q = (base / d) as int;
    let r = (base % d) as int;
    vstd::arithmetic::div_mod::lemma_fundamental_div_mod(base as int, d as int);
    assert(q * (d as int) == (d as int) * q) by (nonlinear_arith);
    assert(base + off == q * (d as int) + (r + off));
    vstd::arithmetic::div_mod::lemma_fundamental_div_mod_converse(base + off, d as int, q, r + off);
}

/// All heap pages are page-aligned, pairwise distinct, and served by
/// the same level-1, level-2 and level-3 page tables.
proof fn lemma_heap_pages()
    ensures
        forall|k: int|
            0 <= k < heap_page_count() ==> (#[trigger] heap_page(k)) % PAGE_SIZE == 0 && heap_page(
                k,
            ) < crate::paging::MAX_VIRTUAL_ADDRESS,
        forall|k1: int, k2: int|
            0 <= k1 < k2 < heap_page_count() ==> heap_page(k1) != heap_page(k2),
        forall|k: int|
            0 <= k < heap_page_count() ==> l1_key(#[trigger] heap_page(k)) == l1_key(HEAP_START)
                && l2_key(heap_page(k)) == l2_key(HEAP_START) && l3_key(heap_page(k)) == l3_key(
                HEAP_START,
            ),
{
    lemma_heap_start_offsets();
    assert forall|k: int|
        0 <= k < heap_page_count() implies (#[trigger] heap_page(k)) % PAGE_SIZE == 0 && heap_page(
        k,
    ) < crate::paging::MAX_VIRTUAL_ADDRESS && l1_key(heap_page(k)) == l1_key(HEAP_START) && l2_key(
        heap_page(k),
    ) == l2_key(HEAP_START) && l3_key(heap_page(k)) == l3_key(HEAP_START) by {
        let off = k * PAGE_SIZE;
        assert(0 <= off <= 24 * 4096) by (nonlinear_arith)
            requires
                0 <= k <= 24,
                off == k * PAGE_SIZE,
                PAGE_SIZE == 4096,
        {}
        assert((HEAP_START + off) % (PAGE_SIZE as int) == 0) by {
            vstd::arithmetic::div_mod::lemma_add_mod_noop(
                HEAP_START as int,
                off,
                PAGE_SIZE as int,
            );
            assert(off % (PAGE_SIZE as int) == 0) by (nonlinear_arith)
                requires
                    off == k * PAGE_SIZE,
                    PAGE_SIZE == 4096,
            {}
        }
        lemma_key_stable(HEAP_START, off as u64, crate::paging::L1_TABLE_SPAN);
        lemma_key_stable(HEAP_START, off as u64, crate::paging::L2_TABLE_SPAN);
        lemma_key_stable(HEAP_START, off as u64, crate::paging::L3_TABLE_SPAN);
    }
    assert forall|k1: int, k2: int|
        0 <= k1 < k2 < heap_page_count() implies heap_page(k1) != heap_page(k2) by {
        assert(k1 * PAGE_SIZE < k2 * PAGE_SIZE) by (nonlinear_arith)
            requires
                k1 < k2,
                PAGE_SIZE == 4096,
        {}
    }
}

/// Map the fixed heap range page by page — drawing one frame per page
/// and one per missing intermediate page table — and then hand the
/// whole region to the heap allocator, exactly once.
///
/// The call succeeds if and only if the heap allocator was not
/// already initialized and the frame allocator still held one frame
/// for each heap page plus one for each page table the heap range was
/// missing. A repeated initialization is rejected with
/// `AlreadyInitialized` and changes nothing; running out of frames is
/// `FrameAllocationFailed` and fatal at boot.
#[verifier::rlimit(100)]
#[verifier::spinoff_prover]
pub fn init_heap(
    translator: &mut Translator,
    frame_allocator: &mut BootInfoFrameAllocator,
    allocator: &mut fixed_size_block::Allocator,
) -> (r: Result<(), InitHeapError>)
    requires
        old(translator).wf(),
        old(frame_allocator).wf(),
        old(allocator).wf(),
        !old(allocator).initialized() ==> forall|k: int|
            0 <= k < heap_page_count() ==> !old(translator).maps(#[trigger] heap_page(k)),
    ensures
        final(translator).wf(),
        final(frame_allocator).wf(),
        final(allocator).wf(),
        final(frame_allocator).regions() == old(frame_allocator).regions(),
        final(translator).offset() == old(translator).offset(),
        r == Err::<(), InitHeapError>(InitHeapError::AlreadyInitialized)
            <==> old(allocator).initialized(),
        old(allocator).initialized() ==> *final(translator) == *old(translator)
            && *final(frame_allocator) == *old(frame_allocator)
            && *final(allocator) == *old(allocator),
        !old(allocator).initialized() ==> {
            let m = old(translator).missing_tables(HEAP_START);
            &&& (r is Ok <==> old(frame_allocator).remaining() >= heap_page_count() + m)
            &&& forall|q: u64|
                !is_heap_page(q) ==> final(translator).translation_of(q)
                    == old(translator).translation_of(q)
            &&& (r is Ok ==> {
                &&& forall|k: int|
                    0 <= k < heap_page_count() ==> final(translator).translation_of(
                        #[trigger] heap_page(k),
                    ) == Some(
                        Translation {
                            page: heap_page(k),
                            frame: heap_frame(*old(frame_allocator), m, k),
                            flags: FLAG_PRESENT | FLAG_WRITABLE,
                        },
                    )
                &&& final(frame_allocator).cursor() == old(frame_allocator).cursor() + m
                    + heap_page_count()
                &&& final(allocator).initialized()
                &&& final(allocator).heap_start() == HEAP_START
                &&& final(allocator).heap_size() == HEAP_SIZE
                &&& final(allocator).empty_lists()
                &&& final(allocator).live() == Set::<int>::empty()
                &&& forall|a: int|
                    final(allocator).fallback().is_free(a) <==> HEAP_START <= a < HEAP_START
                        + HEAP_SIZE
            })
            &&& (r is Ok ==> forall|k: int|
                0 <= k < heap_page_count() ==> final(translator).maps(#[trigger] heap_page(k)))
            &&& (!(r is Ok) ==> r == Err::<(), InitHeapError>(InitHeapError::FrameAllocationFailed)
                && *final(allocator) == *old(allocator) && (exists|j: int|
                0 <= j <= heap_page_count() && #[trigger] heap_mapped_prefix(*final(translator), j)))
        },
{
    proof {
        lemma_heap_pages();
    }
    if allocator.is_initialized() {
        return Err(InitHeapError::AlreadyInitialized);
    }
    let ghost t0 = *translator;
    let ghost fa0 = *frame_allocator;
    let ghost m = t0.missing_tables(HEAP_START);
    let ghost c0 = fa0.cursor();
    let pages = HEAP_SIZE / PAGE_SIZE;
    let mut k: u64 = 0;
    while k < pages
        invariant
            translator.wf(),
            frame_allocator.wf(),
            translator.offset() == t0.offset(),
            frame_allocator.regions() == fa0.regions(),
            allocator == old(allocator),
            allocator.wf(),
            !allocator.initialized(),
            t0 == *old(translator),
            fa0 == *old(frame_allocator),
            t0.wf(),
            fa0.wf(),
            pages == heap_page_count(),
            m == t0.missing_tables(HEAP_START),
            c0 == fa0.cursor(),
            0 <= k <= pages,
            forall|j: int| 0 <= j < heap_page_count() ==> !t0.maps(#[trigger] heap_page(j)),
            forall|j: int|
                0 <= j < heap_page_count() ==> (#[trigger] heap_page(j)) % PAGE_SIZE == 0
                    && heap_page(j) < crate::paging::MAX_VIRTUAL_ADDRESS,
            forall|j1: int, j2: int|
                0 <= j1 < j2 < heap_page_count() ==> heap_page(j1) != heap_page(j2),
            forall|j: int|
                0 <= j < heap_page_count() ==> l1_key(#[trigger] heap_page(j)) == l1_key(HEAP_START)
                    && l2_key(heap_page(j)) == l2_key(HEAP_START) && l3_key(heap_page(j)) == l3_key(
                    HEAP_START,
                ),
            k == 0 ==> *translator == t0 && frame_allocator.cursor() == c0,
            k >= 1 ==> {
                &&& frame_allocator.cursor() == c0 + m + k
                &&& translator.has_l3_table(HEAP_START)
                &&& translator.has_l2_table(HEAP_START)
                &&& translator.has_l1_table(HEAP_START)
            },
            forall|j: int|
                0 <= j < k ==> translator.translation_of(#[trigger] heap_page(j)) == Some(
                    Translation {
                        page: heap_page(j),
                        frame: heap_frame(fa0, m, j),
                        flags: FLAG_PRESENT | FLAG_WRITABLE,
                    },
                ),
            forall|j: int| 0 <= j < k ==> translator.maps(#[trigger] heap_page(j)),
            forall|q: u64| !is_heap_page(q) ==> translator.translation_of(q) == t0.translation_of(q),
            forall|j: int| k <= j < heap_page_count() ==> !translator.maps(#[trigger] heap_page(j)),
        decreases pages - k,
    {
        proof {
            assert(k * PAGE_SIZE <= 24 * 4096) by (nonlinear_arith)
                requires
                    0 <= k <= 24,
                    PAGE_SIZE == 4096,
            {}
        }
        let page = HEAP_START + k * PAGE_SIZE;
        proof {
            assert(page == heap_page(k as int));
        }
        let ghost fa_top = *frame_allocator;
        let frame = match frame_allocator.allocate_frame() {
            Some(f) => f,
            None => {
                proof {
                    assert(fa0.remaining() < heap_page_count() + m) by {
                        if k == 0 {
                        } else {
                            assert(frame_allocator.cursor() == c0 + m + k);
                        }
                    }
                    assert(heap_mapped_prefix(*translator, k as int));
                }
                return Err(InitHeapError::FrameAllocationFailed);
            },
        };
        let ghost t_before = *translator;
        let ghost fa_before = *frame_allocator;
        let flags = FLAG_PRESENT | FLAG_WRITABLE;
        match translator.map_page(page, frame, flags, frame_allocator) {
            Ok(()) => {},
            Err(MapError::FrameAllocationFailed) => {
                proof {
                    assert(k == 0) by {
                        if k >= 1 {
                            assert(t_before.missing_tables(page) == 0);
                        }
                    }
                    assert(fa0.remaining() < heap_page_count() + m) by {
                        assert(t_before.missing_tables(page) > fa_before.remaining());
                        assert(t_before.missing_tables(page) == m);
                        assert(fa_before.remaining() == fa0.remaining() - 1);
                    }
                    assert(heap_mapped_prefix(*translator, 0));
                }
                return Err(InitHeapError::FrameAllocationFailed);
            },
        }
        proof {
            let e = Translation { page, frame, flags };
            crate::paging::lemma_push_translation(t_before, *translator, e);
            assert(frame == heap_frame(fa0, m, k as int)) by {
                assert(fa_top.frames() == fa0.frames());
                assert(frame == fa_top.frames()[fa_top.cursor()]);
                if k == 0 {
                    assert(fa_top.cursor() == c0);
                } else {
                    assert(fa_top.cursor() == c0 + m + k);
                }
            }
            assert(t_before.missing_tables(page) == (if k == 0 {
                m
            } else {
                0int
            }));
            assert forall|q: u64| !is_heap_page(q) implies translator.translation_of(q)
                == t0.translation_of(q) by {
                assert(q != page) by {
                    assert(is_heap_page(heap_page(k as int)));
                }
            }
            assert forall|j: int| k + 1 <= j < heap_page_count() implies !translator.maps(
                #[trigger] heap_page(j),
            ) by {
                assert(heap_page(j) != page);
            }
        }
        k = k + 1;
    }
    proof {
        assert(fa0.remaining() >= heap_page_count() + m) by {
            assert(frame_allocator.cursor() == c0 + m + pages);
            assert(frame_allocator.cursor() <= frame_allocator.frames().len());
        }
    }
    match allocator.init(HEAP_START, HEAP_SIZE) {
        Ok(()) => Ok(()),
        Err(fixed_size_block::InitError::AlreadyInitialized) => {
            proof {
                assert(false);
            }
            Err(InitHeapError::AlreadyInitialized)
        },
    }
}

/// An aligned address in `[addr, addr + align)` is exactly `spec_align_up`.
pub proof fn lemma_align_up_unique(addr: int, align: int, m: int)
    requires
        0 <= addr,
        1 <= align,
        m % align == 0,
        addr <= m < addr + align,
    ensures
        m == spec_align_up(addr, align),
{
    lemma_align_up_bounds(addr, align);
    let a = spec_align_up(addr, align);
    assert(m == a) by (nonlinear_arith)
        requires
            1 <= align,
            m % align == 0,
            a % align == 0,
            addr <= m < addr + align,
            addr <= a < addr + align,
    {}
}

} // verus!
