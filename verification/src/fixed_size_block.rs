//! The process-wide heap allocator: fixed-size block classes over the
//! fallback allocator.
//!
//! Requests are rounded up to the smallest power-of-two size class
//! that covers both the requested size and alignment; each class keeps
//! a stack of freed blocks of exactly that size, so freeing and
//! re-allocating within a class is constant-time and returns the most
//! recently freed block. A class's block size doubles as its block
//! alignment. Requests larger than the largest class go, unmodified,
//! to the fallback allocator.
//!
//! Besides the free-list bookkeeping the allocator carries a ghost set
//! of live bytes — everything handed out and not yet returned — and
//! its invariants keep live bytes, cached class blocks and fallback
//! free bytes pairwise disjoint: no two simultaneously live
//! allocations can overlap.

use crate::linked_list;
use crate::linked_list::first_fit;
use crate::linked_list::MAX_HEAP_END;
use vstd::prelude::*;
use vstd::set_lib::set_int_range;

verus! {

/// How many block size classes there are.
pub const BLOCK_SIZES_COUNT: usize = 9;

/// The block sizes, ascending powers of two from 8 to 2048. Each size
/// is also the alignment of the blocks in that class.
pub open spec fn spec_block_size(c: int) -> int {
    if c <= 0 {
        8
    } else if c == 1 {
        16
    } else if c == 2 {
        32
    } else if c == 3 {
        64
    } else if c == 4 {
        128
    } else if c == 5 {
        256
    } else if c == 6 {
        512
    } else if c == 7 {
        1024
    } else {
        2048
    }
}

/// Block size of class `c`.
pub fn block_size(c: usize) -> (r: u64)
    requires
        c < BLOCK_SIZES_COUNT,
    ensures
        r == spec_block_size(c as int),
{
    if c == 0 {
        8
    } else if c == 1 {
        16
    } else if c == 2 {
        32
    } else if c == 3 {
        64
    } else if c == 4 {
        128
    } else if c == 5 {
        256
    } else if c == 6 {
        512
    } else if c == 7 {
        1024
    } else {
        2048
    }
}

/// The size a request must be served with: the larger of its size and
/// its alignment.
pub open spec fn spec_required(size: u64, align: u64) -> int {
    if size >= align {
        size as int
    } else {
        align as int
    }
}

/// The smallest class whose block size covers `required`, if any.
pub open spec fn spec_list_index(required: int) -> Option<int> {
    if required <= 8 {
        Some(0int)
    } else if required <= 16 {
        Some(1int)
    } else if required <= 32 {
        Some(2int)
    } else if required <= 64 {
        Some(3int)
    } else if required <= 128 {
        Some(4int)
    } else if required <= 256 {
        Some(5int)
    } else if required <= 512 {
        Some(6int)
    } else if required <= 1024 {
        Some(7int)
    } else if required <= 2048 {
        Some(8int)
    } else {
        None
    }
}

/// Choose the block class for a request: the smallest class at least
/// as large as both the size and the alignment, or `None` when the
/// request exceeds the largest class.
pub fn list_index(size: u64, align: u64) -> (r: Option<usize>)
    ensures
        match r {
            Some(c) => spec_list_index(spec_required(size, align)) == Some(c as int) && c
                < BLOCK_SIZES_COUNT,
            None => spec_list_index(spec_required(size, align)) is None,
        },
{
    let required = if size >= align {
        size
    } else {
        align
    };
    if required <= 8 {
        Some(0)
    } else if required <= 16 {
        Some(1)
    } else if required <= 32 {
        Some(2)
    } else if required <= 64 {
        Some(3)
    } else if required <= 128 {
        Some(4)
    } else if required <= 256 {
        Some(5)
    } else if required <= 512 {
        Some(6)
    } else if required <= 1024 {
        Some(7)
    } else if required <= 2048 {
        Some(8)
    } else {
        None
    }
}

/// How many bytes an allocation request actually occupies: its class's
/// block size, or the raw size for oversized requests.
pub open spec fn spec_alloc_span(size: u64, align: u64) -> int {
    match spec_list_index(spec_required(size, align)) {
        Some(c) => spec_block_size(c),
        None => size as int,
    }
}

/// Rejection of a repeated initialization.
#[derive(Clone, Copy, Debug, PartialEq, Eq, Structural)]
pub enum InitError {
    AlreadyInitialized,
}

/// The fixed-size-block heap allocator.
pub struct Allocator {
    list_heads: Vec<Vec<u64>>,
    fallback_allocator: linked_list::Allocator,
    live: Ghost<Set<int>>,
}

impl Allocator {
    /// The per-class stacks of cached free blocks.
    pub closed spec fn class_lists(self) -> Seq<Seq<u64>> {
        self.list_heads@.map_values(|l: Vec<u64>| l@)
    }

    /// The backing fallback allocator.
    pub closed spec fn fallback(self) -> linked_list::Allocator {
        self.fallback_allocator
    }

    /// The bytes currently handed out and not yet returned.
    pub closed spec fn live(self) -> Set<int> {
        self.live@
    }

    pub open spec fn initialized(self) -> bool {
        self.fallback().initialized()
    }

    pub open spec fn heap_start(self) -> u64 {
        self.fallback().heap_start()
    }

    pub open spec fn heap_size(self) -> u64 {
        self.fallback().heap_size()
    }

    /// Whether byte `a` sits in one of the cached class blocks.
    pub open spec fn in_class_lists(self, a: int) -> bool {
        exists|c: int, k: int|
            0 <= c < BLOCK_SIZES_COUNT && 0 <= k < self.class_lists()[c].len()
                && (#[trigger] self.class_lists()[c][k]) <= a < self.class_lists()[c][k]
                + spec_block_size(c)
    }

    /// Every cached block is aligned to its class and inside the heap.
    pub open spec fn entries_ok(self) -> bool {
        forall|c: int, k: int|
            0 <= c < BLOCK_SIZES_COUNT && 0 <= k < self.class_lists()[c].len() ==> {
                &&& (#[trigger] self.class_lists()[c][k]) as int % spec_block_size(c) == 0
                &&& self.heap_start() <= self.class_lists()[c][k]
                &&& self.class_lists()[c][k] + spec_block_size(c) <= self.heap_start()
                    + self.heap_size()
            }
    }

    /// No two cached blocks overlap.
    pub open spec fn entries_disjoint(self) -> bool {
        forall|c1: int, k1: int, c2: int, k2: int|
            #![trigger self.class_lists()[c1][k1], self.class_lists()[c2][k2]]
            0 <= c1 < BLOCK_SIZES_COUNT && 0 <= k1 < self.class_lists()[c1].len() && 0 <= c2
                < BLOCK_SIZES_COUNT && 0 <= k2 < self.class_lists()[c2].len() && !(c1 == c2 && k1
                == k2) ==> (self.class_lists()[c1][k1] + spec_block_size(c1)
                <= self.class_lists()[c2][k2] || self.class_lists()[c2][k2] + spec_block_size(c2)
                <= self.class_lists()[c1][k1])
    }

    /// Cached blocks are not free in the fallback allocator.
    pub open spec fn entries_not_free(self) -> bool {
        forall|a: int| #[trigger] self.in_class_lists(a) ==> !self.fallback().is_free(a)
    }

    /// Live bytes are inside the heap and neither free nor cached.
    pub open spec fn live_ok(self) -> bool {
        forall|a: int| #[trigger]
            self.live().contains(a) ==> {
                &&& !self.fallback().is_free(a)
                &&& !self.in_class_lists(a)
                &&& self.heap_start() <= a < self.heap_start() + self.heap_size()
            }
    }

    pub open spec fn empty_lists(self) -> bool {
        forall|c: int| 0 <= c < BLOCK_SIZES_COUNT ==> self.class_lists()[c].len() == 0
    }

    pub open spec fn wf(self) -> bool {
        &&& self.fallback().wf()
        &&& self.class_lists().len() == BLOCK_SIZES_COUNT
        &&& self.entries_ok()
        &&& self.entries_disjoint()
        &&& self.entries_not_free()
        &&& self.live_ok()
        &&& !self.initialized() ==> self.empty_lists() && self.live() == Set::<int>::empty()
    }

    /// Whether `init` has been called.
    pub fn is_initialized(&self) -> (r: bool)
        ensures
            r == self.initialized(),
    {
        self.fallback_allocator.is_initialized()
    }

    /// Create an empty allocator: every class list empty, nothing
    /// live, the fallback allocator not yet given a region.
    pub fn new() -> (r: Self)
        ensures
            r.wf(),
            !r.initialized(),
            r.empty_lists(),
            r.live() == Set::<int>::empty(),
    {
        let mut list_heads: Vec<Vec<u64>> = Vec::new();
        let mut c: usize = 0;
        while c < BLOCK_SIZES_COUNT
            invariant
                0 <= c <= BLOCK_SIZES_COUNT,
                list_heads@.len() == c,
                forall|j: int| 0 <= j < c ==> (#[trigger] list_heads@[j])@.len() == 0,
            decreases BLOCK_SIZES_COUNT - c,
        {
            list_heads.push(Vec::new());
            c = c + 1;
        }
        let r = Allocator {
            list_heads,
            fallback_allocator: linked_list::Allocator::new(),
            live: Ghost(Set::empty()),
        };
        proof {
            assert forall|a: int| !r.in_class_lists(a) by {
                if r.in_class_lists(a) {
                    let (c2, k2) = choose|c2: int, k2: int|
                        0 <= c2 < BLOCK_SIZES_COUNT && 0 <= k2 < r.class_lists()[c2].len()
                            && (#[trigger] r.class_lists()[c2][k2]) <= a < r.class_lists()[c2][k2]
                            + spec_block_size(c2);
                    assert(r.class_lists()[c2].len() == 0);
                }
            }
        }
        r
    }

    /// Delegate the whole heap region to the fallback allocator and
    /// start with every class list empty. One-time: a second call is
    /// rejected and changes nothing.
    pub fn init(&mut self, heap_start: u64, heap_size: u64) -> (r: Result<(), InitError>)
        requires
            old(self).wf(),
            1 <= heap_size,
            heap_start + heap_size <= MAX_HEAP_END,
        ensures
            final(self).wf(),
            old(self).initialized() ==> r == Err::<(), InitError>(InitError::AlreadyInitialized)
                && *final(self) == *old(self),
            !old(self).initialized() ==> {
                &&& r == Ok::<(), InitError>(())
                &&& final(self).initialized()
                &&& final(self).heap_start() == heap_start
                &&& final(self).heap_size() == heap_size
                &&& final(self).empty_lists()
                &&& final(self).live() == Set::<int>::empty()
                &&& final(self).fallback().blocks() == seq![
                    linked_list::Block { start: heap_start, size: heap_size },
                ]
                &&& forall|a: int|
                    final(self).fallback().is_free(a) <==> heap_start <= a < heap_start + heap_size
            },
    {
        if self.fallback_allocator.is_initialized() {
            return Err(InitError::AlreadyInitialized);
        }
        self.fallback_allocator.init(heap_start, heap_size);
        proof {
            assert(self.class_lists() =~= old(self).class_lists());
            assert forall|a: int| !self.in_class_lists(a) by {
                if self.in_class_lists(a) {
                    let (c2, k2) = choose|c2: int, k2: int|
                        0 <= c2 < BLOCK_SIZES_COUNT && 0 <= k2 < self.class_lists()[c2].len()
                            && (#[trigger] self.class_lists()[c2][k2]) <= a
                            < self.class_lists()[c2][k2] + spec_block_size(c2);
                    assert(self.class_lists()[c2].len() == 0);
                }
            }
        }
        Ok(())
    }

    /// Allocate from the fallback allocator and account the returned
    /// range as live.
    pub fn fallback_alloc(&mut self, size: u64, align: u64) -> (r: Option<u64>)
        requires
            old(self).wf(),
            old(self).initialized(),
            1 <= size,
            1 <= align <= MAX_HEAP_END,
        ensures
            final(self).wf(),
            final(self).initialized(),
            final(self).heap_start() == old(self).heap_start(),
            final(self).heap_size() == old(self).heap_size(),
            final(self).class_lists() == old(self).class_lists(),
            fallback_alloc_post(*old(self), *final(self), size, align, r),
    {
        let ghost pre = *self;
        match self.fallback_allocator.allocate_first_fit(size, align) {
            Ok(addr) => {
                proof {
                    self.live@ = self.live@.union(set_int_range(addr as int, addr + size));
                }
                proof {
                    assert(self.class_lists() =~= pre.class_lists());
                    lemma_same_lists_same_cache(pre, *self);
                    assert(set_int_range(addr as int, addr + size).disjoint(pre.live())) by {
                        assert forall|x: int|
                            set_int_range(addr as int, addr + size).contains(x) implies !pre.live()
                            .contains(x) by {
                            assert(pre.fallback().is_free(x));
                        }
                    }
                    assert forall|a: int| #[trigger]
                        self.live().contains(a) implies {
                        &&& !self.fallback().is_free(a)
                        &&& !self.in_class_lists(a)
                        &&& self.heap_start() <= a < self.heap_start() + self.heap_size()
                    } by {
                        if pre.live().contains(a) {
                            assert(!pre.fallback().is_free(a));
                        } else {
                            assert(addr <= a < addr + size);
                            assert(pre.fallback().is_free(a));
                        }
                    }
                    assert forall|a: int| #[trigger]
                        self.in_class_lists(a) implies !self.fallback().is_free(a) by {
                        assert(pre.in_class_lists(a));
                    }
                }
                Some(addr)
            },
            Err(_) => {
                proof {
                    assert(self.class_lists() =~= pre.class_lists());
                    lemma_same_lists_same_cache(pre, *self);
                }
                None
            },
        }
    }

    /// Allocate `size` bytes at alignment `align`.
    ///
    /// If a class covers the request, its block comes from the class's
    /// free list — most recently freed first — or, when the list is
    /// empty, freshly from the fallback allocator with the class's
    /// size and alignment. An oversized request goes to the fallback
    /// allocator unmodified. `None` means out of memory, which the
    /// caller sees as an allocation failure, not a fatal error.
    ///
    /// The returned block never overlaps any allocation that is still
    /// live, and it is aligned to its class's block size.
    pub fn allocate(&mut self, size: u64, align: u64) -> (r: Option<u64>)
        requires
            old(self).wf(),
            old(self).initialized(),
            1 <= size,
            1 <= align <= MAX_HEAP_END,
        ensures
            final(self).wf(),
            final(self).initialized(),
            final(self).heap_start() == old(self).heap_start(),
            final(self).heap_size() == old(self).heap_size(),
            alloc_post(*old(self), *final(self), size, align, r),
            match r {
                Some(addr) => {
                    &&& size <= spec_alloc_span(size, align)
                    &&& (spec_list_index(spec_required(size, align)) matches Some(c) ==> addr as int
                        % spec_block_size(c) == 0)
                    &&& set_int_range(addr as int, addr + spec_alloc_span(size, align)).disjoint(
                        old(self).live(),
                    )
                    &&& final(self).live() == old(self).live() + set_int_range(
                        addr as int,
                        addr + spec_alloc_span(size, align),
                    )
                    &&& old(self).heap_start() <= addr
                    &&& addr + spec_alloc_span(size, align) <= old(self).heap_start() + old(
                        self,
                    ).heap_size()
                },
                None => final(self).live() == old(self).live(),
            },
    {
        let ghost pre = *self;
        match list_index(size, align) {
            Some(index) => {
                let bs = block_size(index);
                let ghost c = index as int;
                if self.list_heads[index].len() > 0 {
                    let mut l: Vec<u64> = Vec::new();
                    self.list_heads.set_and_swap(index, &mut l);
                    let node = l.pop();
                    self.list_heads.set_and_swap(index, &mut l);
                    let addr = match node {
                        Some(a) => a,
                        None => {
                            proof {
                                assert(false);
                            }
                            0
                        },
                    };
                    proof {
                        self.live@ = self.live@.union(set_int_range(addr as int, addr + bs));
                        assert(pre.class_lists()[c] == pre.list_heads@[c]@);
                        assert(self.class_lists() =~~= pre.class_lists().update(
                            c,
                            pre.class_lists()[c].drop_last(),
                        ));
                        lemma_alloc_pop(pre, *self, size, align, c, addr);
                    }
                    Some(addr)
                } else {
                    let r = self.fallback_alloc(bs, bs);
                    proof {
                        lemma_span_from_class(size, align, c);
                    }
                    r
                }
            },
            None => {
                let r = self.fallback_alloc(size, align);
                r
            },
        }
    }

    /// Return an allocation made with the same `size` and `align`.
    ///
    /// If a class covers the layout the block is pushed onto that
    /// class's free list in constant time; otherwise the range goes
    /// back to the fallback allocator, which re-inserts and coalesces
    /// it. Correctness requires the identical layout that the
    /// allocation was made with: the whole block must still be live,
    /// and a class block must carry its class alignment.
    pub fn deallocate(&mut self, addr: u64, size: u64, align: u64)
        requires
            old(self).wf(),
            old(self).initialized(),
            1 <= size,
            1 <= align <= MAX_HEAP_END,
            forall|a: int|
                addr <= a < addr + spec_alloc_span(size, align) ==> old(self).live().contains(a),
            spec_list_index(spec_required(size, align)) matches Some(c) ==> addr as int
                % spec_block_size(c) == 0,
        ensures
            final(self).wf(),
            final(self).initialized(),
            final(self).heap_start() == old(self).heap_start(),
            final(self).heap_size() == old(self).heap_size(),
            dealloc_post(*old(self), *final(self), addr, size, align),
            final(self).live() == old(self).live() - set_int_range(
                addr as int,
                addr + spec_alloc_span(size, align),
            ),
    {
        let ghost pre = *self;
        match list_index(size, align) {
            Some(index) => {
                let bs = block_size(index);
                let ghost c = index as int;
                let mut l: Vec<u64> = Vec::new();
                self.list_heads.set_and_swap(index, &mut l);
                l.push(addr);
                self.list_heads.set_and_swap(index, &mut l);
                proof {
                    self.live@ = self.live@.difference(set_int_range(addr as int, addr + bs));
                    assert(pre.class_lists()[c] == pre.list_heads@[c]@);
                    assert(self.class_lists() =~~= pre.class_lists().update(
                        c,
                        pre.class_lists()[c].push(addr),
                    ));
                    lemma_dealloc_push(pre, *self, size, align, c, addr);
                }
            },
            None => {
                proof {
                    assert forall|a: int| addr <= a < addr + size implies !pre.fallback().is_free(
                        a,
                    ) by {
                        assert(pre.live().contains(a));
                    }
                    assert(pre.live().contains(addr as int));
                    assert(pre.live().contains(addr + size - 1));
                }
                self.fallback_allocator.deallocate(addr, size);
                proof {
                    self.live@ = self.live@.difference(set_int_range(addr as int, addr + size));
                    assert(self.class_lists() =~= pre.class_lists());
                    lemma_same_lists_same_cache(pre, *self);
                    assert forall|a: int| #[trigger]
                        self.in_class_lists(a) implies !self.fallback().is_free(a) by {
                        assert(pre.in_class_lists(a));
                        if self.fallback().is_free(a) {
                            if addr <= a < addr + size {
                                assert(pre.live().contains(a));
                            } else {
                                assert(pre.fallback().is_free(a));
                            }
                        }
                    }
                    assert forall|a: int| #[trigger]
                        self.live().contains(a) implies {
                        &&& !self.fallback().is_free(a)
                        &&& !self.in_class_lists(a)
                        &&& self.heap_start() <= a < self.heap_start() + self.heap_size()
                    } by {
                        assert(pre.live().contains(a));
                        assert(!(addr <= a < addr + size));
                    }
                }
            },
        }
    }
}

/// What a completed `fallback_alloc` call guarantees.
pub open spec fn fallback_alloc_post(
    pre: Allocator,
    post: Allocator,
    size: u64,
    align: u64,
    r: Option<u64>,
) -> bool {
    match first_fit(pre.fallback().blocks(), size, align) {
        Some(a) => {
            &&& r == Some(a as u64)
            &&& forall|x: int|
                post.fallback().is_free(x) <==> (pre.fallback().is_free(x) && !(a <= x < a + size))
            &&& forall|x: int| a <= x < a + size ==> pre.fallback().is_free(x)
            &&& set_int_range(a, a + size).disjoint(pre.live())
            &&& post.live() == pre.live() + set_int_range(a, a + size)
            &&& pre.heap_start() <= a
            &&& a + size <= pre.heap_start() + pre.heap_size()
            &&& a % align as int == 0
        },
        None => {
            &&& r is None
            &&& post.fallback() == pre.fallback()
            &&& post.live() == pre.live()
        },
    }
}

/// What a completed `alloc` call guarantees, by the path taken: a pop
/// from the request's class list, a fresh class block carved from the
/// fallback allocator, or — for an oversized request — a raw
/// first-fit allocation.
pub open spec fn alloc_post(
    pre: Allocator,
    post: Allocator,
    size: u64,
    align: u64,
    r: Option<u64>,
) -> bool {
    match spec_list_index(spec_required(size, align)) {
        Some(c) => {
            if pre.class_lists()[c].len() > 0 {
                &&& r == Some(pre.class_lists()[c].last())
                &&& post.class_lists() == pre.class_lists().update(
                    c,
                    pre.class_lists()[c].drop_last(),
                )
                &&& post.fallback() == pre.fallback()
                &&& post.live() == pre.live() + set_int_range(
                    pre.class_lists()[c].last() as int,
                    pre.class_lists()[c].last() + spec_block_size(c),
                )
            } else {
                &&& post.class_lists() == pre.class_lists()
                &&& fallback_alloc_post(
                    pre,
                    post,
                    spec_block_size(c) as u64,
                    spec_block_size(c) as u64,
                    r,
                )
            }
        },
        None => {
            &&& post.class_lists() == pre.class_lists()
            &&& fallback_alloc_post(pre, post, size, align, r)
        },
    }
}

/// What a completed `dealloc` call guarantees, by the path taken: a
/// push onto the layout's class list, or a first-fit re-insertion
/// with coalescing.
pub open spec fn dealloc_post(
    pre: Allocator,
    post: Allocator,
    addr: u64,
    size: u64,
    align: u64,
) -> bool {
    match spec_list_index(spec_required(size, align)) {
        Some(c) => {
            &&& post.class_lists() == pre.class_lists().update(
                c,
                pre.class_lists()[c].push(addr),
            )
            &&& post.fallback() == pre.fallback()
            &&& post.live() == pre.live() - set_int_range(addr as int, addr + spec_block_size(c))
        },
        None => {
            &&& post.class_lists() == pre.class_lists()
            &&& forall|x: int|
                post.fallback().is_free(x) <==> (pre.fallback().is_free(x) || (addr <= x < addr
                    + size))
            &&& post.live() == pre.live() - set_int_range(addr as int, addr + size)
        },
    }
}

/// Free-list reuse: allocating a layout, freeing the block, and
/// allocating the same layout again returns the same address, for any
/// layout a size class covers.
pub proof fn lemma_free_list_reuse(
    s0: Allocator,
    s1: Allocator,
    s2: Allocator,
    addr: u64,
    size: u64,
    align: u64,
    c: int,
    r: Option<u64>,
)
    requires
        s0.wf(),
        spec_list_index(spec_required(size, align)) == Some(c),
        dealloc_post(s0, s1, addr, size, align),
        alloc_post(s1, s2, size, align, r),
    ensures
        r == Some(addr),
{
    assert(0 <= c < BLOCK_SIZES_COUNT);
    assert(s1.class_lists()[c] == s0.class_lists()[c].push(addr));
    assert(s1.class_lists()[c].last() == addr);
}

/// No two simultaneously live allocations overlap: a block returned
/// while an earlier allocation is still live shares no byte with it.
pub proof fn lemma_live_allocations_disjoint(
    pre: Allocator,
    post: Allocator,
    size: u64,
    align: u64,
    addr: u64,
    prior: int,
)
    requires
        pre.wf(),
        alloc_post(pre, post, size, align, Some(addr)),
        pre.live().contains(prior),
    ensures
        !(addr <= prior < addr + spec_alloc_span(size, align)),
{
    let req = spec_required(size, align);
    match spec_list_index(req) {
        Some(c) => {
            if pre.class_lists()[c].len() > 0 {
                let last = pre.class_lists()[c].len() - 1;
                if addr <= prior < addr + spec_block_size(c) {
                    assert(pre.class_lists()[c][last] <= prior < pre.class_lists()[c][last]
                        + spec_block_size(c));
                    assert(pre.in_class_lists(prior));
                }
            } else {
                if addr <= prior < addr + spec_alloc_span(size, align) {
                    assert(set_int_range(addr as int, addr + spec_block_size(c)).contains(prior));
                }
            }
        },
        None => {
            if addr <= prior < addr + spec_alloc_span(size, align) {
                assert(set_int_range(addr as int, addr + size).contains(prior));
            }
        },
    }
}

/// Two allocators with equal class lists cache the same bytes.
proof fn lemma_same_lists_same_cache(x: Allocator, y: Allocator)
    requires
        x.class_lists() == y.class_lists(),
    ensures
        forall|a: int| x.in_class_lists(a) == y.in_class_lists(a),
{
    assert forall|a: int| x.in_class_lists(a) == y.in_class_lists(a) by {
        if x.in_class_lists(a) {
            let (c, k) = choose|c: int, k: int|
                0 <= c < BLOCK_SIZES_COUNT && 0 <= k < x.class_lists()[c].len() && (
                #[trigger] x.class_lists()[c][k]) <= a < x.class_lists()[c][k] + spec_block_size(c);
            assert(y.class_lists()[c][k] == x.class_lists()[c][k]);
        }
        if y.in_class_lists(a) {
            let (c, k) = choose|c: int, k: int|
                0 <= c < BLOCK_SIZES_COUNT && 0 <= k < y.class_lists()[c].len() && (
                #[trigger] y.class_lists()[c][k]) <= a < y.class_lists()[c][k] + spec_block_size(c);
            assert(x.class_lists()[c][k] == y.class_lists()[c][k]);
        }
    }
}

/// A class block carved from the fallback allocator spans exactly the
/// request's allocation span.
proof fn lemma_span_from_class(size: u64, align: u64, c: int)
    requires
        spec_list_index(spec_required(size, align)) == Some(c),
    ensures
        spec_alloc_span(size, align) == spec_block_size(c),
        size <= spec_block_size(c),
        align <= spec_block_size(c),
{
}

/// Invariant maintenance for the class-list pop path of `alloc`.
proof fn lemma_alloc_pop(pre: Allocator, post: Allocator, size: u64, align: u64, c: int, addr: u64)
    requires
        pre.wf(),
        pre.initialized(),
        spec_list_index(spec_required(size, align)) == Some(c),
        0 <= c < BLOCK_SIZES_COUNT,
        pre.class_lists()[c].len() > 0,
        addr == pre.class_lists()[c].last(),
        post.class_lists() == pre.class_lists().update(c, pre.class_lists()[c].drop_last()),
        post.fallback() == pre.fallback(),
        post.live() == pre.live() + set_int_range(addr as int, addr + spec_block_size(c)),
    ensures
        post.wf(),
        post.initialized(),
        alloc_post(pre, post, size, align, Some(addr)),
        size <= spec_alloc_span(size, align),
        addr as int % spec_block_size(c) == 0,
        set_int_range(addr as int, addr + spec_alloc_span(size, align)).disjoint(pre.live()),
        pre.heap_start() <= addr,
        addr + spec_alloc_span(size, align) <= pre.heap_start() + pre.heap_size(),
{
    let bs = spec_block_size(c);
    let last = pre.class_lists()[c].len() - 1;
    assert(pre.class_lists()[c][last] == addr);
    // every index of the new lists maps to the same index of the old
    assert(forall|c2: int, k2: int|
        0 <= c2 < BLOCK_SIZES_COUNT && 0 <= k2 < post.class_lists()[c2].len() ==> (
        #[trigger] post.class_lists()[c2][k2]) == pre.class_lists()[c2][k2]);
    assert forall|a: int| #[trigger] post.in_class_lists(a) implies pre.in_class_lists(a) by {
        let (c2, k2) = choose|c2: int, k2: int|
            0 <= c2 < BLOCK_SIZES_COUNT && 0 <= k2 < post.class_lists()[c2].len() && (
            #[trigger] post.class_lists()[c2][k2]) <= a < post.class_lists()[c2][k2]
                + spec_block_size(c2);
        assert(pre.class_lists()[c2][k2] <= a < pre.class_lists()[c2][k2] + spec_block_size(c2));
    }
    assert forall|a: int| addr <= a < addr + bs implies pre.in_class_lists(a) by {
        assert(pre.class_lists()[c][last] <= a < pre.class_lists()[c][last] + spec_block_size(c));
    }
    assert forall|a: int| addr <= a < addr + bs implies !post.in_class_lists(a) by {
        if post.in_class_lists(a) {
            let (c2, k2) = choose|c2: int, k2: int|
                0 <= c2 < BLOCK_SIZES_COUNT && 0 <= k2 < post.class_lists()[c2].len() && (
                #[trigger] post.class_lists()[c2][k2]) <= a < post.class_lists()[c2][k2]
                    + spec_block_size(c2);
            assert(pre.class_lists()[c2][k2] == post.class_lists()[c2][k2]);
            assert(!(c2 == c && k2 == last));
            assert(pre.class_lists()[c][last] + spec_block_size(c) <= pre.class_lists()[c2][k2]
                || pre.class_lists()[c2][k2] + spec_block_size(c2) <= pre.class_lists()[c][last]);
        }
    }
    assert forall|a: int| #[trigger]
        post.live().contains(a) implies {
        &&& !post.fallback().is_free(a)
        &&& !post.in_class_lists(a)
        &&& post.heap_start() <= a < post.heap_start() + post.heap_size()
    } by {
        if pre.live().contains(a) {
            assert(!pre.in_class_lists(a));
            if post.in_class_lists(a) {
                assert(pre.in_class_lists(a));
            }
        } else {
            assert(addr <= a < addr + bs);
            assert(pre.in_class_lists(a));
        }
    }
    assert(set_int_range(addr as int, addr + bs).disjoint(pre.live())) by {
        assert forall|a: int| set_int_range(addr as int, addr + bs).contains(a) implies !pre.live()
            .contains(a) by {
            assert(pre.in_class_lists(a));
            if pre.live().contains(a) {
                assert(!pre.in_class_lists(a));
            }
        }
    }
    assert(spec_alloc_span(size, align) == bs);
}

/// Invariant maintenance for the class-list push path of `dealloc`.
proof fn lemma_dealloc_push(
    pre: Allocator,
    post: Allocator,
    size: u64,
    align: u64,
    c: int,
    addr: u64,
)
    requires
        pre.wf(),
        pre.initialized(),
        spec_list_index(spec_required(size, align)) == Some(c),
        0 <= c < BLOCK_SIZES_COUNT,
        addr as int % spec_block_size(c) == 0,
        forall|a: int| addr <= a < addr + spec_block_size(c) ==> pre.live().contains(a),
        post.class_lists() == pre.class_lists().update(c, pre.class_lists()[c].push(addr)),
        post.fallback() == pre.fallback(),
        post.live() == pre.live() - set_int_range(addr as int, addr + spec_block_size(c)),
    ensures
        post.wf(),
        post.initialized(),
        dealloc_post(pre, post, addr, size, align),
        post.live() == pre.live() - set_int_range(addr as int, addr + spec_alloc_span(size, align)),
{
    let bs = spec_block_size(c);
    let newk = pre.class_lists()[c].len() as int;
    assert(post.class_lists()[c][newk] == addr);
    assert(forall|c2: int, k2: int|
        0 <= c2 < BLOCK_SIZES_COUNT && 0 <= k2 < post.class_lists()[c2].len() && !(c2 == c && k2
            == newk) ==> (#[trigger] post.class_lists()[c2][k2]) == pre.class_lists()[c2][k2]
            && k2 < pre.class_lists()[c2].len());
    // the freed block lies inside the heap because it was live
    assert(pre.live().contains(addr as int));
    assert(pre.live().contains(addr + bs - 1));
    assert(addr + bs <= pre.heap_start() + pre.heap_size());
    // the freed block does not touch any cached block
    assert forall|c2: int, k2: int|
        0 <= c2 < BLOCK_SIZES_COUNT && 0 <= k2 < pre.class_lists()[c2].len() implies (
    #[trigger] pre.class_lists()[c2][k2]) + spec_block_size(c2) <= addr || addr + bs
        <= pre.class_lists()[c2][k2] by {
        let e = pre.class_lists()[c2][k2];
        let es = spec_block_size(c2);
        if !(e + es <= addr || addr + bs <= e) {
            let x = if e >= addr {
                e as int
            } else {
                addr as int
            };
            assert(e <= x < e + es && addr <= x < addr + bs);
            assert(pre.in_class_lists(x));
            assert(pre.live().contains(x));
        }
    }
    assert(post.entries_ok()) by {
        assert forall|c2: int, k2: int|
            0 <= c2 < BLOCK_SIZES_COUNT && 0 <= k2 < post.class_lists()[c2].len() implies {
            &&& (#[trigger] post.class_lists()[c2][k2]) as int % spec_block_size(c2) == 0
            &&& post.heap_start() <= post.class_lists()[c2][k2]
            &&& post.class_lists()[c2][k2] + spec_block_size(c2) <= post.heap_start()
                + post.heap_size()
        } by {
            if !(c2 == c && k2 == newk) {
                assert(post.class_lists()[c2][k2] == pre.class_lists()[c2][k2]);
            }
        }
    }
    assert(post.entries_disjoint()) by {
        assert forall|c1: int, k1: int, c2: int, k2: int|
            0 <= c1 < BLOCK_SIZES_COUNT && 0 <= k1 < post.class_lists()[c1].len() && 0 <= c2
                < BLOCK_SIZES_COUNT && 0 <= k2 < post.class_lists()[c2].len() && !(c1 == c2 && k1
                == k2) implies ((#[trigger] post.class_lists()[c1][k1]) + spec_block_size(c1)
            <= post.class_lists()[c2][k2] || (#[trigger] post.class_lists()[c2][k2])
            + spec_block_size(c2) <= post.class_lists()[c1][k1]) by {
            if c1 == c && k1 == newk {
                assert(post.class_lists()[c2][k2] == pre.class_lists()[c2][k2]);
            } else if c2 == c && k2 == newk {
                assert(post.class_lists()[c1][k1] == pre.class_lists()[c1][k1]);
            } else {
                assert(post.class_lists()[c1][k1] == pre.class_lists()[c1][k1]);
                assert(post.class_lists()[c2][k2] == pre.class_lists()[c2][k2]);
            }
        }
    }
    assert forall|a: int| #[trigger] post.in_class_lists(a) implies !post.fallback().is_free(
        a,
    ) by {
        let (c2, k2) = choose|c2: int, k2: int|
            0 <= c2 < BLOCK_SIZES_COUNT && 0 <= k2 < post.class_lists()[c2].len() && (
            #[trigger] post.class_lists()[c2][k2]) <= a < post.class_lists()[c2][k2]
                + spec_block_size(c2);
        if c2 == c && k2 == newk {
            assert(addr <= a < addr + bs);
            assert(pre.live().contains(a));
        } else {
            assert(pre.class_lists()[c2][k2] <= a < pre.class_lists()[c2][k2] + spec_block_size(
                c2,
            ));
            assert(pre.in_class_lists(a));
        }
    }
    assert forall|a: int| #[trigger]
        post.live().contains(a) implies {
        &&& !post.fallback().is_free(a)
        &&& !post.in_class_lists(a)
        &&& post.heap_start() <= a < post.heap_start() + post.heap_size()
    } by {
        assert(pre.live().contains(a));
        assert(!(addr <= a < addr + bs));
        if post.in_class_lists(a) {
            let (c2, k2) = choose|c2: int, k2: int|
                0 <= c2 < BLOCK_SIZES_COUNT && 0 <= k2 < post.class_lists()[c2].len() && (
                #[trigger] post.class_lists()[c2][k2]) <= a < post.class_lists()[c2][k2]
                    + spec_block_size(c2);
            if c2 == c && k2 == newk {
            } else {
                assert(pre.class_lists()[c2][k2] <= a < pre.class_lists()[c2][k2]
                    + spec_block_size(c2));
                assert(pre.in_class_lists(a));
            }
        }
    }
    assert(spec_alloc_span(size, align) == bs);
}

} // verus!
