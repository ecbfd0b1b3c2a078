//! The fallback allocator: first-fit over one virtual region.
//!
//! Free memory is tracked as a list of blocks kept in ascending address
//! order. Allocation scans the list and takes the first block that can
//! hold the request once its start is aligned up; the unused lead and
//! tail of the chosen block go back into the list. Freeing inserts the
//! block back in address order and coalesces it with its neighbours, so
//! two adjacent free blocks never persist.

use crate::allocator::align_up;
use crate::allocator::lemma_align_up_bounds;
use crate::allocator::spec_align_up;
use vstd::prelude::*;

verus! {

/// Exclusive upper bound on heap addresses managed here; keeps all
/// block arithmetic comfortably inside `u64`.
pub const MAX_HEAP_END: u64 = 0x8000_0000_0000_0000;

/// One free block: the byte range `[start, start + size)`.
#[derive(Clone, Copy, Debug, PartialEq, Eq, Structural)]
pub struct Block {
    pub start: u64,
    pub size: u64,
}

/// Whether byte `a` lies in block `b`.
pub open spec fn block_contains(b: Block, a: int) -> bool {
    b.start <= a < b.start + b.size
}

/// Whether byte `a` is free in the block list.
pub open spec fn blocks_free(blocks: Seq<Block>, a: int) -> bool {
    exists|i: int| 0 <= i < blocks.len() && block_contains(blocks[i], a)
}

/// Whether a request of `size` bytes at alignment `align` fits in `b`.
pub open spec fn block_fits(b: Block, size: u64, align: u64) -> bool {
    spec_align_up(b.start as int, align as int) + size <= b.start + b.size
}

/// The address a first-fit scan of `blocks` returns, if any: the
/// aligned start of the first block the request fits in.
pub open spec fn first_fit(blocks: Seq<Block>, size: u64, align: u64) -> Option<int>
    decreases blocks.len(),
{
    if blocks.len() == 0 {
        None
    } else if block_fits(blocks[0], size, align) {
        Some(spec_align_up(blocks[0].start as int, align as int))
    } else {
        first_fit(blocks.skip(1), size, align)
    }
}

/// A block list is well-formed for the heap `[heap_start, heap_start +
/// heap_size)`: every block is non-empty and inside the heap, and the
/// blocks ascend with a gap between neighbours (fully coalesced).
pub open spec fn wf_blocks(blocks: Seq<Block>, heap_start: u64, heap_size: u64) -> bool {
    &&& forall|i: int|
        0 <= i < blocks.len() ==> {
            &&& (#[trigger] blocks[i]).size >= 1
            &&& heap_start <= blocks[i].start
            &&& blocks[i].start + blocks[i].size <= heap_start + heap_size
        }
    &&& forall|i: int|
        0 <= i < blocks.len() - 1 ==> (#[trigger] blocks[i]).start + blocks[i].size < blocks[i
            + 1].start
}

/// Replace the index range `lo..hi` of a block list by `mid`.
pub open spec fn splice(blocks: Seq<Block>, lo: int, hi: int, mid: Seq<Block>) -> Seq<Block> {
    blocks.take(lo) + mid + blocks.skip(hi)
}

/// The fallback allocator over the heap region `[heap_start,
/// heap_start + heap_size)`.
pub struct Allocator {
    heap_start: u64,
    heap_size: u64,
    initialized: bool,
    free_blocks: Vec<Block>,
}

impl Allocator {
    pub closed spec fn heap_start(self) -> u64 {
        self.heap_start
    }

    pub closed spec fn heap_size(self) -> u64 {
        self.heap_size
    }

    pub closed spec fn initialized(self) -> bool {
        self.initialized
    }

    /// The free blocks, in ascending address order.
    pub closed spec fn blocks(self) -> Seq<Block> {
        self.free_blocks@
    }

    /// Whether byte `a` is currently free.
    pub open spec fn is_free(self, a: int) -> bool {
        blocks_free(self.blocks(), a)
    }

    pub open spec fn wf(self) -> bool {
        &&& self.heap_start() + self.heap_size() <= MAX_HEAP_END
        &&& wf_blocks(self.blocks(), self.heap_start(), self.heap_size())
        &&& !self.initialized() ==> self.blocks().len() == 0
    }

    /// Whether `init` has been called.
    pub fn is_initialized(&self) -> (r: bool)
        ensures
            r == self.initialized(),
    {
        self.initialized
    }

    /// Create an empty, uninitialized allocator.
    pub fn new() -> (r: Self)
        ensures
            r.wf(),
            !r.initialized(),
            r.blocks() == Seq::<Block>::empty(),
    {
        Allocator { heap_start: 0, heap_size: 0, initialized: false, free_blocks: Vec::new() }
    }

    /// Register the heap region as one initial free block. One-time.
    pub fn init(&mut self, heap_start: u64, heap_size: u64)
        requires
            !old(self).initialized(),
            old(self).wf(),
            1 <= heap_size,
            heap_start + heap_size <= MAX_HEAP_END,
        ensures
            final(self).wf(),
            final(self).initialized(),
            final(self).heap_start() == heap_start,
            final(self).heap_size() == heap_size,
            final(self).blocks() == seq![Block { start: heap_start, size: heap_size }],
            forall|a: int| final(self).is_free(a) <==> heap_start <= a < heap_start + heap_size,
    {
        self.heap_start = heap_start;
        self.heap_size = heap_size;
        self.initialized = true;
        self.free_blocks.push(Block { start: heap_start, size: heap_size });
        proof {
            let blocks = self.blocks();
            assert(blocks =~= seq![Block { start: heap_start, size: heap_size }]);
            assert forall|a: int| self.is_free(a) <==> heap_start <= a < heap_start + heap_size by {
                if heap_start <= a < heap_start + heap_size {
                    assert(block_contains(blocks[0], a));
                }
            }
        }
    }

    /// First-fit allocation: return the aligned start of the first
    /// free block that can hold `size` bytes at alignment `align`, and
    /// remove exactly those bytes from the free set; the lead and tail
    /// of the chosen block stay free. Fails — leaving the allocator
    /// untouched — exactly when the request fits in no free block.
    #[verifier::rlimit(100)]
    #[verifier::spinoff_prover]
    pub fn allocate_first_fit(&mut self, size: u64, align: u64) -> (r: Result<u64, ()>)
        requires
            old(self).wf(),
            old(self).initialized(),
            1 <= size,
            1 <= align <= MAX_HEAP_END,
        ensures
            final(self).wf(),
            final(self).initialized(),
            final(self).heap_start() == old(self).heap_start(),
            final(self).heap_size() == old(self).heap_size(),
            match r {
                Ok(addr) => {
                    &&& first_fit(old(self).blocks(), size, align) == Some(addr as int)
                    &&& addr % align == 0
                    &&& old(self).heap_start() <= addr
                    &&& addr + size <= old(self).heap_start() + old(self).heap_size()
                    &&& forall|a: int| addr <= a < addr + size ==> old(self).is_free(a)
                    &&& forall|a: int|
                        final(self).is_free(a) <==> (old(self).is_free(a) && !(addr <= a < addr
                            + size))
                },
                Err(_) => {
                    &&& first_fit(old(self).blocks(), size, align) is None
                    &&& *final(self) == *old(self)
                },
            },
    {
        let ghost blocks0 = self.blocks();
        let n = self.free_blocks.len();
        let mut i: usize = 0;
        proof {
            assert(blocks0.skip(0) =~= blocks0);
        }
        while i < n
            invariant
                self == old(self),
                self.wf(),
                self.initialized(),
                blocks0 == self.blocks(),
                n == blocks0.len(),
                0 <= i <= n,
                1 <= size,
                1 <= align <= MAX_HEAP_END,
                first_fit(blocks0, size, align) == first_fit(blocks0.skip(i as int), size, align),
            decreases n - i,
        {
            let b = self.free_blocks[i];
            proof {
                assert(blocks0.skip(i as int)[0] == blocks0[i as int]);
            }
            let aligned = align_up(b.start, align);
            proof {
                lemma_align_up_bounds(b.start as int, align as int);
            }
            let block_end = b.start + b.size;
            if aligned <= block_end && size <= block_end - aligned {
                let alloc_end = aligned + size;
                proof {
                    assert(block_fits(b, size, align));
                    assert(first_fit(blocks0.skip(i as int), size, align) == Some(aligned as int));
                }
                let ghost lead = Block { start: b.start, size: (aligned - b.start) as u64 };
                let ghost tail = Block {
                    start: alloc_end,
                    size: (block_end - alloc_end) as u64,
                };
                let ghost mid = if b.start < aligned && alloc_end < block_end {
                    seq![lead, tail]
                } else if b.start < aligned {
                    seq![lead]
                } else if alloc_end < block_end {
                    seq![tail]
                } else {
                    Seq::<Block>::empty()
                };
                self.free_blocks.remove(i);
                let ghost blocks1 = self.blocks();
                proof {
                    lemma_blocks_global_order(blocks0);
                    lemma_free_remove(blocks0, i as int, b);
                }
                let mut at = i;
                if b.start < aligned {
                    self.free_blocks.insert(at, Block { start: b.start, size: aligned - b.start });
                    at = at + 1;
                }
                let ghost blocks2 = self.blocks();
                proof {
                    if b.start < aligned {
                        lemma_free_insert(blocks1, i as int, lead);
                    }
                }
                if alloc_end < block_end {
                    self.free_blocks.insert(
                        at,
                        Block { start: alloc_end, size: block_end - alloc_end },
                    );
                }
                proof {
                    if alloc_end < block_end {
                        lemma_free_insert(blocks2, at as int, tail);
                    }
                    assert forall|a: int|
                        self.is_free(a) <==> (blocks_free(blocks0, a) && !(aligned <= a
                            < alloc_end)) by {
                        assert(block_contains(b, a) <==> (block_contains(lead, a) || (aligned <= a
                            < alloc_end) || block_contains(tail, a)));
                        if block_contains(b, a) {
                            assert(block_contains(blocks0[i as int], a));
                            assert(blocks_free(blocks0, a));
                        }
                    }
                    assert forall|a: int| aligned <= a < alloc_end implies blocks_free(
                        blocks0,
                        a,
                    ) by {
                        assert(block_contains(blocks0[i as int], a));
                    }
                    // the new list is the old one with block i replaced by mid
                    assert(self.blocks() =~= splice(blocks0, i as int, i + 1, mid));
                    lemma_splice_wf(
                        blocks0,
                        i as int,
                        i + 1,
                        mid,
                        self.heap_start,
                        self.heap_size,
                    );
                }
                return Ok(aligned);
            }
            proof {
                assert(!block_fits(blocks0[i as int], size, align));
                assert(blocks0.skip(i as int).skip(1) =~= blocks0.skip(i + 1));
            }
            i = i + 1;
        }
        proof {
            assert(blocks0.skip(n as int) =~= Seq::<Block>::empty());
        }
        Err(())
    }

    /// Return the byte range `[addr, addr + size)` to the free set,
    /// inserting it in address order and coalescing it with an
    /// immediately adjacent free block on either side. The range must
    /// lie inside the heap, not currently free — the caller frees with
    /// the same extent it allocated.
    #[verifier::rlimit(100)]
    #[verifier::spinoff_prover]
    pub fn deallocate(&mut self, addr: u64, size: u64)
        requires
            old(self).wf(),
            old(self).initialized(),
            1 <= size,
            old(self).heap_start() <= addr,
            addr + size <= old(self).heap_start() + old(self).heap_size(),
            forall|a: int| addr <= a < addr + size ==> !old(self).is_free(a),
        ensures
            final(self).wf(),
            final(self).initialized(),
            final(self).heap_start() == old(self).heap_start(),
            final(self).heap_size() == old(self).heap_size(),
            forall|a: int|
                final(self).is_free(a) <==> (old(self).is_free(a) || (addr <= a < addr + size)),
    {
        let ghost blocks0 = self.blocks();
        let n = self.free_blocks.len();
        // find the first block that starts at or after the freed range
        let mut i: usize = 0;
        while i < n
            invariant
                self == old(self),
                self.wf(),
                blocks0 == self.blocks(),
                n == blocks0.len(),
                0 <= i <= n,
                forall|k: int| 0 <= k < i ==> (#[trigger] blocks0[k]).start < addr,
            ensures
                0 <= i <= n,
                forall|k: int| 0 <= k < i ==> (#[trigger] blocks0[k]).start < addr,
                i < n ==> blocks0[i as int].start >= addr,
                self == old(self),
            decreases n - i,
        {
            if self.free_blocks[i].start >= addr {
                break ;
            }
            i = i + 1;
        }
        proof {
            lemma_blocks_global_order(blocks0);
            // the predecessor ends at or before the freed range ...
            assert(i > 0 ==> blocks0[i - 1].start + blocks0[i - 1].size <= addr) by {
                if i > 0 && blocks0[i - 1].start + blocks0[i - 1].size > addr {
                    let p = blocks0[i - 1];
                    assert(block_contains(p, addr as int));
                    assert(old(self).is_free(addr as int));
                    assert(false);
                }
            }
            // ... and the successor starts at or after its end
            assert(i < n ==> addr + size <= blocks0[i as int].start) by {
                if i < n && blocks0[i as int].start < addr + size {
                    let q = blocks0[i as int];
                    assert(block_contains(q, q.start as int));
                    assert(old(self).is_free(q.start as int));
                    assert(false);
                }
            }
        }
        let merge_prev = i > 0 && {
            let p = self.free_blocks[i - 1];
            p.start + p.size == addr
        };
        let merge_next = i < n && addr + size == self.free_blocks[i].start;
        if merge_prev && merge_next {
            let p = self.free_blocks[i - 1];
            let q = self.free_blocks[i];
            let merged = Block { start: p.start, size: p.size + size + q.size };
            self.free_blocks.remove(i);
            self.free_blocks.remove(i - 1);
            self.free_blocks.insert(i - 1, merged);
            proof {
                assert(self.blocks() =~= splice(blocks0, i - 1, i + 1, seq![merged]));
                assert forall|a: int|
                    block_contains(merged, a) <==> ((addr <= a < addr + size) || (exists|k: int|
                        i - 1 <= k < i + 1 && block_contains(blocks0[k], a))) by {
                    assert(block_contains(merged, a) <==> (block_contains(p, a) || (addr <= a < addr
                        + size) || block_contains(q, a)));
                    if block_contains(p, a) {
                        assert(block_contains(blocks0[i - 1], a));
                    }
                    if block_contains(q, a) {
                        assert(block_contains(blocks0[i as int], a));
                    }
                }
                lemma_dealloc_splice(
                    blocks0,
                    self.heap_start,
                    self.heap_size,
                    i - 1,
                    i + 1,
                    merged,
                    addr,
                    size,
                );
                assert forall|a: int|
                    self.is_free(a) <==> (old(self).is_free(a) || (addr <= a < addr + size)) by {
                    assert(blocks_free(splice(blocks0, i - 1, i + 1, seq![merged]), a) <==> (blocks_free(
                        blocks0,
                        a,
                    ) || (addr <= a < addr + size)));
                }
                            }
        } else if merge_prev {
            let p = self.free_blocks[i - 1];
            let merged = Block { start: p.start, size: p.size + size };
            self.free_blocks.remove(i - 1);
            self.free_blocks.insert(i - 1, merged);
            proof {
                assert(self.blocks() =~= splice(blocks0, i - 1, i as int, seq![merged]));
                assert forall|a: int|
                    block_contains(merged, a) <==> ((addr <= a < addr + size) || (exists|k: int|
                        i - 1 <= k < i && block_contains(blocks0[k], a))) by {
                    assert(block_contains(merged, a) <==> (block_contains(p, a) || (addr <= a < addr
                        + size)));
                    if block_contains(p, a) {
                        assert(block_contains(blocks0[i - 1], a));
                    }
                }
                lemma_dealloc_splice(
                    blocks0,
                    self.heap_start,
                    self.heap_size,
                    i - 1,
                    i as int,
                    merged,
                    addr,
                    size,
                );
                assert forall|a: int|
                    self.is_free(a) <==> (old(self).is_free(a) || (addr <= a < addr + size)) by {
                    assert(blocks_free(splice(blocks0, i - 1, i as int, seq![merged]), a) <==> (blocks_free(
                        blocks0,
                        a,
                    ) || (addr <= a < addr + size)));
                }
                            }
        } else if merge_next {
            let q = self.free_blocks[i];
            let merged = Block { start: addr, size: size + q.size };
            self.free_blocks.remove(i);
            self.free_blocks.insert(i, merged);
            proof {
                assert(self.blocks() =~= splice(blocks0, i as int, i + 1, seq![merged]));
                assert forall|a: int|
                    block_contains(merged, a) <==> ((addr <= a < addr + size) || (exists|k: int|
                        i <= k < i + 1 && block_contains(blocks0[k], a))) by {
                    assert(block_contains(merged, a) <==> ((addr <= a < addr + size)
                        || block_contains(q, a)));
                    if block_contains(q, a) {
                        assert(block_contains(blocks0[i as int], a));
                    }
                }
                lemma_dealloc_splice(
                    blocks0,
                    self.heap_start,
                    self.heap_size,
                    i as int,
                    i + 1,
                    merged,
                    addr,
                    size,
                );
                assert forall|a: int|
                    self.is_free(a) <==> (old(self).is_free(a) || (addr <= a < addr + size)) by {
                    assert(blocks_free(splice(blocks0, i as int, i + 1, seq![merged]), a) <==> (blocks_free(
                        blocks0,
                        a,
                    ) || (addr <= a < addr + size)));
                }
                            }
        } else {
            let freed = Block { start: addr, size };
            self.free_blocks.insert(i, freed);
            proof {
                assert(self.blocks() =~= splice(blocks0, i as int, i as int, seq![freed]));
                lemma_dealloc_splice(
                    blocks0,
                    self.heap_start,
                    self.heap_size,
                    i as int,
                    i as int,
                    freed,
                    addr,
                    size,
                );
                assert forall|a: int|
                    self.is_free(a) <==> (old(self).is_free(a) || (addr <= a < addr + size)) by {
                    assert(blocks_free(splice(blocks0, i as int, i as int, seq![freed]), a) <==> (blocks_free(
                        blocks0,
                        a,
                    ) || (addr <= a < addr + size)));
                }
                            }
        }
    }
}

/// Neighbour ordering extends to global, pairwise ordering.
pub proof fn lemma_blocks_global_order(blocks: Seq<Block>)
    requires
        forall|i: int|
            0 <= i < blocks.len() - 1 ==> (#[trigger] blocks[i]).start + blocks[i].size < blocks[i
                + 1].start,
    ensures
        forall|i: int, j: int|
            0 <= i < j < blocks.len() ==> (#[trigger] blocks[i]).start + blocks[i].size < (
            #[trigger] blocks[j]).start,
{
    assert forall|i: int, j: int| 0 <= i < j < blocks.len() implies (#[trigger] blocks[i]).start
        + blocks[i].size < (#[trigger] blocks[j]).start by {
        lemma_blocks_ordered_pair(blocks, i, j);
    }
}

proof fn lemma_blocks_ordered_pair(blocks: Seq<Block>, i: int, j: int)
    requires
        forall|k: int|
            0 <= k < blocks.len() - 1 ==> (#[trigger] blocks[k]).start + blocks[k].size < blocks[k
                + 1].start,
        0 <= i < j < blocks.len(),
    ensures
        blocks[i].start + blocks[i].size < blocks[j].start,
    decreases j - i,
{
    if i + 1 < j {
        lemma_blocks_ordered_pair(blocks, i + 1, j);
        assert(blocks[i].start + blocks[i].size < blocks[i + 1].start);
        assert(blocks[i + 1].start <= blocks[i + 1].start + blocks[i + 1].size);
    }
}

/// Removing block `i` removes exactly its bytes from the free set,
/// provided the blocks are pairwise disjoint.
proof fn lemma_free_remove(blocks: Seq<Block>, i: int, b: Block)
    requires
        0 <= i < blocks.len(),
        blocks[i] == b,
        forall|k: int, l: int|
            0 <= k < l < blocks.len() ==> (#[trigger] blocks[k]).start + blocks[k].size < (
            #[trigger] blocks[l]).start,
    ensures
        forall|a: int|
            blocks_free(blocks.remove(i), a) <==> (blocks_free(blocks, a) && !block_contains(b, a)),
{
    let t = blocks.remove(i);
    assert forall|a: int|
        blocks_free(t, a) <==> (blocks_free(blocks, a) && !block_contains(b, a)) by {
        if blocks_free(t, a) {
            let w = choose|k: int| 0 <= k < t.len() && block_contains(t[k], a);
            let w0 = if w < i {
                w
            } else {
                w + 1
            };
            assert(t[w] == blocks[w0]);
            assert(block_contains(blocks[w0], a));
            assert(!block_contains(b, a)) by {
                if w0 < i {
                    assert(blocks[w0].start + blocks[w0].size < blocks[i].start);
                } else {
                    assert(blocks[i].start + blocks[i].size < blocks[w0].start);
                }
            }
        }
        if blocks_free(blocks, a) && !block_contains(b, a) {
            let w = choose|k: int| 0 <= k < blocks.len() && block_contains(blocks[k], a);
            assert(w != i);
            let w1 = if w < i {
                w
            } else {
                w - 1
            };
            assert(t[w1] == blocks[w]);
        }
    }
}

/// Inserting a block adds exactly its bytes to the free set.
proof fn lemma_free_insert(blocks: Seq<Block>, i: int, b: Block)
    requires
        0 <= i <= blocks.len(),
    ensures
        forall|a: int|
            blocks_free(blocks.insert(i, b), a) <==> (blocks_free(blocks, a) || block_contains(
                b,
                a,
            )),
{
    let t = blocks.insert(i, b);
    assert forall|a: int|
        blocks_free(t, a) <==> (blocks_free(blocks, a) || block_contains(b, a)) by {
        if blocks_free(t, a) {
            let w = choose|k: int| 0 <= k < t.len() && block_contains(t[k], a);
            if w < i {
                assert(t[w] == blocks[w]);
            } else if w == i {
                assert(t[w] == b);
            } else {
                assert(t[w] == blocks[w - 1]);
            }
        }
        if blocks_free(blocks, a) {
            let w = choose|k: int| 0 <= k < blocks.len() && block_contains(blocks[k], a);
            if w < i {
                assert(t[w] == blocks[w]);
            } else {
                assert(t[w + 1] == blocks[w]);
            }
        }
        if block_contains(b, a) {
            assert(t[i] == b);
        }
    }
}

/// Splicing a well-formed middle into a well-formed list keeps the
/// list well-formed, given the usual gaps at both seams.
#[verifier::rlimit(100)]
#[verifier::spinoff_prover]
proof fn lemma_splice_wf(
    blocks: Seq<Block>,
    lo: int,
    hi: int,
    mid: Seq<Block>,
    heap_start: u64,
    heap_size: u64,
)
    requires
        wf_blocks(blocks, heap_start, heap_size),
        0 <= lo <= hi <= blocks.len(),
        forall|k: int|
            0 <= k < mid.len() ==> {
                &&& (#[trigger] mid[k]).size >= 1
                &&& heap_start <= mid[k].start
                &&& mid[k].start + mid[k].size <= heap_start + heap_size
            },
        forall|k: int|
            0 <= k < mid.len() - 1 ==> (#[trigger] mid[k]).start + mid[k].size < mid[k + 1].start,
        lo > 0 && mid.len() > 0 ==> blocks[lo - 1].start + blocks[lo - 1].size < mid[0].start,
        hi < blocks.len() && mid.len() > 0 ==> mid[mid.len() - 1].start + mid[mid.len() - 1].size
            < blocks[hi].start,
        lo > 0 && hi < blocks.len() && mid.len() == 0 ==> blocks[lo - 1].start + blocks[lo
            - 1].size < blocks[hi].start,
    ensures
        wf_blocks(splice(blocks, lo, hi, mid), heap_start, heap_size),
{
    let t = splice(blocks, lo, hi, mid);
    lemma_blocks_global_order(blocks);
    assert forall|k: int| 0 <= k < t.len() implies {
        &&& (#[trigger] t[k]).size >= 1
        &&& heap_start <= t[k].start
        &&& t[k].start + t[k].size <= heap_start + heap_size
    } by {
        if k < lo {
            assert(t[k] == blocks[k]);
        } else if k < lo + mid.len() {
            assert(t[k] == mid[k - lo]);
        } else {
            assert(t[k] == blocks[k - lo - mid.len() + hi]);
        }
    }
    assert forall|k: int| 0 <= k < t.len() - 1 implies (#[trigger] t[k]).start + t[k].size < t[k
        + 1].start by {
        let m = mid.len() as int;
        if k + 1 < lo {
            assert(t[k] == blocks[k] && t[k + 1] == blocks[k + 1]);
        } else if k + 1 == lo {
            assert(t[k] == blocks[k]);
            if m > 0 {
                assert(t[k + 1] == mid[0]);
            } else {
                assert(t[k + 1] == blocks[hi]);
                assert(blocks[lo - 1].start + blocks[lo - 1].size < blocks[hi].start);
            }
        } else if k + 1 < lo + m {
            assert(t[k] == mid[k - lo] && t[k + 1] == mid[k + 1 - lo]);
        } else if k + 1 == lo + m && m > 0 {
            assert(t[k] == mid[m - 1]);
            assert(t[k + 1] == blocks[hi]);
        } else {
            assert(t[k] == blocks[k - lo - m + hi] && t[k + 1] == blocks[k + 1 - lo - m + hi]);
        }
    }
}

/// One `deallocate` step: splicing the single coalesced block `nb` —
/// which covers the freed range plus the replaced neighbours — over
/// the index range `lo..hi` keeps the list well-formed and adds
/// exactly the freed bytes to the free set.
#[verifier::rlimit(100)]
#[verifier::spinoff_prover]
proof fn lemma_dealloc_splice(
    blocks: Seq<Block>,
    heap_start: u64,
    heap_size: u64,
    lo: int,
    hi: int,
    nb: Block,
    addr: u64,
    size: u64,
)
    requires
        wf_blocks(blocks, heap_start, heap_size),
        0 <= lo <= hi <= blocks.len(),
        1 <= nb.size,
        heap_start <= nb.start,
        nb.start + nb.size <= heap_start + heap_size,
        lo > 0 ==> blocks[lo - 1].start + blocks[lo - 1].size < nb.start,
        hi < blocks.len() ==> nb.start + nb.size < blocks[hi].start,
        forall|a: int|
            block_contains(nb, a) <==> ((addr <= a < addr + size) || (exists|k: int|
                lo <= k < hi && block_contains(#[trigger] blocks[k], a))),
    ensures
        wf_blocks(splice(blocks, lo, hi, seq![nb]), heap_start, heap_size),
        forall|a: int|
            blocks_free(splice(blocks, lo, hi, seq![nb]), a) <==> (blocks_free(blocks, a) || (addr
                <= a < addr + size)),
{
    lemma_splice_wf(blocks, lo, hi, seq![nb], heap_start, heap_size);
    let t = splice(blocks, lo, hi, seq![nb]);
    assert(t[lo] == nb);
    assert forall|a: int|
        blocks_free(t, a) <==> (blocks_free(blocks, a) || (addr <= a < addr + size)) by {
        if blocks_free(t, a) {
            let w = choose|k: int| 0 <= k < t.len() && block_contains(t[k], a);
            if w < lo {
                assert(t[w] == blocks[w]);
                assert(blocks_free(blocks, a));
            } else if w == lo {
                if !(addr <= a < addr + size) {
                    let k = choose|k: int| lo <= k < hi && block_contains(#[trigger] blocks[k], a);
                    assert(block_contains(blocks[k], a));
                    assert(blocks_free(blocks, a));
                }
            } else {
                assert(t[w] == blocks[w - 1 - lo + hi]);
                assert(blocks_free(blocks, a));
            }
        }
        if blocks_free(blocks, a) {
            let w = choose|k: int| 0 <= k < blocks.len() && block_contains(blocks[k], a);
            if w < lo {
                assert(t[w] == blocks[w]);
                assert(blocks_free(t, a));
            } else if w < hi {
                assert(block_contains(nb, a));
                assert(blocks_free(t, a));
            } else {
                assert(t[w - hi + lo + 1] == blocks[w]);
                assert(blocks_free(t, a));
            }
        }
        if addr <= a < addr + size {
            assert(block_contains(nb, a));
            assert(blocks_free(t, a));
        }
    }
}

} // verus!
