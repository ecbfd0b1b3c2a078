//! Physical memory regions and the boot-time frame allocator.
//!
//! The firmware reports physical memory as an ordered list of regions.
//! The frame allocator flattens the usable regions into one ascending
//! stream of page-aligned frame addresses and hands the stream out one
//! frame per call; frames are never returned, so a frame, once issued,
//! is owned by its consumer for the rest of the kernel's life.

use vstd::prelude::*;

verus! {

/// Size in bytes of one physical frame and of one virtual page.
pub const PAGE_SIZE: u64 = 4096;

/// Exclusive upper bound on physical addresses (52 bits on x86-64).
pub const MAX_PHYSICAL_ADDRESS: u64 = 0x10_0000_0000_0000;

/// Classification of a firmware-reported memory region.
///
/// Only `Usable` regions feed the frame allocator; everything the
/// firmware marks otherwise is treated as off limits.
#[derive(Clone, Copy, Debug, PartialEq, Eq, Structural)]
pub enum MemoryRegionKind {
    Usable,
    Reserved,
}

/// One firmware-reported region: the half-open byte range
/// `[start, end)` and its classification. Read-only input.
#[derive(Clone, Copy, Debug, PartialEq, Eq, Structural)]
pub struct MemoryRegion {
    pub start: u64,
    pub end: u64,
    pub kind: MemoryRegionKind,
}

/// A single region is well-formed: non-negative extent, and a usable
/// region is page-aligned and lies below the physical address limit.
pub open spec fn wf_region(r: MemoryRegion) -> bool {
    &&& r.start <= r.end
    &&& r.kind is Usable ==> {
        &&& r.start % PAGE_SIZE == 0
        &&& r.end % PAGE_SIZE == 0
        &&& r.end <= MAX_PHYSICAL_ADDRESS
    }
}

/// The firmware's region list is well-formed: every region is, and the
/// regions come in ascending, pairwise disjoint address order.
pub open spec fn wf_regions(s: Seq<MemoryRegion>) -> bool {
    &&& forall|i: int| 0 <= i < s.len() ==> wf_region(#[trigger] s[i])
    &&& forall|i: int, j: int| 0 <= i < j < s.len() ==> s[i].end <= s[j].start
}

/// How many frames a region contributes to the usable stream.
pub open spec fn region_frame_count(r: MemoryRegion) -> int {
    if r.kind is Usable && r.start <= r.end {
        (r.end - r.start) / (PAGE_SIZE as int)
    } else {
        0
    }
}

/// The frame addresses a single region contributes, in ascending order.
pub open spec fn region_frames(r: MemoryRegion) -> Seq<u64> {
    Seq::new(region_frame_count(r) as nat, |k: int| (r.start + k * PAGE_SIZE) as u64)
}

/// The full usable-frame stream: the regions' frames, region by region.
pub open spec fn usable_frames(s: Seq<MemoryRegion>) -> Seq<u64>
    decreases s.len(),
{
    if s.len() == 0 {
        Seq::empty()
    } else {
        usable_frames(s.drop_last()) + region_frames(s.last())
    }
}

/// Upper bound of the usable stream so far: the end of the last usable
/// region, or zero where there is none.
pub open spec fn frames_high(s: Seq<MemoryRegion>) -> int
    decreases s.len(),
{
    if s.len() == 0 {
        0
    } else if s.last().kind is Usable {
        s.last().end as int
    } else {
        frames_high(s.drop_last())
    }
}

/// A prefix of a well-formed region list is well-formed.
pub proof fn lemma_wf_regions_take(s: Seq<MemoryRegion>, n: int)
    requires
        wf_regions(s),
        0 <= n <= s.len(),
    ensures
        wf_regions(s.take(n)),
{
    assert forall|i: int| 0 <= i < s.take(n).len() implies wf_region(#[trigger] s.take(n)[i]) by {
        assert(s.take(n)[i] == s[i]);
    }
    assert forall|i: int, j: int| 0 <= i < j < s.take(n).len() implies s.take(n)[i].end
        <= s.take(n)[j].start by {
        assert(s.take(n)[i] == s[i]);
        assert(s.take(n)[j] == s[j]);
    }
}

/// The usable stream is bounded by `frames_high`, which never exceeds
/// the physical address limit: frame arithmetic cannot overflow.
pub proof fn lemma_frames_measure(s: Seq<MemoryRegion>)
    requires
        wf_regions(s),
    ensures
        0 <= frames_high(s) <= MAX_PHYSICAL_ADDRESS,
        PAGE_SIZE * usable_frames(s).len() <= frames_high(s),
        s.len() > 0 ==> frames_high(s) <= s.last().end,
    decreases s.len(),
{
    if s.len() > 0 {
        let s0 = s.drop_last();
        let r = s.last();
        assert(wf_regions(s0)) by {
            assert(s0 =~= s.take(s.len() - 1));
            lemma_wf_regions_take(s, s.len() - 1);
        }
        lemma_frames_measure(s0);
        assert(frames_high(s0) <= r.start) by {
            if s0.len() > 0 {
                assert(s0.last() == s[s.len() - 2]);
                assert(s[s.len() - 2].end <= s[s.len() - 1].start);
            }
        }
        if r.kind is Usable {
            let p = PAGE_SIZE as int;
            let cnt = region_frame_count(r);
            assert(p * cnt == r.end - r.start) by {
                vstd::arithmetic::div_mod::lemma_sub_mod_noop(r.end as int, r.start as int, p);
                assert((r.end - r.start) % p == 0);
                vstd::arithmetic::div_mod::lemma_fundamental_div_mod(r.end - r.start, p);
            }
            assert(usable_frames(s).len() == usable_frames(s0).len() + cnt);
            assert(PAGE_SIZE * usable_frames(s).len() == PAGE_SIZE * usable_frames(s0).len() + p
                * cnt) by (nonlinear_arith)
                requires
                    usable_frames(s).len() == usable_frames(s0).len() + cnt,
                    p == PAGE_SIZE,
            {}
        }
    }
}

/// The usable-frame stream is strictly ascending, and stays one page
/// below `frames_high`.
pub proof fn lemma_usable_frames_sorted(s: Seq<MemoryRegion>)
    requires
        wf_regions(s),
    ensures
        forall|i: int, j: int|
            0 <= i < j < usable_frames(s).len() ==> usable_frames(s)[i] < usable_frames(s)[j],
        forall|i: int|
            0 <= i < usable_frames(s).len() ==> #[trigger] usable_frames(s)[i] + PAGE_SIZE
                <= frames_high(s),
    decreases s.len(),
{
    if s.len() > 0 {
        let s0 = s.drop_last();
        let r = s.last();
        let f0 = usable_frames(s0);
        let f = usable_frames(s);
        let rf = region_frames(r);
        let p = PAGE_SIZE as int;
        assert(wf_regions(s0)) by {
            assert(s0 =~= s.take(s.len() - 1));
            lemma_wf_regions_take(s, s.len() - 1);
        }
        lemma_usable_frames_sorted(s0);
        lemma_frames_measure(s0);
        assert(frames_high(s0) <= r.start) by {
            if s0.len() > 0 {
                assert(s0.last() == s[s.len() - 2]);
                assert(s[s.len() - 2].end <= s[s.len() - 1].start);
            }
        }
        let cnt = region_frame_count(r);
        if r.kind is Usable {
            assert(p * cnt <= r.end - r.start) by {
                vstd::arithmetic::div_mod::lemma_sub_mod_noop(r.end as int, r.start as int, p);
                vstd::arithmetic::div_mod::lemma_fundamental_div_mod(r.end - r.start, p);
            }
            assert(forall|k: int|
                0 <= k < cnt ==> r.start + #[trigger] (k * p) + p <= r.end) by (nonlinear_arith)
                requires
                    p * cnt <= r.end - r.start,
                    p == PAGE_SIZE,
            {}
            assert(forall|k: int, l: int|
                0 <= k < l < cnt ==> #[trigger] (k * p) < #[trigger] (l * p)) by (nonlinear_arith)
                requires
                    p == PAGE_SIZE,
            {}
            assert(forall|k: int| 0 <= k < cnt ==> rf[k] == r.start + #[trigger] (k * p));
        }
        assert forall|i: int, j: int| 0 <= i < j < f.len() implies f[i] < f[j] by {
            if j < f0.len() {
            } else if i >= f0.len() {
                let k = i - f0.len();
                let l = j - f0.len();
                assert(f[i] == rf[k] && f[j] == rf[l]);
            } else {
                let l = j - f0.len();
                assert(f[i] == f0[i] && f[j] == rf[l]);
                assert(f0[i] + PAGE_SIZE <= frames_high(s0));
            }
        }
        assert forall|i: int| 0 <= i < f.len() implies #[trigger] f[i] + PAGE_SIZE <= frames_high(
            s,
        ) by {
            if i < f0.len() {
                assert(f[i] == f0[i]);
                assert(f0[i] + PAGE_SIZE <= frames_high(s0));
                assert(frames_high(s0) <= frames_high(s)) by {
                    if r.kind is Usable {
                        assert(frames_high(s) == r.end);
                    }
                }
            } else {
                let k = i - f0.len();
                assert(f[i] == rf[k]);
            }
        }
    }
}

/// Frame uniqueness: any two positions of the usable stream hold
/// distinct frames, in strictly ascending order — so sequential
/// `allocate_frame` calls, which walk the cursor forward, never issue
/// the same frame twice.
pub proof fn lemma_frames_unique_ascending(fa: BootInfoFrameAllocator, i: int, j: int)
    requires
        fa.wf(),
        0 <= i < j < fa.frames().len(),
    ensures
        fa.frames()[i] < fa.frames()[j],
{
    lemma_usable_frames_sorted(fa.regions());
}

/// Splitting the region list splits the usable-frame stream.
pub proof fn lemma_usable_frames_split(s: Seq<MemoryRegion>, n: int)
    requires
        0 <= n <= s.len(),
    ensures
        usable_frames(s) == usable_frames(s.take(n)) + usable_frames(s.skip(n)),
    decreases s.len() - n,
{
    if n == s.len() {
        assert(s.take(n) =~= s);
        assert(usable_frames(s.skip(n)) =~= Seq::<u64>::empty());
        assert(usable_frames(s) =~= usable_frames(s.take(n)) + usable_frames(s.skip(n)));
    } else {
        lemma_usable_frames_split(s, n + 1);
        assert(s.take(n + 1).drop_last() =~= s.take(n));
        assert(s.take(n + 1).last() == s[n]);
        assert(usable_frames(s.take(n + 1)) == usable_frames(s.take(n)) + region_frames(s[n]));
        assert(s.skip(n)[0] == s[n]);
        assert(usable_frames(s.skip(n)) == region_frames(s[n]) + usable_frames(s.skip(n + 1))) by {
            lemma_usable_frames_head(s.skip(n));
            assert(s.skip(n).skip(1) =~= s.skip(n + 1));
        }
        assert(usable_frames(s) =~= usable_frames(s.take(n)) + usable_frames(s.skip(n)));
    }
}

/// Peeling the first region off the front of the stream.
proof fn lemma_usable_frames_head(s: Seq<MemoryRegion>)
    requires
        s.len() > 0,
    ensures
        usable_frames(s) == region_frames(s[0]) + usable_frames(s.skip(1)),
    decreases s.len(),
{
    if s.len() == 1 {
        assert(s.drop_last() =~= Seq::<MemoryRegion>::empty());
        assert(s.skip(1) =~= Seq::<MemoryRegion>::empty());
        assert(usable_frames(s) =~= region_frames(s[0]) + usable_frames(s.skip(1)));
    } else {
        let s0 = s.drop_last();
        lemma_usable_frames_head(s0);
        assert(s0[0] == s[0]);
        assert(s.skip(1).drop_last() =~= s0.skip(1));
        assert(s.skip(1).last() == s.last());
        assert(usable_frames(s.skip(1)) == usable_frames(s0.skip(1)) + region_frames(s.last()));
        assert(usable_frames(s) =~= region_frames(s[0]) + usable_frames(s.skip(1)));
    }
}

/// The boot-time physical-frame allocator.
///
/// It owns the firmware's region list and a cursor into the usable-frame
/// stream. The cursor only advances: there is no way to free a frame.
pub struct BootInfoFrameAllocator {
    memory_regions: Vec<MemoryRegion>,
    next: u64,
}

impl BootInfoFrameAllocator {
    /// The firmware regions this allocator draws from.
    pub closed spec fn regions(self) -> Seq<MemoryRegion> {
        self.memory_regions@
    }

    /// Position of the next frame to issue within the usable stream.
    pub closed spec fn cursor(self) -> int {
        self.next as int
    }

    /// The ascending stream of usable frame addresses.
    pub open spec fn frames(self) -> Seq<u64> {
        usable_frames(self.regions())
    }

    /// How many usable frames have not been issued yet.
    pub open spec fn remaining(self) -> int {
        self.frames().len() - self.cursor()
    }

    pub open spec fn wf(self) -> bool {
        &&& wf_regions(self.regions())
        &&& 0 <= self.cursor() <= self.frames().len()
    }

    /// Create a frame allocator from the firmware's region list.
    pub fn init(memory_regions: Vec<MemoryRegion>) -> (r: Self)
        requires
            wf_regions(memory_regions@),
        ensures
            r.wf(),
            r.regions() == memory_regions@,
            r.cursor() == 0,
    {
        BootInfoFrameAllocator { memory_regions, next: 0 }
    }

    /// Count the usable frames that have not been issued yet.
    pub fn remaining_frames(&self) -> (r: u64)
        requires
            self.wf(),
        ensures
            r == self.remaining(),
    {
        let ghost regions = self.memory_regions@;
        let mut i: usize = 0;
        let mut counted: u64 = 0;
        proof {
            assert(regions.take(0) =~= Seq::<MemoryRegion>::empty());
        }
        while i < self.memory_regions.len()
            invariant
                regions == self.memory_regions@,
                wf_regions(regions),
                0 <= i <= regions.len(),
                counted == usable_frames(regions.take(i as int)).len(),
            decreases regions.len() - i,
        {
            let r = self.memory_regions[i];
            proof {
                lemma_wf_regions_take(regions, i + 1);
                lemma_frames_measure(regions.take(i + 1));
                assert(regions.take(i + 1).drop_last() =~= regions.take(i as int));
                assert(regions.take(i + 1).last() == regions[i as int]);
            }
            if r.kind == MemoryRegionKind::Usable {
                let count = (r.end - r.start) / PAGE_SIZE;
                assert(count == region_frame_count(r));
                assert(PAGE_SIZE * (counted + count) <= MAX_PHYSICAL_ADDRESS);
                assert(counted + count <= MAX_PHYSICAL_ADDRESS / PAGE_SIZE) by (nonlinear_arith)
                    requires
                        PAGE_SIZE * (counted + count) <= MAX_PHYSICAL_ADDRESS,
                {}
                counted = counted + count;
            } else {
                proof {
                    assert(usable_frames(regions.take(i + 1)) =~= usable_frames(
                        regions.take(i as int),
                    ));
                }
            }
            i = i + 1;
        }
        proof {
            assert(regions.take(regions.len() as int) =~= regions);
        }
        counted - self.next
    }

    /// Issue the next usable frame, or `None` once the stream is
    /// exhausted. Exhaustion is permanent: every later call returns
    /// `None` as well.
    pub fn allocate_frame(&mut self) -> (r: Option<u64>)
        requires
            old(self).wf(),
        ensures
            final(self).wf(),
            final(self).regions() == old(self).regions(),
            old(self).remaining() > 0 ==> {
                &&& r == Some(old(self).frames()[old(self).cursor()])
                &&& final(self).cursor() == old(self).cursor() + 1
            },
            r matches Some(f) ==> f % PAGE_SIZE == 0 && f + PAGE_SIZE <= MAX_PHYSICAL_ADDRESS,
            old(self).remaining() <= 0 ==> r is None && *final(self) == *old(self),
    {
        let ghost regions = self.memory_regions@;
        let n = self.next;
        let mut i: usize = 0;
        let mut counted: u64 = 0;
        proof {
            assert(regions.take(0) =~= Seq::<MemoryRegion>::empty());
        }
        while i < self.memory_regions.len()
            invariant
                self == old(self),
                regions == self.memory_regions@,
                wf_regions(regions),
                n == self.next,
                self.wf(),
                0 <= i <= regions.len(),
                counted == usable_frames(regions.take(i as int)).len(),
                counted <= n,
            decreases regions.len() - i,
        {
            let r = self.memory_regions[i];
            proof {
                lemma_wf_regions_take(regions, i + 1);
                lemma_frames_measure(regions.take(i + 1));
                assert(regions.take(i + 1).drop_last() =~= regions.take(i as int));
                assert(regions.take(i + 1).last() == regions[i as int]);
            }
            if r.kind == MemoryRegionKind::Usable {
                let count = (r.end - r.start) / PAGE_SIZE;
                assert(count == region_frame_count(r));
                assert(PAGE_SIZE * (counted + count) <= MAX_PHYSICAL_ADDRESS);
                assert(counted + count <= MAX_PHYSICAL_ADDRESS / PAGE_SIZE) by (nonlinear_arith)
                    requires
                        PAGE_SIZE * (counted + count) <= MAX_PHYSICAL_ADDRESS,
                {}
                if n < counted + count {
                    let k = n - counted;
                    assert(k * PAGE_SIZE + PAGE_SIZE <= r.end - r.start) by (nonlinear_arith)
                        requires
                            0 <= k < count,
                            count == (r.end - r.start) / (PAGE_SIZE as int),
                            r.end % PAGE_SIZE == 0,
                            r.start % PAGE_SIZE == 0,
                            r.start <= r.end,
                        {
                        vstd::arithmetic::div_mod::lemma_fundamental_div_mod(
                            r.end - r.start,
                            PAGE_SIZE as int,
                        );
                    }
                    let frame = r.start + k * PAGE_SIZE;
                    proof {
                        assert(frame % PAGE_SIZE == 0) by (nonlinear_arith)
                            requires
                                r.start % PAGE_SIZE == 0,
                                frame == r.start + k * PAGE_SIZE,
                                0 <= k,
                        {}
                        lemma_usable_frames_split(regions, i + 1);
                        assert(usable_frames(regions.take(i + 1)) == usable_frames(
                            regions.take(i as int),
                        ) + region_frames(regions[i as int]));
                        assert(usable_frames(regions)[n as int] == region_frames(r)[k as int]);
                        assert(region_frames(r)[k as int] == frame);
                        assert(n < usable_frames(regions).len());
                    }
                    self.next = n + 1;
                    return Some(frame);
                }
                counted = counted + count;
            }
            proof {
                if regions[i as int].kind is Usable {
                } else {
                    assert(usable_frames(regions.take(i + 1)) =~= usable_frames(
                        regions.take(i as int),
                    ));
                }
            }
            i = i + 1;
        }
        proof {
            assert(regions.take(regions.len() as int) =~= regions);
            assert(counted == usable_frames(regions).len());
            assert(self.remaining() <= 0);
        }
        None
    }
}

} // verus!
