//! The address translator: a model of the active four-level page-table
//! hierarchy.
//!
//! The translator records which virtual pages are mapped to which
//! physical frames, and which intermediate page tables exist. One
//! level-1 table serves a 2 MiB block of virtual addresses, one level-2
//! table a 1 GiB block, one level-3 table a 512 GiB block; the level-4
//! root always exists. Installing a translation first creates any of
//! the three intermediate tables the page needs, drawing one physical
//! frame per missing table from the frame allocator.
//!
//! The privileged side of every operation — the actual page-table entry
//! write and the TLB flush — is carried out by the unverified hardware
//! glue, which mirrors exactly the decisions recorded here.

use crate::memory::BootInfoFrameAllocator;
use crate::memory::PAGE_SIZE;
use vstd::prelude::*;

verus! {

/// Exclusive upper bound on virtual page addresses (48 bits).
pub const MAX_VIRTUAL_ADDRESS: u64 = 0x1_0000_0000_0000;

/// Virtual address span served by one level-1 page table (2 MiB).
pub const L1_TABLE_SPAN: u64 = 0x20_0000;

/// Virtual address span served by one level-2 page table (1 GiB).
pub const L2_TABLE_SPAN: u64 = 0x4000_0000;

/// Virtual address span served by one level-3 page table (512 GiB).
pub const L3_TABLE_SPAN: u64 = 0x80_0000_0000;

/// Page-table entry flag: the translation is present.
pub const FLAG_PRESENT: u64 = 1;

/// Page-table entry flag: the page is writable.
pub const FLAG_WRITABLE: u64 = 2;

/// Page-table entry flag: write-through caching.
pub const FLAG_WRITE_THROUGH: u64 = 8;

/// Page-table entry flag: caching disabled.
pub const FLAG_NO_CACHE: u64 = 16;

/// Identifies the level-1 table responsible for a page.
pub open spec fn l1_key(page: u64) -> u64 {
    page / L1_TABLE_SPAN
}

/// Identifies the level-2 table responsible for a page.
pub open spec fn l2_key(page: u64) -> u64 {
    page / L2_TABLE_SPAN
}

/// Identifies the level-3 table responsible for a page.
pub open spec fn l3_key(page: u64) -> u64 {
    page / L3_TABLE_SPAN
}

/// The page containing an arbitrary virtual or physical address.
pub open spec fn spec_page_containing(addr: u64) -> int {
    addr - addr % PAGE_SIZE
}

/// Round an address down to the start of its page.
pub fn page_containing(addr: u64) -> (r: u64)
    ensures
        r == spec_page_containing(addr),
        r % PAGE_SIZE == 0,
        r <= addr < r + PAGE_SIZE,
{
    proof {
        let p = PAGE_SIZE as int;
        vstd::arithmetic::div_mod::lemma_fundamental_div_mod(addr as int, p);
        vstd::arithmetic::div_mod::lemma_mod_multiples_basic(addr as int / p, p);
    }
    addr - addr % PAGE_SIZE
}

/// One installed translation: a virtual page, the physical frame
/// backing it, and the page-table entry flags.
#[derive(Clone, Copy, Debug, PartialEq, Eq, Structural)]
pub struct Translation {
    pub page: u64,
    pub frame: u64,
    pub flags: u64,
}

/// Failure installing a translation.
#[derive(Clone, Copy, Debug, PartialEq, Eq, Structural)]
pub enum MapError {
    /// No physical frame was left for a missing intermediate table.
    /// Fatal at present: no reclamation exists, so nothing is retried.
    FrameAllocationFailed,
}

/// Failure removing a translation. A missing translation and a
/// huge-page mismatch are benign no-ops, not errors; this variant
/// stands for a corrupted hierarchy, which a well-formed translator
/// never produces.
#[derive(Clone, Copy, Debug, PartialEq, Eq, Structural)]
pub enum UnmapError {
    InvalidFrameAddress,
}

/// The single active address translator.
pub struct Translator {
    physical_memory_offset: u64,
    l3_tables: Vec<u64>,
    l2_tables: Vec<u64>,
    l1_tables: Vec<u64>,
    translation_entries: Vec<Translation>,
}

impl Translator {
    /// Boot-time offset between physical memory and its virtual alias.
    pub closed spec fn offset(self) -> u64 {
        self.physical_memory_offset
    }

    /// Every installed leaf translation.
    pub closed spec fn entries(self) -> Seq<Translation> {
        self.translation_entries@
    }

    /// Keys of the level-3 tables that exist.
    pub closed spec fn l3_keys(self) -> Seq<u64> {
        self.l3_tables@
    }

    /// Keys of the level-2 tables that exist.
    pub closed spec fn l2_keys(self) -> Seq<u64> {
        self.l2_tables@
    }

    /// Keys of the level-1 tables that exist.
    pub closed spec fn l1_keys(self) -> Seq<u64> {
        self.l1_tables@
    }

    pub open spec fn has_l3_table(self, page: u64) -> bool {
        self.l3_keys().contains(l3_key(page))
    }

    pub open spec fn has_l2_table(self, page: u64) -> bool {
        self.l2_keys().contains(l2_key(page))
    }

    pub open spec fn has_l1_table(self, page: u64) -> bool {
        self.l1_keys().contains(l1_key(page))
    }

    /// How many of the page's three intermediate tables are missing.
    pub open spec fn missing_tables(self, page: u64) -> int {
        (if self.has_l3_table(page) {
            0int
        } else {
            1int
        }) + (if self.has_l2_table(page) {
            0int
        } else {
            1int
        }) + (if self.has_l1_table(page) {
            0int
        } else {
            1int
        })
    }

    /// Whether the page has a live translation.
    pub open spec fn maps(self, page: u64) -> bool {
        exists|i: int| 0 <= i < self.entries().len() && self.entries()[i].page == page
    }

    /// The page's translation, if any. At most one translation is live
    /// per page at a time.
    pub open spec fn translation_of(self, page: u64) -> Option<Translation> {
        if self.maps(page) {
            Some(
                self.entries()[choose|i: int|
                    0 <= i < self.entries().len() && self.entries()[i].page == page],
            )
        } else {
            None
        }
    }

    pub open spec fn wf(self) -> bool {
        &&& forall|i: int, j: int|
            0 <= i < j < self.entries().len() ==> self.entries()[i].page
                != self.entries()[j].page
        &&& forall|i: int|
            0 <= i < self.entries().len() ==> {
                &&& (#[trigger] self.entries()[i]).page % PAGE_SIZE == 0
                &&& self.entries()[i].page < MAX_VIRTUAL_ADDRESS
                &&& self.entries()[i].frame % PAGE_SIZE == 0
                &&& self.l3_keys().contains(l3_key(self.entries()[i].page))
                &&& self.l2_keys().contains(l2_key(self.entries()[i].page))
                &&& self.l1_keys().contains(l1_key(self.entries()[i].page))
            }
    }

    /// Create the translator. The physical-to-virtual offset is
    /// established exactly once, here; no translation exists yet.
    pub fn new(physical_memory_offset: u64) -> (r: Self)
        ensures
            r.wf(),
            r.offset() == physical_memory_offset,
            r.entries() == Seq::<Translation>::empty(),
            r.l3_keys() == Seq::<u64>::empty(),
            r.l2_keys() == Seq::<u64>::empty(),
            r.l1_keys() == Seq::<u64>::empty(),
    {
        Translator {
            physical_memory_offset,
            l3_tables: Vec::new(),
            l2_tables: Vec::new(),
            l1_tables: Vec::new(),
            translation_entries: Vec::new(),
        }
    }

    /// Pure address arithmetic: the virtual alias of a physical
    /// address under the boot-time offset mapping.
    pub fn physical_to_virtual(&self, physical_address: u64) -> (r: u64)
        requires
            self.offset() + physical_address <= u64::MAX,
        ensures
            r == self.offset() + physical_address,
    {
        self.physical_memory_offset + physical_address
    }

    /// Look up the page's translation.
    pub fn translate(&self, page: u64) -> (r: Option<Translation>)
        requires
            self.wf(),
        ensures
            r == self.translation_of(page),
    {
        let n = self.translation_entries.len();
        let mut i: usize = 0;
        while i < n
            invariant
                self.wf(),
                n == self.entries().len(),
                0 <= i <= n,
                forall|k: int| 0 <= k < i ==> self.entries()[k].page != page,
            decreases n - i,
        {
            let e = self.translation_entries[i];
            if e.page == page {
                proof {
                    let w = choose|k: int|
                        0 <= k < self.entries().len() && self.entries()[k].page == page;
                    assert(self.entries()[i as int].page == page);
                    assert(w == i as int);
                }
                return Some(e);
            }
            i = i + 1;
        }
        proof {
            assert(!self.maps(page));
        }
        None
    }

    /// Install the translation `page -> frame` with the given flags.
    ///
    /// Any missing intermediate tables are created first, one frame
    /// from `frame_allocator` each. If the page is already mapped the
    /// call is treated as benign and returns success without touching
    /// the existing translation — a deliberate silent-skip policy that
    /// can mask accidental double mapping. If a missing table cannot
    /// get a frame, nothing is changed and the call fails; the caller
    /// treats that as fatal.
    pub fn map_page(
        &mut self,
        page: u64,
        frame: u64,
        flags: u64,
        frame_allocator: &mut BootInfoFrameAllocator,
    ) -> (r: Result<(), MapError>)
        requires
            old(self).wf(),
            old(frame_allocator).wf(),
            page % PAGE_SIZE == 0,
            page < MAX_VIRTUAL_ADDRESS,
            frame % PAGE_SIZE == 0,
        ensures
            final(self).wf(),
            final(frame_allocator).wf(),
            map_post(
                *old(self),
                *old(frame_allocator),
                *final(self),
                *final(frame_allocator),
                page,
                frame,
                flags,
                r,
            ),
    {
        if self.translate(page).is_some() {
            return Ok(());
        }
        let mut missing: u64 = 0;
        let need_l3 = !key_present(&self.l3_tables, page / L3_TABLE_SPAN);
        let need_l2 = !key_present(&self.l2_tables, page / L2_TABLE_SPAN);
        let need_l1 = !key_present(&self.l1_tables, page / L1_TABLE_SPAN);
        if need_l3 {
            missing = missing + 1;
        }
        if need_l2 {
            missing = missing + 1;
        }
        if need_l1 {
            missing = missing + 1;
        }
        assert(missing == self.missing_tables(page));
        if frame_allocator.remaining_frames() < missing {
            return Err(MapError::FrameAllocationFailed);
        }
        if need_l3 {
            let f = frame_allocator.allocate_frame();
            assert(f is Some);
            self.l3_tables.push(page / L3_TABLE_SPAN);
        }
        if need_l2 {
            let f = frame_allocator.allocate_frame();
            assert(f is Some);
            self.l2_tables.push(page / L2_TABLE_SPAN);
        }
        if need_l1 {
            let f = frame_allocator.allocate_frame();
            assert(f is Some);
            self.l1_tables.push(page / L1_TABLE_SPAN);
        }
        self.translation_entries.push(Translation { page, frame, flags });
        proof {
            let post = *self;
            assert(post.entries() == old(self).entries().push(Translation { page, frame, flags }));
            assert forall|q: u64|
                post.has_l3_table(q) <==> (old(self).has_l3_table(q) || l3_key(q) == l3_key(
                    page,
                )) by {
                if need_l3 {
                    lemma_push_contains(old(self).l3_keys(), l3_key(page), l3_key(q));
                } else {
                    assert(old(self).has_l3_table(page));
                }
            }
            assert forall|q: u64|
                post.has_l2_table(q) <==> (old(self).has_l2_table(q) || l2_key(q) == l2_key(
                    page,
                )) by {
                if need_l2 {
                    lemma_push_contains(old(self).l2_keys(), l2_key(page), l2_key(q));
                } else {
                    assert(old(self).has_l2_table(page));
                }
            }
            assert forall|q: u64|
                post.has_l1_table(q) <==> (old(self).has_l1_table(q) || l1_key(q) == l1_key(
                    page,
                )) by {
                if need_l1 {
                    lemma_push_contains(old(self).l1_keys(), l1_key(page), l1_key(q));
                } else {
                    assert(old(self).has_l1_table(page));
                }
            }
            assert(post.wf()) by {
                let es = post.entries();
                assert forall|i: int| 0 <= i < es.len() implies {
                    &&& (#[trigger] es[i]).page % PAGE_SIZE == 0
                    &&& es[i].page < MAX_VIRTUAL_ADDRESS
                    &&& es[i].frame % PAGE_SIZE == 0
                    &&& post.l3_keys().contains(l3_key(es[i].page))
                    &&& post.l2_keys().contains(l2_key(es[i].page))
                    &&& post.l1_keys().contains(l1_key(es[i].page))
                } by {
                    if i < es.len() - 1 {
                        assert(es[i] == old(self).entries()[i]);
                        assert(post.has_l3_table(es[i].page));
                        assert(post.has_l2_table(es[i].page));
                        assert(post.has_l1_table(es[i].page));
                    } else {
                        assert(es[i] == Translation { page, frame, flags });
                        assert(post.has_l3_table(page));
                        assert(post.has_l2_table(page));
                        assert(post.has_l1_table(page));
                    }
                }
            }
        }
        Ok(())
    }

    /// Remove the page's translation.
    ///
    /// A page that was never mapped (or that the hardware backs with a
    /// larger huge page than expected) is a benign no-op: the call
    /// still succeeds. Intermediate tables are never freed.
    pub fn unmap_page(&mut self, page: u64) -> (r: Result<(), UnmapError>)
        requires
            old(self).wf(),
        ensures
            final(self).wf(),
            unmap_post(*old(self), *final(self), page, r),
    {
        let n = self.translation_entries.len();
        let mut i: usize = 0;
        while i < n
            invariant
                self == old(self),
                self.wf(),
                n == self.entries().len(),
                0 <= i <= n,
                forall|k: int| 0 <= k < i ==> self.entries()[k].page != page,
            decreases n - i,
        {
            if self.translation_entries[i].page == page {
                let ghost pre = *self;
                self.translation_entries.remove(i);
                proof {
                    lemma_remove_translation(pre, *self, i as int, page);
                }
                return Ok(());
            }
            i = i + 1;
        }
        proof {
            assert(!old(self).maps(page));
        }
        Ok(())
    }
}

/// What a completed `map_page` call guarantees, relating the old and
/// new translator and frame-allocator states.
pub open spec fn map_post(
    t0: Translator,
    fa0: BootInfoFrameAllocator,
    t1: Translator,
    fa1: BootInfoFrameAllocator,
    page: u64,
    frame: u64,
    flags: u64,
    r: Result<(), MapError>,
) -> bool {
    if t0.maps(page) {
        // benign collision: success, and nothing at all changes
        &&& r is Ok
        &&& t1 == t0
        &&& fa1 == fa0
    } else if t0.missing_tables(page) <= fa0.remaining() {
        // the translation is installed and the missing tables exist now
        &&& r is Ok
        &&& t1.entries() == t0.entries().push(Translation { page, frame, flags })
        &&& forall|q: u64|
            t1.has_l3_table(q) <==> (t0.has_l3_table(q) || l3_key(q) == l3_key(page))
        &&& forall|q: u64|
            t1.has_l2_table(q) <==> (t0.has_l2_table(q) || l2_key(q) == l2_key(page))
        &&& forall|q: u64|
            t1.has_l1_table(q) <==> (t0.has_l1_table(q) || l1_key(q) == l1_key(page))
        &&& fa1.regions() == fa0.regions()
        &&& fa1.cursor() == fa0.cursor() + t0.missing_tables(page)
        &&& t1.offset() == t0.offset()
    } else {
        // not enough frames for the missing tables: fail atomically
        &&& r == Err::<(), MapError>(MapError::FrameAllocationFailed)
        &&& t1 == t0
        &&& fa1 == fa0
    }
}

/// What a completed `unmap_page` call guarantees: the page is no
/// longer mapped, every other translation is untouched, the tables and
/// the offset stay, and the call always succeeds.
pub open spec fn unmap_post(
    t0: Translator,
    t1: Translator,
    page: u64,
    r: Result<(), UnmapError>,
) -> bool {
    &&& r is Ok
    &&& !t1.maps(page)
    &&& forall|q: u64| q != page ==> t1.translation_of(q) == t0.translation_of(q)
    &&& t1.entries().len() == t0.entries().len() - (if t0.maps(page) {
        1int
    } else {
        0int
    })
    &&& t1.l3_keys() == t0.l3_keys()
    &&& t1.l2_keys() == t0.l2_keys()
    &&& t1.l1_keys() == t0.l1_keys()
    &&& t1.offset() == t0.offset()
}

/// Mapping an already-mapped page is idempotent: the second call
/// succeeds whatever frame it names, and the translation installed by
/// the first call — target frame and flags — survives unchanged.
pub proof fn lemma_map_idempotent(
    t0: Translator,
    fa0: BootInfoFrameAllocator,
    t1: Translator,
    fa1: BootInfoFrameAllocator,
    t2: Translator,
    fa2: BootInfoFrameAllocator,
    page: u64,
    frame1: u64,
    flags1: u64,
    frame2: u64,
    flags2: u64,
    r1: Result<(), MapError>,
    r2: Result<(), MapError>,
)
    requires
        t0.wf(),
        t1.wf(),
        map_post(t0, fa0, t1, fa1, page, frame1, flags1, r1),
        r1 is Ok,
        map_post(t1, fa1, t2, fa2, page, frame2, flags2, r2),
    ensures
        r2 is Ok,
        t2 == t1,
        fa2 == fa1,
        !t0.maps(page) ==> t2.translation_of(page) == Some(
            Translation { page, frame: frame1, flags: flags1 },
        ),
        t0.maps(page) ==> t2.translation_of(page) == t0.translation_of(page),
{
    if t0.maps(page) {
        assert(t1 == t0);
    } else {
        let e = Translation { page, frame: frame1, flags: flags1 };
        assert(t1.entries() == t0.entries().push(e));
        assert(t1.entries()[t1.entries().len() - 1] == e);
        assert(t1.maps(page));
        let w = choose|i: int| 0 <= i < t1.entries().len() && t1.entries()[i].page == page;
        assert(w == t1.entries().len() - 1);
        assert(t1.translation_of(page) == Some(e));
    }
    assert(t1.maps(page));
}

/// Installing a fresh translation leaves every other page's
/// translation untouched.
pub proof fn lemma_push_translation(t0: Translator, t1: Translator, e: Translation)
    requires
        t0.wf(),
        t1.wf(),
        !t0.maps(e.page),
        t1.entries() == t0.entries().push(e),
    ensures
        t1.translation_of(e.page) == Some(e),
        t1.maps(e.page),
        forall|q: u64| q != e.page ==> t1.translation_of(q) == t0.translation_of(q),
        forall|q: u64| q != e.page ==> t1.maps(q) == t0.maps(q),
{
    let n = t0.entries().len() as int;
    assert(t1.entries()[n] == e);
    assert(t1.maps(e.page));
    let w = choose|i: int| 0 <= i < t1.entries().len() && t1.entries()[i].page == e.page;
    assert(w == n) by {
        if w < n {
            assert(t1.entries()[w] == t0.entries()[w]);
            assert(t0.maps(e.page));
        }
    }
    assert forall|q: u64| q != e.page implies t1.translation_of(q) == t0.translation_of(q)
        && t1.maps(q) == t0.maps(q) by {
        if t0.maps(q) {
            let w0 = choose|i: int| 0 <= i < t0.entries().len() && t0.entries()[i].page == q;
            assert(t1.entries()[w0] == t0.entries()[w0]);
            assert(t1.maps(q));
            let w1 = choose|i: int| 0 <= i < t1.entries().len() && t1.entries()[i].page == q;
            assert(w1 != n);
            assert(t1.entries()[w1] == t0.entries()[w1]);
            assert(w1 == w0);
        } else {
            if t1.maps(q) {
                let w1 = choose|i: int| 0 <= i < t1.entries().len() && t1.entries()[i].page == q;
                assert(w1 != n);
                assert(t0.entries()[w1].page == q);
            }
        }
    }
}

/// `push` grows a key list by exactly the pushed key.
proof fn lemma_push_contains(s: Seq<u64>, x: u64, q: u64)
    ensures
        s.push(x).contains(q) <==> (s.contains(q) || q == x),
{
    if s.contains(q) {
        let i = choose|i: int| 0 <= i < s.len() && s[i] == q;
        assert(s.push(x)[i] == q);
    }
    if q == x {
        assert(s.push(x)[s.len() as int] == q);
    }
    if s.push(x).contains(q) {
        let i = choose|i: int| 0 <= i < s.push(x).len() && s.push(x)[i] == q;
        if i < s.len() {
            assert(s[i] == q);
        }
    }
}

/// Removing the entry at the page's index removes exactly that page's
/// translation and keeps every other page's translation intact.
proof fn lemma_remove_translation(pre: Translator, post: Translator, idx: int, page: u64)
    requires
        pre.wf(),
        0 <= idx < pre.entries().len(),
        pre.entries()[idx].page == page,
        post.entries() == pre.entries().remove(idx),
        post.l3_keys() == pre.l3_keys(),
        post.l2_keys() == pre.l2_keys(),
        post.l1_keys() == pre.l1_keys(),
        post.offset() == pre.offset(),
    ensures
        post.wf(),
        unmap_post(pre, post, page, Ok::<(), UnmapError>(())),
{
    let es0 = pre.entries();
    let es1 = post.entries();
    assert(es1.len() == es0.len() - 1);
    assert(forall|k: int| 0 <= k < idx ==> es1[k] == es0[k]);
    assert(forall|k: int| idx <= k < es1.len() ==> es1[k] == es0[k + 1]);
    assert(post.wf()) by {
        assert forall|i: int, j: int| 0 <= i < j < es1.len() implies es1[i].page != es1[j].page by {
            let i0 = if i < idx {
                i
            } else {
                i + 1
            };
            let j0 = if j < idx {
                j
            } else {
                j + 1
            };
            assert(es1[i] == es0[i0] && es1[j] == es0[j0]);
        }
        assert forall|i: int| 0 <= i < es1.len() implies {
            &&& (#[trigger] es1[i]).page % PAGE_SIZE == 0
            &&& es1[i].page < MAX_VIRTUAL_ADDRESS
            &&& es1[i].frame % PAGE_SIZE == 0
            &&& post.l3_keys().contains(l3_key(es1[i].page))
            &&& post.l2_keys().contains(l2_key(es1[i].page))
            &&& post.l1_keys().contains(l1_key(es1[i].page))
        } by {
            let i0 = if i < idx {
                i
            } else {
                i + 1
            };
            assert(es1[i] == es0[i0]);
        }
    }
    assert(!post.maps(page)) by {
        if post.maps(page) {
            let w = choose|i: int| 0 <= i < es1.len() && es1[i].page == page;
            let w0 = if w < idx {
                w
            } else {
                w + 1
            };
            assert(es0[w0].page == page);
            assert(w0 != idx);
            assert(es0[w0].page != es0[idx].page);
        }
    }
    assert forall|q: u64| q != page implies post.translation_of(q) == pre.translation_of(q) by {
        if pre.maps(q) {
            let w0 = choose|i: int| 0 <= i < es0.len() && es0[i].page == q;
            assert(w0 != idx);
            let w1 = if w0 < idx {
                w0
            } else {
                w0 - 1
            };
            assert(es1[w1] == es0[w0]);
            assert(post.maps(q));
            let c1 = choose|i: int| 0 <= i < es1.len() && es1[i].page == q;
            assert(c1 == w1);
            let c0 = choose|i: int| 0 <= i < es0.len() && es0[i].page == q;
            assert(c0 == w0);
        } else {
            if post.maps(q) {
                let w = choose|i: int| 0 <= i < es1.len() && es1[i].page == q;
                let w0 = if w < idx {
                    w
                } else {
                    w + 1
                };
                assert(es0[w0].page == q);
                assert(pre.maps(q));
            }
        }
    }
}

/// Membership check over a key list.
fn key_present(keys: &Vec<u64>, key: u64) -> (r: bool)
    ensures
        r == keys@.contains(key),
{
    let n = keys.len();
    let mut i: usize = 0;
    while i < n
        invariant
            n == keys@.len(),
            0 <= i <= n,
            forall|k: int| 0 <= k < i ==> keys@[k] != key,
        decreases n - i,
    {
        if keys[i] == key {
            return true;
        }
        i = i + 1;
    }
    false
}

} // verus!
