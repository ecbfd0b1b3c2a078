//! Mapping handler for reading firmware configuration tables.
//!
//! The table parser hands this handler a physical address range; the
//! handler makes it readable by mapping the page that contains its
//! virtual alias, and later unmaps that page again. A range that is
//! already mapped is fine — the translator treats the collision as
//! benign — but running out of physical memory while mapping is fatal
//! for the boot.

use crate::memory::BootInfoFrameAllocator;
use crate::paging::map_post;
use crate::paging::page_containing;
use crate::paging::spec_page_containing;
use crate::paging::unmap_post;
use crate::paging::MapError;
use crate::paging::Translator;
use crate::paging::FLAG_NO_CACHE;
use crate::paging::FLAG_PRESENT;
use crate::paging::FLAG_WRITABLE;
use crate::paging::FLAG_WRITE_THROUGH;
use crate::paging::MAX_VIRTUAL_ADDRESS;
use vstd::prelude::*;

verus! {

/// A physical range made readable through its virtual alias: where it
/// starts physically, where it is visible virtually, and how much of
/// it was requested and mapped.
#[derive(Clone, Copy, Debug, PartialEq, Eq, Structural)]
pub struct PhysicalRegionMapping {
    pub physical_start: u64,
    pub virtual_start: u64,
    pub region_length: u64,
    pub mapped_length: u64,
}

/// Failure mapping a table region: physical memory ran out, which
/// leaves no way to read the firmware tables — fatal at boot.
#[derive(Clone, Copy, Debug, PartialEq, Eq, Structural)]
pub enum AcpiMapError {
    OutOfMemory,
}

/// The mapping handler the table parser drives.
#[derive(Clone, Copy)]
pub struct Handler;

impl Handler {
    /// The page-table flags table regions are mapped with: present,
    /// writable, uncached, write-through.
    pub open spec fn region_flags() -> u64 {
        FLAG_PRESENT | FLAG_WRITABLE | FLAG_NO_CACHE | FLAG_WRITE_THROUGH
    }

    /// Map the page backing `physical_address` at its virtual alias
    /// and describe the mapped region. An existing translation for
    /// that page is left untouched and counts as success; a missing
    /// page-table frame is `OutOfMemory`.
    pub fn map_physical_region(
        &self,
        translator: &mut Translator,
        frame_allocator: &mut BootInfoFrameAllocator,
        physical_address: u64,
        size: u64,
    ) -> (r: Result<PhysicalRegionMapping, AcpiMapError>)
        requires
            old(translator).wf(),
            old(frame_allocator).wf(),
            old(translator).offset() + physical_address < MAX_VIRTUAL_ADDRESS,
        ensures
            final(translator).wf(),
            final(frame_allocator).wf(),
            ({
                let virt = (old(translator).offset() + physical_address) as u64;
                let page = spec_page_containing(virt) as u64;
                let frame = spec_page_containing(physical_address) as u64;
                match r {
                    Ok(m) => {
                        &&& map_post(
                            *old(translator),
                            *old(frame_allocator),
                            *final(translator),
                            *final(frame_allocator),
                            page,
                            frame,
                            Handler::region_flags(),
                            Ok(()),
                        )
                        &&& m == (PhysicalRegionMapping {
                            physical_start: physical_address,
                            virtual_start: virt,
                            region_length: size,
                            mapped_length: size,
                        })
                    },
                    Err(e) => {
                        &&& e == AcpiMapError::OutOfMemory
                        &&& map_post(
                            *old(translator),
                            *old(frame_allocator),
                            *final(translator),
                            *final(frame_allocator),
                            page,
                            frame,
                            Handler::region_flags(),
                            Err(MapError::FrameAllocationFailed),
                        )
                    },
                }
            }),
    {
        let virtual_address = translator.physical_to_virtual(physical_address);
        let page = page_containing(virtual_address);
        let phys_frame = page_containing(physical_address);
        let flags = FLAG_PRESENT | FLAG_WRITABLE | FLAG_NO_CACHE | FLAG_WRITE_THROUGH;
        match translator.map_page(page, phys_frame, flags, frame_allocator) {
            Ok(()) => Ok(
                PhysicalRegionMapping {
                    physical_start: physical_address,
                    virtual_start: virtual_address,
                    region_length: size,
                    mapped_length: size,
                },
            ),
            Err(MapError::FrameAllocationFailed) => Err(AcpiMapError::OutOfMemory),
        }
    }

    /// Unmap the page backing a previously mapped region, given the
    /// region's virtual start. A page that was never mapped, or that
    /// a larger page backs, is left alone; the call always succeeds.
    pub fn unmap_physical_region(translator: &mut Translator, virtual_start: u64)
        requires
            old(translator).wf(),
        ensures
            final(translator).wf(),
            unmap_post(
                *old(translator),
                *final(translator),
                spec_page_containing(virtual_start) as u64,
                Ok(()),
            ),
    {
        let page = page_containing(virtual_start);
        match translator.unmap_page(page) {
            Ok(()) => (),
            Err(_) => (),
        }
    }
}

} // verus!
