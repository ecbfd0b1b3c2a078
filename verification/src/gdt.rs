//! Interrupt-stack-table slots of the task state segment.
//!
//! Fault handlers that must not run on a possibly corrupted stack get
//! a dedicated stack each; this enum names the slot every such
//! handler's stack occupies. The unverified trap setup indexes the
//! hardware table with these values.

use vstd::prelude::*;

verus! {

/// One slot of the interrupt stack table.
#[derive(Debug, Clone, Copy, PartialEq, Eq, Structural)]
pub enum IstIndex {
    DoubleFault,
    PageFault,
    InvalidTSS,
    DivideError,
    SegmentNotPresent,
    StackSegmentFault,
    GeneralProtectionFault,
}

impl IstIndex {
    /// The slot's position in the interrupt stack table.
    pub open spec fn spec_index(self) -> int {
        match self {
            IstIndex::DoubleFault => 0,
            IstIndex::PageFault => 1,
            IstIndex::InvalidTSS => 2,
            IstIndex::DivideError => 3,
            IstIndex::SegmentNotPresent => 4,
            IstIndex::StackSegmentFault => 5,
            IstIndex::GeneralProtectionFault => 6,
        }
    }

    pub fn as_u16(self) -> (r: u16)
        ensures
            r == self.spec_index(),
    {
        match self {
            IstIndex::DoubleFault => 0,
            IstIndex::PageFault => 1,
            IstIndex::InvalidTSS => 2,
            IstIndex::DivideError => 3,
            IstIndex::SegmentNotPresent => 4,
            IstIndex::StackSegmentFault => 5,
            IstIndex::GeneralProtectionFault => 6,
        }
    }

    pub fn as_usize(self) -> (r: usize)
        ensures
            r == self.spec_index(),
    {
        match self {
            IstIndex::DoubleFault => 0,
            IstIndex::PageFault => 1,
            IstIndex::InvalidTSS => 2,
            IstIndex::DivideError => 3,
            IstIndex::SegmentNotPresent => 4,
            IstIndex::StackSegmentFault => 5,
            IstIndex::GeneralProtectionFault => 6,
        }
    }
}

} // verus!
