//! Interrupt vector numbers of the hardware interrupts the kernel
//! services.
//!
//! Vectors up to 31 belong to CPU exceptions; the programmable
//! interrupts start at vector 32. The unverified interrupt setup
//! installs one handler per vector named here and programs the
//! interrupt controllers with the matching hardware IRQ line.

use vstd::prelude::*;

verus! {

/// A hardware interrupt's vector.
#[derive(Debug, Clone, Copy, PartialEq, Eq, Structural)]
pub enum InterruptIndex {
    Timer,
    Keyboard,
    LapicErr,
    Spurious,
}

impl InterruptIndex {
    /// The interrupt's vector number.
    pub open spec fn spec_vector(self) -> int {
        match self {
            InterruptIndex::Timer => 32,
            InterruptIndex::Keyboard => 33,
            InterruptIndex::LapicErr => 49,
            InterruptIndex::Spurious => 255,
        }
    }

    /// First vector available to hardware interrupts.
    pub fn offset() -> (r: u8)
        ensures
            r == InterruptIndex::Timer.spec_vector(),
    {
        InterruptIndex::Timer.as_u8()
    }

    /// The hardware IRQ line relative to the vector offset.
    pub fn base_irq_index(self) -> (r: u8)
        ensures
            r == self.spec_vector() - InterruptIndex::Timer.spec_vector(),
    {
        self.as_u8() - InterruptIndex::offset()
    }

    pub fn as_u8(self) -> (r: u8)
        ensures
            r == self.spec_vector(),
    {
        match self {
            InterruptIndex::Timer => 32,
            InterruptIndex::Keyboard => 33,
            InterruptIndex::LapicErr => 49,
            InterruptIndex::Spurious => 255,
        }
    }

    pub fn as_usize(self) -> (r: usize)
        ensures
            r == self.spec_vector(),
    {
        match self {
            InterruptIndex::Timer => 32,
            InterruptIndex::Keyboard => 33,
            InterruptIndex::LapicErr => 49,
            InterruptIndex::Spurious => 255,
        }
    }
}

} // verus!
