//! Page-table entries: a bitfield of flags plus the mapped frame's address.

use vstd::prelude::*;

verus! {

/// Present flag. Must be set to map a page or reference a page table.
pub const PRESENT: u64 = 1u64 << 0;
/// Writable flag. If clear, writes to the mapped region are not allowed.
pub const WRITABLE: u64 = 1u64 << 1;
/// The mapped region may be reached from user mode.
pub const USER_ACCESSIBLE: u64 = 1u64 << 2;
/// Writes go straight to memory.
pub const WRITE_THROUGH: u64 = 1u64 << 3;
/// The mapped region is not cached.
pub const NO_CACHE: u64 = 1u64 << 4;
/// Set by the hardware when the entry is used for a translation.
pub const ACCESSED: u64 = 1u64 << 5;
/// Set by the hardware on a write to the mapped region.
pub const DIRTY: u64 = 1u64 << 6;
/// The entry maps a huge page instead of referencing a page table.
pub const HUGE_PAGE: u64 = 1u64 << 7;
/// The translation stays in the TLB across address-space switches.
pub const GLOBAL: u64 = 1u64 << 8;
/// Instructions may not be fetched from the mapped region.
pub const NO_EXECUTE: u64 = 1u64 << 63;

/// Every bit that carries a flag.
pub const ALL_FLAGS: u64 = PRESENT | WRITABLE | USER_ACCESSIBLE | WRITE_THROUGH
    | NO_CACHE | ACCESSED | DIRTY | HUGE_PAGE | GLOBAL | NO_EXECUTE;

/// The bits of an entry that hold the mapped frame's address.
pub const ADDRESS_MASK: u64 = 0x000fffff_fffff000;

/// The flag bits of a page-table entry.
#[derive(Clone, Copy, PartialEq, Eq, Structural)]
pub struct Flags {
    bits: u64,
}

impl Flags {
    /// The raw flag bits.
    pub closed spec fn spec_bits(&self) -> u64 {
        self.bits
    }

    /// No flag set.
    pub fn empty() -> (f: Flags)
        ensures
            f.spec_bits() == 0,
    {
        Flags { bits: 0 }
    }

    /// Keep of `bits` only the bits that carry a flag.
    pub fn from_bits_truncate(bits: u64) -> (f: Flags)
        ensures
            f.spec_bits() == bits & ALL_FLAGS,
    {
        Flags { bits: bits & ALL_FLAGS }
    }

    /// The raw flag bits.
    pub fn bits(&self) -> (r: u64)
        ensures
            r == self.spec_bits(),
    {
        self.bits
    }

    /// True when every bit of `mask` is set.
    pub fn contains(&self, mask: u64) -> (r: bool)
        ensures
            r == (self.spec_bits() & mask == mask),
    {
        self.bits & mask == mask
    }

    /// The union of two flag sets.
    pub fn union(&self, other: Flags) -> (f: Flags)
        ensures
            f.spec_bits() == self.spec_bits() | other.spec_bits(),
    {
        Flags { bits: self.bits | other.bits }
    }
}

/// A page table entry.
#[derive(Clone, Copy, PartialEq, Eq, Structural)]
pub struct Entry(u64);

impl Entry {
    /// The raw bits of the entry.
    pub closed spec fn spec_bits(&self) -> u64 {
        self.0
    }

    /// A fresh, unused entry.
    pub fn new() -> (e: Entry)
        ensures
            e.spec_bits() == 0,
    {
        Entry(0)
    }

    /// True if this is an unused entry.
    pub fn is_unused(&self) -> (r: bool)
        ensures
            r == (self.spec_bits() == 0),
    {
        self.0 == 0
    }

    /// Sets this entry to be unused.
    pub fn set_unused(&mut self)
        ensures
            final(self).spec_bits() == 0,
    {
        self.0 = 0;
    }

    /// True if this entry maps a huge page.
    pub fn is_huge(&self) -> (r: bool)
        ensures
            r == (self.spec_bits() & HUGE_PAGE == HUGE_PAGE),
    {
        let r = self.flags().contains(HUGE_PAGE);
        proof {
            let b = self.spec_bits();
            assert((b & ALL_FLAGS) & HUGE_PAGE == b & HUGE_PAGE) by (bit_vector);
        }
        r
    }

    /// The entry's flag bits.
    pub fn flags(&self) -> (f: Flags)
        ensures
            f.spec_bits() == self.spec_bits() & ALL_FLAGS,
    {
        Flags::from_bits_truncate(self.0)
    }

    /// The address of the frame the entry maps, when the entry is present.
    pub fn pointed_frame(&self) -> (r: Option<u64>)
        ensures
            self.spec_bits() & PRESENT == PRESENT ==> r == Some(self.spec_bits() & ADDRESS_MASK),
            self.spec_bits() & PRESENT != PRESENT ==> r is None,
    {
        proof {
            let b = self.spec_bits();
            assert((b & ALL_FLAGS) & PRESENT == b & PRESENT) by (bit_vector);
        }
        if self.flags().contains(PRESENT) {
            Some(self.0 & ADDRESS_MASK)
        } else {
            None
        }
    }

    /// Point the entry at the frame at address `frame`, with the given flags.
    /// The address must be page-aligned and below the physical limit: an
    /// address with bits outside the address mask is a caller error.
    pub fn set(&mut self, frame: u64, flags: Flags)
        requires
            frame & !ADDRESS_MASK == 0,
        ensures
            final(self).spec_bits() == frame | flags.spec_bits(),
    {
        self.0 = frame | flags.bits();
    }
}

} // verus!
