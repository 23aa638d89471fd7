//! Address ranges: half-open spans of physical or of virtual addresses.

use vstd::prelude::*;

verus! {

/// A span of physical addresses, from `start` up to `end`, `end` left out.
#[derive(Clone, Copy, Debug, PartialEq, Eq, Structural)]
pub struct PhysAddrRange {
    pub start: usize,
    pub end: usize,
}

/// A span of virtual addresses, from `start` up to `end`, `end` left out.
#[derive(Clone, Copy, Debug, PartialEq, Eq, Structural)]
pub struct VirtAddrRange {
    pub start: usize,
    pub end: usize,
}

impl PhysAddrRange {
    /// The range does not end before it starts.
    pub open spec fn wf(self) -> bool {
        self.start <= self.end
    }

    pub open spec fn spec_size(self) -> int {
        self.end - self.start
    }

    /// The range from `start` to `end`, or `None` where it would end before
    /// it starts.
    pub fn try_new(start: usize, end: usize) -> (r: Option<Self>)
        ensures
            r.is_some() <==> start <= end,
            r matches Some(range) ==> range == (PhysAddrRange { start, end }),
    {
        if start <= end {
            Some(PhysAddrRange { start, end })
        } else {
            None
        }
    }

    /// The number of bytes in the range.
    pub fn size(&self) -> (r: usize)
        requires
            self.wf(),
        ensures
            r == self.spec_size(),
    {
        self.end - self.start
    }
}

impl VirtAddrRange {
    /// The range does not end before it starts.
    pub open spec fn wf(self) -> bool {
        self.start <= self.end
    }

    pub open spec fn spec_size(self) -> int {
        self.end - self.start
    }

    /// Whether an address lies in the range.
    pub open spec fn spec_contains(self, addr: int) -> bool {
        self.start <= addr < self.end
    }

    /// Whether two ranges have an address in common.
    pub open spec fn spec_overlaps(self, other: Self) -> bool {
        self.start < other.end && other.start < self.end
    }

    /// The range from `start` to `end`, or `None` where it would end before
    /// it starts.
    pub fn try_new(start: usize, end: usize) -> (r: Option<Self>)
        ensures
            r.is_some() <==> start <= end,
            r matches Some(range) ==> range == (VirtAddrRange { start, end }),
    {
        if start <= end {
            Some(VirtAddrRange { start, end })
        } else {
            None
        }
    }

    /// The number of bytes in the range.
    pub fn size(&self) -> (r: usize)
        requires
            self.wf(),
        ensures
            r == self.spec_size(),
    {
        self.end - self.start
    }

    pub fn contains(&self, addr: usize) -> (r: bool)
        ensures
            r == self.spec_contains(addr as int),
    {
        self.start <= addr && addr < self.end
    }

    pub fn overlaps(&self, other: &Self) -> (r: bool)
        ensures
            r == self.spec_overlaps(*other),
    {
        self.start < other.end && other.start < self.end
    }
}

/// Two ranges that are not empty overlap exactly when some address lies in
/// both.
pub proof fn lemma_overlap_is_common_address(a: VirtAddrRange, b: VirtAddrRange)
    requires
        a.start < a.end,
        b.start < b.end,
    ensures
        a.spec_overlaps(b) <==> exists|addr: int|
            #[trigger] a.spec_contains(addr) && b.spec_contains(addr),
{
    if a.spec_overlaps(b) {
        let addr: int = if a.start >= b.start {
            a.start as int
        } else {
            b.start as int
        };
        assert(a.spec_contains(addr) && b.spec_contains(addr));
    }
}

} // verus!
