//! The address-space registry: the bounded catalogue of the regions that
//! the hypervisor maps for itself, no two of them overlapping.

use vstd::prelude::*;
use arrayvec::ArrayVec;
use crate::addr::{PhysAddrRange, VirtAddrRange};
use crate::pte::{AccessSetting, CacheSetting};

verus! {

/// The number of regions that the registry can hold.
pub const SPACE_CAPACITY: usize = 24;

/// One contiguous mapping request: a span of physical memory, how far
/// above it lies virtually, and the rights and cache policy it is mapped
/// with.
#[derive(Clone, Copy, Debug, PartialEq, Eq)]
pub struct Space {
    pub name: &'static str,
    pub phys: PhysAddrRange,
    pub offset: usize,
    pub access: AccessSetting,
    pub cache: CacheSetting,
}

impl Space {
    /// The physical range does not end before it starts, and its virtual
    /// image lies in the address space.
    pub open spec fn wf(self) -> bool {
        &&& self.phys.wf()
        &&& self.phys.end + self.offset <= usize::MAX
    }

    /// The virtual range of the region: the physical one, moved up by the
    /// offset.
    pub open spec fn spec_virt(self) -> VirtAddrRange {
        VirtAddrRange {
            start: (self.phys.start + self.offset) as usize,
            end: (self.phys.end + self.offset) as usize,
        }
    }

    pub fn virt(&self) -> (r: VirtAddrRange)
        requires
            self.wf(),
        ensures
            r == self.spec_virt(),
            r.wf(),
            r.spec_size() == self.phys.spec_size(),
    {
        VirtAddrRange { start: self.phys.start + self.offset, end: self.phys.end + self.offset }
    }

    /// Whether `virt` can be called: `wf`, as a test.
    pub fn is_wf(&self) -> (r: bool)
        ensures
            r == self.wf(),
    {
        self.phys.start <= self.phys.end && self.phys.end <= usize::MAX - self.offset
    }
}

/// `arrayvec::ArrayVec`, made known so that it can stand in a field. Nothing
/// is said of what is inside: that is what `spaces_of` is for.
#[verifier::external_type_specification]
#[verifier::external_body]
#[verifier::reject_recursive_types(T)]
pub struct ExArrayVec<T, const CAP: usize>(ArrayVec<T, CAP>);

/// What an `ArrayVec` of regions holds, first pushed first.
pub uninterp spec fn spaces_of(v: ArrayVec<Space, 24>) -> Seq<Space>;

/// `ArrayVec::new`: a vector that holds nothing.
#[verifier::external_body]
fn av_new() -> (v: ArrayVec<Space, 24>)
    ensures
        spaces_of(v) == Seq::<Space>::empty(),
{
    ArrayVec::new()
}

/// `ArrayVec::len`: the number of elements held, never above the capacity.
#[verifier::external_body]
fn av_len(v: &ArrayVec<Space, 24>) -> (n: usize)
    ensures
        n == spaces_of(*v).len(),
        n <= 24,
{
    v.len()
}

/// `ArrayVec::push`: appends the element. On a full vector it panics, so
/// that is left out.
#[verifier::external_body]
fn av_push(v: &mut ArrayVec<Space, 24>, space: Space)
    requires
        spaces_of(*old(v)).len() < 24,
    ensures
        spaces_of(*final(v)) == spaces_of(*old(v)).push(space),
{
    v.push(space)
}

/// Indexing an `ArrayVec` through its slice: the element at `i`.
#[verifier::external_body]
fn av_get(v: &ArrayVec<Space, 24>, i: usize) -> (space: Space)
    requires
        i < spaces_of(*v).len(),
    ensures
        space == spaces_of(*v)[i as int],
{
    v[i]
}


/// Why a region was not taken into the registry.
#[derive(Clone, Copy, Debug, PartialEq, Eq, Structural)]
pub enum SpaceError {
    /// The region ends before it starts, or its virtual image does not lie
    /// in the address space.
    InvalidRange,
    /// The virtual range of the region overlaps that of a registered one.
    Overlap,
    /// The registry is full.
    CapacityExceeded,
}

/// No two regions of the sequence overlap virtually.
pub open spec fn disjoint(spaces: Seq<Space>) -> bool {
    forall|i: int, j: int|
        0 <= i < j < spaces.len() ==> !(#[trigger] spaces[i]).spec_virt().spec_overlaps(
            (#[trigger] spaces[j]).spec_virt(),
        )
}

/// Whether a region overlaps one of the sequence.
pub open spec fn overlaps_any(spaces: Seq<Space>, space: Space) -> bool {
    exists|i: int|
        0 <= i < spaces.len() && (#[trigger] spaces[i]).spec_virt().spec_overlaps(
            space.spec_virt(),
        )
}

/// What registering a region does to the sequence of regions held.
pub open spec fn spec_push(spaces: Seq<Space>, space: Space) -> Result<Seq<Space>, SpaceError> {
    if !space.wf() {
        Err(SpaceError::InvalidRange)
    } else if overlaps_any(spaces, space) {
        Err(SpaceError::Overlap)
    } else if spaces.len() >= 24 {
        Err(SpaceError::CapacityExceeded)
    } else {
        Ok(spaces.push(space))
    }
}

/// What a registry may hold: at most 24 regions, each well-formed, no two
/// overlapping virtually.
pub open spec fn registry_ok(spaces: Seq<Space>) -> bool {
    &&& spaces.len() <= 24
    &&& forall|i: int| 0 <= i < spaces.len() ==> (#[trigger] spaces[i]).wf()
    &&& disjoint(spaces)
}

/// The registry in the making: regions are registered one by one while the
/// machine boots, and `build` ends the making.
pub struct SpaceSetBuilder {
    spaces: ArrayVec<Space, 24>,
}

/// The registry: at most 24 regions, in the order in which they were
/// registered. Once built it is only read.
pub struct SpaceSet {
    spaces: ArrayVec<Space, 24>,
}

impl View for SpaceSetBuilder {
    type V = Seq<Space>;

    closed spec fn view(&self) -> Seq<Space> {
        spaces_of(self.spaces)
    }
}

impl View for SpaceSet {
    type V = Seq<Space>;

    closed spec fn view(&self) -> Seq<Space> {
        spaces_of(self.spaces)
    }
}

impl SpaceSet {
    /// Every region held is well-formed, and no two overlap virtually.
    pub open spec fn wf(&self) -> bool {
        registry_ok(self@)
    }

    /// The number of regions held.
    pub fn len(&self) -> (r: usize)
        ensures
            r == self@.len(),
            r <= 24,
    {
        av_len(&self.spaces)
    }

    /// The region registered as number `i`.
    pub fn get(&self, i: usize) -> (r: Space)
        requires
            i < self@.len(),
        ensures
            r == self@[i as int],
    {
        av_get(&self.spaces, i)
    }

    /// The regions held, in the order in which they were registered.
    pub fn iter(&self) -> (r: Vec<Space>)
        ensures
            r@ == self@,
    {
        let n: usize = av_len(&self.spaces);
        let mut out: Vec<Space> = Vec::new();
        let mut i: usize = 0;
        while i < n
            invariant
                i <= n,
                n == self@.len(),
                out@ == self@.subrange(0, i as int),
            decreases n - i,
        {
            let held = av_get(&self.spaces, i);
            out.push(held);
            proof {
                assert(out@ =~= self@.subrange(0, i + 1));
            }
            i = i + 1;
        }
        proof {
            assert(out@ =~= self@);
        }
        out
    }

}

impl SpaceSetBuilder {
    /// Every region held is well-formed, and no two overlap virtually.
    pub open spec fn wf(&self) -> bool {
        registry_ok(self@)
    }

    /// A registry in the making that holds nothing.
    pub fn new() -> (r: Self)
        ensures
            r.wf(),
            r@ == Seq::<Space>::empty(),
    {
        SpaceSetBuilder { spaces: av_new() }
    }

    /// The number of regions held.
    pub fn len(&self) -> (r: usize)
        ensures
            r == self@.len(),
            r <= 24,
    {
        av_len(&self.spaces)
    }

    /// Ends the making: the registry of the regions that were registered.
    pub fn build(self) -> (r: SpaceSet)
        ensures
            r@ == self@,
            self.wf() ==> r.wf(),
    {
        SpaceSet { spaces: self.spaces }
    }

    /// Registers a region. It is rejected where it is not well-formed, where
    /// its virtual range overlaps that of a region held, and where the
    /// registry is full; the registry is then left as it was.
    pub fn push(&mut self, space: Space) -> (r: Result<(), SpaceError>)
        requires
            old(self).wf(),
        ensures
            final(self).wf(),
            match spec_push(old(self)@, space) {
                Ok(spaces) => r is Ok && final(self)@ == spaces,
                Err(e) => r == Err::<(), SpaceError>(e) && final(self)@ == old(self)@,
            },
    {
        if !space.is_wf() {
            return Err(SpaceError::InvalidRange);
        }
        let virt = space.virt();
        let n: usize = av_len(&self.spaces);
        let mut i: usize = 0;
        while i < n
            invariant
                i <= n,
                n == self@.len(),
                self@ == old(self)@,
                self.wf(),
                space.wf(),
                virt == space.spec_virt(),
                forall|k: int|
                    0 <= k < i ==> !(#[trigger] self@[k]).spec_virt().spec_overlaps(
                        space.spec_virt(),
                    ),
            decreases n - i,
        {
            let held = av_get(&self.spaces, i);
            proof {
                assert(self@[i as int].wf());
            }
            if held.virt().overlaps(&virt) {
                return Err(SpaceError::Overlap);
            }
            i = i + 1;
        }
        if n >= 24 {
            return Err(SpaceError::CapacityExceeded);
        }
        av_push(&mut self.spaces, space);
        proof {
            let old_spaces = old(self)@;
            let spaces = self@;
            assert forall|a: int, b: int| 0 <= a < b < spaces.len() implies !(#[trigger] spaces[a]).spec_virt().spec_overlaps(
                (#[trigger] spaces[b]).spec_virt(),
            ) by {
                if b < old_spaces.len() {
                    assert(spaces[a] == old_spaces[a] && spaces[b] == old_spaces[b]);
                } else {
                    assert(spaces[a] == old_spaces[a]);
                }
            }
            assert forall|k: int| 0 <= k < spaces.len() implies (#[trigger] spaces[k]).wf() by {
                if k < old_spaces.len() {
                    assert(spaces[k] == old_spaces[k]);
                }
            }
        }
        Ok(())
    }
}

/// Disjointness: the virtual ranges of two different regions of a registry
/// never overlap.
pub proof fn lemma_registered_spaces_disjoint(set: &SpaceSet, i: int, j: int)
    requires
        set.wf(),
        0 <= i < set@.len(),
        0 <= j < set@.len(),
        i != j,
    ensures
        !set@[i].spec_virt().spec_overlaps(set@[j].spec_virt()),
{
    if i < j {
        assert(!set@[i].spec_virt().spec_overlaps(set@[j].spec_virt()));
    } else {
        assert(!set@[j].spec_virt().spec_overlaps(set@[i].spec_virt()));
    }
}

/// A region that overlaps a registered one is never taken in.
pub proof fn lemma_overlap_rejected(spaces: Seq<Space>, space: Space, i: int)
    requires
        0 <= i < spaces.len(),
        spaces[i].spec_virt().spec_overlaps(space.spec_virt()),
    ensures
        spec_push(spaces, space) is Err,
{
}

} // verus!
