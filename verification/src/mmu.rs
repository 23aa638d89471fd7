//! Building the hypervisor's own address space and turning translation on:
//! the table of every registered region, and the order of the steps that
//! activate it.

use vstd::prelude::*;
use crate::addr::VirtAddrRange;
use crate::pte::{AccessSetting, CacheSetting};
use crate::regs::{translation_registers, MAIR_VALUE, SCTLR_ENABLE, TCR_VALUE};
use crate::space::{Space, SpaceSet};
use crate::pte::PTESetting;
use crate::table::arena::{stays, MapError, PageTableRef, TableAlloc, ADDRESS_LIMIT};
use crate::table::frames::gap;
use crate::table::fresh::{
    fresh_gap, fresh_tables, lemma_fresh_tables_grow, lemma_fresh_tables_prefix,
    lemma_gap_after_fresh, lemma_tables_upto_fresh,
};
use crate::table::map::{
    block_conflicts, block_outside, gaps_outside, lemma_outcome_earlier_frames,
    lemma_outcome_elsewhere, region_mapped, region_outcome, stopped_at,
};
use crate::table::plan::{addressable, lemma_plan_blocks, plan, planned, span, Block, MapConfig};
use crate::table::steps::{lemma_stays_root, lemma_stays_trans};

verus! {

/// The mapping request of a range of virtual addresses: physically, the
/// range lies `va_offset` bytes below where it lies virtually if `offset`
/// says so, and where it lies virtually if not.
pub open spec fn range_config(
    range: VirtAddrRange,
    privilege_access: AccessSetting,
    cache_setting: CacheSetting,
    va_offset: usize,
    offset: bool,
) -> MapConfig {
    MapConfig {
        vaddr: range.start,
        paddr: if offset {
            (range.start - va_offset) as usize
        } else {
            range.start
        },
        setting: crate::pte::PTESetting {
            cache_setting,
            privilege_access,
            user_access: AccessSetting::spec_empty(),
            is_global: true,
        },
    }
}

/// Maps a range of virtual addresses, with blocks where they fit.
pub fn map_range(
    table: &mut PageTableRef,
    range: &VirtAddrRange,
    privilege_access: AccessSetting,
    cache_setting: CacheSetting,
    access: &mut TableAlloc,
    va_offset: usize,
    offset: bool,
) -> (r: Result<(), MapError>)
    requires
        old(access).wf(),
        old(table).wf(old(access)),
        range.wf(),
        offset ==> va_offset <= range.start,
        addressable(
            range_config(*range, privilege_access, cache_setting, va_offset, offset),
            range.spec_size() as usize,
        ),
    ensures
        *final(table) == *old(table),
        final(access).wf(),
        final(table).wf(final(access)),
        region_outcome(
            r,
            old(access),
            final(access),
            old(table).spec_paddr(),
            range_config(*range, privilege_access, cache_setting, va_offset, offset),
            range.spec_size() as usize,
            true,
        ),
{
    let vaddr: usize = range.start;
    let paddr: usize = if offset {
        vaddr - va_offset
    } else {
        vaddr
    };
    table.map_region(
        MapConfig::new(vaddr, paddr, privilege_access, cache_setting),
        range.size(),
        true,
        access,
    )
}

/// Maps a range of the kernel image: normal, cacheable memory.
pub fn map_k_range(
    table: &mut PageTableRef,
    range: &VirtAddrRange,
    privilege_access: AccessSetting,
    access: &mut TableAlloc,
    va_offset: usize,
    offset: bool,
) -> (r: Result<(), MapError>)
    requires
        old(access).wf(),
        old(table).wf(old(access)),
        range.wf(),
        offset ==> va_offset <= range.start,
        addressable(
            range_config(*range, privilege_access, CacheSetting::Normal, va_offset, offset),
            range.spec_size() as usize,
        ),
    ensures
        *final(table) == *old(table),
        final(access).wf(),
        final(table).wf(final(access)),
        region_outcome(
            r,
            old(access),
            final(access),
            old(table).spec_paddr(),
            range_config(*range, privilege_access, CacheSetting::Normal, va_offset, offset),
            range.spec_size() as usize,
            true,
        ),
{
    map_range(table, range, privilege_access, CacheSetting::Normal, access, va_offset, offset)
}

/// The mapping request of a registered region: its virtual range onto its
/// physical one, for privileged code, with its rights and cache policy.
pub open spec fn space_config(space: Space) -> MapConfig {
    MapConfig {
        vaddr: space.spec_virt().start,
        paddr: space.phys.start,
        setting: crate::pte::PTESetting {
            cache_setting: space.cache,
            privilege_access: space.access,
            user_access: AccessSetting::spec_empty(),
            is_global: true,
        },
    }
}

/// Every region of the sequence lies below the address limit.
pub open spec fn spaces_addressable(spaces: Seq<Space>) -> bool {
    forall|i: int|
        0 <= i < spaces.len() ==> addressable(
            space_config(#[trigger] spaces[i]),
            spaces[i].phys.spec_size() as usize,
        )
}

/// What a table holds for an address after the first `n` regions of a
/// sequence were mapped into it, one after the other: the entry that the
/// last of them that covers the address gives it.
pub open spec fn mapped_by(spaces: Seq<Space>, n: int, v: int) -> Option<(int, u64)>
    decreases n,
{
    if n <= 0 {
        None
    } else {
        let space = spaces[n - 1];
        let config = space_config(space);
        let total = span(space.phys.spec_size());
        if config.vaddr <= v < config.vaddr + total {
            Some(planned(config.vaddr as int, config.paddr as int, total, true, config.setting, v))
        } else {
            mapped_by(spaces, n - 1, v)
        }
    }
}

/// Whether every region of a registry lies below the address limit, so that
/// `init` takes the registry.
pub fn check_addressable(spaces: &SpaceSet) -> (r: bool)
    requires
        spaces.wf(),
    ensures
        r == spaces_addressable(spaces@),
{
    let n: usize = spaces.len();
    let mut i: usize = 0;
    while i < n
        invariant
            i <= n,
            n == spaces@.len(),
            spaces.wf(),
            forall|k: int|
                0 <= k < i ==> addressable(
                    space_config(#[trigger] spaces@[k]),
                    spaces@[k].phys.spec_size() as usize,
                ),
        decreases n - i,
    {
        let space = spaces.get(i);
        proof {
            assert(spaces@[i as int].wf());
        }
        let virt = space.virt();
        let size: usize = space.phys.size();
        if size as u64 > ADDRESS_LIMIT {
            proof {
                assert(span(size as int) >= size);
            }
            return false;
        }
        let total: u64 = ((size as u64 + 4095) / 4096) * 4096;
        let limit: u64 = ADDRESS_LIMIT;
        if virt.start as u64 > limit || space.phys.start as u64 > limit || virt.start as u64
            + total > limit || space.phys.start as u64 + total > limit || virt.start as u64 + total
            > usize::MAX as u64 || space.phys.start as u64 + total > usize::MAX as u64 {
            return false;
        }
        i = i + 1;
    }
    true
}

/// The whole pages that a region takes up virtually: where they start.
pub open spec fn span_start(space: Space) -> int {
    space_config(space).vaddr as int
}

/// The whole pages that a region takes up: how many bytes they are.
pub open spec fn span_total(space: Space) -> int {
    span(space.phys.spec_size())
}

/// The blocks that a region is mapped with.
pub open spec fn space_plan(space: Space) -> Seq<Block> {
    plan(span_start(space), space_config(space).paddr as int, span_total(space), true)
}

/// Both bases of every region are multiples of the page size.
pub open spec fn spaces_aligned(spaces: Seq<Space>) -> bool {
    forall|i: int|
        0 <= i < spaces.len() ==> span_start(#[trigger] spaces[i]) % 4096 == 0
            && spaces[i].phys.start % 4096 == 0
}

/// No two regions share a page virtually.
pub open spec fn spans_disjoint(spaces: Seq<Space>) -> bool {
    forall|i: int, j: int|
        0 <= j < i < spaces.len() ==> span_start(#[trigger] spaces[j]) + span_total(spaces[j])
            <= span_start(#[trigger] spaces[i]) || span_start(spaces[i]) + span_total(spaces[i])
            <= span_start(spaces[j])
}

/// The number of blocks that the first `n` regions are mapped with.
pub open spec fn blocks_total(spaces: Seq<Space>, n: int) -> int
    decreases n,
{
    if n <= 0 {
        0
    } else {
        blocks_total(spaces, n - 1) + space_plan(spaces[n - 1]).len()
    }
}

/// A page or block that has no address in common with any of the first `n`
/// regions, taken in whole pages.
pub open spec fn outside_first(block: Block, spaces: Seq<Space>, n: int) -> bool {
    forall|j: int|
        0 <= j < n ==> block_outside(
            block,
            span_start(#[trigger] spaces[j]),
            span_total(spaces[j]),
        )
}

/// In the table rooted at `table`, the slot of every page or block outside
/// the first `n` regions is free.
pub open spec fn free_outside(
    access: &TableAlloc,
    table: usize,
    spaces: Seq<Space>,
    n: int,
) -> bool {
    forall|block: Block, setting: PTESetting|
        outside_first(block, spaces, n) ==> !#[trigger] block_conflicts(
            access,
            table,
            block,
            setting,
        )
}

/// Two regions that start on pages and have no byte in common have no page
/// in common.
pub proof fn lemma_pages_apart(a: Space, b: Space)
    requires
        a.wf(),
        b.wf(),
        !a.spec_virt().spec_overlaps(b.spec_virt()),
        span_start(a) % 4096 == 0,
        span_start(b) % 4096 == 0,
    ensures
        span_start(a) + span_total(a) <= span_start(b) || span_start(b) + span_total(b)
            <= span_start(a),
{
}

/// The regions of a registry that start on pages share no page.
pub proof fn lemma_aligned_spaces_share_no_page(spaces: Seq<Space>)
    requires
        crate::space::registry_ok(spaces),
        spaces_aligned(spaces),
    ensures
        spans_disjoint(spaces),
{
    assert forall|i: int, j: int| 0 <= j < i < spaces.len() implies span_start(
        #[trigger] spaces[j],
    ) + span_total(spaces[j]) <= span_start(#[trigger] spaces[i]) || span_start(spaces[i])
        + span_total(spaces[i]) <= span_start(spaces[j]) by {
        lemma_pages_apart(spaces[j], spaces[i]);
    }
}

/// The count of blocks grows with the count of regions.
proof fn lemma_blocks_total_grows(spaces: Seq<Space>, i: int, n: int)
    requires
        0 <= i <= n,
    ensures
        0 <= blocks_total(spaces, i) <= blocks_total(spaces, n),
    decreases n,
{
    if i < n {
        lemma_blocks_total_grows(spaces, i, n - 1);
    } else if n > 0 {
        lemma_blocks_total_grows(spaces, n - 1, n - 1);
    }
}

/// Whether both bases of a region are multiples of the page size.
pub open spec fn space_aligned(space: Space) -> bool {
    span_start(space) % 4096 == 0 && space.phys.start % 4096 == 0
}

/// Among the first `n` regions, the number of those that come before the
/// first whose bases are not aligned.
pub open spec fn aligned_prefix(spaces: Seq<Space>, n: int) -> int
    decreases n,
{
    if n <= 0 {
        0
    } else {
        let m = aligned_prefix(spaces, n - 1);
        if m == n - 1 && space_aligned(spaces[n - 1]) {
            n
        } else {
            m
        }
    }
}

/// The blocks that the first `n` regions are mapped with, in the order in
/// which they are written.
pub open spec fn build_blocks(spaces: Seq<Space>, n: int) -> Seq<Block>
    decreases n,
{
    if n <= 0 {
        Seq::empty()
    } else {
        build_blocks(spaces, n - 1) + space_plan(spaces[n - 1])
    }
}

/// The frames that the table of the first `n` regions takes: one for the
/// root, and one for each table below it.
pub open spec fn frames_needed(spaces: Seq<Space>, n: int) -> int {
    1 + fresh_tables(build_blocks(spaces, n), build_blocks(spaces, n).len() as int)
}

/// What comes of the build in an arena of `capacity` frames of which
/// `frames` are in use. The regions are mapped first to last, up to the
/// first whose bases are not aligned: `AllocatorExhausted` comes where the
/// arena lacks a frame for the root or for a table of one of them,
/// `Misaligned` where it has them all and one region is not aligned, and
/// success (`None`) otherwise.
pub open spec fn build_outcome(spaces: Seq<Space>, frames: int, capacity: int) -> Option<
    MapError,
> {
    let m = aligned_prefix(spaces, spaces.len() as int);
    if frames + frames_needed(spaces, m) > capacity {
        Some(MapError::AllocatorExhausted)
    } else if m < spaces.len() {
        Some(MapError::Misaligned)
    } else {
        None
    }
}

/// The error of a build, if any.
pub open spec fn build_error(r: Result<PageTableRef, MapError>) -> Option<MapError> {
    match r {
        Ok(_) => None,
        Err(e) => Some(e),
    }
}

/// An address that lies in none of the first `n` regions, taken in whole
/// pages.
pub open spec fn outside_spans(v: int, spaces: Seq<Space>, n: int) -> bool {
    forall|j: int|
        0 <= j < n ==> !(span_start(#[trigger] spaces[j]) <= v < span_start(spaces[j])
            + span_total(spaces[j]))
}

/// In the table rooted at `root`, which holds the first `n` regions and
/// nothing else, the walk for every address outside them first finds no
/// table where it does in a table that was empty before their blocks were
/// written.
pub open spec fn gaps_fresh(access: &TableAlloc, root: usize, spaces: Seq<Space>, n: int) -> bool {
    forall|v: int|
        0 <= v < ADDRESS_LIMIT && outside_spans(v, spaces, n) ==> #[trigger] gap(
            access@,
            access.spec_base() as int,
            (root - access.spec_base()) / 4096,
            4,
            v,
        ) == fresh_gap(build_blocks(spaces, n), build_blocks(spaces, n).len() as int, v)
}

/// Where the first `n` regions are aligned, all of them come before the
/// first that is not.
pub proof fn lemma_aligned_prefix_all(spaces: Seq<Space>, n: int)
    requires
        0 <= n,
        forall|j: int| 0 <= j < n ==> space_aligned(#[trigger] spaces[j]),
    ensures
        aligned_prefix(spaces, n) == n,
    decreases n,
{
    if n > 0 {
        lemma_aligned_prefix_all(spaces, n - 1);
    }
}

/// The regions before the first that is not aligned are at most `n`, they
/// are aligned, and the one after them is not.
pub proof fn lemma_aligned_prefix(spaces: Seq<Space>, n: int)
    requires
        0 <= n,
    ensures
        0 <= aligned_prefix(spaces, n) <= n,
        forall|j: int| 0 <= j < aligned_prefix(spaces, n) ==> space_aligned(#[trigger] spaces[j]),
        aligned_prefix(spaces, n) < n ==> !space_aligned(spaces[aligned_prefix(spaces, n)]),
    decreases n,
{
    if n > 0 {
        lemma_aligned_prefix(spaces, n - 1);
    }
}

/// The first region that is not aligned ends the count.
proof fn lemma_aligned_prefix_stops(spaces: Seq<Space>, i: int, n: int)
    requires
        0 <= i < n,
        forall|j: int| 0 <= j < i ==> space_aligned(#[trigger] spaces[j]),
        !space_aligned(spaces[i]),
    ensures
        aligned_prefix(spaces, n) == i,
    decreases n,
{
    if n == i + 1 {
        lemma_aligned_prefix_all(spaces, i);
    } else {
        lemma_aligned_prefix_stops(spaces, i, n - 1);
    }
}

/// The aligned regions at the start are counted.
proof fn lemma_aligned_prefix_covers(spaces: Seq<Space>, i: int, n: int)
    requires
        0 <= i <= n,
        forall|j: int| 0 <= j < i ==> space_aligned(#[trigger] spaces[j]),
    ensures
        i <= aligned_prefix(spaces, n) <= n,
    decreases n,
{
    if n == i {
        lemma_aligned_prefix_all(spaces, i);
    } else {
        lemma_aligned_prefix_covers(spaces, i, n - 1);
    }
}

/// More regions take no fewer frames, and the root takes one.
pub proof fn lemma_frames_needed_grow(spaces: Seq<Space>, i: int, n: int)
    requires
        0 <= i <= n,
    ensures
        1 <= frames_needed(spaces, i) <= frames_needed(spaces, n),
    decreases n,
{
    let a = build_blocks(spaces, i);
    lemma_fresh_tables_grow(a, 0, a.len() as int);
    if i < n {
        lemma_frames_needed_grow(spaces, i, n - 1);
        let b = build_blocks(spaces, n - 1);
        let more = space_plan(spaces[n - 1]);
        lemma_fresh_tables_prefix(b, more, b.len() as int);
        lemma_fresh_tables_grow(b + more, b.len() as int, (b + more).len() as int);
    }
}

/// What mapping one more region into the table of a build comes to: the
/// frames that it takes, and where the first empty entries are after it.
proof fn lemma_build_step(
    result: Result<(), MapError>,
    before: &TableAlloc,
    after: &TableAlloc,
    root: usize,
    spaces: Seq<Space>,
    i: int,
    frames: int,
)
    requires
        crate::space::registry_ok(spaces),
        spaces_addressable(spaces),
        0 <= i < spaces.len(),
        forall|j: int| 0 <= j < i ==> space_aligned(#[trigger] spaces[j]),
        region_outcome(
            result,
            before,
            after,
            root,
            space_config(spaces[i]),
            spaces[i].phys.spec_size() as usize,
            true,
        ),
        before.spec_frames() == frames + frames_needed(spaces, i),
        gaps_fresh(before, root, spaces, i),
    ensures
        result is Ok ==> after.spec_frames() == frames + frames_needed(spaces, i + 1)
            && gaps_fresh(after, root, spaces, i + 1) && space_aligned(spaces[i]),
        result == Err::<(), MapError>(MapError::AllocatorExhausted) ==> space_aligned(spaces[i])
            && frames + frames_needed(spaces, i + 1) > before.spec_capacity(),
        result == Err::<(), MapError>(MapError::Misaligned) ==> !space_aligned(spaces[i]),
{
    let space = spaces[i];
    let config = space_config(space);
    let total = span_total(space);
    let a = build_blocks(spaces, i);
    let b = space_plan(space);
    assert(space.wf());
    assert(addressable(config, space.phys.spec_size() as usize));
    assert(build_blocks(spaces, i + 1) == a + b);
    if space_aligned(space) {
        assert forall|k: int| 0 <= k < b.len() implies gap(
            before@,
            before.spec_base() as int,
            (root - before.spec_base()) / 4096,
            4,
            (#[trigger] b[k]).vaddr as int,
        ) == fresh_gap(a, a.len() as int, b[k].vaddr as int) by {
            lemma_plan_blocks(config.vaddr as int, config.paddr as int, total, true, k);
            assert forall|j: int| 0 <= j < i implies !(span_start(#[trigger] spaces[j])
                <= b[k].vaddr < span_start(spaces[j]) + span_total(spaces[j])) by {
                lemma_pages_apart(spaces[j], space);
            }
            assert(outside_spans(b[k].vaddr as int, spaces, i));
        }
        if result is Ok {
            lemma_tables_upto_fresh(before, root, a, b, b.len() as int);
            assert(gaps_outside(before, after, root, b, b.len() as int, config.vaddr as int, total));
            assert forall|v: int|
                0 <= v < ADDRESS_LIMIT && outside_spans(v, spaces, i + 1) implies #[trigger] gap(
                after@,
                after.spec_base() as int,
                (root - after.spec_base()) / 4096,
                4,
                v,
            ) == fresh_gap(a + b, (a + b).len() as int, v) by {
                assert(!(span_start(spaces[i]) <= v < span_start(spaces[i]) + span_total(
                    spaces[i],
                )));
                assert(outside_spans(v, spaces, i));
                lemma_gap_after_fresh(before, root, a, b, b.len() as int, v);
            }
        } else if result == Err::<(), MapError>(MapError::AllocatorExhausted) {
            let k = choose|k: int| #[trigger]
                stopped_at(result, before, after, root, config, total, true, k);
            assert(stopped_at(result, before, after, root, config, total, true, k));
            lemma_tables_upto_fresh(before, root, a, b, k + 1);
            lemma_fresh_tables_grow(a + b, a.len() + k + 1, (a + b).len() as int);
        }
    }
}

/// A build that stopped at region `i` ends as `build_outcome` says.
proof fn lemma_build_failed(
    spaces: Seq<Space>,
    i: int,
    e: MapError,
    frames: int,
    capacity: int,
)
    requires
        0 <= i < spaces.len(),
        forall|j: int| 0 <= j < i ==> space_aligned(#[trigger] spaces[j]),
        e == MapError::Misaligned || e == MapError::AllocatorExhausted,
        e == MapError::Misaligned ==> !space_aligned(spaces[i]) && frames + frames_needed(spaces, i)
            <= capacity,
        e == MapError::AllocatorExhausted ==> space_aligned(spaces[i]) && frames + frames_needed(
            spaces,
            i + 1,
        ) > capacity,
    ensures
        build_outcome(spaces, frames, capacity) == Some(e),
{
    let n = spaces.len() as int;
    if e == MapError::Misaligned {
        lemma_aligned_prefix_stops(spaces, i, n);
    } else {
        lemma_aligned_prefix_covers(spaces, i + 1, n);
        lemma_frames_needed_grow(spaces, i + 1, aligned_prefix(spaces, n));
    }
}

/// Builds the table of a registry: a new table in the arena, and every
/// region of the registry mapped into it, first registered first, with
/// blocks where they fit.
///
/// The first region that cannot be mapped ends the build with its error
/// (`build_outcome`): `Misaligned` where a base of the region is no
/// multiple of the page size, `AllocatorExhausted` where the arena lacks a
/// frame for the root or for a table of the region or of one before it. The
/// build succeeds exactly where every region is aligned and the arena has
/// the frames that the table takes (`frames_needed`), and then it has taken
/// exactly those. Three frames for each block, and one for the root, are
/// always enough. No conflict can come of it: regions of a registry that
/// start on pages share none. The tables that were in the arena before are
/// as they were, word for word, whatever comes of the build.
pub fn init(spaces: &SpaceSet, access: &mut TableAlloc) -> (r: Result<PageTableRef, MapError>)
    requires
        spaces.wf(),
        spaces_addressable(spaces@),
        old(access).wf(),
    ensures
        final(access).wf(),
        stays(old(access), final(access)),
        forall|k: int| 0 <= k < old(access)@.len() ==> #[trigger] final(access)@[k] == old(access)@[k],
        forall|root: usize, v: int|
            old(access).is_root(root) ==> #[trigger] final(access).lookup(root, v) == old(access).lookup(root, v),
        r matches Ok(table) ==> {
            &&& table.wf(final(access))
            &&& !old(access).is_root(table.spec_paddr())
            &&& forall|v: int| #[trigger]
                final(access).lookup(table.spec_paddr(), v) == mapped_by(
                    spaces@,
                    spaces@.len() as int,
                    v,
                )
        },
        r matches Err(e) ==> {
            &&& e == MapError::Misaligned || e == MapError::AllocatorExhausted
            &&& e == MapError::Misaligned ==> !spaces_aligned(spaces@)
            &&& e == MapError::AllocatorExhausted ==> final(access).spec_frames() == final(access).spec_capacity() && old(access).spec_frames() + 1 + 3 * blocks_total(
                spaces@,
                spaces@.len() as int,
            ) > old(access).spec_capacity()
        },
        old(access).spec_frames() == old(access).spec_capacity() ==> r is Err && final(access)@
            == old(access)@,
        build_error(r) == build_outcome(
            spaces@,
            old(access).spec_frames(),
            old(access).spec_capacity() as int,
        ),
        r is Ok ==> final(access).spec_frames() == old(access).spec_frames() + frames_needed(
            spaces@,
            spaces@.len() as int,
        ),
        spaces_aligned(spaces@) && old(access).spec_frames() + 1 + 3 * blocks_total(
            spaces@,
            spaces@.len() as int,
        ) <= old(access).spec_capacity() ==> r is Ok,
{
    let mut table = match PageTableRef::create_empty(access) {
        Err(e) => {
            proof {
                lemma_blocks_total_grows(spaces@, 0, spaces@.len() as int);
                lemma_aligned_prefix(spaces@, spaces@.len() as int);
                lemma_frames_needed_grow(
                    spaces@,
                    0,
                    aligned_prefix(spaces@, spaces@.len() as int),
                );
            }
            return Err(e);
        },
        Ok(table) => table,
    };
    let ghost created = *access;
    let ghost root = table.spec_paddr();
    let n: usize = spaces.len();
    let mut i: usize = 0;
    proof {
        lemma_frames_needed_grow(spaces@, 0, 0);
        assert(build_blocks(spaces@, 0).len() == 0);
    }
    while i < n
        invariant
            (root - access.spec_base()) / 4096 == old(access).spec_frames(),
            old(access)@.len() == 512 * old(access).spec_frames(),
            forall|k: int| 0 <= k < old(access)@.len() ==> #[trigger] access@[k] == old(access)@[k],
            access.spec_frames() == old(access).spec_frames() + frames_needed(spaces@, i as int),
            gaps_fresh(access, root, spaces@, i as int),
            i <= n,
            n == spaces@.len(),
            spaces.wf(),
            spaces_addressable(spaces@),
            old(access).wf(),
            created.wf(),
            access.wf(),
            root == table.spec_paddr(),
            table.wf(access),
            table.wf(&created),
            !old(access).is_root(root),
            old(access).spec_frames() < old(access).spec_capacity(),
            stays(old(access), &created),
            stays(&created, access),
            forall|root: usize| old(access).is_root(root) ==> #[trigger] created.is_root(root),
            forall|root: usize, v: int|
                old(access).is_root(root) ==> #[trigger] access.lookup(root, v) == old(access).lookup(root, v),
            forall|v: int| #[trigger] access.lookup(root, v) == mapped_by(spaces@, i as int, v),
            free_outside(access, root, spaces@, i as int),
            forall|j: int|
                0 <= j < i ==> span_start(#[trigger] spaces@[j]) % 4096 == 0
                    && spaces@[j].phys.start % 4096 == 0,
            access.spec_frames() <= old(access).spec_frames() + 1 + 3 * blocks_total(
                spaces@,
                i as int,
            ),
        decreases n - i,
    {
        let space = spaces.get(i);
        proof {
            assert(spaces@[i as int].wf());
            assert(addressable(
                space_config(spaces@[i as int]),
                spaces@[i as int].phys.spec_size() as usize,
            ));
        }
        let virt = space.virt();
        let config = MapConfig::new(virt.start, space.phys.start, space.access, space.cache);
        let size: usize = space.phys.size();
        let ghost before = *access;
        let result = table.map_region(config, size, true, access);
        proof {
            let total = span(size as int);
            lemma_stays_root(old(access), &created, &before);
            assert forall|root: usize, v: int| old(access).is_root(root) implies #[trigger] access.lookup(
                root,
                v,
            ) == old(access).lookup(root, v) by {
                assert(created.is_root(root));
                assert(before.is_root(root));
                assert(before.lookup(root, v) == old(access).lookup(root, v));
                lemma_outcome_elsewhere(
                    result,
                    &before,
                    access,
                    table.spec_paddr(),
                    config,
                    size,
                    true,
                    root,
                    v,
                );
            }
            lemma_stays_trans(&created, &before, access);
            lemma_stays_trans(old(access), &created, access);
            lemma_build_step(
                result,
                &before,
                access,
                root,
                spaces@,
                i as int,
                old(access).spec_frames(),
            );
            assert forall|k: int| 0 <= k < old(access)@.len() implies #[trigger] access@[k] == old(access)@[k] by {
                assert(before@[k] == old(access)@[k]);
                lemma_outcome_earlier_frames(
                    result,
                    &before,
                    access,
                    root,
                    config,
                    size,
                    true,
                    k,
                );
            }
            lemma_blocks_total_grows(spaces@, i + 1, n as int);
            assert(blocks_total(spaces@, i + 1) == blocks_total(spaces@, i as int) + space_plan(
                spaces@[i as int],
            ).len());
            if result == Err::<(), MapError>(MapError::Conflict) {
                let k = choose|k: int| #[trigger]
                    stopped_at(result, &before, access, root, config, total, true, k);
                let blocks = plan(config.vaddr as int, config.paddr as int, total, true);
                if config.vaddr % 4096 == 0 && config.paddr % 4096 == 0 {
                    lemma_plan_blocks(
                        config.vaddr as int,
                        config.paddr as int,
                        total,
                        true,
                        k,
                    );
                }
                assert(outside_first(blocks[k], spaces@, i as int)) by {
                    assert forall|j: int| 0 <= j < i implies block_outside(
                        blocks[k],
                        span_start(#[trigger] spaces@[j]),
                        span_total(spaces@[j]),
                    ) by {
                        lemma_pages_apart(spaces@[j], spaces@[i as int]);
                    }
                }
                assert(!block_conflicts(&before, root, blocks[k], config.setting));
            }
        }
        match result {
            Err(e) => {
                proof {
                    lemma_build_failed(
                        spaces@,
                        i as int,
                        e,
                        old(access).spec_frames(),
                        old(access).spec_capacity() as int,
                    );
                }
                return Err(e);
            },
            Ok(()) => {},
        }
        proof {
            assert forall|v: int| #[trigger]
                access.lookup(root, v) == mapped_by(spaces@, i + 1, v) by {
                assert(before.is_root(root));
                assert(before.lookup(root, v) == mapped_by(spaces@, i as int, v));
            }
            assert forall|block: Block, setting: PTESetting| outside_first(
                block,
                spaces@,
                i + 1,
            ) implies !#[trigger] block_conflicts(access, root, block, setting) by {
                assert(block_outside(
                    block,
                    span_start(spaces@[i as int]),
                    span_total(spaces@[i as int]),
                ));
                assert(outside_first(block, spaces@, i as int));
                assert(!block_conflicts(&before, root, block, setting));
            }
        }
        i = i + 1;
    }
    proof {
        lemma_aligned_prefix_all(spaces@, n as int);
    }
    Ok(table)
}

/// One step of turning translation on.
#[derive(Clone, Copy, Debug, PartialEq, Eq, Structural)]
pub enum ActivationStep {
    /// Program the memory-attribute table.
    ProgramMair(u64),
    /// Build the table of every registered region.
    BuildTables,
    /// Program translation control.
    ProgramTcr(u64),
    /// Program the translation-table base with the address of the root.
    ProgramTtbr,
    /// An instruction synchronisation barrier.
    InstructionBarrier,
    /// Invalidate every entry of the translation lookaside buffers of the
    /// regime.
    InvalidateTlb,
    /// A data and an instruction synchronisation barrier.
    SyncBarriers,
    /// Set the bits of system control that turn translation and caches on.
    EnableMmu(u64),
    /// A last instruction synchronisation barrier.
    FinalBarrier,
}

/// The steps of the activation, in the one order in which they may be
/// taken.
pub open spec fn spec_activation_steps() -> Seq<ActivationStep> {
    seq![
        ActivationStep::ProgramMair(MAIR_VALUE),
        ActivationStep::BuildTables,
        ActivationStep::ProgramTcr(TCR_VALUE),
        ActivationStep::ProgramTtbr,
        ActivationStep::InstructionBarrier,
        ActivationStep::InvalidateTlb,
        ActivationStep::SyncBarriers,
        ActivationStep::EnableMmu(SCTLR_ENABLE),
        ActivationStep::FinalBarrier,
    ]
}

/// The steps of the activation, first one first.
pub fn activation_steps() -> (r: Vec<ActivationStep>)
    ensures
        r@ == spec_activation_steps(),
{
    let regs = translation_registers();
    let mut steps: Vec<ActivationStep> = Vec::new();
    steps.push(ActivationStep::ProgramMair(regs.mair));
    steps.push(ActivationStep::BuildTables);
    steps.push(ActivationStep::ProgramTcr(regs.tcr));
    steps.push(ActivationStep::ProgramTtbr);
    steps.push(ActivationStep::InstructionBarrier);
    steps.push(ActivationStep::InvalidateTlb);
    steps.push(ActivationStep::SyncBarriers);
    steps.push(ActivationStep::EnableMmu(regs.sctlr_enable));
    steps.push(ActivationStep::FinalBarrier);
    proof {
        assert(steps@ =~= spec_activation_steps());
    }
    steps
}

/// The steps of the activation on a CPU that does not build the tables: it
/// waits until the tables are ready, and then takes every step but the
/// building, in the same order, with the root that was published.
pub open spec fn spec_secondary_steps() -> Seq<ActivationStep> {
    seq![
        ActivationStep::ProgramMair(MAIR_VALUE),
        ActivationStep::ProgramTcr(TCR_VALUE),
        ActivationStep::ProgramTtbr,
        ActivationStep::InstructionBarrier,
        ActivationStep::InvalidateTlb,
        ActivationStep::SyncBarriers,
        ActivationStep::EnableMmu(SCTLR_ENABLE),
        ActivationStep::FinalBarrier,
    ]
}

/// The steps of the activation on a CPU that does not build the tables;
/// none before the tables are ready.
pub fn secondary_activation_steps(table_root: Option<usize>) -> (r: Option<
    (usize, Vec<ActivationStep>),
>)
    ensures
        match table_root {
            Some(root) => r matches Some((addr, steps)) && addr == root && steps@
                == spec_secondary_steps(),
            None => r.is_none(),
        },
{
    match table_root {
        None => None,
        Some(root) => {
            let all = activation_steps();
            let mut steps: Vec<ActivationStep> = Vec::new();
            steps.push(all[0]);
            let mut i: usize = 2;
            while i < 9
                invariant
                    2 <= i <= 9,
                    all@ == spec_activation_steps(),
                    steps@ == spec_secondary_steps().subrange(0, i - 1),
                decreases 9 - i,
            {
                steps.push(all[i]);
                proof {
                    assert(steps@ =~= spec_secondary_steps().subrange(0, i as int));
                }
                i = i + 1;
            }
            proof {
                assert(steps@ =~= spec_secondary_steps());
            }
            Some((root, steps))
        },
    }
}

/// A CPU that does not build the tables builds none: its steps are those
/// of the activation without the building, in their order.
pub proof fn lemma_secondary_builds_nothing()
    ensures
        forall|i: int|
            0 <= i < spec_secondary_steps().len() ==> #[trigger] spec_secondary_steps()[i]
                != ActivationStep::BuildTables,
        spec_secondary_steps() == spec_activation_steps().remove(1),
{
    assert(spec_secondary_steps() =~= spec_activation_steps().remove(1));
}

/// Whether the guard accepts a step after `done` steps: it is the step
/// that is due, and where that is the building of the tables, the tables
/// were built.
pub open spec fn due(done: nat, step: ActivationStep, built: bool) -> bool {
    &&& done < 9
    &&& step == spec_activation_steps()[done as int]
    &&& step == ActivationStep::BuildTables ==> built
}

/// The guard of the activation: it counts the steps that were taken, takes
/// none out of order, and goes past the building of the tables only with
/// the root of the table that was built.
pub struct Activation {
    done: usize,
    root: Option<usize>,
}

impl View for Activation {
    type V = nat;

    /// The number of steps taken.
    closed spec fn view(&self) -> nat {
        self.done as nat
    }
}

impl Activation {
    pub closed spec fn wf(&self) -> bool {
        &&& self.done <= 9
        &&& (self.done >= 2) == self.root.is_some()
    }

    /// The root of the table that was built, once it was.
    pub closed spec fn spec_root(&self) -> Option<usize> {
        self.root
    }

    /// Nothing is done yet.
    pub fn new() -> (r: Self)
        ensures
            r.wf(),
            r@ == 0,
            r.spec_root().is_none(),
    {
        Activation { done: 0, root: None }
    }

    /// The step that is due, or `None` once translation is on.
    pub fn next(&self) -> (r: Option<ActivationStep>)
        requires
            self.wf(),
        ensures
            r == if self@ < 9 {
                Some(spec_activation_steps()[self@ as int])
            } else {
                None
            },
    {
        let steps = activation_steps();
        if self.done < 9 {
            Some(steps[self.done])
        } else {
            None
        }
    }

    /// Takes note that a step was taken. Only the step that is due is
    /// accepted, and the building of the tables never: what came of it is
    /// reported with `tables_built`. A step that is not accepted leaves the
    /// guard as it was and returns `false`.
    pub fn advance(&mut self, step: ActivationStep) -> (accepted: bool)
        requires
            old(self).wf(),
        ensures
            final(self).wf(),
            accepted == due(old(self)@, step, false),
            final(self)@ == if accepted {
                old(self)@ + 1
            } else {
                old(self)@
            },
            final(self).spec_root() == old(self).spec_root(),
    {
        let steps = activation_steps();
        let build = match step {
            ActivationStep::BuildTables => true,
            _ => false,
        };
        if self.done < 9 && steps[self.done] == step && !build {
            self.done = self.done + 1;
            true
        } else {
            false
        }
    }

    /// Takes note of what came of building the tables. The guard goes on
    /// exactly if the building is the step that is due and it gave a table:
    /// it then holds the root of that table. After a build that failed, and
    /// at any other step, the guard is left as it was.
    pub fn tables_built(&mut self, built: &Result<PageTableRef, MapError>) -> (accepted: bool)
        requires
            old(self).wf(),
        ensures
            final(self).wf(),
            accepted == due(old(self)@, ActivationStep::BuildTables, built is Ok),
            accepted == (old(self)@ == 1 && built is Ok),
            final(self)@ == if accepted {
                old(self)@ + 1
            } else {
                old(self)@
            },
            final(self).spec_root() == match built {
                Ok(table) if accepted => Some(table.spec_paddr()),
                _ => old(self).spec_root(),
            },
    {
        if self.done != 1 {
            return false;
        }
        match built {
            Ok(table) => {
                self.done = 2;
                self.root = Some(table.paddr());
                true
            },
            Err(_) => false,
        }
    }

    /// The root of the table that was built: what the translation-table
    /// base is to be programmed with. `None` before the tables are built.
    pub fn root(&self) -> (r: Option<usize>)
        requires
            self.wf(),
        ensures
            r == self.spec_root(),
            r.is_some() == (self@ >= 2),
    {
        self.root
    }

    /// Whether every step was taken: translation is on.
    pub fn is_active(&self) -> (r: bool)
        requires
            self.wf(),
        ensures
            r == (self@ == 9),
            r ==> self.spec_root().is_some(),
    {
        self.done == 9
    }
}

/// One attempt at a step: the step, and for the building of the tables
/// whether it gave a table.
pub struct Attempt {
    pub step: ActivationStep,
    pub built: bool,
}

/// The steps that a guard has accepted after a sequence of attempts, in the
/// order of their acceptance.
pub open spec fn accepted_steps(done: nat, attempts: Seq<Attempt>) -> Seq<ActivationStep>
    decreases attempts.len(),
{
    if attempts.len() == 0 {
        Seq::empty()
    } else if due(done, attempts[0].step, attempts[0].built) {
        seq![attempts[0].step] + accepted_steps(
            done + 1,
            attempts.subrange(1, attempts.len() as int),
        )
    } else {
        accepted_steps(done, attempts.subrange(1, attempts.len() as int))
    }
}

/// Strict order: whatever is attempted, what a new guard accepts is a
/// beginning of the one order of the steps.
pub proof fn lemma_activation_order(done: nat, attempts: Seq<Attempt>)
    requires
        done <= 9,
    ensures
        done + accepted_steps(done, attempts).len() <= 9,
        accepted_steps(done, attempts) == spec_activation_steps().subrange(
            done as int,
            (done + accepted_steps(done, attempts).len()) as int,
        ),
    decreases attempts.len(),
{
    let order = spec_activation_steps();
    if attempts.len() == 0 {
        assert(accepted_steps(done, attempts) =~= order.subrange(done as int, done as int));
    } else {
        let rest = attempts.subrange(1, attempts.len() as int);
        if due(done, attempts[0].step, attempts[0].built) {
            lemma_activation_order(done + 1, rest);
            let tail = accepted_steps(done + 1, rest);
            assert(seq![attempts[0].step] + tail =~= order.subrange(
                done as int,
                (done + 1 + tail.len()) as int,
            ));
        } else {
            lemma_activation_order(done, rest);
        }
    }
}

/// Each step is a precondition of the next: while no build has given a
/// table, no step after the building is accepted, whatever is attempted.
pub proof fn lemma_nothing_past_failed_build(done: nat, attempts: Seq<Attempt>)
    requires
        done <= 1,
        forall|i: int|
            0 <= i < attempts.len() && (#[trigger] attempts[i]).step == ActivationStep::BuildTables
                ==> !attempts[i].built,
    ensures
        done + accepted_steps(done, attempts).len() <= 1,
    decreases attempts.len(),
{
    if attempts.len() > 0 {
        let rest = attempts.subrange(1, attempts.len() as int);
        assert forall|i: int|
            0 <= i < rest.len() && (#[trigger] rest[i]).step
                == ActivationStep::BuildTables implies !rest[i].built by {
            assert(rest[i] == attempts[i + 1]);
        }
        if due(done, attempts[0].step, attempts[0].built) {
            assert(spec_activation_steps()[1] == ActivationStep::BuildTables);
            assert(done == 0);
            lemma_nothing_past_failed_build(done + 1, rest);
        } else {
            lemma_nothing_past_failed_build(done, rest);
        }
    }
}

} // verus!
