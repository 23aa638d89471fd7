//! The mapping engine: writing one block into a table, and mapping a
//! region block by block.

use vstd::prelude::*;
use crate::pte::{PTEGeneric, PTESetting, PageTableImpl};
use crate::table::arena::{
    child_frame, conflicts, descend, entry_ok, frame_ok, index_of, leaf_word, lemma_zero_word, level_size,
    missing, size_of_level, stays, word_at, FrameInfo, MapError, PageTableRef, TableAlloc,
    ADDRESS_LIMIT,
};
use crate::table::frames::{
    blocked, diverge, gap, gaps_after, gaps_moved, lemma_blocked_above, lemma_free_is_not_blocked,
    lemma_gaps_after_leaf, lemma_gaps_after_table, lemma_missing_is_gap,
    lemma_outside_diverges, lemma_shared_way, lemma_top_slot,
};
use crate::table::plan::{
    addressable, choose_level, lemma_block_step, lemma_plan_blocks, pick_level, plan, planned,
    span, Block, MapConfig,
};
use crate::table::words::{
    frame_word, block_word, lemma_frame_taken, lemma_word_stored, lemma_words_step, words_kept,
};
use crate::table::steps::{
    apart, conflicts_kept, lemma_descend_stable, lemma_descend_step, lemma_index_region,
    lemma_kept_trans, lemma_leaf_written, lemma_leaf_written_kept, lemma_leaf_written_lookup,
    lemma_stays_trans, lemma_table_created, lemma_table_created_kept,
    lemma_table_created_lookup,
};

verus! {

/// Whether the slot of a block of a decomposition is taken in the table
/// rooted at `root`.
pub open spec fn block_conflicts(
    access: &TableAlloc,
    root: usize,
    block: Block,
    setting: PTESetting,
) -> bool {
    conflicts(
        access@,
        access.spec_base() as int,
        (root - access.spec_base()) / 4096,
        4,
        block.vaddr as int,
        block.level as int,
        leaf_word(block.paddr, block.level as int, setting),
    )
}

/// How far a region has been mapped: in the table rooted at `table`, every
/// address of the region below `upto` has the entry that the decomposition
/// of the region gives it, and every other address, in this table and in
/// every other of the arena, has what it had before.
pub open spec fn region_mapped(
    before: &TableAlloc,
    after: &TableAlloc,
    table: usize,
    config: MapConfig,
    total: int,
    allow_block: bool,
    upto: int,
) -> bool {
    forall|root: usize, v: int|
        before.is_root(root) ==> #[trigger] after.lookup(root, v) == (if root == table
            && config.vaddr <= v < upto {
            Some(
                planned(config.vaddr as int, config.paddr as int, total, allow_block, config.setting, v),
            )
        } else {
            before.lookup(root, v)
        })
}

/// In the table rooted at `root`, the slot of none of the first `k` blocks
/// is taken.
pub open spec fn no_conflict_before(
    access: &TableAlloc,
    root: usize,
    setting: PTESetting,
    blocks: Seq<Block>,
    k: int,
) -> bool {
    forall|j: int| 0 <= j < k && j < blocks.len() ==> !#[trigger] block_conflicts(access, root, blocks[j], setting)
}

/// Where the walk for `v` first finds no table once the first `k` blocks
/// are written: where it found none before, or where the way of `v` parts
/// from that of one of the blocks, whichever is lower.
pub open spec fn gap_after(
    before: &TableAlloc,
    table: usize,
    blocks: Seq<Block>,
    k: int,
    v: int,
) -> int
    decreases k,
{
    if k <= 0 {
        gap(before@, before.spec_base() as int, (table - before.spec_base()) / 4096, 4, v)
    } else {
        let g = gap_after(before, table, blocks, k - 1, v);
        let d = diverge(blocks[k - 1].vaddr as int, v);
        if d < g {
            d
        } else {
            g
        }
    }
}

/// The tables that have to be made for block `k` when its turn comes.
pub open spec fn tables_for(before: &TableAlloc, table: usize, blocks: Seq<Block>, k: int) -> int {
    let g = gap_after(before, table, blocks, k, blocks[k].vaddr as int);
    if g > blocks[k].level {
        g - blocks[k].level
    } else {
        0
    }
}

/// The tables that have to be made for the first `k` blocks.
pub open spec fn tables_upto(before: &TableAlloc, table: usize, blocks: Seq<Block>, k: int) -> int
    decreases k,
{
    if k <= 0 {
        0
    } else {
        tables_upto(before, table, blocks, k - 1) + tables_for(before, table, blocks, k - 1)
    }
}

/// How a mapping that failed at block `k` of its decomposition left the
/// arena: the blocks before it are written, and they alone; the slot of none
/// of them was taken, and the arena had the frames for their tables; the
/// slot of block `k` was taken exactly if the error is `Conflict`; and
/// where it was not taken, the arena lacked a frame for a table of block
/// `k`. Every word of a frame that was in use is as it was, or was not
/// valid and now holds the entry of one of the blocks before `k` or the
/// entry of a table in a frame taken since.
pub open spec fn stopped_at(
    r: Result<(), MapError>,
    before: &TableAlloc,
    after: &TableAlloc,
    table: usize,
    config: MapConfig,
    total: int,
    allow_block: bool,
    k: int,
) -> bool {
    let blocks = plan(config.vaddr as int, config.paddr as int, total, allow_block);
    &&& 0 <= k < blocks.len()
    &&& no_conflict_before(before, table, config.setting, blocks, k)
    &&& region_mapped(before, after, table, config, total, allow_block, blocks[k].vaddr as int)
    &&& (r == Err::<(), MapError>(MapError::Conflict)) == block_conflicts(
        before,
        table,
        blocks[k],
        config.setting,
    )
    &&& before.spec_frames() + tables_upto(before, table, blocks, k) <= before.spec_capacity()
    &&& !block_conflicts(before, table, blocks[k], config.setting) ==> before.spec_frames()
        + tables_upto(before, table, blocks, k + 1) > before.spec_capacity()
    &&& words_kept(before, after, table, blocks, k, config.setting)
}

/// An aligned page or block that has no address in common with the span of
/// `total` bytes at `start`.
pub open spec fn block_outside(block: Block, start: int, total: int) -> bool {
    &&& 1 <= block.level <= 3
    &&& (block.vaddr as int) % level_size(block.level as int) == 0
    &&& block.vaddr + level_size(block.level as int) <= ADDRESS_LIMIT
    &&& block.vaddr + level_size(block.level as int) <= start || start + total <= block.vaddr
}

/// In the table rooted at `table`, the slot of every page or block outside
/// a span is as free or as taken as it was.
pub open spec fn outside_kept(
    before: &TableAlloc,
    after: &TableAlloc,
    table: usize,
    start: int,
    total: int,
) -> bool {
    forall|block: Block, setting: PTESetting|
        block_outside(block, start, total) ==> #[trigger] block_conflicts(
            after,
            table,
            block,
            setting,
        ) == block_conflicts(before, table, block, setting)
}

/// Once the first `k` blocks of a region are written, the walk for every
/// address outside the span of `total` bytes at `start` first finds no
/// table where `gap_after` says.
pub open spec fn gaps_outside(
    before: &TableAlloc,
    after: &TableAlloc,
    table: usize,
    blocks: Seq<Block>,
    k: int,
    start: int,
    total: int,
) -> bool {
    forall|v: int|
        0 <= v < ADDRESS_LIMIT && !(start <= v < start + total) ==> #[trigger] gap(
            after@,
            after.spec_base() as int,
            (table - after.spec_base()) / 4096,
            4,
            v,
        ) == gap_after(before, table, blocks, k, v)
}

/// What mapping a region into the table rooted at `table` comes to, and
/// what it leaves behind.
///
/// - Whatever comes of it, the arena keeps its extent, every frame in use
///   and every entry that was valid (`stays`).
/// - `Misaligned` comes exactly where a base is no multiple of the page
///   size, and then nothing is changed.
/// - On success every address of the region, taken in whole pages, has the
///   entry that the decomposition of the region gives it, every other
///   address of this and of every other table has what it had, and the slot
///   of no block of the decomposition was taken.
/// - `Conflict` and `AllocatorExhausted` come at one block of the
///   decomposition (`stopped_at`), the first whose slot was taken before
///   the call or for whose tables the arena lacks a frame: the blocks
///   before it are written, and `Conflict` it is exactly if the slot was
///   taken.
/// - `AllocatorExhausted` leaves the arena full.
/// - On success the arena has taken one frame for each table that had to
///   be made (`tables_upto`); whatever comes, it has taken no more than
///   three for each block. For every address outside the region, the walk
///   then first finds no table where the blocks have left it
///   (`gaps_outside`).
/// - The slot of every page or block outside the region is as free or as
///   taken as it was.
/// - Every word of a frame that was in use is as it was, or was not valid
///   and now holds the entry of a block that was written or the entry of a
///   table in a frame taken since (`words_kept`).
/// - So success comes exactly where the bases are aligned, the slot of no
///   block is taken, and the arena has the frames for the tables.
pub open spec fn region_outcome(
    r: Result<(), MapError>,
    before: &TableAlloc,
    after: &TableAlloc,
    table: usize,
    config: MapConfig,
    size: usize,
    allow_block: bool,
) -> bool {
    let total = span(size as int);
    let blocks = plan(config.vaddr as int, config.paddr as int, total, allow_block);
    let misaligned = config.vaddr % 4096 != 0 || config.paddr % 4096 != 0;
    &&& stays(before, after)
    &&& r is Ok || r == Err::<(), MapError>(MapError::Misaligned) || r == Err::<(), MapError>(
        MapError::Conflict,
    ) || r == Err::<(), MapError>(MapError::AllocatorExhausted)
    &&& (r == Err::<(), MapError>(MapError::Misaligned)) == misaligned
    &&& misaligned ==> after@ == before@ && after.spec_frames() == before.spec_frames()
    &&& r is Ok ==> region_mapped(
        before,
        after,
        table,
        config,
        total,
        allow_block,
        config.vaddr + total,
    ) && no_conflict_before(before, table, config.setting, blocks, blocks.len() as int)
    &&& r == Err::<(), MapError>(MapError::Conflict) || r == Err::<(), MapError>(
        MapError::AllocatorExhausted,
    ) ==> exists|k: int| #[trigger]
        stopped_at(r, before, after, table, config, total, allow_block, k)
    &&& r == Err::<(), MapError>(MapError::AllocatorExhausted) ==> after.spec_frames()
        == after.spec_capacity() && before.spec_frames() + 3 * blocks.len()
        > before.spec_capacity()
    &&& r is Ok ==> after.spec_frames() == before.spec_frames() + tables_upto(
        before,
        table,
        blocks,
        blocks.len() as int,
    )
    &&& r is Ok ==> words_kept(before, after, table, blocks, blocks.len() as int, config.setting)
    &&& r is Ok ==> gaps_outside(
        before,
        after,
        table,
        blocks,
        blocks.len() as int,
        config.vaddr as int,
        total,
    )
    &&& after.spec_frames() <= before.spec_frames() + 3 * blocks.len()
    &&& outside_kept(before, after, table, config.vaddr as int, total)
    &&& !misaligned && no_conflict_before(
        before,
        table,
        config.setting,
        blocks,
        blocks.len() as int,
    ) && before.spec_frames() + tables_upto(before, table, blocks, blocks.len() as int)
        <= before.spec_capacity() ==> r is Ok
}

impl PageTableRef {
    /// Maps the region of `size` bytes at `config.vaddr` onto the physical
    /// memory at `config.paddr`.
    ///
    /// Both bases must be multiples of the page size: otherwise nothing is
    /// done and `Misaligned` comes back. The region is taken in whole pages
    /// and cut into blocks by the greedy rule (`pick_level`), which are
    /// written first to last. Writing stops at the first block that cannot
    /// be written: with `Conflict` where its slot was taken before the call,
    /// with `AllocatorExhausted` where a table is needed and the arena is
    /// full. What was written before stays; no entry that was valid is
    /// changed. Three free frames for each block are always enough.
    pub fn map_region(
        &mut self,
        config: MapConfig,
        size: usize,
        allow_block: bool,
        access: &mut TableAlloc,
    ) -> (r: Result<(), MapError>)
        requires
            old(access).wf(),
            old(self).wf(old(access)),
            addressable(config, size),
        ensures
            *final(self) == *old(self),
            final(access).wf(),
            final(self).wf(final(access)),
            region_outcome(
                r,
                old(access),
                final(access),
                old(self).spec_paddr(),
                config,
                size,
                allow_block,
            ),
    {
        if config.vaddr % 4096 != 0 || config.paddr % 4096 != 0 {
            proof {
                lemma_region_start(
                    access,
                    self.spec_paddr(),
                    config,
                    span(size as int),
                    allow_block,
                );
            }
            return Err(MapError::Misaligned);
        }
        let setting = config.setting;
        let total: u64 = ((size as u64 + 4095) / 4096) * 4096;
        let mut va: u64 = config.vaddr as u64;
        let mut pa: u64 = config.paddr as u64;
        let mut remaining: u64 = total;
        let ghost table = self.spec_paddr();
        let ghost mut done: Seq<Block> = Seq::empty();
        proof {
            lemma_progress_start(access, table, config, size, allow_block);
        }
        while remaining > 0
            invariant
                *self == *old(self),
                table == self.spec_paddr(),
                old(access).wf(),
                access.wf(),
                self.wf(access),
                setting == config.setting,
                total == span(size as int),
                in_region(config, total as int, va as int, pa as int, remaining as int),
                words_kept(
                    old(access),
                    access,
                    table,
                    plan(config.vaddr as int, config.paddr as int, total as int, allow_block),
                    done.len() as int,
                    setting,
                ),
                gaps_outside(
                    old(access),
                    access,
                    table,
                    plan(config.vaddr as int, config.paddr as int, total as int, allow_block),
                    done.len() as int,
                    config.vaddr as int,
                    total as int,
                ),
                progress(
                    old(access),
                    access,
                    table,
                    config,
                    total as int,
                    allow_block,
                    va as int,
                    pa as int,
                    remaining as int,
                    done,
                ),
            decreases remaining,
        {
            let level: usize = choose_level(va, pa, remaining, allow_block);
            let s: u64 = size_of_level(level);
            let ghost before = *access;
            proof {
                lemma_block_step(va as int, pa as int, remaining as int, allow_block);
            }
            let result = self.map_block(access, va as usize, pa as usize, level, setting);
            proof {
                lemma_step_block(
                    result,
                    old(access),
                    &before,
                    access,
                    table,
                    config,
                    total as int,
                    allow_block,
                    va as int,
                    pa as int,
                    remaining as int,
                    done,
                );
                lemma_words_step(
                    old(access),
                    &before,
                    access,
                    table,
                    plan(config.vaddr as int, config.paddr as int, total as int, allow_block),
                    done.len() as int,
                    result is Ok,
                    setting,
                );
            }
            match result {
                Err(e) => {
                    proof {
                        lemma_progress_failed(
                            result,
                            old(access),
                            &before,
                            access,
                            table,
                            config,
                            size,
                            allow_block,
                            va as int,
                            pa as int,
                            remaining as int,
                            done,
                        );
                    }
                    return Err(e);
                },
                Ok(()) => {},
            }
            proof {
                lemma_step_outside(
                    old(access),
                    &before,
                    access,
                    table,
                    plan(config.vaddr as int, config.paddr as int, total as int, allow_block),
                    done.len() as int,
                    Block { vaddr: va as usize, paddr: pa as usize, level },
                    setting,
                    config.vaddr as int,
                    total as int,
                );
                lemma_progress_step(
                    old(access),
                    &before,
                    access,
                    table,
                    config,
                    total as int,
                    allow_block,
                    va as int,
                    pa as int,
                    remaining as int,
                    done,
                );
                done = done.push(Block { vaddr: va as usize, paddr: pa as usize, level });
            }
            va = va + s;
            pa = pa + s;
            remaining = remaining - s;
        }
        proof {
            lemma_progress_done(
                old(access),
                access,
                table,
                config,
                size,
                allow_block,
                va as int,
                pa as int,
                done,
            );
        }
        Ok(())
    }
}

impl PageTableRef {
    /// The level of the first empty entry that the walk for `vaddr` meets;
    /// 0 where it meets none.
    pub fn first_gap(&self, access: &TableAlloc, vaddr: usize) -> (g: usize)
        requires
            access.wf(),
            self.wf(access),
            vaddr < ADDRESS_LIMIT,
        ensures
            g == gap(
                access@,
                access.spec_base() as int,
                (self.spec_paddr() - access.spec_base()) / 4096,
                4,
                vaddr as int,
            ),
            g <= 4,
    {
        let ghost base = access.spec_base() as int;
        let ghost rootf = (self.spec_paddr() - base) / 4096;
        let mut cur: usize = (self.paddr() - access.base()) / 4096;
        let mut lvl: usize = 4;
        proof {
            assert(frame_ok(access.frame_info(), cur as int));
        }
        loop
            invariant
                access.wf(),
                base == access.spec_base(),
                rootf == (self.spec_paddr() - base) / 4096,
                1 <= lvl <= 4,
                0 <= vaddr < ADDRESS_LIMIT,
                0 <= cur < access.spec_frames(),
                access.frame_info()[cur as int].level == lvl,
                access.frame_info()[cur as int].vbase <= vaddr < access.frame_info()[cur as int].vbase
                    + level_size(lvl + 1),
                gap(access@, base, rootf, 4, vaddr as int) == gap(
                    access@,
                    base,
                    cur as int,
                    lvl as int,
                    vaddr as int,
                ),
            decreases lvl,
        {
            let idx: usize = index_of(vaddr, lvl);
            proof {
                assert(frame_ok(access.frame_info(), cur as int));
                assert(entry_ok(access@, base, access.frame_info(), cur as int, idx as int));
                lemma_index_region(access.frame_info()[cur as int].vbase, vaddr as int, lvl as int);
            }
            let w: u64 = access.word(cur, idx);
            let d = PageTableImpl::read_pte(w);
            if !d.is_valid {
                return lvl;
            }
            if lvl > 1 && !d.is_block {
                proof {
                    let c = child_frame(base, w);
                    assert(frame_ok(access.frame_info(), c));
                }
                cur = (d.paddr - access.base()) / 4096;
                lvl = lvl - 1;
            } else {
                return 0;
            }
        }
    }

    /// The number of table frames that mapping a region would take, were no
    /// slot taken and the arena large enough: `map_region` succeeds exactly
    /// where the slot of no block is taken and the arena has that many free
    /// frames.
    pub fn tables_needed(
        &self,
        access: &TableAlloc,
        config: &MapConfig,
        size: usize,
        allow_block: bool,
    ) -> (n: usize)
        requires
            access.wf(),
            self.wf(access),
            addressable(*config, size),
            config.vaddr % 4096 == 0,
            config.paddr % 4096 == 0,
        ensures
            n == tables_upto(
                access,
                self.spec_paddr(),
                plan(config.vaddr as int, config.paddr as int, span(size as int), allow_block),
                plan(config.vaddr as int, config.paddr as int, span(size as int), allow_block).len() as int,
            ),
    {
        let total: u64 = ((size as u64 + 4095) / 4096) * 4096;
        let mut va: u64 = config.vaddr as u64;
        let mut pa: u64 = config.paddr as u64;
        let mut remaining: u64 = total;
        let mut prev: u64 = va;
        let mut n: usize = 0;
        let ghost table = self.spec_paddr();
        let ghost va0 = config.vaddr as int;
        let ghost pa0 = config.paddr as int;
        let ghost full = plan(va0, pa0, total as int, allow_block);
        let ghost mut done: Seq<Block> = Seq::empty();
        proof {
            assert(done + full =~= full);
        }
        while remaining > 0
            invariant
                access.wf(),
                self.wf(access),
                table == self.spec_paddr(),
                total == span(size as int),
                va0 == config.vaddr,
                pa0 == config.paddr,
                va0 % 4096 == 0,
                pa0 % 4096 == 0,
                va0 + total <= ADDRESS_LIMIT,
                pa0 + total <= ADDRESS_LIMIT,
                va0 + total <= usize::MAX,
                pa0 + total <= usize::MAX,
                va % 4096 == 0,
                pa % 4096 == 0,
                remaining % 4096 == 0,
                va0 <= va,
                va + remaining == va0 + total,
                pa + remaining == pa0 + total,
                full == plan(va0, pa0, total as int, allow_block),
                full =~= done + plan(va as int, pa as int, remaining as int, allow_block),
                done.len() > 0 ==> prev == done[done.len() - 1].vaddr && prev <= va,
                n == tables_upto(access, table, full, done.len() as int),
                n <= 3 * done.len(),
                3 * done.len() <= 3 * (va - va0) / 4096,
            decreases remaining,
        {
            let level: usize = choose_level(va, pa, remaining, allow_block);
            let s: u64 = size_of_level(level);
            let ghost block = Block { vaddr: va as usize, paddr: pa as usize, level };
            let ghost k = done.len() as int;
            proof {
                lemma_block_step(va as int, pa as int, remaining as int, allow_block);
                let rest = plan(va + s, pa + s, remaining - s, allow_block);
                assert(done.push(block) + rest =~= done + (seq![block] + rest));
                assert(full[k] == block);
                if k > 0 {
                    assert(full[k - 1] == done[k - 1]);
                    lemma_gap_after_last(access, table, va0, pa0, total as int, allow_block, k, va as int);
                }
                assert(tables_upto(access, table, full, k + 1) == tables_upto(access, table, full, k)
                    + tables_for(access, table, full, k));
            }
            let found: usize = self.first_gap(access, va as usize);
            let parted: usize = if va == config.vaddr as u64 {
                found
            } else {
                diverge_of(prev, va)
            };
            let g: usize = if parted < found {
                parted
            } else {
                found
            };
            if g > level {
                n = n + (g - level);
            }
            proof {
                done = done.push(block);
            }
            prev = va;
            va = va + s;
            pa = pa + s;
            remaining = remaining - s;
        }
        proof {
            assert(full =~= done);
        }
        n
    }
}

/// From `va` on, what is left of a region is decomposed as the region is.
spec fn planned_agrees(
    config: MapConfig,
    total: int,
    allow_block: bool,
    va: int,
    pa: int,
    remaining: int,
) -> bool {
    forall|v: int|
        va <= v < va + remaining ==> #[trigger] planned(
            config.vaddr as int,
            config.paddr as int,
            total,
            allow_block,
            config.setting,
            v,
        ) == planned(va, pa, remaining, allow_block, config.setting, v)
}

/// The slot of each block that is still to be written is as free or as
/// taken as it was at the start.
spec fn tail_kept(
    start: &TableAlloc,
    now: &TableAlloc,
    table: usize,
    setting: PTESetting,
    blocks: Seq<Block>,
) -> bool {
    forall|k: int|
        0 <= k < blocks.len() ==> #[trigger] block_conflicts(now, table, blocks[k], setting)
            == block_conflicts(start, table, blocks[k], setting)
}

/// For each block that is still to be written, the walk first finds no
/// table where `gap_after` says.
spec fn gaps_tracked(
    start: &TableAlloc,
    now: &TableAlloc,
    table: usize,
    full: Seq<Block>,
    k: int,
    tail: Seq<Block>,
) -> bool {
    forall|j: int|
        0 <= j < tail.len() ==> gap(
            now@,
            now.spec_base() as int,
            (table - now.spec_base()) / 4096,
            4,
            (#[trigger] tail[j]).vaddr as int,
        ) == gap_after(start, table, full, k, tail[j].vaddr as int)
}

/// Where the mapping of a region stands in the region: `remaining` bytes
/// from `va` on, in whole pages, are still to be mapped.
spec fn in_region(config: MapConfig, total: int, va: int, pa: int, remaining: int) -> bool {
    &&& va % 4096 == 0
    &&& pa % 4096 == 0
    &&& remaining % 4096 == 0
    &&& 0 <= remaining
    &&& config.vaddr <= va
    &&& va + remaining == config.vaddr + total
    &&& pa + remaining == config.paddr + total
    &&& config.vaddr + total <= ADDRESS_LIMIT
    &&& config.paddr + total <= ADDRESS_LIMIT
    &&& config.vaddr + total <= usize::MAX
    &&& config.paddr + total <= usize::MAX
}

/// How far the mapping of a region has come: the blocks `done` are
/// written, and what is left is still to be mapped.
#[verifier::opaque]
spec fn progress(
    start: &TableAlloc,
    now: &TableAlloc,
    table: usize,
    config: MapConfig,
    total: int,
    allow_block: bool,
    va: int,
    pa: int,
    remaining: int,
    done: Seq<Block>,
) -> bool {
    let full = plan(config.vaddr as int, config.paddr as int, total, allow_block);
    let tail = plan(va, pa, remaining, allow_block);
    &&& stays(start, now)
    &&& full =~= done + tail
    &&& now.spec_frames() <= start.spec_frames() + 3 * done.len()
    &&& region_mapped(start, now, table, config, total, allow_block, va)
    &&& planned_agrees(config, total, allow_block, va, pa, remaining)
    &&& no_conflict_before(start, table, config.setting, full, done.len() as int)
    &&& outside_kept(start, now, table, config.vaddr as int, total)
    &&& now.spec_frames() == start.spec_frames() + tables_upto(
        start,
        table,
        full,
        done.len() as int,
    )
    &&& tail_kept(start, now, table, config.setting, tail)
    &&& gaps_tracked(start, now, table, full, done.len() as int, tail)
}

/// What the lemmas on one step of the mapping start from: the progress so
/// far, and what came of writing the next block.
spec fn stepped(
    r: Result<(), MapError>,
    start: &TableAlloc,
    before: &TableAlloc,
    after: &TableAlloc,
    table: usize,
    config: MapConfig,
    total: int,
    allow_block: bool,
    va: int,
    pa: int,
    remaining: int,
    done: Seq<Block>,
) -> bool {
    &&& in_region(config, total, va, pa, remaining)
    &&& progress(start, before, table, config, total, allow_block, va, pa, remaining, done)
    &&& 0 < remaining
    &&& before.wf()
    &&& before.is_root(table)
    &&& block_outcome(
        r,
        before,
        after,
        table,
        va as usize,
        pa as usize,
        pick_level(va, pa, remaining, allow_block) as usize,
        config.setting,
    )
}

/// The one block at `va` of the given level onto `pa`.
spec fn one_block(va: usize, pa: usize, level: usize) -> Seq<Block> {
    seq![Block { vaddr: va, paddr: pa, level }]
}

/// What writing one block comes to, and what it leaves behind.
spec fn block_outcome(
    r: Result<(), MapError>,
    before: &TableAlloc,
    after: &TableAlloc,
    table: usize,
    va: usize,
    pa: usize,
    level: usize,
    setting: PTESetting,
) -> bool {
    let base = before.spec_base() as int;
    let rootf = (table - before.spec_base()) / 4096;
    let word = leaf_word(pa, level as int, setting);
    let taken = conflicts(before@, base, rootf, 4, va as int, level as int, word);
    let needed = missing(before@, base, rootf, 4, va as int, level as int);
    &&& stays(before, after)
    &&& after.spec_frames() <= before.spec_frames() + 3
    &&& r is Err ==> forall|root: usize, v: int|
        before.is_root(root) ==> #[trigger] after.lookup(root, v) == before.lookup(root, v)
    &&& r is Ok ==> forall|root: usize, v: int|
        before.is_root(root) ==> #[trigger] after.lookup(root, v) == (if root == table && va <= v
            < va + level_size(level as int) {
            Some((level as int, word))
        } else {
            before.lookup(root, v)
        })
    &&& r is Ok || r == Err::<(), MapError>(MapError::Conflict) || r == Err::<(), MapError>(
        MapError::AllocatorExhausted,
    )
    &&& (r == Err::<(), MapError>(MapError::Conflict)) == taken
    &&& r == Err::<(), MapError>(MapError::Conflict) ==> after@ == before@
    &&& (r == Err::<(), MapError>(MapError::AllocatorExhausted)) == (!taken
        && before.spec_frames() + needed > before.spec_capacity())
    &&& r == Err::<(), MapError>(MapError::AllocatorExhausted) ==> after.spec_frames()
        == after.spec_capacity() && after.spec_frames() <= before.spec_frames() + 2
    &&& conflicts_kept(before@, after@, base, rootf, va as int, level as int)
    &&& r is Ok ==> after.spec_frames() == before.spec_frames() + needed
    &&& r is Ok ==> gaps_after(before@, after@, base, rootf, va as int, level as int)
}

impl PageTableRef {
    /// Writes one entry: the mapping of the aligned block at `va` of the
    /// given level onto `pa`. Tables on the way are made as needed.
    fn map_block(
        &self,
        access: &mut TableAlloc,
        va: usize,
        pa: usize,
        level: usize,
        setting: PTESetting,
    ) -> (r: Result<(), MapError>)
        requires
            old(access).wf(),
            self.wf(old(access)),
            1 <= level <= 3,
            (va as int) % level_size(level as int) == 0,
            pa % 4096 == 0,
            va + level_size(level as int) <= ADDRESS_LIMIT,
            pa < ADDRESS_LIMIT,
        ensures
            final(access).wf(),
            self.wf(final(access)),
            block_outcome(
                r,
                old(access),
                final(access),
                self.spec_paddr(),
                va,
                pa,
                level,
                setting,
            ),
            words_kept(old(access), final(access), self.spec_paddr(), one_block(va, pa, level), if r is Ok {
                1
            } else {
                0
            }, setting),
    {
        let word: u64 = PageTableImpl::new_pte(
            PTEGeneric { paddr: pa, is_block: level > 1, is_valid: true, setting },
        );
        let rootf: usize = (self.paddr() - access.base()) / 4096;
        let ghost base = access.spec_base() as int;
        let ghost capacity = access.spec_capacity() as int;
        let ghost size = level_size(level as int);
        let mut cur: usize = rootf;
        let mut lvl: usize = 4;
        let ghost mut fresh = false;
        let ghost mut top: int = 4;
        proof {
            crate::pte::lemma_fields(
                PTEGeneric { paddr: pa, is_block: level > 1, is_valid: true, setting },
            );
            assert(frame_ok(access.frame_info(), rootf as int));
        }
        while lvl > level
            invariant
                access.wf(),
                self.wf(access),
                self.wf(old(access)),
                old(access).wf(),
                access.spec_base() == base == old(access).spec_base(),
                access.spec_capacity() == capacity == old(access).spec_capacity(),
                access.spec_frames() >= old(access).spec_frames(),
                stays(old(access), access),
                rootf == (self.spec_paddr() - base) / 4096,
                word == leaf_word(pa, level as int, setting),
                words_kept(old(access), access, self.spec_paddr(), one_block(va, pa, level), 0, setting),
                access.spec_frames() <= old(access).spec_frames() + (4 - lvl),
                conflicts_kept(old(access)@, access@, base, rootf as int, va as int, level as int),
                1 <= level <= lvl <= 4,
                level <= 3,
                size == level_size(level as int),
                (va as int) % size == 0,
                va + size <= ADDRESS_LIMIT,
                0 <= cur < access.spec_frames(),
                access.frame_info()[cur as int].level == lvl,
                access.frame_info()[cur as int].root == rootf,
                access.frame_info()[cur as int].vbase <= va < access.frame_info()[cur as int].vbase
                    + level_size(lvl + 1),
                descend(access@, base, rootf as int, 4, va as int, lvl as int) == Some(cur as int),
                forall|root: usize, v: int|
                    old(access).is_root(root) ==> #[trigger] access.lookup(root, v) == old(access).lookup(root, v),
                !fresh ==> access@ == old(access)@ && access.frame_info() == old(access).frame_info() && conflicts(
                    old(access)@,
                    base,
                    rootf as int,
                    4,
                    va as int,
                    level as int,
                    word,
                ) == conflicts(old(access)@, base, cur as int, lvl as int, va as int, level as int, word),
                !fresh ==> missing(old(access)@, base, rootf as int, 4, va as int, level as int)
                    == missing(old(access)@, base, cur as int, lvl as int, va as int, level as int),
                gaps_moved(old(access)@, access@, base, rootf as int, va as int, top, lvl as int),
                !fresh ==> top == lvl && gap(old(access)@, base, rootf as int, 4, va as int) == gap(
                    old(access)@,
                    base,
                    cur as int,
                    lvl as int,
                    va as int,
                ),
                fresh ==> top > lvl && gap(old(access)@, base, rootf as int, 4, va as int) == top,
                fresh ==> missing(old(access)@, base, rootf as int, 4, va as int, level as int)
                    == access.spec_frames() - old(access).spec_frames() + (lvl - level),
                fresh ==> cur >= old(access).spec_frames() && !conflicts(
                    old(access)@,
                    base,
                    rootf as int,
                    4,
                    va as int,
                    level as int,
                    word,
                ) && forall|i: int| 0 <= i < 512 ==> word_at(access@, cur as int, i) == 0,
            decreases lvl,
        {
            let idx: usize = index_of(va, lvl);
            proof {
                assert(frame_ok(access.frame_info(), cur as int));
                assert(entry_ok(access@, base, access.frame_info(), cur as int, idx as int));
                lemma_index_region(access.frame_info()[cur as int].vbase, va as int, lvl as int);
            }
            let w: u64 = access.word(cur, idx);
            let d = PageTableImpl::read_pte(w);
            if d.is_valid {
                if d.is_block {
                    proof {
                        lemma_zero_word();
                        assert(!fresh);
                        assert(conflicts(
                            old(access)@,
                            base,
                            cur as int,
                            lvl as int,
                            va as int,
                            level as int,
                            word,
                        ));
                    }
                    return Err(MapError::Conflict);
                }
                proof {
                    lemma_zero_word();
                    lemma_descend_step(
                        access@,
                        base,
                        rootf as int,
                        4,
                        va as int,
                        lvl as int,
                        cur as int,
                    );
                    let c = child_frame(base, w);
                    assert(frame_ok(access.frame_info(), c));
                    assert(!fresh);
                    top = lvl - 1;
                }
                cur = (d.paddr - access.base()) / 4096;
            } else {
                let ghost before = *access;
                let ghost fi = FrameInfo {
                    root: rootf as int,
                    level: lvl - 1,
                    vbase: access.frame_info()[cur as int].vbase + idx * level_size(lvl as int),
                };
                match access.take_frame(Ghost(fi)) {
                    None => {
                        proof {
                            assert(!fresh ==> !conflicts(
                                old(access)@,
                                base,
                                cur as int,
                                lvl as int,
                                va as int,
                                level as int,
                                word,
                            ));
                            assert(!fresh ==> missing(
                                old(access)@,
                                base,
                                cur as int,
                                lvl as int,
                                va as int,
                                level as int,
                            ) == lvl - level);
                            assert forall|root: usize, v: int| old(access).is_root(root) implies #[trigger] access.lookup(
                                root,
                                v,
                            ) == old(access).lookup(root, v) by {
                                assert(before.lookup(root, v) == old(access).lookup(root, v));
                            }
                        }
                        return Err(MapError::AllocatorExhausted);
                    },
                    Some(c) => {
                        let ghost grown = *access;
                        let addr: usize = access.frame_addr(c);
                        let tw: u64 = PageTableImpl::new_pte(
                            PTEGeneric { paddr: addr, is_block: false, is_valid: true, setting },
                        );
                        access.store(cur, idx, tw);
                        proof {
                            assert(frame_word(base, c as int, setting, tw));
                            assert((cur * 512 + idx) / 512 == cur);
                            lemma_frame_taken(
                                old(access),
                                &before,
                                &grown,
                                self.spec_paddr(),
                                one_block(va, pa, level),
                                0,
                                setting,
                            );
                            lemma_word_stored(
                                old(access),
                                &grown,
                                access,
                                self.spec_paddr(),
                                cur * 512 + idx,
                                tw,
                                one_block(va, pa, level),
                                0,
                                0,
                                setting,
                            );
                            lemma_zero_word();
                            lemma_table_created(
                                before,
                                grown,
                                *access,
                                cur as int,
                                idx as int,
                                c as int,
                                tw,
                                setting,
                            );
                            assert forall|root: usize, v: int| old(access).is_root(root) implies #[trigger] access.lookup(
                                root,
                                v,
                            ) == old(access).lookup(root, v) by {
                                assert(before.lookup(root, v) == old(access).lookup(root, v));
                                assert(before.is_root(root));
                                lemma_table_created_lookup(
                                    before,
                                    grown,
                                    *access,
                                    cur as int,
                                    idx as int,
                                    c as int,
                                    tw,
                                    setting,
                                    root,
                                    v,
                                );
                            }
                            lemma_descend_stable(
                                access@,
                                grown@,
                                base,
                                capacity,
                                grown.frame_info(),
                                cur as int,
                                idx as int,
                                rootf as int,
                                4,
                                va as int,
                                lvl as int,
                            );
                            lemma_descend_stable(
                                grown@,
                                before@,
                                base,
                                capacity,
                                before.frame_info(),
                                cur as int,
                                idx as int,
                                rootf as int,
                                4,
                                va as int,
                                lvl as int,
                            );
                            lemma_descend_step(
                                access@,
                                base,
                                rootf as int,
                                4,
                                va as int,
                                lvl as int,
                                cur as int,
                            );
                            lemma_table_created_kept(
                                before,
                                grown,
                                *access,
                                cur as int,
                                idx as int,
                                c as int,
                                tw,
                                setting,
                                rootf as int,
                                va as int,
                                level as int,
                            );
                            lemma_kept_trans(
                                old(access)@,
                                before@,
                                access@,
                                base,
                                rootf as int,
                                va as int,
                                level as int,
                            );
                            assert(!fresh ==> missing(
                                old(access)@,
                                base,
                                cur as int,
                                lvl as int,
                                va as int,
                                level as int,
                            ) == lvl - level);
                            assert(!fresh ==> gap(old(access)@, base, cur as int, lvl as int, va as int)
                                == lvl);
                            lemma_gaps_after_table(
                                old(access)@,
                                before,
                                grown,
                                *access,
                                cur as int,
                                idx as int,
                                c as int,
                                tw,
                                setting,
                                rootf as int,
                                va as int,
                                top,
                            );
                            fresh = true;
                        }
                        cur = c;
                    },
                }
            }
            lvl = lvl - 1;
        }
        let idx: usize = index_of(va, level);
        proof {
            assert(frame_ok(access.frame_info(), cur as int));
            assert(entry_ok(access@, base, access.frame_info(), cur as int, idx as int));
            lemma_index_region(access.frame_info()[cur as int].vbase, va as int, level as int);
            lemma_zero_word();
        }
        let w: u64 = access.word(cur, idx);
        let d = PageTableImpl::read_pte(w);
        if d.is_valid && w != word {
            return Err(MapError::Conflict);
        }
        let ghost before = *access;
        access.store(cur, idx, word);
        proof {
            assert(block_word(one_block(va, pa, level)[0], setting, word));
            assert((cur * 512 + idx) / 512 == cur);
            lemma_word_stored(
                old(access),
                &before,
                access,
                self.spec_paddr(),
                cur * 512 + idx,
                word,
                one_block(va, pa, level),
                0,
                1,
                setting,
            );
            lemma_leaf_written(before, *access, cur as int, idx as int, word);
            lemma_missing_is_gap(old(access)@, base, cur as int, level as int, va as int, 1);
            crate::table::steps::lemma_aligned_in_slot(
                before.frame_info()[cur as int].vbase + idx * level_size(level as int),
                va as int,
                level_size(level as int),
            );
            lemma_gaps_after_leaf(
                old(access)@,
                before,
                *access,
                cur as int,
                idx as int,
                word,
                rootf as int,
                va as int,
                level as int,
                top,
            );
            lemma_leaf_written_kept(
                before,
                *access,
                cur as int,
                idx as int,
                word,
                rootf as int,
                va as int,
                level as int,
            );
            lemma_kept_trans(
                old(access)@,
                before@,
                access@,
                base,
                rootf as int,
                va as int,
                level as int,
            );
            assert forall|root: usize, v: int| old(access).is_root(root) implies #[trigger] access.lookup(
                root,
                v,
            ) == (if root == self.spec_paddr() && va <= v < va + size {
                Some((level as int, word))
            } else {
                old(access).lookup(root, v)
            }) by {
                assert(before.lookup(root, v) == old(access).lookup(root, v));
                assert(before.is_root(root));
                lemma_leaf_written_lookup(
                    before,
                    *access,
                    cur as int,
                    idx as int,
                    word,
                    self.spec_paddr(),
                    va as int,
                    level as int,
                    root,
                    v,
                );
            }
        }
        Ok(())
    }
}

/// The highest level at which two addresses fall in different slots.
fn diverge_of(u: u64, v: u64) -> (d: usize)
    ensures
        d == diverge(u as int, v as int),
{
    if u / 0x80_0000_0000 != v / 0x80_0000_0000 {
        4
    } else if u / 0x4000_0000 != v / 0x4000_0000 {
        3
    } else if u / 0x20_0000 != v / 0x20_0000 {
        2
    } else if u / 0x1000 != v / 0x1000 {
        1
    } else {
        0
    }
}

/// No table is counted twice, and none is taken back: the count grows with
/// the blocks.
pub(crate) proof fn lemma_tables_grow(
    before: &TableAlloc,
    table: usize,
    blocks: Seq<Block>,
    i: int,
    n: int,
)
    requires
        0 <= i <= n,
    ensures
        0 <= tables_upto(before, table, blocks, i) <= tables_upto(before, table, blocks, n),
    decreases n,
{
    if i < n {
        lemma_tables_grow(before, table, blocks, i, n - 1);
    } else if n > 0 {
        lemma_tables_grow(before, table, blocks, n - 1, n - 1);
    }
}

proof fn lemma_progress_start(
    access: &TableAlloc,
    table: usize,
    config: MapConfig,
    size: usize,
    allow_block: bool,
)
    requires
        addressable(config, size),
        config.vaddr % 4096 == 0,
        config.paddr % 4096 == 0,
    ensures
        in_region(
            config,
            span(size as int),
            config.vaddr as int,
            config.paddr as int,
            span(size as int),
        ),
        progress(
            access,
            access,
            table,
            config,
            span(size as int),
            allow_block,
            config.vaddr as int,
            config.paddr as int,
            span(size as int),
            Seq::empty(),
        ),
{
    reveal(progress);
    let total = span(size as int);
    let full = plan(config.vaddr as int, config.paddr as int, total, allow_block);
    assert(Seq::<Block>::empty() + full =~= full);
    lemma_region_start(access, table, config, total, allow_block);
}

/// The block that a step writes is the next of the decomposition, and its
/// slot is as free or as taken as it was at the start.
proof fn lemma_step_block(
    r: Result<(), MapError>,
    start: &TableAlloc,
    before: &TableAlloc,
    after: &TableAlloc,
    table: usize,
    config: MapConfig,
    total: int,
    allow_block: bool,
    va: int,
    pa: int,
    remaining: int,
    done: Seq<Block>,
)
    requires
        stepped(r, start, before, after, table, config, total, allow_block, va, pa, remaining, done),
    ensures
        ({
            let full = plan(config.vaddr as int, config.paddr as int, total, allow_block);
            let level = pick_level(va, pa, remaining, allow_block);
            let s = level_size(level);
            let block = Block { vaddr: va as usize, paddr: pa as usize, level: level as usize };
            let k = done.len() as int;
            &&& 0 <= k < full.len()
            &&& full[k] == block
            &&& plan(va, pa, remaining, allow_block) == seq![block] + plan(
                va + s,
                pa + s,
                remaining - s,
                allow_block,
            )
            &&& full =~= done.push(block) + plan(va + s, pa + s, remaining - s, allow_block)
            &&& 1 <= level <= 3
            &&& 4096 <= s <= remaining
            &&& va % s == 0
            &&& in_region(config, total, va + s, pa + s, remaining - s)
            &&& block_conflicts(before, table, block, config.setting) == block_conflicts(
                start,
                table,
                block,
                config.setting,
            )
            &&& gap(
                before@,
                before.spec_base() as int,
                (table - before.spec_base()) / 4096,
                4,
                va,
            ) == gap_after(start, table, full, k, va)
            &&& before.spec_frames() == start.spec_frames() + tables_upto(start, table, full, k)
            &&& before.spec_frames() <= start.spec_frames() + 3 * k
            &&& no_conflict_before(start, table, config.setting, full, k)
            &&& stays(start, before)
            &&& stays(before, after)
        }),
{
    reveal(progress);
    let level = pick_level(va, pa, remaining, allow_block);
    let s = level_size(level);
    let block = Block { vaddr: va as usize, paddr: pa as usize, level: level as usize };
    let tail = plan(va, pa, remaining, allow_block);
    let rest = plan(va + s, pa + s, remaining - s, allow_block);
    lemma_block_step(va, pa, remaining, allow_block);
    assert(tail[0] == block);
    assert(done.push(block) + rest =~= done + (seq![block] + rest));
}

/// After a step that wrote its block: the region is mapped up to the end of
/// the block, and the rest of the decomposition is that of the rest of the
/// region.
proof fn lemma_step_mapped(
    start: &TableAlloc,
    before: &TableAlloc,
    after: &TableAlloc,
    table: usize,
    config: MapConfig,
    total: int,
    allow_block: bool,
    va: int,
    pa: int,
    remaining: int,
    done: Seq<Block>,
)
    requires
        stepped(
            Ok::<(), MapError>(()),
            start,
            before,
            after,
            table,
            config,
            total,
            allow_block,
            va,
            pa,
            remaining,
            done,
        ),
    ensures
        ({
            let s = level_size(pick_level(va, pa, remaining, allow_block));
            &&& region_mapped(start, after, table, config, total, allow_block, va + s)
            &&& planned_agrees(config, total, allow_block, va + s, pa + s, remaining - s)
            &&& stays(start, after)
        }),
{
    reveal(progress);
    lemma_region_advance(
        start,
        before,
        after,
        table,
        config,
        total,
        allow_block,
        va,
        pa,
        remaining,
    );
}

/// After a step, whatever came of it: the slots of the blocks that are
/// still to be written, and those outside the region, are as free or as
/// taken as they were at the start.
proof fn lemma_step_slots(
    r: Result<(), MapError>,
    start: &TableAlloc,
    before: &TableAlloc,
    after: &TableAlloc,
    table: usize,
    config: MapConfig,
    total: int,
    allow_block: bool,
    va: int,
    pa: int,
    remaining: int,
    done: Seq<Block>,
)
    requires
        stepped(r, start, before, after, table, config, total, allow_block, va, pa, remaining, done),
    ensures
        ({
            let s = level_size(pick_level(va, pa, remaining, allow_block));
            &&& tail_kept(
                start,
                after,
                table,
                config.setting,
                plan(va + s, pa + s, remaining - s, allow_block),
            )
            &&& outside_kept(start, after, table, config.vaddr as int, total)
        }),
{
    reveal(progress);
    let level = pick_level(va, pa, remaining, allow_block);
    lemma_block_step(va, pa, remaining, allow_block);
    lemma_tail_step(start, before, after, table, config.setting, va, pa, remaining, allow_block);
    lemma_outside_step(start, before, after, table, config.vaddr as int, total, va, level);
}

/// What writing block `k` does to the count of frames and to the first
/// empty entries on the ways of the blocks after it.
proof fn lemma_step_tables(
    start: &TableAlloc,
    before: &TableAlloc,
    after: &TableAlloc,
    table: usize,
    full: Seq<Block>,
    k: int,
    tail: Seq<Block>,
    rest: Seq<Block>,
    setting: PTESetting,
)
    requires
        before.wf(),
        before.is_root(table),
        start.spec_base() == before.spec_base() == after.spec_base(),
        0 <= k < full.len(),
        tail.len() == rest.len() + 1,
        full[k] == tail[0],
        forall|j: int| 0 <= j < rest.len() ==> rest[j] == #[trigger] tail[j + 1],
        1 <= tail[0].level <= 3,
        (tail[0].vaddr as int) % level_size(tail[0].level as int) == 0,
        tail[0].vaddr + level_size(tail[0].level as int) <= ADDRESS_LIMIT,
        forall|j: int|
            0 <= j < rest.len() ==> tail[0].vaddr + level_size(tail[0].level as int) <= (
            #[trigger] rest[j]).vaddr < ADDRESS_LIMIT,
        gaps_tracked(start, before, table, full, k, tail),
        before.spec_frames() == start.spec_frames() + tables_upto(start, table, full, k),
        block_outcome(
            Ok::<(), MapError>(()),
            before,
            after,
            table,
            tail[0].vaddr,
            tail[0].paddr,
            tail[0].level,
            setting,
        ),
    ensures
        gaps_tracked(start, after, table, full, k + 1, rest),
        after.spec_frames() == start.spec_frames() + tables_upto(start, table, full, k + 1),
{
    let base = before.spec_base() as int;
    let rootf = (table - before.spec_base()) / 4096;
    let va = tail[0].vaddr as int;
    let level = tail[0].level as int;
    let word = leaf_word(tail[0].paddr, level, setting);
    lemma_missing_is_gap(before@, base, rootf, 4, va, level);
    assert(gap(before@, base, rootf, 4, va) == gap_after(start, table, full, k, va));
    assert(tables_upto(start, table, full, k + 1) == tables_upto(start, table, full, k)
        + tables_for(start, table, full, k));
    lemma_free_is_not_blocked(before@, base, rootf, 4, va, level, word);
    assert forall|j: int| 0 <= j < rest.len() implies gap(
        after@,
        after.spec_base() as int,
        (table - after.spec_base()) / 4096,
        4,
        (#[trigger] rest[j]).vaddr as int,
    ) == gap_after(start, table, full, k + 1, rest[j].vaddr as int) by {
        let v = rest[j].vaddr as int;
        assert(rest[j] == tail[j + 1]);
        assert(gap(before@, base, rootf, 4, tail[j + 1].vaddr as int) == gap_after(
            start,
            table,
            full,
            k,
            tail[j + 1].vaddr as int,
        ));
        lemma_outside_diverges(va, v, level);
        lemma_top_slot(va);
        lemma_top_slot(v);
        lemma_shared_way(
            before@,
            base,
            before.spec_capacity() as int,
            before.frame_info(),
            rootf,
            4,
            va,
            v,
        );
        if blocked(before@, base, rootf, 4, va, diverge(va, v)) {
            lemma_blocked_above(before@, base, rootf, 4, va, level, diverge(va, v));
        }
        assert(gap(after@, base, rootf, 4, v) == (if diverge(va, v) < gap(
            before@,
            base,
            rootf,
            4,
            va,
        ) {
            diverge(va, v)
        } else {
            gap(before@, base, rootf, 4, v)
        }));
    }
}

/// After a step that wrote its block: the first empty entries on the ways
/// of the addresses outside the region are where `gap_after` says.
proof fn lemma_step_outside(
    start: &TableAlloc,
    before: &TableAlloc,
    after: &TableAlloc,
    table: usize,
    full: Seq<Block>,
    k: int,
    block: Block,
    setting: PTESetting,
    lo: int,
    total: int,
)
    requires
        before.wf(),
        before.is_root(table),
        start.spec_base() == before.spec_base() == after.spec_base(),
        0 <= k < full.len(),
        full[k] == block,
        1 <= block.level <= 3,
        (block.vaddr as int) % level_size(block.level as int) == 0,
        block.vaddr + level_size(block.level as int) <= ADDRESS_LIMIT,
        lo <= block.vaddr,
        block.vaddr + level_size(block.level as int) <= lo + total,
        gaps_outside(start, before, table, full, k, lo, total),
        gap(
            before@,
            before.spec_base() as int,
            (table - before.spec_base()) / 4096,
            4,
            block.vaddr as int,
        ) == gap_after(start, table, full, k, block.vaddr as int),
        block_outcome(
            Ok::<(), MapError>(()),
            before,
            after,
            table,
            block.vaddr,
            block.paddr,
            block.level,
            setting,
        ),
    ensures
        gaps_outside(start, after, table, full, k + 1, lo, total),
{
    let base = before.spec_base() as int;
    let rootf = (table - before.spec_base()) / 4096;
    let va = block.vaddr as int;
    let level = block.level as int;
    let word = leaf_word(block.paddr, level, setting);
    lemma_free_is_not_blocked(before@, base, rootf, 4, va, level, word);
    assert forall|v: int| 0 <= v < ADDRESS_LIMIT && !(lo <= v < lo + total) implies #[trigger] gap(
        after@,
        after.spec_base() as int,
        (table - after.spec_base()) / 4096,
        4,
        v,
    ) == gap_after(start, table, full, k + 1, v) by {
        assert(gap(before@, base, rootf, 4, v) == gap_after(start, table, full, k, v));
        lemma_outside_diverges(va, v, level);
        lemma_top_slot(va);
        lemma_top_slot(v);
        lemma_shared_way(
            before@,
            base,
            before.spec_capacity() as int,
            before.frame_info(),
            rootf,
            4,
            va,
            v,
        );
        if blocked(before@, base, rootf, 4, va, diverge(va, v)) {
            lemma_blocked_above(before@, base, rootf, 4, va, level, diverge(va, v));
        }
        assert(gap(after@, base, rootf, 4, v) == (if diverge(va, v) < gap(
            before@,
            base,
            rootf,
            4,
            va,
        ) {
            diverge(va, v)
        } else {
            gap(before@, base, rootf, 4, v)
        }));
    }
}

/// After a step that wrote its block: the arena has taken the frames for
/// its tables, and the first empty entries on the ways of the blocks after
/// it are where `gap_after` says.
proof fn lemma_step_frames(
    start: &TableAlloc,
    before: &TableAlloc,
    after: &TableAlloc,
    table: usize,
    config: MapConfig,
    total: int,
    allow_block: bool,
    va: int,
    pa: int,
    remaining: int,
    done: Seq<Block>,
)
    requires
        stepped(
            Ok::<(), MapError>(()),
            start,
            before,
            after,
            table,
            config,
            total,
            allow_block,
            va,
            pa,
            remaining,
            done,
        ),
    ensures
        ({
            let full = plan(config.vaddr as int, config.paddr as int, total, allow_block);
            let s = level_size(pick_level(va, pa, remaining, allow_block));
            &&& gaps_tracked(
                start,
                after,
                table,
                full,
                (done.len() + 1) as int,
                plan(va + s, pa + s, remaining - s, allow_block),
            )
            &&& after.spec_frames() == start.spec_frames() + tables_upto(
                start,
                table,
                full,
                (done.len() + 1) as int,
            )
        }),
{
    let level = pick_level(va, pa, remaining, allow_block);
    let s = level_size(level);
    let full = plan(config.vaddr as int, config.paddr as int, total, allow_block);
    let tail = plan(va, pa, remaining, allow_block);
    let rest = plan(va + s, pa + s, remaining - s, allow_block);
    lemma_step_block(
        Ok::<(), MapError>(()),
        start,
        before,
        after,
        table,
        config,
        total,
        allow_block,
        va,
        pa,
        remaining,
        done,
    );
    assert(gaps_tracked(start, before, table, full, done.len() as int, tail)) by {
        reveal(progress);
    }
    assert forall|j: int| 0 <= j < rest.len() implies va + s <= (#[trigger] rest[j]).vaddr
        < ADDRESS_LIMIT by {
        lemma_plan_blocks(va + s, pa + s, remaining - s, allow_block, j);
    }
    lemma_step_tables(
        start,
        before,
        after,
        table,
        full,
        done.len() as int,
        tail,
        rest,
        config.setting,
    );
}

/// A block that was written is one step of progress.
proof fn lemma_progress_step(
    start: &TableAlloc,
    before: &TableAlloc,
    after: &TableAlloc,
    table: usize,
    config: MapConfig,
    total: int,
    allow_block: bool,
    va: int,
    pa: int,
    remaining: int,
    done: Seq<Block>,
)
    requires
        stepped(
            Ok::<(), MapError>(()),
            start,
            before,
            after,
            table,
            config,
            total,
            allow_block,
            va,
            pa,
            remaining,
            done,
        ),
    ensures
        in_region(
            config,
            total,
            va + level_size(pick_level(va, pa, remaining, allow_block)),
            pa + level_size(pick_level(va, pa, remaining, allow_block)),
            remaining - level_size(pick_level(va, pa, remaining, allow_block)),
        ),
        progress(
            start,
            after,
            table,
            config,
            total,
            allow_block,
            va + level_size(pick_level(va, pa, remaining, allow_block)),
            pa + level_size(pick_level(va, pa, remaining, allow_block)),
            remaining - level_size(pick_level(va, pa, remaining, allow_block)),
            done.push(
                Block {
                    vaddr: va as usize,
                    paddr: pa as usize,
                    level: pick_level(va, pa, remaining, allow_block) as usize,
                },
            ),
        ),
{
    let r = Ok::<(), MapError>(());
    let level = pick_level(va, pa, remaining, allow_block);
    let block = Block { vaddr: va as usize, paddr: pa as usize, level: level as usize };
    let full = plan(config.vaddr as int, config.paddr as int, total, allow_block);
    let k = done.len() as int;
    lemma_step_block(r, start, before, after, table, config, total, allow_block, va, pa, remaining, done);
    lemma_step_mapped(start, before, after, table, config, total, allow_block, va, pa, remaining, done);
    lemma_step_slots(r, start, before, after, table, config, total, allow_block, va, pa, remaining, done);
    lemma_step_frames(start, before, after, table, config, total, allow_block, va, pa, remaining, done);
    assert(no_conflict_before(start, table, config.setting, full, k + 1)) by {
        assert forall|j: int| 0 <= j < k + 1 && j < full.len() implies !#[trigger] block_conflicts(
            start,
            table,
            full[j],
            config.setting,
        ) by {
            if j == k {
                assert(full[j] == block);
            }
        }
    }
    assert(done.push(block).len() == k + 1);
    reveal(progress);
}

/// A block that could not be written ends the mapping where it stands.
proof fn lemma_failed_stopped(
    r: Result<(), MapError>,
    start: &TableAlloc,
    before: &TableAlloc,
    after: &TableAlloc,
    table: usize,
    config: MapConfig,
    total: int,
    allow_block: bool,
    va: int,
    pa: int,
    remaining: int,
    done: Seq<Block>,
)
    requires
        stepped(r, start, before, after, table, config, total, allow_block, va, pa, remaining, done),
        r is Err,
        words_kept(
            start,
            after,
            table,
            plan(config.vaddr as int, config.paddr as int, total, allow_block),
            done.len() as int,
            config.setting,
        ),
    ensures
        stopped_at(r, start, after, table, config, total, allow_block, done.len() as int),
        r == Err::<(), MapError>(MapError::Conflict) || r == Err::<(), MapError>(
            MapError::AllocatorExhausted,
        ),
{
    let level = pick_level(va, pa, remaining, allow_block);
    let full = plan(config.vaddr as int, config.paddr as int, total, allow_block);
    let k = done.len() as int;
    let base = before.spec_base() as int;
    let rootf = (table - before.spec_base()) / 4096;
    lemma_step_block(r, start, before, after, table, config, total, allow_block, va, pa, remaining, done);
    assert(region_mapped(start, after, table, config, total, allow_block, va)) by {
        assert(region_mapped(start, before, table, config, total, allow_block, va)) by {
            reveal(progress);
        }
        lemma_region_failed(start, before, after, table, config, total, allow_block, va);
    }
    lemma_missing_is_gap(before@, base, rootf, 4, va, level);
    assert(tables_upto(start, table, full, k + 1) == tables_upto(start, table, full, k)
        + tables_for(start, table, full, k));
}

/// A mapping that stopped at a block was not owed success.
proof fn lemma_failed_owed(
    r: Result<(), MapError>,
    start: &TableAlloc,
    after: &TableAlloc,
    table: usize,
    config: MapConfig,
    total: int,
    allow_block: bool,
    k: int,
)
    requires
        stopped_at(r, start, after, table, config, total, allow_block, k),
        r == Err::<(), MapError>(MapError::Conflict) || r == Err::<(), MapError>(
            MapError::AllocatorExhausted,
        ),
    ensures
        ({
            let blocks = plan(config.vaddr as int, config.paddr as int, total, allow_block);
            !(no_conflict_before(start, table, config.setting, blocks, blocks.len() as int)
                && start.spec_frames() + tables_upto(start, table, blocks, blocks.len() as int)
                <= start.spec_capacity())
        }),
{
    let blocks = plan(config.vaddr as int, config.paddr as int, total, allow_block);
    lemma_tables_grow(start, table, blocks, k + 1, blocks.len() as int);
    if block_conflicts(start, table, blocks[k], config.setting) {
        assert(!no_conflict_before(start, table, config.setting, blocks, blocks.len() as int));
    }
}

/// What a failed step leaves of the arena.
proof fn lemma_failed_kept(
    r: Result<(), MapError>,
    start: &TableAlloc,
    before: &TableAlloc,
    after: &TableAlloc,
    table: usize,
    config: MapConfig,
    total: int,
    allow_block: bool,
    va: int,
    pa: int,
    remaining: int,
    done: Seq<Block>,
)
    requires
        stepped(r, start, before, after, table, config, total, allow_block, va, pa, remaining, done),
        r is Err,
    ensures
        ({
            let blocks = plan(config.vaddr as int, config.paddr as int, total, allow_block);
            &&& stays(start, after)
            &&& outside_kept(start, after, table, config.vaddr as int, total)
            &&& after.spec_frames() <= start.spec_frames() + 3 * blocks.len()
            &&& r == Err::<(), MapError>(MapError::AllocatorExhausted) ==> after.spec_frames()
                == after.spec_capacity() && start.spec_frames() + 3 * blocks.len()
                > start.spec_capacity()
        }),
{
    lemma_step_block(r, start, before, after, table, config, total, allow_block, va, pa, remaining, done);
    lemma_step_slots(r, start, before, after, table, config, total, allow_block, va, pa, remaining, done);
    lemma_stays_trans(start, before, after);
}

proof fn lemma_progress_failed(
    r: Result<(), MapError>,
    start: &TableAlloc,
    before: &TableAlloc,
    after: &TableAlloc,
    table: usize,
    config: MapConfig,
    size: usize,
    allow_block: bool,
    va: int,
    pa: int,
    remaining: int,
    done: Seq<Block>,
)
    requires
        stepped(
            r,
            start,
            before,
            after,
            table,
            config,
            span(size as int),
            allow_block,
            va,
            pa,
            remaining,
            done,
        ),
        r is Err,
        words_kept(
            start,
            after,
            table,
            plan(config.vaddr as int, config.paddr as int, span(size as int), allow_block),
            done.len() as int,
            config.setting,
        ),
    ensures
        region_outcome(r, start, after, table, config, size, allow_block),
{
    let total = span(size as int);
    lemma_failed_stopped(r, start, before, after, table, config, total, allow_block, va, pa, remaining, done);
    lemma_failed_kept(r, start, before, after, table, config, total, allow_block, va, pa, remaining, done);
    lemma_failed_owed(r, start, after, table, config, total, allow_block, done.len() as int);
}

/// Once nothing remains, the region is mapped.
proof fn lemma_progress_done(
    start: &TableAlloc,
    after: &TableAlloc,
    table: usize,
    config: MapConfig,
    size: usize,
    allow_block: bool,
    va: int,
    pa: int,
    done: Seq<Block>,
)
    requires
        in_region(config, span(size as int), va, pa, 0),
        progress(start, after, table, config, span(size as int), allow_block, va, pa, 0, done),
        gaps_outside(
            start,
            after,
            table,
            plan(config.vaddr as int, config.paddr as int, span(size as int), allow_block),
            done.len() as int,
            config.vaddr as int,
            span(size as int),
        ),
        words_kept(
            start,
            after,
            table,
            plan(config.vaddr as int, config.paddr as int, span(size as int), allow_block),
            done.len() as int,
            config.setting,
        ),
    ensures
        region_outcome(Ok::<(), MapError>(()), start, after, table, config, size, allow_block),
{
    reveal(progress);
    let total = span(size as int);
    let full = plan(config.vaddr as int, config.paddr as int, total, allow_block);
    assert(full =~= done);
}

proof fn lemma_outside_step(
    start_state: &TableAlloc,
    before: &TableAlloc,
    after: &TableAlloc,
    table: usize,
    start: int,
    total: int,
    va: int,
    level: int,
)
    requires
        start_state.spec_base() == before.spec_base() == after.spec_base(),
        outside_kept(start_state, before, table, start, total),
        1 <= level <= 3,
        start <= va,
        va + level_size(level) <= start + total,
        conflicts_kept(
            before@,
            after@,
            before.spec_base() as int,
            (table - before.spec_base()) / 4096,
            va,
            level,
        ),
    ensures
        outside_kept(start_state, after, table, start, total),
{
    assert forall|block: Block, setting: PTESetting| block_outside(block, start, total) implies #[trigger] block_conflicts(
        after,
        table,
        block,
        setting,
    ) == block_conflicts(start_state, table, block, setting) by {
        assert(apart(va, level, block.vaddr as int, block.level as int));
        assert(block_conflicts(before, table, block, setting) == block_conflicts(
            start_state,
            table,
            block,
            setting,
        ));
    }
}

proof fn lemma_tail_step(
    start: &TableAlloc,
    before: &TableAlloc,
    after: &TableAlloc,
    table: usize,
    setting: PTESetting,
    va: int,
    pa: int,
    remaining: int,
    allow_block: bool,
)
    requires
        start.spec_base() == before.spec_base() == after.spec_base(),
        tail_kept(start, before, table, setting, plan(va, pa, remaining, allow_block)),
        4096 <= remaining,
        0 <= va,
        0 <= pa,
        va % 4096 == 0,
        pa % 4096 == 0,
        remaining % 4096 == 0,
        va + remaining <= usize::MAX,
        pa + remaining <= usize::MAX,
        va + remaining <= ADDRESS_LIMIT,
        conflicts_kept(
            before@,
            after@,
            before.spec_base() as int,
            (table - before.spec_base()) / 4096,
            va,
            pick_level(va, pa, remaining, allow_block),
        ),
    ensures
        tail_kept(
            start,
            after,
            table,
            setting,
            plan(
                va + level_size(pick_level(va, pa, remaining, allow_block)),
                pa + level_size(pick_level(va, pa, remaining, allow_block)),
                remaining - level_size(pick_level(va, pa, remaining, allow_block)),
                allow_block,
            ),
        ),
{
    let level = pick_level(va, pa, remaining, allow_block);
    let s = level_size(level);
    let blocks = plan(va, pa, remaining, allow_block);
    let rest = plan(va + s, pa + s, remaining - s, allow_block);
    assert forall|k: int| 0 <= k < rest.len() implies #[trigger] block_conflicts(
        after,
        table,
        rest[k],
        setting,
    ) == block_conflicts(start, table, rest[k], setting) by {
        lemma_rest_apart(va, pa, remaining, allow_block, k);
        assert(block_conflicts(before, table, blocks[k + 1], setting) == block_conflicts(
            start,
            table,
            blocks[k + 1],
            setting,
        ));
    }
}

/// Every later block of a decomposition lies apart from the first.
proof fn lemma_rest_apart(va: int, pa: int, remaining: int, allow_block: bool, k: int)
    requires
        4096 <= remaining,
        0 <= va,
        0 <= pa,
        va % 4096 == 0,
        pa % 4096 == 0,
        remaining % 4096 == 0,
        va + remaining <= usize::MAX,
        pa + remaining <= usize::MAX,
        va + remaining <= ADDRESS_LIMIT,
        0 <= k < plan(va, pa, remaining, allow_block).len() - 1,
    ensures
        ({
            let level = pick_level(va, pa, remaining, allow_block);
            let s = level_size(level);
            let later = plan(va, pa, remaining, allow_block)[k + 1];
            &&& plan(va + s, pa + s, remaining - s, allow_block)[k] == later
            &&& apart(va, level, later.vaddr as int, later.level as int)
        }),
{
    let level = pick_level(va, pa, remaining, allow_block);
    let s = level_size(level);
    lemma_block_step(va, pa, remaining, allow_block);
    lemma_plan_blocks(va + s, pa + s, remaining - s, allow_block, k);
}

proof fn lemma_region_start(
    access: &TableAlloc,
    table: usize,
    config: MapConfig,
    total: int,
    allow_block: bool,
)
    ensures
        region_mapped(access, access, table, config, total, allow_block, config.vaddr as int),
        planned_agrees(
            config,
            total,
            allow_block,
            config.vaddr as int,
            config.paddr as int,
            total,
        ),
        stays(access, access),
        tail_kept(
            access,
            access,
            table,
            config.setting,
            plan(config.vaddr as int, config.paddr as int, total, allow_block),
        ),
        outside_kept(access, access, table, config.vaddr as int, total),
{
}

proof fn lemma_region_failed(
    start: &TableAlloc,
    before: &TableAlloc,
    after: &TableAlloc,
    table: usize,
    config: MapConfig,
    total: int,
    allow_block: bool,
    va: int,
)
    requires
        region_mapped(start, before, table, config, total, allow_block, va),
        stays(start, before),
        stays(before, after),
        forall|root: usize, v: int|
            before.is_root(root) ==> #[trigger] after.lookup(root, v) == before.lookup(root, v),
    ensures
        region_mapped(start, after, table, config, total, allow_block, va),
        stays(start, after),
{
    lemma_stays_trans(start, before, after);
    assert forall|root: usize, v: int| start.is_root(root) implies #[trigger] after.lookup(
        root,
        v,
    ) == (if root == table && config.vaddr <= v < va {
        Some(planned(config.vaddr as int, config.paddr as int, total, allow_block, config.setting, v))
    } else {
        start.lookup(root, v)
    }) by {
        assert(before.is_root(root));
        assert(after.lookup(root, v) == before.lookup(root, v));
    }
}

proof fn lemma_region_advance(
    start: &TableAlloc,
    before: &TableAlloc,
    after: &TableAlloc,
    table: usize,
    config: MapConfig,
    total: int,
    allow_block: bool,
    va: int,
    pa: int,
    remaining: int,
)
    requires
        region_mapped(start, before, table, config, total, allow_block, va),
        planned_agrees(config, total, allow_block, va, pa, remaining),
        stays(start, before),
        stays(before, after),
        4096 <= remaining,
        config.vaddr <= va,
        0 <= pa <= usize::MAX,
        forall|root: usize, v: int|
            before.is_root(root) ==> #[trigger] after.lookup(root, v) == (if root == table && va
                <= v < va + level_size(pick_level(va, pa, remaining, allow_block)) {
                Some(
                    (
                        pick_level(va, pa, remaining, allow_block),
                        leaf_word(
                            pa as usize,
                            pick_level(va, pa, remaining, allow_block),
                            config.setting,
                        ),
                    ),
                )
            } else {
                before.lookup(root, v)
            }),
    ensures
        region_mapped(
            start,
            after,
            table,
            config,
            total,
            allow_block,
            va + level_size(pick_level(va, pa, remaining, allow_block)),
        ),
        planned_agrees(
            config,
            total,
            allow_block,
            va + level_size(pick_level(va, pa, remaining, allow_block)),
            pa + level_size(pick_level(va, pa, remaining, allow_block)),
            remaining - level_size(pick_level(va, pa, remaining, allow_block)),
        ),
        stays(start, after),
{
    let level = pick_level(va, pa, remaining, allow_block);
    let s = level_size(level);
    let setting = config.setting;
    let va0 = config.vaddr as int;
    let pa0 = config.paddr as int;
    lemma_stays_trans(start, before, after);
    assert(s <= remaining);
    assert forall|v: int| va + s <= v < va + s + (remaining - s) implies #[trigger] planned(
        va0,
        pa0,
        total,
        allow_block,
        setting,
        v,
    ) == planned(va + s, pa + s, remaining - s, allow_block, setting, v) by {
        assert(planned(va0, pa0, total, allow_block, setting, v) == planned(
            va,
            pa,
            remaining,
            allow_block,
            setting,
            v,
        ));
    }
    assert forall|root: usize, v: int| start.is_root(root) implies #[trigger] after.lookup(
        root,
        v,
    ) == (if root == table && va0 <= v < va + s {
        Some(planned(va0, pa0, total, allow_block, setting, v))
    } else {
        start.lookup(root, v)
    }) by {
        assert(before.is_root(root));
        assert(before.lookup(root, v) == (if root == table && va0 <= v < va {
            Some(planned(va0, pa0, total, allow_block, setting, v))
        } else {
            start.lookup(root, v)
        }));
        if root == table && va <= v < va + s {
            assert(planned(va0, pa0, total, allow_block, setting, v) == planned(
                va,
                pa,
                remaining,
                allow_block,
                setting,
                v,
            ));
        }
    }
}

/// Mapping a region into one table leaves every other table of the arena as
/// it was, whatever comes of it.
pub(crate) proof fn lemma_outcome_elsewhere(
    r: Result<(), MapError>,
    before: &TableAlloc,
    after: &TableAlloc,
    table: usize,
    config: MapConfig,
    size: usize,
    allow_block: bool,
    root: usize,
    v: int,
)
    requires
        region_outcome(r, before, after, table, config, size, allow_block),
        before.is_root(root),
        root != table,
    ensures
        after.lookup(root, v) == before.lookup(root, v),
{
    let total = span(size as int);
    if r is Ok {
        assert(region_mapped(before, after, table, config, total, allow_block, config.vaddr + total));
    } else if r == Err::<(), MapError>(MapError::Misaligned) {
    } else {
        let k = choose|k: int| #[trigger]
            stopped_at(r, before, after, table, config, total, allow_block, k);
        assert(stopped_at(r, before, after, table, config, total, allow_block, k));
    }
}

/// Mapping a region into one table changes no word of a frame that was in
/// use before the root of that table was taken, whatever comes of it: the
/// tables that were made earlier are bit for bit as they were.
pub proof fn lemma_outcome_earlier_frames(
    r: Result<(), MapError>,
    before: &TableAlloc,
    after: &TableAlloc,
    table: usize,
    config: MapConfig,
    size: usize,
    allow_block: bool,
    i: int,
)
    requires
        before.wf(),
        region_outcome(r, before, after, table, config, size, allow_block),
        0 <= i < before@.len(),
        i / 512 < (table - before.spec_base()) / 4096,
    ensures
        after@[i] == before@[i],
{
    let total = span(size as int);
    let blocks = plan(config.vaddr as int, config.paddr as int, total, allow_block);
    if r is Ok {
        crate::table::words::lemma_earlier_frames_kept(
            before,
            after,
            table,
            blocks,
            blocks.len() as int,
            config.setting,
            i,
        );
    } else if r == Err::<(), MapError>(MapError::Misaligned) {
    } else {
        let k = choose|k: int| #[trigger]
            stopped_at(r, before, after, table, config, total, allow_block, k);
        assert(stopped_at(r, before, after, table, config, total, allow_block, k));
        crate::table::words::lemma_earlier_frames_kept(
            before,
            after,
            table,
            blocks,
            k,
            config.setting,
            i,
        );
    }
}

/// Exhaustion before anything is written: in an arena that is full, a
/// mapping whose first block has a free slot and needs a table fails with
/// `AllocatorExhausted`, and leaves every word of every frame as it was.
pub proof fn lemma_exhausted_untouched(
    r: Result<(), MapError>,
    before: &TableAlloc,
    after: &TableAlloc,
    table: usize,
    config: MapConfig,
    size: usize,
    allow_block: bool,
)
    requires
        before.wf(),
        after.wf(),
        region_outcome(r, before, after, table, config, size, allow_block),
        config.vaddr % 4096 == 0,
        config.paddr % 4096 == 0,
        before.spec_frames() == before.spec_capacity(),
        plan(config.vaddr as int, config.paddr as int, span(size as int), allow_block).len() > 0,
        !block_conflicts(
            before,
            table,
            plan(config.vaddr as int, config.paddr as int, span(size as int), allow_block)[0],
            config.setting,
        ),
        tables_for(
            before,
            table,
            plan(config.vaddr as int, config.paddr as int, span(size as int), allow_block),
            0,
        ) > 0,
    ensures
        r == Err::<(), MapError>(MapError::AllocatorExhausted),
        after@ == before@,
{
    let total = span(size as int);
    let blocks = plan(config.vaddr as int, config.paddr as int, total, allow_block);
    assert(tables_upto(before, table, blocks, 1) == tables_upto(before, table, blocks, 0)
        + tables_for(before, table, blocks, 0));
    lemma_tables_grow(before, table, blocks, 1, blocks.len() as int);
    assert(r is Err);
    let k = choose|k: int| #[trigger]
        stopped_at(r, before, after, table, config, total, allow_block, k);
    assert(stopped_at(r, before, after, table, config, total, allow_block, k));
    if k >= 1 {
        lemma_tables_grow(before, table, blocks, 1, k);
    }
    assert(k == 0);
    crate::table::words::lemma_nothing_written(before, after, table, blocks, config.setting);
}

/// The slot of an address at a level does not fall as the address rises: of
/// three rising addresses, the last two part no higher than the first and
/// the last.
proof fn lemma_diverge_between(a: int, b: int, c: int)
    requires
        0 <= a <= b <= c < ADDRESS_LIMIT,
    ensures
        diverge(b, c) <= diverge(a, c),
{
    assert(a / 0x1000 <= b / 0x1000 <= c / 0x1000);
    assert(a / 0x20_0000 <= b / 0x20_0000 <= c / 0x20_0000);
    assert(a / 0x4000_0000 <= b / 0x4000_0000 <= c / 0x4000_0000);
    assert(a / 0x80_0000_0000 <= b / 0x80_0000_0000 <= c / 0x80_0000_0000);
}

/// For an address at or after the last of the first `k` blocks, only that
/// block and the state before the call say where the walk first finds no
/// table.
proof fn lemma_gap_after_last(
    before: &TableAlloc,
    table: usize,
    va: int,
    pa: int,
    total: int,
    allow_block: bool,
    k: int,
    v: int,
)
    requires
        0 <= va,
        0 <= pa,
        va % 4096 == 0,
        pa % 4096 == 0,
        total % 4096 == 0,
        va + total <= usize::MAX,
        pa + total <= usize::MAX,
        va + total <= ADDRESS_LIMIT,
        1 <= k <= plan(va, pa, total, allow_block).len(),
        plan(va, pa, total, allow_block)[k - 1].vaddr <= v < ADDRESS_LIMIT,
    ensures
        ({
            let blocks = plan(va, pa, total, allow_block);
            let g = gap(before@, before.spec_base() as int, (table - before.spec_base()) / 4096, 4, v);
            let d = diverge(blocks[k - 1].vaddr as int, v);
            gap_after(before, table, blocks, k, v) == if d < g {
                d
            } else {
                g
            }
        }),
    decreases k,
{
    let blocks = plan(va, pa, total, allow_block);
    let g = gap(before@, before.spec_base() as int, (table - before.spec_base()) / 4096, 4, v);
    assert(gap_after(before, table, blocks, 0, v) == g);
    assert(gap_after(before, table, blocks, k, v) == (if diverge(blocks[k - 1].vaddr as int, v)
        < gap_after(before, table, blocks, k - 1, v) {
        diverge(blocks[k - 1].vaddr as int, v)
    } else {
        gap_after(before, table, blocks, k - 1, v)
    }));
    if k > 1 {
        lemma_plan_blocks(va, pa, total, allow_block, k - 1);
        lemma_plan_blocks(va, pa, total, allow_block, k - 2);
        lemma_gap_after_last(before, table, va, pa, total, allow_block, k - 1, v);
        lemma_diverge_between(blocks[k - 2].vaddr as int, blocks[k - 1].vaddr as int, v);
    }
}

} // verus!
