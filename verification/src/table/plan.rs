//! Mapping requests and their decomposition: how a region is cut into
//! pages and blocks by the greedy rule, and why no cut has fewer parts.

use vstd::prelude::*;
use crate::pte::{AccessSetting, CacheSetting, PTESetting};
use crate::table::arena::{leaf_word, level_size, size_of_level, MapError, ADDRESS_LIMIT};

verus! {

/// One mapping request: where a region starts, virtually and physically,
/// and with which rights and cache policy it is mapped.
#[derive(Clone, Copy, Debug, PartialEq, Eq, Structural)]
pub struct MapConfig {
    pub vaddr: usize,
    pub paddr: usize,
    pub setting: PTESetting,
}

impl MapConfig {
    /// A global mapping for privileged code alone.
    pub fn new(
        vaddr: usize,
        paddr: usize,
        privilege_access: AccessSetting,
        cache_setting: CacheSetting,
    ) -> (r: Self)
        ensures
            r == (MapConfig {
                vaddr,
                paddr,
                setting: PTESetting {
                    cache_setting,
                    privilege_access,
                    user_access: AccessSetting::spec_empty(),
                    is_global: true,
                },
            }),
    {
        MapConfig {
            vaddr,
            paddr,
            setting: PTESetting {
                cache_setting,
                privilege_access,
                user_access: AccessSetting::empty(),
                is_global: true,
            },
        }
    }

    /// Sets the rights of unprivileged code, and hands the request back.
    pub fn set_user_access(&mut self, access: AccessSetting) -> (r: Self)
        ensures
            *final(self) == (MapConfig {
                vaddr: old(self).vaddr,
                paddr: old(self).paddr,
                setting: PTESetting {
                    cache_setting: old(self).setting.cache_setting,
                    privilege_access: old(self).setting.privilege_access,
                    user_access: access,
                    is_global: old(self).setting.is_global,
                },
            }),
            r == *final(self),
    {
        self.setting.user_access = access;
        *self
    }
}

/// One step of a decomposition: a page or block of the given level.
#[derive(Clone, Copy, Debug, PartialEq, Eq, Structural)]
pub struct Block {
    pub vaddr: usize,
    pub paddr: usize,
    pub level: usize,
}

/// The bytes that a region of `size` bytes takes up in whole pages.
pub open spec fn span(size: int) -> int {
    ((size + 4095) / 4096) * 4096
}

/// A region that lies below the address limit, virtually and physically.
pub open spec fn addressable(config: MapConfig, size: usize) -> bool {
    &&& config.vaddr + span(size as int) <= ADDRESS_LIMIT
    &&& config.paddr + span(size as int) <= ADDRESS_LIMIT
    &&& config.vaddr + span(size as int) <= usize::MAX
    &&& config.paddr + span(size as int) <= usize::MAX
}

/// Whether a region lies below the address limit, so that it can be mapped.
pub fn is_addressable(config: &MapConfig, size: usize) -> (r: bool)
    ensures
        r == addressable(*config, size),
{
    let limit: u64 = ADDRESS_LIMIT;
    if size as u64 > limit || config.vaddr as u64 > limit || config.paddr as u64 > limit {
        proof {
            assert(span(size as int) >= size);
        }
        return false;
    }
    let total: u64 = ((size as u64 + 4095) / 4096) * 4096;
    config.vaddr as u64 + total <= limit && config.paddr as u64 + total <= limit && config.vaddr as u64
        + total <= usize::MAX as u64 && config.paddr as u64 + total <= usize::MAX as u64
}

/// Whether a block of the given level can start here: both bases are
/// multiples of its size, and it is no longer than what is left to map.
pub open spec fn fits(va: int, pa: int, remaining: int, level: int) -> bool {
    &&& va % level_size(level) == 0
    &&& pa % level_size(level) == 0
    &&& level_size(level) <= remaining
}

/// The greedy rule: the largest block that fits (1 GiB, then 2 MiB), and a
/// page where none does or blocks are not allowed.
pub open spec fn pick_level(va: int, pa: int, remaining: int, allow_block: bool) -> int {
    if allow_block && fits(va, pa, remaining, 3) {
        3
    } else if allow_block && fits(va, pa, remaining, 2) {
        2
    } else {
        1
    }
}

/// The decomposition of a region of whole pages under the greedy rule,
/// first block first.
pub open spec fn plan(va: int, pa: int, remaining: int, allow_block: bool) -> Seq<Block>
    decreases remaining,
{
    if remaining < 4096 {
        Seq::empty()
    } else {
        let level = pick_level(va, pa, remaining, allow_block);
        let s = level_size(level);
        seq![Block { vaddr: va as usize, paddr: pa as usize, level: level as usize }] + plan(
            va + s,
            pa + s,
            remaining - s,
            allow_block,
        )
    }
}

/// The entry that the decomposition of a region of whole pages has for the
/// address `v` of the region: its level and its descriptor word.
pub open spec fn planned(
    va: int,
    pa: int,
    remaining: int,
    allow_block: bool,
    setting: PTESetting,
    v: int,
) -> (int, u64)
    decreases remaining,
{
    let level = pick_level(va, pa, remaining, allow_block);
    let s = level_size(level);
    if remaining < 4096 || v < va + s {
        (level, leaf_word(pa as usize, level, setting))
    } else {
        planned(va + s, pa + s, remaining - s, allow_block, setting, v)
    }
}

/// One step of the greedy rule on a region of whole pages: the block that
/// it takes is no longer than the region, and what is left is a region of
/// whole pages again.
pub(crate) proof fn lemma_block_step(va: int, pa: int, remaining: int, allow_block: bool)
    requires
        va % 4096 == 0,
        pa % 4096 == 0,
        remaining % 4096 == 0,
        remaining > 0,
    ensures
        ({
            let level = pick_level(va, pa, remaining, allow_block);
            let s = level_size(level);
            &&& 1 <= level <= 3
            &&& 4096 <= s <= remaining
            &&& va % s == 0
            &&& pa % s == 0
            &&& (va + s) % 4096 == 0
            &&& (pa + s) % 4096 == 0
            &&& (remaining - s) % 4096 == 0
            &&& plan(va, pa, remaining, allow_block) == seq![
                Block { vaddr: va as usize, paddr: pa as usize, level: level as usize },
            ] + plan(va + s, pa + s, remaining - s, allow_block)
        }),
{
}

pub(crate) fn choose_level(va: u64, pa: u64, remaining: u64, allow_block: bool) -> (level: usize)
    ensures
        level == pick_level(va as int, pa as int, remaining as int, allow_block),
        1 <= level <= 3,
{
    if allow_block && va % 0x4000_0000 == 0 && pa % 0x4000_0000 == 0 && remaining >= 0x4000_0000 {
        3
    } else if allow_block && va % 0x20_0000 == 0 && pa % 0x20_0000 == 0 && remaining
        >= 0x20_0000 {
        2
    } else {
        1
    }
}

/// The decomposition of a region under the greedy rule, as `map_region`
/// writes it: `Misaligned` where a base is not a multiple of the page size.
pub fn decompose(config: &MapConfig, size: usize, allow_block: bool) -> (r: Result<
    Vec<Block>,
    MapError,
>)
    requires
        addressable(*config, size),
    ensures
        r is Err <==> config.vaddr % 4096 != 0 || config.paddr % 4096 != 0,
        r matches Err(e) ==> e == MapError::Misaligned,
        r matches Ok(blocks) ==> blocks@ == plan(
            config.vaddr as int,
            config.paddr as int,
            span(size as int),
            allow_block,
        ),
{
    if config.vaddr % 4096 != 0 || config.paddr % 4096 != 0 {
        return Err(MapError::Misaligned);
    }
    let total: u64 = ((size as u64 + 4095) / 4096) * 4096;
    let mut va: u64 = config.vaddr as u64;
    let mut pa: u64 = config.paddr as u64;
    let mut remaining: u64 = total;
    let mut blocks: Vec<Block> = Vec::new();
    let ghost full = plan(config.vaddr as int, config.paddr as int, total as int, allow_block);
    proof {
        assert(blocks@ + full =~= full);
    }
    while remaining > 0
        invariant
            total == span(size as int),
            config.vaddr + total <= usize::MAX,
            config.paddr + total <= usize::MAX,
            va % 4096 == 0,
            pa % 4096 == 0,
            remaining % 4096 == 0,
            va + remaining == config.vaddr + total,
            pa + remaining == config.paddr + total,
            full == plan(config.vaddr as int, config.paddr as int, total as int, allow_block),
            full =~= blocks@ + plan(va as int, pa as int, remaining as int, allow_block),
        decreases remaining,
    {
        let level: usize = choose_level(va, pa, remaining, allow_block);
        let s: u64 = size_of_level(level);
        let block = Block { vaddr: va as usize, paddr: pa as usize, level };
        proof {
            let rest = plan(va + s, pa + s, remaining - s, allow_block);
            lemma_block_step(va as int, pa as int, remaining as int, allow_block);
            assert(blocks@.push(block) + rest =~= blocks@ + (seq![block] + rest));
        }
        blocks.push(block);
        va = va + s;
        pa = pa + s;
        remaining = remaining - s;
    }
    proof {
        assert(full =~= blocks@);
    }
    Ok(blocks)
}

/// Where the blocks of a decomposition lie: inside the region, one after
/// the other, each aligned to its own size, each the largest that fits where
/// it starts, and each as far from its physical base as the region's start.
pub proof fn lemma_plan_blocks(va: int, pa: int, remaining: int, allow_block: bool, k: int)
    requires
        0 <= va,
        0 <= pa,
        va % 4096 == 0,
        pa % 4096 == 0,
        remaining % 4096 == 0,
        va + remaining <= usize::MAX,
        pa + remaining <= usize::MAX,
        0 <= k < plan(va, pa, remaining, allow_block).len(),
    ensures
        ({
            let blocks = plan(va, pa, remaining, allow_block);
            let b = blocks[k];
            &&& 1 <= b.level <= 3
            &&& va <= b.vaddr
            &&& b.vaddr + level_size(b.level as int) <= va + remaining
            &&& (b.vaddr as int) % level_size(b.level as int) == 0
            &&& (b.paddr as int) % level_size(b.level as int) == 0
            &&& b.paddr - b.vaddr == pa - va
            &&& b.level == pick_level(
                b.vaddr as int,
                b.paddr as int,
                va + remaining - b.vaddr,
                allow_block,
            )
            &&& k == 0 ==> b.vaddr == va
            &&& k > 0 ==> b.vaddr == blocks[k - 1].vaddr + level_size(blocks[k - 1].level as int)
        }),
    decreases remaining,
{
    let level = pick_level(va, pa, remaining, allow_block);
    let s = level_size(level);
    let rest = plan(va + s, pa + s, remaining - s, allow_block);
    let blocks = plan(va, pa, remaining, allow_block);
    assert(blocks =~= seq![Block { vaddr: va as usize, paddr: pa as usize, level: level as usize }]
        + rest);
    if k > 0 {
        assert(blocks[k] == rest[k - 1]);
        lemma_plan_blocks(va + s, pa + s, remaining - s, allow_block, k - 1);
        if k > 1 {
            assert(blocks[k - 1] == rest[k - 2]);
        }
    }
}

/// A sequence of blocks that tiles a region: the blocks follow one another
/// from the start of the region to its end, each is a page or a block of 2
/// MiB or 1 GiB, and each starts at a multiple of its size, virtually and
/// physically.
pub open spec fn tiles(blocks: Seq<Block>, va: int, pa: int, len: int) -> bool
    decreases blocks.len(),
{
    if blocks.len() == 0 {
        len == 0
    } else {
        let b = blocks[0];
        let s = level_size(b.level as int);
        &&& 1 <= b.level <= 3
        &&& b.vaddr == va
        &&& b.paddr == pa
        &&& va % s == 0
        &&& pa % s == 0
        &&& s <= len
        &&& tiles(blocks.subrange(1, blocks.len() as int), va + s, pa + s, len - s)
    }
}

/// The decomposition of a region of whole pages tiles the region.
pub proof fn lemma_plan_tiles(va: int, pa: int, len: int, allow_block: bool)
    requires
        0 <= va,
        0 <= pa,
        va % 4096 == 0,
        pa % 4096 == 0,
        len % 4096 == 0,
        0 <= len,
        va + len <= usize::MAX,
        pa + len <= usize::MAX,
    ensures
        tiles(plan(va, pa, len, allow_block), va, pa, len),
    decreases len,
{
    if len > 0 {
        lemma_block_step(va, pa, len, allow_block);
        let s = level_size(pick_level(va, pa, len, allow_block));
        let blocks = plan(va, pa, len, allow_block);
        lemma_plan_tiles(va + s, pa + s, len - s, allow_block);
        assert(blocks.subrange(1, blocks.len() as int) =~= plan(
            va + s,
            pa + s,
            len - s,
            allow_block,
        ));
    }
}

/// Between two multiples of `m`, there is room for `m`.
proof fn lemma_next_multiple(a: int, b: int, m: int)
    by (nonlinear_arith)
    requires
        0 < m,
        a % m == 0,
        b % m == 0,
        a < b,
    ensures
        a + m <= b,
{
}

/// A tiling cannot step over the end of an aligned block: where a block of
/// size `s` could start at `va`, every tiling that runs through it has a
/// block that starts at `va + s`, or ends there.
proof fn lemma_tiling_meets_boundary(
    blocks: Seq<Block>,
    v: int,
    p: int,
    len: int,
    va: int,
    level: int,
) -> (j: int)
    requires
        tiles(blocks, v, p, len),
        2 <= level <= 3,
        0 <= va <= v < va + level_size(level),
        va % level_size(level) == 0,
        v % 4096 == 0,
        va + level_size(level) <= v + len,
        v == va ==> blocks.len() > 0 && blocks[0].level < level,
    ensures
        1 <= j <= blocks.len(),
        tiles(
            blocks.subrange(j, blocks.len() as int),
            va + level_size(level),
            p + (va + level_size(level) - v),
            len - (va + level_size(level) - v),
        ),
    decreases blocks.len(),
{
    let s = level_size(level);
    let b = blocks[0];
    let sb = level_size(b.level as int);
    let rest = blocks.subrange(1, blocks.len() as int);
    assert(blocks.len() > 0);
    // a block of the size of the slot or larger cannot start inside the slot
    if b.level >= level {
        assert(v % s == 0) by {
            if b.level == 3 && level == 2 {
                assert(v % 0x4000_0000 == 0 ==> v % 0x20_0000 == 0);
            }
        }
        lemma_next_multiple(va, v, s);
    }
    assert(b.level < level);
    assert(s % sb == 0);
    assert((va + s) % sb == 0) by {
        if level == 3 {
            assert(va % 0x4000_0000 == 0 ==> va % 0x20_0000 == 0 && va % 0x1000 == 0);
        } else {
            assert(va % 0x20_0000 == 0 ==> va % 0x1000 == 0);
        }
    }
    lemma_next_multiple(v, va + s, sb);
    if v + sb == va + s {
        assert(blocks.subrange(1, blocks.len() as int) =~= rest);
        1
    } else {
        let j = lemma_tiling_meets_boundary(rest, v + sb, p + sb, len - sb, va, level);
        assert(rest.subrange(j, rest.len() as int) =~= blocks.subrange(
            j + 1,
            blocks.len() as int,
        ));
        j + 1
    }
}

/// Minimal decomposition: no sequence of aligned pages and blocks that
/// tiles a region has fewer parts than the decomposition of the region
/// under the greedy rule.
pub proof fn lemma_plan_minimal(blocks: Seq<Block>, va: int, pa: int, len: int)
    requires
        tiles(blocks, va, pa, len),
        0 <= va,
        0 <= pa,
        va % 4096 == 0,
        pa % 4096 == 0,
        len % 4096 == 0,
        0 <= len,
    ensures
        plan(va, pa, len, true).len() <= blocks.len(),
    decreases blocks.len(),
{
    if len > 0 {
        lemma_block_step(va, pa, len, true);
        let level = pick_level(va, pa, len, true);
        let s = level_size(level);
        let b = blocks[0];
        assert(blocks.len() > 0);
        assert(fits(va, pa, len, b.level as int));
        assert(b.level <= level);
        if b.level == level {
            lemma_plan_minimal(blocks.subrange(1, blocks.len() as int), va + s, pa + s, len - s);
        } else {
            let j = lemma_tiling_meets_boundary(blocks, va, pa, len, va, level);
            lemma_plan_minimal(blocks.subrange(j, blocks.len() as int), va + s, pa + s, len - s);
        }
    }
}

} // verus!
