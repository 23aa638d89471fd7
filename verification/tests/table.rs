use qhyper::pte::{AccessSetting, CacheSetting, PTEGeneric, PTESetting, PageTableImpl};
use qhyper::table::arena::{MapError, PageTableRef, TableAlloc};
use qhyper::table::plan::{decompose, is_addressable, Block, MapConfig};

const KB: usize = 1024;
const MB: usize = 1024 * KB;
const GB: usize = 1024 * MB;

fn rw() -> AccessSetting {
    AccessSetting { read: true, write: true, execute: false }
}

fn rx() -> AccessSetting {
    AccessSetting { read: true, write: false, execute: true }
}

fn config(vaddr: usize, paddr: usize) -> MapConfig {
    MapConfig::new(vaddr, paddr, rw(), CacheSetting::Normal)
}

fn leaf(paddr: usize, level: usize, setting: PTESetting) -> u64 {
    PageTableImpl::new_pte(PTEGeneric { paddr, is_block: level > 1, is_valid: true, setting })
}

fn levels(blocks: &[Block]) -> Vec<usize> {
    blocks.iter().map(|b| b.level).collect()
}

fn arena(frames: usize) -> (TableAlloc, PageTableRef) {
    let mut access = TableAlloc::new(0x8000_0000, frames).unwrap();
    let table = PageTableRef::create_empty(&mut access).unwrap();
    (access, table)
}

fn words(access: &TableAlloc) -> Vec<u64> {
    let mut all = Vec::new();
    for f in 0..access.frames() {
        for i in 0..512 {
            all.push(access.word(f, i));
        }
    }
    all
}

#[test]
fn arena_bounds_are_checked() {
    assert!(TableAlloc::new(0x1000, 4).is_some());
    assert!(TableAlloc::new(0x1001, 4).is_none());
    assert!(TableAlloc::new(0xffff_ffff_f000, 1).is_some());
    assert!(TableAlloc::new(0xffff_ffff_f000, 2).is_none());
    assert!(TableAlloc::new(0, usize::MAX).is_none());
    let a = TableAlloc::new(0x4000, 3).unwrap();
    assert_eq!(a.base(), 0x4000);
    assert_eq!(a.capacity(), 3);
    assert_eq!(a.frames(), 0);
    assert!(!a.is_full());
    assert_eq!(a.frame_addr(2), 0x6000);
}

#[test]
fn new_table_maps_nothing() {
    let (access, table) = arena(4);
    assert_eq!(table.paddr(), 0x8000_0000);
    assert_eq!(table.level(), 4);
    assert_eq!(access.frames(), 1);
    assert_eq!(table.query(&access, 0), None);
    assert_eq!(table.query(&access, 0x1234_5000), None);
    assert_eq!(table.translate(&access, 0xffff_ffff_f000), None);
    assert!(words(&access).iter().all(|w| *w == 0));
}

#[test]
fn create_empty_fails_on_a_full_arena() {
    let mut access = TableAlloc::new(0x1000, 1).unwrap();
    assert!(PageTableRef::create_empty(&mut access).is_ok());
    assert!(access.is_full());
    assert_eq!(
        PageTableRef::create_empty(&mut access).err(),
        Some(MapError::AllocatorExhausted)
    );
    let mut none = TableAlloc::new(0x1000, 0).unwrap();
    assert_eq!(PageTableRef::create_empty(&mut none).err(), Some(MapError::AllocatorExhausted));
}

#[test]
fn decompose_takes_the_largest_aligned_block() {
    let c = config(2 * MB, 0x4000_0000 + 2 * MB);
    let blocks = decompose(&c, 4 * MB + 8 * KB, true).unwrap();
    assert_eq!(levels(&blocks), vec![2, 2, 1, 1]);
    assert_eq!(
        blocks[0],
        Block { vaddr: 2 * MB, paddr: 0x4000_0000 + 2 * MB, level: 2 }
    );
    assert_eq!(
        blocks[3],
        Block { vaddr: 6 * MB + 4 * KB, paddr: 0x4000_0000 + 6 * MB + 4 * KB, level: 1 }
    );
}

#[test]
fn decompose_uses_a_gigabyte_block_where_both_bases_allow() {
    let blocks = decompose(&config(GB, 3 * GB), GB + 2 * MB, true).unwrap();
    assert_eq!(levels(&blocks), vec![3, 2]);
    // the physical base is only 2 MiB-aligned: no 1 GiB block
    let blocks = decompose(&config(GB, 3 * GB + 2 * MB), GB, true).unwrap();
    assert_eq!(blocks.len(), 512);
    assert!(blocks.iter().all(|b| b.level == 2));
    // the virtual base is only page-aligned: pages up to the first 2 MiB
    // boundary that both share, which never comes
    let blocks = decompose(&config(4 * KB, 2 * MB), 2 * MB, true).unwrap();
    assert_eq!(blocks.len(), 512);
    assert!(blocks.iter().all(|b| b.level == 1));
}

#[test]
fn decompose_reaches_alignment_with_pages_then_uses_blocks() {
    let start = 2 * MB - 8 * KB;
    let blocks = decompose(&config(start, GB + start), 8 * KB + 2 * MB + 4 * KB, true).unwrap();
    assert_eq!(levels(&blocks), vec![1, 1, 2, 1]);
    assert_eq!(blocks[2].vaddr, 2 * MB);
    assert_eq!(blocks[2].paddr, GB + 2 * MB);
}

#[test]
fn decompose_without_blocks_is_all_pages() {
    let blocks = decompose(&config(2 * MB, 2 * MB), 2 * MB, false).unwrap();
    assert_eq!(blocks.len(), 512);
    assert!(blocks.iter().all(|b| b.level == 1));
    for (i, b) in blocks.iter().enumerate() {
        assert_eq!(b.vaddr, 2 * MB + i * 4 * KB);
    }
}

#[test]
fn decompose_takes_the_region_in_whole_pages() {
    assert_eq!(decompose(&config(0x1000, 0x1000), 0, true).unwrap(), vec![]);
    assert_eq!(levels(&decompose(&config(0x1000, 0x1000), 1, true).unwrap()), vec![1]);
    assert_eq!(levels(&decompose(&config(0x1000, 0x1000), 4097, true).unwrap()), vec![1, 1]);
    assert_eq!(levels(&decompose(&config(2 * MB, 2 * MB), 2 * MB - 1, true).unwrap()), vec![2]);
}

#[test]
fn decompose_rejects_misaligned_bases() {
    assert_eq!(decompose(&config(0x1001, 0x2000), 0x1000, true), Err(MapError::Misaligned));
    assert_eq!(decompose(&config(0x1000, 0x2800), 0x1000, true), Err(MapError::Misaligned));
}

#[test]
fn decomposition_is_minimal_for_aligned_regions() {
    // every other tiling of these regions by aligned blocks has at least as
    // many parts: count the blocks of the greedy one against the best that a
    // search over all tilings finds
    fn best(va: usize, pa: usize, len: usize) -> usize {
        let pages = len / (4 * KB);
        let mut least = vec![usize::MAX; pages + 1];
        least[pages] = 0;
        for i in (0..pages).rev() {
            for size in [4 * KB, 2 * MB, GB] {
                let at = i * 4 * KB;
                let n = size / (4 * KB);
                if i + n <= pages && (va + at) % size == 0 && (pa + at) % size == 0 {
                    least[i] = least[i].min(1 + least[i + n]);
                }
            }
        }
        least[0]
    }
    for (va, pa, len) in [
        (0, 0, 16 * KB),
        (2 * MB - 8 * KB, 4 * MB - 8 * KB, 2 * MB + 16 * KB),
        (2 * MB, 6 * MB, 4 * MB + 4 * KB),
        (GB - 2 * MB, 3 * GB - 2 * MB, GB + 4 * MB),
    ] {
        let blocks = decompose(&config(va, pa), len, true).unwrap();
        assert_eq!(blocks.len(), best(va, pa, len));
    }
}

#[test]
fn map_one_page() {
    let (mut access, mut table) = arena(8);
    let c = config(0x40_1000, 0x9000_3000);
    assert_eq!(table.map_region(c, 0x1000, true, &mut access), Ok(()));
    // three tables were made under the root
    assert_eq!(access.frames(), 4);
    assert_eq!(table.query(&access, 0x40_1000), Some((1, leaf(0x9000_3000, 1, c.setting))));
    assert_eq!(table.translate(&access, 0x40_1abc), Some(0x9000_3abc));
    assert_eq!(table.query(&access, 0x40_0fff), None);
    assert_eq!(table.query(&access, 0x40_2000), None);
}

#[test]
fn map_region_uses_blocks() {
    let (mut access, mut table) = arena(8);
    let c = config(GB, 2 * GB);
    assert_eq!(table.map_region(c, GB + 2 * MB + 4 * KB, true, &mut access), Ok(()));
    assert_eq!(table.query(&access, GB), Some((3, leaf(2 * GB, 3, c.setting))));
    assert_eq!(table.query(&access, 2 * GB - 1), Some((3, leaf(2 * GB, 3, c.setting))));
    assert_eq!(table.query(&access, 2 * GB), Some((2, leaf(3 * GB, 2, c.setting))));
    assert_eq!(
        table.query(&access, 2 * GB + 2 * MB),
        Some((1, leaf(3 * GB + 2 * MB, 1, c.setting)))
    );
    assert_eq!(table.query(&access, 2 * GB + 2 * MB + 4 * KB), None);
    assert_eq!(table.translate(&access, GB + 0x1234_5678), Some(2 * GB as u64 + 0x1234_5678));
    assert_eq!(
        table.translate(&access, 2 * GB + 0x12_3456),
        Some(3 * GB as u64 + 0x12_3456)
    );
    // root, one table of each lower level
    assert_eq!(access.frames(), 4);
}

#[test]
fn table_words_are_what_the_hardware_walks() {
    let (mut access, mut table) = arena(8);
    let c = config(0x40_1000, 0x9000_3000);
    table.map_region(c, 0x1000, true, &mut access).unwrap();
    // root entry 0 points to frame 1, which points to frame 2, which points
    // to frame 3, whose entry 1 is the page
    let l4 = PageTableImpl::read_pte(access.word(0, 0));
    assert!(l4.is_valid && !l4.is_block);
    assert_eq!(l4.paddr, access.frame_addr(1));
    let l3 = PageTableImpl::read_pte(access.word(1, 0));
    assert_eq!(l3.paddr, access.frame_addr(2));
    let l2 = PageTableImpl::read_pte(access.word(2, 2));
    assert_eq!(l2.paddr, access.frame_addr(3));
    let page = PageTableImpl::read_pte(access.word(3, 1));
    assert!(page.is_valid && !page.is_block);
    assert_eq!(page.paddr, 0x9000_3000);
    assert_eq!(page.setting, c.setting);
    let written = words(&access).iter().filter(|w| **w != 0).count();
    assert_eq!(written, 4);
}

#[test]
fn map_region_rejects_misaligned_bases_and_changes_nothing() {
    let (mut access, mut table) = arena(8);
    let before = words(&access);
    assert_eq!(
        table.map_region(config(0x1800, 0x2000), 0x1000, true, &mut access),
        Err(MapError::Misaligned)
    );
    assert_eq!(
        table.map_region(config(0x1000, 0x2004), 0x1000, true, &mut access),
        Err(MapError::Misaligned)
    );
    assert_eq!(
        table.map_region(config(0x1001, 0x2000), 0, true, &mut access),
        Err(MapError::Misaligned)
    );
    assert_eq!(words(&access), before);
}

#[test]
fn mapping_nothing_changes_nothing() {
    let (mut access, mut table) = arena(8);
    let before = words(&access);
    assert_eq!(table.map_region(config(0x1000, 0x2000), 0, true, &mut access), Ok(()));
    assert_eq!(words(&access), before);
}

#[test]
fn remapping_the_same_is_no_conflict() {
    let (mut access, mut table) = arena(8);
    let c = config(2 * MB, 4 * MB);
    assert_eq!(table.map_region(c, 2 * MB + 8 * KB, true, &mut access), Ok(()));
    let before = words(&access);
    assert_eq!(table.map_region(c, 2 * MB + 8 * KB, true, &mut access), Ok(()));
    assert_eq!(words(&access), before);
}

#[test]
fn remapping_with_other_settings_is_a_conflict() {
    let (mut access, mut table) = arena(8);
    let c = config(0x1000, 0x5000);
    table.map_region(c, 0x2000, true, &mut access).unwrap();
    let before = words(&access);
    // other rights
    let other = MapConfig::new(0x1000, 0x5000, rx(), CacheSetting::Normal);
    assert_eq!(table.map_region(other, 0x1000, true, &mut access), Err(MapError::Conflict));
    // another physical address
    assert_eq!(
        table.map_region(config(0x2000, 0x9000), 0x1000, true, &mut access),
        Err(MapError::Conflict)
    );
    // another cache policy
    let device = MapConfig::new(0x1000, 0x5000, rw(), CacheSetting::Device);
    assert_eq!(table.map_region(device, 0x1000, true, &mut access), Err(MapError::Conflict));
    assert_eq!(words(&access), before);
    assert_eq!(table.query(&access, 0x1000), Some((1, leaf(0x5000, 1, c.setting))));
}

#[test]
fn a_block_over_mapped_pages_is_a_conflict() {
    let (mut access, mut table) = arena(8);
    let page = config(2 * MB + 4 * KB, 2 * MB + 4 * KB);
    table.map_region(page, 4 * KB, true, &mut access).unwrap();
    let before = words(&access);
    assert_eq!(
        table.map_region(config(2 * MB, 2 * MB), 2 * MB, true, &mut access),
        Err(MapError::Conflict)
    );
    assert_eq!(words(&access), before);
}

#[test]
fn a_page_under_a_mapped_block_is_a_conflict() {
    let (mut access, mut table) = arena(8);
    table.map_region(config(2 * MB, 2 * MB), 2 * MB, true, &mut access).unwrap();
    let before = words(&access);
    assert_eq!(
        table.map_region(config(2 * MB + 4 * KB, 2 * MB + 4 * KB), 4 * KB, true, &mut access),
        Err(MapError::Conflict)
    );
    assert_eq!(words(&access), before);
}

#[test]
fn conflict_in_the_middle_keeps_what_was_written_before() {
    let (mut access, mut table) = arena(8);
    let held = MapConfig::new(0x3000, 0x7_3000, rx(), CacheSetting::Normal);
    table.map_region(held, 0x1000, true, &mut access).unwrap();
    let c = config(0x1000, 0x5000);
    assert_eq!(table.map_region(c, 0x4000, true, &mut access), Err(MapError::Conflict));
    assert_eq!(table.query(&access, 0x1000), Some((1, leaf(0x5000, 1, c.setting))));
    assert_eq!(table.query(&access, 0x2000), Some((1, leaf(0x6000, 1, c.setting))));
    assert_eq!(table.query(&access, 0x3000), Some((1, leaf(0x7_3000, 1, held.setting))));
    assert_eq!(table.query(&access, 0x4000), None);
}

#[test]
fn full_arena_exhausts_and_corrupts_nothing() {
    let mut access = TableAlloc::new(0x8000_0000, 5).unwrap();
    let mut table = PageTableRef::create_empty(&mut access).unwrap();
    let held = config(0x1000, 0x5000);
    table.map_region(held, 0x1000, true, &mut access).unwrap();
    // fill the arena to its capacity
    let _other = PageTableRef::create_empty(&mut access).unwrap();
    assert!(access.is_full());
    let before = words(&access);
    // a page under another 1 GiB entry needs two tables
    assert_eq!(
        table.map_region(config(GB, GB), 0x1000, true, &mut access),
        Err(MapError::AllocatorExhausted)
    );
    assert_eq!(words(&access), before);
    assert_eq!(table.query(&access, 0x1000), Some((1, leaf(0x5000, 1, held.setting))));
    assert_eq!(table.query(&access, GB), None);
    // what needs no table still goes in
    assert_eq!(table.map_region(config(0x2000, 0x6000), 0x1000, true, &mut access), Ok(()));
    assert_eq!(table.map_region(config(512 * GB, 0), GB, true, &mut access),
        Err(MapError::AllocatorExhausted));
}

#[test]
fn exhaustion_half_way_keeps_valid_entries() {
    let mut access = TableAlloc::new(0x8000_0000, 3).unwrap();
    let mut table = PageTableRef::create_empty(&mut access).unwrap();
    // a page needs three tables, two are there
    assert_eq!(
        table.map_region(config(0x1000, 0x5000), 0x1000, true, &mut access),
        Err(MapError::AllocatorExhausted)
    );
    assert!(access.is_full());
    assert_eq!(table.query(&access, 0x1000), None);
    // a 1 GiB block needs only the table that was made
    assert_eq!(table.map_region(config(2 * GB, GB), GB, true, &mut access), Ok(()));
    assert_eq!(table.translate(&access, 2 * GB + 5), Some(GB as u64 + 5));
}

#[test]
fn three_free_frames_are_enough_for_a_block() {
    let mut access = TableAlloc::new(0x8000_0000, 4).unwrap();
    let mut table = PageTableRef::create_empty(&mut access).unwrap();
    assert_eq!(table.map_region(config(0x1000, 0x5000), 0x1000, true, &mut access), Ok(()));
    assert!(access.is_full());
}

#[test]
fn tables_of_one_arena_do_not_touch_each_other() {
    let mut access = TableAlloc::new(0x8000_0000, 16).unwrap();
    let mut first = PageTableRef::create_empty(&mut access).unwrap();
    let mut second = PageTableRef::create_empty(&mut access).unwrap();
    first.map_region(config(0x1000, 0x5000), 0x1000, true, &mut access).unwrap();
    second.map_region(config(0x1000, 0x9000), 0x2000, true, &mut access).unwrap();
    assert_eq!(first.translate(&access, 0x1000), Some(0x5000));
    assert_eq!(first.translate(&access, 0x2000), None);
    assert_eq!(second.translate(&access, 0x1000), Some(0x9000));
    assert_eq!(second.translate(&access, 0x2000), Some(0xa000));
}

#[test]
fn map_config_builders() {
    let mut c = MapConfig::new(0x1000, 0x2000, rw(), CacheSetting::Device);
    assert_eq!(c.vaddr, 0x1000);
    assert_eq!(c.paddr, 0x2000);
    assert!(c.setting.is_global);
    assert_eq!(c.setting.privilege_access, rw());
    assert_eq!(c.setting.user_access, AccessSetting::empty());
    assert_eq!(c.setting.cache_setting, CacheSetting::Device);
    let with_user = c.set_user_access(rx());
    assert_eq!(with_user.setting.user_access, rx());
    assert_eq!(c.setting.user_access, rx());
    assert_eq!(with_user, c);
}

#[test]
fn regions_up_to_the_address_limit_are_addressable() {
    let limit: usize = 1 << 48;
    assert!(is_addressable(&config(0, 0), limit));
    assert!(is_addressable(&config(limit - 0x1000, limit - 0x1000), 0x1000));
    assert!(is_addressable(&config(limit - 0x1000, 0), 1));
    assert!(is_addressable(&config(limit, limit), 0));
    assert!(!is_addressable(&config(limit - 0x1000, 0), 0x1001));
    assert!(!is_addressable(&config(0, limit - 0x1000), 0x1001));
    assert!(!is_addressable(&config(limit + 0x1000, 0), 0));
    assert!(!is_addressable(&config(0, 0), usize::MAX));
    assert!(!is_addressable(&config(usize::MAX, 0), 1));
}

#[test]
fn tables_needed_counts_each_table_once() {
    let (mut access, mut table) = arena(64);
    // one page under a new table of each level
    let page = config(0x40_1000, 0x9000_3000);
    assert_eq!(table.tables_needed(&access, &page, 0x1000, true), 3);
    // 513 pages that start at the last page of one level-1 table
    let run = config(2 * MB - 4 * KB, 2 * MB - 4 * KB);
    assert_eq!(table.tables_needed(&access, &run, 2 * MB + 4 * KB, false), 4);
    // a 2 MiB block needs no level-1 table, a 1 GiB block only the first
    assert_eq!(table.tables_needed(&access, &config(2 * MB, 2 * MB), 2 * MB, true), 2);
    assert_eq!(table.tables_needed(&access, &config(GB, GB), GB, true), 1);
    assert_eq!(table.tables_needed(&access, &config(GB, GB), 0, true), 0);
    // two level-3 tables where the region crosses a 512 GiB boundary
    let across = config(512 * GB - 4 * KB, 0);
    assert_eq!(table.tables_needed(&access, &across, 8 * KB, true), 6);

    // what is there already is not counted again
    let used = access.frames();
    assert_eq!(table.map_region(page, 0x1000, true, &mut access), Ok(()));
    assert_eq!(access.frames(), used + 3);
    assert_eq!(table.tables_needed(&access, &page, 0x1000, true), 0);
    assert_eq!(table.tables_needed(&access, &config(0x40_2000, 0), 0x1000, true), 0);
    assert_eq!(table.tables_needed(&access, &config(0x20_0000, 0), 0x1000, true), 1);
    assert_eq!(table.tables_needed(&access, &config(GB, 0), 0x1000, true), 2);
    // the two level-1 tables of the run are both still to be made
    assert_eq!(table.tables_needed(&access, &run, 2 * MB + 4 * KB, false), 2);
}

#[test]
fn map_region_takes_the_frames_that_tables_needed_says() {
    for (va, len, blocks) in [
        (2 * MB - 8 * KB, 2 * MB + 16 * KB, true),
        (GB - 2 * MB, GB + 4 * MB, true),
        (6 * MB, 6 * MB, false),
        (512 * GB - 4 * MB, 8 * MB, true),
    ] {
        let (mut access, mut table) = arena(64);
        table.map_region(config(0x7000, 0x7000), 0x3000, true, &mut access).unwrap();
        let c = config(va, va);
        let needed = table.tables_needed(&access, &c, len, blocks);
        let used = access.frames();
        assert_eq!(table.map_region(c, len, blocks, &mut access), Ok(()));
        assert_eq!(access.frames(), used + needed);

        // with one frame less, the mapping exhausts the arena
        if needed > 0 {
            let mut small = TableAlloc::new(0x8000_0000, 4 + needed - 1).unwrap();
            let mut t = PageTableRef::create_empty(&mut small).unwrap();
            t.map_region(config(0x7000, 0x7000), 0x3000, true, &mut small).unwrap();
            assert_eq!(t.tables_needed(&small, &c, len, blocks), needed);
            assert_eq!(
                t.map_region(c, len, blocks, &mut small),
                Err(MapError::AllocatorExhausted)
            );
            assert!(small.is_full());
        }
    }
}

#[test]
fn first_gap_is_the_level_of_the_first_empty_entry() {
    let (mut access, mut table) = arena(16);
    assert_eq!(table.first_gap(&access, 0x1000), 4);
    table.map_region(config(0x40_1000, 0x9000_3000), 0x1000, true, &mut access).unwrap();
    assert_eq!(table.first_gap(&access, 0x40_1000), 0);
    assert_eq!(table.first_gap(&access, 0x40_2000), 1);
    assert_eq!(table.first_gap(&access, 0x20_0000), 2);
    assert_eq!(table.first_gap(&access, GB), 3);
    assert_eq!(table.first_gap(&access, 512 * GB), 4);
    table.map_region(config(GB, GB), GB, true, &mut access).unwrap();
    assert_eq!(table.first_gap(&access, GB + 5), 0);
}

#[test]
fn mapping_writes_only_over_words_that_were_not_valid() {
    let (mut access, mut table) = arena(5);
    table.map_region(config(0x1000, 0x5000), 0x1000, true, &mut access).unwrap();
    let frames_before = access.frames();
    assert_eq!(frames_before, 4);
    let before = words(&access);
    // two pages beside the first, then a 2 MiB block, then pages under
    // another 1 GiB entry, for whose second table no frame is left
    let request = config(0x1f_e000, 0x20_0000 + 0x1f_e000);
    let blocks = decompose(&request, 2 * MB + 0x2000, true).unwrap();
    assert_eq!(levels(&blocks), vec![1, 1, 2]);
    assert_eq!(table.map_region(request, 2 * MB + 0x2000, true, &mut access), Ok(()));
    assert_eq!(access.frames(), frames_before);
    assert_eq!(
        table.map_region(config(GB, GB), 0x1000, true, &mut access),
        Err(MapError::AllocatorExhausted)
    );
    assert_eq!(access.frames(), 5);
    let after = words(&access);
    let mut written: Vec<u64> = blocks.iter().map(|b| leaf(b.paddr, b.level, request.setting)).collect();
    for frame in frames_before..access.frames() {
        written.push(leaf(access.frame_addr(frame), 1, request.setting));
    }
    let mut changed = 0;
    for (i, old) in before.iter().enumerate() {
        if after[i] != *old {
            changed += 1;
            assert_eq!(*old & 1, 0);
            assert!(written.contains(&after[i]));
        }
    }
    // three blocks, and the entry of the one table that was made in a frame
    // that was in use
    assert_eq!(changed, 4);
}
