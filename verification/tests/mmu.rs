use qhyper::addr::{PhysAddrRange, VirtAddrRange};
use qhyper::mmu::{
    activation_steps, check_addressable, init, map_k_range, map_range,
    secondary_activation_steps, Activation, ActivationStep,
};
use qhyper::pte::{AccessSetting, CacheSetting, PTEGeneric, PTESetting, PageTableImpl};
use qhyper::space::{Space, SpaceError, SpaceSetBuilder};
use qhyper::table::arena::{MapError, PageTableRef, TableAlloc};

const MB: usize = 1024 * 1024;

fn rx() -> AccessSetting {
    AccessSetting { read: true, write: false, execute: true }
}

fn rwx() -> AccessSetting {
    AccessSetting { read: true, write: true, execute: true }
}

fn space(name: &'static str, start: usize, end: usize, offset: usize, access: AccessSetting, cache: CacheSetting) -> Space {
    Space { name, phys: PhysAddrRange { start, end }, offset, access, cache }
}

fn setting(access: AccessSetting, cache: CacheSetting) -> PTESetting {
    PTESetting {
        is_global: true,
        privilege_access: access,
        user_access: AccessSetting::empty(),
        cache_setting: cache,
    }
}

fn leaf(paddr: usize, level: usize, setting: PTESetting) -> u64 {
    PageTableImpl::new_pte(PTEGeneric { paddr, is_block: level > 1, is_valid: true, setting })
}

#[test]
fn init_maps_every_registered_region() {
    let offset = 0x40_0000_0000;
    let mut spaces = SpaceSetBuilder::new();
    spaces.push(space(".text", 0x4020_0000, 0x4040_0000, offset, rx(), CacheSetting::Normal)).unwrap();
    spaces.push(space(".data", 0x4040_0000, 0x4040_3000, offset, rwx(), CacheSetting::Normal)).unwrap();
    spaces.push(space("uart", 0x0900_0000, 0x0900_1000, 0, rwx(), CacheSetting::Device)).unwrap();
    let spaces = spaces.build();
    assert!(check_addressable(&spaces));
    let mut access = TableAlloc::new(0x8000_0000, 32).unwrap();
    let table = init(&spaces, &mut access).unwrap();
    assert_eq!(table.paddr(), 0x8000_0000);
    // the code is one 2 MiB block
    assert_eq!(
        table.query(&access, offset + 0x4020_0000),
        Some((2, leaf(0x4020_0000, 2, setting(rx(), CacheSetting::Normal))))
    );
    assert_eq!(table.translate(&access, offset + 0x4030_1234), Some(0x4030_1234));
    // the data are three pages
    assert_eq!(
        table.query(&access, offset + 0x4040_2000),
        Some((1, leaf(0x4040_2000, 1, setting(rwx(), CacheSetting::Normal))))
    );
    assert_eq!(table.query(&access, offset + 0x4040_3000), None);
    // the device window is mapped where it lies
    assert_eq!(
        table.query(&access, 0x0900_0000),
        Some((1, leaf(0x0900_0000, 1, setting(rwx(), CacheSetting::Device))))
    );
    assert_eq!(table.query(&access, 0x4020_0000), None);
}

#[test]
fn init_of_an_empty_registry_is_an_empty_table() {
    let spaces = SpaceSetBuilder::new().build();
    let mut access = TableAlloc::new(0x8000_0000, 1).unwrap();
    let table = init(&spaces, &mut access).unwrap();
    assert_eq!(access.frames(), 1);
    assert_eq!(table.query(&access, 0x1000), None);
}

#[test]
fn init_fails_when_the_arena_is_too_small() {
    let mut spaces = SpaceSetBuilder::new();
    spaces.push(space("a", 0x1000, 0x2000, 0, rwx(), CacheSetting::Normal)).unwrap();
    let spaces = spaces.build();
    let mut none = TableAlloc::new(0x8000_0000, 0).unwrap();
    assert_eq!(init(&spaces, &mut none).err(), Some(MapError::AllocatorExhausted));
    let mut small = TableAlloc::new(0x8000_0000, 3).unwrap();
    assert_eq!(init(&spaces, &mut small).err(), Some(MapError::AllocatorExhausted));
    assert!(small.is_full());
    let mut enough = TableAlloc::new(0x8000_0000, 4).unwrap();
    assert!(init(&spaces, &mut enough).is_ok());
}

#[test]
fn init_takes_exactly_the_frames_of_its_tables() {
    let offset = 0x40_0000_0000;
    let build = |frames: usize| {
        let mut spaces = SpaceSetBuilder::new();
        spaces.push(space(".text", 0x4020_0000, 0x4040_0000, offset, rx(), CacheSetting::Normal)).unwrap();
        spaces.push(space(".data", 0x4040_0000, 0x4040_3000, offset, rwx(), CacheSetting::Normal)).unwrap();
        spaces.push(space("uart", 0x0900_0000, 0x0900_1000, 0, rwx(), CacheSetting::Device)).unwrap();
        let mut access = TableAlloc::new(0x8000_0000, frames).unwrap();
        let result = init(&spaces.build(), &mut access);
        (result.map(|table| table.paddr()), access.frames())
    };
    // the root; a level-3 and a level-2 table for the block of the code; a
    // level-1 table for the pages of the data; a level-2 and a level-1
    // table for the page of the device
    assert_eq!(build(6), (Ok(0x8000_0000), 6));
    assert_eq!(build(7), (Ok(0x8000_0000), 6));
    assert_eq!(build(32), (Ok(0x8000_0000), 6));
    for frames in 0..6 {
        assert_eq!(build(frames), (Err(MapError::AllocatorExhausted), frames));
    }
}

#[test]
fn init_stops_at_the_first_region_that_cannot_be_mapped() {
    let build = |aligned_first: bool, frames: usize| {
        let aligned = space("a", 0x1000, 0x2000, 0, rwx(), CacheSetting::Normal);
        let misaligned = space("b", 0x4000_0800, 0x4000_1800, 0, rwx(), CacheSetting::Normal);
        let mut spaces = SpaceSetBuilder::new();
        if aligned_first {
            spaces.push(aligned).unwrap();
            spaces.push(misaligned).unwrap();
        } else {
            spaces.push(misaligned).unwrap();
            spaces.push(aligned).unwrap();
        }
        let mut access = TableAlloc::new(0x8000_0000, frames).unwrap();
        init(&spaces.build(), &mut access).err()
    };
    // the page of the first region takes the root and three tables
    assert_eq!(build(true, 3), Some(MapError::AllocatorExhausted));
    assert_eq!(build(true, 4), Some(MapError::Misaligned));
    assert_eq!(build(true, 16), Some(MapError::Misaligned));
    // before a region that is not aligned, only the root is made
    assert_eq!(build(false, 0), Some(MapError::AllocatorExhausted));
    assert_eq!(build(false, 1), Some(MapError::Misaligned));
}

#[test]
fn init_leaves_other_tables_alone() {
    let mut access = TableAlloc::new(0x8000_0000, 32).unwrap();
    let mut other = PageTableRef::create_empty(&mut access).unwrap();
    let range = VirtAddrRange { start: 0x1000, end: 0x3000 };
    map_range(&mut other, &range, rwx(), CacheSetting::Normal, &mut access, 0, false).unwrap();
    let held = access.frames();
    let before: Vec<u64> =
        (0..held * 512).map(|i| access.word(i / 512, i % 512)).collect();
    let mut spaces = SpaceSetBuilder::new();
    spaces.push(space("a", 0x1000, 0x2000, 0x10_0000, rx(), CacheSetting::Normal)).unwrap();
    let table = init(&spaces.build(), &mut access).unwrap();
    assert_eq!(access.frames(), held + 4);
    let after: Vec<u64> = (0..held * 512).map(|i| access.word(i / 512, i % 512)).collect();
    assert_eq!(after, before);
    assert_ne!(table.paddr(), other.paddr());
    assert_eq!(other.translate(&access, 0x1000), Some(0x1000));
    assert_eq!(other.translate(&access, 0x2fff), Some(0x2fff));
    assert_eq!(other.translate(&access, 0x10_1000), None);
    assert_eq!(table.translate(&access, 0x10_1000), Some(0x1000));
    assert_eq!(table.translate(&access, 0x1000), None);
}

#[test]
fn init_reports_a_misaligned_region() {
    let mut spaces = SpaceSetBuilder::new();
    spaces.push(space("a", 0x1800, 0x2800, 0, rwx(), CacheSetting::Normal)).unwrap();
    let mut access = TableAlloc::new(0x8000_0000, 8).unwrap();
    assert_eq!(init(&spaces.build(), &mut access).err(), Some(MapError::Misaligned));
}

#[test]
fn regions_beyond_the_address_limit_are_not_addressable() {
    let mut spaces = SpaceSetBuilder::new();
    spaces.push(space("a", 0x1000, 0x2000, 0, rwx(), CacheSetting::Normal)).unwrap();
    let mut more = SpaceSetBuilder::new();
    more.push(space("a", 0x1000, 0x2000, 0, rwx(), CacheSetting::Normal)).unwrap();
    more.push(space("high", 0x1000_0000, 0x1000_1000, 0xffff_0000_0000_0000, rwx(), CacheSetting::Normal))
        .unwrap();
    assert!(check_addressable(&spaces.build()));
    assert!(!check_addressable(&more.build()));
}

#[test]
fn map_range_subtracts_the_offset_where_asked() {
    let mut access = TableAlloc::new(0x8000_0000, 32).unwrap();
    let mut table = PageTableRef::create_empty(&mut access).unwrap();
    let text = VirtAddrRange { start: 0x40_4020_0000, end: 0x40_4060_0000 };
    assert_eq!(map_k_range(&mut table, &text, rx(), &mut access, 0x40_0000_0000, true), Ok(()));
    assert_eq!(table.translate(&access, 0x40_4020_0010), Some(0x4020_0010));
    assert_eq!(
        table.query(&access, 0x40_4040_0000),
        Some((2, leaf(0x4040_0000, 2, setting(rx(), CacheSetting::Normal))))
    );
    let stack = VirtAddrRange { start: 0xE100_0000_0000, end: 0xE100_0000_0000 + 2 * MB };
    assert_eq!(map_k_range(&mut table, &stack, rwx(), &mut access, 0x40_0000_0000, false), Ok(()));
    assert_eq!(table.translate(&access, 0xE100_0000_0008), Some(0xE100_0000_0008));
    let uart = VirtAddrRange { start: 0x0900_0000, end: 0x0900_1000 };
    assert_eq!(
        map_range(&mut table, &uart, rwx(), CacheSetting::Device, &mut access, 0, false),
        Ok(())
    );
    assert_eq!(
        table.query(&access, 0x0900_0000),
        Some((1, leaf(0x0900_0000, 1, setting(rwx(), CacheSetting::Device))))
    );
}

#[test]
fn activation_steps_come_in_the_one_order() {
    assert_eq!(
        activation_steps(),
        vec![
            ActivationStep::ProgramMair(0x44_ff00),
            ActivationStep::BuildTables,
            ActivationStep::ProgramTcr(0x5_3510),
            ActivationStep::ProgramTtbr,
            ActivationStep::InstructionBarrier,
            ActivationStep::InvalidateTlb,
            ActivationStep::SyncBarriers,
            ActivationStep::EnableMmu(0x1005),
            ActivationStep::FinalBarrier,
        ]
    );
}

fn built_table() -> Result<PageTableRef, MapError> {
    let mut access = TableAlloc::new(0x9000_0000, 4).unwrap();
    PageTableRef::create_empty(&mut access)
}

fn take(guard: &mut Activation, step: ActivationStep, built: &Result<PageTableRef, MapError>) -> bool {
    match step {
        ActivationStep::BuildTables => guard.tables_built(built),
        _ => guard.advance(step),
    }
}

#[test]
fn activation_takes_no_step_out_of_order() {
    let built = built_table();
    let mut guard = Activation::new();
    assert!(!guard.is_active());
    assert_eq!(guard.next(), Some(ActivationStep::ProgramMair(0x44_ff00)));
    // not the first step, and the first step with another value
    assert!(!guard.tables_built(&built));
    assert!(!guard.advance(ActivationStep::BuildTables));
    assert!(!guard.advance(ActivationStep::EnableMmu(0x1005)));
    assert!(!guard.advance(ActivationStep::ProgramMair(0)));
    assert_eq!(guard.next(), Some(ActivationStep::ProgramMair(0x44_ff00)));
    assert_eq!(guard.root(), None);
    let steps = activation_steps();
    for (i, step) in steps.iter().enumerate() {
        assert!(!guard.is_active());
        assert_eq!(guard.next(), Some(*step));
        // a step that was taken is not taken again
        if i > 0 {
            assert!(!take(&mut guard, steps[i - 1], &built));
        }
        assert_eq!(guard.root().is_some(), i >= 2);
        assert!(take(&mut guard, *step, &built));
    }
    assert!(guard.is_active());
    assert_eq!(guard.root(), Some(0x9000_0000));
    assert_eq!(guard.next(), None);
    assert!(!guard.advance(ActivationStep::FinalBarrier));
    assert!(guard.is_active());
}

#[test]
fn activation_does_not_go_past_a_build_that_failed() {
    let mut full = TableAlloc::new(0x9000_0000, 0).unwrap();
    let failed = PageTableRef::create_empty(&mut full);
    assert!(matches!(failed, Err(MapError::AllocatorExhausted)));
    let mut guard = Activation::new();
    assert!(guard.advance(ActivationStep::ProgramMair(0x44_ff00)));
    assert_eq!(guard.next(), Some(ActivationStep::BuildTables));
    // neither the bare step nor a build that gave no table is accepted
    assert!(!guard.advance(ActivationStep::BuildTables));
    assert!(!guard.tables_built(&failed));
    assert_eq!(guard.next(), Some(ActivationStep::BuildTables));
    assert_eq!(guard.root(), None);
    for step in activation_steps() {
        assert!(!guard.advance(step));
    }
    assert_eq!(guard.next(), Some(ActivationStep::BuildTables));
    // a build that gave a table is
    let built = built_table();
    assert!(guard.tables_built(&built));
    assert_eq!(guard.root(), Some(0x9000_0000));
    assert_eq!(guard.next(), Some(ActivationStep::ProgramTcr(0x5_3510)));
    assert!(!guard.tables_built(&built));
}

#[test]
fn secondary_cpu_waits_for_the_tables_and_builds_none() {
    assert_eq!(secondary_activation_steps(None), None);
    let (root, steps) = secondary_activation_steps(Some(0x8000_0000)).unwrap();
    assert_eq!(root, 0x8000_0000);
    let mut expected = activation_steps();
    expected.retain(|step| *step != ActivationStep::BuildTables);
    assert_eq!(steps, expected);
    assert_eq!(steps.len(), 8);
    assert!(!steps.contains(&ActivationStep::BuildTables));
}

#[test]
fn regions_that_start_on_pages_share_no_page() {
    // a region that reaches into the page of another overlaps it, and the
    // registry does not take it
    let mut spaces = SpaceSetBuilder::new();
    spaces.push(space("a", 0x1000, 0x1800, 0x1000, rwx(), CacheSetting::Normal)).unwrap();
    assert_eq!(
        spaces.push(space("b", 0x1000, 0x2001, 0, rwx(), CacheSetting::Normal)),
        Err(SpaceError::Overlap)
    );
    // regions on neighbouring pages are mapped whatever their rights
    spaces.push(space("c", 0x1000, 0x2000, 0, rx(), CacheSetting::Device)).unwrap();
    spaces.push(space("d", 0x3000, 0x3001, 0, rx(), CacheSetting::NonCache)).unwrap();
    let mut access = TableAlloc::new(0x8000_0000, 8).unwrap();
    let table = init(&spaces.build(), &mut access).unwrap();
    assert_eq!(table.translate(&access, 0x1004), Some(0x1004));
    assert_eq!(table.translate(&access, 0x2004), Some(0x1004));
    assert_eq!(table.translate(&access, 0x3fff), Some(0x3fff));
}

#[test]
fn init_reports_a_region_that_does_not_start_on_a_page() {
    let mut spaces = SpaceSetBuilder::new();
    spaces.push(space("a", 0x1000, 0x1800, 0, rwx(), CacheSetting::Normal)).unwrap();
    spaces.push(space("b", 0x1800, 0x2000, 0, rx(), CacheSetting::Normal)).unwrap();
    let mut access = TableAlloc::new(0x8000_0000, 8).unwrap();
    assert_eq!(init(&spaces.build(), &mut access).err(), Some(MapError::Misaligned));
}
