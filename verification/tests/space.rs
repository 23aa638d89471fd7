use qhyper::addr::{PhysAddrRange, VirtAddrRange};
use qhyper::pte::{AccessSetting, CacheSetting};
use qhyper::space::{Space, SpaceError, SpaceSetBuilder, SPACE_CAPACITY};

fn space(name: &'static str, start: usize, end: usize, offset: usize) -> Space {
    Space {
        name,
        phys: PhysAddrRange { start, end },
        offset,
        access: AccessSetting { read: true, write: true, execute: false },
        cache: CacheSetting::Normal,
    }
}

#[test]
fn virt_is_phys_moved_up_by_the_offset() {
    let s = space(".text", 0x4008_0000, 0x4009_0000, 0xffff_0000_0000);
    assert!(s.is_wf());
    assert_eq!(
        s.virt(),
        VirtAddrRange { start: 0xffff_4008_0000, end: 0xffff_4009_0000 }
    );
    assert_eq!(s.virt().size(), s.phys.size());
}

#[test]
fn ranges_know_their_size_and_their_overlaps() {
    let a = VirtAddrRange { start: 0x1000, end: 0x3000 };
    let b = VirtAddrRange { start: 0x2fff, end: 0x4000 };
    let c = VirtAddrRange { start: 0x3000, end: 0x4000 };
    assert_eq!(a.size(), 0x2000);
    assert!(a.contains(0x1000) && a.contains(0x2fff) && !a.contains(0x3000) && !a.contains(0xfff));
    assert!(a.overlaps(&b) && b.overlaps(&a));
    assert!(!a.overlaps(&c) && !c.overlaps(&a));
    assert_eq!(VirtAddrRange::try_new(2, 1), None);
    assert_eq!(VirtAddrRange::try_new(1, 1), Some(VirtAddrRange { start: 1, end: 1 }));
    assert_eq!(PhysAddrRange::try_new(5, 4), None);
    assert_eq!(PhysAddrRange::try_new(4, 9).map(|r| r.size()), Some(5));
}

#[test]
fn registry_keeps_the_order_of_registration() {
    let mut set = SpaceSetBuilder::new();
    assert_eq!(set.len(), 0);
    assert_eq!(set.push(space("a", 0x1000, 0x2000, 0)), Ok(()));
    assert_eq!(set.push(space("b", 0x3000, 0x4000, 0)), Ok(()));
    assert_eq!(set.push(space("c", 0x2000, 0x3000, 0)), Ok(()));
    assert_eq!(set.len(), 3);
    let set = set.build();
    assert_eq!(set.len(), 3);
    let names: Vec<&str> = set.iter().iter().map(|s| s.name).collect();
    assert_eq!(names, vec!["a", "b", "c"]);
    assert_eq!(set.get(1), space("b", 0x3000, 0x4000, 0));
}

#[test]
fn overlapping_region_is_rejected() {
    let mut set = SpaceSetBuilder::new();
    set.push(space("a", 0x1000, 0x3000, 0)).unwrap();
    assert_eq!(set.push(space("b", 0x2000, 0x4000, 0)), Err(SpaceError::Overlap));
    assert_eq!(set.push(space("c", 0x0, 0x1001, 0)), Err(SpaceError::Overlap));
    assert_eq!(set.push(space("d", 0x1800, 0x2000, 0)), Err(SpaceError::Overlap));
    assert_eq!(set.push(space("e", 0x0, 0x8000, 0)), Err(SpaceError::Overlap));
    // the same region again
    assert_eq!(set.push(space("a", 0x1000, 0x3000, 0)), Err(SpaceError::Overlap));
    assert_eq!(set.len(), 1);
    assert_eq!(set.build().iter(), vec![space("a", 0x1000, 0x3000, 0)]);
}

#[test]
fn overlap_is_judged_on_virtual_ranges() {
    let mut set = SpaceSetBuilder::new();
    set.push(space("a", 0x1000, 0x2000, 0x10_0000)).unwrap();
    // the same physical range at another virtual place is another region
    assert_eq!(set.push(space("b", 0x1000, 0x2000, 0x20_0000)), Ok(()));
    // another physical range at the same virtual place is not
    assert_eq!(set.push(space("c", 0x10_1000, 0x10_2000, 0)), Err(SpaceError::Overlap));
    let set = set.build();
    for (i, a) in set.iter().iter().enumerate() {
        for (j, b) in set.iter().iter().enumerate() {
            if i != j {
                assert!(!a.virt().overlaps(&b.virt()));
            }
        }
    }
}

#[test]
fn invalid_region_is_rejected() {
    let mut set = SpaceSetBuilder::new();
    assert_eq!(set.push(space("a", 0x2000, 0x1000, 0)), Err(SpaceError::InvalidRange));
    assert_eq!(set.push(space("b", 0x1000, 0x2000, usize::MAX)), Err(SpaceError::InvalidRange));
    assert!(!space("b", 0x1000, 0x2000, usize::MAX).is_wf());
    assert_eq!(set.push(space("c", 0x1000, 0x2000, usize::MAX - 0x2000)), Ok(()));
    assert_eq!(set.len(), 1);
}

#[test]
fn registry_is_full_at_its_capacity() {
    assert_eq!(SPACE_CAPACITY, 24);
    let mut set = SpaceSetBuilder::new();
    for i in 0..24 {
        assert_eq!(set.push(space("s", i * 0x1000, (i + 1) * 0x1000, 0)), Ok(()));
    }
    assert_eq!(set.len(), 24);
    assert_eq!(
        set.push(space("last", 24 * 0x1000, 25 * 0x1000, 0)),
        Err(SpaceError::CapacityExceeded)
    );
    // an overlap is told even when the registry is full
    assert_eq!(set.push(space("dup", 0, 0x1000, 0)), Err(SpaceError::Overlap));
    assert_eq!(set.len(), 24);
    let set = set.build();
    assert_eq!(set.iter().len(), 24);
    assert_eq!(set.get(23).phys.start, 23 * 0x1000);
}

#[test]
fn empty_registry() {
    let set = SpaceSetBuilder::new().build();
    assert_eq!(set.len(), 0);
    assert_eq!(set.iter(), vec![]);
}
