use qhyper::addr::{PhysAddrRange, VirtAddrRange};
use qhyper::mem::{
    boot_stack_space, kernel_imag_spaces, slice_to_phys_range, BootContext, ImageLayout,
    KERNEL_STACK_BOTTOM,
};
use qhyper::pte::{AccessSetting, CacheSetting};
use qhyper::space::{Space, SpaceError};

const VA_OFFSET: usize = 0xffff_0000_0000;

fn image_at(base: usize) -> ImageLayout {
    ImageLayout::new(
        (base, base + 0x2_0000),
        (base + 0x2_0000, base + 0x2_8000),
        (base + 0x2_8000, base + 0x3_0000),
        (base + 0x3_0000, base + 0x3_4000),
        (base + 0x4_0000, base + 0x5_0000),
        0x4_0000,
    )
    .unwrap()
}

fn rx() -> AccessSetting {
    AccessSetting { read: true, write: false, execute: true }
}

fn rwx() -> AccessSetting {
    AccessSetting { read: true, write: true, execute: true }
}

#[test]
fn layout_hands_out_its_sections() {
    let image = image_at(0x4008_0000);
    assert_eq!(image.text(), VirtAddrRange { start: 0x4008_0000, end: 0x400a_0000 });
    assert_eq!(image.rodata(), VirtAddrRange { start: 0x400a_0000, end: 0x400a_8000 });
    assert_eq!(image.data(), VirtAddrRange { start: 0x400a_8000, end: 0x400b_0000 });
    assert_eq!(image.bss(), VirtAddrRange { start: 0x400b_0000, end: 0x400b_4000 });
    assert_eq!(image.boot_stack(), VirtAddrRange { start: 0x400c_0000, end: 0x400d_0000 });
    assert_eq!(KERNEL_STACK_BOTTOM, 0xE100_0000_0000);
    assert_eq!(
        image.stack(),
        VirtAddrRange { start: 0xE100_0000_0000, end: 0xE100_0004_0000 }
    );
}

#[test]
fn layout_rejects_a_section_that_ends_before_it_starts() {
    let ok = (0x1000, 0x2000);
    assert!(ImageLayout::new(ok, ok, ok, ok, ok, 0).is_some());
    assert!(ImageLayout::new((2, 1), ok, ok, ok, ok, 0).is_none());
    assert!(ImageLayout::new(ok, (2, 1), ok, ok, ok, 0).is_none());
    assert!(ImageLayout::new(ok, ok, (2, 1), ok, ok, 0).is_none());
    assert!(ImageLayout::new(ok, ok, ok, (2, 1), ok, 0).is_none());
    assert!(ImageLayout::new(ok, ok, ok, ok, (2, 1), 0).is_none());
    assert!(ImageLayout::new(ok, ok, ok, ok, ok, usize::MAX).is_none());
}

#[test]
fn phys_range_is_the_range_moved_down() {
    let range = VirtAddrRange { start: 0x5000, end: 0x7000 };
    assert_eq!(
        slice_to_phys_range(&range, 0x1000),
        Some(PhysAddrRange { start: 0x4000, end: 0x6000 })
    );
    assert_eq!(slice_to_phys_range(&range, 0), Some(PhysAddrRange { start: 0x5000, end: 0x7000 }));
    assert_eq!(slice_to_phys_range(&range, 0x5000), Some(PhysAddrRange { start: 0, end: 0x2000 }));
    assert_eq!(slice_to_phys_range(&range, 0x5001), None);
    assert_eq!(slice_to_phys_range(&VirtAddrRange { start: 9, end: 8 }, 0), None);
}

#[test]
fn kernel_spaces_before_translation_is_on() {
    let image = image_at(0x4008_0000);
    let set = kernel_imag_spaces(&image, false, VA_OFFSET).unwrap().build();
    let expected = vec![
        Space {
            name: ".text",
            phys: PhysAddrRange { start: 0x4008_0000, end: 0x400a_0000 },
            offset: VA_OFFSET,
            access: rx(),
            cache: CacheSetting::Normal,
        },
        Space {
            name: ".rodata",
            phys: PhysAddrRange { start: 0x400a_0000, end: 0x400a_8000 },
            offset: VA_OFFSET,
            access: rx(),
            cache: CacheSetting::Normal,
        },
        Space {
            name: ".data",
            phys: PhysAddrRange { start: 0x400a_8000, end: 0x400b_0000 },
            offset: VA_OFFSET,
            access: rwx(),
            cache: CacheSetting::Normal,
        },
        Space {
            name: ".bss",
            phys: PhysAddrRange { start: 0x400b_0000, end: 0x400b_4000 },
            offset: VA_OFFSET,
            access: rwx(),
            cache: CacheSetting::Normal,
        },
    ];
    assert_eq!(set.iter(), expected);
    assert_eq!(set.get(0).virt().start, VA_OFFSET + 0x4008_0000);
}

#[test]
fn kernel_spaces_once_translation_is_on() {
    // the image runs at its virtual addresses: the physical ones lie below
    let image = image_at(VA_OFFSET + 0x4008_0000);
    let virt = kernel_imag_spaces(&image, true, VA_OFFSET).unwrap().build();
    let phys = kernel_imag_spaces(&image_at(0x4008_0000), false, VA_OFFSET).unwrap().build();
    assert_eq!(virt.iter(), phys.iter());
}

#[test]
fn kernel_spaces_fail_on_sections_that_cannot_be_placed() {
    // a section below the displacement has no physical range
    let image = image_at(0x4008_0000);
    assert_eq!(kernel_imag_spaces(&image, true, VA_OFFSET).err(), Some(SpaceError::InvalidRange));
    // a virtual image beyond the address space
    assert_eq!(
        kernel_imag_spaces(&image, false, usize::MAX - 0x1000).err(),
        Some(SpaceError::InvalidRange)
    );
    // sections that overlap
    let ok = (0x1000, 0x2000);
    let overlapping = ImageLayout::new(ok, (0x1800, 0x2800), ok, ok, ok, 0).unwrap();
    assert_eq!(kernel_imag_spaces(&overlapping, false, 0).err(), Some(SpaceError::Overlap));
}

#[test]
fn boot_stack_joins_the_regions_of_the_image() {
    let image = image_at(0x4008_0000);
    let mut spaces = kernel_imag_spaces(&image, false, VA_OFFSET).unwrap();
    assert_eq!(spaces.len(), 4);
    assert_eq!(spaces.push(boot_stack_space(&image).unwrap()), Ok(()));
    let set = spaces.build();
    assert_eq!(set.len(), 5);
    assert_eq!(set.get(4).name, "stack0");
}

#[test]
fn boot_stack_space_maps_the_boot_stack_to_the_kernel_stack() {
    let image = image_at(0x4008_0000);
    let space = boot_stack_space(&image).unwrap();
    assert_eq!(space.name, "stack0");
    assert_eq!(space.phys, PhysAddrRange { start: 0x400c_0000, end: 0x400d_0000 });
    assert_eq!(space.offset, 0xE100_0000_0000 - 0x400c_0000);
    assert_eq!(space.access, rwx());
    assert_eq!(space.cache, CacheSetting::Normal);
    assert_eq!(space.virt().start, 0xE100_0000_0000);
    // a boot stack above the kernel stack cannot be moved up to it
    let ok = (0x1000, 0x2000);
    let high = ImageLayout::new(ok, ok, ok, ok, (0xE100_0000_1000, 0xE100_0000_2000), 0).unwrap();
    assert_eq!(boot_stack_space(&high), None);
}

#[test]
fn va_offset_is_published_once_and_stays() {
    let mut context = BootContext::new();
    assert_eq!(context.try_va_offset(), None);
    assert!(context.set_va(0xffff_0000_0000));
    assert_eq!(context.va_offset(), 0xffff_0000_0000);
    // nothing that is done to the context afterwards changes it
    assert!(!context.set_va(0x1234));
    assert_eq!(context.va_offset(), 0xffff_0000_0000);
    assert!(context.set_fdt(0x4400_0000, vec![1, 2, 3]));
    assert_eq!(context.va_offset(), 0xffff_0000_0000);
    assert!(!context.set_fdt(0x4500_0000, vec![4]));
    assert!(!context.set_va(0));
    assert_eq!(context.va_offset(), 0xffff_0000_0000);
    assert_eq!(context.try_va_offset(), Some(0xffff_0000_0000));
}

#[test]
fn retained_blob_is_read_back() {
    let mut context = BootContext::new();
    assert_eq!(context.fdt_location(), None);
    let empty: &[u8] = &[];
    assert_eq!(context.fdt_data(), empty);
    assert!(context.set_fdt(0x4400_0000, vec![0xd0, 0x0d, 0xfe, 0xed]));
    assert_eq!(context.fdt_location(), Some((0x4400_0000, 4)));
    assert_eq!(context.fdt_data(), &[0xd0, 0x0d, 0xfe, 0xed]);
    assert!(!context.set_fdt(0x1000, vec![9; 8]));
    assert_eq!(context.fdt_location(), Some((0x4400_0000, 4)));
    assert_eq!(context.fdt_data(), &[0xd0, 0x0d, 0xfe, 0xed]);
    assert_eq!(context.try_va_offset(), None);
}

#[test]
fn tables_are_ready_once_their_root_is_published() {
    let mut context = BootContext::new();
    assert_eq!(context.table_root(), None);
    assert!(context.set_table(0x8000_0000));
    assert_eq!(context.table_root(), Some(0x8000_0000));
    assert!(!context.set_table(0x9000_0000));
    assert!(context.set_va(5));
    assert!(context.set_fdt(1, vec![]));
    assert_eq!(context.table_root(), Some(0x8000_0000));
}
