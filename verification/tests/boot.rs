use qhyper::boot::{
    boot_flags, branch_to, compute_va_offset, declared_fdt_size, runtime_address, save_fdt, step,
    BootAction, BootEnv,
    BootState, HaltReason, ImageHeader, FDT_HEADER_LEN, FDT_MAGIC, FLAG_ANY_MEM, FLAG_LE,
    FLAG_PAGE_SIZE_4K, HEADER_LEN, IMAGE_MAGIC, NOP,
};
use qhyper::mem::BootContext;

fn env(current_el: u8) -> BootEnv {
    BootEnv {
        current_el,
        link_entry: 0xffff_4008_0040,
        runtime_entry: 0x4008_0040,
        link_stack_top: 0xffff_400d_0000,
        bss_start: 0x400b_0000,
        bss_end: 0x400b_4000,
        kernel_stack_top: 0xE100_0004_0000,
    }
}

fn blob(total_size: u32, len: usize) -> Vec<u8> {
    let mut bytes = vec![0u8; len];
    bytes[0..4].copy_from_slice(&[0xd0, 0x0d, 0xfe, 0xed]);
    bytes[4..8].copy_from_slice(&total_size.to_be_bytes());
    for (i, b) in bytes.iter_mut().enumerate().skip(8) {
        *b = i as u8;
    }
    bytes
}

#[test]
fn va_offset_is_link_address_minus_runtime_address() {
    assert_eq!(compute_va_offset(0xffff_4008_0040, 0x4008_0040), 0xffff_0000_0000);
    assert_eq!(compute_va_offset(0x4008_0000, 0x4008_0000), 0);
    // the machine subtracts modulo 2^64
    assert_eq!(compute_va_offset(0x1000, 0x3000), usize::MAX - 0x1fff);
    assert_eq!(runtime_address(0xffff_400d_0000, 0xffff_0000_0000), 0x400d_0000);
}

#[test]
fn boot_runs_through_its_states_in_order() {
    let e = env(2);
    let mut state = BootState::Reset;
    let mut trace = Vec::new();
    for _ in 0..9 {
        let (next, action) = step(state, &e);
        trace.push((next, action));
        state = next;
    }
    assert_eq!(
        trace,
        vec![
            (BootState::ELResolved, BootAction::SelectStackPointer),
            (BootState::StackReady, BootAction::InstallStack { stack_top: 0x400d_0000 }),
            (
                BootState::BssCleared,
                BootAction::ClearBss { start: 0x400b_0000, end: 0x400b_4000 }
            ),
            (
                BootState::VAOffsetPublished,
                BootAction::PublishVaOffset { va_offset: 0xffff_0000_0000 }
            ),
            (BootState::DebugInit, BootAction::InitDebug),
            (BootState::TargetELConfirmed, BootAction::ConfigureEl2),
            (BootState::MmuEnabled, BootAction::EnableMmu),
            (BootState::Running, BootAction::EnterKernel { stack_top: 0xE100_0004_0000 }),
            (BootState::Running, BootAction::Idle),
        ]
    );
}

#[test]
fn secure_monitor_level_is_left_first() {
    assert_eq!(step(BootState::Reset, &env(3)), (BootState::Reset, BootAction::DropToEl2));
    // entered again one level down, the boot goes on
    assert_eq!(
        step(BootState::Reset, &env(2)),
        (BootState::ELResolved, BootAction::SelectStackPointer)
    );
}

#[test]
fn wrong_exception_level_halts_the_boot() {
    for el in [0u8, 1, 3] {
        assert_eq!(
            step(BootState::DebugInit, &env(el)),
            (
                BootState::Halted,
                BootAction::Halt(HaltReason::WrongExceptionLevel { found: el })
            )
        );
    }
    assert_eq!(
        step(BootState::Halted, &env(2)),
        (BootState::Halted, BootAction::Halt(HaltReason::Stopped))
    );
    // from reset at the level of a guest kernel, the boot ends in the halt
    let mut state = BootState::Reset;
    for _ in 0..6 {
        state = step(state, &env(1)).0;
    }
    assert_eq!(state, BootState::Halted);
}

#[test]
fn header_is_bit_exact() {
    let header = ImageHeader::new(0x40, 0x12_3456).unwrap();
    assert_eq!(header.code1, 0x9400_000f);
    assert_eq!(header.flags, 0xa);
    let bytes = header.encode();
    let mut expected = Vec::new();
    expected.extend_from_slice(&[0x1f, 0x20, 0x03, 0xd5]); // nop
    expected.extend_from_slice(&[0x0f, 0x00, 0x00, 0x94]); // bl to the entry
    expected.extend_from_slice(&[0; 8]); // text offset
    expected.extend_from_slice(&[0x56, 0x34, 0x12, 0, 0, 0, 0, 0]); // image size
    expected.extend_from_slice(&[0x0a, 0, 0, 0, 0, 0, 0, 0]); // flags
    expected.extend_from_slice(&[0; 24]); // reserved
    expected.extend_from_slice(b"ARM\x64"); // magic
    expected.extend_from_slice(&[0; 4]); // reserved
    assert_eq!(bytes.len(), HEADER_LEN);
    assert_eq!(bytes, expected);
    assert_eq!(IMAGE_MAGIC.to_le_bytes(), *b"ARM\x64");
    assert_eq!(NOP, 0xd503_201f);
}

#[test]
fn header_round_trips() {
    for (code1, image_size, flags) in [
        (0x9400_000f_u32, 0x12_3456_u64, 0xa_u64),
        (0, 0, 0),
        (u32::MAX, u64::MAX, u64::MAX),
        (0x1400_0001, 0x8000_0000_0000_0001, 0b0110),
    ] {
        let header = ImageHeader { code1, image_size, flags };
        let mut bytes = header.encode();
        assert_eq!(ImageHeader::decode(&bytes), Some(header));
        // what follows the header is not looked at
        bytes.extend_from_slice(&[0xff; 16]);
        assert_eq!(ImageHeader::decode(&bytes), Some(header));
    }
}

#[test]
fn header_with_wrong_fixed_parts_is_not_decoded() {
    let good = ImageHeader::new(0x40, 0x1000).unwrap().encode();
    assert!(ImageHeader::decode(&good).is_some());
    assert_eq!(ImageHeader::decode(&good[..63]), None);
    assert_eq!(ImageHeader::decode(&[]), None);
    // the no-op, the text offset, the reserved words, the magic, the tail
    for at in [0, 3, 8, 15, 32, 55, 56, 59, 60, 63] {
        let mut bad = good.clone();
        bad[at] ^= 0x01;
        assert_eq!(ImageHeader::decode(&bad), None, "byte {}", at);
    }
    // the branch, the size and the flags are free
    for at in [4, 7, 16, 23, 24, 31] {
        let mut other = good.clone();
        other[at] ^= 0x01;
        assert!(ImageHeader::decode(&other).is_some(), "byte {}", at);
    }
}

#[test]
fn branch_encodes_the_distance_in_words() {
    assert_eq!(branch_to(0), Some(0x9400_0000));
    assert_eq!(branch_to(4), Some(0x9400_0001));
    assert_eq!(branch_to(0x3c), Some(0x9400_000f));
    assert_eq!(branch_to(0x7ff_fffc), Some(0x95ff_ffff));
    assert_eq!(branch_to(0x800_0000), None);
    assert_eq!(branch_to(6), None);
    assert_eq!(ImageHeader::new(0, 0), None);
    assert_eq!(ImageHeader::new(3, 0), None);
    assert_eq!(ImageHeader::new(0x42, 0), None);
    assert_eq!(ImageHeader::new(4, 7).map(|h| h.code1), Some(0x9400_0000));
}

#[test]
fn flags_say_little_endian_4k_anywhere() {
    assert_eq!(boot_flags(), 0b1010);
    assert_eq!(FLAG_LE | FLAG_PAGE_SIZE_4K | FLAG_ANY_MEM, 0b1010);
    assert_eq!(boot_flags() & 1, 0);
    assert_eq!((boot_flags() >> 1) & 0b11, 1);
    assert_eq!((boot_flags() >> 3) & 1, 1);
}

#[test]
fn blob_is_copied_up_to_its_declared_size() {
    let mut context = BootContext::new();
    let bytes = blob(48, 64);
    assert_eq!(save_fdt(&mut context, 0x4400_0000, &bytes), Some(48));
    assert_eq!(context.fdt_location(), Some((0x4400_0000, 48)));
    assert_eq!(context.fdt_data(), &bytes[..48]);
    // a second blob is not taken
    assert_eq!(save_fdt(&mut context, 0x4800_0000, &blob(40, 40)), None);
    assert_eq!(context.fdt_location(), Some((0x4400_0000, 48)));
}

#[test]
fn bytes_that_are_no_blob_are_not_taken() {
    assert_eq!(FDT_MAGIC, 0xd00d_feed);
    assert_eq!(FDT_HEADER_LEN, 40);
    let mut context = BootContext::new();
    // too short for a header
    assert_eq!(save_fdt(&mut context, 0x1000, &blob(39, 39)), None);
    assert_eq!(save_fdt(&mut context, 0x1000, &[]), None);
    // fewer bytes than the blob declares
    assert_eq!(save_fdt(&mut context, 0x1000, &blob(65, 64)), None);
    // a wrong magic number
    let mut bad = blob(48, 64);
    bad[3] = 0xee;
    assert_eq!(save_fdt(&mut context, 0x1000, &bad), None);
    // little-endian magic
    let mut swapped = blob(48, 64);
    swapped[0..4].copy_from_slice(&[0xed, 0xfe, 0x0d, 0xd0]);
    assert_eq!(save_fdt(&mut context, 0x1000, &swapped), None);
    assert_eq!(context.fdt_location(), None);
    // exactly as many bytes as declared
    assert_eq!(save_fdt(&mut context, 0x1000, &blob(64, 64)), Some(64));
    assert_eq!(context.fdt_data().len(), 64);
}

#[test]
fn declared_size_is_read_big_endian() {
    let mut context = BootContext::new();
    let bytes = blob(0x0000_0102, 0x200);
    assert_eq!(save_fdt(&mut context, 0x1000, &bytes), Some(0x102));
    assert_eq!(context.fdt_data(), &bytes[..0x102]);
}

#[test]
fn header_alone_tells_the_declared_size() {
    let bytes = blob(0x1234, 64);
    assert_eq!(declared_fdt_size(&bytes[..40]), Some(0x1234));
    assert_eq!(declared_fdt_size(&bytes), Some(0x1234));
    assert_eq!(declared_fdt_size(&bytes[..39]), None);
    let mut bad = bytes.clone();
    bad[0] = 0xd1;
    assert_eq!(declared_fdt_size(&bad), None);
    assert_eq!(declared_fdt_size(&blob(u32::MAX, 40)), Some(0xffff_ffff));
    assert_eq!(declared_fdt_size(&blob(0, 40)), Some(0));
}

#[test]
fn blob_that_declares_less_than_its_header_is_taken_as_it_declares() {
    let mut context = BootContext::new();
    let bytes = blob(8, 64);
    assert_eq!(save_fdt(&mut context, 0x1000, &bytes), Some(8));
    assert_eq!(context.fdt_data(), &bytes[..8]);
}
