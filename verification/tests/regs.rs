use qhyper::regs::{
    current_el, hypervisor_registers, monitor_exit_registers, translation_registers, CPACR_VALUE,
    HCR_VALUE, MAIR_VALUE, SCR_VALUE, SCTLR_ENABLE, SPSR_VALUE, TCR_VALUE,
};

#[test]
fn translation_registers_hold_the_documented_fields() {
    let regs = translation_registers();
    assert_eq!(regs.mair, 0x44_ff00);
    assert_eq!(regs.mair, MAIR_VALUE);
    // entry 0 device, entry 1 normal write-back, entry 2 normal non-cacheable
    assert_eq!(regs.mair & 0xff, 0x00);
    assert_eq!((regs.mair >> 8) & 0xff, 0xff);
    assert_eq!((regs.mair >> 16) & 0xff, 0x44);
    assert_eq!(regs.tcr, 0x5_3510);
    assert_eq!(regs.tcr, TCR_VALUE);
    assert_eq!(regs.tcr & 0x3f, 16);
    assert_eq!((regs.tcr >> 14) & 3, 0);
    assert_eq!(regs.sctlr_enable, (1 << 0) | (1 << 2) | (1 << 12));
    assert_eq!(regs.sctlr_enable, SCTLR_ENABLE);
}

#[test]
fn monitor_exit_registers_hold_the_documented_fields() {
    let regs = monitor_exit_registers();
    assert_eq!(regs.scr, (1 << 0) | (1 << 8) | (1 << 10));
    assert_eq!(regs.scr, SCR_VALUE);
    assert_eq!(regs.spsr, 0b1001 | (0b1111 << 6));
    assert_eq!(regs.spsr, SPSR_VALUE);
}

#[test]
fn hypervisor_registers_hold_the_documented_fields() {
    let regs = hypervisor_registers();
    assert_eq!(regs.hcr, (1 << 0) | (1 << 3) | (1 << 4) | (1 << 19) | (1 << 31));
    assert_eq!(regs.hcr, HCR_VALUE);
    assert_eq!(regs.cpacr, 0b11 << 20);
    assert_eq!(regs.cpacr, CPACR_VALUE);
}

#[test]
fn current_el_is_read_from_bits_2_and_3() {
    assert_eq!(current_el(0b0000), 0);
    assert_eq!(current_el(0b0100), 1);
    assert_eq!(current_el(0b1000), 2);
    assert_eq!(current_el(0b1100), 3);
    assert_eq!(current_el(0xffff_ffff_ffff_fff3 | 0b1000), 2);
    assert_eq!(current_el(u64::MAX), 3);
}

#[test]
fn translation_is_on_when_bit_0_of_system_control_is_set() {
    assert!(qhyper::regs::is_mmu_enabled(0x1));
    assert!(qhyper::regs::is_mmu_enabled(0x30c5_1835));
    assert!(!qhyper::regs::is_mmu_enabled(0x0));
    assert!(!qhyper::regs::is_mmu_enabled(0x30c5_1834));
    assert!(!qhyper::regs::is_mmu_enabled(u64::MAX - 1));
}

#[test]
fn cpu_id_is_the_affinity() {
    assert_eq!(qhyper::regs::cpu_id(0x8000_0003), 0x3);
    assert_eq!(qhyper::regs::cpu_id(0x0000_0001_8001_0203), 0x0000_0001_0001_0203);
    assert_eq!(qhyper::regs::cpu_id(u64::MAX), 0xff_00ff_ffff);
}
