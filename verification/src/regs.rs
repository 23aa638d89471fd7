//! The values that the boot path programs into system registers, built
//! from the field definitions of `aarch64_cpu`. Writing them is left to the
//! platform.

use vstd::prelude::*;
use aarch64_cpu::registers::{
    CurrentEL, CPACR_EL1, HCR_EL2, MAIR_EL2, SCR_EL3, SCTLR_EL2, SPSR_EL3, TCR_EL2,
};
use crate::pte::{
    attr_index, attr_index_of, lemma_fields, spec_new_pte, CacheSetting, PTEGeneric,
};

verus! {

/// The memory-attribute table: entry 0 device memory (nGnRnE), entry 1
/// normal memory, write-back, entry 2 normal memory, non-cacheable.
pub const MAIR_VALUE: u64 = 0x44_ff00;

/// Translation control: 4 KiB granule, 48 bits of virtual address, table
/// walks inner-shareable and write-back cacheable, 48 bits of physical
/// address.
pub const TCR_VALUE: u64 = 0x5_3510;

/// System control: translation on, data cache on, instruction cache on.
pub const SCTLR_ENABLE: u64 = 0x1005;

/// Hypervisor configuration: stage 2 on, the level below is 64-bit,
/// interrupts of both kinds are routed to the hypervisor, secure monitor
/// calls of the level below are trapped.
pub const HCR_VALUE: u64 = 0x8008_0019;

/// Secure configuration on the way down: non-secure, hypervisor calls
/// enabled, the next level is 64-bit.
pub const SCR_VALUE: u64 = 0x501;

/// The status to return with: the hypervisor's level on its own stack, all
/// four interrupt kinds masked.
pub const SPSR_VALUE: u64 = 0x3c9;

/// Architectural feature access: floating point is not trapped.
pub const CPACR_VALUE: u64 = 0x30_0000;

/// `MAIR_EL2`: `Attr0_Device::nonGathering_nonReordering_noEarlyWriteAck`,
/// and for `Attr1_Normal` and `Attr2_Normal`, inner and outer, the values
/// `WriteBack_NonTransient_ReadWriteAlloc` and `NonCacheable`, combined.
#[verifier::external_body]
fn mair_el2_fields() -> (value: u64)
    ensures
        value == MAIR_VALUE,
{
    (MAIR_EL2::Attr0_Device::nonGathering_nonReordering_noEarlyWriteAck
        + MAIR_EL2::Attr1_Normal_Inner::WriteBack_NonTransient_ReadWriteAlloc
        + MAIR_EL2::Attr1_Normal_Outer::WriteBack_NonTransient_ReadWriteAlloc
        + MAIR_EL2::Attr2_Normal_Inner::NonCacheable
        + MAIR_EL2::Attr2_Normal_Outer::NonCacheable).value
}

/// The bits of address that translation does not look at: sixteen of 64,
/// which leaves 48.
pub const T0SZ: u64 = 16;

/// `TCR_EL2`: `PS::Bits_48`, `TG0::KiB_4`, `SH0::Inner`, `ORGN0` and `IRGN0`
/// `WriteBack_ReadAlloc_WriteAlloc_Cacheable`, and `T0SZ.val` of the given
/// size, combined: the low six bits of the size, under the bits of the
/// named fields.
#[verifier::external_body]
fn tcr_el2_fields(t0sz: u64) -> (value: u64)
    ensures
        value == 0x5_3500 | (t0sz & 0x3f),
{
    (TCR_EL2::PS::Bits_48 + TCR_EL2::TG0::KiB_4 + TCR_EL2::SH0::Inner
        + TCR_EL2::ORGN0::WriteBack_ReadAlloc_WriteAlloc_Cacheable
        + TCR_EL2::IRGN0::WriteBack_ReadAlloc_WriteAlloc_Cacheable + TCR_EL2::T0SZ.val(t0sz)).value
}

/// `SCTLR_EL2`: `M::Enable`, `C::Cacheable` and `I::Cacheable`, combined.
#[verifier::external_body]
fn sctlr_el2_fields() -> (value: u64)
    ensures
        value == SCTLR_ENABLE,
{
    (SCTLR_EL2::M::Enable + SCTLR_EL2::C::Cacheable + SCTLR_EL2::I::Cacheable).value
}

/// `HCR_EL2`: `VM::Enable`, `RW::EL1IsAarch64`, `IMO::EnableVirtualIRQ`,
/// `FMO::EnableVirtualFIQ` and `TSC::EnableTrapEl1SmcToEl2`, combined.
#[verifier::external_body]
fn hcr_el2_fields() -> (value: u64)
    ensures
        value == HCR_VALUE,
{
    (HCR_EL2::VM::Enable + HCR_EL2::RW::EL1IsAarch64 + HCR_EL2::IMO::EnableVirtualIRQ
        + HCR_EL2::FMO::EnableVirtualFIQ + HCR_EL2::TSC::EnableTrapEl1SmcToEl2).value
}

/// `SCR_EL3`: `NS::NonSecure`, `HCE::HvcEnabled` and `RW::NextELIsAarch64`,
/// combined.
#[verifier::external_body]
fn scr_el3_fields() -> (value: u64)
    ensures
        value == SCR_VALUE,
{
    (SCR_EL3::NS::NonSecure + SCR_EL3::HCE::HvcEnabled + SCR_EL3::RW::NextELIsAarch64).value
}

/// `SPSR_EL3`: `M::EL2h` and `Masked` for each of `D`, `A`, `I` and `F`,
/// combined.
#[verifier::external_body]
fn spsr_el3_fields() -> (value: u64)
    ensures
        value == SPSR_VALUE,
{
    (SPSR_EL3::M::EL2h + SPSR_EL3::D::Masked + SPSR_EL3::A::Masked + SPSR_EL3::I::Masked
        + SPSR_EL3::F::Masked).value
}

/// `CPACR_EL1`: `FPEN::TrapNothing`.
#[verifier::external_body]
fn cpacr_el1_fields() -> (value: u64)
    ensures
        value == CPACR_VALUE,
{
    CPACR_EL1::FPEN::TrapNothing.value
}

/// The field `EL` of `CurrentEL`, read from a register value: bits 2 and 3.
#[verifier::external_body]
fn current_el_field(raw: u64) -> (el: u64)
    ensures
        el == (raw >> 2) & 0b11,
{
    CurrentEL::EL.read(raw)
}

/// `SCTLR_EL2::M::Enable.matches_all`: whether bit 0 of the value is set.
#[verifier::external_body]
fn sctlr_m_enabled(value: u64) -> (r: bool)
    ensures
        r == (value & 1 == 1),
{
    SCTLR_EL2::M::Enable.matches_all(value)
}

/// Whether a value of system control says that translation is on.
pub fn is_mmu_enabled(sctlr: u64) -> (r: bool)
    ensures
        r == (sctlr & 1 == 1),
{
    sctlr_m_enabled(sctlr)
}

/// The affinity fields of a value of the multiprocessor affinity register:
/// what tells one CPU from another.
pub fn cpu_id(mpidr: u64) -> (r: u64)
    ensures
        r == mpidr & 0xff_00ff_ffff,
{
    mpidr & 0xff_00ff_ffff
}

/// The registers of the translation regime.
#[derive(Clone, Copy, Debug, PartialEq, Eq, Structural)]
pub struct TranslationRegisters {
    /// The memory-attribute table.
    pub mair: u64,
    /// Translation control.
    pub tcr: u64,
    /// The bits of system control that turn translation and caches on.
    pub sctlr_enable: u64,
}

/// The registers that are set on the way down from the secure monitor
/// level.
#[derive(Clone, Copy, Debug, PartialEq, Eq, Structural)]
pub struct MonitorExitRegisters {
    /// Secure configuration.
    pub scr: u64,
    /// The saved status that the exception return restores.
    pub spsr: u64,
}

/// The registers that are set at the hypervisor's level before translation
/// is turned on.
#[derive(Clone, Copy, Debug, PartialEq, Eq, Structural)]
pub struct HypervisorRegisters {
    /// The bits of hypervisor configuration to set.
    pub hcr: u64,
    /// Architectural feature access.
    pub cpacr: u64,
}

/// What the translation regime is programmed with.
pub fn translation_registers() -> (r: TranslationRegisters)
    ensures
        r == (TranslationRegisters { mair: MAIR_VALUE, tcr: TCR_VALUE, sctlr_enable: SCTLR_ENABLE }),
{
    proof {
        assert(0x5_3500u64 | (16u64 & 0x3f) == 0x5_3510u64) by (bit_vector);
    }
    TranslationRegisters {
        mair: mair_el2_fields(),
        tcr: tcr_el2_fields(T0SZ),
        sctlr_enable: sctlr_el2_fields(),
    }
}

/// What is programmed before the secure monitor level is left.
pub fn monitor_exit_registers() -> (r: MonitorExitRegisters)
    ensures
        r == (MonitorExitRegisters { scr: SCR_VALUE, spsr: SPSR_VALUE }),
{
    MonitorExitRegisters { scr: scr_el3_fields(), spsr: spsr_el3_fields() }
}

/// What is programmed at the hypervisor's level.
pub fn hypervisor_registers() -> (r: HypervisorRegisters)
    ensures
        r == (HypervisorRegisters { hcr: HCR_VALUE, cpacr: CPACR_VALUE }),
{
    HypervisorRegisters { hcr: hcr_el2_fields(), cpacr: cpacr_el1_fields() }
}

/// The exception level that a value of the register `CurrentEL` stands for.
pub fn current_el(raw: u64) -> (el: u8)
    ensures
        el == (raw >> 2) & 0b11,
        el <= 3,
{
    let field: u64 = current_el_field(raw);
    proof {
        assert((raw >> 2) & 0b11 <= 3) by (bit_vector);
    }
    field as u8
}

/// The entry of a memory-attribute table at an index: one byte.
pub open spec fn mair_entry(mair: u64, idx: u64) -> u64 {
    (mair >> (8 * idx)) & 0xff
}

/// The attribute byte of each cache policy: device memory that is neither
/// gathered nor reordered nor acknowledged early; normal memory, write-back,
/// non-transient, allocating on read and write; normal memory,
/// non-cacheable.
pub open spec fn attribute_of(cache: CacheSetting) -> u64 {
    match cache {
        CacheSetting::Device => 0x00,
        CacheSetting::Normal => 0xff,
        CacheSetting::NonCache => 0x44,
    }
}

/// The memory-attribute table holds, at the index that the codec writes
/// into a descriptor for a cache policy, the attribute of that policy.
pub proof fn lemma_mair_matches_codec(cache: CacheSetting)
    ensures
        mair_entry(MAIR_VALUE, attr_index(cache)) == attribute_of(cache),
{
    assert((0x44_ff00u64 >> (8 * 0u64)) & 0xff == 0x00) by (bit_vector);
    assert((0x44_ff00u64 >> (8 * 1u64)) & 0xff == 0xff) by (bit_vector);
    assert((0x44_ff00u64 >> (8 * 2u64)) & 0xff == 0x44) by (bit_vector);
}

/// Every descriptor word that the codec makes, valid or not, selects the
/// entry of the memory-attribute table that holds the attribute of its
/// cache policy.
pub proof fn lemma_word_selects_attribute(config: PTEGeneric)
    ensures
        attr_index_of(spec_new_pte(config)) <= 2,
        attr_index_of(spec_new_pte(config)) == attr_index(config.setting.cache_setting),
        mair_entry(MAIR_VALUE, attr_index_of(spec_new_pte(config))) == attribute_of(
            config.setting.cache_setting,
        ),
{
    lemma_fields(config);
    lemma_mair_matches_codec(config.setting.cache_setting);
}

/// What translation control says: the granule is 4 KiB, sixteen of the 64
/// address bits are not translated (which leaves 48), the walks are
/// inner-shareable and write-back cacheable, inner and outer, and physical
/// addresses have 48 bits.
pub proof fn lemma_tcr_fields()
    ensures
        (TCR_VALUE >> 14) & 0b11 == 0b00,
        TCR_VALUE & 0x3f == 16,
        (TCR_VALUE >> 12) & 0b11 == 0b11,
        (TCR_VALUE >> 10) & 0b11 == 0b01,
        (TCR_VALUE >> 8) & 0b11 == 0b01,
        (TCR_VALUE >> 16) & 0b111 == 0b101,
{
    assert((0x5_3510u64 >> 14) & 0b11 == 0b00) by (bit_vector);
    assert(0x5_3510u64 & 0x3f == 16) by (bit_vector);
    assert((0x5_3510u64 >> 12) & 0b11 == 0b11) by (bit_vector);
    assert((0x5_3510u64 >> 10) & 0b11 == 0b01) by (bit_vector);
    assert((0x5_3510u64 >> 8) & 0b11 == 0b01) by (bit_vector);
    assert((0x5_3510u64 >> 16) & 0b111 == 0b101) by (bit_vector);
}

} // verus!
