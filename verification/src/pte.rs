//! The page-table entry codec: an architecture-neutral descriptor on one
//! side, the raw VMSAv8-64 stage-1 descriptor word on the other.
//!
//! The bit-level primitives come from `page_table_arm`; what is built from
//! them (which flag stands for which right, and the laws that tie the two
//! directions together) is verified here.

use vstd::prelude::*;
use page_table_arm::{MAIRDefault, MAIRKind, MAIRSetting, PTEFlags, PTE};

verus! {

/// The rights of one privilege level on a mapping.
#[derive(Clone, Copy, Debug, PartialEq, Eq, Structural)]
pub struct AccessSetting {
    pub read: bool,
    pub write: bool,
    pub execute: bool,
}

impl AccessSetting {
    pub open spec fn spec_empty() -> Self {
        AccessSetting { read: false, write: false, execute: false }
    }

    pub open spec fn spec_union(self, other: Self) -> Self {
        AccessSetting {
            read: self.read || other.read,
            write: self.write || other.write,
            execute: self.execute || other.execute,
        }
    }

    /// No right at all.
    pub fn empty() -> (r: Self)
        ensures
            r == Self::spec_empty(),
    {
        AccessSetting { read: false, write: false, execute: false }
    }

    /// The right to read, alone.
    pub fn read_only() -> (r: Self)
        ensures
            r == (AccessSetting { read: true, write: false, execute: false }),
    {
        AccessSetting { read: true, write: false, execute: false }
    }

    /// The right to write, alone.
    pub fn write_only() -> (r: Self)
        ensures
            r == (AccessSetting { read: false, write: true, execute: false }),
    {
        AccessSetting { read: false, write: true, execute: false }
    }

    /// The right to execute, alone.
    pub fn execute_only() -> (r: Self)
        ensures
            r == (AccessSetting { read: false, write: false, execute: true }),
    {
        AccessSetting { read: false, write: false, execute: true }
    }

    /// Every right that either operand holds.
    pub fn union(self, other: Self) -> (r: Self)
        ensures
            r == self.spec_union(other),
    {
        AccessSetting {
            read: self.read || other.read,
            write: self.write || other.write,
            execute: self.execute || other.execute,
        }
    }

    pub fn readable(&self) -> (r: bool)
        ensures
            r == self.read,
    {
        self.read
    }

    pub fn writable(&self) -> (r: bool)
        ensures
            r == self.write,
    {
        self.write
    }

    pub fn executable(&self) -> (r: bool)
        ensures
            r == self.execute,
    {
        self.execute
    }
}

/// The cache policy of a mapping. Each selects one entry of the
/// memory-attribute table.
#[derive(Clone, Copy, Debug, PartialEq, Eq, Structural)]
pub enum CacheSetting {
    Normal,
    Device,
    NonCache,
}

#[derive(Clone, Copy, Debug, PartialEq, Eq, Structural)]
pub struct PTESetting {
    pub is_global: bool,
    pub privilege_access: AccessSetting,
    pub user_access: AccessSetting,
    pub cache_setting: CacheSetting,
}

/// One page-table entry, architecture-neutral.
#[derive(Clone, Copy, Debug, PartialEq, Eq, Structural)]
pub struct PTEGeneric {
    pub paddr: usize,
    pub is_block: bool,
    pub is_valid: bool,
    pub setting: PTESetting,
}

/// The descriptor bits that the codec reads and writes.
#[derive(Clone, Copy, Debug, PartialEq, Eq, Structural)]
pub enum DescriptorFlag {
    /// The descriptor takes part in translation.
    Valid,
    /// A table or a 4 KiB page, not a block.
    NonBlock,
    /// Unprivileged code may access the mapping.
    ApEl0,
    /// Nobody may write.
    ApRo,
    /// The access flag.
    Af,
    /// The mapping belongs to one address space.
    Ng,
    /// Privileged code may not execute.
    Pxn,
    /// Unprivileged code may not execute.
    Uxn,
}

/// Bits 12 to 47: where a descriptor holds its output address.
pub const PADDR_MASK: u64 = 0x0000_ffff_ffff_f000;

/// Every bit that `page_table_arm` knows as a flag.
pub const KNOWN_FLAGS: u64 = 0xf870_0000_0000_0fe3;

impl DescriptorFlag {
    /// The bit of the descriptor word that holds the flag.
    pub open spec fn mask(self) -> u64 {
        match self {
            DescriptorFlag::Valid => 0x1,
            DescriptorFlag::NonBlock => 0x2,
            DescriptorFlag::ApEl0 => 0x40,
            DescriptorFlag::ApRo => 0x80,
            DescriptorFlag::Af => 0x400,
            DescriptorFlag::Ng => 0x800,
            DescriptorFlag::Pxn => 0x0020_0000_0000_0000,
            DescriptorFlag::Uxn => 0x0040_0000_0000_0000,
        }
    }
}

/// The index of a cache policy in the memory-attribute table.
pub open spec fn attr_index(cache: CacheSetting) -> u64 {
    match cache {
        CacheSetting::Device => 0,
        CacheSetting::Normal => 1,
        CacheSetting::NonCache => 2,
    }
}

/// The cache policy that an index of the memory-attribute table selects.
pub open spec fn cache_of_index(idx: u64) -> CacheSetting {
    if idx == 0 {
        CacheSetting::Device
    } else if idx == 1 {
        CacheSetting::Normal
    } else {
        CacheSetting::NonCache
    }
}

/// `PTE::from_paddr`: a descriptor word that holds only the output address,
/// cut to bits 12 to 47.
#[verifier::external_body]
fn pte_from_paddr(paddr: usize) -> (raw: u64)
    ensures
        raw == (paddr as u64) & PADDR_MASK,
{
    PTE::from_paddr(paddr).into()
}

/// `PTE::paddr`: the output address of a descriptor word, bits 12 to 47.
#[verifier::external_body]
fn pte_paddr(raw: u64) -> (paddr: usize)
    ensures
        paddr == (raw & PADDR_MASK) as usize,
{
    PTE::from(raw).paddr()
}

/// `PTE::set_mair_idx`: ors the three low bits of the index into bits 2 to 4.
#[verifier::external_body]
fn pte_set_mair_idx(raw: u64, idx: usize) -> (out: u64)
    ensures
        out == raw | (((idx as u64) & 0b111) << 2),
{
    let mut pte = PTE::from(raw);
    pte.set_mair_idx(idx);
    pte.into()
}

/// `PTE::get_mair_idx`: bits 2 to 4 of a descriptor word.
#[verifier::external_body]
fn pte_get_mair_idx(raw: u64) -> (idx: usize)
    ensures
        idx == ((raw >> 2) & 0b111) as usize,
{
    PTE::from(raw).get_mair_idx()
}

/// `PTE::set_flags`: ors the flag bits into the word.
#[verifier::external_body]
fn pte_set_flags(raw: u64, flags: u64) -> (out: u64)
    ensures
        out == raw | flags,
{
    let mut pte = PTE::from(raw);
    pte.set_flags(PTEFlags::from_bits_retain(flags));
    pte.into()
}

/// `PTE::get_flags`: the word cut to the bits that `PTEFlags` names.
#[verifier::external_body]
fn pte_get_flags(raw: u64) -> (flags: u64)
    ensures
        flags == raw & KNOWN_FLAGS,
{
    PTE::from(raw).get_flags().bits()
}

/// The constants of `PTEFlags`: the bit that stands for each flag.
#[verifier::external_body]
fn flag_bits(flag: DescriptorFlag) -> (bits: u64)
    ensures
        bits == flag.mask(),
{
    match flag {
        DescriptorFlag::Valid => PTEFlags::VALID.bits(),
        DescriptorFlag::NonBlock => PTEFlags::NON_BLOCK.bits(),
        DescriptorFlag::ApEl0 => PTEFlags::AP_EL0.bits(),
        DescriptorFlag::ApRo => PTEFlags::AP_RO.bits(),
        DescriptorFlag::Af => PTEFlags::AF.bits(),
        DescriptorFlag::Ng => PTEFlags::NG.bits(),
        DescriptorFlag::Pxn => PTEFlags::PXN.bits(),
        DescriptorFlag::Uxn => PTEFlags::UXN.bits(),
    }
}

/// `MAIRDefault::get_idx`: device memory is entry 0 of the memory-attribute
/// table, normal memory entry 1, non-cacheable memory entry 2.
#[verifier::external_body]
fn mair_get_idx(cache: CacheSetting) -> (idx: usize)
    ensures
        idx == attr_index(cache),
{
    MAIRDefault::get_idx(
        match cache {
            CacheSetting::Normal => MAIRKind::Normal,
            CacheSetting::Device => MAIRKind::Device,
            CacheSetting::NonCache => MAIRKind::NonCache,
        },
    )
}

/// `MAIRDefault::from_idx`: the inverse of `get_idx` on 0, 1 and 2. On any
/// other index it panics, so those are left out.
#[verifier::external_body]
fn mair_from_idx(idx: usize) -> (cache: CacheSetting)
    requires
        idx <= 2,
    ensures
        cache == cache_of_index(idx as u64),
{
    match MAIRDefault::from_idx(idx) {
        MAIRKind::Device => CacheSetting::Device,
        MAIRKind::Normal => CacheSetting::Normal,
        MAIRKind::NonCache => CacheSetting::NonCache,
    }
}


/// The bit of `flag` if `cond` holds, no bit otherwise.
pub open spec fn pick(cond: bool, flag: DescriptorFlag) -> u64 {
    if cond {
        flag.mask()
    } else {
        0
    }
}

impl PTEGeneric {
    /// The flag bits of the descriptor word. Each flag stands for one field
    /// of the descriptor, whether the descriptor is valid or not.
    pub open spec fn flag_word(self) -> u64 {
        pick(self.is_valid, DescriptorFlag::Valid)
            | pick(!self.is_block, DescriptorFlag::NonBlock)
            | pick(!self.setting.is_global, DescriptorFlag::Ng)
            | pick(self.setting.privilege_access.read, DescriptorFlag::Af)
            | pick(!self.setting.privilege_access.write, DescriptorFlag::ApRo)
            | pick(!self.setting.privilege_access.execute, DescriptorFlag::Pxn)
            | pick(self.setting.user_access.read, DescriptorFlag::ApEl0)
            | pick(!self.setting.user_access.execute, DescriptorFlag::Uxn)
    }

    /// Bits 2 to 4 of the descriptor word: the index of the cache policy in
    /// the memory-attribute table.
    pub open spec fn attr_word(self) -> u64 {
        match self.setting.cache_setting {
            CacheSetting::Device => 0,
            CacheSetting::Normal => 4,
            CacheSetting::NonCache => 8,
        }
    }

    /// The descriptors that the codec hands back unchanged: those that
    /// `read_pte` can return for a word that `new_pte` made.
    ///
    /// The output address is 4 KiB-aligned and below 2^48. The hardware has
    /// one bit for "unprivileged access" and one for "read-only", so a
    /// descriptor lets unprivileged code write exactly when it lets it read
    /// and lets privileged code write. Valid or not, block or not, global or
    /// not, and whatever the other rights and the cache policy are.
    pub open spec fn canonical(self) -> bool {
        &&& (self.paddr as u64) & PADDR_MASK == self.paddr as u64
        &&& self.setting.user_access.write == (self.setting.user_access.read
            && self.setting.privilege_access.write)
    }
}

impl PTEGeneric {
    /// Whether the descriptor is canonical: whether it comes back unchanged
    /// from the word that stands for it.
    pub fn is_canonical(&self) -> (r: bool)
        ensures
            r == self.canonical(),
    {
        let s = &self.setting;
        let held: u64 = pte_from_paddr(self.paddr);
        if held != self.paddr as u64 {
            return false;
        }
        s.user_access.write == (s.user_access.read && s.privilege_access.write)
    }
}

/// The descriptor word of a descriptor.
pub open spec fn spec_new_pte(config: PTEGeneric) -> u64 {
    ((config.paddr as u64) & PADDR_MASK) | config.attr_word() | config.flag_word()
}

/// Whether `flag` is set among the known flags of a descriptor word.
pub open spec fn has_flag(pte: u64, flag: DescriptorFlag) -> bool {
    (pte & KNOWN_FLAGS) & flag.mask() != 0
}

/// The memory-attribute index of a descriptor word.
pub open spec fn attr_index_of(pte: u64) -> u64 {
    (pte >> 2) & 0b111
}

/// The words that `read_pte` takes: those that select one of the three
/// entries of the memory-attribute table. The empty word is one, and so is
/// every word that `new_pte` makes.
pub open spec fn decodable(pte: u64) -> bool {
    attr_index_of(pte) <= 2
}

/// The descriptor that a descriptor word stands for. Every field is read
/// from its bits, whether the valid bit is set or not.
pub open spec fn spec_read_pte(pte: u64) -> PTEGeneric {
    PTEGeneric {
        paddr: (pte & PADDR_MASK) as usize,
        is_block: !has_flag(pte, DescriptorFlag::NonBlock),
        is_valid: has_flag(pte, DescriptorFlag::Valid),
        setting: PTESetting {
            is_global: !has_flag(pte, DescriptorFlag::Ng),
            privilege_access: AccessSetting {
                read: has_flag(pte, DescriptorFlag::Af),
                write: !has_flag(pte, DescriptorFlag::ApRo),
                execute: !has_flag(pte, DescriptorFlag::Pxn),
            },
            user_access: AccessSetting {
                read: has_flag(pte, DescriptorFlag::ApEl0),
                write: has_flag(pte, DescriptorFlag::ApEl0) && !has_flag(
                    pte,
                    DescriptorFlag::ApRo,
                ),
                execute: !has_flag(pte, DescriptorFlag::Uxn),
            },
            cache_setting: cache_of_index(attr_index_of(pte)),
        },
    }
}

fn pick_bits(cond: bool, flag: DescriptorFlag) -> (bits: u64)
    ensures
        bits == pick(cond, flag),
{
    if cond {
        flag_bits(flag)
    } else {
        0
    }
}

fn flag_set(flags: u64, flag: DescriptorFlag) -> (set: bool)
    ensures
        set == (flags & flag.mask() != 0),
{
    flags & flag_bits(flag) != 0
}

/// The codec of the AArch64 stage-1 descriptor format with a 4 KiB granule
/// and four levels of tables.
#[derive(Clone, Copy)]
pub struct PageTableImpl;

impl PageTableImpl {
    pub fn page_size() -> (r: usize)
        ensures
            r == 0x1000,
    {
        0x1000
    }

    pub fn level() -> (r: usize)
        ensures
            r == 4,
    {
        4
    }

    /// Encodes a descriptor.
    pub fn new_pte(config: PTEGeneric) -> (pte: u64)
        ensures
            pte == spec_new_pte(config),
            decodable(pte),
    {
        let base: u64 = pte_from_paddr(config.paddr);
        let privilege = config.setting.privilege_access;
        let user = config.setting.user_access;
        let valid = config.is_valid;

        let mut flags: u64 = pick_bits(valid, DescriptorFlag::Valid);
        flags = flags | pick_bits(!config.is_block, DescriptorFlag::NonBlock);
        flags = flags | pick_bits(!config.setting.is_global, DescriptorFlag::Ng);
        flags = flags | pick_bits(privilege.readable(), DescriptorFlag::Af);
        flags = flags | pick_bits(!privilege.writable(), DescriptorFlag::ApRo);
        flags = flags | pick_bits(!privilege.executable(), DescriptorFlag::Pxn);
        flags = flags | pick_bits(user.readable(), DescriptorFlag::ApEl0);
        flags = flags | pick_bits(!user.executable(), DescriptorFlag::Uxn);

        let idx: usize = mair_get_idx(config.setting.cache_setting);
        proof {
            let i: u64 = idx as u64;
            assert(i <= 2 ==> (i & 0b111) << 2 == if i == 0 {
                0u64
            } else if i == 1 {
                4u64
            } else {
                8u64
            }) by (bit_vector);
            lemma_fields(config);
        }
        let with_attr: u64 = pte_set_mair_idx(base, idx);
        pte_set_flags(with_attr, flags)
    }

    /// Whether `read_pte` takes the word.
    pub fn is_decodable(pte: u64) -> (r: bool)
        ensures
            r == decodable(pte),
    {
        proof {
            assert((pte >> 2) & 0b111 <= 7) by (bit_vector);
        }
        pte_get_mair_idx(pte) <= 2
    }

    /// Decodes a descriptor word.
    pub fn read_pte(pte: u64) -> (config: PTEGeneric)
        requires
            decodable(pte),
        ensures
            config == spec_read_pte(pte),
    {
        let paddr: usize = pte_paddr(pte);
        let flags: u64 = pte_get_flags(pte);
        let is_valid = flag_set(flags, DescriptorFlag::Valid);
        let is_block = !flag_set(flags, DescriptorFlag::NonBlock);
        let is_global = !flag_set(flags, DescriptorFlag::Ng);
        let mut privilege_access = AccessSetting::empty();
        let mut user_access = AccessSetting::empty();
        let mair_idx: usize = pte_get_mair_idx(pte);
        let cache_setting = mair_from_idx(mair_idx);

        if flag_set(flags, DescriptorFlag::Af) {
            privilege_access = privilege_access.union(AccessSetting::read_only());
        }
        if !flag_set(flags, DescriptorFlag::ApRo) {
            privilege_access = privilege_access.union(AccessSetting::write_only());
        }
        if !flag_set(flags, DescriptorFlag::Pxn) {
            privilege_access = privilege_access.union(AccessSetting::execute_only());
        }
        if flag_set(flags, DescriptorFlag::ApEl0) {
            user_access = user_access.union(AccessSetting::read_only());
            if !flag_set(flags, DescriptorFlag::ApRo) {
                user_access = user_access.union(AccessSetting::write_only());
            }
        }
        if !flag_set(flags, DescriptorFlag::Uxn) {
            user_access = user_access.union(AccessSetting::execute_only());
        }
        PTEGeneric {
            paddr,
            is_block,
            is_valid,
            setting: PTESetting { is_global, privilege_access, user_access, cache_setting },
        }
    }
}

/// Address, attribute index and flags lie in separate bits of the word, so
/// each is read back as it was written.
proof fn lemma_word_parts(
    p: u64,
    a: u64,
    k0: u64,
    k1: u64,
    k2: u64,
    k3: u64,
    k4: u64,
    k5: u64,
    k6: u64,
    k7: u64,
)
    by (bit_vector)
    requires
        a == 0 || a == 4 || a == 8,
        k0 == 0 || k0 == 0x1,
        k1 == 0 || k1 == 0x2,
        k2 == 0 || k2 == 0x800,
        k3 == 0 || k3 == 0x400,
        k4 == 0 || k4 == 0x80,
        k5 == 0 || k5 == 0x0020_0000_0000_0000,
        k6 == 0 || k6 == 0x40,
        k7 == 0 || k7 == 0x0040_0000_0000_0000,
    ensures
        ({
            let w = ((p & 0x0000_ffff_ffff_f000) | a) | (k0 | k1 | k2 | k3 | k4 | k5 | k6 | k7);
            &&& w & 0x0000_ffff_ffff_f000 == p & 0x0000_ffff_ffff_f000
            &&& (w >> 2) & 0b111 == a >> 2
            &&& a >> 2 <= 2
            &&& (a >> 2 == 0) == (a == 0)
            &&& (a >> 2 == 1) == (a == 4)
            &&& ((w & 0xf870_0000_0000_0fe3) & 0x1 != 0) == (k0 != 0)
            &&& ((w & 0xf870_0000_0000_0fe3) & 0x2 != 0) == (k1 != 0)
            &&& ((w & 0xf870_0000_0000_0fe3) & 0x800 != 0) == (k2 != 0)
            &&& ((w & 0xf870_0000_0000_0fe3) & 0x400 != 0) == (k3 != 0)
            &&& ((w & 0xf870_0000_0000_0fe3) & 0x80 != 0) == (k4 != 0)
            &&& ((w & 0xf870_0000_0000_0fe3) & 0x0020_0000_0000_0000 != 0) == (k5 != 0)
            &&& ((w & 0xf870_0000_0000_0fe3) & 0x40 != 0) == (k6 != 0)
            &&& ((w & 0xf870_0000_0000_0fe3) & 0x0040_0000_0000_0000 != 0) == (k7 != 0)
        }),
{
}

/// What each field of the word of a descriptor holds.
pub proof fn lemma_fields(config: PTEGeneric)
    ensures
        ({
            let pte = spec_new_pte(config);
            let s = config.setting;
            &&& decodable(pte)
            &&& pte & PADDR_MASK == (config.paddr as u64) & PADDR_MASK
            &&& has_flag(pte, DescriptorFlag::Valid) == config.is_valid
            &&& has_flag(pte, DescriptorFlag::NonBlock) == !config.is_block
            &&& has_flag(pte, DescriptorFlag::Ng) == !s.is_global
            &&& has_flag(pte, DescriptorFlag::Af) == s.privilege_access.read
            &&& has_flag(pte, DescriptorFlag::ApRo) == !s.privilege_access.write
            &&& has_flag(pte, DescriptorFlag::Pxn) == !s.privilege_access.execute
            &&& has_flag(pte, DescriptorFlag::ApEl0) == s.user_access.read
            &&& has_flag(pte, DescriptorFlag::Uxn) == !s.user_access.execute
            &&& cache_of_index(attr_index_of(pte)) == s.cache_setting
            &&& attr_index_of(pte) == attr_index(s.cache_setting)
        }),
{
    let s = config.setting;
    let v = config.is_valid;
    lemma_word_parts(
        config.paddr as u64,
        config.attr_word(),
        pick(v, DescriptorFlag::Valid),
        pick(!config.is_block, DescriptorFlag::NonBlock),
        pick(!s.is_global, DescriptorFlag::Ng),
        pick(s.privilege_access.read, DescriptorFlag::Af),
        pick(!s.privilege_access.write, DescriptorFlag::ApRo),
        pick(!s.privilege_access.execute, DescriptorFlag::Pxn),
        pick(s.user_access.read, DescriptorFlag::ApEl0),
        pick(!s.user_access.execute, DescriptorFlag::Uxn),
    );
}

/// Round trip: a canonical descriptor comes back from its word unchanged,
/// in every field, whether it is valid or not.
pub proof fn lemma_round_trip(config: PTEGeneric)
    requires
        config.canonical(),
    ensures
        decodable(spec_new_pte(config)),
        spec_read_pte(spec_new_pte(config)) == config,
{
    lemma_fields(config);
}

/// No two canonical descriptors have the same word.
pub proof fn lemma_encode_injective(first: PTEGeneric, second: PTEGeneric)
    requires
        first.canonical(),
        second.canonical(),
        spec_new_pte(first) == spec_new_pte(second),
    ensures
        first == second,
{
    lemma_round_trip(first);
    lemma_round_trip(second);
}

/// Whatever descriptor is encoded, what is read back from its word is
/// canonical: the canonical descriptors are all that the codec can return
/// for the words it makes.
pub proof fn lemma_decoded_is_canonical(config: PTEGeneric)
    ensures
        spec_read_pte(spec_new_pte(config)).canonical(),
{
    lemma_fields(config);
    let p = config.paddr as u64;
    assert((p & PADDR_MASK) & PADDR_MASK == p & PADDR_MASK) by (bit_vector);
    assert(p & PADDR_MASK <= p) by (bit_vector);
}

/// On the words that `new_pte` makes, encoding undoes decoding: no two of
/// them stand for the same descriptor.
pub proof fn lemma_word_round_trip(config: PTEGeneric)
    ensures
        spec_new_pte(spec_read_pte(spec_new_pte(config))) == spec_new_pte(config),
{
    lemma_fields(config);
    let back = spec_read_pte(spec_new_pte(config));
    let p = config.paddr as u64;
    assert((p & PADDR_MASK) & PADDR_MASK == p & PADDR_MASK) by (bit_vector);
    assert(p & PADDR_MASK <= p) by (bit_vector);
    assert(back.attr_word() == config.attr_word());
    assert(back.flag_word() == config.flag_word());
}

} // verus!
