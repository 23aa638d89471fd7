//! The boot sequencer: the order in which the machine is brought from the
//! reset vector to the running kernel, as a state machine that names each
//! step and leaves its execution to the platform; the header that makes the
//! image loadable; and the ingestion of the device descriptor blob.

use vstd::prelude::*;
use vstd::bytes::{
    spec_u32_from_le_bytes, spec_u32_to_le_bytes, spec_u64_from_le_bytes, spec_u64_to_le_bytes,
    u32_from_le_bytes, u32_to_le_bytes, u64_from_le_bytes, u64_to_le_bytes,
};
use vstd::slice::slice_subrange;
use crate::mem::{BootContext, ContextOp};

verus! {

/// How far the boot has come.
#[derive(Clone, Copy, Debug, PartialEq, Eq, Structural)]
pub enum BootState {
    /// At the reset vector, at an exception level not yet looked at.
    Reset,
    /// At or below the hypervisor's level, on its own stack pointer.
    ELResolved,
    /// On the boot stack.
    StackReady,
    /// Caches invalidated, zero-initialised data cleared.
    BssCleared,
    /// The displacement between link and run addresses is published.
    VAOffsetPublished,
    /// Floating point passes through, the device descriptor is retained.
    DebugInit,
    /// The level is the hypervisor's, virtual interrupts are routed.
    TargetELConfirmed,
    /// Tables are built and translation is on.
    MmuEnabled,
    /// In the kernel, at its virtual addresses.
    Running,
    /// Stopped for good.
    Halted,
}

/// Why the boot stopped.
#[derive(Clone, Copy, Debug, PartialEq, Eq, Structural)]
pub enum HaltReason {
    /// The machine is not at the hypervisor's level.
    WrongExceptionLevel { found: u8 },
    /// The boot had stopped before.
    Stopped,
}

/// What the platform is to do next.
#[derive(Clone, Copy, Debug, PartialEq, Eq, Structural)]
pub enum BootAction {
    /// Leave the secure monitor level: make the next level non-secure and
    /// 64-bit with hypervisor calls enabled, mask all interrupts in the
    /// saved status, and return to the entry at the hypervisor's level.
    DropToEl2,
    /// Select the stack pointer of the current level.
    SelectStackPointer,
    /// Install the boot stack.
    InstallStack { stack_top: usize },
    /// Invalidate the caches and zero the zero-initialised data.
    ClearBss { start: usize, end: usize },
    /// Publish the displacement in the boot context.
    PublishVaOffset { va_offset: usize },
    /// Let floating point pass through, relocate the device descriptor and
    /// retain it.
    InitDebug,
    /// Route virtual interrupts.
    ConfigureEl2,
    /// Build the tables and turn translation on.
    EnableMmu,
    /// Enter the kernel at its virtual address, on the kernel stack.
    EnterKernel { stack_top: usize },
    /// Nothing: the kernel runs.
    Idle,
    /// Report and halt.
    Halt(HaltReason),
}

/// The exception level of the secure monitor.
pub const SECURE_MONITOR_EL: u8 = 3;

/// The exception level that the hypervisor runs at.
pub const TARGET_EL: u8 = 2;

/// What the sequencer is told of the machine.
#[derive(Clone, Copy, Debug)]
pub struct BootEnv {
    /// The exception level that the machine is at.
    pub current_el: u8,
    /// The address that the entry is linked at.
    pub link_entry: usize,
    /// The address that the entry runs at.
    pub runtime_entry: usize,
    /// The address that the top of the boot stack is linked at.
    pub link_stack_top: usize,
    /// Where the zero-initialised data lies, as the image runs.
    pub bss_start: usize,
    pub bss_end: usize,
    /// The top of the kernel stack, virtually.
    pub kernel_stack_top: usize,
}

/// The displacement between the address a symbol is linked at and the
/// address it runs at, in the arithmetic of the machine.
pub open spec fn spec_va_offset(link_addr: usize, runtime_addr: usize) -> usize {
    if link_addr >= runtime_addr {
        (link_addr - runtime_addr) as usize
    } else {
        (link_addr + (usize::MAX - runtime_addr) + 1) as usize
    }
}

/// The displacement between the address a symbol is linked at and the
/// address it runs at.
pub fn compute_va_offset(link_addr: usize, runtime_addr: usize) -> (r: usize)
    ensures
        r == spec_va_offset(link_addr, runtime_addr),
{
    link_addr.wrapping_sub(runtime_addr)
}

/// The address that something linked at `link_addr` runs at.
pub fn runtime_address(link_addr: usize, va_offset: usize) -> (r: usize)
    ensures
        r == spec_va_offset(link_addr, va_offset),
{
    link_addr.wrapping_sub(va_offset)
}

/// The step that follows a state, and the state that it leads to.
pub open spec fn spec_step(state: BootState, env: BootEnv) -> (BootState, BootAction) {
    let va_offset = spec_va_offset(env.link_entry, env.runtime_entry);
    match state {
        BootState::Reset => if env.current_el == SECURE_MONITOR_EL {
            (BootState::Reset, BootAction::DropToEl2)
        } else {
            (BootState::ELResolved, BootAction::SelectStackPointer)
        },
        BootState::ELResolved => (
            BootState::StackReady,
            BootAction::InstallStack { stack_top: spec_va_offset(env.link_stack_top, va_offset) },
        ),
        BootState::StackReady => (
            BootState::BssCleared,
            BootAction::ClearBss { start: env.bss_start, end: env.bss_end },
        ),
        BootState::BssCleared => (
            BootState::VAOffsetPublished,
            BootAction::PublishVaOffset { va_offset },
        ),
        BootState::VAOffsetPublished => (BootState::DebugInit, BootAction::InitDebug),
        BootState::DebugInit => if env.current_el == TARGET_EL {
            (BootState::TargetELConfirmed, BootAction::ConfigureEl2)
        } else {
            (
                BootState::Halted,
                BootAction::Halt(HaltReason::WrongExceptionLevel { found: env.current_el }),
            )
        },
        BootState::TargetELConfirmed => (BootState::MmuEnabled, BootAction::EnableMmu),
        BootState::MmuEnabled => (
            BootState::Running,
            BootAction::EnterKernel { stack_top: env.kernel_stack_top },
        ),
        BootState::Running => (BootState::Running, BootAction::Idle),
        BootState::Halted => (BootState::Halted, BootAction::Halt(HaltReason::Stopped)),
    }
}

/// The step that follows a state, and the state that it leads to once the
/// platform has done it.
pub fn step(state: BootState, env: &BootEnv) -> (r: (BootState, BootAction))
    ensures
        r == spec_step(state, *env),
{
    let va_offset = compute_va_offset(env.link_entry, env.runtime_entry);
    match state {
        BootState::Reset => {
            if env.current_el == SECURE_MONITOR_EL {
                (BootState::Reset, BootAction::DropToEl2)
            } else {
                (BootState::ELResolved, BootAction::SelectStackPointer)
            }
        },
        BootState::ELResolved => (
            BootState::StackReady,
            BootAction::InstallStack { stack_top: runtime_address(env.link_stack_top, va_offset) },
        ),
        BootState::StackReady => (
            BootState::BssCleared,
            BootAction::ClearBss { start: env.bss_start, end: env.bss_end },
        ),
        BootState::BssCleared => (
            BootState::VAOffsetPublished,
            BootAction::PublishVaOffset { va_offset },
        ),
        BootState::VAOffsetPublished => (BootState::DebugInit, BootAction::InitDebug),
        BootState::DebugInit => {
            if env.current_el == TARGET_EL {
                (BootState::TargetELConfirmed, BootAction::ConfigureEl2)
            } else {
                (
                    BootState::Halted,
                    BootAction::Halt(HaltReason::WrongExceptionLevel { found: env.current_el }),
                )
            }
        },
        BootState::TargetELConfirmed => (BootState::MmuEnabled, BootAction::EnableMmu),
        BootState::MmuEnabled => (
            BootState::Running,
            BootAction::EnterKernel { stack_top: env.kernel_stack_top },
        ),
        BootState::Running => (BootState::Running, BootAction::Idle),
        BootState::Halted => (BootState::Halted, BootAction::Halt(HaltReason::Stopped)),
    }
}

/// The place of a state in the order of the boot.
pub open spec fn rank(state: BootState) -> int {
    match state {
        BootState::Reset => 0,
        BootState::ELResolved => 1,
        BootState::StackReady => 2,
        BootState::BssCleared => 3,
        BootState::VAOffsetPublished => 4,
        BootState::DebugInit => 5,
        BootState::TargetELConfirmed => 6,
        BootState::MmuEnabled => 7,
        BootState::Running => 8,
        BootState::Halted => 9,
    }
}

/// The state after `n` steps in an unchanging environment.
pub open spec fn run(state: BootState, env: BootEnv, n: nat) -> BootState
    decreases n,
{
    if n == 0 {
        state
    } else {
        run(spec_step(state, env).0, env, (n - 1) as nat)
    }
}

/// No step is skipped: a step leads to the next state in order, or to the
/// halt; only the reset state at the secure monitor level, the running
/// kernel and the halt stay where they are.
pub proof fn lemma_step_order(state: BootState, env: BootEnv)
    ensures
        ({
            let next = spec_step(state, env).0;
            &&& next == BootState::Halted || rank(next) == rank(state) + 1 || next == state
            &&& next == state ==> state == BootState::Running || state == BootState::Halted || (
            state == BootState::Reset && env.current_el == SECURE_MONITOR_EL)
            &&& next == BootState::Running ==> state == BootState::MmuEnabled || state
                == BootState::Running
            &&& next == BootState::MmuEnabled ==> state == BootState::TargetELConfirmed
            &&& next == BootState::TargetELConfirmed ==> state == BootState::DebugInit
                && env.current_el == TARGET_EL
        }),
{
}

/// The boot ends: below the secure monitor level, eight steps from reset
/// lead to the running kernel where the machine is at the hypervisor's
/// level, and to the halt where it is not. At the secure monitor level the
/// first step is to leave it, after which the same holds.
pub proof fn lemma_boot_ends(env: BootEnv)
    ensures
        env.current_el == SECURE_MONITOR_EL ==> spec_step(BootState::Reset, env) == (
            BootState::Reset,
            BootAction::DropToEl2,
        ),
        env.current_el == TARGET_EL ==> run(BootState::Reset, env, 8) == BootState::Running,
        env.current_el != TARGET_EL && env.current_el != SECURE_MONITOR_EL ==> run(
            BootState::Reset,
            env,
            6,
        ) == BootState::Halted,
{
    reveal_with_fuel(run, 9);
}


/// The bytes of the image header.
pub const HEADER_LEN: usize = 64;

/// The instruction that does nothing: the first word of the header.
pub const NOP: u32 = 0xd503_201f;

/// The magic of the image format, "ARM\x64", as the little-endian word that
/// its four bytes make.
pub const IMAGE_MAGIC: u32 = 0x644d_5241;

/// Flag bit 0: clear for a little-endian kernel.
pub const FLAG_LE: u64 = 0b0;

/// Flag bits 1 and 2: the page size, here 4 KiB.
pub const FLAG_PAGE_SIZE_4K: u64 = 0b10;

/// Flag bit 3: the image may be loaded anywhere in memory.
pub const FLAG_ANY_MEM: u64 = 0b1000;

/// What the header of an image says beyond its fixed parts.
#[derive(Clone, Copy, Debug, PartialEq, Eq, Structural)]
pub struct ImageHeader {
    /// The second instruction word: the branch to the entry.
    pub code1: u32,
    /// The size of the image in bytes.
    pub image_size: u64,
    /// The flags of the image.
    pub flags: u64,
}

/// `n` zero bytes.
pub open spec fn zeros(n: nat) -> Seq<u8> {
    Seq::new(n, |i: int| 0u8)
}

/// The sixty-four bytes of a header: the no-op, the branch, the text offset
/// (zero), the image size, the flags, three reserved words (zero), the
/// magic, and a reserved half word (zero); every number little-endian.
pub open spec fn spec_encode_header(h: ImageHeader) -> Seq<u8> {
    spec_u32_to_le_bytes(NOP) + spec_u32_to_le_bytes(h.code1) + spec_u64_to_le_bytes(0)
        + spec_u64_to_le_bytes(h.image_size) + spec_u64_to_le_bytes(h.flags) + zeros(24)
        + spec_u32_to_le_bytes(IMAGE_MAGIC) + zeros(4)
}

/// The header that sixty-four bytes hold, if they hold one: the fixed parts
/// must be as `spec_encode_header` writes them.
pub open spec fn spec_decode_header(bytes: Seq<u8>) -> Option<ImageHeader> {
    if bytes.len() >= 64 && spec_u32_from_le_bytes(bytes.subrange(0, 4)) == NOP
        && spec_u64_from_le_bytes(bytes.subrange(8, 16)) == 0 && bytes.subrange(32, 56) == zeros(
        24,
    ) && spec_u32_from_le_bytes(bytes.subrange(56, 60)) == IMAGE_MAGIC && bytes.subrange(60, 64)
        == zeros(4) {
        Some(
            ImageHeader {
                code1: spec_u32_from_le_bytes(bytes.subrange(4, 8)),
                image_size: spec_u64_from_le_bytes(bytes.subrange(16, 24)),
                flags: spec_u64_from_le_bytes(bytes.subrange(24, 32)),
            },
        )
    } else {
        None
    }
}

/// The flags of this image: little-endian, 4 KiB pages, loadable anywhere.
pub fn boot_flags() -> (r: u64)
    ensures
        r == 0b1010,
{
    proof {
        assert(0b0u64 | 0b10u64 | 0b1000u64 == 0b1010u64) by (bit_vector);
    }
    FLAG_LE | FLAG_PAGE_SIZE_4K | FLAG_ANY_MEM
}

/// The instruction "branch with link" to the code `delta` bytes after the
/// instruction; `None` where `delta` is no multiple of 4 or out of the reach
/// of a forward branch (128 MiB).
pub fn branch_to(delta: u64) -> (r: Option<u32>)
    ensures
        r.is_some() <==> delta % 4 == 0 && delta < 0x800_0000,
        r matches Some(word) ==> word == 0x9400_0000u32 | ((delta / 4) as u32),
{
    if delta % 4 != 0 || delta >= 0x800_0000 {
        None
    } else {
        Some(0x9400_0000u32 | ((delta / 4) as u32))
    }
}

fn append(out: &mut Vec<u8>, bytes: Vec<u8>)
    ensures
        final(out)@ == old(out)@ + bytes@,
{
    let mut i: usize = 0;
    while i < bytes.len()
        invariant
            i <= bytes.len(),
            out@ == old(out)@ + bytes@.subrange(0, i as int),
        decreases bytes.len() - i,
    {
        out.push(bytes[i]);
        proof {
            assert(out@ =~= old(out)@ + bytes@.subrange(0, i + 1));
        }
        i = i + 1;
    }
    proof {
        assert(bytes@.subrange(0, bytes.len() as int) =~= bytes@);
    }
}

fn append_zeros(out: &mut Vec<u8>, n: usize)
    ensures
        final(out)@ == old(out)@ + zeros(n as nat),
{
    let mut i: usize = 0;
    while i < n
        invariant
            i <= n,
            out@ == old(out)@ + zeros(i as nat),
        decreases n - i,
    {
        out.push(0);
        proof {
            assert(out@ =~= old(out)@ + zeros((i + 1) as nat));
        }
        i = i + 1;
    }
}

impl ImageHeader {
    /// The header of this image: the branch to an entry `entry_offset`
    /// bytes into the image, the size of the image, and the boot flags.
    /// `None` where the entry is out of the reach of the branch.
    pub fn new(entry_offset: u64, image_size: u64) -> (r: Option<Self>)
        ensures
            r.is_some() <==> entry_offset >= 4 && entry_offset % 4 == 0 && entry_offset - 4
                < 0x800_0000,
            r matches Some(h) ==> h == (ImageHeader {
                code1: 0x9400_0000u32 | (((entry_offset - 4) / 4) as u32),
                image_size,
                flags: 0b1010,
            }),
    {
        if entry_offset < 4 {
            return None;
        }
        match branch_to(entry_offset - 4) {
            None => None,
            Some(code1) => Some(ImageHeader { code1, image_size, flags: boot_flags() }),
        }
    }

    /// Writes the header out.
    pub fn encode(&self) -> (r: Vec<u8>)
        ensures
            r@ == spec_encode_header(*self),
            r@.len() == 64,
    {
        let mut out: Vec<u8> = Vec::new();
        append(&mut out, u32_to_le_bytes(NOP));
        append(&mut out, u32_to_le_bytes(self.code1));
        append(&mut out, u64_to_le_bytes(0));
        append(&mut out, u64_to_le_bytes(self.image_size));
        append(&mut out, u64_to_le_bytes(self.flags));
        append_zeros(&mut out, 24);
        append(&mut out, u32_to_le_bytes(IMAGE_MAGIC));
        append_zeros(&mut out, 4);
        proof {
            assert(out@ =~= spec_encode_header(*self));
        }
        out
    }

    /// Reads a header from the first sixty-four bytes.
    pub fn decode(bytes: &[u8]) -> (r: Option<Self>)
        ensures
            r == spec_decode_header(bytes@),
    {
        if bytes.len() < 64 {
            return None;
        }
        let code0: u32 = u32_from_le_bytes(slice_subrange(bytes, 0, 4));
        let code1: u32 = u32_from_le_bytes(slice_subrange(bytes, 4, 8));
        let text_offset: u64 = u64_from_le_bytes(slice_subrange(bytes, 8, 16));
        let image_size: u64 = u64_from_le_bytes(slice_subrange(bytes, 16, 24));
        let flags: u64 = u64_from_le_bytes(slice_subrange(bytes, 24, 32));
        let magic: u32 = u32_from_le_bytes(slice_subrange(bytes, 56, 60));
        if code0 != NOP || text_offset != 0 || magic != IMAGE_MAGIC {
            return None;
        }
        if !all_zero(bytes, 32, 56) || !all_zero(bytes, 60, 64) {
            return None;
        }
        Some(ImageHeader { code1, image_size, flags })
    }
}

/// Whether every byte from `from` up to `to` is zero.
fn all_zero(bytes: &[u8], from: usize, to: usize) -> (r: bool)
    requires
        from <= to <= bytes@.len(),
    ensures
        r == (bytes@.subrange(from as int, to as int) == zeros((to - from) as nat)),
{
    let mut i: usize = from;
    while i < to
        invariant
            from <= i <= to <= bytes@.len(),
            forall|k: int| from <= k < i ==> bytes@[k] == 0,
        decreases to - i,
    {
        if bytes[i] != 0 {
            proof {
                let part = bytes@.subrange(from as int, to as int);
                assert(part[i - from] == bytes@[i as int]);
                assert(zeros((to - from) as nat)[i - from] == 0);
            }
            return false;
        }
        i = i + 1;
    }
    proof {
        assert(bytes@.subrange(from as int, to as int) =~= zeros((to - from) as nat));
    }
    true
}

/// Round trip of the header: what is written out is read back unchanged.
pub proof fn lemma_header_round_trip(h: ImageHeader)
    ensures
        spec_encode_header(h).len() == 64,
        spec_decode_header(spec_encode_header(h)) == Some(h),
{
    vstd::bytes::lemma_auto_spec_u32_to_from_le_bytes();
    vstd::bytes::lemma_auto_spec_u64_to_from_le_bytes();
    let bytes = spec_encode_header(h);
    assert(bytes.len() == 64);
    assert(bytes.subrange(0, 4) =~= spec_u32_to_le_bytes(NOP));
    assert(bytes.subrange(4, 8) =~= spec_u32_to_le_bytes(h.code1));
    assert(bytes.subrange(8, 16) =~= spec_u64_to_le_bytes(0));
    assert(bytes.subrange(16, 24) =~= spec_u64_to_le_bytes(h.image_size));
    assert(bytes.subrange(24, 32) =~= spec_u64_to_le_bytes(h.flags));
    assert(bytes.subrange(32, 56) =~= zeros(24));
    assert(bytes.subrange(56, 60) =~= spec_u32_to_le_bytes(IMAGE_MAGIC));
    assert(bytes.subrange(60, 64) =~= zeros(4));
}


/// The magic number that a device descriptor blob starts with.
pub const FDT_MAGIC: u32 = 0xd00d_feed;

/// The bytes of the header of a device descriptor blob.
pub const FDT_HEADER_LEN: usize = 40;

/// The big-endian 32-bit number at `at`.
pub open spec fn spec_be32(data: Seq<u8>, at: int) -> int {
    data[at] * 0x100_0000 + data[at + 1] * 0x1_0000 + data[at + 2] * 0x100 + data[at + 3]
}

/// The size that a device descriptor blob declares for itself, where the
/// bytes hold one: a whole header, the magic number first, the size second,
/// and not fewer bytes than the size says.
pub open spec fn spec_fdt_total_size(blob: Seq<u8>) -> Option<usize> {
    if blob.len() >= FDT_HEADER_LEN && spec_be32(blob, 0) == FDT_MAGIC && spec_be32(blob, 4)
        <= blob.len() {
        Some(spec_be32(blob, 4) as usize)
    } else {
        None
    }
}

/// The size that the header of a device descriptor blob declares, where
/// the bytes hold a header: forty bytes at least, the magic number first.
pub open spec fn spec_fdt_declared_size(header: Seq<u8>) -> Option<usize> {
    if header.len() >= FDT_HEADER_LEN && spec_be32(header, 0) == FDT_MAGIC {
        Some(spec_be32(header, 4) as usize)
    } else {
        None
    }
}

/// `fdt_parser::Header::from_bytes` and its field `totalsize`: the bytes
/// are taken for a header exactly if they are forty at least and start with
/// the magic number; the total size is the second word, big-endian.
#[verifier::external_body]
fn fdt_header_total_size(header: &[u8]) -> (r: Option<usize>)
    ensures
        r == spec_fdt_declared_size(header@),
{
    match fdt_parser::Header::from_bytes(header) {
        Ok(h) => Some(h.totalsize as usize),
        Err(_) => None,
    }
}

/// The size that a device descriptor blob declares in its header: how many
/// bytes there are to take in. The header alone is enough to tell.
pub fn declared_fdt_size(header: &[u8]) -> (r: Option<usize>)
    ensures
        r == spec_fdt_declared_size(header@),
        spec_fdt_total_size(header@) == match r {
            Some(size) => if size <= header@.len() {
                Some(size)
            } else {
                None
            },
            None => None,
        },
{
    fdt_header_total_size(header)
}

/// What retaining a blob does to the boot context, and what it returns: the
/// declared size, where the bytes hold a blob and none is retained yet.
pub open spec fn spec_save_fdt(context: crate::mem::BootContextView, addr: usize, blob: Seq<u8>) -> (
    crate::mem::BootContextView,
    Option<usize>,
) {
    match spec_fdt_total_size(blob) {
        Some(len) => if context.fdt_addr is None {
            (context.apply(ContextOp::SetFdt(addr, blob.subrange(0, len as int))), Some(len))
        } else {
            (context, None)
        },
        None => (context, None),
    }
}

/// Takes in the device descriptor blob that was handed over at `addr`: the
/// bytes up to the size that the blob declares are copied and retained in
/// the boot context, with the address.
pub fn save_fdt(context: &mut BootContext, addr: usize, blob: &[u8]) -> (r: Option<usize>)
    ensures
        (final(context)@, r) == spec_save_fdt(old(context)@, addr, blob@),
{
    let len: usize = match declared_fdt_size(blob) {
        None => {
            return None;
        },
        Some(len) => len,
    };
    if len > blob.len() {
        return None;
    }
    let mut copy: Vec<u8> = Vec::new();
    let mut i: usize = 0;
    while i < len
        invariant
            i <= len <= blob@.len(),
            copy@ == blob@.subrange(0, i as int),
        decreases len - i,
    {
        copy.push(blob[i]);
        proof {
            assert(copy@ =~= blob@.subrange(0, i + 1));
        }
        i = i + 1;
    }
    if context.set_fdt(addr, copy) {
        Some(len)
    } else {
        None
    }
}

} // verus!
