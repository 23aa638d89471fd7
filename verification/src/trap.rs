//! The exception dispatcher: which of the sixteen vector entries have a
//! handler, what a synchronous exception is by its syndrome, and what
//! becomes of the saved context.

use vstd::prelude::*;
use aarch64_cpu::registers::ESR_EL1;
use crate::context::TrapFrame;

verus! {

/// The class of an exception.
#[derive(Clone, Copy, Debug, PartialEq, Eq, Structural)]
pub enum TrapKind {
    Synchronous,
    Irq,
    Fiq,
    SError,
}

/// Where an exception was taken from.
#[derive(Clone, Copy, Debug, PartialEq, Eq, Structural)]
pub enum TrapSource {
    CurrentSpEl0,
    CurrentSpElx,
    LowerAArch64,
    LowerAArch32,
}

/// What a synchronous exception is, by the exception class of its syndrome.
#[derive(Clone, Copy, Debug, PartialEq, Eq, Structural)]
pub enum SyncClass {
    /// A supervisor call from AArch64.
    Svc64,
    InstrAbortLowerEL,
    InstrAbortCurrentEL,
    DataAbortLowerEL,
    DataAbortCurrentEL,
    /// A breakpoint instruction of AArch64.
    Brk64,
    /// Every other class.
    Other,
}

/// The exception class that bits 26 to 31 of a syndrome encode.
pub open spec fn spec_class_of(ec: u64) -> SyncClass {
    if ec == 0b01_0101 {
        SyncClass::Svc64
    } else if ec == 0b10_0000 {
        SyncClass::InstrAbortLowerEL
    } else if ec == 0b10_0001 {
        SyncClass::InstrAbortCurrentEL
    } else if ec == 0b10_0100 {
        SyncClass::DataAbortLowerEL
    } else if ec == 0b10_0101 {
        SyncClass::DataAbortCurrentEL
    } else if ec == 0b11_1100 {
        SyncClass::Brk64
    } else {
        SyncClass::Other
    }
}

/// The exception class of a syndrome.
pub open spec fn spec_esr_class(esr: u64) -> SyncClass {
    spec_class_of((esr >> 26) & 0x3f)
}

/// The instruction-specific part of a syndrome: its low 25 bits.
pub open spec fn spec_esr_iss(esr: u64) -> u64 {
    esr & 0x1ff_ffff
}

/// The field `EC` of `ESR_EL1`, read from a syndrome value and told apart
/// by `read_as_enum`: bits 26 to 31, as one of the classes that have a
/// handler, or as `Other`.
#[verifier::external_body]
fn esr_class(esr: u64) -> (class: SyncClass)
    ensures
        class == spec_esr_class(esr),
{
    match ESR_EL1::EC.read_as_enum(esr) {
        Some(ESR_EL1::EC::Value::SVC64) => SyncClass::Svc64,
        Some(ESR_EL1::EC::Value::InstrAbortLowerEL) => SyncClass::InstrAbortLowerEL,
        Some(ESR_EL1::EC::Value::InstrAbortCurrentEL) => SyncClass::InstrAbortCurrentEL,
        Some(ESR_EL1::EC::Value::DataAbortLowerEL) => SyncClass::DataAbortLowerEL,
        Some(ESR_EL1::EC::Value::DataAbortCurrentEL) => SyncClass::DataAbortCurrentEL,
        Some(ESR_EL1::EC::Value::Brk64) => SyncClass::Brk64,
        _ => SyncClass::Other,
    }
}

/// The field `ISS` of `ESR_EL1`, read from a syndrome value: bits 0 to 24.
#[verifier::external_body]
fn esr_iss(esr: u64) -> (iss: u64)
    ensures
        iss == spec_esr_iss(esr),
{
    ESR_EL1::ISS.read(esr)
}

/// The exception class of a syndrome.
pub fn classify(esr: u64) -> (class: SyncClass)
    ensures
        class == spec_esr_class(esr),
{
    esr_class(esr)
}

/// What a data abort was: a write or a read, and whether it came from a
/// cache maintenance instruction.
#[derive(Clone, Copy, Debug, PartialEq, Eq, Structural)]
pub struct DataAbort {
    pub is_user: bool,
    /// Bit 6 of the syndrome: write, not read.
    pub write: bool,
    /// Bit 8 of the syndrome: cache maintenance.
    pub cache_maintenance: bool,
}

/// What became of a synchronous exception.
#[derive(Clone, Copy, Debug, PartialEq, Eq, Structural)]
pub enum SyncOutcome {
    /// A supervisor call: nothing is done here.
    SupervisorCall,
    /// An instruction abort, with the instruction-specific syndrome. How it
    /// is resolved is the caller's policy.
    InstructionAbort { iss: u64, is_user: bool },
    /// A data abort, decoded. How it is resolved is the caller's policy.
    DataAbort(DataAbort),
    /// A breakpoint instruction: the saved return address was moved past it.
    Breakpoint,
    /// Any other class: nothing is done.
    Ignored,
}

pub open spec fn spec_data_abort(iss: u64, is_user: bool) -> DataAbort {
    DataAbort {
        is_user,
        write: iss & (1u64 << 6) != 0,
        cache_maintenance: iss & (1u64 << 8) != 0,
    }
}

/// Decodes the syndrome of a data abort.
pub fn handle_data_abort(iss: u64, is_user: bool) -> (r: DataAbort)
    ensures
        r == spec_data_abort(iss, is_user),
{
    let wnr = (iss & (1u64 << 6)) != 0;
    let cm = (iss & (1u64 << 8)) != 0;
    DataAbort { is_user, write: wnr, cache_maintenance: cm }
}

/// Takes note of an instruction abort.
pub fn handle_instruction_abort(iss: u64, is_user: bool) -> (r: SyncOutcome)
    ensures
        r == (SyncOutcome::InstructionAbort { iss, is_user }),
{
    SyncOutcome::InstructionAbort { iss, is_user }
}

/// What a synchronous exception with the given syndrome comes to.
pub open spec fn spec_sync_outcome(esr: u64) -> SyncOutcome {
    let iss = spec_esr_iss(esr);
    match spec_esr_class(esr) {
        SyncClass::Svc64 => SyncOutcome::SupervisorCall,
        SyncClass::InstrAbortLowerEL => SyncOutcome::InstructionAbort { iss, is_user: true },
        SyncClass::InstrAbortCurrentEL => SyncOutcome::InstructionAbort { iss, is_user: false },
        SyncClass::DataAbortLowerEL => SyncOutcome::DataAbort(spec_data_abort(iss, true)),
        SyncClass::DataAbortCurrentEL => SyncOutcome::DataAbort(spec_data_abort(iss, false)),
        SyncClass::Brk64 => SyncOutcome::Breakpoint,
        SyncClass::Other => SyncOutcome::Ignored,
    }
}

/// The saved context after a synchronous exception with the given
/// syndrome: a breakpoint moves the return address on by one instruction,
/// and nothing else is changed.
pub open spec fn spec_frame_after_sync(tf: TrapFrame, esr: u64) -> TrapFrame {
    if spec_esr_class(esr) == SyncClass::Brk64 {
        TrapFrame { elr: (tf.elr + 4) as u64, ..tf }
    } else {
        tf
    }
}

/// Handles a synchronous exception, given the syndrome that the exception
/// syndrome register held.
///
/// A breakpoint at the very top of the address space has no instruction
/// after it to return to, so that case is left out.
pub fn handle_sync_exception(tf: &mut TrapFrame, esr: u64) -> (r: SyncOutcome)
    requires
        spec_esr_class(esr) == SyncClass::Brk64 ==> old(tf).elr + 4 <= u64::MAX,
    ensures
        r == spec_sync_outcome(esr),
        *final(tf) == spec_frame_after_sync(*old(tf), esr),
        r == SyncOutcome::Breakpoint ==> final(tf).elr == old(tf).elr + 4,
{
    let iss: u64 = esr_iss(esr);
    match esr_class(esr) {
        SyncClass::Svc64 => SyncOutcome::SupervisorCall,
        SyncClass::InstrAbortLowerEL => handle_instruction_abort(iss, true),
        SyncClass::InstrAbortCurrentEL => handle_instruction_abort(iss, false),
        SyncClass::DataAbortLowerEL => SyncOutcome::DataAbort(handle_data_abort(iss, true)),
        SyncClass::DataAbortCurrentEL => SyncOutcome::DataAbort(handle_data_abort(iss, false)),
        SyncClass::Brk64 => {
            tf.elr = tf.elr + 4;
            SyncOutcome::Breakpoint
        },
        SyncClass::Other => SyncOutcome::Ignored,
    }
}

/// Whether a breakpoint with this saved context can be resumed:
/// `handle_sync_exception` then takes every syndrome.
pub fn can_resume(tf: &TrapFrame) -> (r: bool)
    ensures
        r == (tf.elr + 4 <= u64::MAX),
{
    tf.elr <= u64::MAX - 4
}

/// The record of an exception that has no handler: its class, where it
/// came from, and every saved register.
#[derive(Clone, Copy, Debug)]
pub struct FatalReport {
    pub kind: TrapKind,
    pub source: TrapSource,
    pub frame: TrapFrame,
}

/// What the dispatcher decided.
#[derive(Clone, Copy, Debug)]
pub enum TrapOutcome {
    /// A synchronous exception was handled: return from the exception.
    Sync(SyncOutcome),
    /// An interrupt: hand it to the interrupt service, then return.
    Irq,
    /// No handler: report, then halt. There is no return from this.
    Fatal(FatalReport),
}

/// The entries of the vector that have a handler: synchronous exceptions
/// and interrupts, taken from the current level on its own stack or from a
/// lower level in AArch64.
pub open spec fn has_handler(kind: TrapKind, source: TrapSource) -> bool {
    &&& kind == TrapKind::Synchronous || kind == TrapKind::Irq
    &&& source == TrapSource::CurrentSpElx || source == TrapSource::LowerAArch64
}

/// Records an exception that has no handler.
pub fn invalid_exception(tf: &TrapFrame, kind: TrapKind, source: TrapSource) -> (r: FatalReport)
    ensures
        r.kind == kind,
        r.source == source,
        r.frame == *tf,
{
    FatalReport { kind, source, frame: *tf }
}

/// Dispatches one exception: `kind` and `source` say which entry of the
/// vector was taken, `esr` is the syndrome that was read on entry.
pub fn dispatch(tf: &mut TrapFrame, kind: TrapKind, source: TrapSource, esr: u64) -> (r:
    TrapOutcome)
    requires
        has_handler(kind, source) && kind == TrapKind::Synchronous && spec_esr_class(esr)
            == SyncClass::Brk64 ==> old(tf).elr + 4 <= u64::MAX,
    ensures
        !has_handler(kind, source) ==> *final(tf) == *old(tf),
        !has_handler(kind, source) ==> (r matches TrapOutcome::Fatal(report) && report.kind == kind
            && report.source == source && report.frame == *old(tf)),
        has_handler(kind, source) && kind == TrapKind::Irq ==> *final(tf) == *old(tf)
            && r is Irq,
        has_handler(kind, source) && kind == TrapKind::Synchronous ==> *final(tf)
            == spec_frame_after_sync(*old(tf), esr),
        has_handler(kind, source) && kind == TrapKind::Synchronous ==> (r matches TrapOutcome::Sync(
            outcome,
        ) && outcome == spec_sync_outcome(esr)),
{
    let handled_source = match source {
        TrapSource::CurrentSpElx => true,
        TrapSource::LowerAArch64 => true,
        _ => false,
    };
    if !handled_source {
        return TrapOutcome::Fatal(invalid_exception(tf, kind, source));
    }
    match kind {
        TrapKind::Synchronous => TrapOutcome::Sync(handle_sync_exception(tf, esr)),
        TrapKind::Irq => TrapOutcome::Irq,
        _ => TrapOutcome::Fatal(invalid_exception(tf, kind, source)),
    }
}


/// Dispatches one exception as `dispatch` does, and hands the record of an
/// exception that has no handler to `halt` before it returns: no such
/// exception passes in silence.
pub fn dispatch_or_halt<F: FnOnce(FatalReport)>(
    tf: &mut TrapFrame,
    kind: TrapKind,
    source: TrapSource,
    esr: u64,
    halt: F,
) -> (r: TrapOutcome)
    requires
        has_handler(kind, source) && kind == TrapKind::Synchronous && spec_esr_class(esr)
            == SyncClass::Brk64 ==> old(tf).elr + 4 <= u64::MAX,
        forall|report: FatalReport| call_requires(halt, (report,)),
    ensures
        !has_handler(kind, source) ==> *final(tf) == *old(tf),
        !has_handler(kind, source) ==> r is Fatal && call_ensures(
            halt,
            (FatalReport { kind, source, frame: *old(tf) },),
            (),
        ),
        has_handler(kind, source) && kind == TrapKind::Irq ==> *final(tf) == *old(tf)
            && r is Irq,
        has_handler(kind, source) && kind == TrapKind::Synchronous ==> *final(tf)
            == spec_frame_after_sync(*old(tf), esr),
        has_handler(kind, source) && kind == TrapKind::Synchronous ==> (r matches TrapOutcome::Sync(
            outcome,
        ) && outcome == spec_sync_outcome(esr)),
{
    let outcome = dispatch(tf, kind, source, esr);
    match outcome {
        TrapOutcome::Fatal(report) => {
            halt(report);
        },
        _ => {},
    }
    outcome
}

/// Abort decoding: a syndrome of the class "data abort from a lower level"
/// with bit 6 set and bit 8 clear is a data abort of unprivileged code, a
/// write, and no cache maintenance.
pub proof fn lemma_abort_decoding(esr: u64)
    requires
        (esr >> 26) & 0x3f == 0b10_0100,
        esr & (1u64 << 6) != 0,
        esr & (1u64 << 8) == 0,
    ensures
        spec_sync_outcome(esr) == SyncOutcome::DataAbort(
            DataAbort { is_user: true, write: true, cache_maintenance: false },
        ),
{
    assert((esr & 0x1ff_ffff) & (1u64 << 6) == esr & (1u64 << 6)) by (bit_vector);
    assert((esr & 0x1ff_ffff) & (1u64 << 8) == esr & (1u64 << 8)) by (bit_vector);
}

/// Breakpoint resume: after a synchronous exception of the class
/// "breakpoint", the saved return address is four bytes further on, and all
/// else is as it was.
pub proof fn lemma_breakpoint_resume(tf: TrapFrame, esr: u64)
    requires
        (esr >> 26) & 0x3f == 0b11_1100,
        tf.elr + 4 <= u64::MAX,
    ensures
        spec_sync_outcome(esr) == SyncOutcome::Breakpoint,
        spec_frame_after_sync(tf, esr).elr == tf.elr + 4,
        spec_frame_after_sync(tf, esr).r == tf.r,
        spec_frame_after_sync(tf, esr).usp == tf.usp,
        spec_frame_after_sync(tf, esr).spsr == tf.spsr,
{
}

} // verus!
