//! Boot and memory-management core of a bare-metal AArch64 hypervisor.
//!
//! The crate holds the decisions of the boot path as ordinary functions on
//! plain values; touching the hardware (system registers, raw memory,
//! barriers) is left to the caller.
//!
//! - `pte`: the page-table entry codec.
//! - `table`: the arena of table frames and the engine that maps regions
//!   into the tables in it.
//! - `space`, `addr`, `mem`: the registry of the regions to map, the image
//!   they are derived from, and the boot context.
//! - `mmu`, `regs`: building the address space, the order in which it is
//!   activated, and the register values that it is activated with.
//! - `boot`: the boot sequencer, the image header, the device descriptor.
//! - `trap`, `context`: the exception dispatcher and the saved context.
//! - `hypercall`, `error`: the hypercall boundary and the error taxonomy.

pub mod addr;
pub mod boot;
pub mod context;
pub mod error;
pub mod hypercall;
pub mod mem;
pub mod mmu;
pub mod pte;
pub mod regs;
pub mod space;
pub mod table;
pub mod trap;
