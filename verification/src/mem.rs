//! The loaded image and what the boot path derives from it: the sections of
//! the image as address ranges, the regions that are registered for them,
//! and the boot context that is published once and read ever after.

use vstd::prelude::*;
use crate::addr::{PhysAddrRange, VirtAddrRange};
use crate::pte::{AccessSetting, CacheSetting};
use crate::space::{spec_push, Space, SpaceError, SpaceSetBuilder};

verus! {

/// Where the kernel stack lies virtually.
pub const KERNEL_STACK_BOTTOM: u64 = 0xE100_0000_0000;

/// The sections of the loaded image, as the addresses at which the image
/// runs: code, read-only data, data, zero-initialised data and the boot
/// stack; and the virtual range of the kernel stack.
#[derive(Clone, Copy, Debug)]
pub struct ImageLayout {
    text: VirtAddrRange,
    rodata: VirtAddrRange,
    data: VirtAddrRange,
    bss: VirtAddrRange,
    boot_stack: VirtAddrRange,
    stack: VirtAddrRange,
}

impl ImageLayout {
    pub closed spec fn spec_text(&self) -> VirtAddrRange {
        self.text
    }

    pub closed spec fn spec_rodata(&self) -> VirtAddrRange {
        self.rodata
    }

    pub closed spec fn spec_data(&self) -> VirtAddrRange {
        self.data
    }

    pub closed spec fn spec_bss(&self) -> VirtAddrRange {
        self.bss
    }

    pub closed spec fn spec_boot_stack(&self) -> VirtAddrRange {
        self.boot_stack
    }

    pub closed spec fn spec_stack(&self) -> VirtAddrRange {
        self.stack
    }

    /// No section ends before it starts.
    pub open spec fn wf(&self) -> bool {
        &&& self.spec_text().wf()
        &&& self.spec_rodata().wf()
        &&& self.spec_data().wf()
        &&& self.spec_bss().wf()
        &&& self.spec_boot_stack().wf()
        &&& self.spec_stack().wf()
    }

    /// The layout of an image from the bounds of its sections, each given as
    /// start and end, and the size of the kernel stack. `None` where a
    /// section ends before it starts or the kernel stack does not lie in the
    /// address space.
    pub fn new(
        text: (usize, usize),
        rodata: (usize, usize),
        data: (usize, usize),
        bss: (usize, usize),
        boot_stack: (usize, usize),
        kernel_stack_size: usize,
    ) -> (r: Option<Self>)
        ensures
            r.is_some() <==> text.0 <= text.1 && rodata.0 <= rodata.1 && data.0 <= data.1 && bss.0
                <= bss.1 && boot_stack.0 <= boot_stack.1 && KERNEL_STACK_BOTTOM
                + kernel_stack_size <= usize::MAX,
            r matches Some(image) ==> {
                &&& image.wf()
                &&& image.spec_text() == (VirtAddrRange { start: text.0, end: text.1 })
                &&& image.spec_rodata() == (VirtAddrRange { start: rodata.0, end: rodata.1 })
                &&& image.spec_data() == (VirtAddrRange { start: data.0, end: data.1 })
                &&& image.spec_bss() == (VirtAddrRange { start: bss.0, end: bss.1 })
                &&& image.spec_boot_stack() == (VirtAddrRange {
                    start: boot_stack.0,
                    end: boot_stack.1,
                })
                &&& image.spec_stack() == (VirtAddrRange {
                    start: KERNEL_STACK_BOTTOM as usize,
                    end: (KERNEL_STACK_BOTTOM + kernel_stack_size) as usize,
                })
            },
    {
        if text.0 > text.1 || rodata.0 > rodata.1 || data.0 > data.1 || bss.0 > bss.1
            || boot_stack.0 > boot_stack.1 {
            return None;
        }
        if KERNEL_STACK_BOTTOM > usize::MAX as u64 {
            return None;
        }
        let bottom: usize = KERNEL_STACK_BOTTOM as usize;
        if kernel_stack_size > usize::MAX - bottom {
            return None;
        }
        Some(
            ImageLayout {
                text: VirtAddrRange { start: text.0, end: text.1 },
                rodata: VirtAddrRange { start: rodata.0, end: rodata.1 },
                data: VirtAddrRange { start: data.0, end: data.1 },
                bss: VirtAddrRange { start: bss.0, end: bss.1 },
                boot_stack: VirtAddrRange { start: boot_stack.0, end: boot_stack.1 },
                stack: VirtAddrRange { start: bottom, end: bottom + kernel_stack_size },
            },
        )
    }

    /// The code of the image.
    pub fn text(&self) -> (r: VirtAddrRange)
        ensures
            r == self.spec_text(),
    {
        self.text
    }

    /// The read-only data of the image.
    pub fn rodata(&self) -> (r: VirtAddrRange)
        ensures
            r == self.spec_rodata(),
    {
        self.rodata
    }

    /// The initialised data of the image.
    pub fn data(&self) -> (r: VirtAddrRange)
        ensures
            r == self.spec_data(),
    {
        self.data
    }

    /// The zero-initialised data of the image: what is cleared at boot.
    pub fn bss(&self) -> (r: VirtAddrRange)
        ensures
            r == self.spec_bss(),
    {
        self.bss
    }

    /// The stack that the boot path runs on.
    pub fn boot_stack(&self) -> (r: VirtAddrRange)
        ensures
            r == self.spec_boot_stack(),
    {
        self.boot_stack
    }

    /// The virtual range of the kernel stack.
    pub fn stack(&self) -> (r: VirtAddrRange)
        ensures
            r == self.spec_stack(),
    {
        self.stack
    }
}

/// The physical range of a section that runs `offset` bytes above where it
/// lies.
pub open spec fn spec_phys_range(range: VirtAddrRange, offset: usize) -> Option<PhysAddrRange> {
    if range.start <= range.end && offset <= range.start {
        Some(
            PhysAddrRange {
                start: (range.start - offset) as usize,
                end: (range.end - offset) as usize,
            },
        )
    } else {
        None
    }
}

/// The physical range of a section that runs `offset` bytes above where it
/// lies; `None` where the section would lie below address 0.
pub fn slice_to_phys_range(range: &VirtAddrRange, offset: usize) -> (r: Option<PhysAddrRange>)
    ensures
        r == spec_phys_range(*range, offset),
{
    if range.start <= range.end && offset <= range.start {
        Some(PhysAddrRange { start: range.start - offset, end: range.end - offset })
    } else {
        None
    }
}

/// Read and execute: the rights on code and read-only data.
pub open spec fn spec_read_execute() -> AccessSetting {
    AccessSetting { read: true, write: false, execute: true }
}

/// Read, write and execute: the rights on data and stacks.
pub open spec fn spec_read_write_execute() -> AccessSetting {
    AccessSetting { read: true, write: true, execute: true }
}

/// The region of one section of the image, where the section has a
/// physical range.
pub open spec fn section_space(
    name: &'static str,
    range: VirtAddrRange,
    k_offset: usize,
    va_offset: usize,
    access: AccessSetting,
) -> Option<Space> {
    match spec_phys_range(range, k_offset) {
        Some(phys) => Some(Space { name, phys, offset: va_offset, access, cache: CacheSetting::Normal }),
        None => None,
    }
}

/// Registers one more region, if there is one and nothing failed before.
pub open spec fn push_next(
    acc: Result<Seq<Space>, SpaceError>,
    candidate: Option<Space>,
) -> Result<Seq<Space>, SpaceError> {
    match acc {
        Err(e) => Err(e),
        Ok(spaces) => match candidate {
            None => Err(SpaceError::InvalidRange),
            Some(space) => spec_push(spaces, space),
        },
    }
}

/// The regions of the image, registered in the order code, read-only data,
/// data, zero-initialised data; or the first failure.
pub open spec fn spec_kernel_imag_spaces(
    image: &ImageLayout,
    is_virt: bool,
    va_offset: usize,
) -> Result<Seq<Space>, SpaceError> {
    let k: usize = if is_virt {
        va_offset
    } else {
        0
    };
    let rx = spec_read_execute();
    let rwx = spec_read_write_execute();
    push_next(
        push_next(
            push_next(
                push_next(
                    Ok(Seq::empty()),
                    section_space(".text", image.spec_text(), k, va_offset, rx),
                ),
                section_space(".rodata", image.spec_rodata(), k, va_offset, rx),
            ),
            section_space(".data", image.spec_data(), k, va_offset, rwx),
        ),
        section_space(".bss", image.spec_bss(), k, va_offset, rwx),
    )
}

fn push_section(
    set: &mut SpaceSetBuilder,
    name: &'static str,
    range: VirtAddrRange,
    k_offset: usize,
    va_offset: usize,
    access: AccessSetting,
) -> (r: Result<(), SpaceError>)
    requires
        old(set).wf(),
    ensures
        final(set).wf(),
        match push_next(
            Ok(old(set)@),
            section_space(name, range, k_offset, va_offset, access),
        ) {
            Ok(spaces) => r is Ok && final(set)@ == spaces,
            Err(e) => r == Err::<(), SpaceError>(e) && final(set)@ == old(set)@,
        },
{
    match slice_to_phys_range(&range, k_offset) {
        None => Err(SpaceError::InvalidRange),
        Some(phys) => set.push(
            Space { name, phys, offset: va_offset, access, cache: CacheSetting::Normal },
        ),
    }
}

/// The regions of the image, registered in a registry in the making. Each
/// section is registered with its physical range: where the image already
/// runs at its virtual addresses (`is_virt`), that is the section's range
/// moved down by `va_offset`; else it is the section's range itself.
pub fn kernel_imag_spaces(image: &ImageLayout, is_virt: bool, va_offset: usize) -> (r: Result<
    SpaceSetBuilder,
    SpaceError,
>)
    ensures
        match spec_kernel_imag_spaces(image, is_virt, va_offset) {
            Ok(spaces) => r matches Ok(set) && set@ == spaces && set.wf(),
            Err(e) => r matches Err(x) && x == e,
        },
{
    let k_offset: usize = if is_virt {
        va_offset
    } else {
        0
    };
    let rx = AccessSetting::read_only().union(AccessSetting::execute_only());
    let rwx = rx.union(AccessSetting::write_only());
    let mut spaces = SpaceSetBuilder::new();
    match push_section(&mut spaces, ".text", image.text(), k_offset, va_offset, rx) {
        Err(e) => {
            return Err(e);
        },
        Ok(()) => {},
    }
    match push_section(&mut spaces, ".rodata", image.rodata(), k_offset, va_offset, rx) {
        Err(e) => {
            return Err(e);
        },
        Ok(()) => {},
    }
    match push_section(&mut spaces, ".data", image.data(), k_offset, va_offset, rwx) {
        Err(e) => {
            return Err(e);
        },
        Ok(()) => {},
    }
    match push_section(&mut spaces, ".bss", image.bss(), k_offset, va_offset, rwx) {
        Err(e) => {
            return Err(e);
        },
        Ok(()) => {},
    }
    Ok(spaces)
}

/// The region of the boot stack, where the kernel stack does not lie below
/// it.
pub open spec fn spec_boot_stack_space(image: &ImageLayout) -> Option<Space> {
    if image.spec_boot_stack().start <= image.spec_stack().start && image.spec_boot_stack().wf() {
        Some(
            Space {
                name: "stack0",
                phys: PhysAddrRange {
                    start: image.spec_boot_stack().start,
                    end: image.spec_boot_stack().end,
                },
                offset: (image.spec_stack().start - image.spec_boot_stack().start) as usize,
                access: spec_read_write_execute(),
                cache: CacheSetting::Normal,
            },
        )
    } else {
        None
    }
}

/// The region that maps the boot stack to where the kernel stack lies.
pub fn boot_stack_space(image: &ImageLayout) -> (r: Option<Space>)
    ensures
        r == spec_boot_stack_space(image),
{
    let boot = image.boot_stack();
    let stack = image.stack();
    if boot.start > stack.start || boot.start > boot.end {
        return None;
    }
    let rwx = AccessSetting::read_only().union(AccessSetting::execute_only()).union(
        AccessSetting::write_only(),
    );
    Some(
        Space {
            name: "stack0",
            phys: PhysAddrRange { start: boot.start, end: boot.end },
            offset: stack.start - boot.start,
            access: rwx,
            cache: CacheSetting::Normal,
        },
    )
}


/// What the boot context holds: the displacement between the addresses the
/// image is linked at and those it runs at, and the device descriptor blob
/// with the address it was handed over at.
pub struct BootContextView {
    pub va_offset: Option<usize>,
    pub fdt_addr: Option<usize>,
    pub fdt: Seq<u8>,
    pub table_root: Option<usize>,
}

/// What can be done to a boot context.
pub enum ContextOp {
    /// Publish the displacement.
    SetVa(usize),
    /// Retain the device descriptor blob that was handed over at an address.
    SetFdt(usize, Seq<u8>),
    /// Publish the root of the built tables: the signal that they are ready.
    SetTable(usize),
}

impl BootContextView {
    /// Each part of the context is set by the first operation that sets it,
    /// and kept from then on.
    pub open spec fn apply(self, op: ContextOp) -> Self {
        match op {
            ContextOp::SetVa(va_offset) => if self.va_offset is Some {
                self
            } else {
                BootContextView { va_offset: Some(va_offset), ..self }
            },
            ContextOp::SetFdt(addr, blob) => if self.fdt_addr is Some {
                self
            } else {
                BootContextView { fdt_addr: Some(addr), fdt: blob, ..self }
            },
            ContextOp::SetTable(root) => if self.table_root is Some {
                self
            } else {
                BootContextView { table_root: Some(root), ..self }
            },
        }
    }

    /// The context after a sequence of operations, first one first.
    pub open spec fn apply_all(self, ops: Seq<ContextOp>) -> Self
        decreases ops.len(),
    {
        if ops.len() == 0 {
            self
        } else {
            self.apply(ops[0]).apply_all(ops.subrange(1, ops.len() as int))
        }
    }
}

/// The boot context: set once while the machine boots, read ever after.
pub struct BootContext {
    va_offset: Option<usize>,
    fdt_addr: Option<usize>,
    fdt: Vec<u8>,
    table_root: Option<usize>,
}

impl View for BootContext {
    type V = BootContextView;

    closed spec fn view(&self) -> BootContextView {
        BootContextView {
            va_offset: self.va_offset,
            fdt_addr: self.fdt_addr,
            fdt: self.fdt@,
            table_root: self.table_root,
        }
    }
}

impl BootContext {
    /// A context in which nothing is published yet.
    pub fn new() -> (r: Self)
        ensures
            r@ == (BootContextView {
                va_offset: None,
                fdt_addr: None,
                fdt: Seq::empty(),
                table_root: None,
            }),
    {
        BootContext { va_offset: None, fdt_addr: None, fdt: Vec::new(), table_root: None }
    }

    /// Publishes the displacement, once: a second call changes nothing and
    /// says so by `false`.
    pub fn set_va(&mut self, va_offset: usize) -> (set: bool)
        ensures
            final(self)@ == old(self)@.apply(ContextOp::SetVa(va_offset)),
            set == (old(self)@.va_offset is None),
    {
        if self.va_offset.is_some() {
            false
        } else {
            self.va_offset = Some(va_offset);
            true
        }
    }

    /// The displacement. It cannot be read before it is published.
    pub fn va_offset(&self) -> (r: usize)
        requires
            self@.va_offset is Some,
        ensures
            Some(r) == self@.va_offset,
    {
        self.va_offset.unwrap()
    }

    /// The displacement, if it is published.
    pub fn try_va_offset(&self) -> (r: Option<usize>)
        ensures
            r == self@.va_offset,
    {
        self.va_offset
    }

    /// Retains the device descriptor blob, once: a second call changes
    /// nothing and says so by `false`.
    pub fn set_fdt(&mut self, addr: usize, blob: Vec<u8>) -> (set: bool)
        ensures
            final(self)@ == old(self)@.apply(ContextOp::SetFdt(addr, blob@)),
            set == (old(self)@.fdt_addr is None),
    {
        if self.fdt_addr.is_some() {
            false
        } else {
            self.fdt_addr = Some(addr);
            self.fdt = blob;
            true
        }
    }

    /// Publishes the root of the built tables, once: the signal to the
    /// other CPUs that the tables are ready. A second call changes nothing
    /// and says so by `false`.
    pub fn set_table(&mut self, root: usize) -> (set: bool)
        ensures
            final(self)@ == old(self)@.apply(ContextOp::SetTable(root)),
            set == (old(self)@.table_root is None),
    {
        if self.table_root.is_some() {
            false
        } else {
            self.table_root = Some(root);
            true
        }
    }

    /// The root of the built tables, once they are ready.
    pub fn table_root(&self) -> (r: Option<usize>)
        ensures
            r == self@.table_root,
    {
        self.table_root
    }

    /// The address at which the blob was handed over, and its length.
    pub fn fdt_location(&self) -> (r: Option<(usize, usize)>)
        ensures
            r == match self@.fdt_addr {
                Some(addr) => Some((addr, self@.fdt.len() as usize)),
                None => None,
            },
    {
        match self.fdt_addr {
            Some(addr) => Some((addr, self.fdt.len())),
            None => None,
        }
    }

    /// The bytes of the blob; none where no blob is retained.
    pub fn fdt_data(&self) -> (r: &[u8])
        ensures
            r@ == self@.fdt,
    {
        self.fdt.as_slice()
    }
}

/// Stability of the published displacement: once it is published, no
/// sequence of operations on the context changes it.
pub proof fn lemma_va_offset_stable(context: BootContextView, ops: Seq<ContextOp>)
    requires
        context.va_offset is Some,
    ensures
        context.apply_all(ops).va_offset == context.va_offset,
    decreases ops.len(),
{
    if ops.len() > 0 {
        lemma_va_offset_stable(context.apply(ops[0]), ops.subrange(1, ops.len() as int));
    }
}

/// The same of the root of the tables: once the tables are ready, the root
/// that was published stays.
pub proof fn lemma_table_root_stable(context: BootContextView, ops: Seq<ContextOp>)
    requires
        context.table_root is Some,
    ensures
        context.apply_all(ops).table_root == context.table_root,
    decreases ops.len(),
{
    if ops.len() > 0 {
        lemma_table_root_stable(context.apply(ops[0]), ops.subrange(1, ops.len() as int));
    }
}

/// The same of the retained blob: once it is retained, it stays as it is.
pub proof fn lemma_fdt_stable(context: BootContextView, ops: Seq<ContextOp>)
    requires
        context.fdt_addr is Some,
    ensures
        context.apply_all(ops).fdt_addr == context.fdt_addr,
        context.apply_all(ops).fdt == context.fdt,
    decreases ops.len(),
{
    if ops.len() > 0 {
        lemma_fdt_stable(context.apply(ops[0]), ops.subrange(1, ops.len() as int));
    }
}

} // verus!
