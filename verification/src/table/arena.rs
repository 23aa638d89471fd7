//! The arena of table frames and the tables in it: what a frame holds,
//! what a walk through the tables finds, and the handle on one table.

use vstd::prelude::*;
use crate::pte::{
    decodable, has_flag, spec_new_pte, DescriptorFlag, PTEGeneric, PTESetting, PageTableImpl,
    PADDR_MASK,
};
use crate::table::frames::gap;
use crate::table::steps::{grown_from, lemma_index_region, lemma_root_walk_stable};

verus! {

/// Bytes in a page, and in a table frame.
pub const PAGE_SIZE: usize = 0x1000;

/// Entries in a table.
pub const TABLE_ENTRIES: usize = 512;

/// One past the highest address that four levels of tables translate, and
/// that a descriptor can hold as an output address.
pub const ADDRESS_LIMIT: u64 = 0x1_0000_0000_0000;

/// Why a region could not be mapped.
#[derive(Clone, Copy, Debug, PartialEq, Eq, Structural)]
pub enum MapError {
    /// A table was needed and the arena had no frame left.
    AllocatorExhausted,
    /// Something else is mapped where the region would go.
    Conflict,
    /// The virtual or the physical base is not a multiple of the page size.
    Misaligned,
}

/// The bytes that one entry of a table of the given level covers: 4 KiB at
/// level 1, 2 MiB at level 2, 1 GiB at level 3, 512 GiB at level 4. At
/// "level 5" stands the whole address space.
pub open spec fn level_size(level: int) -> int {
    if level <= 1 {
        0x1000
    } else if level == 2 {
        0x20_0000
    } else if level == 3 {
        0x4000_0000
    } else if level == 4 {
        0x80_0000_0000
    } else {
        0x1_0000_0000_0000
    }
}

/// The entry of a table of the given level that an address falls under.
pub open spec fn index_at(va: int, level: int) -> int {
    (va / level_size(level)) % 512
}

/// Entry `i` of frame `f` of an arena.
pub open spec fn word_at(words: Seq<u64>, f: int, i: int) -> u64 {
    words[f * 512 + i]
}

pub open spec fn entry_valid(w: u64) -> bool {
    has_flag(w, DescriptorFlag::Valid)
}

/// A valid entry that is no block. Above level 1 it points to a table.
pub open spec fn entry_is_table(w: u64) -> bool {
    has_flag(w, DescriptorFlag::Valid) && has_flag(w, DescriptorFlag::NonBlock)
}

/// The frame of the arena that the output address of an entry names.
pub open spec fn child_frame(base: int, w: u64) -> int {
    ((w & PADDR_MASK) - base) / 4096
}

/// The translation-table walk: from frame `f`, a table of the given level,
/// down to the entry that maps `va`. The result is the level at which the
/// walk ended and the descriptor word found there; `None` where nothing is
/// mapped.
pub open spec fn walk(words: Seq<u64>, base: int, f: int, level: int, va: int) -> Option<
    (int, u64),
>
    decreases level,
{
    if level < 1 || f < 0 || (f + 1) * 512 > words.len() {
        None
    } else {
        let w = word_at(words, f, index_at(va, level));
        if !entry_valid(w) {
            None
        } else if level > 1 && entry_is_table(w) {
            walk(words, base, child_frame(base, w), level - 1, va)
        } else {
            Some((level, w))
        }
    }
}

/// The table of level `target` that the walk for `va` passes through, when
/// it starts from frame `f` at `level`; `None` where the walk ends higher up.
pub(crate) open spec fn descend(
    words: Seq<u64>,
    base: int,
    f: int,
    level: int,
    va: int,
    target: int,
) -> Option<int>
    decreases level,
{
    if level < 1 || f < 0 || (f + 1) * 512 > words.len() {
        None
    } else if level <= target {
        if level == target {
            Some(f)
        } else {
            None
        }
    } else {
        let w = word_at(words, f, index_at(va, level));
        if entry_is_table(w) {
            descend(words, base, child_frame(base, w), level - 1, va, target)
        } else {
            None
        }
    }
}

/// Whether the slot for a block at `va` of level `target` is taken by
/// something other than `word`: a block higher up on the way, or another
/// valid entry in the slot itself.
pub open spec fn conflicts(
    words: Seq<u64>,
    base: int,
    f: int,
    level: int,
    va: int,
    target: int,
    word: u64,
) -> bool
    decreases level,
{
    if level < 1 || level < target || f < 0 || (f + 1) * 512 > words.len() {
        false
    } else {
        let w = word_at(words, f, index_at(va, level));
        if level == target {
            entry_valid(w) && w != word
        } else if !entry_valid(w) {
            false
        } else if entry_is_table(w) {
            conflicts(words, base, child_frame(base, w), level - 1, va, target, word)
        } else {
            true
        }
    }
}

/// The tables that have to be made before a block at `va` of level `target`
/// can be written: one for each level between the first empty entry on the
/// way and the block's own.
pub(crate) open spec fn missing(
    words: Seq<u64>,
    base: int,
    f: int,
    level: int,
    va: int,
    target: int,
) -> int
    decreases level,
{
    if level < 1 || level <= target || f < 0 || (f + 1) * 512 > words.len() {
        0
    } else {
        let w = word_at(words, f, index_at(va, level));
        if !entry_valid(w) {
            level - target
        } else if entry_is_table(w) {
            missing(words, base, child_frame(base, w), level - 1, va, target)
        } else {
            0
        }
    }
}

/// What the engine knows of a frame in use: the table it belongs to (the
/// frame of its root), its level, and the first address that it covers.
pub struct FrameInfo {
    pub root: int,
    pub level: int,
    pub vbase: int,
}

pub open spec fn frame_ok(info: Seq<FrameInfo>, f: int) -> bool {
    let fi = info[f];
    &&& 1 <= fi.level <= 4
    &&& 0 <= fi.root <= f
    &&& 0 <= fi.vbase
    &&& fi.vbase % level_size(fi.level + 1) == 0
    &&& fi.vbase + level_size(fi.level + 1) <= ADDRESS_LIMIT
}

pub open spec fn entry_ok(words: Seq<u64>, base: int, info: Seq<FrameInfo>, f: int, i: int) -> bool {
    let w = word_at(words, f, i);
    &&& decodable(w)
    &&& entry_is_table(w) && info[f].level >= 2 ==> {
        let c = child_frame(base, w);
        &&& (w & PADDR_MASK) == base + c * 4096
        &&& f < c < info.len()
        &&& info[c].root == info[f].root
        &&& info[c].level == info[f].level - 1
        &&& info[c].vbase == info[f].vbase + i * level_size(info[f].level)
    }
}

/// The arena invariant over plain values: every frame in use is a table of
/// a known place in a known tree, and every entry that points to a table
/// points to a later frame that is that table's child.
pub open spec fn arena_ok(
    words: Seq<u64>,
    base: int,
    capacity: int,
    info: Seq<FrameInfo>,
) -> bool {
    &&& 0 <= base
    &&& base % 4096 == 0
    &&& 0 <= capacity
    &&& base + capacity * 4096 <= ADDRESS_LIMIT
    &&& base + capacity * 4096 <= usize::MAX
    &&& words.len() == 512 * info.len()
    &&& info.len() <= capacity
    &&& forall|f: int| 0 <= f < info.len() ==> #[trigger] frame_ok(info, f)
    &&& forall|f: int, i: int|
        0 <= f < info.len() && 0 <= i < 512 ==> #[trigger] entry_ok(words, base, info, f, i)
}

/// The arena of table frames: a fixed extent of physical memory, handed out
/// frame by frame from its start. A frame is never taken back.
///
/// The arena holds the words of every frame in use, so that a table can be
/// built and read without touching the memory it is meant for.
pub struct TableAlloc {
    base: usize,
    capacity: usize,
    words: Vec<u64>,
    info: Ghost<Seq<FrameInfo>>,
}

impl View for TableAlloc {
    type V = Seq<u64>;

    /// The words of the frames in use, frame after frame.
    closed spec fn view(&self) -> Seq<u64> {
        self.words@
    }
}

impl TableAlloc {
    /// The physical address of the first frame.
    pub closed spec fn spec_base(&self) -> usize {
        self.base
    }

    /// The number of frames of the extent.
    pub closed spec fn spec_capacity(&self) -> usize {
        self.capacity
    }

    /// What is known of each frame in use.
    pub closed spec fn frame_info(&self) -> Seq<FrameInfo> {
        self.info@
    }

    /// The number of frames in use.
    pub open spec fn spec_frames(&self) -> int {
        self.frame_info().len() as int
    }

    pub open spec fn wf(&self) -> bool {
        arena_ok(self@, self.spec_base() as int, self.spec_capacity() as int, self.frame_info())
    }

    /// The physical address of frame `f`.
    pub open spec fn spec_frame_addr(&self, f: int) -> int {
        self.spec_base() + f * 4096
    }

    /// Whether `addr` is the address of a frame in use that is the root of a
    /// table.
    pub open spec fn is_root(&self, addr: usize) -> bool {
        let f = (addr - self.spec_base()) / 4096;
        &&& addr == self.spec_base() + f * 4096
        &&& 0 <= f < self.spec_frames()
        &&& self.frame_info()[f] == (FrameInfo { root: f, level: 4, vbase: 0 })
    }

    /// What the table rooted at `root` maps `va` to: the level of the entry
    /// and its descriptor word.
    pub open spec fn lookup(&self, root: usize, va: int) -> Option<(int, u64)> {
        if 0 <= va < ADDRESS_LIMIT {
            walk(self@, self.spec_base() as int, (root - self.spec_base()) / 4096, 4, va)
        } else {
            None
        }
    }

    /// An arena over `capacity` frames from `base` on, none of them in use.
    /// `None` where the base is not page-aligned or the extent does not lie
    /// below the address limit.
    pub fn new(base: usize, capacity: usize) -> (r: Option<Self>)
        ensures
            r.is_some() <==> base % 4096 == 0 && base + capacity * 4096 <= ADDRESS_LIMIT && base
                + capacity * 4096 <= usize::MAX,
            r matches Some(a) ==> a.wf() && a.spec_base() == base && a.spec_capacity() == capacity
                && a.spec_frames() == 0 && a@.len() == 0,
    {
        if base % 4096 != 0 || base as u64 > ADDRESS_LIMIT {
            return None;
        }
        if capacity as u64 > 0x10_0000_0000 {
            return None;
        }
        let bytes: u64 = (capacity as u64) * 4096;
        let end: u64 = (base as u64) + bytes;
        if end > ADDRESS_LIMIT || end > usize::MAX as u64 {
            return None;
        }
        Some(TableAlloc { base, capacity, words: Vec::new(), info: Ghost(Seq::empty()) })
    }

    pub fn base(&self) -> (r: usize)
        ensures
            r == self.spec_base(),
    {
        self.base
    }

    pub fn capacity(&self) -> (r: usize)
        ensures
            r == self.spec_capacity(),
    {
        self.capacity
    }

    /// The number of frames in use.
    pub fn frames(&self) -> (r: usize)
        requires
            self.wf(),
        ensures
            r == self.spec_frames(),
    {
        self.words.len() / 512
    }

    /// Whether every frame of the extent is in use.
    pub fn is_full(&self) -> (r: bool)
        requires
            self.wf(),
        ensures
            r == (self.spec_frames() == self.spec_capacity()),
    {
        self.words.len() / 512 >= self.capacity
    }
}

/// The empty word is no entry at all.
pub(crate) proof fn lemma_zero_word()
    ensures
        !entry_valid(0),
        !entry_is_table(0),
        decodable(0),
{
    assert((0u64 & 0xf870_0000_0000_0fe3) & 0x1 == 0) by (bit_vector);
    assert((0u64 >> 2) & 0b111 == 0) by (bit_vector);
}

impl TableAlloc {
    /// Takes the next frame of the extent into use, all its words empty.
    pub(crate) fn take_frame(&mut self, Ghost(fi): Ghost<FrameInfo>) -> (r: Option<usize>)
        requires
            old(self).wf(),
            1 <= fi.level <= 4,
            0 <= fi.root <= old(self).spec_frames(),
            0 <= fi.vbase,
            fi.vbase % level_size(fi.level + 1) == 0,
            fi.vbase + level_size(fi.level + 1) <= ADDRESS_LIMIT,
        ensures
            final(self).spec_base() == old(self).spec_base(),
            final(self).spec_capacity() == old(self).spec_capacity(),
            r.is_none() <==> old(self).spec_frames() == old(self).spec_capacity(),
            r.is_none() ==> final(self)@ == old(self)@ && final(self).frame_info() == old(self).frame_info(),
            r matches Some(f) ==> {
                &&& f == old(self).spec_frames()
                &&& final(self).wf()
                &&& final(self).frame_info() == old(self).frame_info().push(fi)
                &&& final(self)@.len() == old(self)@.len() + 512
                &&& grown_from(final(self)@, old(self)@, false, 0, 0)
                &&& forall|k: int| old(self)@.len() <= k < final(self)@.len() ==> final(self)@[k] == 0
            },
    {
        let frame: usize = self.words.len() / 512;
        if frame >= self.capacity {
            return None;
        }
        let ghost before = self.words@;
        let mut j: usize = 0;
        while j < 512
            invariant
                j <= 512,
                self.words@.len() == before.len() + j,
                before.len() == 512 * frame,
                forall|k: int| 0 <= k < before.len() ==> self.words@[k] == before[k],
                forall|k: int| before.len() <= k < self.words@.len() ==> self.words@[k] == 0,
                self.base == old(self).base,
                self.capacity == old(self).capacity,
                self.info@ == old(self).info@,
            decreases 512 - j,
        {
            self.words.push(0);
            j = j + 1;
        }
        self.info = Ghost(self.info@.push(fi));
        proof {
            lemma_zero_word();
            let words = self.words@;
            let info = self.info@;
            let old_info = old(self).info@;
            let base = self.base as int;
            assert forall|f: int| 0 <= f < info.len() implies #[trigger] frame_ok(info, f) by {
                if f < old_info.len() {
                    assert(frame_ok(old_info, f));
                }
            }
            assert forall|f: int, i: int| 0 <= f < info.len() && 0 <= i < 512 implies #[trigger] entry_ok(
                words,
                base,
                info,
                f,
                i,
            ) by {
                if f < old_info.len() {
                    assert(entry_ok(before, base, old_info, f, i));
                    assert(words[f * 512 + i] == before[f * 512 + i]);
                } else {
                    assert(words[f * 512 + i] == 0);
                }
            }
        }
        Some(frame)
    }
}

impl TableAlloc {
    /// The physical address that the table rooted at `root` translates `va`
    /// to: the output address of the entry that maps it, and the offset of
    /// `va` in the page or block.
    pub open spec fn translation(&self, root: usize, va: int) -> Option<int> {
        match self.lookup(root, va) {
            Some((level, w)) => Some((w & PADDR_MASK) + va % level_size(level)),
            None => None,
        }
    }

    /// The physical address of frame `frame` of the extent.
    pub fn frame_addr(&self, frame: usize) -> (r: usize)
        requires
            self.wf(),
            frame < self.spec_capacity(),
        ensures
            r == self.spec_frame_addr(frame as int),
    {
        self.base + frame * 4096
    }

    /// Writes word `index` of frame `frame`.
    pub(crate) fn store(&mut self, frame: usize, index: usize, w: u64)
        requires
            frame < old(self).spec_frames(),
            index < 512,
            old(self)@.len() == 512 * old(self).spec_frames(),
        ensures
            final(self)@ == old(self)@.update(frame * 512 + index, w),
            final(self).spec_base() == old(self).spec_base(),
            final(self).spec_capacity() == old(self).spec_capacity(),
            final(self).frame_info() == old(self).frame_info(),
    {
        let len: usize = self.words.len();
        assert(frame * 512 + index < len);
        self.words.set(frame * 512 + index, w);
    }

    /// Word `index` of frame `frame`: what the memory of the frame is to
    /// hold at byte `8 * index`.
    pub fn word(&self, frame: usize, index: usize) -> (r: u64)
        requires
            self.wf(),
            frame < self.spec_frames(),
            index < 512,
        ensures
            r == word_at(self@, frame as int, index as int),
    {
        self.words[frame * 512 + index]
    }
}

/// What a later state of an arena keeps of an earlier one: the extent, every
/// frame in use with what is known of it, and every valid entry.
pub open spec fn stays(before: &TableAlloc, after: &TableAlloc) -> bool {
    &&& after.spec_base() == before.spec_base()
    &&& after.spec_capacity() == before.spec_capacity()
    &&& before@.len() <= after@.len()
    &&& before.spec_frames() <= after.spec_frames()
    &&& forall|f: int|
        0 <= f < before.spec_frames() ==> #[trigger] after.frame_info()[f] == before.frame_info()[f]
    &&& forall|k: int|
        0 <= k < before@.len() && entry_valid(before@[k]) ==> #[trigger] after@[k] == before@[k]
}

/// The descriptor word of a mapping of `pa` at the given level: a page at
/// level 1, a block above.
pub open spec fn leaf_word(pa: usize, level: int, setting: PTESetting) -> u64 {
    spec_new_pte(PTEGeneric { paddr: pa, is_block: level > 1, is_valid: true, setting })
}

/// The descriptor word that points to the table at `addr`.
pub open spec fn table_word(addr: usize, setting: PTESetting) -> u64 {
    spec_new_pte(PTEGeneric { paddr: addr, is_block: false, is_valid: true, setting })
}

/// The bytes that an entry of a table of the given level covers.
pub(crate) fn size_of_level(level: usize) -> (r: u64)
    requires
        1 <= level <= 4,
    ensures
        r == level_size(level as int),
{
    if level == 1 {
        0x1000
    } else if level == 2 {
        0x20_0000
    } else if level == 3 {
        0x4000_0000
    } else {
        0x80_0000_0000
    }
}

/// The index of the entry that an address falls under.
pub(crate) fn index_of(va: usize, level: usize) -> (r: usize)
    requires
        1 <= level <= 4,
    ensures
        r == index_at(va as int, level as int),
        r < 512,
{
    let s: u64 = size_of_level(level);
    (((va as u64) / s) % 512) as usize
}

/// A handle on one table of an arena: the physical address of its root.
#[derive(Clone, Copy, Debug)]
pub struct PageTableRef {
    addr: usize,
    level: usize,
}

impl PageTableRef {
    /// The physical address of the root table.
    pub closed spec fn spec_paddr(&self) -> usize {
        self.addr
    }

    /// The level of the root table.
    pub closed spec fn spec_level(&self) -> usize {
        self.level
    }

    /// The handle names the root of a table of `access`.
    pub open spec fn wf(&self, access: &TableAlloc) -> bool {
        &&& self.spec_level() == 4
        &&& access.is_root(self.spec_paddr())
    }

    /// A new table with nothing mapped: one frame of the arena, as its root.
    /// Fails with `AllocatorExhausted`, and changes nothing, exactly when no
    /// frame is left. No word of a frame that was in use is touched.
    pub fn create_empty(access: &mut TableAlloc) -> (r: Result<Self, MapError>)
        requires
            old(access).wf(),
        ensures
            final(access).wf(),
            final(access).spec_base() == old(access).spec_base(),
            final(access).spec_capacity() == old(access).spec_capacity(),
            stays(old(access), final(access)),
            forall|k: int| 0 <= k < old(access)@.len() ==> #[trigger] final(access)@[k] == old(access)@[k],
            r.is_err() <==> old(access).spec_frames() == old(access).spec_capacity(),
            r matches Err(e) ==> e == MapError::AllocatorExhausted && final(access)@ == old(access)@ && final(access).spec_frames() == old(access).spec_frames(),
            r matches Ok(t) ==> {
                &&& t.wf(final(access))
                &&& t.spec_paddr() == old(access).spec_frame_addr(old(access).spec_frames())
                &&& final(access).spec_frames() == old(access).spec_frames() + 1
                &&& forall|va: int| final(access).lookup(t.spec_paddr(), va).is_none()
                &&& forall|va: int, level: int, word: u64|
                    !#[trigger] conflicts(
                        final(access)@,
                        final(access).spec_base() as int,
                        (t.spec_paddr() - final(access).spec_base()) / 4096,
                        4,
                        va,
                        level,
                        word,
                    )
                &&& forall|va: int| #[trigger]
                    gap(
                        final(access)@,
                        final(access).spec_base() as int,
                        (t.spec_paddr() - final(access).spec_base()) / 4096,
                        4,
                        va,
                    ) == 4
                &&& forall|root: usize, va: int|
                    old(access).is_root(root) ==> final(access).is_root(root) && #[trigger] final(access).lookup(root, va) == old(access).lookup(root, va)
            },
    {
        let ghost frames = access.spec_frames();
        let ghost fi = FrameInfo { root: frames, level: 4, vbase: 0 };
        match access.take_frame(Ghost(fi)) {
            None => Err(MapError::AllocatorExhausted),
            Some(frame) => {
                let addr: usize = access.base + frame * 4096;
                let t = PageTableRef { addr, level: 4 };
                proof {
                    lemma_zero_word();
                    let words = access@;
                    let base = access.spec_base() as int;
                    assert forall|va: int, level: int, word: u64| !#[trigger] conflicts(
                        words,
                        base,
                        frame as int,
                        4,
                        va,
                        level,
                        word,
                    ) by {
                        let i = index_at(va, 4);
                        assert(0 <= i < 512) by {
                            assert(level_size(4) == 0x80_0000_0000);
                        }
                        assert(words[frame * 512 + i] == 0);
                    }
                    assert forall|va: int| #[trigger] gap(words, base, frame as int, 4, va) == 4 by {
                        let i = index_at(va, 4);
                        assert(0 <= i < 512) by {
                            assert(level_size(4) == 0x80_0000_0000);
                        }
                        assert(words[frame * 512 + i] == 0);
                    }
                    assert forall|va: int| access.lookup(addr, va).is_none() by {
                        let i = index_at(va, 4);
                        assert(0 <= i < 512) by {
                            assert(level_size(4) == 0x80_0000_0000);
                        }
                        assert(words[frame * 512 + i] == 0);
                    }
                    assert forall|root: usize, va: int| old(access).is_root(root) implies access.is_root(
                        root,
                    ) && #[trigger] access.lookup(root, va) == old(access).lookup(root, va) by {
                        let f = (root - base) / 4096;
                        if 0 <= va < ADDRESS_LIMIT {
                            lemma_root_walk_stable(
                            access@,
                            old(access)@,
                            base,
                            access.spec_capacity() as int,
                            old(access).frame_info(),
                            false,
                            0,
                            0,
                                f,
                                va,
                            );
                        }
                    }
                }
                Ok(t)
            },
        }
    }

    /// The physical address of the root table: what the translation-table
    /// base register is to hold.
    pub fn paddr(&self) -> (r: usize)
        ensures
            r == self.spec_paddr(),
    {
        self.addr
    }

    pub fn level(&self) -> (r: usize)
        ensures
            r == self.spec_level(),
    {
        self.level
    }
}

/// The output address of a descriptor word lies below the address limit.
proof fn lemma_paddr_bound(w: u64)
    by (bit_vector)
    ensures
        w & 0x0000_ffff_ffff_f000 < 0x1_0000_0000_0000,
{
}

impl PageTableRef {
    /// Walks the table for `vaddr`: the level of the entry that maps it and
    /// its descriptor word, or `None` where nothing is mapped.
    pub fn query(&self, access: &TableAlloc, vaddr: usize) -> (r: Option<(usize, u64)>)
        requires
            access.wf(),
            self.wf(access),
        ensures
            r.is_some() == access.lookup(self.spec_paddr(), vaddr as int).is_some(),
            r matches Some((level, w)) ==> 1 <= level <= 4 && access.lookup(
                self.spec_paddr(),
                vaddr as int,
            ) == Some((level as int, w)),
    {
        if vaddr as u64 >= ADDRESS_LIMIT {
            return None;
        }
        let ghost base = access.spec_base() as int;
        let ghost rootf = (self.spec_paddr() - base) / 4096;
        let mut cur: usize = (self.addr - access.base) / 4096;
        let mut lvl: usize = 4;
        proof {
            assert(frame_ok(access.frame_info(), cur as int));
        }
        loop
            invariant
                access.wf(),
                base == access.spec_base(),
                1 <= lvl <= 4,
                0 <= vaddr < ADDRESS_LIMIT,
                0 <= cur < access.spec_frames(),
                access.frame_info()[cur as int].level == lvl,
                access.frame_info()[cur as int].vbase <= vaddr < access.frame_info()[cur as int].vbase
                    + level_size(lvl + 1),
                walk(access@, base, rootf, 4, vaddr as int) == walk(
                    access@,
                    base,
                    cur as int,
                    lvl as int,
                    vaddr as int,
                ),
                access.lookup(self.spec_paddr(), vaddr as int) == walk(
                    access@,
                    base,
                    rootf,
                    4,
                    vaddr as int,
                ),
            decreases lvl,
        {
            let idx: usize = index_of(vaddr, lvl);
            proof {
                assert(frame_ok(access.frame_info(), cur as int));
                assert(entry_ok(access@, base, access.frame_info(), cur as int, idx as int));
                lemma_index_region(access.frame_info()[cur as int].vbase, vaddr as int, lvl as int);
            }
            let w: u64 = access.words[cur * 512 + idx];
            let d = PageTableImpl::read_pte(w);
            if !d.is_valid {
                return None;
            }
            if lvl > 1 && !d.is_block {
                proof {
                    let c = child_frame(base, w);
                    assert(frame_ok(access.frame_info(), c));
                }
                cur = (d.paddr - access.base) / 4096;
                lvl = lvl - 1;
            } else {
                return Some((lvl, w));
            }
        }
    }

    /// The physical address that the table translates `vaddr` to, or `None`
    /// where nothing is mapped.
    pub fn translate(&self, access: &TableAlloc, vaddr: usize) -> (r: Option<u64>)
        requires
            access.wf(),
            self.wf(access),
        ensures
            r.is_some() == access.translation(self.spec_paddr(), vaddr as int).is_some(),
            r matches Some(pa) ==> access.translation(self.spec_paddr(), vaddr as int) == Some(
                pa as int,
            ),
    {
        match self.query(access, vaddr) {
            None => None,
            Some((level, w)) => {
                let s: u64 = size_of_level(level);
                proof {
                    lemma_paddr_bound(w);
                }
                Some((w & PADDR_MASK) + (vaddr as u64) % s)
            },
        }
    }
}

} // verus!
