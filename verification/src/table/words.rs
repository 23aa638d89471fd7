//! What a mapping does to the words of the frames that were in use: in
//! the frames of its own table it writes the entry of a block or of a new
//! table over a word that was not valid, and nothing else.

use vstd::prelude::*;
use crate::pte::{PTEGeneric, PTESetting};
use crate::table::arena::{entry_valid, leaf_word, stays, table_word, TableAlloc};
use crate::table::plan::Block;

verus! {

/// Whether `w` is the entry of the block.
pub open spec fn block_word(block: Block, setting: PTESetting, w: u64) -> bool {
    w == leaf_word(block.paddr, block.level as int, setting)
}

/// Whether `w` is the entry that points to frame `c` of an arena at `base`.
pub open spec fn frame_word(base: int, c: int, setting: PTESetting, w: u64) -> bool {
    w == table_word((base + c * 4096) as usize, setting)
}

/// The words that mapping the first `k` blocks writes: the entry of one of
/// those blocks, or the entry that points to one of the frames `lo` to
/// `hi - 1` of the arena, which were taken for their tables.
pub open spec fn written_word(
    base: int,
    lo: int,
    hi: int,
    blocks: Seq<Block>,
    k: int,
    setting: PTESetting,
    w: u64,
) -> bool {
    ||| exists|j: int| 0 <= j < k && j < blocks.len() && block_word(#[trigger] blocks[j], setting, w)
    ||| exists|c: int| lo <= c < hi && #[trigger] frame_word(base, c, setting, w)
}

/// Whether word `i` of an arena lies in a frame of the table rooted at
/// `table`.
pub open spec fn owned(access: &TableAlloc, table: usize, i: int) -> bool {
    access.frame_info()[i / 512].root == (table - access.spec_base()) / 4096
}

/// Every word of a frame that was in use is as it was, or lies in a frame
/// of the table rooted at `table`, was not valid, and is now the entry of
/// one of the first `k` blocks or the entry that points to a frame taken
/// since.
pub open spec fn words_kept(
    before: &TableAlloc,
    after: &TableAlloc,
    table: usize,
    blocks: Seq<Block>,
    k: int,
    setting: PTESetting,
) -> bool {
    forall|i: int|
        0 <= i < before@.len() ==> (#[trigger] after@[i]) == before@[i] || (!entry_valid(
            before@[i],
        ) && owned(before, table, i) && written_word(
            before.spec_base() as int,
            before.spec_frames(),
            after.spec_frames(),
            blocks,
            k,
            setting,
            after@[i],
        ))
}

/// What is written is a valid entry.
pub(crate) proof fn lemma_written_valid(
    base: int,
    lo: int,
    hi: int,
    blocks: Seq<Block>,
    k: int,
    setting: PTESetting,
    w: u64,
)
    requires
        written_word(base, lo, hi, blocks, k, setting, w),
    ensures
        entry_valid(w),
{
    if exists|j: int| 0 <= j < k && j < blocks.len() && block_word(#[trigger] blocks[j], setting, w) {
        let j = choose|j: int| 0 <= j < k && j < blocks.len() && block_word(#[trigger] blocks[j], setting, w);
        crate::pte::lemma_fields(
            PTEGeneric {
                paddr: blocks[j].paddr,
                is_block: blocks[j].level as int > 1,
                is_valid: true,
                setting,
            },
        );
    } else {
        let c = choose|c: int| lo <= c < hi && #[trigger] frame_word(base, c, setting, w);
        crate::pte::lemma_fields(
            PTEGeneric {
                paddr: (base + c * 4096) as usize,
                is_block: false,
                is_valid: true,
                setting,
            },
        );
    }
}

/// One word is stored over a word that was not valid, or over itself.
pub(crate) proof fn lemma_word_stored(
    start: &TableAlloc,
    before: &TableAlloc,
    after: &TableAlloc,
    table: usize,
    pos: int,
    w: u64,
    blocks: Seq<Block>,
    k: int,
    to: int,
    setting: PTESetting,
)
    requires
        words_kept(start, before, table, blocks, k, setting),
        k <= to,
        start@.len() <= before@.len(),
        0 <= pos < before@.len(),
        after@ == before@.update(pos, w),
        before.spec_frames() <= after.spec_frames(),
        before.spec_base() == start.spec_base(),
        before@[pos] == w || !entry_valid(before@[pos]),
        pos < start@.len() && before@[pos] != w ==> owned(start, table, pos) && written_word(
            start.spec_base() as int,
            start.spec_frames(),
            after.spec_frames(),
            blocks,
            to,
            setting,
            w,
        ),
    ensures
        words_kept(start, after, table, blocks, to, setting),
{
    let base = start.spec_base() as int;
    assert forall|i: int| 0 <= i < start@.len() implies (#[trigger] after@[i]) == start@[i] || (
    !entry_valid(start@[i]) && owned(start, table, i) && written_word(
        base,
        start.spec_frames(),
        after.spec_frames(),
        blocks,
        to,
        setting,
        after@[i],
    )) by {
        let old_word = before@[i];
        assert(old_word == start@[i] || (!entry_valid(start@[i]) && owned(start, table, i)
            && written_word(
            base,
            start.spec_frames(),
            before.spec_frames(),
            blocks,
            k,
            setting,
            old_word,
        )));
        if old_word != start@[i] {
            lemma_written_valid(
                base,
                start.spec_frames(),
                before.spec_frames(),
                blocks,
                k,
                setting,
                old_word,
            );
        }
    }
}

/// A frame is taken: the words of the frames in use are not touched.
pub(crate) proof fn lemma_frame_taken(
    start: &TableAlloc,
    before: &TableAlloc,
    grown: &TableAlloc,
    table: usize,
    blocks: Seq<Block>,
    k: int,
    setting: PTESetting,
)
    requires
        words_kept(start, before, table, blocks, k, setting),
        start@.len() <= before@.len() <= grown@.len(),
        before.spec_frames() <= grown.spec_frames(),
        forall|i: int| 0 <= i < before@.len() ==> #[trigger] grown@[i] == before@[i],
    ensures
        words_kept(start, grown, table, blocks, k, setting),
{
    assert forall|i: int| 0 <= i < start@.len() implies (#[trigger] grown@[i]) == start@[i] || (
    !entry_valid(start@[i]) && owned(start, table, i) && written_word(
        start.spec_base() as int,
        start.spec_frames(),
        grown.spec_frames(),
        blocks,
        k,
        setting,
        grown@[i],
    )) by {
        assert(grown@[i] == before@[i]);
    }
}

/// One block more: what the mapping of block `k` did to the words, on top
/// of what the mapping of the blocks before it did.
pub(crate) proof fn lemma_words_step(
    start: &TableAlloc,
    before: &TableAlloc,
    after: &TableAlloc,
    table: usize,
    blocks: Seq<Block>,
    k: int,
    written: bool,
    setting: PTESetting,
)
    requires
        0 <= k < blocks.len(),
        start.wf(),
        stays(start, before),
        stays(before, after),
        words_kept(start, before, table, blocks, k, setting),
        words_kept(before, after, table, seq![blocks[k]], if written {
            1
        } else {
            0
        }, setting),
    ensures
        words_kept(start, after, table, blocks, if written {
            k + 1
        } else {
            k
        }, setting),
{
    let base = start.spec_base() as int;
    let to = if written {
        k + 1
    } else {
        k
    };
    let one = seq![blocks[k]];
    let n: int = if written {
        1
    } else {
        0
    };
    assert forall|i: int| 0 <= i < start@.len() implies (#[trigger] after@[i]) == start@[i] || (
    !entry_valid(start@[i]) && owned(start, table, i) && written_word(
        base,
        start.spec_frames(),
        after.spec_frames(),
        blocks,
        to,
        setting,
        after@[i],
    )) by {
        assert(0 <= i / 512 < start.spec_frames());
        let mid = before@[i];
        let w = after@[i];
        if mid != start@[i] {
            lemma_written_valid(base, start.spec_frames(), before.spec_frames(), blocks, k, setting, mid);
            assert(w == mid);
        } else if w != mid {
            assert(written_word(base, before.spec_frames(), after.spec_frames(), one, n, setting, w));
            if exists|j: int| 0 <= j < n && j < one.len() && block_word(#[trigger] one[j], setting, w) {
                assert(one[0] == blocks[k]);
                assert(block_word(blocks[k], setting, w));
            }
        }
    }
}

/// Where no frame was taken and no block written, no word has changed:
/// a mapping that fails at its first block for want of a frame, in an
/// arena that was full, leaves every table bit for bit as it was.
pub proof fn lemma_nothing_written(
    before: &TableAlloc,
    after: &TableAlloc,
    table: usize,
    blocks: Seq<Block>,
    setting: PTESetting,
)
    requires
        words_kept(before, after, table, blocks, 0, setting),
        after.spec_frames() == before.spec_frames(),
        after@.len() == before@.len(),
    ensures
        after@ == before@,
{
    assert(after@ =~= before@);
}

/// Where no frame was taken, no table was made: every word that has
/// changed is the entry of a block that was written.
pub proof fn lemma_full_arena_gets_blocks_only(
    before: &TableAlloc,
    after: &TableAlloc,
    table: usize,
    blocks: Seq<Block>,
    k: int,
    setting: PTESetting,
    i: int,
)
    requires
        words_kept(before, after, table, blocks, k, setting),
        after.spec_frames() == before.spec_frames(),
        0 <= i < before@.len(),
        after@[i] != before@[i],
    ensures
        !entry_valid(before@[i]),
        exists|j: int| 0 <= j < k && j < blocks.len() && block_word(#[trigger] blocks[j], setting, after@[i]),
{
}

/// A mapping into one table changes no word of a frame that was in use
/// before the root of that table was taken: the other tables of the arena
/// are bit for bit as they were.
pub proof fn lemma_earlier_frames_kept(
    before: &TableAlloc,
    after: &TableAlloc,
    table: usize,
    blocks: Seq<Block>,
    k: int,
    setting: PTESetting,
    i: int,
)
    requires
        before.wf(),
        words_kept(before, after, table, blocks, k, setting),
        0 <= i < before@.len(),
        i / 512 < (table - before.spec_base()) / 4096,
    ensures
        after@[i] == before@[i],
{
    assert(0 <= i / 512 < before.spec_frames());
    assert(crate::table::arena::frame_ok(before.frame_info(), i / 512));
}

} // verus!
