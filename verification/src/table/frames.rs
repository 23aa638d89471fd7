//! How many table frames a block needs: where the walk for an address
//! first finds no table, and how that moves as blocks are written.

use vstd::prelude::*;
use crate::pte::PTESetting;
use crate::table::arena::{
    arena_ok, child_frame, conflicts, descend, entry_is_table, entry_ok, entry_valid, frame_ok,
    index_at, lemma_zero_word, level_size, missing, word_at, FrameInfo, TableAlloc,
    ADDRESS_LIMIT,
};
use crate::table::steps::{
    grown_from, leaf_written, lemma_descend_info, lemma_index_region, lemma_leaf_written,
    lemma_table_created, table_created,
};

verus! {

/// The number of the slot of a table of the given level that an address
/// falls in, counted from address 0.
pub open spec fn slot_of(va: int, level: int) -> int {
    va / level_size(level)
}

/// The highest level at which two addresses fall in different slots; 0
/// where they share a page.
pub open spec fn diverge(u: int, v: int) -> int {
    if slot_of(u, 4) != slot_of(v, 4) {
        4
    } else if slot_of(u, 3) != slot_of(v, 3) {
        3
    } else if slot_of(u, 2) != slot_of(v, 2) {
        2
    } else if slot_of(u, 1) != slot_of(v, 1) {
        1
    } else {
        0
    }
}

/// The level of the first empty entry that the walk for `va` meets, from
/// frame `f` at `level` down; 0 where it meets none before it ends at a
/// page or block.
pub open spec fn gap(words: Seq<u64>, base: int, f: int, level: int, va: int) -> int
    decreases level,
{
    if level < 1 || f < 0 || (f + 1) * 512 > words.len() {
        0
    } else {
        let w = word_at(words, f, index_at(va, level));
        if !entry_valid(w) {
            level
        } else if level > 1 && entry_is_table(w) {
            gap(words, base, child_frame(base, w), level - 1, va)
        } else {
            0
        }
    }
}

/// Whether the walk for `va` ends at a page or block above level `target`.
pub(crate) open spec fn blocked(words: Seq<u64>, base: int, f: int, level: int, va: int, target: int) -> bool
    decreases level,
{
    if level < 1 || level <= target || f < 0 || (f + 1) * 512 > words.len() {
        false
    } else {
        let w = word_at(words, f, index_at(va, level));
        if !entry_valid(w) {
            false
        } else if entry_is_table(w) {
            blocked(words, base, child_frame(base, w), level - 1, va, target)
        } else {
            true
        }
    }
}

/// The tables that are missing for a block are the levels between the
/// first empty entry on the way and the block's own.
pub(crate) proof fn lemma_missing_is_gap(
    words: Seq<u64>,
    base: int,
    f: int,
    level: int,
    va: int,
    target: int,
)
    requires
        1 <= target,
        level <= 4,
    ensures
        missing(words, base, f, level, va, target) == if gap(words, base, f, level, va) > target {
            gap(words, base, f, level, va) - target
        } else {
            0
        },
        gap(words, base, f, level, va) <= level || level < 1,
        0 <= gap(words, base, f, level, va),
    decreases level,
{
    if !(level < 1 || f < 0 || (f + 1) * 512 > words.len()) {
        let w = word_at(words, f, index_at(va, level));
        if entry_valid(w) && entry_is_table(w) {
            lemma_missing_is_gap(words, base, child_frame(base, w), level - 1, va, target);
        }
    }
}

/// A slot that is free of conflict has no page or block above it.
pub(crate) proof fn lemma_free_is_not_blocked(
    words: Seq<u64>,
    base: int,
    f: int,
    level: int,
    va: int,
    target: int,
    word: u64,
)
    requires
        !conflicts(words, base, f, level, va, target, word),
    ensures
        !blocked(words, base, f, level, va, target),
    decreases level,
{
    if !(level < 1 || level <= target || f < 0 || (f + 1) * 512 > words.len()) {
        let w = word_at(words, f, index_at(va, level));
        if entry_valid(w) && entry_is_table(w) {
            lemma_free_is_not_blocked(
                words,
                base,
                child_frame(base, w),
                level - 1,
                va,
                target,
                word,
            );
        }
    }
}

/// The slots of one level lie in the slots of the next: the slot of an
/// address at a level is 512 times its slot at the next level, plus its
/// index at the level.
pub(crate) proof fn lemma_slot_parts(va: int, level: int)
    requires
        0 <= va,
        1 <= level <= 4,
    ensures
        slot_of(va, level) == 512 * slot_of(va, level + 1) + index_at(va, level),
        0 <= index_at(va, level) < 512,
        0 <= slot_of(va, level),
{
    let s = level_size(level);
    assert(level_size(level + 1) == s * 512);
    vstd::arithmetic::div_mod::lemma_div_denominator(va, s, 512);
    vstd::arithmetic::div_mod::lemma_fundamental_div_mod(va / s, 512);
    vstd::arithmetic::div_mod::lemma_div_pos_is_pos(va, s);
}

/// Below the address limit every address falls in the one slot of "level
/// 5".
pub(crate) proof fn lemma_top_slot(va: int)
    requires
        0 <= va < ADDRESS_LIMIT,
    ensures
        slot_of(va, 5) == 0,
{
}

/// An address of an aligned slot has the slot's number.
pub(crate) proof fn lemma_slot_of_region(x: int, va: int, level: int)
    requires
        1 <= level <= 4,
        0 <= x,
        x % level_size(level) == 0,
        x <= va < x + level_size(level),
    ensures
        slot_of(va, level) == slot_of(x, level),
        slot_of(x, level) * level_size(level) == x,
{
    let s = level_size(level);
    let q = x / s;
    vstd::arithmetic::div_mod::lemma_fundamental_div_mod(x, s);
    assert(x == q * s) by (nonlinear_arith)
        requires
            x == s * q + x % s,
            x % s == 0,
    ;
    vstd::arithmetic::div_mod::lemma_fundamental_div_mod_converse(va, s, q, va - x);
}


/// Two addresses that share a slot at a level share the slot at the next
/// level; and two that share a slot at the next level share the slot at a
/// level exactly if they have the same index there.
pub(crate) proof fn lemma_slots_nest(u: int, v: int, level: int)
    requires
        0 <= u,
        0 <= v,
        1 <= level <= 4,
    ensures
        slot_of(u, level) == slot_of(v, level) ==> slot_of(u, level + 1) == slot_of(v, level + 1),
        slot_of(u, level + 1) == slot_of(v, level + 1) ==> (slot_of(u, level) == slot_of(v, level))
            == (index_at(u, level) == index_at(v, level)),
{
    lemma_slot_parts(u, level);
    lemma_slot_parts(v, level);
    vstd::arithmetic::div_mod::lemma_fundamental_div_mod_converse(
        slot_of(u, level),
        512,
        slot_of(u, level + 1),
        index_at(u, level),
    );
    vstd::arithmetic::div_mod::lemma_fundamental_div_mod_converse(
        slot_of(v, level),
        512,
        slot_of(v, level + 1),
        index_at(v, level),
    );
}

/// Two addresses that share a slot at a level diverge below it.
pub(crate) proof fn lemma_diverge(u: int, v: int, level: int)
    requires
        0 <= u < ADDRESS_LIMIT,
        0 <= v < ADDRESS_LIMIT,
        1 <= level <= 5,
    ensures
        (slot_of(u, level) == slot_of(v, level)) == (diverge(u, v) < level),
        0 <= diverge(u, v) <= 4,
{
    lemma_slots_nest(u, v, 1);
    lemma_slots_nest(u, v, 2);
    lemma_slots_nest(u, v, 3);
    lemma_slots_nest(u, v, 4);
}

/// The first empty entry on the way is found where it was after a change
/// in a slot that does not cover the address.
pub(crate) proof fn lemma_gap_stable(
    after: Seq<u64>,
    words: Seq<u64>,
    base: int,
    capacity: int,
    info: Seq<FrameInfo>,
    touched: bool,
    n: int,
    i: int,
    f: int,
    level: int,
    va: int,
)
    requires
        arena_ok(words, base, capacity, info),
        grown_from(after, words, touched, n, i),
        0 <= n < info.len(),
        0 <= i < 512,
        0 <= f < info.len(),
        info[f].level == level,
        info[f].vbase <= va < info[f].vbase + level_size(level + 1),
        touched ==> !(info[n].root == info[f].root && info[n].vbase + i * level_size(
            info[n].level,
        ) <= va < info[n].vbase + i * level_size(info[n].level) + level_size(info[n].level)),
    ensures
        gap(after, base, f, level, va) == gap(words, base, f, level, va),
    decreases level,
{
    assert(frame_ok(info, f));
    let j = index_at(va, level);
    lemma_index_region(info[f].vbase, va, level);
    assert(entry_ok(words, base, info, f, j));
    assert(after[f * 512 + j] == words[f * 512 + j]);
    let w = word_at(words, f, j);
    if entry_valid(w) && level > 1 && entry_is_table(w) {
        lemma_gap_stable(
            after,
            words,
            base,
            capacity,
            info,
            touched,
            n,
            i,
            child_frame(base, w),
            level - 1,
            va,
        );
    }
}

/// Where two walks share their way down to a level, they find the same
/// first empty entry above it, or both find none there.
pub(crate) proof fn lemma_shared_way(
    words: Seq<u64>,
    base: int,
    capacity: int,
    info: Seq<FrameInfo>,
    f: int,
    level: int,
    u: int,
    v: int,
)
    requires
        arena_ok(words, base, capacity, info),
        0 <= f < info.len(),
        info[f].level == level,
        0 <= u < ADDRESS_LIMIT,
        0 <= v < ADDRESS_LIMIT,
        info[f].vbase <= u < info[f].vbase + level_size(level + 1),
        info[f].vbase <= v < info[f].vbase + level_size(level + 1),
        slot_of(u, level + 1) == slot_of(v, level + 1),
    ensures
        gap(words, base, f, level, u) > diverge(u, v) ==> gap(words, base, f, level, v) == gap(
            words,
            base,
            f,
            level,
            u,
        ),
        gap(words, base, f, level, u) <= diverge(u, v) && !blocked(
            words,
            base,
            f,
            level,
            u,
            diverge(u, v),
        ) ==> gap(words, base, f, level, v) <= diverge(u, v),
    decreases level,
{
    assert(frame_ok(info, f));
    lemma_slots_nest(u, v, level);
    lemma_diverge(u, v, level);
    lemma_diverge(u, v, level + 1);
    lemma_missing_is_gap(words, base, f, level, u, 1);
    lemma_missing_is_gap(words, base, f, level, v, 1);
    lemma_index_region(info[f].vbase, u, level);
    lemma_index_region(info[f].vbase, v, level);
    if slot_of(u, level) == slot_of(v, level) {
        let j = index_at(u, level);
        assert(entry_ok(words, base, info, f, j));
        let w = word_at(words, f, j);
        if entry_valid(w) && level > 1 && entry_is_table(w) {
            lemma_shared_way(words, base, capacity, info, child_frame(base, w), level - 1, u, v);
        }
    }
}

/// Making a table for the empty slot on the way of `va` moves the first
/// empty entry one level down for every address that shares the slot, and
/// leaves it where it was for every other.
pub(crate) proof fn lemma_table_created_gap(
    before: TableAlloc,
    grown: TableAlloc,
    after: TableAlloc,
    cur: int,
    idx: int,
    c: int,
    tw: u64,
    setting: PTESetting,
    va: int,
    f: int,
    level: int,
    vb: int,
)
    requires
        table_created(&before, &grown, &after, cur, idx, c, tw, setting),
        0 <= va < ADDRESS_LIMIT,
        0 <= vb < ADDRESS_LIMIT,
        idx == index_at(va, before.frame_info()[cur].level),
        0 <= f < before.spec_frames(),
        before.frame_info()[f].level == level,
        before.frame_info()[f].vbase <= va < before.frame_info()[f].vbase + level_size(level + 1),
        before.frame_info()[f].vbase <= vb < before.frame_info()[f].vbase + level_size(level + 1),
        descend(
            before@,
            before.spec_base() as int,
            f,
            level,
            va,
            before.frame_info()[cur].level,
        ) == Some(cur),
        slot_of(va, level + 1) == slot_of(vb, level + 1),
    ensures
        gap(after@, before.spec_base() as int, f, level, vb) == if slot_of(
            va,
            before.frame_info()[cur].level,
        ) == slot_of(vb, before.frame_info()[cur].level) {
            before.frame_info()[cur].level - 1
        } else {
            gap(before@, before.spec_base() as int, f, level, vb)
        },
    decreases level,
{
    let base = before.spec_base() as int;
    let capacity = before.spec_capacity() as int;
    let info = before.frame_info();
    let lc = info[cur].level;
    lemma_table_created(before, grown, after, cur, idx, c, tw, setting);
    lemma_zero_word();
    lemma_descend_info(before@, base, capacity, info, f, level, va, lc, cur);
    assert(frame_ok(info, f));
    assert(frame_ok(info, cur));
    lemma_slots_nest(va, vb, level);
    let j = index_at(vb, level);
    let jv = index_at(va, level);
    lemma_index_region(info[f].vbase, vb, level);
    lemma_index_region(info[f].vbase, va, level);
    assert(entry_ok(before@, base, info, f, j));
    assert(entry_ok(before@, base, info, f, jv));
    assert(grown_from(after@, before@, true, cur, idx)) by {
        assert forall|k: int| 0 <= k < before@.len() && k != cur * 512 + idx implies #[trigger] after@[k]
            == before@[k] by {
            assert(grown@[k] == before@[k]);
        }
    }
    if level == lc {
        assert(f == cur);
        if j == idx {
            assert(after@[f * 512 + j] == tw);
            let j2 = index_at(vb, level - 1);
            assert(frame_ok(grown.frame_info(), c));
            lemma_index_region(grown.frame_info()[c].vbase, vb, level - 1);
            assert(word_at(after@, c, j2) == 0);
            assert(gap(after@, base, c, level - 1, vb) == level - 1);
        } else {
            assert(after@[f * 512 + j] == before@[f * 512 + j]);
            let w = word_at(before@, f, j);
            if entry_valid(w) && level > 1 && entry_is_table(w) {
                let x = info[cur].vbase + idx * level_size(lc);
                if x <= vb < x + level_size(lc) {
                    lemma_slot_of_region(x, vb, lc);
                    lemma_slot_of_region(x, va, lc);
                }
                lemma_gap_stable(
                    after@,
                    before@,
                    base,
                    capacity,
                    info,
                    true,
                    cur,
                    idx,
                    child_frame(base, w),
                    level - 1,
                    vb,
                );
            }
        }
    } else {
        assert(f != cur);
        assert(after@[f * 512 + j] == before@[f * 512 + j]);
        let w = word_at(before@, f, j);
        if j == jv {
            lemma_table_created_gap(
                before,
                grown,
                after,
                cur,
                idx,
                c,
                tw,
                setting,
                va,
                child_frame(base, w),
                level - 1,
                vb,
            );
        } else {
            lemma_unshared_slot(va, vb, lc, level);
            if entry_valid(w) && level > 1 && entry_is_table(w) {
                lemma_index_region(info[cur].vbase, va, lc);
                let x = info[cur].vbase + idx * level_size(lc);
                if x <= vb < x + level_size(lc) {
                    lemma_slot_of_region(x, vb, lc);
                    lemma_slot_of_region(x, va, lc);
                }
                lemma_gap_stable(
                    after@,
                    before@,
                    base,
                    capacity,
                    info,
                    true,
                    cur,
                    idx,
                    child_frame(base, w),
                    level - 1,
                    vb,
                );
            }
        }
    }
}

/// Two addresses that fall in different slots at a level fall in different
/// slots at every level below.
pub(crate) proof fn lemma_unshared_slot(u: int, v: int, lower: int, level: int)
    requires
        0 <= u,
        0 <= v,
        1 <= lower <= level <= 4,
        slot_of(u, level) != slot_of(v, level),
    ensures
        slot_of(u, lower) != slot_of(v, lower),
    decreases level - lower,
{
    if lower < level {
        lemma_slots_nest(u, v, lower);
        lemma_unshared_slot(u, v, lower + 1, level);
    }
}


/// Where the first empty entries are while a block at `va` is being
/// written: tables have been made for the way of `va` from level `top`
/// down to above level `lvl`. For every address that shares the way at
/// level `top`, the first empty entry is now where its way parts from that
/// of `va`, and not above `lvl`; for every other it is where it was.
pub(crate) open spec fn gaps_moved(
    start: Seq<u64>,
    now: Seq<u64>,
    base: int,
    rootf: int,
    va: int,
    top: int,
    lvl: int,
) -> bool {
    forall|vb: int|
        0 <= vb < ADDRESS_LIMIT ==> #[trigger] gap(now, base, rootf, 4, vb) == (if top > lvl
            && diverge(va, vb) < top {
            if diverge(va, vb) > lvl {
                diverge(va, vb)
            } else {
                lvl
            }
        } else {
            gap(start, base, rootf, 4, vb)
        })
}

/// Where the first empty entries are once a block at `va` is written: for
/// every address outside the block whose way parts from that of `va` below
/// the first empty entry that `va` had, it is where the ways part; for
/// every other it is where it was.
pub(crate) open spec fn gaps_after(
    before: Seq<u64>,
    after: Seq<u64>,
    base: int,
    rootf: int,
    va: int,
    level: int,
) -> bool {
    forall|vb: int|
        0 <= vb < ADDRESS_LIMIT && !(va <= vb < va + level_size(level)) ==> #[trigger] gap(
            after,
            base,
            rootf,
            4,
            vb,
        ) == (if diverge(va, vb) < gap(before, base, rootf, 4, va) {
            diverge(va, vb)
        } else {
            gap(before, base, rootf, 4, vb)
        })
}

pub(crate) proof fn lemma_gaps_after_table(
    start: Seq<u64>,
    before: TableAlloc,
    grown: TableAlloc,
    after: TableAlloc,
    cur: int,
    idx: int,
    c: int,
    tw: u64,
    setting: PTESetting,
    rootf: int,
    va: int,
    top: int,
)
    requires
        table_created(&before, &grown, &after, cur, idx, c, tw, setting),
        0 <= va < ADDRESS_LIMIT,
        0 <= rootf < before.spec_frames(),
        before.frame_info()[rootf] == (FrameInfo { root: rootf, level: 4, vbase: 0 }),
        idx == index_at(va, before.frame_info()[cur].level),
        descend(
            before@,
            before.spec_base() as int,
            rootf,
            4,
            va,
            before.frame_info()[cur].level,
        ) == Some(cur),
        before.frame_info()[cur].level <= top,
        gaps_moved(
            start,
            before@,
            before.spec_base() as int,
            rootf,
            va,
            top,
            before.frame_info()[cur].level,
        ),
    ensures
        gaps_moved(
            start,
            after@,
            before.spec_base() as int,
            rootf,
            va,
            top,
            before.frame_info()[cur].level - 1,
        ),
{
    let base = before.spec_base() as int;
    let lvl = before.frame_info()[cur].level;
    assert forall|vb: int| 0 <= vb < ADDRESS_LIMIT implies #[trigger] gap(
        after@,
        base,
        rootf,
        4,
        vb,
    ) == (if top > lvl - 1 && diverge(va, vb) < top {
        if diverge(va, vb) > lvl - 1 {
            diverge(va, vb)
        } else {
            lvl - 1
        }
    } else {
        gap(start, base, rootf, 4, vb)
    }) by {
        lemma_top_slot(va);
        lemma_top_slot(vb);
        lemma_table_created_gap(before, grown, after, cur, idx, c, tw, setting, va, rootf, 4, vb);
        lemma_diverge(va, vb, lvl);
        assert(gap(before@, base, rootf, 4, vb) == (if top > lvl && diverge(va, vb) < top {
            if diverge(va, vb) > lvl {
                diverge(va, vb)
            } else {
                lvl
            }
        } else {
            gap(start, base, rootf, 4, vb)
        }));
    }
}

/// An address outside an aligned block parts from the block's base at the
/// block's level or above.
pub(crate) proof fn lemma_outside_diverges(va: int, vb: int, level: int)
    requires
        1 <= level <= 3,
        0 <= va < ADDRESS_LIMIT,
        0 <= vb < ADDRESS_LIMIT,
        va % level_size(level) == 0,
        !(va <= vb < va + level_size(level)),
    ensures
        diverge(va, vb) >= level,
{
    lemma_diverge(va, vb, level);
    if slot_of(va, level) == slot_of(vb, level) {
        let s = level_size(level);
        lemma_slot_of_region(va, va, level);
        vstd::arithmetic::div_mod::lemma_fundamental_div_mod(vb, s);
        assert(0 <= vb % s < s);
        assert(vb == s * slot_of(vb, level) + vb % s);
        assert(s * slot_of(vb, level) == va) by (nonlinear_arith)
            requires
                slot_of(vb, level) == slot_of(va, level),
                slot_of(va, level) * s == va,
        ;
    }
}

pub(crate) proof fn lemma_gaps_after_leaf(
    start: Seq<u64>,
    before: TableAlloc,
    after: TableAlloc,
    cur: int,
    idx: int,
    word: u64,
    rootf: int,
    va: int,
    level: int,
    top: int,
)
    requires
        leaf_written(&before, &after, cur, idx, word),
        1 <= level <= 3,
        0 <= va < ADDRESS_LIMIT,
        va % level_size(level) == 0,
        0 <= rootf < before.spec_frames(),
        before.frame_info()[rootf] == (FrameInfo { root: rootf, level: 4, vbase: 0 }),
        before.frame_info()[cur].level == level,
        before.frame_info()[cur].vbase + idx * level_size(level) == va,
        gaps_moved(start, before@, before.spec_base() as int, rootf, va, top, level),
        top > level ==> gap(start, before.spec_base() as int, rootf, 4, va) == top,
        top <= level ==> gap(start, before.spec_base() as int, rootf, 4, va) <= level,
    ensures
        gaps_after(start, after@, before.spec_base() as int, rootf, va, level),
{
    let base = before.spec_base() as int;
    lemma_leaf_written(before, after, cur, idx, word);
    assert forall|vb: int| 0 <= vb < ADDRESS_LIMIT && !(va <= vb < va + level_size(
        level,
    )) implies #[trigger] gap(after@, base, rootf, 4, vb) == (if diverge(va, vb) < gap(
        start,
        base,
        rootf,
        4,
        va,
    ) {
        diverge(va, vb)
    } else {
        gap(start, base, rootf, 4, vb)
    }) by {
        lemma_outside_diverges(va, vb, level);
        lemma_gap_stable(
            after@,
            before@,
            base,
            before.spec_capacity() as int,
            before.frame_info(),
            true,
            cur,
            idx,
            rootf,
            4,
            vb,
        );
        assert(gap(before@, base, rootf, 4, vb) == (if top > level && diverge(va, vb) < top {
            if diverge(va, vb) > level {
                diverge(va, vb)
            } else {
                level
            }
        } else {
            gap(start, base, rootf, 4, vb)
        }));
    }
}


/// A walk that ends at a page or block above a level ends above every
/// lower level.
pub(crate) proof fn lemma_blocked_above(
    words: Seq<u64>,
    base: int,
    f: int,
    level: int,
    va: int,
    lower: int,
    upper: int,
)
    requires
        lower <= upper,
        blocked(words, base, f, level, va, upper),
    ensures
        blocked(words, base, f, level, va, lower),
    decreases level,
{
    let w = word_at(words, f, index_at(va, level));
    if entry_valid(w) && entry_is_table(w) {
        lemma_blocked_above(words, base, child_frame(base, w), level - 1, va, lower, upper);
    }
}

} // verus!
