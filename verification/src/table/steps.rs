//! What one write into an arena does to the walks through its tables: the
//! lemmas that the mapping engine is proved from.

use vstd::prelude::*;
use crate::pte::{decodable, PTEGeneric, PTESetting, PADDR_MASK};
use crate::table::arena::{
    arena_ok, child_frame, conflicts, descend, entry_is_table, entry_ok, entry_valid, frame_ok,
    index_at, lemma_zero_word, level_size, stays, table_word, walk, word_at, FrameInfo,
    TableAlloc, ADDRESS_LIMIT,
};

verus! {

/// An aligned span of 512 parts of `s` bytes: the part that an address of
/// the span falls in is the quotient of the address by `s`, modulo 512.
proof fn lemma_slot_arith(vbase: int, va: int, s: int)
    requires
        0 < s,
        0 <= vbase,
        vbase % (512 * s) == 0,
        vbase <= va < vbase + 512 * s,
    ensures
        0 <= (va / s) % 512 < 512,
        vbase + ((va / s) % 512) * s <= va,
        va < vbase + ((va / s) % 512) * s + s,
        (vbase + ((va / s) % 512) * s) % s == 0,
{
    let q = vbase / (512 * s);
    let r = va - vbase;
    let d = r / s;
    let m = r % s;
    assert(vbase == (512 * s) * q) by (nonlinear_arith)
        requires
            0 < s,
            vbase % (512 * s) == 0,
            q == vbase / (512 * s),
    ;
    assert(r == s * d + m && 0 <= m < s && 0 <= d < 512) by (nonlinear_arith)
        requires
            0 < s,
            0 <= r < 512 * s,
            d == r / s,
            m == r % s,
    ;
    assert(va == (512 * q + d) * s + m) by (nonlinear_arith)
        requires
            va == vbase + r,
            vbase == (512 * s) * q,
            r == s * d + m,
    ;
    vstd::arithmetic::div_mod::lemma_fundamental_div_mod_converse(va, s, 512 * q + d, m);
    vstd::arithmetic::div_mod::lemma_fundamental_div_mod_converse(512 * q + d, 512, q, d);
    assert(vbase + d * s == (512 * q + d) * s + 0) by (nonlinear_arith)
        requires
            vbase == (512 * s) * q,
    ;
    vstd::arithmetic::div_mod::lemma_fundamental_div_mod_converse(
        vbase + d * s,
        s,
        512 * q + d,
        0,
    );
    assert(d * s <= r) by (nonlinear_arith)
        requires
            r == s * d + m,
            0 <= m,
    ;
    assert(r < d * s + s) by (nonlinear_arith)
        requires
            r == s * d + m,
            m < s,
    ;
}

/// A table of some level covers an aligned span of addresses, and each of
/// its entries an aligned part of that span.
pub(crate) proof fn lemma_index_region(vbase: int, va: int, level: int)
    requires
        1 <= level <= 4,
        0 <= vbase,
        vbase % level_size(level + 1) == 0,
        vbase <= va < vbase + level_size(level + 1),
    ensures
        0 <= index_at(va, level) < 512,
        vbase + index_at(va, level) * level_size(level) <= va,
        va < vbase + index_at(va, level) * level_size(level) + level_size(level),
        (vbase + index_at(va, level) * level_size(level)) % level_size(level) == 0,
{
    assert(level_size(level + 1) == 512 * level_size(level));
    lemma_slot_arith(vbase, va, level_size(level));
}

/// The table that a descent arrives at is the one that covers the address.
pub(crate) proof fn lemma_descend_info(
    words: Seq<u64>,
    base: int,
    capacity: int,
    info: Seq<FrameInfo>,
    f: int,
    level: int,
    va: int,
    target: int,
    n: int,
)
    requires
        arena_ok(words, base, capacity, info),
        0 <= f < info.len(),
        info[f].level == level,
        info[f].vbase <= va < info[f].vbase + level_size(level + 1),
        descend(words, base, f, level, va, target) == Some(n),
    ensures
        0 <= n < info.len(),
        info[n].level == target,
        info[n].root == info[f].root,
        info[n].vbase <= va < info[n].vbase + level_size(target + 1),
    decreases level,
{
    assert(frame_ok(info, f));
    if level > target {
        let i = index_at(va, level);
        lemma_index_region(info[f].vbase, va, level);
        assert(entry_ok(words, base, info, f, i));
        let w = word_at(words, f, i);
        lemma_descend_info(
            words,
            base,
            capacity,
            info,
            child_frame(base, w),
            level - 1,
            va,
            target,
            n,
        );
    }
}

/// Two arenas over the same extent, the second grown out of the first: it
/// holds every word of the first unchanged, but for one slot where `touched`
/// says so.
pub(crate) open spec fn grown_from(
    after: Seq<u64>,
    before: Seq<u64>,
    touched: bool,
    n: int,
    i: int,
) -> bool {
    &&& before.len() <= after.len()
    &&& forall|k: int|
        0 <= k < before.len() && !(touched && k == n * 512 + i) ==> #[trigger] after[k]
            == before[k]
}

/// A descent reads only tables above its target, so a change in a table at
/// or below the target leaves it as it was.
pub(crate) proof fn lemma_descend_stable(
    after: Seq<u64>,
    words: Seq<u64>,
    base: int,
    capacity: int,
    info: Seq<FrameInfo>,
    n: int,
    i: int,
    f: int,
    level: int,
    va: int,
    target: int,
)
    requires
        arena_ok(words, base, capacity, info),
        grown_from(after, words, true, n, i),
        0 <= n < info.len(),
        0 <= i < 512,
        info[n].level <= target,
        0 <= f < info.len(),
        info[f].level == level,
        info[f].vbase <= va < info[f].vbase + level_size(level + 1),
    ensures
        descend(after, base, f, level, va, target) == descend(words, base, f, level, va, target),
    decreases level,
{
    assert(frame_ok(info, f));
    assert(frame_ok(info, n));
    if level > target {
        let j = index_at(va, level);
        lemma_index_region(info[f].vbase, va, level);
        assert(entry_ok(words, base, info, f, j));
        assert(after[f * 512 + j] == words[f * 512 + j]);
        let w = word_at(words, f, j);
        if entry_is_table(w) {
            lemma_descend_stable(
                after,
                words,
                base,
                capacity,
                info,
                n,
                i,
                child_frame(base, w),
                level - 1,
                va,
                target,
            );
        }
    }
}

/// A walk reads one slot of each table on its way, and the slot covers the
/// address: a change in a slot that does not cover the address, or in
/// another tree, leaves the walk as it was.
proof fn lemma_walk_stable(
    after: Seq<u64>,
    words: Seq<u64>,
    base: int,
    capacity: int,
    info: Seq<FrameInfo>,
    touched: bool,
    n: int,
    i: int,
    f: int,
    level: int,
    va: int,
)
    requires
        arena_ok(words, base, capacity, info),
        grown_from(after, words, touched, n, i),
        0 <= n < info.len(),
        0 <= i < 512,
        0 <= f < info.len(),
        info[f].level == level,
        info[f].vbase <= va < info[f].vbase + level_size(level + 1),
        touched ==> !(info[n].root == info[f].root && info[n].vbase + i * level_size(
            info[n].level,
        ) <= va < info[n].vbase + i * level_size(info[n].level) + level_size(info[n].level)),
    ensures
        walk(after, base, f, level, va) == walk(words, base, f, level, va),
    decreases level,
{
    assert(frame_ok(info, f));
    let j = index_at(va, level);
    lemma_index_region(info[f].vbase, va, level);
    assert(entry_ok(words, base, info, f, j));
    assert(after[f * 512 + j] == words[f * 512 + j]);
    let w = word_at(words, f, j);
    if entry_valid(w) && level > 1 && entry_is_table(w) {
        lemma_walk_stable(
            after,
            words,
            base,
            capacity,
            info,
            touched,
            n,
            i,
            child_frame(base, w),
            level - 1,
            va,
        );
    }
}

/// `lemma_walk_stable` for a walk from a root.
pub(crate) proof fn lemma_root_walk_stable(
    after: Seq<u64>,
    words: Seq<u64>,
    base: int,
    capacity: int,
    info: Seq<FrameInfo>,
    touched: bool,
    n: int,
    i: int,
    f: int,
    va: int,
)
    requires
        arena_ok(words, base, capacity, info),
        grown_from(after, words, touched, n, i),
        touched ==> 0 <= n < info.len() && 0 <= i < 512,
        0 <= f < info.len(),
        info[f] == (FrameInfo { root: f, level: 4, vbase: 0 }),
        0 <= va < ADDRESS_LIMIT,
        touched ==> !(info[n].root == f && info[n].vbase + i * level_size(info[n].level) <= va
            < info[n].vbase + i * level_size(info[n].level) + level_size(info[n].level)),
    ensures
        walk(after, base, f, 4, va) == walk(words, base, f, 4, va),
{
    if touched {
        lemma_walk_stable(after, words, base, capacity, info, touched, n, i, f, 4, va);
    } else {
        lemma_walk_stable(after, words, base, capacity, info, false, f, 0, f, 4, va);
    }
}

/// A page-aligned address below the address limit fills exactly the address
/// bits of a descriptor word.
proof fn lemma_aligned_mask(x: u64)
    by (bit_vector)
    requires
        x % 4096 == 0,
        x < 0x1_0000_0000_0000,
    ensures
        x & 0x0000_ffff_ffff_f000 == x,
{
}

/// Inside one aligned block of level `level`, every address has the index
/// of the block's base, at that level and at every level above.
proof fn lemma_same_index(va: int, v: int, level: int, upper: int)
    requires
        1 <= level <= upper <= 4,
        0 <= va,
        va % level_size(level) == 0,
        va <= v < va + level_size(level),
    ensures
        index_at(v, upper) == index_at(va, upper),
{
    let s = level_size(level);
    let big = level_size(upper);
    let m = big / s;
    assert(big == m * s && m >= 1);
    let q = va / big;
    let r = va % big;
    let k = r / s;
    let t = v - va;
    vstd::arithmetic::div_mod::lemma_fundamental_div_mod(va, big);
    assert(0 <= r < big);
    assert(va == s * (m * q) + r) by (nonlinear_arith)
        requires
            va == big * q + r,
            big == m * s,
    ;
    vstd::arithmetic::div_mod::lemma_mod_multiples_vanish(m * q, r, s);
    assert(r % s == 0);
    vstd::arithmetic::div_mod::lemma_fundamental_div_mod(r, s);
    assert(r == s * k);
    assert(k < m) by (nonlinear_arith)
        requires
            r == s * k,
            r < big,
            big == m * s,
            0 < s,
    ;
    assert(r + t < big) by (nonlinear_arith)
        requires
            r == s * k,
            k < m,
            big == m * s,
            0 <= t < s,
    ;
    assert(v == q * big + (r + t)) by (nonlinear_arith)
        requires
            va == big * q + r,
            v == va + t,
    ;
    vstd::arithmetic::div_mod::lemma_fundamental_div_mod_converse(v, big, q, r + t);
}

/// Where a descent arrives at a table whose entry for the address points to
/// a table, the descent to the next level arrives at that one.
pub(crate) proof fn lemma_descend_step(
    words: Seq<u64>,
    base: int,
    f: int,
    level: int,
    va: int,
    target: int,
    n: int,
)
    requires
        2 <= target,
        descend(words, base, f, level, va, target) == Some(n),
        entry_is_table(word_at(words, n, index_at(va, target))),
    ensures
        descend(words, base, f, level, va, target - 1) == descend(
            words,
            base,
            child_frame(base, word_at(words, n, index_at(va, target))),
            target - 1,
            va,
            target - 1,
        ),
    decreases level,
{
    if level > target {
        let w = word_at(words, f, index_at(va, level));
        lemma_descend_step(words, base, child_frame(base, w), level - 1, va, target, n);
    }
}

/// The state of an arena after a table has been made for slot `idx` of
/// frame `cur`: `grown` is `before` with one more frame, `c`, all empty, and
/// `after` is `grown` with the word that points to `c` in the slot.
pub(crate) open spec fn table_created(
    before: &TableAlloc,
    grown: &TableAlloc,
    after: &TableAlloc,
    cur: int,
    idx: int,
    c: int,
    tw: u64,
    setting: PTESetting,
) -> bool {
    let info = before.frame_info();
    &&& before.wf()
    &&& grown.wf()
    &&& grown.spec_base() == before.spec_base()
    &&& after.spec_base() == before.spec_base()
    &&& grown.spec_capacity() == before.spec_capacity()
    &&& after.spec_capacity() == before.spec_capacity()
    &&& 0 <= cur < before.spec_frames()
    &&& 0 <= idx < 512
    &&& info[cur].level >= 2
    &&& !entry_valid(before@[cur * 512 + idx])
    &&& c == before.spec_frames()
    &&& grown.frame_info() == info.push(
        FrameInfo {
            root: info[cur].root,
            level: info[cur].level - 1,
            vbase: info[cur].vbase + idx * level_size(info[cur].level),
        },
    )
    &&& grown@.len() == before@.len() + 512
    &&& grown_from(grown@, before@, false, 0, 0)
    &&& (forall|k: int| before@.len() <= k < grown@.len() ==> grown@[k] == 0)
    &&& after@ == grown@.update(cur * 512 + idx, tw)
    &&& after.frame_info() == grown.frame_info()
    &&& tw == table_word((before.spec_base() + c * 4096) as usize, setting)
}

pub(crate) proof fn lemma_table_created(
    before: TableAlloc,
    grown: TableAlloc,
    after: TableAlloc,
    cur: int,
    idx: int,
    c: int,
    tw: u64,
    setting: PTESetting,
)
    requires
        table_created(&before, &grown, &after, cur, idx, c, tw, setting),
    ensures
        after.wf(),
        entry_is_table(tw),
        child_frame(before.spec_base() as int, tw) == c,
        grown_from(after@, grown@, true, cur, idx),
        forall|i: int| 0 <= i < 512 ==> word_at(after@, c, i) == 0,
{
    let base = before.spec_base() as int;
    let addr = (base + c * 4096) as usize;
    let info = after.frame_info();
    let words = after@;
    crate::pte::lemma_fields(
        PTEGeneric { paddr: addr, is_block: false, is_valid: true, setting },
    );
    lemma_aligned_mask(addr as u64);
    assert(tw & PADDR_MASK == base + c * 4096);
    assert forall|f: int| 0 <= f < info.len() implies #[trigger] frame_ok(info, f) by {
        assert(frame_ok(grown.frame_info(), f));
    }
    assert forall|f: int, i: int| 0 <= f < info.len() && 0 <= i < 512 implies #[trigger] entry_ok(
        words,
        base,
        info,
        f,
        i,
    ) by {
        assert(entry_ok(grown@, base, info, f, i));
        if f == cur && i == idx {
            assert(words[f * 512 + i] == tw);
        } else {
            assert(words[f * 512 + i] == grown@[f * 512 + i]);
        }
    }
}

/// Making a table for an empty slot maps nothing and unmaps nothing.
proof fn lemma_table_created_walk(
    before: TableAlloc,
    grown: TableAlloc,
    after: TableAlloc,
    cur: int,
    idx: int,
    c: int,
    tw: u64,
    setting: PTESetting,
    f: int,
    level: int,
    v: int,
)
    requires
        table_created(&before, &grown, &after, cur, idx, c, tw, setting),
        0 <= f < before.spec_frames(),
        before.frame_info()[f].level == level,
        before.frame_info()[f].vbase <= v < before.frame_info()[f].vbase + level_size(level + 1),
    ensures
        walk(after@, before.spec_base() as int, f, level, v) == walk(
            before@,
            before.spec_base() as int,
            f,
            level,
            v,
        ),
    decreases level,
{
    let base = before.spec_base() as int;
    let info = before.frame_info();
    lemma_table_created(before, grown, after, cur, idx, c, tw, setting);
    lemma_zero_word();
    assert(frame_ok(info, f));
    let j = index_at(v, level);
    lemma_index_region(info[f].vbase, v, level);
    assert(entry_ok(before@, base, info, f, j));
    if f == cur && j == idx {
        assert(after@[f * 512 + j] == tw);
        let j2 = index_at(v, level - 1);
        assert(frame_ok(grown.frame_info(), c));
        lemma_index_region(grown.frame_info()[c].vbase, v, level - 1);
        assert(word_at(after@, c, j2) == 0);
        assert(walk(after@, base, c, level - 1, v) is None);
        assert(walk(before@, base, f, level, v) is None);
        assert(walk(after@, base, f, level, v) is None);
    } else {
        assert(grown@[f * 512 + j] == before@[f * 512 + j]);
        assert(after@[f * 512 + j] == before@[f * 512 + j]);
        let w = word_at(before@, f, j);
        if entry_valid(w) && level > 1 && entry_is_table(w) {
            lemma_table_created_walk(
                before,
                grown,
                after,
                cur,
                idx,
                c,
                tw,
                setting,
                child_frame(base, w),
                level - 1,
                v,
            );
        }
    }
}

pub(crate) proof fn lemma_table_created_lookup(
    before: TableAlloc,
    grown: TableAlloc,
    after: TableAlloc,
    cur: int,
    idx: int,
    c: int,
    tw: u64,
    setting: PTESetting,
    root: usize,
    v: int,
)
    requires
        table_created(&before, &grown, &after, cur, idx, c, tw, setting),
        before.is_root(root),
    ensures
        after.is_root(root),
        after.lookup(root, v) == before.lookup(root, v),
{
    if 0 <= v < ADDRESS_LIMIT {
        lemma_table_created_walk(
            before,
            grown,
            after,
            cur,
            idx,
            c,
            tw,
            setting,
            (root - before.spec_base()) / 4096,
            4,
            v,
        );
    }
}

/// The state of an arena after a mapping has been written into slot `idx`
/// of frame `cur`.
pub(crate) open spec fn leaf_written(
    before: &TableAlloc,
    after: &TableAlloc,
    cur: int,
    idx: int,
    word: u64,
) -> bool {
    &&& before.wf()
    &&& after.spec_base() == before.spec_base()
    &&& after.spec_capacity() == before.spec_capacity()
    &&& after.frame_info() == before.frame_info()
    &&& 0 <= cur < before.spec_frames()
    &&& 0 <= idx < 512
    &&& after@ == before@.update(cur * 512 + idx, word)
    &&& decodable(word)
    &&& entry_valid(word)
    &&& before.frame_info()[cur].level >= 2 ==> !entry_is_table(word)
}

pub(crate) proof fn lemma_leaf_written(
    before: TableAlloc,
    after: TableAlloc,
    cur: int,
    idx: int,
    word: u64,
)
    requires
        leaf_written(&before, &after, cur, idx, word),
    ensures
        after.wf(),
        grown_from(after@, before@, true, cur, idx),
{
    let base = before.spec_base() as int;
    let info = after.frame_info();
    let words = after@;
    assert forall|f: int| 0 <= f < info.len() implies #[trigger] frame_ok(info, f) by {
        assert(frame_ok(before.frame_info(), f));
    }
    assert forall|f: int, i: int| 0 <= f < info.len() && 0 <= i < 512 implies #[trigger] entry_ok(
        words,
        base,
        info,
        f,
        i,
    ) by {
        assert(entry_ok(before@, base, info, f, i));
        if f == cur && i == idx {
            assert(words[f * 512 + i] == word);
        } else {
            assert(words[f * 512 + i] == before@[f * 512 + i]);
        }
    }
}

/// After the write, a walk for an address of the block ends at the new
/// entry.
proof fn lemma_leaf_written_walk(
    before: TableAlloc,
    after: TableAlloc,
    cur: int,
    idx: int,
    word: u64,
    va: int,
    target: int,
    f: int,
    level: int,
    v: int,
)
    requires
        leaf_written(&before, &after, cur, idx, word),
        1 <= target <= 3,
        0 <= va,
        va % level_size(target) == 0,
        va <= v < va + level_size(target),
        before.frame_info()[cur].level == target,
        idx == index_at(va, target),
        0 <= f < before.spec_frames(),
        before.frame_info()[f].level == level,
        before.frame_info()[f].vbase <= va < before.frame_info()[f].vbase + level_size(level + 1),
        descend(before@, before.spec_base() as int, f, level, va, target) == Some(cur),
    ensures
        walk(after@, before.spec_base() as int, f, level, v) == Some((target, word)),
    decreases level,
{
    let base = before.spec_base() as int;
    let info = before.frame_info();
    assert(frame_ok(info, f));
    lemma_same_index(va, v, target, level);
    let j = index_at(va, level);
    lemma_index_region(info[f].vbase, va, level);
    assert(entry_ok(before@, base, info, f, j));
    if level == target {
        assert(after@[f * 512 + j] == word);
    } else {
        assert(after@[f * 512 + j] == before@[f * 512 + j]);
        let w = word_at(before@, f, j);
        lemma_leaf_written_walk(
            before,
            after,
            cur,
            idx,
            word,
            va,
            target,
            child_frame(base, w),
            level - 1,
            v,
        );
    }
}

pub(crate) proof fn lemma_leaf_written_lookup(
    before: TableAlloc,
    after: TableAlloc,
    cur: int,
    idx: int,
    word: u64,
    table: usize,
    va: int,
    target: int,
    root: usize,
    v: int,
)
    requires
        leaf_written(&before, &after, cur, idx, word),
        1 <= target <= 3,
        0 <= va,
        va % level_size(target) == 0,
        va + level_size(target) <= ADDRESS_LIMIT,
        before.frame_info()[cur].level == target,
        before.frame_info()[cur].root == (table - before.spec_base()) / 4096,
        idx == index_at(va, target),
        before.is_root(table),
        before.is_root(root),
        descend(
            before@,
            before.spec_base() as int,
            (table - before.spec_base()) / 4096,
            4,
            va,
            target,
        ) == Some(cur),
    ensures
        after.is_root(root),
        after.lookup(root, v) == (if root == table && va <= v < va + level_size(target) {
            Some((target, word))
        } else {
            before.lookup(root, v)
        }),
{
    let base = before.spec_base() as int;
    let info = before.frame_info();
    let tf = (table - base) / 4096;
    let rf = (root - base) / 4096;
    lemma_leaf_written(before, after, cur, idx, word);
    if 0 <= v < ADDRESS_LIMIT {
        if root == table && va <= v < va + level_size(target) {
            lemma_leaf_written_walk(before, after, cur, idx, word, va, target, tf, 4, v);
        } else {
            assert(frame_ok(info, cur));
            lemma_descend_info(before@, base, before.spec_capacity() as int, info, tf, 4, va, target, cur);
            lemma_index_region(info[cur].vbase, va, target);
            let x = info[cur].vbase + idx * level_size(target);
            assert(x == va) by (nonlinear_arith)
                requires
                    x <= va < x + level_size(target),
                    x % level_size(target) == 0,
                    va % level_size(target) == 0,
                    level_size(target) > 0,
            ;
            lemma_root_walk_stable(
                after@,
                before@,
                base,
                before.spec_capacity() as int,
                info,
                true,
                cur,
                idx,
                rf,
                v,
            );
        }
    }
}

/// Two aligned blocks that do not overlap: neither holds the base of the
/// other.
pub(crate) open spec fn apart(va: int, level: int, va2: int, level2: int) -> bool {
    &&& 1 <= level2 <= 3
    &&& 0 <= va2
    &&& va2 % level_size(level2) == 0
    &&& va2 + level_size(level2) <= ADDRESS_LIMIT
    &&& !(va2 <= va < va2 + level_size(level2))
    &&& !(va <= va2 < va + level_size(level))
}

/// Writing the block at `va` has left the slot of every block apart from
/// it as free or as taken as it was.
pub(crate) open spec fn conflicts_kept(
    before: Seq<u64>,
    after: Seq<u64>,
    base: int,
    rootf: int,
    va: int,
    level: int,
) -> bool {
    forall|va2: int, level2: int, word2: u64|
        apart(va, level, va2, level2) ==> #[trigger] conflicts(
            after,
            base,
            rootf,
            4,
            va2,
            level2,
            word2,
        ) == conflicts(before, base, rootf, 4, va2, level2, word2)
}

/// An aligned address inside an aligned slot of the same size is the
/// slot's base.
pub(crate) proof fn lemma_aligned_in_slot(x: int, va: int, s: int)
    by (nonlinear_arith)
    requires
        0 < s,
        x <= va < x + s,
        x % s == 0,
        va % s == 0,
    ensures
        x == va,
{
}

proof fn lemma_table_created_conflicts(
    before: TableAlloc,
    grown: TableAlloc,
    after: TableAlloc,
    cur: int,
    idx: int,
    c: int,
    tw: u64,
    setting: PTESetting,
    f: int,
    level: int,
    va2: int,
    level2: int,
    word2: u64,
)
    requires
        table_created(&before, &grown, &after, cur, idx, c, tw, setting),
        0 <= f < before.spec_frames(),
        before.frame_info()[f].level == level,
        before.frame_info()[f].vbase <= va2 < before.frame_info()[f].vbase + level_size(level + 1),
        1 <= level2 <= 3,
        va2 % level_size(level2) == 0,
        !(before.frame_info()[cur].level == level2 && before.frame_info()[cur].vbase + idx
            * level_size(level2) == va2),
    ensures
        conflicts(after@, before.spec_base() as int, f, level, va2, level2, word2) == conflicts(
            before@,
            before.spec_base() as int,
            f,
            level,
            va2,
            level2,
            word2,
        ),
    decreases level,
{
    let base = before.spec_base() as int;
    let info = before.frame_info();
    lemma_table_created(before, grown, after, cur, idx, c, tw, setting);
    lemma_zero_word();
    assert(frame_ok(info, f));
    if level >= level2 {
        let j = index_at(va2, level);
        lemma_index_region(info[f].vbase, va2, level);
        assert(entry_ok(before@, base, info, f, j));
        if f == cur && j == idx {
            assert(after@[f * 512 + j] == tw);
            if level == level2 {
                lemma_aligned_in_slot(info[f].vbase + j * level_size(level), va2, level_size(level));
            } else {
                let j2 = index_at(va2, level - 1);
                assert(frame_ok(grown.frame_info(), c));
                lemma_index_region(grown.frame_info()[c].vbase, va2, level - 1);
                assert(word_at(after@, c, j2) == 0);
                assert(!conflicts(after@, base, c, level - 1, va2, level2, word2));
                assert(!conflicts(before@, base, f, level, va2, level2, word2));
                assert(!conflicts(after@, base, f, level, va2, level2, word2));
            }
        } else {
            assert(grown@[f * 512 + j] == before@[f * 512 + j]);
            assert(after@[f * 512 + j] == before@[f * 512 + j]);
            let w = word_at(before@, f, j);
            if level > level2 && entry_is_table(w) {
                lemma_table_created_conflicts(
                    before,
                    grown,
                    after,
                    cur,
                    idx,
                    c,
                    tw,
                    setting,
                    child_frame(base, w),
                    level - 1,
                    va2,
                    level2,
                    word2,
                );
            }
        }
    }
}

pub(crate) proof fn lemma_table_created_kept(
    before: TableAlloc,
    grown: TableAlloc,
    after: TableAlloc,
    cur: int,
    idx: int,
    c: int,
    tw: u64,
    setting: PTESetting,
    rootf: int,
    va: int,
    level: int,
)
    requires
        table_created(&before, &grown, &after, cur, idx, c, tw, setting),
        0 <= rootf < before.spec_frames(),
        before.frame_info()[rootf] == (FrameInfo { root: rootf, level: 4, vbase: 0 }),
        before.frame_info()[cur].vbase + idx * level_size(before.frame_info()[cur].level) <= va
            < before.frame_info()[cur].vbase + idx * level_size(before.frame_info()[cur].level)
            + level_size(before.frame_info()[cur].level),
    ensures
        conflicts_kept(before@, after@, before.spec_base() as int, rootf, va, level),
{
    let base = before.spec_base() as int;
    assert forall|va2: int, level2: int, word2: u64| apart(va, level, va2, level2) implies #[trigger] conflicts(
        after@,
        base,
        rootf,
        4,
        va2,
        level2,
        word2,
    ) == conflicts(before@, base, rootf, 4, va2, level2, word2) by {
        lemma_table_created_conflicts(
            before,
            grown,
            after,
            cur,
            idx,
            c,
            tw,
            setting,
            rootf,
            4,
            va2,
            level2,
            word2,
        );
    }
}

proof fn lemma_leaf_written_conflicts(
    before: TableAlloc,
    after: TableAlloc,
    cur: int,
    idx: int,
    word: u64,
    f: int,
    level: int,
    va2: int,
    level2: int,
    word2: u64,
)
    requires
        leaf_written(&before, &after, cur, idx, word),
        0 <= f < before.spec_frames(),
        before.frame_info()[f].level == level,
        before.frame_info()[f].vbase <= va2 < before.frame_info()[f].vbase + level_size(level + 1),
        1 <= level2 <= 3,
        !(before.frame_info()[cur].vbase + idx * level_size(before.frame_info()[cur].level) <= va2
            < before.frame_info()[cur].vbase + idx * level_size(before.frame_info()[cur].level)
            + level_size(before.frame_info()[cur].level)),
    ensures
        conflicts(after@, before.spec_base() as int, f, level, va2, level2, word2) == conflicts(
            before@,
            before.spec_base() as int,
            f,
            level,
            va2,
            level2,
            word2,
        ),
    decreases level,
{
    let base = before.spec_base() as int;
    let info = before.frame_info();
    assert(frame_ok(info, f));
    if level >= level2 {
        let j = index_at(va2, level);
        lemma_index_region(info[f].vbase, va2, level);
        assert(entry_ok(before@, base, info, f, j));
        assert(after@[f * 512 + j] == before@[f * 512 + j]);
        let w = word_at(before@, f, j);
        if level > level2 && entry_is_table(w) {
            lemma_leaf_written_conflicts(
                before,
                after,
                cur,
                idx,
                word,
                child_frame(base, w),
                level - 1,
                va2,
                level2,
                word2,
            );
        }
    }
}

pub(crate) proof fn lemma_leaf_written_kept(
    before: TableAlloc,
    after: TableAlloc,
    cur: int,
    idx: int,
    word: u64,
    rootf: int,
    va: int,
    level: int,
)
    requires
        leaf_written(&before, &after, cur, idx, word),
        0 <= rootf < before.spec_frames(),
        before.frame_info()[rootf] == (FrameInfo { root: rootf, level: 4, vbase: 0 }),
        1 <= level <= 3,
        before.frame_info()[cur].level == level,
        va % level_size(level) == 0,
        before.frame_info()[cur].vbase + idx * level_size(level) <= va < before.frame_info()[cur].vbase
            + idx * level_size(level) + level_size(level),
        (before.frame_info()[cur].vbase + idx * level_size(level)) % level_size(level) == 0,
    ensures
        conflicts_kept(before@, after@, before.spec_base() as int, rootf, va, level),
{
    let base = before.spec_base() as int;
    lemma_aligned_in_slot(
        before.frame_info()[cur].vbase + idx * level_size(level),
        va,
        level_size(level),
    );
    assert forall|va2: int, level2: int, word2: u64| apart(va, level, va2, level2) implies #[trigger] conflicts(
        after@,
        base,
        rootf,
        4,
        va2,
        level2,
        word2,
    ) == conflicts(before@, base, rootf, 4, va2, level2, word2) by {
        lemma_leaf_written_conflicts(before, after, cur, idx, word, rootf, 4, va2, level2, word2);
    }
}

pub(crate) proof fn lemma_kept_trans(
    a: Seq<u64>,
    b: Seq<u64>,
    c: Seq<u64>,
    base: int,
    rootf: int,
    va: int,
    level: int,
)
    requires
        conflicts_kept(a, b, base, rootf, va, level),
        conflicts_kept(b, c, base, rootf, va, level),
    ensures
        conflicts_kept(a, c, base, rootf, va, level),
{
    assert forall|va2: int, level2: int, word2: u64| apart(va, level, va2, level2) implies #[trigger] conflicts(
        c,
        base,
        rootf,
        4,
        va2,
        level2,
        word2,
    ) == conflicts(a, base, rootf, 4, va2, level2, word2) by {
        assert(conflicts(b, base, rootf, 4, va2, level2, word2) == conflicts(
            a,
            base,
            rootf,
            4,
            va2,
            level2,
            word2,
        ));
    }
}

/// What stays, stays: the relation carries over a state in between.
pub(crate) proof fn lemma_stays_trans(a: &TableAlloc, b: &TableAlloc, c: &TableAlloc)
    requires
        stays(a, b),
        stays(b, c),
    ensures
        stays(a, c),
{
    assert forall|f: int| 0 <= f < a.spec_frames() implies #[trigger] c.frame_info()[f]
        == a.frame_info()[f] by {
        assert(b.frame_info()[f] == a.frame_info()[f]);
    }
    assert forall|k: int| 0 <= k < a@.len() && entry_valid(a@[k]) implies #[trigger] c@[k]
        == a@[k] by {
        assert(b@[k] == a@[k]);
    }
}

/// A root stays a root.
pub(crate) proof fn lemma_stays_root(a: &TableAlloc, b: &TableAlloc, c: &TableAlloc)
    requires
        stays(a, b),
        stays(b, c),
    ensures
        forall|root: usize| a.is_root(root) ==> #[trigger] b.is_root(root) && c.is_root(root),
{
    assert forall|root: usize| a.is_root(root) implies #[trigger] b.is_root(root) && c.is_root(
        root,
    ) by {
        let f = (root - a.spec_base()) / 4096;
        assert(b.frame_info()[f] == a.frame_info()[f]);
        assert(c.frame_info()[f] == b.frame_info()[f]);
    }
}

} // verus!
