//! The frames that a sequence of blocks takes in a table that starts out
//! empty: what `gap_after` and `tables_upto` come to there, as functions of
//! the blocks alone.

use vstd::prelude::*;
use crate::table::arena::TableAlloc;
use crate::table::frames::{diverge, gap};
use crate::table::map::{gap_after, tables_for, tables_upto};
use crate::table::plan::Block;

verus! {

/// Where the walk for `v` first finds no table once the first `k` blocks
/// are written into a table that was empty: at the root, or where the way
/// of `v` parts from that of one of the blocks, whichever is lower.
pub open spec fn fresh_gap(blocks: Seq<Block>, k: int, v: int) -> int
    decreases k,
{
    if k <= 0 {
        4
    } else {
        let g = fresh_gap(blocks, k - 1, v);
        let d = diverge(blocks[k - 1].vaddr as int, v);
        if d < g {
            d
        } else {
            g
        }
    }
}

/// The tables that have to be made for block `k` of a table that was
/// empty, when its turn comes.
pub open spec fn fresh_tables_for(blocks: Seq<Block>, k: int) -> int {
    let g = fresh_gap(blocks, k, blocks[k].vaddr as int);
    if g > blocks[k].level {
        g - blocks[k].level
    } else {
        0
    }
}

/// The tables that have to be made for the first `k` blocks of a table
/// that was empty.
pub open spec fn fresh_tables(blocks: Seq<Block>, k: int) -> int
    decreases k,
{
    if k <= 0 {
        0
    } else {
        fresh_tables(blocks, k - 1) + fresh_tables_for(blocks, k - 1)
    }
}

/// The blocks that come later do not count for the earlier ones.
pub proof fn lemma_fresh_gap_prefix(a: Seq<Block>, b: Seq<Block>, k: int, v: int)
    requires
        0 <= k <= a.len(),
    ensures
        fresh_gap(a + b, k, v) == fresh_gap(a, k, v),
    decreases k,
{
    if k > 0 {
        lemma_fresh_gap_prefix(a, b, k - 1, v);
        assert((a + b)[k - 1] == a[k - 1]);
    }
}

/// The blocks that come later do not count for the earlier ones.
pub proof fn lemma_fresh_tables_prefix(a: Seq<Block>, b: Seq<Block>, k: int)
    requires
        0 <= k <= a.len(),
    ensures
        fresh_tables(a + b, k) == fresh_tables(a, k),
    decreases k,
{
    if k > 0 {
        lemma_fresh_tables_prefix(a, b, k - 1);
        assert((a + b)[k - 1] == a[k - 1]);
        lemma_fresh_gap_prefix(a, b, k - 1, a[k - 1].vaddr as int);
    }
}

/// More blocks take no fewer tables.
pub proof fn lemma_fresh_tables_grow(blocks: Seq<Block>, i: int, n: int)
    requires
        0 <= i <= n,
    ensures
        0 <= fresh_tables(blocks, i) <= fresh_tables(blocks, n),
    decreases n,
{
    if i < n {
        lemma_fresh_tables_grow(blocks, i, n - 1);
    } else if n > 0 {
        lemma_fresh_tables_grow(blocks, n - 1, n - 1);
    }
}

/// In a table that holds the blocks `a` and nothing else, the first empty
/// entry on the way of `v` after `k` further blocks `b` is where it is in
/// a table that was empty after the blocks `a` and those `k`.
pub proof fn lemma_gap_after_fresh(
    state: &TableAlloc,
    table: usize,
    a: Seq<Block>,
    b: Seq<Block>,
    k: int,
    v: int,
)
    requires
        0 <= k <= b.len(),
        gap(state@, state.spec_base() as int, (table - state.spec_base()) / 4096, 4, v)
            == fresh_gap(a, a.len() as int, v),
    ensures
        gap_after(state, table, b, k, v) == fresh_gap(a + b, a.len() + k, v),
    decreases k,
{
    if k > 0 {
        lemma_gap_after_fresh(state, table, a, b, k - 1, v);
        assert((a + b)[a.len() + k - 1] == b[k - 1]);
    } else {
        lemma_fresh_gap_prefix(a, b, a.len() as int, v);
    }
}

/// In a table that holds the blocks `a` and nothing else, the tables that
/// `k` further blocks `b` take are those that they take after `a` in a
/// table that was empty.
pub proof fn lemma_tables_upto_fresh(
    state: &TableAlloc,
    table: usize,
    a: Seq<Block>,
    b: Seq<Block>,
    k: int,
)
    requires
        0 <= k <= b.len(),
        forall|j: int|
            0 <= j < b.len() ==> gap(
                state@,
                state.spec_base() as int,
                (table - state.spec_base()) / 4096,
                4,
                (#[trigger] b[j]).vaddr as int,
            ) == fresh_gap(a, a.len() as int, b[j].vaddr as int),
    ensures
        fresh_tables(a, a.len() as int) + tables_upto(state, table, b, k) == fresh_tables(
            a + b,
            a.len() + k,
        ),
    decreases k,
{
    if k > 0 {
        lemma_tables_upto_fresh(state, table, a, b, k - 1);
        assert((a + b)[a.len() + k - 1] == b[k - 1]);
        lemma_gap_after_fresh(state, table, a, b, k - 1, b[k - 1].vaddr as int);
        assert(tables_for(state, table, b, k - 1) == fresh_tables_for(a + b, a.len() + k - 1));
    } else {
        lemma_fresh_tables_prefix(a, b, a.len() as int);
    }
}

} // verus!
