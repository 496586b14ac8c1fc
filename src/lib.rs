//! Block partitioning and attention masks for local/global sparse attention
//! over long sequences.
//!
//! Arrays are held as nested vectors: a validity array of shape
//! `[batch, seq_len]` is a `Vec<Vec<i64>>` whose entries are nonzero for
//! real tokens and zero for padding.
use vstd::prelude::*;

pub mod blocks;
pub mod local;
pub mod global;

use crate::blocks::ceil_div;
use crate::global::{count_block_ends, global_block_id, max_block_id, segment_active};
use crate::local::{is_valid, local_mask_entry};

verus! {

/// Batch independence: what the local mask and the global block ids give for
/// row `a` of a batch is what they give for a batch made of that row alone.
pub proof fn lemma_batch_independence(x: Seq<Seq<i64>>, a: int, l: int, g: int)
    requires
        0 <= a < x.len(),
        l > 0,
        g > 0,
    ensures
        ({
            let y = seq![x[a]];
            &&& ceil_div(x[a].len() as int, l) == ceil_div(y[0].len() as int, l)
            &&& x[a].len() as int / g == y[0].len() as int / g
            &&& forall|b: int, i: int, j: int|
                local_mask_entry(x[a], l, b, i, j) == #[trigger] local_mask_entry(y[0], l, b, i, j)
            &&& forall|p: int| global_block_id(x[a], g, p) == #[trigger] global_block_id(y[0], g, p)
            &&& forall|s: int| segment_active(x[a], g, s) == #[trigger] segment_active(y[0], g, s)
        }),
{
    let y = seq![x[a]];
    assert(y[0] == x[a]);
}

proof fn lemma_no_block_ends(row: Seq<i64>, g: int, k: int)
    requires
        forall|p: int| 0 <= p < row.len() ==> row[p] == 0,
        k >= 0,
    ensures
        count_block_ends(row, g, k) == 0,
    decreases k,
{
    if k > 0 {
        lemma_no_block_ends(row, g, k - 1);
    }
}

proof fn lemma_no_active_block(row: Seq<i64>, g: int, k: int)
    requires
        forall|p: int| 0 <= p < row.len() ==> row[p] == 0,
        count_block_ends(row, g, row.len() as int) == 0,
        k >= 0,
    ensures
        max_block_id(row, g, k) == -1,
    decreases k,
{
    if k > 0 {
        lemma_no_active_block(row, g, k - 1);
        assert(!is_valid(row, k - 1));
    }
}

/// A row made only of padding gets an all-false local mask, the id `-1` at
/// every position and no active global block.
pub proof fn lemma_all_padding(row: Seq<i64>, l: int, g: int)
    requires
        forall|p: int| 0 <= p < row.len() ==> row[p] == 0,
    ensures
        forall|b: int, i: int, j: int| !#[trigger] local_mask_entry(row, l, b, i, j),
        forall|p: int| 0 <= p < row.len() ==> #[trigger] global_block_id(row, g, p) == -1,
        forall|s: int| 0 <= s ==> !#[trigger] segment_active(row, g, s),
{
    lemma_no_block_ends(row, g, row.len() as int);
    lemma_no_active_block(row, g, row.len() as int);
    assert forall|p: int| 0 <= p < row.len() implies #[trigger] global_block_id(row, g, p) == -1 by {
        assert(!is_valid(row, p));
    }
}

} // verus!
