//! Global block ids: every real token is assigned the global block that
//! summarises it, and every global block slot is marked active or not.
use vstd::prelude::*;
use crate::local::is_valid;
use vstd::arithmetic::div_mod::{lemma_div_is_ordered, lemma_div_multiples_vanish_fancy, lemma_fundamental_div_mod};

verus! {

/// Number of real tokens among the first `k` positions of a row.
pub open spec fn count_valid(row: Seq<i64>, k: int) -> int
    decreases k,
{
    if k <= 0 {
        0
    } else {
        count_valid(row, k - 1) + if is_valid(row, k - 1) {
            1int
        } else {
            0int
        }
    }
}

/// The block a position falls in before orphans are merged: real tokens
/// are grouped by `g` in the order they come, padding gets `-1`.
pub open spec fn tentative_block_id(row: Seq<i64>, g: int, p: int) -> int {
    if is_valid(row, p) {
        (count_valid(row, p + 1) - 1) / g
    } else {
        -1
    }
}

/// A real token at the last position of a stretch of `g` positions.
pub open spec fn is_block_end(row: Seq<i64>, g: int, p: int) -> bool {
    is_valid(row, p) && p % g == g - 1
}

/// Number of block ends among the first `k` positions of a row.
pub open spec fn count_block_ends(row: Seq<i64>, g: int, k: int) -> int
    decreases k,
{
    if k <= 0 {
        0
    } else {
        count_block_ends(row, g, k - 1) + if is_block_end(row, g, k - 1) {
            1int
        } else {
            0int
        }
    }
}

/// The highest block id that a row may use: one less than its block ends.
pub open spec fn last_full_block(row: Seq<i64>, g: int) -> int {
    count_block_ends(row, g, row.len() as int) - 1
}

/// The global block id of position `p`: its tentative id, with trailing
/// orphans merged into the last full block.
pub open spec fn global_block_id(row: Seq<i64>, g: int, p: int) -> int {
    let t = tentative_block_id(row, g, p);
    let c = last_full_block(row, g);
    if t < c {
        t
    } else {
        c
    }
}

/// The largest global block id among the first `k` positions, `-1` if none.
pub open spec fn max_block_id(row: Seq<i64>, g: int, k: int) -> int
    decreases k,
{
    if k <= 0 {
        -1
    } else {
        let m = max_block_id(row, g, k - 1);
        let id = global_block_id(row, g, k - 1);
        if m < id {
            id
        } else {
            m
        }
    }
}

/// Whether global block slot `s` is reached by some token of the row.
pub open spec fn segment_active(row: Seq<i64>, g: int, s: int) -> bool {
    s <= max_block_id(row, g, row.len() as int)
}

proof fn lemma_count_valid_bound(row: Seq<i64>, k: int)
    requires
        k >= 0,
    ensures
        0 <= count_valid(row, k) <= k,
    decreases k,
{
    if k > 0 {
        lemma_count_valid_bound(row, k - 1);
    }
}

proof fn lemma_count_block_ends_bound(row: Seq<i64>, g: int, k: int)
    requires
        k >= 0,
    ensures
        0 <= count_block_ends(row, g, k) <= k,
    decreases k,
{
    if k > 0 {
        lemma_count_block_ends_bound(row, g, k - 1);
    }
}

/// Among the first `k` positions there are at most `k / g` block ends.
proof fn lemma_block_ends_fit(row: Seq<i64>, g: int, k: int)
    requires
        g > 0,
        k >= 0,
    ensures
        count_block_ends(row, g, k) <= k / g,
    decreases k,
{
    if k > 0 {
        lemma_block_ends_fit(row, g, k - 1);
        let m = k - 1;
        if is_block_end(row, g, m) {
            lemma_fundamental_div_mod(m, g);
            assert(k == g * (m / g + 1) + 0) by (nonlinear_arith)
                requires m == g * (m / g) + m % g, m % g == g - 1, k == m + 1;
            lemma_div_multiples_vanish_fancy(m / g + 1, 0, g);
        } else {
            lemma_div_is_ordered(m, k, g);
        }
    }
}

/// Global block ids stay in range: every id is at least `-1`, the id of
/// padding, and below the number of global blocks `row.len() / g`.
pub proof fn lemma_block_id_range(row: Seq<i64>, g: int, p: int)
    requires
        g > 0,
        0 <= p < row.len(),
    ensures
        -1 <= global_block_id(row, g, p) < row.len() as int / g,
{
    lemma_block_ends_fit(row, g, row.len() as int);
    lemma_count_block_ends_bound(row, g, row.len() as int);
    if is_valid(row, p) {
        lemma_count_valid_bound(row, p);
        let c = count_valid(row, p + 1);
        assert((c - 1) / g >= 0) by (nonlinear_arith)
            requires c >= 1, g > 0;
    }
}

proof fn lemma_count_valid_monotone(row: Seq<i64>, p: int, q: int)
    requires
        0 <= p <= q,
    ensures
        count_valid(row, p) <= count_valid(row, q),
    decreases q - p,
{
    if p < q {
        lemma_count_valid_monotone(row, p, q - 1);
    }
}

/// Block assignment is monotonic: along a row, a later real token never has
/// a smaller global block id than an earlier one.
pub proof fn lemma_block_ids_monotonic(row: Seq<i64>, g: int, p: int, q: int)
    requires
        g > 0,
        0 <= p <= q,
        is_valid(row, p),
        is_valid(row, q),
    ensures
        global_block_id(row, g, p) <= global_block_id(row, g, q),
{
    lemma_count_valid_monotone(row, p + 1, q + 1);
    lemma_div_is_ordered(count_valid(row, p + 1) - 1, count_valid(row, q + 1) - 1, g);
}

/// Merges trailing orphans: every tentative id above the last full block of
/// the row is lowered to it.
fn handle_orphan_tokens(block_ids: &Vec<i64>, global_block_size: usize, Ghost(row): Ghost<Seq<i64>>)
    -> (r: Vec<i64>)
    requires
        global_block_size > 0,
        block_ids.len() == row.len(),
        row.len() <= i64::MAX,
        forall|p: int|
            0 <= p < row.len() ==> block_ids[p] == tentative_block_id(
                row,
                global_block_size as int,
                p,
            ),
    ensures
        r.len() == row.len(),
        forall|p: int|
            0 <= p < row.len() ==> r[p] == global_block_id(row, global_block_size as int, p),
{
    let g = global_block_size;
    let n = block_ids.len();
    let mut ends: usize = 0;
    let mut p: usize = 0;
    while p < n
        invariant
            n == row.len(),
            n == block_ids.len(),
            g > 0,
            p <= n,
            ends <= p,
            ends == count_block_ends(row, g as int, p as int),
            forall|q: int| 0 <= q < n ==> block_ids[q] == tentative_block_id(row, g as int, q),
        decreases n - p,
    {
        proof {
            lemma_count_valid_bound(row, p as int);
            let c = count_valid(row, p + 1);
            if is_valid(row, p as int) {
                assert(c >= 1);
                assert((c - 1) / (g as int) >= 0) by (nonlinear_arith)
                    requires c >= 1, g > 0;
            }
        }
        if block_ids[p] >= 0 && p % g == g - 1 {
            ends = ends + 1;
        }
        p = p + 1;
    }
    let full = ends as i64 - 1;
    let mut r: Vec<i64> = Vec::new();
    let mut p: usize = 0;
    while p < n
        invariant
            n == row.len(),
            n == block_ids.len(),
            g > 0,
            p <= n,
            r.len() == p,
            full == last_full_block(row, g as int),
            forall|q: int| 0 <= q < n ==> block_ids[q] == tentative_block_id(row, g as int, q),
            forall|q: int| 0 <= q < p ==> r[q] == global_block_id(row, g as int, q),
        decreases n - p,
    {
        let id = block_ids[p];
        r.push(if id < full { id } else { full });
        p = p + 1;
    }
    r
}

/// Global block ids and the global segment mask of a `[batch, seq_len]`
/// validity array. Ids have the shape of the input: real tokens are grouped
/// by `global_block_size` in order, trailing orphans join the last full
/// block, padding gets `-1`. The mask has shape
/// `[batch, seq_len / global_block_size]`; slot `s` of a row is true when
/// some token of the row has an id of at least `s`.
pub fn make_global_fixed_block_ids(attention_mask: &Vec<Vec<i64>>, global_block_size: usize)
    -> (r: (Vec<Vec<i64>>, Vec<Vec<bool>>))
    requires
        global_block_size > 0,
        forall|a: int|
            0 <= a < attention_mask.len() ==> #[trigger] attention_mask[a].len()
                == attention_mask[0].len(),
        forall|a: int| 0 <= a < attention_mask.len() ==> attention_mask[a].len() <= i64::MAX,
    ensures
        r.0.len() == attention_mask.len(),
        r.1.len() == attention_mask.len(),
        forall|a: int| 0 <= a < attention_mask.len() ==> #[trigger] r.0[a].len() == attention_mask[a].len(),
        forall|a: int, p: int|
            0 <= a < attention_mask.len() && 0 <= p < attention_mask[a].len() ==> #[trigger] r.0[a][p]
                == global_block_id(attention_mask[a]@, global_block_size as int, p),
        forall|a: int|
            0 <= a < attention_mask.len() ==> #[trigger] r.1[a].len() == attention_mask[a].len() as int
                / global_block_size as int,
        forall|a: int, s: int|
            0 <= a < attention_mask.len() && 0 <= s < r.1[a].len() ==> #[trigger] r.1[a][s]
                == segment_active(attention_mask[a]@, global_block_size as int, s),
{
    let x = attention_mask;
    let g = global_block_size;
    let seq_length: usize = if x.len() > 0 { x[0].len() } else { 0 };
    let num_globals = seq_length / g;
    let mut ids: Vec<Vec<i64>> = Vec::new();
    let mut segments: Vec<Vec<bool>> = Vec::new();
    let mut a: usize = 0;
    while a < x.len()
        invariant
            a <= x.len(),
            g > 0,
            ids.len() == a,
            segments.len() == a,
            x.len() > 0 ==> seq_length == x[0].len(),
            num_globals == seq_length / g,
            forall|c: int| 0 <= c < x.len() ==> #[trigger] x[c].len() == x[0].len(),
            forall|c: int| 0 <= c < x.len() ==> x[c].len() <= i64::MAX,
            forall|c: int| 0 <= c < a ==> #[trigger] ids[c].len() == x[c].len(),
            forall|c: int, p: int|
                0 <= c < a && 0 <= p < x[c].len() ==> #[trigger] ids[c][p] == global_block_id(
                    x[c]@,
                    g as int,
                    p,
                ),
            forall|c: int| 0 <= c < a ==> #[trigger] segments[c].len() == x[c].len() as int / g as int,
            forall|c: int, s: int|
                0 <= c < a && 0 <= s < segments[c].len() ==> #[trigger] segments[c][s]
                    == segment_active(x[c]@, g as int, s),
        decreases x.len() - a,
    {
        let row = &x[a];
        let n = row.len();
        let mut tentative: Vec<i64> = Vec::new();
        let mut count: usize = 0;
        let mut p: usize = 0;
        while p < n
            invariant
                n == row.len(),
                n <= i64::MAX,
                g > 0,
                p <= n,
                count <= p,
                count == count_valid(row@, p as int),
                tentative.len() == p,
                forall|q: int| 0 <= q < p ==> tentative[q] == tentative_block_id(row@, g as int, q),
            decreases n - p,
        {
            if row[p] != 0 {
                count = count + 1;
                let id = (count - 1) / g;
                tentative.push(id as i64);
            } else {
                tentative.push(-1);
            }
            p = p + 1;
        }
        let block_ids = handle_orphan_tokens(&tentative, g, Ghost(row@));
        let mut max_id: i64 = -1;
        let mut p: usize = 0;
        while p < n
            invariant
                n == row.len(),
                n == block_ids.len(),
                p <= n,
                forall|q: int| 0 <= q < n ==> block_ids[q] == global_block_id(row@, g as int, q),
                max_id == max_block_id(row@, g as int, p as int),
            decreases n - p,
        {
            if max_id < block_ids[p] {
                max_id = block_ids[p];
            }
            p = p + 1;
        }
        assert(num_globals <= n) by (nonlinear_arith)
            requires num_globals == n as int / g as int, g > 0;
        let mut active: Vec<bool> = Vec::new();
        let mut s: usize = 0;
        while s < num_globals
            invariant
                s <= num_globals,
                num_globals == n / g,
                num_globals <= n,
                n == row.len(),
                n <= i64::MAX,
                g > 0,
                active.len() == s,
                max_id == max_block_id(row@, g as int, n as int),
                forall|t: int| 0 <= t < s ==> active[t] == segment_active(row@, g as int, t),
            decreases num_globals - s,
        {
            active.push(s as i64 <= max_id);
            s = s + 1;
        }
        ids.push(block_ids);
        segments.push(active);
        a = a + 1;
    }
    (ids, segments)
}

} // verus!
