//! The local attention mask: which key positions each query position may
//! attend to within its own block and the two blocks beside it.
use vstd::prelude::*;
use crate::blocks::{
    block_of, blocks_view, ceil_div, concatenate_3_blocks, lemma_padded_len, pad_row, padded_len,
    split_into_blocks, widened_block,
};

verus! {

/// Offset from position `i` of the centre block to position `j` of the
/// window made of the left, centre and right blocks of length `l`.
pub open spec fn relative_position(l: int, i: int, j: int) -> int {
    j - (l + i)
}

/// Absolute value.
pub open spec fn abs_int(v: int) -> int {
    if v < 0 {
        -v
    } else {
        v
    }
}

/// Whether key `j` of the window lies strictly closer than one block length
/// to query `i` of the centre block.
pub open spec fn is_local(l: int, i: int, j: int) -> bool {
    abs_int(relative_position(l, i, j)) < l
}

/// Whether position `p` of a validity row is a real token.
pub open spec fn is_valid(row: Seq<i64>, p: int) -> bool {
    0 <= p < row.len() && row[p] != 0
}

/// Whether query `i` of block `b` may attend to key `j` of that block's
/// widened window: both are real tokens and they are local to each other.
pub open spec fn local_mask_entry(row: Seq<i64>, l: int, b: int, i: int, j: int) -> bool {
    is_valid(row, b * l + i) && is_valid(row, b * l + j - l) && is_local(l, i, j)
}

/// A position of the centre block is at offset zero from itself: column
/// `l + i` of row `i` of the relative-position grid.
pub proof fn lemma_self_offset_zero(l: int, i: int)
    requires
        0 <= i < l,
    ensures
        relative_position(l, i, l + i) == 0,
        0 <= l + i < 3 * l,
{
}

/// The local mask is bounded by locality: an entry is true only where the
/// relative position of query and key is less than `l` in absolute value.
pub proof fn lemma_mask_is_local(row: Seq<i64>, l: int, b: int, i: int, j: int)
    requires
        local_mask_entry(row, l, b, i, j),
    ensures
        abs_int(relative_position(l, i, j)) < l,
{
}

/// The grid of relative positions of shape `[block_length, 3 * block_length]`:
/// entry `[i][j]` is `j - (block_length + i)`.
pub fn make_3blocks_relative_position_ids(block_length: usize) -> (r: Vec<Vec<i64>>)
    requires
        3 * block_length <= i64::MAX,
        3 * block_length <= usize::MAX,
    ensures
        r.len() == block_length,
        forall|i: int| 0 <= i < block_length ==> r[i].len() == 3 * block_length,
        forall|i: int, j: int|
            0 <= i < block_length && 0 <= j < 3 * block_length ==> r[i][j] == relative_position(
                block_length as int,
                i,
                j,
            ),
{
    let l = block_length as i64;
    let width = 3 * block_length;
    let mut r: Vec<Vec<i64>> = Vec::new();
    let mut i: usize = 0;
    while i < block_length
        invariant
            i <= block_length,
            l == block_length,
            width == 3 * block_length,
            3 * block_length <= i64::MAX,
            3 * block_length <= usize::MAX,
            r.len() == i,
            forall|c: int| 0 <= c < i ==> r[c].len() == width,
            forall|c: int, j: int|
                0 <= c < i && 0 <= j < width ==> r[c][j] == relative_position(l as int, c, j),
        decreases block_length - i,
    {
        let centre = l + i as i64;
        let mut row: Vec<i64> = Vec::new();
        let mut j: usize = 0;
        while j < width
            invariant
                j <= width,
                width == 3 * block_length,
                3 * block_length <= i64::MAX,
                3 * block_length <= usize::MAX,
                centre == l + i,
                i < block_length,
                l == block_length,
                row.len() == j,
                forall|k: int| 0 <= k < j ==> row[k] == relative_position(l as int, i as int, k),
            decreases width - j,
        {
            row.push(j as i64 - centre);
            j = j + 1;
        }
        r.push(row);
        i = i + 1;
    }
    r
}

/// Keeps, of a `[batch, num_blocks, block_length, 3 * block_length]` mask,
/// only the entries whose relative position is strictly less than
/// `block_length` in absolute value.
pub fn mask_local_attention_mask(local_attention_mask: &Vec<Vec<Vec<Vec<bool>>>>, block_length: usize)
    -> (r: Vec<Vec<Vec<Vec<bool>>>>)
    requires
        3 * block_length <= i64::MAX,
        3 * block_length <= usize::MAX,
        forall|a: int, b: int|
            0 <= a < local_attention_mask.len() && 0 <= b < local_attention_mask[a].len()
                ==> #[trigger] local_attention_mask[a][b].len() == block_length,
        forall|a: int, b: int, i: int|
            0 <= a < local_attention_mask.len() && 0 <= b < local_attention_mask[a].len() && 0
                <= i < block_length ==> #[trigger] local_attention_mask[a][b][i].len() == 3
                * block_length,
    ensures
        r.len() == local_attention_mask.len(),
        forall|a: int| 0 <= a < r.len() ==> #[trigger] r[a].len() == local_attention_mask[a].len(),
        forall|a: int, b: int|
            0 <= a < r.len() && 0 <= b < r[a].len() ==> #[trigger] r[a][b].len() == block_length,
        forall|a: int, b: int, i: int|
            0 <= a < r.len() && 0 <= b < r[a].len() && 0 <= i < block_length
                ==> #[trigger] r[a][b][i].len() == 3 * block_length,
        forall|a: int, b: int, i: int, j: int|
            0 <= a < r.len() && 0 <= b < r[a].len() && 0 <= i < block_length && 0 <= j < 3
                * block_length ==> #[trigger] r[a][b][i][j] == (local_attention_mask[a][b][i][j]
                && is_local(block_length as int, i, j)),
{
    let m = local_attention_mask;
    let l = block_length;
    let width = 3 * block_length;
    let ids = make_3blocks_relative_position_ids(l);
    let bound = l as i64;
    let mut r: Vec<Vec<Vec<Vec<bool>>>> = Vec::new();
    let mut a: usize = 0;
    while a < m.len()
        invariant
            a <= m.len(),
            r.len() == a,
            width == 3 * l,
            l == block_length,
            bound == l,
            3 * l <= i64::MAX,
            3 * l <= usize::MAX,
            ids.len() == l,
            forall|i: int| 0 <= i < l ==> ids[i].len() == width,
            forall|i: int, j: int|
                0 <= i < l && 0 <= j < width ==> ids[i][j] == relative_position(l as int, i, j),
            forall|c: int, b: int| 0 <= c < m.len() && 0 <= b < m[c].len() ==> #[trigger] m[c][b].len() == l,
            forall|c: int, b: int, i: int|
                0 <= c < m.len() && 0 <= b < m[c].len() && 0 <= i < l ==> #[trigger] m[c][b][i].len()
                    == width,
            forall|c: int| 0 <= c < a ==> #[trigger] r[c].len() == m[c].len(),
            forall|c: int, b: int| 0 <= c < a && 0 <= b < r[c].len() ==> #[trigger] r[c][b].len() == l,
            forall|c: int, b: int, i: int|
                0 <= c < a && 0 <= b < r[c].len() && 0 <= i < l ==> #[trigger] r[c][b][i].len()
                    == width,
            forall|c: int, b: int, i: int, j: int|
                0 <= c < a && 0 <= b < r[c].len() && 0 <= i < l && 0 <= j < width
                    ==> #[trigger] r[c][b][i][j] == (m[c][b][i][j] && is_local(l as int, i, j)),
        decreases m.len() - a,
    {
        let mut row: Vec<Vec<Vec<bool>>> = Vec::new();
        let mut b: usize = 0;
        while b < m[a].len()
            invariant
                a < m.len(),
                b <= m[a as int].len(),
                row.len() == b,
                width == 3 * l,
                3 * l <= i64::MAX,
                bound == l,
                ids.len() == l,
                forall|i: int| 0 <= i < l ==> ids[i].len() == width,
                forall|i: int, j: int|
                    0 <= i < l && 0 <= j < width ==> ids[i][j] == relative_position(l as int, i, j),
                forall|c: int, b: int| 0 <= c < m.len() && 0 <= b < m[c].len() ==> #[trigger] m[c][b].len() == l,
                forall|c: int, b: int, i: int|
                    0 <= c < m.len() && 0 <= b < m[c].len() && 0 <= i < l ==> #[trigger] m[c][b][i].len()
                        == width,
                forall|d: int| 0 <= d < b ==> #[trigger] row[d].len() == l,
                forall|d: int, i: int| 0 <= d < b && 0 <= i < l ==> #[trigger] row[d][i].len() == width,
                forall|d: int, i: int, j: int|
                    0 <= d < b && 0 <= i < l && 0 <= j < width ==> #[trigger] row[d][i][j] == (
                    m[a as int][d][i][j] && is_local(l as int, i, j)),
            decreases m[a as int].len() - b,
        {
            let block = &m[a][b];
            let mut out: Vec<Vec<bool>> = Vec::new();
            let mut i: usize = 0;
            while i < l
                invariant
                    i <= l,
                    out.len() == i,
                    block.len() == l,
                    width == 3 * l,
                    3 * l <= i64::MAX,
                    bound == l,
                    ids.len() == l,
                    forall|k: int| 0 <= k < l ==> ids[k].len() == width,
                    forall|k: int, j: int|
                        0 <= k < l && 0 <= j < width ==> ids[k][j] == relative_position(l as int, k, j),
                    forall|k: int| 0 <= k < l ==> #[trigger] block[k].len() == width,
                    forall|k: int| 0 <= k < i ==> #[trigger] out[k].len() == width,
                    forall|k: int, j: int|
                        0 <= k < i && 0 <= j < width ==> #[trigger] out[k][j] == (block[k][j]
                            && is_local(l as int, k, j)),
                decreases l - i,
            {
                let mut line: Vec<bool> = Vec::new();
                let mut j: usize = 0;
                while j < width
                    invariant
                        j <= width,
                        i < l,
                        line.len() == j,
                        block.len() == l,
                        block[i as int].len() == width,
                        ids.len() == l,
                        ids[i as int].len() == width,
                        3 * l <= i64::MAX,
                        bound == l,
                        width == 3 * l,
                        forall|k: int|
                            0 <= k < width ==> ids[i as int][k] == relative_position(l as int, i as int, k),
                        forall|k: int|
                            0 <= k < j ==> #[trigger] line[k] == (block[i as int][k] && is_local(
                                l as int,
                                i as int,
                                k,
                            )),
                    decreases width - j,
                {
                    let d = ids[i][j];
                    assert(d == relative_position(l as int, i as int, j as int));
                    let dist = if d < 0 {
                        -d
                    } else {
                        d
                    };
                    line.push(block[i][j] && dist < bound);
                    j = j + 1;
                }
                out.push(line);
                i = i + 1;
            }
            row.push(out);
            b = b + 1;
        }
        r.push(row);
        a = a + 1;
    }
    r
}

/// A block entry is nonzero exactly where its position holds a real token.
proof fn lemma_block_entry(row: Seq<i64>, l: int, b: int, i: int)
    requires
        l > 0,
        0 <= b < ceil_div(row.len() as int, l),
        0 <= i < l,
    ensures
        block_of(row, l, b).len() == l,
        (block_of(row, l, b)[i] != 0) == is_valid(row, b * l + i),
{
    let n = row.len() as int;
    lemma_padded_len(n, l);
    assert((b + 1) * l <= ceil_div(n, l) * l && b * l >= 0) by (nonlinear_arith)
        requires b + 1 <= ceil_div(n, l), l > 0, b >= 0;
    assert(b * l + l == (b + 1) * l) by (nonlinear_arith);
    assert(pad_row(row, l, 0).len() == padded_len(n, l));
}

/// An entry of a widened block is nonzero exactly where the position it
/// stands for, `l` before the block's own positions, holds a real token.
proof fn lemma_widened_entry(row: Seq<i64>, l: int, blocks: Seq<Seq<i64>>, b: int, j: int)
    requires
        l > 0,
        blocks.len() == ceil_div(row.len() as int, l),
        forall|k: int| 0 <= k < blocks.len() ==> blocks[k] == block_of(row, l, k),
        0 <= b < blocks.len(),
        0 <= j < 3 * l,
    ensures
        widened_block(blocks, b, 0).len() == 3 * l,
        (widened_block(blocks, b, 0)[j] != 0) == is_valid(row, b * l + j - l),
{
    let n = row.len() as int;
    lemma_padded_len(n, l);
    lemma_block_entry(row, l, b, 0);
    if b > 0 {
        lemma_block_entry(row, l, b - 1, 0);
    }
    if b + 1 < blocks.len() {
        lemma_block_entry(row, l, b + 1, 0);
    }
    let w = widened_block(blocks, b, 0);
    assert(w.len() == 3 * l);
    if j < l {
        if b > 0 {
            lemma_block_entry(row, l, b - 1, j);
            assert((b - 1) * l + j == b * l + j - l) by (nonlinear_arith);
        } else {
            assert(b * l == 0) by (nonlinear_arith)
                requires b == 0;
        }
    } else if j < 2 * l {
        lemma_block_entry(row, l, b, j - l);
    } else {
        if b + 1 < blocks.len() {
            lemma_block_entry(row, l, b + 1, j - 2 * l);
            assert((b + 1) * l + (j - 2 * l) == b * l + j - l) by (nonlinear_arith);
        } else {
            assert(b * l + j - l >= ceil_div(n, l) * l) by (nonlinear_arith)
                requires b + 1 == ceil_div(n, l), j >= 2 * l;
        }
    }
}

/// The local attention mask of shape
/// `[batch, 1, num_blocks, block_length, 3 * block_length]`: query `i` of
/// block `b` may attend to key `j` of the block's widened window when both
/// are real tokens and their distance is less than `block_length`. The
/// second axis stands for the attention heads.
pub fn get_local_attention_mask(attention_mask: &Vec<Vec<i64>>, block_length: usize)
    -> (r: Vec<Vec<Vec<Vec<Vec<bool>>>>>)
    requires
        block_length > 0,
        3 * block_length <= i64::MAX,
        3 * block_length <= usize::MAX,
        forall|a: int|
            0 <= a < attention_mask.len() ==> attention_mask[a].len() + block_length <= usize::MAX,
    ensures
        r.len() == attention_mask.len(),
        forall|a: int|
            0 <= a < r.len() ==> #[trigger] r[a].len() == 1 && r[a][0].len() == ceil_div(
                attention_mask[a].len() as int,
                block_length as int,
            ),
        forall|a: int, b: int|
            0 <= a < r.len() && 0 <= b < r[a][0].len() ==> #[trigger] r[a][0][b].len()
                == block_length,
        forall|a: int, b: int, i: int|
            0 <= a < r.len() && 0 <= b < r[a][0].len() && 0 <= i < block_length
                ==> #[trigger] r[a][0][b][i].len() == 3 * block_length,
        forall|a: int, b: int, i: int, j: int|
            0 <= a < r.len() && 0 <= b < r[a][0].len() && 0 <= i < block_length && 0 <= j < 3
                * block_length ==> #[trigger] r[a][0][b][i][j] == local_mask_entry(
                attention_mask[a]@,
                block_length as int,
                b,
                i,
                j,
            ),
{
    let x = attention_mask;
    let l = block_length;
    let width = 3 * l;
    let blocked = split_into_blocks(x, l);
    let widened = concatenate_3_blocks(&blocked, None);
    let mut pair: Vec<Vec<Vec<Vec<bool>>>> = Vec::new();
    let mut a: usize = 0;
    while a < blocked.len()
        invariant
            a <= blocked.len(),
            blocked.len() == x.len(),
            widened.len() == x.len(),
            pair.len() == a,
            l == block_length,
            l > 0,
            width == 3 * l,
            forall|c: int| 0 <= c < x.len() ==> widened[c].len() == blocked[c].len(),
            forall|c: int|
                0 <= c < x.len() ==> blocked[c].len() == ceil_div(x[c].len() as int, l as int),
            forall|c: int, k: int|
                0 <= c < x.len() && 0 <= k < blocked[c].len() ==> blocked[c][k]@ == block_of(
                    x[c]@,
                    l as int,
                    k,
                ),
            forall|c: int, k: int|
                0 <= c < x.len() && 0 <= k < blocked[c].len() ==> widened[c][k]@ == widened_block(
                    blocks_view(blocked[c]@),
                    k,
                    0,
                ),
            forall|c: int| 0 <= c < a ==> #[trigger] pair[c].len() == blocked[c].len(),
            forall|c: int, b: int|
                0 <= c < a && 0 <= b < pair[c].len() ==> #[trigger] pair[c][b].len() == l,
            forall|c: int, b: int, i: int|
                0 <= c < a && 0 <= b < pair[c].len() && 0 <= i < l ==> #[trigger] pair[c][b][i].len()
                    == width,
            forall|c: int, b: int, i: int, j: int|
                0 <= c < a && 0 <= b < pair[c].len() && 0 <= i < l && 0 <= j < width
                    ==> #[trigger] pair[c][b][i][j] == (is_valid(x[c]@, b * l + i) && is_valid(
                    x[c]@,
                    b * l + j - l,
                )),
        decreases x.len() - a,
    {
        let ghost bv = blocks_view(blocked[a as int]@);
        assert forall|k: int| 0 <= k < bv.len() implies bv[k] == block_of(x[a as int]@, l as int, k) by {}
        let mut row: Vec<Vec<Vec<bool>>> = Vec::new();
        let mut b: usize = 0;
        while b < blocked[a].len()
            invariant
                a < x.len(),
                blocked.len() == x.len(),
                widened.len() == x.len(),
                b <= blocked[a as int].len(),
                row.len() == b,
                l == block_length,
                l > 0,
                width == 3 * l,
                bv == blocks_view(blocked[a as int]@),
                bv.len() == ceil_div(x[a as int].len() as int, l as int),
                forall|k: int| 0 <= k < bv.len() ==> bv[k] == block_of(x[a as int]@, l as int, k),
                widened[a as int].len() == blocked[a as int].len(),
                forall|k: int|
                    0 <= k < blocked[a as int].len() ==> blocked[a as int][k]@ == block_of(
                        x[a as int]@,
                        l as int,
                        k,
                    ),
                forall|k: int|
                    0 <= k < blocked[a as int].len() ==> widened[a as int][k]@ == widened_block(
                        bv,
                        k,
                        0,
                    ),
                forall|d: int| 0 <= d < b ==> #[trigger] row[d].len() == l,
                forall|d: int, i: int| 0 <= d < b && 0 <= i < l ==> #[trigger] row[d][i].len() == width,
                forall|d: int, i: int, j: int|
                    0 <= d < b && 0 <= i < l && 0 <= j < width ==> #[trigger] row[d][i][j] == (
                    is_valid(x[a as int]@, d * l + i) && is_valid(x[a as int]@, d * l + j - l)),
            decreases blocked[a as int].len() - b,
        {
            let query = &blocked[a][b];
            let key = &widened[a][b];
            proof {
                lemma_block_entry(x[a as int]@, l as int, b as int, 0);
                lemma_widened_entry(x[a as int]@, l as int, bv, b as int, 0);
            }
            let mut out: Vec<Vec<bool>> = Vec::new();
            let mut i: usize = 0;
            while i < l
                invariant
                    a < x.len(),
                    b < bv.len(),
                    bv.len() == ceil_div(x[a as int].len() as int, l as int),
                    forall|k: int| 0 <= k < bv.len() ==> bv[k] == block_of(x[a as int]@, l as int, k),
                    query@ == block_of(x[a as int]@, l as int, b as int),
                    key@ == widened_block(bv, b as int, 0),
                    query.len() == l,
                    key.len() == width,
                    i <= l,
                    l > 0,
                    width == 3 * l,
                    out.len() == i,
                    forall|k: int| 0 <= k < i ==> #[trigger] out[k].len() == width,
                    forall|k: int, j: int|
                        0 <= k < i && 0 <= j < width ==> #[trigger] out[k][j] == (is_valid(
                            x[a as int]@,
                            b * l + k,
                        ) && is_valid(x[a as int]@, b * l + j - l)),
                decreases l - i,
            {
                proof {
                    lemma_block_entry(x[a as int]@, l as int, b as int, i as int);
                }
                let q = query[i] != 0;
                let mut line: Vec<bool> = Vec::new();
                let mut j: usize = 0;
                while j < width
                    invariant
                        a < x.len(),
                        b < bv.len(),
                        bv.len() == ceil_div(x[a as int].len() as int, l as int),
                        forall|k: int| 0 <= k < bv.len() ==> bv[k] == block_of(x[a as int]@, l as int, k),
                        key@ == widened_block(bv, b as int, 0),
                        key.len() == width,
                        q == is_valid(x[a as int]@, b * l + i),
                        j <= width,
                        l > 0,
                        width == 3 * l,
                        line.len() == j,
                        forall|k: int|
                            0 <= k < j ==> #[trigger] line[k] == (q && is_valid(
                                x[a as int]@,
                                b * l + k - l,
                            )),
                    decreases width - j,
                {
                    proof {
                        lemma_widened_entry(x[a as int]@, l as int, bv, b as int, j as int);
                    }
                    line.push(q && key[j] != 0);
                    j = j + 1;
                }
                out.push(line);
                i = i + 1;
            }
            row.push(out);
            b = b + 1;
        }
        pair.push(row);
        a = a + 1;
    }
    let mut masked = mask_local_attention_mask(&pair, l);
    let ghost all = masked@;
    let mut r: Vec<Vec<Vec<Vec<Vec<bool>>>>> = Vec::new();
    let mut a: usize = 0;
    while a < x.len()
        invariant
            a <= x.len(),
            all.len() == x.len(),
            masked@ == all.subrange(a as int, all.len() as int),
            r.len() == a,
            forall|c: int| 0 <= c < a ==> #[trigger] r[c]@ == seq![all[c]],
        decreases x.len() - a,
    {
        let m = masked.remove(0);
        assert(masked@ =~= all.subrange(a + 1, all.len() as int));
        r.push(vec![m]);
        a = a + 1;
    }
    assert forall|c: int| 0 <= c < r.len() implies #[trigger] r[c][0] == all[c] by {
        assert(r[c]@ == seq![all[c]]);
    }
    r
}

} // verus!
