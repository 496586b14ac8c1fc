//! Padding a sequence up to a multiple of a block length, splitting it into
//! blocks, and widening each block with its two neighbours.
use vstd::prelude::*;
use vstd::arithmetic::div_mod::{lemma_fundamental_div_mod, lemma_div_multiples_vanish_fancy};

verus! {

/// Number of blocks of length `l` needed to cover `n` positions.
pub open spec fn ceil_div(n: int, l: int) -> int {
    (n + l - 1) / l
}

/// Length of a sequence of `n` positions once padded to a multiple of `l`.
pub open spec fn padded_len(n: int, l: int) -> int {
    ceil_div(n, l) * l
}

/// A row with `v` appended until its length is a multiple of `l`.
pub open spec fn pad_row(row: Seq<i64>, l: int, v: i64) -> Seq<i64> {
    row + Seq::new((padded_len(row.len() as int, l) - row.len()) as nat, |k: int| v)
}

/// The padded length is the number of positions plus what is missing to
/// reach the next multiple of `l`; `ceil_div(n, l)` blocks of length `l`
/// cover `n` positions, and one block fewer would not.
pub proof fn lemma_padded_len(n: int, l: int)
    requires
        n >= 0,
        l > 0,
    ensures
        padded_len(n, l) == n + (l - n % l) % l,
        ceil_div(n, l) * l >= n,
        (ceil_div(n, l) - 1) * l < n,
        ceil_div(n, l) >= 0,
{
    lemma_fundamental_div_mod(n, l);
    let q = n / l;
    let r = n % l;
    if r == 0 {
        lemma_div_multiples_vanish_fancy(q, l - 1, l);
        assert(n + l - 1 == l * q + (l - 1));
        assert((l - r) % l == 0) by {
            lemma_div_multiples_vanish_fancy(1, 0, l);
            lemma_fundamental_div_mod(l, l);
        }
        assert(padded_len(n, l) == q * l) by (nonlinear_arith)
            requires ceil_div(n, l) == q;
        assert(q * l == l * q) by (nonlinear_arith);
    } else {
        lemma_div_multiples_vanish_fancy(q + 1, r - 1, l);
        assert(n + l - 1 == l * (q + 1) + (r - 1)) by (nonlinear_arith)
            requires n == l * q + r;
        assert((l - r) % l == l - r) by {
            lemma_div_multiples_vanish_fancy(0, l - r, l);
            lemma_fundamental_div_mod(l - r, l);
        }
        assert(padded_len(n, l) == (q + 1) * l) by (nonlinear_arith)
            requires ceil_div(n, l) == q + 1;
        assert((q + 1) * l == l * q + l) by (nonlinear_arith);
    }
    assert(q >= 0) by (nonlinear_arith)
        requires n >= 0, l > 0, q == n / l;
    assert(ceil_div(n, l) * l >= n && (ceil_div(n, l) - 1) * l < n) by (nonlinear_arith)
        requires
            n == l * q + r,
            0 <= r < l,
            r == 0 ==> ceil_div(n, l) == q,
            r != 0 ==> ceil_div(n, l) == q + 1;
}

/// Pads every row of `x` at its end with `pad_value` until its length is a
/// multiple of `block_length`; rows already of such a length are unchanged.
pub fn pad_to_multiple(x: &Vec<Vec<i64>>, block_length: usize, pad_value: i64) -> (r: Vec<Vec<i64>>)
    requires
        block_length > 0,
        forall|b: int| 0 <= b < x.len() ==> x[b].len() + block_length <= usize::MAX,
    ensures
        r.len() == x.len(),
        forall|b: int| 0 <= b < x.len() ==> r[b]@ == pad_row(x[b]@, block_length as int, pad_value),
{
    let mut r: Vec<Vec<i64>> = Vec::new();
    let mut b: usize = 0;
    while b < x.len()
        invariant
            b <= x.len(),
            r.len() == b,
            block_length > 0,
            forall|c: int| 0 <= c < x.len() ==> x[c].len() + block_length <= usize::MAX,
            forall|c: int| 0 <= c < b ==> r[c]@ == pad_row(x[c]@, block_length as int, pad_value),
        decreases x.len() - b,
    {
        let row = &x[b];
        let n = row.len();
        let pad_length = (block_length - n % block_length) % block_length;
        proof {
            lemma_padded_len(n as int, block_length as int);
        }
        let mut out: Vec<i64> = row.clone();
        let mut k: usize = 0;
        while k < pad_length
            invariant
                k <= pad_length,
                out@ == row@ + Seq::new(k as nat, |i: int| pad_value),
            decreases pad_length - k,
        {
            out.push(pad_value);
            k = k + 1;
            assert(out@ =~= row@ + Seq::new(k as nat, |i: int| pad_value));
        }
        assert(out@ =~= pad_row(row@, block_length as int, pad_value));
        r.push(out);
        b = b + 1;
    }
    r
}

/// `n / l` blocks of `l` positions cover a padded length exactly.
proof fn lemma_padded_blocks(n: int, l: int)
    requires
        n >= 0,
        l > 0,
    ensures
        padded_len(n, l) / l == ceil_div(n, l),
{
    lemma_padded_len(n, l);
    lemma_div_multiples_vanish_fancy(ceil_div(n, l), 0, l);
    assert(ceil_div(n, l) * l == l * ceil_div(n, l) + 0) by (nonlinear_arith);
}

/// Padding is idempotent: a row already padded to a multiple of `l` is left
/// as it is by a second padding with the same value.
pub proof fn lemma_pad_idempotent(row: Seq<i64>, l: int, v: i64)
    requires
        l > 0,
    ensures
        pad_row(pad_row(row, l, v), l, v) == pad_row(row, l, v),
{
    let n = row.len() as int;
    lemma_padded_len(n, l);
    let c = ceil_div(n, l);
    let p = pad_row(row, l, v);
    assert(p.len() == c * l);
    lemma_div_multiples_vanish_fancy(c, l - 1, l);
    assert(c * l + l - 1 == l * c + (l - 1)) by (nonlinear_arith);
    assert(padded_len(c * l, l) == c * l);
    assert(pad_row(p, l, v) =~= p);
}

/// The blocks of a row: block `k` holds positions `k * l .. k * l + l` of the
/// row padded with zeros.
pub open spec fn block_of(row: Seq<i64>, l: int, k: int) -> Seq<i64> {
    pad_row(row, l, 0).subrange(k * l, k * l + l)
}

/// Splits the sequence axis of `x` into blocks of `block_length` positions,
/// padding each row with zeros up to a multiple of `block_length` first:
/// `[batch, seq_len]` becomes `[batch, num_blocks, block_length]`.
pub fn split_into_blocks(x: &Vec<Vec<i64>>, block_length: usize) -> (r: Vec<Vec<Vec<i64>>>)
    requires
        block_length > 0,
        forall|b: int| 0 <= b < x.len() ==> x[b].len() + block_length <= usize::MAX,
    ensures
        r.len() == x.len(),
        forall|b: int|
            0 <= b < x.len() ==> {
                &&& r[b].len() == ceil_div(x[b].len() as int, block_length as int)
                &&& r[b].len() * block_length >= x[b].len()
                &&& (r[b].len() - 1) * block_length < x[b].len()
            },
        forall|b: int, k: int|
            0 <= b < x.len() && 0 <= k < r[b].len() ==> r[b][k]@ == block_of(
                x[b]@,
                block_length as int,
                k,
            ),
{
    let l = block_length;
    let padded = pad_to_multiple(x, l, 0);
    let mut r: Vec<Vec<Vec<i64>>> = Vec::new();
    let mut b: usize = 0;
    while b < padded.len()
        invariant
            padded.len() == x.len(),
            b <= x.len(),
            r.len() == b,
            l == block_length,
            l > 0,
            forall|c: int| 0 <= c < x.len() ==> padded[c]@ == pad_row(x[c]@, l as int, 0),
            forall|c: int|
                0 <= c < b ==> {
                    &&& r[c].len() == ceil_div(x[c].len() as int, l as int)
                    &&& r[c].len() * l >= x[c].len()
                    &&& (r[c].len() - 1) * l < x[c].len()
                },
            forall|c: int, k: int|
                0 <= c < b && 0 <= k < r[c].len() ==> r[c][k]@ == block_of(x[c]@, l as int, k),
        decreases x.len() - b,
    {
        let row = &padded[b];
        proof {
            lemma_padded_len(x[b as int].len() as int, l as int);
            lemma_padded_blocks(x[b as int].len() as int, l as int);
        }
        let num_blocks = row.len() / l;
        let mut blocks: Vec<Vec<i64>> = Vec::new();
        let mut k: usize = 0;
        while k < num_blocks
            invariant
                k <= num_blocks,
                num_blocks == row.len() / l,
                num_blocks * l == row.len(),
                l > 0,
                blocks.len() == k,
                forall|j: int| 0 <= j < k ==> blocks[j]@ == row@.subrange(j * l, j * l + l),
            decreases num_blocks - k,
        {
            assert((k + 1) * l <= num_blocks * l) by (nonlinear_arith)
                requires k < num_blocks, l > 0;
            assert(k * l + l == (k + 1) * l) by (nonlinear_arith);
            let start = k * l;
            let mut block: Vec<i64> = Vec::new();
            let mut i: usize = 0;
            while i < l
                invariant
                    i <= l,
                    start + l <= row.len(),
                    block@ == row@.subrange(start as int, start + i),
                decreases l - i,
            {
                block.push(row[start + i]);
                i = i + 1;
                assert(block@ =~= row@.subrange(start as int, start + i));
            }
            blocks.push(block);
            k = k + 1;
        }
        r.push(blocks);
        b = b + 1;
    }
    r
}

/// The `b`-th block of `blocks`, or `len` copies of `v` where there is none.
pub open spec fn neighbour_block(blocks: Seq<Seq<i64>>, b: int, len: nat, v: i64) -> Seq<i64> {
    if 0 <= b < blocks.len() {
        blocks[b]
    } else {
        Seq::new(len, |k: int| v)
    }
}

/// Block `b` widened with its left and right neighbours, each missing
/// neighbour filled with `v`.
pub open spec fn widened_block(blocks: Seq<Seq<i64>>, b: int, v: i64) -> Seq<i64> {
    neighbour_block(blocks, b - 1, blocks[b].len(), v) + blocks[b] + neighbour_block(
        blocks,
        b + 1,
        blocks[b].len(),
        v,
    )
}

/// The blocks of one batch row as sequences.
pub open spec fn blocks_view(blocks: Seq<Vec<i64>>) -> Seq<Seq<i64>> {
    blocks.map_values(|v: Vec<i64>| v@)
}

/// The value that fills a missing neighbour block.
pub open spec fn fill_value(pad_value: Option<i64>) -> i64 {
    match pad_value {
        Some(v) => v,
        None => 0,
    }
}

fn push_all(out: &mut Vec<i64>, src: &Vec<i64>)
    ensures
        final(out)@ == old(out)@ + src@,
{
    let mut i: usize = 0;
    while i < src.len()
        invariant
            i <= src.len(),
            out@ == old(out)@ + src@.subrange(0, i as int),
        decreases src.len() - i,
    {
        out.push(src[i]);
        i = i + 1;
        assert(out@ =~= old(out)@ + src@.subrange(0, i as int));
    }
    assert(src@.subrange(0, src.len() as int) =~= src@);
}

fn push_fill(out: &mut Vec<i64>, len: usize, v: i64)
    ensures
        final(out)@ == old(out)@ + Seq::new(len as nat, |k: int| v),
{
    let mut i: usize = 0;
    while i < len
        invariant
            i <= len,
            out@ == old(out)@ + Seq::new(i as nat, |k: int| v),
        decreases len - i,
    {
        out.push(v);
        i = i + 1;
        assert(out@ =~= old(out)@ + Seq::new(i as nat, |k: int| v));
    }
}

/// Widens every block: block `b` of a row becomes its left neighbour, itself
/// and its right neighbour, concatenated; a neighbour before the first or
/// after the last block is filled with `pad_value` (zero when `None`). The
/// number of blocks is unchanged and each block becomes three times longer.
pub fn concatenate_3_blocks(x: &Vec<Vec<Vec<i64>>>, pad_value: Option<i64>) -> (r: Vec<Vec<Vec<i64>>>)
    ensures
        r.len() == x.len(),
        forall|a: int| 0 <= a < x.len() ==> r[a].len() == x[a].len(),
        forall|a: int, b: int|
            0 <= a < x.len() && 0 <= b < x[a].len() ==> r[a][b]@ == widened_block(
                blocks_view(x[a]@),
                b,
                fill_value(pad_value),
            ),
{
    let v = match pad_value {
        Some(v) => v,
        None => 0,
    };
    let mut r: Vec<Vec<Vec<i64>>> = Vec::new();
    let mut a: usize = 0;
    while a < x.len()
        invariant
            a <= x.len(),
            r.len() == a,
            v == fill_value(pad_value),
            forall|c: int| 0 <= c < a ==> r[c].len() == x[c].len(),
            forall|c: int, b: int|
                0 <= c < a && 0 <= b < x[c].len() ==> r[c][b]@ == widened_block(
                    blocks_view(x[c]@),
                    b,
                    v,
                ),
        decreases x.len() - a,
    {
        let blocks = &x[a];
        let ghost bv = blocks_view(blocks@);
        let mut row: Vec<Vec<i64>> = Vec::new();
        let mut b: usize = 0;
        while b < blocks.len()
            invariant
                b <= blocks.len(),
                row.len() == b,
                bv == blocks_view(blocks@),
                forall|c: int| 0 <= c < b ==> row[c]@ == widened_block(bv, c, v),
            decreases blocks.len() - b,
        {
            let len = blocks[b].len();
            let mut w: Vec<i64> = Vec::new();
            if b > 0 {
                push_all(&mut w, &blocks[b - 1]);
            } else {
                push_fill(&mut w, len, v);
            }
            push_all(&mut w, &blocks[b]);
            if b + 1 < blocks.len() {
                push_all(&mut w, &blocks[b + 1]);
            } else {
                push_fill(&mut w, len, v);
            }
            assert(w@ =~= widened_block(bv, b as int, v));
            row.push(w);
            b = b + 1;
        }
        r.push(row);
        a = a + 1;
    }
    r
}

} // verus!
