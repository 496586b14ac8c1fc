use longt5_masks::blocks::{concatenate_3_blocks, pad_to_multiple, split_into_blocks};
use longt5_masks::global::make_global_fixed_block_ids;
use longt5_masks::local::{
    get_local_attention_mask, make_3blocks_relative_position_ids, mask_local_attention_mask,
};

#[test]
fn pad_appends_value_up_to_multiple() {
    let x = vec![vec![1, 2, 3], vec![4, 5, 6]];
    assert_eq!(pad_to_multiple(&x, 2, 9), vec![vec![1, 2, 3, 9], vec![4, 5, 6, 9]]);
    assert_eq!(pad_to_multiple(&x, 5, -1), vec![vec![1, 2, 3, -1, -1], vec![4, 5, 6, -1, -1]]);
}

#[test]
fn pad_leaves_multiple_unchanged() {
    let x = vec![vec![1, 2, 3, 4]];
    assert_eq!(pad_to_multiple(&x, 2, 7), x);
    assert_eq!(pad_to_multiple(&x, 1, 7), x);
}

#[test]
fn pad_of_empty_shapes() {
    let empty_batch: Vec<Vec<i64>> = vec![];
    assert_eq!(pad_to_multiple(&empty_batch, 3, 1), empty_batch);
    let empty_row: Vec<Vec<i64>> = vec![vec![]];
    assert_eq!(pad_to_multiple(&empty_row, 3, 1), empty_row);
}

#[test]
fn pad_twice_is_pad_once() {
    let x = vec![vec![1, 0, 1, 1, 0]];
    let once = pad_to_multiple(&x, 4, 5);
    assert_eq!(once, vec![vec![1, 0, 1, 1, 0, 5, 5, 5]]);
    assert_eq!(pad_to_multiple(&once, 4, 5), once);
}

#[test]
fn split_counts_blocks_by_ceiling() {
    let x = vec![vec![1, 2, 3, 4, 5, 6, 7]];
    let blocks = split_into_blocks(&x, 3);
    assert_eq!(blocks, vec![vec![vec![1, 2, 3], vec![4, 5, 6], vec![7, 0, 0]]]);
    assert!(blocks[0].len() * 3 >= 7);
    let exact = split_into_blocks(&vec![vec![1, 2, 3, 4, 5, 6]], 2);
    assert_eq!(exact, vec![vec![vec![1, 2], vec![3, 4], vec![5, 6]]]);
}

#[test]
fn split_of_empty_row_has_no_blocks() {
    let blocks = split_into_blocks(&vec![vec![], vec![]], 4);
    assert_eq!(blocks, vec![Vec::<Vec<i64>>::new(), Vec::new()]);
    let none: Vec<Vec<i64>> = vec![];
    assert!(split_into_blocks(&none, 4).is_empty());
}

#[test]
fn widen_joins_neighbours_with_zero_fill() {
    let x = vec![vec![vec![1, 2], vec![3, 4], vec![5, 6]]];
    let w = concatenate_3_blocks(&x, None);
    assert_eq!(
        w,
        vec![vec![
            vec![0, 0, 1, 2, 3, 4],
            vec![1, 2, 3, 4, 5, 6],
            vec![3, 4, 5, 6, 0, 0],
        ]]
    );
}

#[test]
fn widen_uses_given_fill() {
    let x = vec![vec![vec![1, 2]], vec![vec![3, 4]]];
    let w = concatenate_3_blocks(&x, Some(7));
    assert_eq!(w, vec![vec![vec![7, 7, 1, 2, 7, 7]], vec![vec![7, 7, 3, 4, 7, 7]]]);
}

#[test]
fn relative_positions_grid() {
    let g = make_3blocks_relative_position_ids(2);
    assert_eq!(g, vec![vec![-2, -1, 0, 1, 2, 3], vec![-3, -2, -1, 0, 1, 2]]);
}

#[test]
fn relative_position_to_self_is_zero() {
    for l in 1..6usize {
        let g = make_3blocks_relative_position_ids(l);
        for i in 0..l {
            assert_eq!(g[i][l + i], 0);
        }
    }
}

#[test]
fn locality_masks_far_corners() {
    let m = vec![vec![vec![vec![true; 6]; 2]; 1]; 1];
    let r = mask_local_attention_mask(&m, 2);
    assert_eq!(
        r,
        vec![vec![vec![
            vec![false, true, true, true, false, false],
            vec![false, false, true, true, true, false],
        ]]]
    );
    let off = vec![vec![vec![vec![false; 6]; 2]; 1]; 1];
    assert_eq!(mask_local_attention_mask(&off, 2), off);
}

#[test]
fn full_row_local_mask() {
    let validity = vec![vec![1i64, 1, 1, 1, 1, 1]];
    let blocked = split_into_blocks(&validity, 2);
    assert_eq!(blocked[0].len(), 3);
    let widened = concatenate_3_blocks(&blocked, None);
    assert_eq!(widened.len(), 1);
    assert_eq!(widened[0].len(), 3);
    assert!(widened[0].iter().all(|b| b.len() == 6));

    let mask = get_local_attention_mask(&validity, 2);
    assert_eq!(mask.len(), 1);
    assert_eq!(mask[0].len(), 1);
    assert_eq!(mask[0][0].len(), 3);
    // block 0, query 0 (position 0): key j stands for position j - 2
    assert_eq!(mask[0][0][0][0], vec![false, false, true, true, false, false]);
    // block 1, query 0 (position 2) reaches positions 1, 2, 3
    assert_eq!(mask[0][0][1][0], vec![false, true, true, true, false, false]);
    // last block, query 1 (position 5): positions 4, 5 and no padding beyond
    assert_eq!(mask[0][0][2][1], vec![false, false, true, true, false, false]);
}

#[test]
fn local_mask_entries_are_local() {
    let validity = vec![vec![1i64, 1, 0, 1, 1, 1, 1], vec![1, 1, 1, 1, 1, 1, 1]];
    let l = 3usize;
    let mask = get_local_attention_mask(&validity, l);
    let grid = make_3blocks_relative_position_ids(l);
    for row in &mask {
        for (b, block) in row[0].iter().enumerate() {
            for i in 0..l {
                for j in 0..3 * l {
                    if block[i][j] {
                        assert!(grid[i][j].abs() < l as i64);
                        let q = (b * l + i) as i64;
                        let k = (b * l + j) as i64 - l as i64;
                        assert!(q >= 0 && q < 7 && k >= 0 && k < 7);
                    }
                }
            }
        }
    }
    // position 2 is padding: nothing attends to it, and it attends to nothing
    assert!(mask[0][0][0][2].iter().all(|&v| !v));
    // block 1, query 0 (position 3): key 2 stands for position 2
    assert!(!mask[0][0][1][0][2]);
}

#[test]
fn short_sequence_is_padded_invalid() {
    let mask = get_local_attention_mask(&vec![vec![1i64]], 3);
    assert_eq!(mask[0][0].len(), 1);
    let mut expected = vec![vec![false; 9]; 3];
    expected[0][3] = true;
    assert_eq!(mask[0][0][0], expected);
}

#[test]
fn orphan_tokens_join_last_block() {
    let (ids, segments) = make_global_fixed_block_ids(&vec![vec![1i64; 5]], 2);
    assert_eq!(ids, vec![vec![0, 0, 1, 1, 1]]);
    assert_eq!(segments, vec![vec![true, true]]);
}

#[test]
fn trailing_padding_ids() {
    let (ids, segments) = make_global_fixed_block_ids(&vec![vec![1i64, 1, 0, 0]], 2);
    assert_eq!(ids, vec![vec![0, 0, -1, -1]]);
    assert_eq!(segments, vec![vec![true, false]]);
}

#[test]
fn interior_padding_takes_no_slot() {
    let (ids, segments) = make_global_fixed_block_ids(&vec![vec![1i64, 0, 1, 1]], 2);
    assert_eq!(ids, vec![vec![0, -1, 0, 0]]);
    assert_eq!(segments, vec![vec![true, false]]);
}

#[test]
fn three_tokens_make_one_block() {
    let (ids, segments) = make_global_fixed_block_ids(&vec![vec![1i64, 1, 1]], 2);
    assert_eq!(ids, vec![vec![0, 0, 0]]);
    assert_eq!(segments, vec![vec![true]]);
}

#[test]
fn row_shorter_than_global_block() {
    let (ids, segments) = make_global_fixed_block_ids(&vec![vec![1i64]], 2);
    assert_eq!(ids, vec![vec![-1]]);
    assert_eq!(segments, vec![Vec::<bool>::new()]);
}

#[test]
fn global_ids_stay_in_range() {
    let x = vec![vec![1i64, 1, 1, 0, 1, 1, 1, 1, 1, 0, 1]];
    let g = 3usize;
    let (ids, _) = make_global_fixed_block_ids(&x, g);
    let num_globals = (x[0].len() / g) as i64;
    let mut last = -1;
    for (p, &id) in ids[0].iter().enumerate() {
        assert!(id >= -1 && id < num_globals);
        if x[0][p] != 0 {
            assert!(id >= last);
            last = id;
        } else {
            assert_eq!(id, -1);
        }
    }
    assert_eq!(ids, vec![vec![0, 0, 0, -1, 1, 1, 1, 2, 2, -1, 2]]);
}

#[test]
fn batch_rows_are_independent() {
    let x = vec![vec![1i64, 1, 1, 1, 1], vec![1, 1, 0, 0, 0]];
    let mask = get_local_attention_mask(&x, 2);
    let (ids, segments) = make_global_fixed_block_ids(&x, 2);
    for r in 0..2 {
        let single = vec![x[r].clone()];
        assert_eq!(mask[r], get_local_attention_mask(&single, 2)[0]);
        let (single_ids, single_segments) = make_global_fixed_block_ids(&single, 2);
        assert_eq!(ids[r], single_ids[0]);
        assert_eq!(segments[r], single_segments[0]);
    }
    assert_eq!(ids, vec![vec![0, 0, 1, 1, 1], vec![0, 0, -1, -1, -1]]);
    assert_eq!(segments, vec![vec![true, true], vec![true, false]]);
}

#[test]
fn all_padding_gives_empty_results() {
    let x = vec![vec![0i64; 7], vec![0i64; 7]];
    let mask = get_local_attention_mask(&x, 3);
    assert_eq!(mask.len(), 2);
    for row in &mask {
        assert_eq!(row[0].len(), 3);
        assert!(row[0].iter().flatten().flatten().all(|&v| !v));
    }
    let (ids, segments) = make_global_fixed_block_ids(&x, 3);
    assert_eq!(ids, vec![vec![-1i64; 7]; 2]);
    assert_eq!(segments, vec![vec![false, false]; 2]);
}

#[test]
fn empty_batch_and_empty_rows() {
    let none: Vec<Vec<i64>> = vec![];
    assert!(get_local_attention_mask(&none, 2).is_empty());
    let (ids, segments) = make_global_fixed_block_ids(&none, 2);
    assert!(ids.is_empty() && segments.is_empty());
    let rows = vec![vec![], vec![]];
    let mask = get_local_attention_mask(&rows, 2);
    assert_eq!(mask, vec![vec![Vec::<Vec<Vec<bool>>>::new()]; 2]);
    let (ids, segments) = make_global_fixed_block_ids(&rows, 2);
    assert_eq!(ids, vec![Vec::<i64>::new(); 2]);
    assert_eq!(segments, vec![Vec::<bool>::new(); 2]);
}

#[test]
fn block_length_one() {
    let mask = get_local_attention_mask(&vec![vec![1i64, 0, 1]], 1);
    assert_eq!(mask[0][0], vec![vec![vec![false, true, false]], vec![vec![false; 3]], vec![vec![false, true, false]]]);
}
