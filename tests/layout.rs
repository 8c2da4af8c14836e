use datasquare::datasquare::{Axis, DataSquare, Square};
use datasquare::error::Error;

fn shares(n: usize, size: usize) -> Vec<Vec<u8>> {
    (0..n).map(|i| vec![i as u8; size]).collect()
}

#[test]
fn square_new_starts_without_roots() {
    let sq = Square::new(vec![vec![vec![1u8, 2]]], Axis::Row);
    assert_eq!(sq.data, vec![vec![vec![1u8, 2]]]);
    assert!(sq.roots.is_empty());
    assert_eq!(sq.axis, Axis::Row);
}

#[test]
fn new_lays_out_rows_and_columns() {
    let ds = DataSquare::new(shares(9, 2), 2).unwrap();
    assert_eq!(ds.width, 3);
    assert_eq!(ds.share_size, 2);
    assert_eq!(ds.row_data.axis, Axis::Row);
    assert_eq!(ds.col_data.axis, Axis::Col);
    for r in 0..3 {
        for c in 0..3 {
            assert_eq!(ds.row_data.data[r][c], vec![(r * 3 + c) as u8; 2]);
            assert_eq!(ds.col_data.data[c][r], vec![(r * 3 + c) as u8; 2]);
        }
    }
}

#[test]
fn new_accepts_single_share() {
    let ds = DataSquare::new(vec![vec![7u8, 7, 7]], 3).unwrap();
    assert_eq!(ds.width, 1);
    assert_eq!(ds.row_data.data, vec![vec![vec![7u8, 7, 7]]]);
    assert_eq!(ds.col_data.data, vec![vec![vec![7u8, 7, 7]]]);
}

#[test]
fn new_rejects_non_square_count() {
    assert_eq!(DataSquare::new(shares(3, 2), 2).err(), Some(Error::Construction));
    assert_eq!(DataSquare::new(shares(8, 2), 2).err(), Some(Error::Construction));
    assert_eq!(DataSquare::new(shares(10, 2), 2).err(), Some(Error::Construction));
}

#[test]
fn new_rejects_share_of_wrong_size() {
    let mut data = shares(4, 2);
    data[3] = vec![1, 2, 3];
    assert_eq!(DataSquare::new(data, 2).err(), Some(Error::Construction));
}

#[test]
fn layout_round_trip_rows_and_columns() {
    let ds = DataSquare::new(shares(16, 1), 1).unwrap();
    let w = ds.width;
    for r in 0..w {
        for c in 0..w {
            assert_eq!(ds.row_data.data[r][c], ds.col_data.data[c][r]);
        }
    }
}

#[test]
fn extend_square_keeps_data_and_fills_rest() {
    let mut ds = DataSquare::new(shares(4, 2), 2).unwrap();
    let filler = vec![0xffu8; 2];
    ds.extend_square(2, filler.clone()).unwrap();
    assert_eq!(ds.width, 4);
    assert_eq!(ds.row_data.data.len(), 4);
    assert_eq!(ds.col_data.data.len(), 4);
    for r in 0..4 {
        for c in 0..4 {
            let expected = if r < 2 && c < 2 { vec![(r * 2 + c) as u8; 2] } else { filler.clone() };
            assert_eq!(ds.row_data.data[r][c], expected);
            assert_eq!(ds.col_data.data[c][r], expected);
        }
    }
}

#[test]
fn extend_square_by_zero_changes_nothing() {
    let mut ds = DataSquare::new(shares(4, 1), 1).unwrap();
    ds.extend_square(0, vec![9u8]).unwrap();
    assert_eq!(ds.width, 2);
    assert_eq!(ds.row_data.data, vec![vec![vec![0u8], vec![1u8]], vec![vec![2u8], vec![3u8]]]);
}

#[test]
fn extend_square_rejects_filler_of_wrong_size() {
    let mut ds = DataSquare::new(shares(4, 2), 2).unwrap();
    assert_eq!(ds.extend_square(1, vec![0u8; 3]).err(), Some(Error::Construction));
    assert_eq!(ds.width, 2);
    assert_eq!(ds.row_data.data.len(), 2);
}
