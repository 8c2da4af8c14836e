use datasquare::error::{EncodeError, Error, Stage};
use datasquare::field::Felt;
use datasquare::repetition::RepetitionCode;
use datasquare::tree::{check_systematic, transpose, transpose_and_flatten, DataSquare, LinearCode};
use rs_merkle::algorithms::Sha256;
use rs_merkle::{Hasher, MerkleTree};
use sha2::Digest;

fn f(v: u128) -> Felt {
    Felt::new(v)
}

fn square(q1: Vec<Vec<Felt>>) -> DataSquare<RepetitionCode> {
    let w = q1.len();
    DataSquare::new(RepetitionCode::new(w), q1).unwrap()
}

fn leaf(x: Felt) -> [u8; 32] {
    Sha256::hash(&x.val.to_be_bytes())
}

fn expected_root(elems: &[Felt]) -> [u8; 32] {
    let leaves: Vec<[u8; 32]> = elems.iter().map(|e| leaf(*e)).collect();
    MerkleTree::<Sha256>::from_leaves(&leaves).root().unwrap()
}

fn expected_challenge(root: &[u8; 32], i: u64) -> Felt {
    let mut h = sha2::Sha256::new();
    h.update(root);
    h.update(i.to_be_bytes());
    let d = h.finalize();
    let mut b = [0u8; 16];
    b.copy_from_slice(&d[0..16]);
    Felt::new(u128::from_be_bytes(b))
}

#[test]
fn felt_encoding_is_big_endian() {
    let x = f(0x0102030405060708090a0b0c0d0e0f10);
    assert_eq!(x.to_be_bytes(), (1u8..=16).collect::<Vec<u8>>());
    assert_eq!(f(0).to_be_bytes(), vec![0u8; 16]);
}

#[test]
fn transpose_swaps_rows_and_columns() {
    let m = vec![vec![f(1), f(2), f(3)], vec![f(4), f(5), f(6)]];
    let t = transpose(&m);
    assert_eq!(t, vec![vec![f(1), f(4)], vec![f(2), f(5)], vec![f(3), f(6)]]);
    assert_eq!(transpose(&t), m);
    assert_eq!(transpose(&vec![]), Vec::<Vec<Felt>>::new());
}

#[test]
fn transpose_and_flatten_reads_row_after_row() {
    let m = vec![vec![f(1), f(2)], vec![f(3), f(4)]];
    assert_eq!(transpose_and_flatten(&m), vec![f(1), f(3), f(2), f(4)]);
}

#[test]
fn new_rejects_column_of_wrong_length() {
    let q1 = vec![vec![f(1), f(2)], vec![f(3)]];
    assert_eq!(DataSquare::new(RepetitionCode::new(2), q1).err(), Some(Error::Consistency { stage: Stage::Input, index: 1 }));
}

#[test]
fn encode_systematic_keeps_input_as_prefix() {
    let ds = DataSquare::new(RepetitionCode::new(3), vec![vec![f(5)]]).unwrap();
    let v = vec![f(1), f(2), f(3)];
    let c = ds.encode_systematic(&v, Stage::ThirdQuadrant, 0).unwrap();
    assert_eq!(c, vec![f(1), f(2), f(3), f(1), f(2), f(3)]);
}

#[test]
fn encode_systematic_reports_encoder_refusal() {
    let ds = DataSquare::new(RepetitionCode::new(3), vec![vec![f(5)]]).unwrap();
    let v = vec![f(1), f(2)];
    assert_eq!(
        ds.encode_systematic(&v, Stage::FourthQuadrant, 2).err(),
        Some(Error::Encoding {
            stage: Stage::FourthQuadrant,
            index: 2,
            cause: EncodeError::BadLength { found: 2 }
        })
    );
}

#[test]
fn repetition_code_repeats_and_refuses_other_lengths() {
    let code = RepetitionCode::new(2);
    assert_eq!(code.encode(&vec![f(4), f(9)]), Ok(vec![f(4), f(9), f(4), f(9)]));
    assert_eq!(code.encode(&vec![f(4)]), Err(EncodeError::BadLength { found: 1 }));
}

#[test]
fn repetition_code_multiplies_in_gf128() {
    let code = RepetitionCode::new(1);
    assert_eq!(code.mul(f(0x1234), f(1)), f(0x1234));
    assert_eq!(code.mul(f(1), f(0x1234)), f(0x1234));
    assert_eq!(code.mul(f(0x1234), f(0)), f(0));
    assert_eq!(code.mul(f(3), f(2)), f(6));
    assert_eq!(code.mul(f(3), f(3)), f(5));
    assert_eq!(code.mul(f(1u128 << 127), f(2)), f(0x87));
    assert_eq!(code.mul(f(7), f(11)), code.mul(f(11), f(7)));
}

#[test]
fn check_systematic_accepts_exactly_systematic_codewords() {
    let v = vec![f(1), f(2)];
    let good = vec![f(1), f(2), f(7), f(8)];
    assert_eq!(check_systematic(&v, good.clone(), Stage::ThirdQuadrant, 0), Ok(good));
    let bad_prefix = vec![f(1), f(3), f(7), f(8)];
    assert_eq!(
        check_systematic(&v, bad_prefix, Stage::ThirdQuadrant, 4),
        Err(Error::Consistency { stage: Stage::ThirdQuadrant, index: 4 })
    );
    let too_long = vec![f(1), f(2), f(7), f(8), f(9)];
    assert_eq!(
        check_systematic(&v, too_long, Stage::SecondQuadrant, 0),
        Err(Error::Consistency { stage: Stage::SecondQuadrant, index: 0 })
    );
    assert_eq!(check_systematic(&vec![], vec![], Stage::Input, 0), Ok(vec![]));
}

#[test]
fn create_q3_holds_extension_halves() {
    let q1 = vec![vec![f(1), f(2)], vec![f(3), f(4)]];
    let ds = square(q1.clone());
    assert_eq!(ds.create_q3().unwrap(), q1);
    let refusing = DataSquare::new(RepetitionCode::new(3), q1).unwrap();
    assert_eq!(
        refusing.create_q3().err(),
        Some(Error::Encoding {
            stage: Stage::ThirdQuadrant,
            index: 0,
            cause: EncodeError::BadLength { found: 2 }
        })
    );
}

#[test]
fn create_tree_matches_hash_tree_over_element_leaves() {
    let ds = square(vec![vec![f(1)]]);
    let a = vec![vec![f(1), f(2)], vec![f(3), f(4)]];
    let b = vec![vec![f(5)]];
    let root = ds.create_tree(&vec![a, b]).unwrap().root().unwrap();
    assert_eq!(root, expected_root(&[f(1), f(2), f(3), f(4), f(5)]));
    assert_ne!(root, expected_root(&[f(1), f(2), f(3), f(4)]));
}

#[test]
fn create_tree_refuses_empty_leaf_set() {
    let ds = square(vec![vec![f(1)]]);
    assert_eq!(ds.create_tree(&vec![]).err(), Some(Error::Commitment));
    assert_eq!(ds.create_tree(&vec![vec![], vec![vec![]]]).err(), Some(Error::Commitment));
}

#[test]
fn create_dr_truncates_hash_of_root_and_index() {
    let ds = square(vec![vec![f(1), f(2), f(3)]; 3]);
    let root = [7u8; 32];
    let dr = ds.create_dr(&root);
    assert_eq!(dr.len(), 3);
    for i in 0..3 {
        assert_eq!(dr[i], expected_challenge(&root, i as u64));
    }
    assert_ne!(dr[0], dr[1]);
    assert_ne!(ds.create_dr(&[8u8; 32])[0], dr[0]);
}

#[test]
fn multiply_dr_scales_each_column_by_its_scalar() {
    let ds = square(vec![vec![f(1)]]);
    let mut m = vec![vec![f(1), f(2)], vec![f(3), f(1u128 << 127)]];
    ds.multiply_dr(&mut m, &vec![f(1), f(2)]);
    assert_eq!(m, vec![vec![f(1), f(2)], vec![f(6), f(0x87)]]);
}

#[test]
fn multiply_dr_by_ones_changes_nothing() {
    let ds = square(vec![vec![f(1)]]);
    let original = vec![vec![f(9), f(8)], vec![f(7), f(6)]];
    let mut m = original.clone();
    ds.multiply_dr(&mut m, &vec![f(1), f(1)]);
    assert_eq!(m, original);
}

#[test]
fn end_to_end_width_two_with_doubling_code() {
    let (a, b, c, d) = (f(11), f(22), f(33), f(44));
    let q1 = vec![vec![a, b], vec![c, d]];
    let ds = square(q1.clone());
    let eds = ds.extend().unwrap();

    let root1 = expected_root(&[a, c, b, d, a, c, b, d]);
    assert_eq!(eds.x_root(), root1);
    assert_eq!(eds.x_tree().root(), Some(root1));
    assert_eq!(eds.dr(), &vec![expected_challenge(&root1, 0), expected_challenge(&root1, 1)]);

    let cols = eds.cols();
    assert_eq!(cols.len(), 4);
    for col in cols.iter() {
        assert_eq!(col.len(), 4);
    }
    assert_eq!(&cols[0][..2], &[a, b]);
    assert_eq!(&cols[1][..2], &[c, d]);
    assert_eq!(&cols[0][2..], &[a, b]);
    assert_eq!(&cols[1][2..], &[c, d]);
    assert_eq!(eds.rows(), &transpose(cols));
}

#[test]
fn end_to_end_second_root_commits_to_recombined_quadrants() {
    let q1 = vec![vec![f(1), f(2)], vec![f(3), f(4)]];
    let ds = square(q1.clone());
    let eds = ds.extend().unwrap();
    let dr = eds.dr().clone();
    let mut scaled = q1.clone();
    ds.multiply_dr(&mut scaled, &dr);
    // Under the repetition code each right quadrant repeats its scaled left one.
    let rows = transpose(&scaled);
    let mut elems: Vec<Felt> = Vec::new();
    for m in [&scaled, &rows, &scaled, &rows] {
        for col in m.iter() {
            elems.extend_from_slice(col);
        }
    }
    assert_eq!(eds.z_root(), expected_root(&elems));
    assert_eq!(eds.z_tree().root(), Some(expected_root(&elems)));
    assert_eq!(&eds.cols()[2][..2], &scaled[0][..]);
    assert_eq!(&eds.cols()[3][2..], &scaled[1][..]);
}

#[test]
fn empty_square_fails_with_commitment_error() {
    let ds = square(vec![]);
    assert_eq!(ds.width(), 0);
    assert_eq!(ds.extend().err(), Some(Error::Commitment));
}

#[test]
fn two_runs_give_identical_output() {
    let q1 = vec![vec![f(9), f(8), f(7)], vec![f(6), f(5), f(4)], vec![f(3), f(2), f(1)]];
    let e1 = square(q1.clone()).extend().unwrap();
    let e2 = square(q1).extend().unwrap();
    assert_eq!(e1.x_root(), e2.x_root());
    assert_eq!(e1.z_root(), e2.z_root());
    assert_eq!(e1.dr(), e2.dr());
    assert_eq!(e1.cols(), e2.cols());
    assert_eq!(e1.rows(), e2.rows());
}

#[test]
fn changing_one_element_changes_root_and_challenges() {
    let q1 = vec![vec![f(1), f(2)], vec![f(3), f(4)]];
    let mut q1b = q1.clone();
    q1b[1][0] = f(5);
    let e1 = square(q1).extend().unwrap();
    let e2 = square(q1b).extend().unwrap();
    assert_ne!(e1.x_root(), e2.x_root());
    assert_ne!(e1.dr()[0], e2.dr()[0]);
    assert_ne!(e1.dr()[1], e2.dr()[1]);
}

#[test]
fn extension_sizes_double() {
    let q1 = vec![vec![f(1), f(2), f(3)]; 3];
    let eds = square(q1).extend().unwrap();
    assert_eq!(eds.cols().len(), 6);
    assert!(eds.cols().iter().all(|c| c.len() == 6));
    assert_eq!(eds.rows().len(), 6);
    assert!(eds.rows().iter().all(|r| r.len() == 6));
    assert_eq!(eds.dr().len(), 3);
}

#[test]
fn extend_propagates_encoder_failures() {
    let q1 = vec![vec![f(1), f(2)], vec![f(3), f(4)]];
    assert_eq!(
        DataSquare::new(RepetitionCode::new(3), q1).unwrap().extend().err(),
        Some(Error::Encoding {
            stage: Stage::ThirdQuadrant,
            index: 0,
            cause: EncodeError::BadLength { found: 2 }
        })
    );
}
