use immortal::nn::error::NnError;
use immortal::nn::layout::{
    cls_rows, concat_parts, embedding_rows, split_parts, swap_middle, transpose_last_two,
};
use immortal::nn::tensor::Shape;

#[test]
fn concat_along_axis1() {
    let a = [1., 2., 3., 4.];
    let b = [5., 6., 7., 8., 9., 10.];
    let (data, shape) =
        concat_parts::<f32>(&[&a, &b], &[Shape::d2(2, 2), Shape::d2(2, 3)], 1).unwrap();
    assert_eq!(shape.dims(), &[2, 5]);
    assert_eq!(data, vec![1., 2., 5., 6., 7., 3., 4., 8., 9., 10.]);
}

#[test]
fn split_axis1_two_chunks() {
    let t = [1., 2., 3., 4., 5., 6., 7., 8.];
    let chunks = split_parts::<f32>(&t, Shape::d2(2, 4), 1, 2).unwrap();
    assert_eq!(chunks.len(), 2);
    assert_eq!(chunks[0].0, vec![1., 2., 5., 6.]);
    assert_eq!(chunks[1].0, vec![3., 4., 7., 8.]);
}

#[test]
fn split_rejects_indivisible() {
    let t = [0.0f32; 10];
    assert!(split_parts(&t, Shape::d2(2, 5), 1, 2).is_err());
}

#[test]
fn concat_along_axis0_appends_rows() {
    let a = [1u32, 2, 3];
    let b = [4u32, 5, 6, 7, 8, 9];
    let (data, shape) = concat_parts(&[&a, &b], &[Shape::d2(1, 3), Shape::d2(2, 3)], 0).unwrap();
    assert_eq!(shape.dims(), &[3, 3]);
    assert_eq!(data, vec![1, 2, 3, 4, 5, 6, 7, 8, 9]);
}

#[test]
fn concat_rank3_middle_axis() {
    // [2, 1, 2] and [2, 2, 2] along axis 1.
    let a = [1u8, 2, 3, 4];
    let b = [10u8, 11, 12, 13, 14, 15, 16, 17];
    let (data, shape) =
        concat_parts(&[&a, &b], &[Shape::d3(2, 1, 2), Shape::d3(2, 2, 2)], 1).unwrap();
    assert_eq!(shape.dims(), &[2, 3, 2]);
    assert_eq!(data, vec![1, 2, 10, 11, 12, 13, 3, 4, 14, 15, 16, 17]);
}

#[test]
fn concat_rejects_empty_list() {
    let err = concat_parts::<u8>(&[], &[], 0).unwrap_err();
    assert_eq!(
        err,
        NnError::ShapeMismatch { expected: "non-empty tensor list".into(), got: "empty".into() }
    );
}

#[test]
fn concat_rejects_bad_axis() {
    let a = [1u8, 2, 3, 4];
    let err = concat_parts(&[&a], &[Shape::d2(2, 2)], 2).unwrap_err();
    assert_eq!(err, NnError::InvalidAxis { axis: 2, ndim: 2 });
}

#[test]
fn concat_rejects_rank_mismatch() {
    let a = [1u8, 2, 3, 4];
    let b = [1u8, 2, 3, 4];
    let err = concat_parts(&[&a, &b], &[Shape::d2(2, 2), Shape::d3(1, 2, 2)], 0).unwrap_err();
    assert_eq!(err, NnError::ShapeMismatch { expected: "rank 2".into(), got: "rank 3".into() });
}

#[test]
fn concat_rejects_off_axis_mismatch() {
    let a = [1u8, 2, 3, 4];
    let b = [1u8, 2, 3];
    let err = concat_parts(&[&a, &b], &[Shape::d2(2, 2), Shape::d2(1, 3)], 0).unwrap_err();
    assert_eq!(err, NnError::ShapeMismatch { expected: "dim 1 = 2".into(), got: "dim 1 = 3".into() });
}

#[test]
fn split_rejects_bad_axis() {
    let t = [0u8; 4];
    let err = split_parts(&t, Shape::d2(2, 2), 3, 1).unwrap_err();
    assert_eq!(err, NnError::InvalidAxis { axis: 3, ndim: 2 });
}

#[test]
fn split_reports_divisibility() {
    let t = [0u8; 10];
    let err = split_parts(&t, Shape::d2(2, 5), 1, 2).unwrap_err();
    assert_eq!(
        err,
        NnError::DivisibilityError { what: "split axis 1".into(), numerator: 5, denominator: 2 }
    );
    let err = split_parts(&t, Shape::d2(2, 5), 0, 0).unwrap_err();
    assert_eq!(
        err,
        NnError::DivisibilityError { what: "split axis 0".into(), numerator: 2, denominator: 0 }
    );
}

#[test]
fn split_pieces_have_chunk_shape() {
    let t: Vec<u16> = (0..24).collect();
    let pieces = split_parts(&t, Shape::d3(2, 6, 2), 1, 3).unwrap();
    assert_eq!(pieces.len(), 3);
    for (_, s) in &pieces {
        assert_eq!(s.dims(), &[2, 2, 2]);
    }
    assert_eq!(pieces[1].0, vec![4, 5, 6, 7, 16, 17, 18, 19]);
}

#[test]
fn concat_undoes_split() {
    let t: Vec<u16> = (0..24).collect();
    let pieces = split_parts(&t, Shape::d3(2, 6, 2), 1, 3).unwrap();
    let datas: Vec<&[u16]> = pieces.iter().map(|(d, _)| d.as_slice()).collect();
    let shapes: Vec<Shape> = pieces.iter().map(|(_, s)| *s).collect();
    let (data, shape) = concat_parts(&datas, &shapes, 1).unwrap();
    assert_eq!(shape.dims(), &[2, 6, 2]);
    assert_eq!(data, t);
}

#[test]
fn embedding_lookup_basic() {
    let table = [0., 0., 1., 1., 2., 2., 3., 3.];
    let (data, shape) = embedding_rows::<f32>(&table, Shape::d2(4, 2), &[2, 0, 3]).unwrap();
    assert_eq!(data, vec![2., 2., 0., 0., 3., 3.]);
    assert_eq!(shape.dims(), &[3, 2]);
}

#[test]
fn embedding_lookup_oov_errors() {
    let table = [0.0f32; 8];
    assert!(embedding_rows(&table, Shape::d2(4, 2), &[5]).is_err());
}

#[test]
fn embedding_forward_basic() {
    let table = [0., 0., 1., 1., 2., 2.];
    let (data, _) = embedding_rows::<f32>(&table, Shape::d2(3, 2), &[2, 0]).unwrap();
    assert_eq!(data, vec![2., 2., 0., 0.]);
}

#[test]
fn embedding_rows_report_first_bad_id() {
    let table = [0u8; 8];
    let err = embedding_rows(&table, Shape::d2(4, 2), &[1, 7, 9]).unwrap_err();
    assert_eq!(
        err,
        NnError::ShapeMismatch { expected: "token id < 4".into(), got: "token id = 7".into() }
    );
    let err = embedding_rows(&table, Shape::d4(1, 2, 2, 2), &[0]).unwrap_err();
    assert_eq!(
        err,
        NnError::ShapeMismatch { expected: "rank-2 embedding table".into(), got: "rank-4".into() }
    );
}

#[test]
fn cls_pool_takes_position_zero() {
    let t = [1., 2., 3., 99., 99., 99.];
    let (data, shape) = cls_rows::<f32>(&t, Shape::d3(1, 2, 3)).unwrap();
    assert_eq!(data, vec![1., 2., 3.]);
    assert_eq!(shape.dims(), &[1, 3]);
}

#[test]
fn cls_rows_per_batch_and_rank_check() {
    let t: Vec<u8> = (0..12).collect();
    let (data, shape) = cls_rows(&t, Shape::d3(2, 3, 2)).unwrap();
    assert_eq!(data, vec![0, 1, 6, 7]);
    assert_eq!(shape.dims(), &[2, 2]);
    assert_eq!(cls_rows(&t, Shape::d2(3, 4)).unwrap_err(), NnError::UnsupportedRank { rank: 2 });
}

#[test]
fn transpose_last_two_rank3_and_rank4() {
    // [1, 2, 3] -> [1, 3, 2]
    let t = [1u8, 2, 3, 4, 5, 6];
    let (data, shape) = transpose_last_two(&t, Shape::d3(1, 2, 3)).unwrap();
    assert_eq!(shape.dims(), &[1, 3, 2]);
    assert_eq!(data, vec![1, 4, 2, 5, 3, 6]);
    // [2, 1, 2, 2] -> [2, 1, 2, 2] with each 2x2 block transposed
    let t = [1u8, 2, 3, 4, 5, 6, 7, 8];
    let (data, shape) = transpose_last_two(&t, Shape::d4(2, 1, 2, 2)).unwrap();
    assert_eq!(shape.dims(), &[2, 1, 2, 2]);
    assert_eq!(data, vec![1, 3, 2, 4, 5, 7, 6, 8]);
    assert_eq!(
        transpose_last_two(&t, Shape::d2(2, 4)).unwrap_err(),
        NnError::UnsupportedRank { rank: 2 }
    );
}

#[test]
fn swap_middle_moves_whole_runs() {
    // [1, 2, 3, 2] -> [1, 3, 2, 2]
    let t: Vec<u16> = (0..12).collect();
    let out = swap_middle(&t, 1, 2, 3, 2);
    assert_eq!(out, vec![0, 1, 6, 7, 2, 3, 8, 9, 4, 5, 10, 11]);
    // Swapping back restores the data.
    assert_eq!(swap_middle(&out, 1, 3, 2, 2), t);
}
