use immortal::nn::checks::{
    attention_mask_shape, crf_shapes, cross_attention_mask_shape, attention_shapes, conv_input_check, conv_weight_check, cross_attention_shapes, head_dim_of,
    recurrent_sizes, require_rank4, window_sizes,
};
use immortal::nn::error::NnError;
use immortal::nn::tensor::Shape;

fn mismatch(expected: &str, got: &str) -> NnError {
    NnError::ShapeMismatch { expected: expected.into(), got: got.into() }
}

#[test]
fn recurrent_sizes_of_gru_lstm_and_plain_cells() {
    // GRU: w_ih [3h, in], w_hh [3h, h].
    assert_eq!(recurrent_sizes(Shape::d2(6, 5), Shape::d2(6, 2), 6, 6, 3), Ok((5, 2)));
    // LSTM: four gates.
    assert_eq!(recurrent_sizes(Shape::d2(8, 3), Shape::d2(8, 2), 8, 8, 4), Ok((3, 2)));
    // Plain cell: one gate.
    assert_eq!(recurrent_sizes(Shape::d2(4, 7), Shape::d2(4, 4), 4, 4, 1), Ok((7, 4)));
}

#[test]
fn recurrent_sizes_errors() {
    assert_eq!(
        recurrent_sizes(Shape::d3(6, 5, 1), Shape::d2(6, 2), 6, 6, 3).unwrap_err(),
        mismatch("w_ih, w_hh: rank-2", "ranks 3/2")
    );
    assert_eq!(
        recurrent_sizes(Shape::d2(7, 5), Shape::d2(7, 2), 7, 7, 3).unwrap_err(),
        NnError::DivisibilityError {
            what: "w_ih row count / 3".into(),
            numerator: 7,
            denominator: 3
        }
    );
    assert_eq!(
        recurrent_sizes(Shape::d2(8, 3), Shape::d2(8, 3), 8, 8, 4).unwrap_err(),
        mismatch("w_hh [8, 2]", "[8, 3]")
    );
    assert_eq!(
        recurrent_sizes(Shape::d2(4, 7), Shape::d2(4, 4), 4, 3, 1).unwrap_err(),
        mismatch("b_ih/b_hh numel 4", "4 / 3")
    );
}

#[test]
fn multi_head_cross_attention_rejects_non_divisible_heads() {
    // d_model 4 over 3 heads.
    assert_eq!(
        head_dim_of(4, 3, "d_model % num_heads").unwrap_err(),
        NnError::DivisibilityError { what: "d_model % num_heads".into(), numerator: 4, denominator: 3 }
    );
    assert_eq!(head_dim_of(4, 2, "d_model % num_heads"), Ok(2));
    assert!(head_dim_of(4, 0, "embed_dim % num_heads").is_err());
}

#[test]
fn attention_shapes_accepts_equal_rank4() {
    let s = Shape::d4(1, 2, 3, 4);
    assert_eq!(attention_shapes(s, s, s), Ok(()));
}

#[test]
fn attention_shapes_errors() {
    let s = Shape::d4(1, 2, 3, 4);
    assert_eq!(
        attention_shapes(Shape::d3(1, 2, 3), s, s).unwrap_err(),
        mismatch("q: rank-4 [B,H,S,D]", "rank-3")
    );
    assert_eq!(
        attention_shapes(s, s, Shape::d2(1, 2)).unwrap_err(),
        mismatch("v: rank-4 [B,H,S,D]", "rank-2")
    );
    assert_eq!(
        attention_shapes(s, Shape::d4(1, 2, 5, 4), s).unwrap_err(),
        mismatch("Q.shape == K.shape == V.shape", "Q=[1, 2, 3, 4], K=[1, 2, 5, 4], V=[1, 2, 3, 4]")
    );
}

#[test]
fn cross_attention_rejects_batch_mismatch() {
    let q = Shape::d4(1, 1, 2, 2);
    let k = Shape::d4(2, 1, 2, 2);
    let v = Shape::d4(1, 1, 2, 2);
    assert_eq!(
        cross_attention_shapes(q, k, v).unwrap_err(),
        mismatch("K: [1, 1, *, 2]", "[2, 1, 2, 2]")
    );
}

#[test]
fn cross_attention_shapes_checks_values_and_ranks() {
    let q = Shape::d4(1, 2, 3, 4);
    let k = Shape::d4(1, 2, 5, 4);
    assert_eq!(cross_attention_shapes(q, k, k), Ok(()));
    assert_eq!(
        cross_attention_shapes(q, k, Shape::d4(1, 2, 6, 4)).unwrap_err(),
        mismatch("V: [1, 2, 5, 4]", "[1, 2, 6, 4]")
    );
    assert_eq!(
        cross_attention_shapes(q, Shape::d3(1, 2, 5), k).unwrap_err(),
        mismatch("k: rank-4 [B, H, S, D]", "rank-3")
    );
}

#[test]
fn conv_weight_check_cases() {
    let w = Shape::d4(8, 3, 3, 3);
    assert_eq!(conv_weight_check(w, Some(8), 3, 8, (3, 3), (1, 1)), Ok(()));
    assert_eq!(conv_weight_check(w, None, 3, 8, (3, 3), (2, 1)), Ok(()));
    assert_eq!(
        conv_weight_check(Shape::d2(8, 3), None, 3, 8, (3, 3), (1, 1)).unwrap_err(),
        mismatch("rank-4 [OutC, InC, Kh, Kw]", "rank-2")
    );
    assert_eq!(
        conv_weight_check(w, None, 3, 8, (3, 5), (1, 1)).unwrap_err(),
        mismatch("[8,3,3,5]", "[8, 3, 3, 3]")
    );
    assert_eq!(
        conv_weight_check(w, Some(4), 3, 8, (3, 3), (1, 1)).unwrap_err(),
        mismatch("bias numel 8", "bias numel 4")
    );
    assert_eq!(
        conv_weight_check(w, Some(8), 3, 8, (3, 3), (0, 1)).unwrap_err(),
        NnError::Format("Conv2d stride must be >= 1".into())
    );
}

#[test]
fn conv_input_and_window_sizes() {
    assert_eq!(conv_input_check(Shape::d4(1, 3, 8, 8), 3), Ok(()));
    assert_eq!(
        conv_input_check(Shape::d4(1, 2, 8, 8), 3).unwrap_err(),
        mismatch("InC=3", "InC=2")
    );
    assert_eq!(
        require_rank4(Shape::d3(1, 2, 3), "rank-4 [N, C, H, W]").unwrap_err(),
        mismatch("rank-4 [N, C, H, W]", "rank-3")
    );
    // (8 + 2 - 3) / 2 + 1 = 4 and (6 + 0 - 3) / 1 + 1 = 4.
    assert_eq!(window_sizes(8, 6, (3, 3), (2, 1), (1, 0), "Conv2d"), Ok((4, 4)));
    assert_eq!(
        window_sizes(2, 6, (3, 3), (1, 1), (0, 0), "pool2d").unwrap_err(),
        NnError::Format("pool2d: H_in=2 too small for kernel=3 padding=0".into())
    );
    assert_eq!(
        window_sizes(6, 1, (3, 4), (1, 1), (0, 1), "Conv2d").unwrap_err(),
        NnError::Format("Conv2d: W_in=1 too small for kernel=4 padding=1".into())
    );
}

#[test]
fn mask_shapes() {
    assert_eq!(attention_mask_shape(Shape::d2(2, 5), 2, 5), Ok(()));
    assert_eq!(
        attention_mask_shape(Shape::d2(2, 4), 2, 5).unwrap_err(),
        mismatch("mask [2,5]", "[2, 4]")
    );
    assert_eq!(cross_attention_mask_shape(Shape::d2(3, 4), 3, 4), Ok(()));
    assert_eq!(
        cross_attention_mask_shape(Shape::d3(1, 3, 4), 3, 4).unwrap_err(),
        mismatch("mask [3, 4]", "[1, 3, 4]")
    );
}

#[test]
fn crf_shape_checks() {
    assert_eq!(crf_shapes(Shape::d3(2, 7, 3), Shape::d2(3, 3), 3, 3), Ok((2, 7, 3)));
    assert_eq!(
        crf_shapes(Shape::d2(7, 3), Shape::d2(3, 3), 3, 3).unwrap_err(),
        mismatch("emissions rank-3 [B,S,T]", "rank-2")
    );
    assert_eq!(
        crf_shapes(Shape::d3(2, 7, 3), Shape::d2(3, 4), 3, 3).unwrap_err(),
        mismatch("transitions [3,3]", "[3, 4]")
    );
    assert_eq!(
        crf_shapes(Shape::d3(2, 7, 3), Shape::d2(3, 3), 3, 2).unwrap_err(),
        mismatch("start/end transitions length 3", "start=3, end=2")
    );
}
