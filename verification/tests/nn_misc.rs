use immortal::nn::blocks::Activation;
use immortal::nn::error::NnError;
use immortal::nn::heads::parse_json_string_array;
use immortal::nn::pooling::{check_hw, out_size, AvgPool2d, MaxPool2d};
use immortal::nn::tensor::Shape;
use immortal::nn::xlm_roberta::{
    build_keep_mask, is_special_token, position_ids_from_input, validate_input_len,
};

#[test]
fn parse_json_string_array_basic() {
    let labels = parse_json_string_array(r#"["O","B-PER","I-PER","B-LOC"]"#).unwrap();
    assert_eq!(labels, vec!["O", "B-PER", "I-PER", "B-LOC"]);
}

#[test]
fn parse_json_string_array_empty() {
    assert!(parse_json_string_array("[]").unwrap().is_empty());
}

#[test]
fn parse_json_string_array_tolerates_whitespace() {
    let labels = parse_json_string_array("  [ \"a\" ,\n \"b c\" ]\t").unwrap();
    assert_eq!(labels, vec!["a", "b c"]);
    assert!(parse_json_string_array(" [  ] ").unwrap().is_empty());
}

#[test]
fn parse_json_string_array_errors() {
    match parse_json_string_array("{\"a\"}") {
        Err(NnError::Format(m)) => assert_eq!(m, "labels must be a JSON array"),
        other => panic!("unexpected: {other:?}"),
    }
    match parse_json_string_array("[\"a\", b]") {
        Err(NnError::Format(m)) => assert_eq!(m, "expected '\"' in label array, got Some('b')"),
        other => panic!("unexpected: {other:?}"),
    }
    match parse_json_string_array("[\"abc]") {
        Err(NnError::Format(m)) => assert_eq!(m, "unterminated label string"),
        other => panic!("unexpected: {other:?}"),
    }
}

#[test]
fn activation_from_str() {
    assert_eq!(Activation::from_str("gelu").unwrap(), Activation::GeluTanh);
    assert_eq!(
        Activation::from_str("gelu_tanh").unwrap(),
        Activation::GeluTanh
    );
    assert_eq!(Activation::from_str("relu").unwrap(), Activation::Relu);
    assert!(Activation::from_str("swish").is_err());
}

#[test]
fn activation_unknown_message() {
    assert_eq!(
        Activation::from_str("gelu_new").unwrap(),
        Activation::GeluTanh
    );
    match Activation::from_str("swish") {
        Err(NnError::Format(m)) => assert_eq!(m, "unknown activation: \"swish\""),
        other => panic!("unexpected: {other:?}"),
    }
}

#[test]
fn shape_new_validates_rank() {
    assert!(Shape::new([2, 3, 1, 1], 1).is_err());
    assert!(Shape::new([2, 3, 1, 1], 5).is_err());
    assert!(Shape::new([2, 3, 1, 1], 2).is_ok());
}

#[test]
fn shape_new_rejects_zero_active_dim() {
    assert!(Shape::new([0, 3, 1, 1], 2).is_err());
}

#[test]
fn shape_new_rejects_nonunit_inactive_dim() {
    assert!(Shape::new([2, 3, 4, 1], 2).is_err());
}

#[test]
fn shape_strides_row_major() {
    let s = Shape::d3(2, 3, 4);
    let st = s.strides();
    assert_eq!(&st[..3], &[12, 4, 1]);
}

#[test]
fn shape_error_messages() {
    match Shape::new([2, 3, 1, 1], 1) {
        Err(NnError::UnsupportedRank { rank }) => assert_eq!(rank, 1),
        other => panic!("unexpected: {other:?}"),
    }
    match Shape::new([2, 0, 1, 1], 2) {
        Err(NnError::Format(m)) => assert_eq!(m, "shape dim 1 is zero"),
        other => panic!("unexpected: {other:?}"),
    }
    match Shape::new([2, 3, 4, 1], 2) {
        Err(NnError::Format(m)) => assert_eq!(m, "inactive shape dim 2 must be 1, got 4"),
        other => panic!("unexpected: {other:?}"),
    }
}

#[test]
fn shape_accessors() {
    let s = Shape::d4(2, 3, 4, 5);
    assert_eq!(s.ndim(), 4);
    assert_eq!(s.dims(), &[2, 3, 4, 5]);
    assert_eq!(s.numel(), 120);
    assert_eq!(s.strides(), [60, 20, 5, 1]);
    let t = Shape::d2(7, 9);
    assert_eq!(t.dims(), &[7, 9]);
    assert_eq!(t.numel(), 63);
    assert_eq!(t.strides(), [9, 1, 1, 1]);
}

#[test]
fn pooling_constructors_check_parameters() {
    let p = MaxPool2d::new((2, 2), (2, 1), (0, 1)).expect("valid");
    assert_eq!(p.kernel(), (2, 2));
    assert_eq!(p.stride(), (2, 1));
    assert_eq!(p.padding(), (0, 1));
    match MaxPool2d::new((0, 2), (1, 1), (0, 0)) {
        Err(NnError::Format(m)) => assert_eq!(m, "MaxPool2d: kernel must be >= 1"),
        other => panic!("unexpected: {other:?}"),
    }
    match AvgPool2d::new((2, 2), (1, 0), (0, 0)) {
        Err(NnError::Format(m)) => assert_eq!(m, "AvgPool2d: stride must be >= 1"),
        other => panic!("unexpected: {other:?}"),
    }
    let a = AvgPool2d::new((3, 1), (1, 1), (1, 0)).expect("valid");
    assert_eq!(a.kernel(), (3, 1));
    assert!(check_hw("x", (1, 1), (1, 1)).is_ok());
}

#[test]
fn pooling_output_size() {
    assert_eq!(out_size(4, 0, 2, 2), Some(2));
    assert_eq!(out_size(5, 1, 3, 2), Some(3));
    assert_eq!(out_size(1, 0, 3, 1), None);
    assert_eq!(out_size(usize::MAX, 1, 1, 1), None);
}

#[test]
fn xlm_input_length_checks() {
    assert!(validate_input_len(8, 3).is_ok());
    match validate_input_len(8, 0) {
        Err(NnError::ShapeMismatch { expected, got }) => {
            assert_eq!(expected, "non-empty token sequence");
            assert_eq!(got, "empty token sequence");
        }
        other => panic!("unexpected: {other:?}"),
    }
    match validate_input_len(8, 9) {
        Err(NnError::ShapeMismatch { expected, got }) => {
            assert_eq!(expected, "sequence length <= 8");
            assert_eq!(got, "sequence length = 9");
        }
        other => panic!("unexpected: {other:?}"),
    }
}

#[test]
fn xlm_keep_mask() {
    assert_eq!(
        build_keep_mask(&[0, 5, 1, 1], None, 1).unwrap(),
        vec![true, true, false, false]
    );
    assert_eq!(
        build_keep_mask(&[0, 5, 1], Some(&[1, 0, 7]), 1).unwrap(),
        vec![true, false, true]
    );
    match build_keep_mask(&[0, 5, 1], Some(&[1, 0]), 1) {
        Err(NnError::ShapeMismatch { expected, got }) => {
            assert_eq!(expected, "attention_mask length 3");
            assert_eq!(got, "attention_mask length 2");
        }
        other => panic!("unexpected: {other:?}"),
    }
}

#[test]
fn xlm_special_tokens_and_positions() {
    assert!(is_special_token(1, 1));
    assert!(is_special_token(0, 1));
    assert!(is_special_token(2, 1));
    assert!(!is_special_token(5, 1));
    assert_eq!(position_ids_from_input(&[0, 7, 8, 2, 1, 1], 1), vec![2, 3, 4, 5, 1, 1]);
    assert_eq!(position_ids_from_input(&[101, 7, 0, 0], 0), vec![0, 1, 2, 3]);
    assert_eq!(position_ids_from_input(&[], 1), Vec::<u32>::new());
}

#[test]
fn shape_text_lists_dims() {
    assert_eq!(Shape::d3(2, 3, 4).to_string(), "[2, 3, 4]");
    assert_eq!(Shape::d2(1, 7).to_string(), "[1, 7]");
}

#[test]
fn parse_json_string_array_lone_bracket() {
    assert_eq!(
        parse_json_string_array(" [ ").unwrap_err(),
        NnError::Format("labels must be a JSON array".into())
    );
}
