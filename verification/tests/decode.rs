use yolo_ort::{
    argmax_strided, check_output_shape, decode_v11, decode_v26, decode_v5, expected_shape,
    first_name_or, output_shape, select_output, DecodeError, ModelVariant, OutputLayout,
    V11Candidate, V26Candidate, V5Candidate,
};

fn bits(values: &[f32]) -> Vec<u32> {
    values.iter().map(|v| v.to_bits()).collect()
}

fn multiply(a: u32, b: u32) -> u32 {
    (f32::from_bits(a) * f32::from_bits(b)).to_bits()
}

#[test]
fn shape_checks_per_variant() {
    assert_eq!(
        check_output_shape(ModelVariant::V5, &vec![1, 100, 85]),
        Ok(OutputLayout { predictions: 100, values: 85 })
    );
    assert_eq!(
        check_output_shape(ModelVariant::V11, &vec![1, 84, 8400]),
        Ok(OutputLayout { predictions: 8400, values: 84 })
    );
    assert_eq!(
        check_output_shape(ModelVariant::V26, &vec![1, 300, 6]),
        Ok(OutputLayout { predictions: 300, values: 6 })
    );
    assert_eq!(
        check_output_shape(ModelVariant::V5, &vec![1, 100, 5]),
        Err(DecodeError::UnexpectedOutputShape { variant: ModelVariant::V5, got: vec![1, 100, 5] })
    );
    assert_eq!(
        check_output_shape(ModelVariant::V11, &vec![2, 84, 10]),
        Err(DecodeError::UnexpectedOutputShape { variant: ModelVariant::V11, got: vec![2, 84, 10] })
    );
    assert_eq!(
        check_output_shape(ModelVariant::V26, &vec![1, 300, 7]),
        Err(DecodeError::UnexpectedOutputShape { variant: ModelVariant::V26, got: vec![1, 300, 7] })
    );
    assert!(check_output_shape(ModelVariant::V26, &vec![300, 6]).is_err());
    assert_eq!(expected_shape(ModelVariant::V5), "[1, N, 5+C] with C >= 1");
    assert_eq!(expected_shape(ModelVariant::V11), "[1, 4+C, N] with C >= 1");
    assert_eq!(expected_shape(ModelVariant::V26), "[1, N, 6]");
}

#[test]
fn dims_become_a_signed_shape() {
    assert_eq!(output_shape(&vec![1, 84, 8400]), vec![1i64, 84, 8400]);
    assert_eq!(output_shape(&vec![usize::MAX]), vec![if usize::BITS == 64 { i64::MAX } else { usize::MAX as i64 }]);
}

#[test]
fn output_selection_prefers_output0() {
    let names = |v: &[&str]| v.iter().map(|s| s.to_string()).collect::<Vec<String>>();
    assert_eq!(select_output(&names(&["boxes", "output0"])), Some(1));
    assert_eq!(select_output(&names(&["boxes", "scores"])), Some(0));
    assert_eq!(select_output(&Vec::new()), None);
    assert_eq!(first_name_or(&names(&["input", "x"]), "images"), "input");
    assert_eq!(first_name_or(&Vec::new(), "images"), "images");
}

#[test]
fn argmax_takes_the_first_strict_maximum() {
    let raw = bits(&[0.1, 0.7, 0.3, 0.7, f32::NAN]);
    assert_eq!(argmax_strided(&raw, 0, 1, 5), (1, 0.7f32.to_bits()));
    let nan = bits(&[f32::NAN, f32::NEG_INFINITY]);
    assert_eq!(argmax_strided(&nan, 0, 1, 2), (0, f32::NEG_INFINITY.to_bits()));
    // Every other value, from index 1.
    let raw = bits(&[9.0, 0.1, 9.0, 0.4, 9.0, 0.2]);
    assert_eq!(argmax_strided(&raw, 1, 2, 3), (1, 0.4f32.to_bits()));
    // -0.0 seen first is not replaced by +0.0.
    let zeros = bits(&[-0.0, 0.0]);
    assert_eq!(argmax_strided(&zeros, 0, 1, 2), (0, (-0.0f32).to_bits()));
}

#[test]
fn v5_needs_objectness_and_product_above_threshold() {
    // [cx, cy, w, h, obj, c0, c1]
    let raw = bits(&[
        10.0, 10.0, 4.0, 4.0, 0.9, 0.2, 0.8, // kept: 0.9 * 0.8 = 0.72, class 1
        10.0, 10.0, 4.0, 4.0, 0.1, 0.9, 0.9, // objectness below
        10.0, 10.0, 4.0, 4.0, 0.5, 0.3, 0.1, // product 0.15 below
        10.0, 10.0, 4.0, 4.0, 1.0, 0.5, 0.5, // kept: first of equal scores
    ]);
    let layout = OutputLayout { predictions: 4, values: 7 };
    let c = decode_v5(&raw, layout, 0.25f32.to_bits(), multiply);
    assert_eq!(
        c,
        vec![
            V5Candidate { row: 0, class_id: 1, confidence: (0.9f32 * 0.8f32).to_bits() },
            V5Candidate { row: 3, class_id: 0, confidence: 0.5f32.to_bits() },
        ]
    );
}

#[test]
fn v11_reads_channels_first() {
    // 3 predictions, 2 classes: rows are cx, cy, w, h, c0, c1.
    let raw = bits(&[
        1.0, 2.0, 3.0, // cx
        1.0, 2.0, 3.0, // cy
        1.0, 1.0, 1.0, // w
        1.0, 1.0, 1.0, // h
        0.1, 0.6, 0.3, // c0
        0.9, 0.2, 0.2, // c1
    ]);
    let layout = OutputLayout { predictions: 3, values: 6 };
    let c = decode_v11(&raw, layout, 0.5f32.to_bits());
    assert_eq!(
        c,
        vec![
            V11Candidate { row: 0, class_id: 1, score: 0.9f32.to_bits() },
            V11Candidate { row: 1, class_id: 0, score: 0.6f32.to_bits() },
        ]
    );
}

#[test]
fn v26_skips_low_confidence_and_negative_classes() {
    let raw = bits(&[
        0.0, 0.0, 5.0, 5.0, 0.9, 3.0, // kept
        0.0, 0.0, 5.0, 5.0, 0.1, 3.0, // confidence below
        0.0, 0.0, 5.0, 5.0, 0.9, -1.0, // class -1
        0.0, 0.0, 5.0, 5.0, 0.8, -0.5, // truncates to class 0: kept
        0.0, 0.0, 5.0, 5.0, 0.7, f32::NAN, // NaN class casts to 0: kept
    ]);
    let layout = OutputLayout { predictions: 5, values: 6 };
    let c = decode_v26(&raw, layout, 0.25f32.to_bits());
    assert_eq!(
        c,
        vec![
            V26Candidate { row: 0, confidence: 0.9f32.to_bits() },
            V26Candidate { row: 3, confidence: 0.8f32.to_bits() },
            V26Candidate { row: 4, confidence: 0.7f32.to_bits() },
        ]
    );
}
