use yolo_ort::{
    class_name, f32_le, f32_lt, order_key, unit_interval_contains, validate_config, ConfigError,
};

fn samples() -> Vec<f32> {
    vec![
        f32::NEG_INFINITY,
        f32::MIN,
        -1.5,
        -1.0,
        -f32::MIN_POSITIVE,
        -1e-45,
        -0.0,
        0.0,
        1e-45,
        f32::MIN_POSITIVE,
        0.25,
        0.5,
        1.0,
        f32::MAX,
        f32::INFINITY,
        f32::NAN,
        -f32::NAN,
    ]
}

#[test]
fn bit_comparisons_agree_with_f32() {
    for &a in &samples() {
        for &b in &samples() {
            assert_eq!(f32_lt(a.to_bits(), b.to_bits()), a < b, "{a} < {b}");
            assert_eq!(f32_le(a.to_bits(), b.to_bits()), a <= b, "{a} <= {b}");
        }
    }
}

#[test]
fn order_key_grows_with_the_value() {
    for &a in &samples() {
        for &b in &samples() {
            if a.is_nan() || b.is_nan() {
                continue;
            }
            if a < b {
                assert!(order_key(a.to_bits()) < order_key(b.to_bits()), "{a} {b}");
            }
            if order_key(a.to_bits()) < order_key(b.to_bits()) {
                assert!(a <= b, "{a} {b}");
            }
        }
    }
    assert_eq!(order_key(0.0f32.to_bits()), 0x8000_0000);
    assert_eq!(order_key((-0.0f32).to_bits()), 0x7fff_ffff);
}

#[test]
fn unit_interval_matches_range_contains() {
    for &a in &samples() {
        assert_eq!(unit_interval_contains(a.to_bits()), (0.0..=1.0).contains(&a), "{a}");
    }
}

#[test]
fn config_validation_checks_in_order() {
    let ok = 0.25f32.to_bits();
    assert_eq!(validate_config((640, 640), ok, 0.45f32.to_bits()), Ok(()));
    assert_eq!(validate_config((0, 640), 2.0f32.to_bits(), ok), Err(ConfigError::ZeroInputSize));
    assert_eq!(validate_config((640, 0), ok, ok), Err(ConfigError::ZeroInputSize));
    assert_eq!(
        validate_config((640, 640), 1.5f32.to_bits(), 2.0f32.to_bits()),
        Err(ConfigError::ConfidenceThresholdOutOfRange)
    );
    assert_eq!(
        validate_config((640, 640), f32::NAN.to_bits(), ok),
        Err(ConfigError::ConfidenceThresholdOutOfRange)
    );
    assert_eq!(
        validate_config((640, 640), ok, (-0.1f32).to_bits()),
        Err(ConfigError::IouThresholdOutOfRange)
    );
    assert_eq!(validate_config((1, 1), 0.0f32.to_bits(), 1.0f32.to_bits()), Ok(()));
    assert_eq!(
        ConfigError::IouThresholdOutOfRange.message(),
        "iou_threshold must be within [0, 1]"
    );
    assert_eq!(
        ConfigError::ConfidenceThresholdOutOfRange.message(),
        "confidence_threshold must be within [0, 1]"
    );
    assert_eq!(ConfigError::ZeroInputSize.message(), "input_size dimensions must be non-zero");
}

#[test]
fn class_name_looks_up_the_list() {
    let names: Vec<String> = vec!["person".to_string(), "bicycle".to_string()];
    assert_eq!(class_name(Some(names.as_slice()), 1), Some("bicycle"));
    assert_eq!(class_name(Some(names.as_slice()), 2), None);
    assert_eq!(class_name(None, 0), None);
}
