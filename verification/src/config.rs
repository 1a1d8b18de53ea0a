//! Checks on detector configuration values.
use vstd::prelude::*;

use crate::float_bits::{f32_le, le, ONE_BITS, ZERO_BITS};

verus! {

/// Why a detector configuration was refused.
#[derive(Debug, Clone, Copy, PartialEq, Eq, Structural)]
pub enum ConfigError {
    /// A network input dimension is zero.
    ZeroInputSize,
    /// The confidence threshold is not within `[0, 1]` (or is NaN).
    ConfidenceThresholdOutOfRange,
    /// The IoU threshold is not within `[0, 1]` (or is NaN).
    IouThresholdOutOfRange,
}

impl ConfigError {
    /// Human-readable description of the refusal.
    pub fn message(&self) -> (m: &'static str)
        ensures
            m@ == match *self {
                ConfigError::ZeroInputSize => "input_size dimensions must be non-zero"@,
                ConfigError::ConfidenceThresholdOutOfRange =>
                    "confidence_threshold must be within [0, 1]"@,
                ConfigError::IouThresholdOutOfRange => "iou_threshold must be within [0, 1]"@,
            },
    {
        match self {
            ConfigError::ZeroInputSize => "input_size dimensions must be non-zero",
            ConfigError::ConfidenceThresholdOutOfRange =>
                "confidence_threshold must be within [0, 1]",
            ConfigError::IouThresholdOutOfRange => "iou_threshold must be within [0, 1]",
        }
    }
}

/// The `f32` whose bit pattern is `b` lies in the closed interval `[0, 1]`.
pub open spec fn in_unit_interval(b: u32) -> bool {
    le(ZERO_BITS, b) && le(b, ONE_BITS)
}

/// `(0.0..=1.0).contains(&x)` for the `f32` with bit pattern `bits`.
pub fn unit_interval_contains(bits: u32) -> (r: bool)
    ensures
        r == in_unit_interval(bits),
{
    f32_le(ZERO_BITS, bits) && f32_le(bits, ONE_BITS)
}

/// Validates a detector configuration: non-zero network input dimensions and
/// both thresholds (given as `f32` bit patterns) within `[0, 1]`, checked in
/// that order.
pub fn validate_config(
    input_size: (u32, u32),
    confidence_threshold_bits: u32,
    iou_threshold_bits: u32,
) -> (r: Result<(), ConfigError>)
    ensures
        r == (if input_size.0 == 0 || input_size.1 == 0 {
            Err(ConfigError::ZeroInputSize)
        } else if !in_unit_interval(confidence_threshold_bits) {
            Err(ConfigError::ConfidenceThresholdOutOfRange)
        } else if !in_unit_interval(iou_threshold_bits) {
            Err(ConfigError::IouThresholdOutOfRange)
        } else {
            Ok(())
        }),
{
    if input_size.0 == 0 || input_size.1 == 0 {
        return Err(ConfigError::ZeroInputSize);
    }
    if !unit_interval_contains(confidence_threshold_bits) {
        return Err(ConfigError::ConfidenceThresholdOutOfRange);
    }
    if !unit_interval_contains(iou_threshold_bits) {
        return Err(ConfigError::IouThresholdOutOfRange);
    }
    Ok(())
}

/// Name of class `class_id` in the optional list of class names: `None`
/// when there is no list or it is too short.
pub fn class_name(class_names: Option<&[String]>, class_id: usize) -> (r: Option<&str>)
    ensures
        match class_names {
            Some(names) => if class_id < names@.len() {
                r matches Some(s) && s@ == names@[class_id as int]@
            } else {
                r is None
            },
            None => r is None,
        },
{
    match class_names {
        Some(names) => if class_id < names.len() {
            Some(names[class_id].as_str())
        } else {
            None
        },
        None => None,
    }
}

} // verus!
