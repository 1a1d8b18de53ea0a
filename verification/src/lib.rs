//! Verified core of a YOLO object-detection pipeline.
//!
//! Supports YOLOv5 (anchor-based), YOLOv11 (anchor-free) and YOLOv26
//! (NMS-free) outputs. The library holds the decisions of the pipeline on
//! plain values: model-variant metadata, session planning, configuration
//! checks, output-tensor layout checks and candidate selection (on IEEE-754
//! bit patterns), letterbox layout and the CHW scatter, ranking by
//! confidence, and per-class non-maximum suppression.

pub mod config;
pub mod decode;
pub mod float_bits;
pub mod model;
pub mod postprocess;
pub mod preprocess;
pub mod resize;
pub mod session;

pub use config::{class_name, unit_interval_contains, validate_config, ConfigError};
pub use decode::{
    argmax_strided, check_output_shape, decode_v11, decode_v26, decode_v5, expected_shape,
    output_shape, select_output, DecodeError, OutputLayout, V11Candidate,
    V26Candidate, V5Candidate,
};
pub use float_bits::{f32_le, f32_lt, order_key};
pub use model::ModelVariant;
pub use postprocess::{cap_and_sort, keep_detections, non_max_suppression, rank_by_confidence};
pub use preprocess::{
    hwc_into_chw_at_offset, letterbox_layout, LetterboxLayout, PreprocessError, Preprocessor,
    PAD_VALUE,
};
pub use resize::ResizeFailure;
pub use session::{
    build_provider_chain, conv_search, first_name_or, plan_session, ConvAlgorithmSearchPref, ConvSearch,
    ExecutionProviderPreference, OptimizationLevel, ProviderPlan, SessionOptions, SessionPlan,
};
