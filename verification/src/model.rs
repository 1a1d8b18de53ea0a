use vstd::prelude::*;

verus! {

/// YOLO model variant that the detector decodes for.
///
/// | Variant | Output shape    | Layout                          | NMS required |
/// |---------|-----------------|---------------------------------|--------------|
/// | `V5`    | `[1, N, 5 + C]` | `[cx, cy, w, h, obj, c0..cC]`   | yes          |
/// | `V11`   | `[1, 4 + C, N]` | `[cx, cy, w, h, c0..cC]` (T)    | yes          |
/// | `V26`   | `[1, N, 6]`     | `[x1, y1, x2, y2, conf, class]` | no (built-in)|
#[derive(Debug, Clone, Copy, PartialEq, Eq, Hash, Structural)]
pub enum ModelVariant {
    V5,
    V11,
    V26,
}

impl ModelVariant {
    /// Display name of the model family.
    pub open spec fn name_spec(self) -> Seq<char> {
        match self {
            ModelVariant::V5 => "YOLOv5"@,
            ModelVariant::V11 => "YOLOv11"@,
            ModelVariant::V26 => "YOLOv26"@,
        }
    }

    /// Display name of the model family (`"YOLOv5"`, `"YOLOv11"`, `"YOLOv26"`).
    pub fn as_str(self) -> (s: &'static str)
        ensures
            s@ == self.name_spec(),
    {
        match self {
            ModelVariant::V5 => "YOLOv5",
            ModelVariant::V11 => "YOLOv11",
            ModelVariant::V26 => "YOLOv26",
        }
    }

    /// Whether the model's head already performs non-maximum suppression.
    pub fn skips_nms(self) -> (b: bool)
        ensures
            b <==> self == ModelVariant::V26,
    {
        matches!(self, ModelVariant::V26)
    }
}

} // verus!
