# yolo_ort

YOLO object detection (YOLOv5, YOLOv11, YOLOv26) on ONNX Runtime, with the
decision-making core verified in Verus.

## Layout

- `src/` — the verified library.
  - `model.rs` — model variants, their names, and which ones skip NMS.
  - `session.rs` — session options and the session plan: thread requests and
    the execution-provider chain (TensorRT -> CUDA -> CPU).
  - `config.rs` — configuration checks (non-zero input, thresholds in `[0, 1]`).
  - `float_bits.rs` — IEEE-754 single-precision ordering on bit patterns,
    with a sort key proved to follow the order of the values.
  - `decode.rs` — output-shape checks and per-variant candidate selection
    (arg-max over class scores, confidence thresholds).
  - `postprocess.rs` — ranking by confidence, per-class non-maximum
    suppression and capping, with the laws they obey.
  - `preprocess.rs` — letterbox layout, the HWC -> CHW scatter, and the
    preprocessor that keeps the padding of the network input.
  - `resize.rs` — the bilinear resize of `fast_image_resize`, as a trusted
    wrapper.
- `app/` — the runtime around it: the ONNX Runtime session, image and tensor
  types, error type, and the `f32` arithmetic of boxes and scores
  (`BBox`, `Detection`, `DetectorConfig`, `Detector`).
- `tests/` — tests of the library.

Model outputs and thresholds reach the library as `f32` bit patterns; it only
compares them. The arithmetic that needs floats (the YOLOv5 confidence
product, the IoU test of NMS) is handed in as a function; the element each
byte of the image becomes in the input tensor is handed in as a table of the
256 byte values.
