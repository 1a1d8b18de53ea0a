use image::RgbImage;
use yolo_ort::{
    hwc_into_chw_at_offset, letterbox_layout, LetterboxLayout, PreprocessError, Preprocessor,
    PAD_VALUE,
};

const PAD_NORM: f32 = PAD_VALUE as f32 / 255.0;
const INV_255: f32 = 1.0 / 255.0;

fn to_unit(b: u8) -> f32 {
    f32::from(b) * INV_255
}

/// The element each byte value becomes: `b / 255`.
fn unit_levels() -> [f32; 256] {
    std::array::from_fn(|b| to_unit(b as u8))
}

fn tens() -> [u16; 256] {
    std::array::from_fn(|b| b as u16 * 10)
}

/// Letterboxes `src` the way the detector does: scale to fit, round, and
/// hand the resized size to the preprocessor. Returns `(scale, pad_x, pad_y)`.
fn letterbox(p: &mut Preprocessor<f32>, src: &RgbImage) -> (f32, f32, f32) {
    let (src_w, src_h) = src.dimensions();
    let (target_w, target_h) = p.target();
    let scale = (target_w as f32 / src_w as f32).min(target_h as f32 / src_h as f32);
    let new_w = ((src_w as f32 * scale).round() as u32).clamp(1, target_w);
    let new_h = ((src_h as f32 * scale).round() as u32).clamp(1, target_h);
    let layout = p
        .process(src.as_raw(), src_w, src_h, new_w, new_h)
        .unwrap();
    (scale, layout.pad_left as f32, layout.pad_top as f32)
}

/// Element `[0, c, y, x]` of the network input.
fn at(p: &Preprocessor<f32>, c: usize, y: usize, x: usize) -> f32 {
    let (w, h) = p.target();
    p.input()[(c * h as usize + y) * w as usize + x]
}

#[test]
fn pad_norm_is_correct() {
    assert!((PAD_NORM - (114.0 / 255.0)).abs() < 1e-7);
}

#[test]
fn preprocessor_pre_fills_with_pad_value() {
    let p = Preprocessor::new(8, 8, PAD_NORM, unit_levels()).unwrap();
    for &v in p.input() {
        assert!((v - PAD_NORM).abs() < 1e-7);
    }
}

#[test]
fn process_writes_content_and_leaves_pad() {
    let mut p = Preprocessor::new(8, 4, PAD_NORM, unit_levels()).unwrap();
    let src = RgbImage::from_pixel(4, 4, image::Rgb([255, 255, 255]));
    let (scale, pad_x, pad_y) = letterbox(&mut p, &src);
    assert!((scale - 1.0).abs() < 1e-5);
    assert_eq!((pad_x, pad_y), (2.0, 0.0));
    assert!((at(&p, 0, 0, 0) - PAD_NORM).abs() < 1e-5);
    assert!((at(&p, 0, 0, 3) - 1.0).abs() < 1e-5);
}

#[test]
fn dim_cache_skips_refill_for_same_layout() {
    let mut p = Preprocessor::new(8, 8, PAD_NORM, unit_levels()).unwrap();
    let red = RgbImage::from_pixel(8, 8, image::Rgb([255, 0, 0]));
    letterbox(&mut p, &red);
    let layout_after_first = p.last_layout();
    let green = RgbImage::from_pixel(8, 8, image::Rgb([0, 255, 0]));
    letterbox(&mut p, &green);
    assert_eq!(p.last_layout(), layout_after_first);
    assert!((at(&p, 0, 0, 0) - 0.0).abs() < 1e-5);
    assert!((at(&p, 1, 0, 0) - 1.0).abs() < 1e-5);
}

#[test]
fn zero_input_dimension_is_refused() {
    assert!(matches!(
        Preprocessor::new(0, 8, PAD_NORM, unit_levels()),
        Err(PreprocessError::ZeroInputDimension)
    ));
    assert!(matches!(
        Preprocessor::new(8, 0, PAD_NORM, unit_levels()),
        Err(PreprocessError::ZeroInputDimension)
    ));
    assert_eq!(
        PreprocessError::ZeroInputDimension.message(),
        Some("input dimensions must be non-zero")
    );
}

#[test]
fn zero_source_dimension_is_refused() {
    let mut p = Preprocessor::new(8, 8, PAD_NORM, unit_levels()).unwrap();
    let r = p.process(&Vec::new(), 0, 4, 1, 1);
    assert!(matches!(r, Err(PreprocessError::ZeroSourceDimension)));
    assert_eq!(
        PreprocessError::ZeroSourceDimension.message(),
        Some("source image has a zero dimension")
    );
}

#[test]
fn short_source_buffer_is_a_resize_error() {
    let mut p = Preprocessor::new(8, 8, PAD_NORM, unit_levels()).unwrap();
    let r = p.process(&vec![0u8; 10], 4, 4, 4, 4);
    assert!(matches!(r, Err(PreprocessError::Resize(_))));
}

#[test]
fn letterbox_layout_centres_the_image() {
    assert_eq!(
        letterbox_layout(640, 640, 640, 480),
        LetterboxLayout { new_w: 640, new_h: 480, pad_left: 0, pad_top: 80 }
    );
    // The odd pixel of padding goes right and below.
    assert_eq!(
        letterbox_layout(9, 7, 4, 4),
        LetterboxLayout { new_w: 4, new_h: 4, pad_left: 2, pad_top: 1 }
    );
}

#[test]
fn upscaled_uniform_image_fills_its_place_and_pad_surrounds_it() {
    // A 2×2 red image upscaled into a 6×4 input: the resize must produce a
    // 4×4 red square (a copy of the 2×2 source would not cover it).
    let mut p = Preprocessor::new(6, 4, PAD_NORM, unit_levels()).unwrap();
    let red = RgbImage::from_pixel(2, 2, image::Rgb([255, 0, 0]));
    let (scale, pad_x, pad_y) = letterbox(&mut p, &red);
    assert!((scale - 2.0).abs() < 1e-6);
    assert_eq!((pad_x, pad_y), (1.0, 0.0));
    for y in 0..4 {
        for x in 0..6 {
            let inside = (1..5).contains(&x);
            let (r, g, b) = (at(&p, 0, y, x), at(&p, 1, y, x), at(&p, 2, y, x));
            if inside {
                assert!((r - 1.0).abs() < 1e-6 && g.abs() < 1e-6 && b.abs() < 1e-6);
            } else {
                for v in [r, g, b] {
                    assert!((v - PAD_NORM).abs() < 1e-7);
                }
            }
        }
    }
}

#[test]
fn layout_change_rewrites_the_padding() {
    let mut p = Preprocessor::new(8, 8, PAD_NORM, unit_levels()).unwrap();
    let wide = RgbImage::from_pixel(8, 8, image::Rgb([0, 0, 0]));
    letterbox(&mut p, &wide);
    assert!((at(&p, 0, 0, 0) - 0.0).abs() < 1e-6);
    // A tall image leaves the left and right columns to the padding.
    let tall = RgbImage::from_pixel(4, 8, image::Rgb([0, 0, 0]));
    letterbox(&mut p, &tall);
    assert_eq!(
        p.last_layout(),
        Some(LetterboxLayout { new_w: 4, new_h: 8, pad_left: 2, pad_top: 0 })
    );
    for c in 0..3 {
        for y in 0..8 {
            for x in [0, 1, 6, 7] {
                assert!((at(&p, c, y, x) - PAD_NORM).abs() < 1e-7);
            }
        }
    }
}

#[test]
fn hwc_scatter_places_each_channel_in_its_plane() {
    // A 2×1 RGB image into a 4×2 tensor at column 1, row 1.
    let src = vec![1u8, 2, 3, 4, 5, 6];
    let mut dst = vec![0u16; 3 * 4 * 2];
    hwc_into_chw_at_offset(&src, 2, 1, &mut dst, 4, 2, 1, 1, &tens());
    let mut expected = vec![0u16; 24];
    // plane 0 (R): row 1 = positions 4..8
    expected[5] = 10;
    expected[6] = 40;
    // plane 1 (G)
    expected[8 + 5] = 20;
    expected[8 + 6] = 50;
    // plane 2 (B)
    expected[16 + 5] = 30;
    expected[16 + 6] = 60;
    assert_eq!(dst, expected);
}

#[test]
fn earlier_images_leave_nothing_in_the_input() {
    // A preprocessor that has letterboxed other images, of other layouts,
    // gives the same network input as a fresh one.
    let mut used = Preprocessor::new(8, 6, PAD_NORM, unit_levels()).unwrap();
    let wide = RgbImage::from_pixel(8, 2, image::Rgb([10, 200, 30]));
    letterbox(&mut used, &wide);
    let tall = RgbImage::from_pixel(2, 6, image::Rgb([250, 5, 90]));
    letterbox(&mut used, &tall);
    // Same layout as the image below (8×4 at row 1): the padding is not
    // rewritten for the next call.
    let same_layout = RgbImage::from_pixel(2, 1, image::Rgb([255, 255, 255]));
    letterbox(&mut used, &same_layout);
    let img = RgbImage::from_fn(4, 2, |x, y| image::Rgb([(x * 60) as u8, (y * 80) as u8, 7]));
    let (s1, x1, y1) = letterbox(&mut used, &img);
    assert_eq!((x1, y1), (0.0, 1.0));

    let mut fresh = Preprocessor::new(8, 6, PAD_NORM, unit_levels()).unwrap();
    let (s2, x2, y2) = letterbox(&mut fresh, &img);
    assert_eq!((s1, x1, y1), (s2, x2, y2));
    assert_eq!(used.last_layout(), fresh.last_layout());
    assert_eq!(used.input(), fresh.input());
}

#[test]
fn zero_source_dimension_changes_nothing() {
    let mut p = Preprocessor::new(8, 8, PAD_NORM, unit_levels()).unwrap();
    let img = RgbImage::from_pixel(4, 8, image::Rgb([0, 0, 0]));
    letterbox(&mut p, &img);
    let before_input = p.input().clone();
    let before_layout = p.last_layout();
    let r = p.process(&Vec::new(), 3, 0, 1, 1);
    assert!(matches!(r, Err(PreprocessError::ZeroSourceDimension)));
    assert_eq!(p.input(), &before_input);
    assert_eq!(p.last_layout(), before_layout);
}

#[test]
fn scatter_leaves_what_lies_past_the_planes() {
    // A destination longer than three planes: the tail is not touched.
    let src: Vec<u8> = vec![1, 2, 3];
    let mut dst: Vec<u16> = vec![9; 3 * 2 * 1 + 4];
    hwc_into_chw_at_offset(&src, 1, 1, &mut dst, 2, 1, 1, 0, &tens());
    assert_eq!(dst, vec![9, 10, 9, 20, 9, 30, 9, 9, 9, 9]);
}

#[test]
fn scatter_into_zero_width_destination_does_nothing() {
    let src: Vec<u8> = Vec::new();
    let mut dst: Vec<u16> = vec![5; 4];
    hwc_into_chw_at_offset(&src, 0, 2, &mut dst, 0, 2, 0, 0, &std::array::from_fn(|b| b as u16));
    assert_eq!(dst, vec![5; 4]);
}

#[test]
fn resize_failure_keeps_the_refilled_padding_and_new_layout() {
    let mut p = Preprocessor::new(8, 8, PAD_NORM, unit_levels()).unwrap();
    let img = RgbImage::from_pixel(8, 8, image::Rgb([0, 0, 0]));
    letterbox(&mut p, &img);
    // A different layout with a short source buffer: the padding is
    // rewritten and the layout cached before the resize refuses the source.
    let r = p.process(&vec![0u8; 10], 4, 4, 4, 4);
    assert!(matches!(r, Err(PreprocessError::Resize(_))));
    assert_eq!(p.last_layout(), Some(letterbox_layout(8, 8, 4, 4)));
    for &v in p.input() {
        assert!((v - PAD_NORM).abs() < 1e-7);
    }
}
