//! Letterbox layout and the fused HWC -> CHW scatter into the network input.
//!
//! The resized image is placed centred in the network input; everything
//! around it holds the pad value. The network input is generic in its
//! element type: the caller supplies the pad element and the element each
//! byte value becomes (a table of 256 levels).
use vstd::prelude::*;

use fast_image_resize::Resizer;

use crate::resize::{bilinear_rgb, resize_rgb_bilinear, ResizeFailure};
use vstd::arithmetic::div_mod::{lemma_fundamental_div_mod, lemma_mod_pos_bound};

verus! {

/// Grey level of the letterbox padding.
pub const PAD_VALUE: u8 = 114u8;

/// Where the resized image sits inside the network input.
#[derive(Debug, Clone, Copy, PartialEq, Eq, Structural)]
pub struct LetterboxLayout {
    /// Width of the resized image.
    pub new_w: u32,
    /// Height of the resized image.
    pub new_h: u32,
    /// Columns of padding to its left.
    pub pad_left: u32,
    /// Rows of padding above it.
    pub pad_top: u32,
}

/// The layout that centres a `new_w × new_h` image in a `target_w × target_h`
/// input (the odd pixel of padding goes right and below).
pub open spec fn letterbox_layout_spec(target_w: u32, target_h: u32, new_w: u32, new_h: u32) -> LetterboxLayout {
    LetterboxLayout {
        new_w,
        new_h,
        pad_left: (if target_w >= new_w { (target_w - new_w) / 2 } else { 0 }) as u32,
        pad_top: (if target_h >= new_h { (target_h - new_h) / 2 } else { 0 }) as u32,
    }
}

/// The layout keeps the resized size and centres it: the padding left (above)
/// is half the spare width (height), rounded down, so the padding right
/// (below) equals it or exceeds it by one; with no spare room there is none.
pub proof fn lemma_letterbox_centred(target_w: u32, target_h: u32, new_w: u32, new_h: u32)
    ensures
        ({
            let l = letterbox_layout_spec(target_w, target_h, new_w, new_h);
            &&& l.new_w == new_w && l.new_h == new_h
            &&& new_w <= target_w ==> {
                let right = target_w - new_w - l.pad_left;
                right == l.pad_left || right == l.pad_left + 1
            }
            &&& new_h <= target_h ==> {
                let below = target_h - new_h - l.pad_top;
                below == l.pad_top || below == l.pad_top + 1
            }
            &&& new_w >= target_w ==> l.pad_left == 0
            &&& new_h >= target_h ==> l.pad_top == 0
        }),
{
}

/// Computes the letterbox layout (padding halves saturate at zero).
pub fn letterbox_layout(target_w: u32, target_h: u32, new_w: u32, new_h: u32) -> (l: LetterboxLayout)
    ensures
        l == letterbox_layout_spec(target_w, target_h, new_w, new_h),
{
    LetterboxLayout {
        new_w,
        new_h,
        pad_left: target_w.saturating_sub(new_w) / 2,
        pad_top: target_h.saturating_sub(new_h) / 2,
    }
}

/// The layout lies within a `w × h` input.
pub open spec fn layout_fits(l: LetterboxLayout, w: int, h: int) -> bool {
    l.pad_left + l.new_w <= w && l.pad_top + l.new_h <= h
}

/// Position of channel `c`, row `y`, column `x` in a CHW tensor of width `w`
/// and height `h`.
pub open spec fn tensor_index(w: int, h: int, c: int, y: int, x: int) -> int {
    (c * h + y) * w + x
}

/// Row `y`, column `x` of the input lies on the resized image.
pub open spec fn in_content(l: LetterboxLayout, y: int, x: int) -> bool {
    l.pad_top <= y < l.pad_top + l.new_h && l.pad_left <= x < l.pad_left + l.new_w
}

/// Byte of the resized (packed RGB) image that channel `c` at row `y`,
/// column `x` of the input shows.
pub open spec fn source_index(l: LetterboxLayout, c: int, y: int, x: int) -> int {
    ((y - l.pad_top) * l.new_w + (x - l.pad_left)) * 3 + c
}

/// Every position of the `w × h` CHW tensor off the resized image holds `pad`.
pub open spec fn pad_outside<T>(tensor: Seq<T>, pad: T, l: LetterboxLayout, w: int, h: int) -> bool {
    forall|c: int, y: int, x: int|
        0 <= c < 3 && 0 <= y < h && 0 <= x < w && !in_content(l, y, x) ==> tensor[
            #[trigger] tensor_index(w, h, c, y, x)] == pad
}

/// The tensor shows the resized image `resized`, each byte `b` as
/// `levels[b]`, at its
/// place, and `pad` everywhere else.
pub open spec fn letterboxed<T>(
    tensor: Seq<T>,
    resized: Seq<u8>,
    pad: T,
    l: LetterboxLayout,
    w: int,
    h: int,
    levels: Seq<T>,
) -> bool {
    &&& tensor.len() == 3 * w * h
    &&& resized.len() >= l.new_w * l.new_h * 3
    &&& pad_outside(tensor, pad, l, w, h)
    &&& forall|c: int, y: int, x: int|
        0 <= c < 3 && 0 <= y < h && 0 <= x < w && in_content(l, y, x) ==> tensor[#[trigger] tensor_index(w, h, c, y, x)] == levels[resized[source_index(l, c, y, x)] as int]
}

proof fn lemma_tensor_index(w: int, h: int, c: int, y: int, x: int)
    requires
        w > 0,
        h > 0,
        0 <= c < 3,
        0 <= y < h,
        0 <= x < w,
    ensures
        0 <= y * w + x < w * h,
        tensor_index(w, h, c, y, x) == c * (w * h) + (y * w + x),
        0 <= tensor_index(w, h, c, y, x) < 3 * w * h,
{
    assert(0 <= y * w + x < w * h) by (nonlinear_arith)
        requires
            w > 0,
            0 <= y < h,
            0 <= x < w,
    ;
    assert((c * h + y) * w + x == c * (w * h) + (y * w + x)) by (nonlinear_arith);
    assert(0 <= c * (w * h) + (y * w + x) < 3 * w * h) by (nonlinear_arith)
        requires
            0 <= c < 3,
            0 <= y * w + x < w * h,
    ;
}

proof fn lemma_tensor_index_injective(
    w: int,
    h: int,
    c1: int,
    y1: int,
    x1: int,
    c2: int,
    y2: int,
    x2: int,
)
    requires
        w > 0,
        h > 0,
        0 <= c1 < 3,
        0 <= y1 < h,
        0 <= x1 < w,
        0 <= c2 < 3,
        0 <= y2 < h,
        0 <= x2 < w,
        tensor_index(w, h, c1, y1, x1) == tensor_index(w, h, c2, y2, x2),
    ensures
        c1 == c2 && y1 == y2 && x1 == x2,
{
    let a1 = c1 * h + y1;
    let a2 = c2 * h + y2;
    assert(a1 == a2 && x1 == x2) by (nonlinear_arith)
        requires
            a1 * w + x1 == a2 * w + x2,
            0 <= x1 < w,
            0 <= x2 < w,
    ;
    assert(c1 == c2 && y1 == y2) by (nonlinear_arith)
        requires
            c1 * h + y1 == c2 * h + y2,
            0 <= y1 < h,
            0 <= y2 < h,
    ;
}

/// Every position of a `w × h` CHW tensor is the position of one channel,
/// row and column.
proof fn lemma_tensor_position(w: int, h: int, k: int) -> (cyx: (int, int, int))
    requires
        w > 0,
        h > 0,
        0 <= k < 3 * w * h,
    ensures
        0 <= cyx.0 < 3,
        0 <= cyx.1 < h,
        0 <= cyx.2 < w,
        tensor_index(w, h, cyx.0, cyx.1, cyx.2) == k,
{
    let wh = w * h;
    assert(wh > 0 && 3 * w * h == 3 * wh) by (nonlinear_arith)
        requires
            wh == w * h,
            w > 0,
            h > 0,
    ;
    let c = k / wh;
    let rem = k % wh;
    let y = rem / w;
    let x = rem % w;
    lemma_fundamental_div_mod(k, wh);
    lemma_mod_pos_bound(k, wh);
    lemma_fundamental_div_mod(rem, w);
    lemma_mod_pos_bound(rem, w);
    assert(0 <= c < 3) by (nonlinear_arith)
        requires
            k == wh * c + rem,
            0 <= rem < wh,
            0 <= k < 3 * wh,
    ;
    assert(0 <= y < h) by (nonlinear_arith)
        requires
            rem == w * y + x,
            0 <= x < w,
            0 <= rem < wh,
            wh == w * h,
    ;
    lemma_tensor_index(w, h, c, y, x);
    assert(c * (w * h) == wh * c) by (nonlinear_arith)
        requires
            wh == w * h,
    ;
    (c, y, x)
}

/// A letterboxed tensor is determined by the layout, the pad element, the
/// byte levels and the resized image's first `new_w × new_h × 3` bytes:
/// nothing of an image letterboxed earlier into the same buffer survives,
/// whatever layout it had.
pub proof fn lemma_letterboxed_unique<T>(
    t1: Seq<T>,
    r1: Seq<u8>,
    t2: Seq<T>,
    r2: Seq<u8>,
    pad: T,
    l: LetterboxLayout,
    w: u32,
    h: u32,
    levels: Seq<T>,
)
    requires
        letterboxed(t1, r1, pad, l, w as int, h as int, levels),
        letterboxed(t2, r2, pad, l, w as int, h as int, levels),
        r1.subrange(0, l.new_w * l.new_h * 3) == r2.subrange(0, l.new_w * l.new_h * 3),
    ensures
        t1 == t2,
{
    let wi = w as int;
    let hi = h as int;
    let n = l.new_w * l.new_h * 3;
    assert forall|k: int| 0 <= k < t1.len() implies t1[k] == t2[k] by {
        if wi == 0 || hi == 0 {
            assert(3 * wi * hi == 0) by (nonlinear_arith)
                requires
                    wi == 0 || hi == 0,
            ;
        }
        let (c, y, x) = lemma_tensor_position(wi, hi, k);
        let i = tensor_index(wi, hi, c, y, x);
        if in_content(l, y, x) {
            let si = source_index(l, c, y, x);
            let dy = y - l.pad_top;
            let dx = x - l.pad_left;
            assert(0 <= si < n) by (nonlinear_arith)
                requires
                    si == (dy * l.new_w + dx) * 3 + c,
                    0 <= dy < l.new_h,
                    0 <= dx < l.new_w,
                    0 <= c < 3,
                    n == l.new_w * l.new_h * 3,
            ;
            assert(r1[si] == r1.subrange(0, n)[si]);
            assert(r2[si] == r2.subrange(0, n)[si]);
        } else {
            assert(t1[i] == pad);
            assert(t2[i] == pad);
        }
    }
    assert(t1 =~= t2);
}

/// Writes the packed RGB image `src` (`src_w × src_h`) into the CHW tensor
/// `dst` (`dst_w × dst_h`, three planes) with its top-left corner at column
/// `off_x`, row `off_y`, writing each byte `b` as `levels[b]`. Every other
/// position of `dst` is left as it was.
pub fn hwc_into_chw_at_offset<T: Copy>(
    src: &Vec<u8>,
    src_w: usize,
    src_h: usize,
    dst: &mut Vec<T>,
    dst_w: usize,
    dst_h: usize,
    off_x: usize,
    off_y: usize,
    levels: &[T; 256],
)
    requires
        off_x + src_w <= dst_w,
        off_y + src_h <= dst_h,
        src.len() >= src_w * src_h * 3,
        old(dst).len() >= 3 * dst_w * dst_h,
    ensures
        final(dst).len() == old(dst).len(),
        forall|c: int, y: int, x: int|
            0 <= c < 3 && 0 <= y < dst_h && 0 <= x < dst_w ==> {
                let i = #[trigger] tensor_index(dst_w as int, dst_h as int, c, y, x);
                if off_y <= y < off_y + src_h && off_x <= x < off_x + src_w {
                    final(dst)[i] == levels@[src[((y - off_y) * src_w + (x - off_x)) * 3 + c] as int]
                } else {
                    final(dst)[i] == old(dst)[i]
                }
            },
        forall|k: int| 3 * dst_w * dst_h <= k < old(dst).len() ==> final(dst)[k] == old(dst)[k],
{
    let ghost w = dst_w as int;
    let ghost h = dst_h as int;
    let ghost initial = dst@;
    proof {
        let len = dst.len();
        assert(dst_w * dst_h <= usize::MAX) by (nonlinear_arith)
            requires
                len >= 3 * dst_w * dst_h,
                len <= usize::MAX,
        ;
    }
    let plane = dst_w * dst_h;
    proof {
        assert(plane * 3 == 3 * dst_w * dst_h) by (nonlinear_arith)
            requires
                plane == dst_w * dst_h,
        ;
    }
    let (r_plane, g_plane, b_plane) = (0usize, plane, 2 * plane);
    for y in 0..src_h
        invariant
            w == dst_w,
            h == dst_h,
            plane == dst_w * dst_h,
            r_plane == 0,
            g_plane == plane,
            b_plane == 2 * plane,
            off_x + src_w <= dst_w,
            off_y + src_h <= dst_h,
            src.len() >= src_w * src_h * 3,
            dst.len() >= 3 * dst_w * dst_h,
            initial.len() == dst.len(),
            forall|k: int| 3 * plane <= k < dst.len() ==> dst[k] == initial[k],
                forall|c: int, yy: int, xx: int|
                0 <= c < 3 && 0 <= yy < h && 0 <= xx < w ==> {
                    let i = #[trigger] tensor_index(w, h, c, yy, xx);
                    if off_y <= yy < off_y + y && off_x <= xx < off_x + src_w {
                        dst[i] == levels@[src[((yy - off_y) * src_w + (xx - off_x)) * 3 + c] as int]
                    } else {
                        dst[i] == initial[i]
                    }
                },
    {
        proof {
            assert(y * src_w * 3 == (y * src_w) * 3) by (nonlinear_arith);
            assert(y * src_w + src_w <= src_w * src_h) by (nonlinear_arith)
                requires
                    y < src_h,
            ;
            assert((off_y + y) * dst_w + off_x + src_w <= dst_w * dst_h) by (nonlinear_arith)
                requires
                    off_y + y < dst_h,
                    off_x + src_w <= dst_w,
            ;
        }
        let src_row = y * src_w * 3;
        let dst_row = (off_y + y) * dst_w + off_x;
        for x in 0..src_w
            invariant
                w == dst_w,
                h == dst_h,
                plane == dst_w * dst_h,
                r_plane == 0,
                g_plane == plane,
                b_plane == 2 * plane,
                off_x + src_w <= dst_w,
                off_y + src_h <= dst_h,
                y < src_h,
                src.len() >= src_w * src_h * 3,
                src_row == (y * src_w) * 3,
                y * src_w + src_w <= src_w * src_h,
                dst_row == (off_y + y) * dst_w + off_x,
                dst_row + src_w <= dst_w * dst_h,
                dst.len() >= 3 * dst_w * dst_h,
                initial.len() == dst.len(),
                forall|k: int| 3 * plane <= k < dst.len() ==> dst[k] == initial[k],
                        forall|c: int, yy: int, xx: int|
                    0 <= c < 3 && 0 <= yy < h && 0 <= xx < w ==> {
                        let i = #[trigger] tensor_index(w, h, c, yy, xx);
                        if (off_y <= yy < off_y + y && off_x <= xx < off_x + src_w) || (yy
                            == off_y + y && off_x <= xx < off_x + x) {
                            dst[i] == levels@[src[((yy - off_y) * src_w + (xx - off_x)) * 3 + c] as int]
                        } else {
                            dst[i] == initial[i]
                        }
                    },
        {
            let ghost yy0 = (off_y + y) as int;
            let ghost xx0 = (off_x + x) as int;
            proof {
                assert((y * src_w + x) * 3 + 2 < src_w * src_h * 3) by (nonlinear_arith)
                    requires
                        y * src_w + src_w <= src_w * src_h,
                        x < src_w,
                ;
                assert(src_row + x * 3 == (y * src_w + x) * 3) by (nonlinear_arith)
                    requires
                        src_row == (y * src_w) * 3,
                ;
                lemma_tensor_index(w, h, 0, yy0, xx0);
                lemma_tensor_index(w, h, 1, yy0, xx0);
                lemma_tensor_index(w, h, 2, yy0, xx0);
                assert(yy0 * w + xx0 == dst_row + x);
            }
            let s = src_row + x * 3;
            let d = dst_row + x;
            let ghost before = dst@;
            let vr = levels[src[s] as usize];
            dst.set(r_plane + d, vr);
            let vg = levels[src[s + 1] as usize];
            dst.set(g_plane + d, vg);
            let vb = levels[src[s + 2] as usize];
            dst.set(b_plane + d, vb);
            proof {
                assert(tensor_index(w, h, 0, yy0, xx0) == r_plane + d);
                assert(tensor_index(w, h, 1, yy0, xx0) == g_plane + d);
                assert(tensor_index(w, h, 2, yy0, xx0) == b_plane + d);
                assert forall|c: int, yy: int, xx: int|
                    0 <= c < 3 && 0 <= yy < h && 0 <= xx < w implies {
                        let i = #[trigger] tensor_index(w, h, c, yy, xx);
                        if (off_y <= yy < off_y + y && off_x <= xx < off_x + src_w) || (yy
                            == off_y + y && off_x <= xx < off_x + x + 1) {
                            dst[i] == levels@[src[((yy - off_y) * src_w + (xx - off_x)) * 3 + c] as int]
                        } else {
                            dst[i] == initial[i]
                        }
                    } by {
                    let i = tensor_index(w, h, c, yy, xx);
                    lemma_tensor_index(w, h, c, yy, xx);
                    if yy == yy0 && xx == xx0 {
                        assert(((yy - off_y) * src_w + (xx - off_x)) * 3 + c == s + c);
                    } else {
                        if i == r_plane + d {
                            lemma_tensor_index_injective(w, h, c, yy, xx, 0, yy0, xx0);
                        }
                        if i == g_plane + d {
                            lemma_tensor_index_injective(w, h, c, yy, xx, 1, yy0, xx0);
                        }
                        if i == b_plane + d {
                            lemma_tensor_index_injective(w, h, c, yy, xx, 2, yy0, xx0);
                        }
                        assert(dst[i] == before[i]);
                    }
                }
            }
        }
    }
}

/// Why preprocessing failed.
#[derive(Debug)]
pub enum PreprocessError {
    /// A network input dimension is zero.
    ZeroInputDimension,
    /// The source image has a zero dimension.
    ZeroSourceDimension,
    /// The resize step failed.
    Resize(ResizeFailure),
}

impl PreprocessError {
    /// Human-readable description, for the errors that have one here.
    pub fn message(&self) -> (m: Option<&'static str>)
        ensures
            match *self {
                PreprocessError::ZeroInputDimension => m matches Some(s) && s@
                    == "input dimensions must be non-zero"@,
                PreprocessError::ZeroSourceDimension => m matches Some(s) && s@
                    == "source image has a zero dimension"@,
                PreprocessError::Resize(_) => m is None,
            },
    {
        match self {
            PreprocessError::ZeroInputDimension => Some("input dimensions must be non-zero"),
            PreprocessError::ZeroSourceDimension => Some("source image has a zero dimension"),
            PreprocessError::Resize(_) => None,
        }
    }
}

/// Letterboxes RGB images into a pre-allocated CHW network input of
/// `target_w × target_h` elements per channel. A byte `b` of the image is
/// written as `levels[b]`.
pub struct Preprocessor<T> {
    input: Vec<T>,
    pad: T,
    levels: [T; 256],
    resizer: Resizer,
    target_w: u32,
    target_h: u32,
    resize_buf: Vec<u8>,
    last_layout: Option<LetterboxLayout>,
}

impl<T: Copy> Preprocessor<T> {
    /// The network input, three planes of `target_w × target_h`.
    pub closed spec fn tensor(&self) -> Seq<T> {
        self.input@
    }

    /// The element written where the image does not reach.
    pub closed spec fn pad_value(&self) -> T {
        self.pad
    }

    /// The element written for each byte value of the image.
    pub closed spec fn levels(&self) -> Seq<T> {
        self.levels@
    }

    /// Width of the network input.
    pub closed spec fn target_width(&self) -> u32 {
        self.target_w
    }

    /// Height of the network input.
    pub closed spec fn target_height(&self) -> u32 {
        self.target_h
    }

    /// The last resized image (packed RGB; may be longer than the image).
    pub closed spec fn resized(&self) -> Seq<u8> {
        self.resize_buf@
    }

    /// The layout the padding was last written for.
    pub closed spec fn cached_layout(&self) -> Option<LetterboxLayout> {
        self.last_layout
    }

    /// The input has its size, and the padding of the cached layout holds
    /// the pad element.
    pub closed spec fn wf(&self) -> bool {
        &&& self.target_w > 0
        &&& self.target_h > 0
        &&& self.input.len() == 3 * self.target_w * self.target_h
        &&& match self.last_layout {
            Some(l) => layout_fits(l, self.target_w as int, self.target_h as int) && pad_outside(
                self.input@,
                self.pad,
                l,
                self.target_w as int,
                self.target_h as int,
            ),
            None => true,
        }
    }

    /// A preprocessor for a `width × height` network input, filled with `pad`,
    /// that writes a byte `b` of an image as `levels[b]`.
    pub fn new(width: u32, height: u32, pad: T, levels: [T; 256]) -> (r: Result<Self, PreprocessError>)
        requires
            3 * width * height <= isize::MAX,
        ensures
            match r {
                Ok(p) => {
                    &&& width > 0 && height > 0
                    &&& p.wf()
                    &&& p.target_width() == width
                    &&& p.target_height() == height
                    &&& p.pad_value() == pad
                    &&& p.levels() == levels@
                    &&& p.cached_layout() is None
                    &&& p.tensor().len() == 3 * width * height
                    &&& forall|k: int| 0 <= k < p.tensor().len() ==> #[trigger] p.tensor()[k] == pad
                },
                Err(e) => (width == 0 || height == 0) && e is ZeroInputDimension,
            },
    {
        if width == 0 || height == 0 {
            return Err(PreprocessError::ZeroInputDimension);
        }
        proof {
            assert(3 * width <= 3 * width * height) by (nonlinear_arith)
                requires
                    height >= 1,
            ;
        }
        let len: usize = 3 * (width as usize) * (height as usize);
        let mut input: Vec<T> = Vec::with_capacity(len);
        for k in 0..len
            invariant
                input.len() == k,
                forall|m: int| 0 <= m < k ==> #[trigger] input[m] == pad,
        {
            input.push(pad);
        }
        Ok(Preprocessor {
            input,
            pad,
            levels,
            resizer: Resizer::new(),
            target_w: width,
            target_h: height,
            resize_buf: Vec::new(),
            last_layout: None,
        })
    }

    /// The network input.
    pub fn input(&self) -> (v: &Vec<T>)
        ensures
            v@ == self.tensor(),
    {
        &self.input
    }

    /// The layout the padding was last written for.
    pub fn last_layout(&self) -> (l: Option<LetterboxLayout>)
        ensures
            l == self.cached_layout(),
    {
        self.last_layout
    }

    /// Network input size `(width, height)`.
    pub fn target(&self) -> (t: (u32, u32))
        ensures
            t == (self.target_width(), self.target_height()),
    {
        (self.target_w, self.target_h)
    }

    /// Letterboxes the packed RGB image `src` (`src_w × src_h`), resized to
    /// `new_w × new_h`, into the network input. The padding is rewritten only
    /// when the layout differs from the previous call's.
    pub fn process(
        &mut self,
        src: &Vec<u8>,
        src_w: u32,
        src_h: u32,
        new_w: u32,
        new_h: u32,
    ) -> (r: Result<LetterboxLayout, PreprocessError>)
        requires
            old(self).wf(),
            1 <= new_w <= old(self).target_width(),
            1 <= new_h <= old(self).target_height(),
            src_w * src_h * 3 <= usize::MAX,
        ensures
            final(self).wf(),
            final(self).target_width() == old(self).target_width(),
            final(self).target_height() == old(self).target_height(),
            final(self).pad_value() == old(self).pad_value(),
            final(self).levels() == old(self).levels(),
            match r {
                Ok(l) => {
                    &&& src_w > 0 && src_h > 0 && src.len() >= src_w * src_h * 3
                    &&& l == letterbox_layout_spec(
                        old(self).target_width(),
                        old(self).target_height(),
                        new_w,
                        new_h,
                    )
                    &&& final(self).cached_layout() == Some(l)
                    &&& final(self).resized().subrange(0, new_w * new_h * 3) == bilinear_rgb(
                        src@.subrange(0, src_w * src_h * 3),
                        src_w,
                        src_h,
                        new_w,
                        new_h,
                    )
                    &&& letterboxed(
                        final(self).tensor(),
                        final(self).resized(),
                        final(self).pad_value(),
                        l,
                        final(self).target_width() as int,
                        final(self).target_height() as int,
                        final(self).levels(),
                    )
                },
                Err(PreprocessError::ZeroSourceDimension) => {
                    &&& src_w == 0 || src_h == 0
                    &&& final(self).tensor() == old(self).tensor()
                    &&& final(self).cached_layout() == old(self).cached_layout()
                    &&& final(self).resized() == old(self).resized()
                },
                Err(PreprocessError::Resize(_)) => {
                    let l = letterbox_layout_spec(
                        old(self).target_width(),
                        old(self).target_height(),
                        new_w,
                        new_h,
                    );
                    &&& src_w > 0 && src_h > 0 && src.len() < src_w * src_h * 3
                    &&& final(self).cached_layout() == Some(l)
                    &&& if old(self).cached_layout() == Some(l) {
                        final(self).tensor() == old(self).tensor()
                    } else {
                        forall|k: int|
                            0 <= k < final(self).tensor().len() ==> #[trigger] final(self).tensor()[k]
                                == final(self).pad_value()
                    }
                },
                Err(PreprocessError::ZeroInputDimension) => false,
            },
    {
        if src_w == 0 || src_h == 0 {
            return Err(PreprocessError::ZeroSourceDimension);
        }
        let target_w = self.target_w;
        let target_h = self.target_h;
        let ghost w = target_w as int;
        let ghost h = target_h as int;
        let layout = letterbox_layout(target_w, target_h, new_w, new_h);
        let changed = match self.last_layout {
            Some(l) => l != layout,
            None => true,
        };
        let ghost levels = self.levels;
        if changed {
            let len = self.input.len();
            let pad = self.pad;
            for k in 0..len
                invariant
                    len == self.input.len(),
                    pad == self.pad,
                    self.levels == levels,
                    self.target_w == target_w,
                    self.target_h == target_h,
                    target_w > 0,
                    target_h > 0,
                    len == 3 * target_w * target_h,
                    forall|m: int| 0 <= m < k ==> #[trigger] self.input[m] == pad,
            {
                self.input.set(k, pad);
            }
            self.last_layout = Some(layout);
            proof {
                assert forall|c: int, y: int, x: int|
                    0 <= c < 3 && 0 <= y < h && 0 <= x < w && !in_content(
                        layout,
                        y,
                        x,
                    ) implies self.input@[#[trigger] tensor_index(w, h, c, y, x)] == self.pad by {
                    lemma_tensor_index(w, h, c, y, x);
                }
            }
        }
        proof {
            let len = self.input.len();
            assert(new_w * new_h * 3 <= len) by (nonlinear_arith)
                requires
                    new_w <= target_w,
                    new_h <= target_h,
                    len == 3 * target_w * target_h,
            ;
        }
        let required: usize = (new_w as usize) * (new_h as usize) * 3;
        if self.resize_buf.len() < required {
            self.resize_buf.resize(required, 0u8);
        }
        let resized = resize_rgb_bilinear(
            &mut self.resizer,
            src,
            src_w,
            src_h,
            &mut self.resize_buf,
            required,
            new_w,
            new_h,
        );
        if let Err(e) = resized {
            return Err(PreprocessError::Resize(e));
        }
        let ghost before = self.input@;
        hwc_into_chw_at_offset(
            &self.resize_buf,
            new_w as usize,
            new_h as usize,
            &mut self.input,
            target_w as usize,
            target_h as usize,
            layout.pad_left as usize,
            layout.pad_top as usize,
            &self.levels,
        );
        proof {
            assert forall|c: int, y: int, x: int|
                0 <= c < 3 && 0 <= y < h && 0 <= x < w && !in_content(
                    layout,
                    y,
                    x,
                ) implies self.input@[#[trigger] tensor_index(w, h, c, y, x)] == self.pad by {
                assert(before[tensor_index(w, h, c, y, x)] == self.pad);
            }
        }
        Ok(layout)
    }
}

/// The layout cache leaves nothing of earlier images: two preprocessors of
/// the same input size, pad element and levels that have each just
/// letterboxed the same source image at the same size (as `process` leaves
/// them on success) hold the same network input, whatever each processed
/// before.
pub proof fn lemma_process_ignores_history<T: Copy>(
    p1: Preprocessor<T>,
    p2: Preprocessor<T>,
    src: Seq<u8>,
    src_w: u32,
    src_h: u32,
    l: LetterboxLayout,
)
    requires
        p1.target_width() == p2.target_width(),
        p1.target_height() == p2.target_height(),
        p1.pad_value() == p2.pad_value(),
        p1.levels() == p2.levels(),
        p1.resized().subrange(0, l.new_w * l.new_h * 3) == bilinear_rgb(
            src.subrange(0, src_w * src_h * 3),
            src_w,
            src_h,
            l.new_w,
            l.new_h,
        ),
        p2.resized().subrange(0, l.new_w * l.new_h * 3) == bilinear_rgb(
            src.subrange(0, src_w * src_h * 3),
            src_w,
            src_h,
            l.new_w,
            l.new_h,
        ),
        letterboxed(
            p1.tensor(),
            p1.resized(),
            p1.pad_value(),
            l,
            p1.target_width() as int,
            p1.target_height() as int,
            p1.levels(),
        ),
        letterboxed(
            p2.tensor(),
            p2.resized(),
            p2.pad_value(),
            l,
            p2.target_width() as int,
            p2.target_height() as int,
            p2.levels(),
        ),
    ensures
        p1.tensor() == p2.tensor(),
{
    lemma_letterboxed_unique(
        p1.tensor(),
        p1.resized(),
        p2.tensor(),
        p2.resized(),
        p1.pad_value(),
        l,
        p1.target_width(),
        p1.target_height(),
        p1.levels(),
    );
}

} // verus!
