//! Output-tensor layout checks and per-variant candidate selection.
//!
//! Tensor values arrive as `f32` bit patterns. Selection only compares them
//! (see `float_bits`); the one arithmetic step, the YOLOv5 product
//! `objectness × class score`, is handed in as a pure function.
use vstd::prelude::*;

use crate::float_bits::{f32_le, f32_lt, le, lt, NEG_INFINITY_BITS, NEG_ONE_BITS};
use crate::model::ModelVariant;

verus! {

/// Why a model output could not be decoded.
#[derive(Debug, PartialEq, Eq)]
pub enum DecodeError {
    /// The output tensor's shape does not fit the variant's layout.
    UnexpectedOutputShape { variant: ModelVariant, got: Vec<i64> },
}

/// Shape of the output tensor of each variant, as the error message states it.
pub fn expected_shape(variant: ModelVariant) -> (s: &'static str)
    ensures
        s@ == match variant {
            ModelVariant::V5 => "[1, N, 5+C] with C >= 1"@,
            ModelVariant::V11 => "[1, 4+C, N] with C >= 1"@,
            ModelVariant::V26 => "[1, N, 6]"@,
        },
{
    match variant {
        ModelVariant::V5 => "[1, N, 5+C] with C >= 1",
        ModelVariant::V11 => "[1, 4+C, N] with C >= 1",
        ModelVariant::V26 => "[1, N, 6]",
    }
}

/// A tensor dimension as a signed shape entry (saturating at `i64::MAX`).
pub open spec fn dim_as_i64(d: usize) -> i64 {
    if d <= i64::MAX {
        d as i64
    } else {
        i64::MAX
    }
}

/// Converts tensor dimensions to a signed shape, entry by entry.
pub fn output_shape(dims: &Vec<usize>) -> (shape: Vec<i64>)
    ensures
        shape.len() == dims.len(),
        forall|k: int| 0 <= k < dims.len() ==> #[trigger] shape[k] == dim_as_i64(dims[k]),
{
    let mut shape: Vec<i64> = Vec::with_capacity(dims.len());
    for k in 0..dims.len()
        invariant
            shape.len() == k,
            forall|m: int| 0 <= m < k ==> #[trigger] shape[m] == dim_as_i64(dims[m]),
    {
        let d = dims[k];
        let v: i64 = if d as u64 <= 0x7fff_ffff_ffff_ffffu64 {
            d as i64
        } else {
            i64::MAX
        };
        shape.push(v);
    }
    shape
}

/// Picks the output tensor to decode among the session's output names.
pub fn select_output(names: &Vec<String>) -> (r: Option<usize>)
    ensures
        match r {
            Some(k) => {
                &&& k < names.len()
                &&& (names[k as int]@ == "output0"@ && forall|m: int|
                    0 <= m < k ==> names[m]@ != "output0"@) || (k == 0 && forall|m: int|
                    0 <= m < names.len() ==> names[m]@ != "output0"@)
            },
            None => names.len() == 0,
        },
{
    let wanted = String::from_str("output0");
    proof {
        reveal_strlit("output0");
    }
    for k in 0..names.len()
        invariant
            wanted@ == "output0"@,
            forall|m: int| 0 <= m < k ==> names[m]@ != "output0"@,
    {
        if names[k] == wanted {
            return Some(k);
        }
    }
    if names.len() > 0 {
        Some(0)
    } else {
        None
    }
}

/// Where predictions sit in a flat output tensor.
#[derive(Debug, Clone, Copy, PartialEq, Eq, Structural)]
pub struct OutputLayout {
    /// Number of predictions `N`.
    pub predictions: usize,
    /// Values per prediction (`5 + C`, `4 + C` or `6`).
    pub values: usize,
}

/// Every entry is a valid dimension.
pub open spec fn shape_entries_valid(shape: Seq<i64>) -> bool {
    forall|k: int| 0 <= k < shape.len() ==> 0 <= #[trigger] shape[k] <= usize::MAX
}

/// The shape fits the variant's output layout.
pub open spec fn shape_fits(variant: ModelVariant, shape: Seq<i64>) -> bool {
    &&& shape.len() == 3
    &&& shape[0] == 1
    &&& match variant {
        ModelVariant::V5 => shape[2] >= 6,
        ModelVariant::V11 => shape[1] >= 5,
        ModelVariant::V26 => shape[2] == 6,
    }
}

/// The layout a fitting shape describes.
pub open spec fn layout_of(variant: ModelVariant, shape: Seq<i64>) -> OutputLayout {
    match variant {
        ModelVariant::V11 => OutputLayout { predictions: shape[2] as usize, values: shape[1] as usize },
        _ => OutputLayout { predictions: shape[1] as usize, values: shape[2] as usize },
    }
}

/// Every row that yields a candidate has its candidate collected.
proof fn lemma_collect_rows_complete<T>(k: int, row: spec_fn(int) -> Option<T>)
    ensures
        forall|i: int|
            0 <= i < k && #[trigger] row(i) is Some ==> exists|m: int|
                0 <= m < collect_rows(k, row).len() && collect_rows(k, row)[m] == row(i)->0,
    decreases k,
{
    if k > 0 {
        lemma_collect_rows_complete(k - 1, row);
        let prev = collect_rows(k - 1, row);
        let all = collect_rows(k, row);
        assert forall|i: int| 0 <= i < k && #[trigger] row(i) is Some implies exists|m: int|
            0 <= m < all.len() && all[m] == row(i)->0 by {
            if i < k - 1 {
                let m = choose|m: int| 0 <= m < prev.len() && prev[m] == row(i)->0;
                assert(all[m] == prev[m]);
            } else {
                assert(all[prev.len() as int] == row(i)->0);
            }
        }
    }
}

/// Candidates are collected in the order of their rows.
proof fn lemma_collect_rows_ordered<T>(k: int, row: spec_fn(int) -> Option<T>, key: spec_fn(T) -> int)
    requires
        forall|i: int| 0 <= i < k && #[trigger] row(i) is Some ==> key(row(i)->0) == i,
    ensures
        forall|a: int, b: int|
            0 <= a < b < collect_rows(k, row).len() ==> key(#[trigger] collect_rows(k, row)[a])
                < key(#[trigger] collect_rows(k, row)[b]),
    decreases k,
{
    if k > 0 {
        lemma_collect_rows_ordered(k - 1, row, key);
        lemma_collect_rows_members(k - 1, row);
        let prev = collect_rows(k - 1, row);
        let all = collect_rows(k, row);
        assert forall|a: int, b: int| 0 <= a < b < all.len() implies key(#[trigger] all[a]) < key(
            #[trigger] all[b],
        ) by {
            assert(all[a] == prev[a]);
            let i = choose|i: int| 0 <= i < k - 1 && #[trigger] row(i) == Some(prev[a]);
            if b < prev.len() {
                assert(all[b] == prev[b]);
            } else {
                assert(row(k - 1) == Some(all[b]));
            }
        }
    }
}

/// Every YOLOv5 row whose objectness and whose `objectness × best class
/// score` both reach the threshold is a candidate, with the first best
/// class; candidates come in row order.
pub proof fn lemma_v5_candidates_complete<F: Fn(u32, u32) -> u32>(
    raw: Seq<u32>,
    layout: OutputLayout,
    threshold: u32,
    product: F,
)
    requires
        layout.values >= 6,
        layout.predictions <= usize::MAX,
    ensures
        ({
            let cands = v5_candidates(raw, layout, threshold, product, layout.predictions as int);
            &&& forall|i: int|
                0 <= i < layout.predictions ==> {
                    let obj = raw[i * layout.values + 4];
                    let best = #[trigger] argmax_spec(
                        strided(raw, i * layout.values + 5, 1, layout.values - 5),
                    );
                    let conf = product_of(product, obj, best.1);
                    !lt(obj, threshold) && !lt(conf, threshold) ==> exists|m: int|
                        0 <= m < cands.len() && cands[m] == V5Candidate {
                            row: i as usize,
                            class_id: best.0 as usize,
                            confidence: conf,
                        }
                }
            &&& forall|a: int, b: int|
                0 <= a < b < cands.len() ==> (#[trigger] cands[a]).row < (#[trigger] cands[b]).row
        }),
{
    let row = |i: int| v5_row(raw, layout, threshold, product, i);
    lemma_collect_rows_complete(layout.predictions as int, row);
    let key = |c: V5Candidate| c.row as int;
    assert forall|i: int| 0 <= i < layout.predictions as int && #[trigger] row(i) is Some implies key(row(i)->0) == i by {}
    lemma_collect_rows_ordered(layout.predictions as int, row, key);
    let cands = v5_candidates(raw, layout, threshold, product, layout.predictions as int);
    assert forall|i: int| 0 <= i < layout.predictions implies {
        let obj = raw[i * layout.values + 4];
        let best = #[trigger] argmax_spec(strided(raw, i * layout.values + 5, 1, layout.values - 5));
        let conf = product_of(product, obj, best.1);
        !lt(obj, threshold) && !lt(conf, threshold) ==> exists|m: int|
            0 <= m < cands.len() && cands[m] == V5Candidate {
                row: i as usize,
                class_id: best.0 as usize,
                confidence: conf,
            }
    } by {
        assert(row(i) == v5_row(raw, layout, threshold, product, i));
    }
}

/// Every YOLOv11 prediction whose best class score (the first maximum over
/// its class channels) reaches the threshold is a candidate, with that class
/// and score; candidates come in prediction order.
pub proof fn lemma_v11_candidates_complete(raw: Seq<u32>, layout: OutputLayout, threshold: u32)
    requires
        layout.values >= 5,
        layout.predictions <= usize::MAX,
    ensures
        ({
            let n = layout.predictions as int;
            let cands = v11_candidates(raw, layout, threshold, n);
            &&& forall|i: int|
                0 <= i < n ==> {
                    let best = #[trigger] argmax_spec(strided(raw, 4 * n + i, n, layout.values - 4));
                    !lt(best.1, threshold) ==> exists|m: int|
                        0 <= m < cands.len() && cands[m] == V11Candidate {
                            row: i as usize,
                            class_id: best.0 as usize,
                            score: best.1,
                        }
                }
            &&& forall|a: int, b: int|
                0 <= a < b < cands.len() ==> (#[trigger] cands[a]).row < (#[trigger] cands[b]).row
        }),
{
    let n = layout.predictions as int;
    let row = |i: int| v11_row(raw, layout, threshold, i);
    lemma_collect_rows_complete(n, row);
    let key = |c: V11Candidate| c.row as int;
    assert forall|i: int| 0 <= i < n && #[trigger] row(i) is Some implies key(row(i)->0) == i by {}
    lemma_collect_rows_ordered(n, row, key);
    let cands = v11_candidates(raw, layout, threshold, n);
    assert forall|i: int| 0 <= i < n implies {
        let best = #[trigger] argmax_spec(strided(raw, 4 * n + i, n, layout.values - 4));
        !lt(best.1, threshold) ==> exists|m: int|
            0 <= m < cands.len() && cands[m] == V11Candidate {
                row: i as usize,
                class_id: best.0 as usize,
                score: best.1,
            }
    } by {
        assert(row(i) == v11_row(raw, layout, threshold, i));
    }
}

/// Every YOLOv26 row whose confidence reaches the threshold and whose class
/// value is above `-1.0` (so truncates to a class of zero or more) is a
/// candidate with its confidence; candidates come in row order.
pub proof fn lemma_v26_candidates_complete(raw: Seq<u32>, threshold: u32, n: int)
    requires
        0 <= n <= usize::MAX,
    ensures
        ({
            let cands = v26_candidates(raw, threshold, n);
            &&& forall|i: int|
                0 <= i < n && !lt(#[trigger] raw[6 * i + 4], threshold) && !le(
                    raw[6 * i + 5],
                    NEG_ONE_BITS,
                ) ==> exists|m: int|
                    0 <= m < cands.len() && cands[m] == V26Candidate {
                        row: i as usize,
                        confidence: raw[6 * i + 4],
                    }
            &&& forall|a: int, b: int|
                0 <= a < b < cands.len() ==> (#[trigger] cands[a]).row < (#[trigger] cands[b]).row
        }),
{
    let row = |i: int| v26_row(raw, threshold, i);
    lemma_collect_rows_complete(n, row);
    let key = |c: V26Candidate| c.row as int;
    assert forall|i: int| 0 <= i < n && #[trigger] row(i) is Some implies key(row(i)->0) == i by {}
    lemma_collect_rows_ordered(n, row, key);
    let cands = v26_candidates(raw, threshold, n);
    assert forall|i: int|
        0 <= i < n && !lt(#[trigger] raw[6 * i + 4], threshold) && !le(
            raw[6 * i + 5],
            NEG_ONE_BITS,
        ) implies exists|m: int|
        0 <= m < cands.len() && cands[m] == V26Candidate {
            row: i as usize,
            confidence: raw[6 * i + 4],
        } by {
        assert(row(i) == v26_row(raw, threshold, i));
    }
}

/// Each variant accepts its documented output shape, for every number of
/// predictions `n` and of classes `c >= 1`: YOLOv5 `[1, n, 5 + c]`, YOLOv11
/// `[1, 4 + c, n]`, YOLOv26 `[1, n, 6]`, with the layout read from it.
pub proof fn lemma_accepted_output_shapes(n: i64, c: i64)
    requires
        n >= 0,
        1 <= c <= i64::MAX - 5,
    ensures
        shape_fits(ModelVariant::V5, seq![1i64, n, (5 + c) as i64]),
        layout_of(ModelVariant::V5, seq![1i64, n, (5 + c) as i64]) == (OutputLayout {
            predictions: n as usize,
            values: (5 + c) as usize,
        }),
        shape_fits(ModelVariant::V11, seq![1i64, (4 + c) as i64, n]),
        layout_of(ModelVariant::V11, seq![1i64, (4 + c) as i64, n]) == (OutputLayout {
            predictions: n as usize,
            values: (4 + c) as usize,
        }),
        shape_fits(ModelVariant::V26, seq![1, n, 6]),
        layout_of(ModelVariant::V26, seq![1, n, 6]) == (OutputLayout {
            predictions: n as usize,
            values: 6,
        }),
{
}

/// Shapes outside a variant's layout are refused: anything but three
/// dimensions with a batch of one, a YOLOv5 or YOLOv11 output without a
/// class, and a YOLOv26 row of other than six values.
pub proof fn lemma_refused_output_shapes(variant: ModelVariant, shape: Seq<i64>, n: i64, k: i64)
    ensures
        shape.len() != 3 || shape[0] != 1 ==> !shape_fits(variant, shape),
        !shape_fits(ModelVariant::V5, seq![1, n, 5]),
        !shape_fits(ModelVariant::V11, seq![1, 4, n]),
        k != 6 ==> !shape_fits(ModelVariant::V26, seq![1, n, k]),
{
}

/// Checks an output shape against the variant's layout.
pub fn check_output_shape(variant: ModelVariant, shape: &Vec<i64>) -> (r: Result<
    OutputLayout,
    DecodeError,
>)
    requires
        shape_entries_valid(shape@),
    ensures
        match r {
            Ok(layout) => shape_fits(variant, shape@) && layout == layout_of(variant, shape@),
            Err(DecodeError::UnexpectedOutputShape { variant: v, got }) => !shape_fits(
                variant,
                shape@,
            ) && v == variant && got@ == shape@,
        },
{
    let fits = shape.len() == 3 && shape[0] == 1 && match variant {
        ModelVariant::V5 => shape[2] >= 6,
        ModelVariant::V11 => shape[1] >= 5,
        ModelVariant::V26 => shape[2] == 6,
    };
    if !fits {
        let mut got: Vec<i64> = Vec::with_capacity(shape.len());
        for k in 0..shape.len()
            invariant
                got@ == shape@.take(k as int),
        {
            got.push(shape[k]);
        }
        assert(got@ == shape@.take(shape.len() as int));
        assert(shape@.take(shape.len() as int) =~= shape@);
        return Err(DecodeError::UnexpectedOutputShape { variant, got });
    }
    match variant {
        ModelVariant::V11 => Ok(
            OutputLayout { predictions: shape[2] as usize, values: shape[1] as usize },
        ),
        _ => Ok(OutputLayout { predictions: shape[1] as usize, values: shape[2] as usize }),
    }
}

/// Index of the best score and the score, scanning left to right and
/// replacing the best only by a strictly greater score; starts from
/// (0, negative infinity). See [`lemma_argmax_is_first_maximum`].
pub open spec fn argmax_spec(scores: Seq<u32>) -> (int, u32)
    decreases scores.len(),
{
    if scores.len() == 0 {
        (0, NEG_INFINITY_BITS)
    } else {
        let prev = argmax_spec(scores.drop_last());
        if lt(prev.1, scores.last()) {
            ((scores.len() - 1) as int, scores.last())
        } else {
            prev
        }
    }
}

/// The arg-max picks the first greatest score: nothing is greater than the
/// returned score, nothing before its index equals or exceeds it, and when no
/// score exceeds negative infinity it returns index 0 with negative infinity.
pub proof fn lemma_argmax_is_first_maximum(scores: Seq<u32>)
    ensures
        ({
            let (i, best) = argmax_spec(scores);
            &&& !crate::float_bits::is_nan(best)
            &&& forall|k: int| 0 <= k < scores.len() ==> !lt(best, #[trigger] scores[k])
            &&& forall|k: int| 0 <= k < i ==> !le(best, #[trigger] scores[k])
            &&& ((0 <= i < scores.len() && best == scores[i] && lt(NEG_INFINITY_BITS, best)) || (i
                == 0 && best == NEG_INFINITY_BITS && forall|k: int|
                0 <= k < scores.len() ==> !lt(NEG_INFINITY_BITS, #[trigger] scores[k])))
        }),
    decreases scores.len(),
{
    assert(!crate::float_bits::is_nan(NEG_INFINITY_BITS)) by (bit_vector);
    if scores.len() > 0 {
        let init = scores.drop_last();
        lemma_argmax_is_first_maximum(init);
        let (pi, pb) = argmax_spec(init);
        let last = scores.last();
        let (i, best) = argmax_spec(scores);
        assert forall|k: int| 0 <= k < init.len() implies #[trigger] scores[k] == init[k] by {}
        if lt(pb, last) {
            assert forall|k: int| 0 <= k < i implies !le(best, #[trigger] scores[k]) by {
                assert(scores[k] == init[k]);
                assert(!lt(pb, init[k]));
            }
        } else {
            assert forall|k: int| 0 <= k < i implies !le(best, #[trigger] scores[k]) by {
                assert(scores[k] == init[k]);
            }
        }
    }
}

/// `count` values of `raw`, from `start`, `step` apart.
pub open spec fn strided(raw: Seq<u32>, start: int, step: int, count: int) -> Seq<u32> {
    Seq::new(count as nat, |c: int| raw[start + c * step])
}

proof fn lemma_strided_index(start: int, step: int, c: int, count: int)
    requires
        0 <= c < count,
        step >= 0,
    ensures
        start + c * step <= start + (count - 1) * step,
{
    assert(c * step <= (count - 1) * step) by (nonlinear_arith)
        requires
            0 <= c <= count - 1,
            step >= 0,
    ;
}

/// Arg-max over `count` bit patterns of `raw` taken `step` apart from `start`.
pub fn argmax_strided(raw: &Vec<u32>, start: usize, step: usize, count: usize) -> (r: (
    usize,
    u32,
))
    requires
        count > 0 ==> start + (count - 1) * step < raw.len(),
    ensures
        r.0 as int == argmax_spec(strided(raw@, start as int, step as int, count as int)).0,
        r.1 == argmax_spec(strided(raw@, start as int, step as int, count as int)).1,
{
    let ghost all = strided(raw@, start as int, step as int, count as int);
    let mut best_idx: usize = 0;
    let mut best: u32 = NEG_INFINITY_BITS;
    let mut c: usize = 0;
    while c < count
        invariant
            c <= count,
            count > 0 ==> start + (count - 1) * step < raw.len(),
            all == strided(raw@, start as int, step as int, count as int),
            best_idx as int == argmax_spec(all.take(c as int)).0,
            best == argmax_spec(all.take(c as int)).1,
        decreases count - c,
    {
        proof {
            lemma_strided_index(start as int, step as int, c as int, count as int);
            assert(c * step <= (count - 1) * step) by (nonlinear_arith)
                requires
                    c < count,
            ;
        }
        let s = raw[start + c * step];
        proof {
            assert(all.take(c + 1).drop_last() =~= all.take(c as int));
            assert(all.take(c + 1).last() == s);
        }
        if f32_lt(best, s) {
            best = s;
            best_idx = c;
        }
        c = c + 1;
    }
    proof {
        assert(all.take(count as int) =~= all);
    }
    (best_idx, best)
}

/// Candidates of every prediction below `n` that yields one, in order.
pub open spec fn collect_rows<T>(n: int, row: spec_fn(int) -> Option<T>) -> Seq<T>
    decreases n,
{
    if n <= 0 {
        Seq::empty()
    } else {
        let prev = collect_rows(n - 1, row);
        match row(n - 1) {
            Some(c) => prev.push(c),
            None => prev,
        }
    }
}

proof fn lemma_row_bounds(i: int, n: int, w: int)
    requires
        0 <= i < n,
        w >= 0,
    ensures
        i * w + w <= n * w,
        0 <= i * w,
{
    assert(i * w + w <= n * w) by (nonlinear_arith)
        requires
            i + 1 <= n,
            w >= 0,
    ;
    assert(0 <= i * w) by (nonlinear_arith)
        requires
            i >= 0,
            w >= 0,
    ;
}

/// A YOLOv5 prediction that passed both confidence checks.
#[derive(Debug, Clone, Copy, PartialEq, Eq, Structural)]
pub struct V5Candidate {
    /// Index of the prediction (row of the output).
    pub row: usize,
    /// Class with the best class score.
    pub class_id: usize,
    /// `objectness × best class score`, as an `f32` bit pattern.
    pub confidence: u32,
}

/// A YOLOv11 prediction whose best class score passed the threshold.
#[derive(Debug, Clone, Copy, PartialEq, Eq, Structural)]
pub struct V11Candidate {
    /// Index of the prediction (column of the output).
    pub row: usize,
    /// Class with the best score.
    pub class_id: usize,
    /// The best class score, as an `f32` bit pattern.
    pub score: u32,
}

/// A YOLOv26 prediction that passed the threshold and names a class.
#[derive(Debug, Clone, Copy, PartialEq, Eq, Structural)]
pub struct V26Candidate {
    /// Index of the prediction (row of the output).
    pub row: usize,
    /// Its confidence, as an `f32` bit pattern.
    pub confidence: u32,
}

/// What `f` computes for `(a, b)`.
pub open spec fn product_of<F: Fn(u32, u32) -> u32>(f: F, a: u32, b: u32) -> u32 {
    choose|r: u32| call_ensures(f, (a, b), r)
}

/// `f` returns one result per argument pair, as a pure computation does.
pub open spec fn is_pure_product<F: Fn(u32, u32) -> u32>(f: F) -> bool {
    forall|a: u32, b: u32, r: u32| #[trigger] call_ensures(f, (a, b), r) ==> r == product_of(f, a, b)
}

/// Row `i` of a YOLOv5 output `[cx, cy, w, h, obj, c0..cC]`: kept when the
/// objectness and then `objectness × best class score` both reach the
/// threshold.
pub open spec fn v5_row<F: Fn(u32, u32) -> u32>(
    raw: Seq<u32>,
    layout: OutputLayout,
    threshold: u32,
    product: F,
    i: int,
) -> Option<V5Candidate> {
    let base = i * layout.values;
    let objectness = raw[base + 4];
    if lt(objectness, threshold) {
        None
    } else {
        let best = argmax_spec(strided(raw, base + 5, 1, layout.values - 5));
        let confidence = product_of(product, objectness, best.1);
        if lt(confidence, threshold) {
            None
        } else {
            Some(V5Candidate { row: i as usize, class_id: best.0 as usize, confidence })
        }
    }
}

/// YOLOv5 candidates among the first `k` rows.
pub open spec fn v5_candidates<F: Fn(u32, u32) -> u32>(
    raw: Seq<u32>,
    layout: OutputLayout,
    threshold: u32,
    product: F,
    k: int,
) -> Seq<V5Candidate> {
    collect_rows(k, |i: int| v5_row(raw, layout, threshold, product, i))
}

/// Column `i` of a YOLOv11 output `[cx, cy, w, h, c0..cC] × N`: kept when
/// its best class score reaches the threshold.
pub open spec fn v11_row(raw: Seq<u32>, layout: OutputLayout, threshold: u32, i: int) -> Option<
    V11Candidate,
> {
    let n = layout.predictions as int;
    let best = argmax_spec(strided(raw, 4 * n + i, n, layout.values - 4));
    if lt(best.1, threshold) {
        None
    } else {
        Some(V11Candidate { row: i as usize, class_id: best.0 as usize, score: best.1 })
    }
}

/// YOLOv11 candidates among the first `k` columns.
pub open spec fn v11_candidates(raw: Seq<u32>, layout: OutputLayout, threshold: u32, k: int) -> Seq<
    V11Candidate,
> {
    collect_rows(k, |i: int| v11_row(raw, layout, threshold, i))
}

/// Truncating the value toward zero (`as i64`) gives a negative integer:
/// the value is `-1.0` or below (NaN truncates to 0).
pub open spec fn truncates_negative(b: u32) -> bool {
    le(b, NEG_ONE_BITS)
}

/// Row `i` of a YOLOv26 output `[x1, y1, x2, y2, conf, class]`: kept when
/// the confidence reaches the threshold and the class is not negative.
pub open spec fn v26_row(raw: Seq<u32>, threshold: u32, i: int) -> Option<V26Candidate> {
    let confidence = raw[6 * i + 4];
    if lt(confidence, threshold) || truncates_negative(raw[6 * i + 5]) {
        None
    } else {
        Some(V26Candidate { row: i as usize, confidence })
    }
}

/// YOLOv26 candidates among the first `k` rows.
pub open spec fn v26_candidates(raw: Seq<u32>, threshold: u32, k: int) -> Seq<V26Candidate> {
    collect_rows(k, |i: int| v26_row(raw, threshold, i))
}

/// Selects YOLOv5 candidates. `product` multiplies two `f32` bit patterns.
pub fn decode_v5<F: Fn(u32, u32) -> u32>(
    raw: &Vec<u32>,
    layout: OutputLayout,
    threshold: u32,
    product: F,
) -> (candidates: Vec<V5Candidate>)
    requires
        layout.values >= 6,
        raw.len() == layout.predictions * layout.values,
        forall|a: u32, b: u32| call_requires(product, (a, b)),
        is_pure_product(product),
    ensures
        candidates@ == v5_candidates(raw@, layout, threshold, product, layout.predictions as int),
{
    let n = layout.predictions;
    let stride = layout.values;
    let num_classes = stride - 5;
    let mut candidates: Vec<V5Candidate> = Vec::new();
    for i in 0..n
        invariant
            n == layout.predictions,
            stride == layout.values,
            stride >= 6,
            num_classes == stride - 5,
            raw.len() == n * stride,
            forall|a: u32, b: u32| call_requires(product, (a, b)),
            is_pure_product(product),
            candidates@ == v5_candidates(raw@, layout, threshold, product, i as int),
    {
        proof {
            lemma_row_bounds(i as int, n as int, stride as int);
        }
        let row_start = i * stride;
        let objectness = raw[row_start + 4];
        if !f32_lt(objectness, threshold) {
            let (class_id, class_score) = argmax_strided(raw, row_start + 5, 1, num_classes);
            let confidence = product(objectness, class_score);
            if !f32_lt(confidence, threshold) {
                candidates.push(V5Candidate { row: i, class_id, confidence });
            }
        }
    }
    candidates
}

/// Selects YOLOv11 candidates.
pub fn decode_v11(raw: &Vec<u32>, layout: OutputLayout, threshold: u32) -> (candidates: Vec<
    V11Candidate,
>)
    requires
        layout.values >= 5,
        raw.len() == layout.predictions * layout.values,
    ensures
        candidates@ == v11_candidates(raw@, layout, threshold, layout.predictions as int),
{
    let n = layout.predictions;
    let channels = layout.values;
    let num_classes = channels - 4;
    let mut candidates: Vec<V11Candidate> = Vec::new();
    for i in 0..n
        invariant
            n == layout.predictions,
            channels == layout.values,
            channels >= 5,
            num_classes == channels - 4,
            raw.len() == n * channels,
            candidates@ == v11_candidates(raw@, layout, threshold, i as int),
    {
        proof {
            assert(4 * n + i + (num_classes - 1) * n < n * channels) by (nonlinear_arith)
                requires
                    i < n,
                    num_classes == channels - 4,
                    channels >= 5,
            ;
            assert(4 * n <= n * channels) by (nonlinear_arith)
                requires
                    channels >= 5,
            ;
        }
        let (class_id, score) = argmax_strided(raw, 4 * n + i, n, num_classes);
        if !f32_lt(score, threshold) {
            candidates.push(V11Candidate { row: i, class_id, score });
        }
    }
    candidates
}

/// Selects YOLOv26 candidates.
pub fn decode_v26(raw: &Vec<u32>, layout: OutputLayout, threshold: u32) -> (candidates: Vec<
    V26Candidate,
>)
    requires
        layout.values == 6,
        raw.len() == layout.predictions * 6,
    ensures
        candidates@ == v26_candidates(raw@, threshold, layout.predictions as int),
{
    let n = layout.predictions;
    let mut candidates: Vec<V26Candidate> = Vec::with_capacity(n);
    for i in 0..n
        invariant
            n == layout.predictions,
            raw.len() == n * 6,
            candidates@ == v26_candidates(raw@, threshold, i as int),
    {
        let row_start = i * 6;
        let confidence = raw[row_start + 4];
        if !f32_lt(confidence, threshold) && !f32_le(raw[row_start + 5], NEG_ONE_BITS) {
            candidates.push(V26Candidate { row: i, confidence });
        }
    }
    candidates
}

/// Every collected candidate is the candidate of some row below `k`.
proof fn lemma_collect_rows_members<T>(k: int, row: spec_fn(int) -> Option<T>)
    ensures
        forall|m: int|
            #![trigger collect_rows(k, row)[m]]
            0 <= m < collect_rows(k, row).len() ==> exists|i: int|
                0 <= i < k && #[trigger] row(i) == Some(collect_rows(k, row)[m]),
    decreases k,
{
    if k > 0 {
        lemma_collect_rows_members(k - 1, row);
        let prev = collect_rows(k - 1, row);
        let all = collect_rows(k, row);
        assert forall|m: int| #![trigger all[m]] 0 <= m < all.len() implies exists|i: int|
            0 <= i < k && #[trigger] row(i) == Some(all[m]) by {
            if m < prev.len() {
                assert(all[m] == prev[m]);
                let i = choose|i: int| 0 <= i < k - 1 && #[trigger] row(i) == Some(prev[m]);
                assert(row(i) == Some(all[m]));
            } else {
                assert(row(k - 1) == Some(all[m]));
            }
        }
    }
}

/// YOLOv5 candidates name a prediction row and one of its classes, and both
/// the objectness and the confidence reach the threshold.
pub proof fn lemma_v5_candidates_sound<F: Fn(u32, u32) -> u32>(
    raw: Seq<u32>,
    layout: OutputLayout,
    threshold: u32,
    product: F,
)
    requires
        layout.values >= 6,
        layout.predictions <= usize::MAX,
    ensures
        forall|m: int|
            0 <= m < v5_candidates(raw, layout, threshold, product, layout.predictions as int).len()
                ==> {
                let c = #[trigger] v5_candidates(
                    raw,
                    layout,
                    threshold,
                    product,
                    layout.predictions as int,
                )[m];
                &&& c.row < layout.predictions
                &&& c.class_id < layout.values - 5
                &&& !lt(raw[c.row * layout.values + 4], threshold)
                &&& !lt(c.confidence, threshold)
            },
{
    let row = |i: int| v5_row(raw, layout, threshold, product, i);
    lemma_collect_rows_members(layout.predictions as int, row);
    let all = v5_candidates(raw, layout, threshold, product, layout.predictions as int);
    assert forall|m: int| 0 <= m < all.len() implies {
        let c = #[trigger] all[m];
        &&& c.row < layout.predictions
        &&& c.class_id < layout.values - 5
        &&& !lt(raw[c.row * layout.values + 4], threshold)
        &&& !lt(c.confidence, threshold)
    } by {
        let i = choose|i: int| 0 <= i < layout.predictions && #[trigger] row(i) == Some(all[m]);
        let scores = strided(raw, i * layout.values + 5, 1, layout.values - 5);
        lemma_argmax_is_first_maximum(scores);
    }
}

/// YOLOv11 candidates name a prediction and one of its classes, and their
/// score reaches the threshold.
pub proof fn lemma_v11_candidates_sound(raw: Seq<u32>, layout: OutputLayout, threshold: u32)
    requires
        layout.values >= 5,
        layout.predictions <= usize::MAX,
    ensures
        forall|m: int|
            0 <= m < v11_candidates(raw, layout, threshold, layout.predictions as int).len() ==> {
                let c = #[trigger] v11_candidates(
                    raw,
                    layout,
                    threshold,
                    layout.predictions as int,
                )[m];
                &&& c.row < layout.predictions
                &&& c.class_id < layout.values - 4
                &&& !lt(c.score, threshold)
            },
{
    let row = |i: int| v11_row(raw, layout, threshold, i);
    lemma_collect_rows_members(layout.predictions as int, row);
    let all = v11_candidates(raw, layout, threshold, layout.predictions as int);
    assert forall|m: int| 0 <= m < all.len() implies {
        let c = #[trigger] all[m];
        &&& c.row < layout.predictions
        &&& c.class_id < layout.values - 4
        &&& !lt(c.score, threshold)
    } by {
        let i = choose|i: int| 0 <= i < layout.predictions && #[trigger] row(i) == Some(all[m]);
        let n = layout.predictions as int;
        let scores = strided(raw, 4 * n + i, n, layout.values - 4);
        lemma_argmax_is_first_maximum(scores);
    }
}

/// YOLOv26 candidates name a prediction whose confidence reaches the
/// threshold and whose class is not negative.
pub proof fn lemma_v26_candidates_sound(raw: Seq<u32>, threshold: u32, n: int)
    requires
        0 <= n <= usize::MAX,
    ensures
        forall|m: int|
            0 <= m < v26_candidates(raw, threshold, n).len() ==> {
                let c = #[trigger] v26_candidates(raw, threshold, n)[m];
                &&& c.row < n
                &&& c.confidence == raw[6 * c.row + 4]
                &&& !lt(c.confidence, threshold)
                &&& !truncates_negative(raw[6 * c.row + 5])
            },
{
    let row = |i: int| v26_row(raw, threshold, i);
    lemma_collect_rows_members(n, row);
    let all = v26_candidates(raw, threshold, n);
    assert forall|m: int| 0 <= m < all.len() implies {
        let c = #[trigger] all[m];
        &&& c.row < n
        &&& c.confidence == raw[6 * c.row + 4]
        &&& !lt(c.confidence, threshold)
        &&& !truncates_negative(raw[6 * c.row + 5])
    } by {
        let i = choose|i: int| 0 <= i < n && #[trigger] row(i) == Some(all[m]);
    }
}

} // verus!
