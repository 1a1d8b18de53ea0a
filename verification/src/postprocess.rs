//! Ranking by confidence, per-class non-maximum suppression, and capping.
use vstd::prelude::*;

use crate::float_bits::{
    is_nan, le, lemma_order_key_injective, lemma_order_key_monotone, order_key, order_key_spec,
};
use crate::model::ModelVariant;

verus! {

/// Detection `x` comes before detection `y` when ranked by confidence: a
/// higher confidence key first, equal keys in index order.
pub open spec fn ranks_before(confidences: Seq<u32>, x: int, y: int) -> bool {
    ||| order_key_spec(confidences[x]) > order_key_spec(confidences[y])
    ||| (order_key_spec(confidences[x]) == order_key_spec(confidences[y]) && x < y)
}

/// `order` lists every detection index exactly once, by descending confidence.
pub open spec fn is_ranking(confidences: Seq<u32>, order: Seq<usize>) -> bool {
    &&& order.len() == confidences.len()
    &&& forall|k: int| 0 <= k < order.len() ==> #[trigger] order[k] < confidences.len()
    &&& forall|x: usize| x < confidences.len() ==> #[trigger] order.contains(x)
    &&& forall|i: int, j: int|
        0 <= i < j < order.len() ==> ranks_before(
            confidences,
            #[trigger] order[i] as int,
            #[trigger] order[j] as int,
        )
}

/// The ranking of the detections by descending confidence (unique: see
/// [`lemma_ranking_unique`]).
pub open spec fn ranking(confidences: Seq<u32>) -> Seq<usize> {
    choose|order: Seq<usize>| is_ranking(confidences, order)
}

proof fn lemma_ranks_before_asymmetric(confidences: Seq<u32>, x: int, y: int)
    ensures
        ranks_before(confidences, x, y) ==> !ranks_before(confidences, y, x),
        !ranks_before(confidences, x, x),
{
}

/// Two rankings of the same confidences agree on the first `k` positions.
proof fn lemma_ranking_prefix_agrees(confidences: Seq<u32>, o1: Seq<usize>, o2: Seq<usize>, k: int)
    requires
        is_ranking(confidences, o1),
        is_ranking(confidences, o2),
        0 <= k <= o1.len(),
    ensures
        forall|m: int| 0 <= m < k ==> o1[m] == o2[m],
    decreases k,
{
    if k > 0 {
        lemma_ranking_prefix_agrees(confidences, o1, o2, k - 1);
        let m = k - 1;
        let x = o1[m];
        let y = o2[m];
        if x != y {
            assert(o1[m] < confidences.len());
            assert(o2[m] < confidences.len());
            assert(o1.contains(y));
            let p = choose|p: int| 0 <= p < o1.len() && o1[p] == y;
            assert(o2.contains(x));
            let q = choose|q: int| 0 <= q < o2.len() && o2[q] == x;
            if p < m {
                assert(o2[p] == y);
                assert(ranks_before(confidences, o2[p] as int, o2[m] as int));
                lemma_ranks_before_asymmetric(confidences, y as int, y as int);
            }
            if q < m {
                assert(o1[q] == x);
                assert(ranks_before(confidences, o1[q] as int, o1[m] as int));
                lemma_ranks_before_asymmetric(confidences, x as int, x as int);
            }
            assert(p > m);
            assert(q > m);
            assert(ranks_before(confidences, o1[m] as int, o1[p] as int));
            assert(ranks_before(confidences, o2[m] as int, o2[q] as int));
            lemma_ranks_before_asymmetric(confidences, x as int, y as int);
        }
    }
}

/// There is only one ranking of a sequence of confidences.
pub proof fn lemma_ranking_unique(confidences: Seq<u32>, o1: Seq<usize>, o2: Seq<usize>)
    requires
        is_ranking(confidences, o1),
        is_ranking(confidences, o2),
    ensures
        o1 == o2,
{
    lemma_ranking_prefix_agrees(confidences, o1, o2, o1.len() as int);
    assert(o1 =~= o2);
}

/// First position at or after `from` whose confidence key is below `key`.
spec fn first_below(order: Seq<usize>, confidences: Seq<u32>, key: u32, from: int) -> int
    decreases order.len() - from,
{
    if from >= order.len() {
        order.len() as int
    } else if order_key_spec(confidences[order[from] as int]) < key {
        from
    } else {
        first_below(order, confidences, key, from + 1)
    }
}

proof fn lemma_first_below(order: Seq<usize>, confidences: Seq<u32>, key: u32, from: int)
    requires
        0 <= from <= order.len(),
    ensures
        from <= first_below(order, confidences, key, from) <= order.len(),
        forall|q: int|
            from <= q < first_below(order, confidences, key, from) ==> order_key_spec(
                confidences[#[trigger] order[q] as int],
            ) >= key,
        first_below(order, confidences, key, from) < order.len() ==> order_key_spec(
            confidences[order[first_below(order, confidences, key, from)] as int],
        ) < key,
    decreases order.len() - from,
{
    if from < order.len() && order_key_spec(confidences[order[from] as int]) >= key {
        lemma_first_below(order, confidences, key, from + 1);
    }
}

/// `order` ranks exactly the detections below `k`, by descending confidence.
spec fn ranks_prefix(confidences: Seq<u32>, order: Seq<usize>, k: int) -> bool {
    &&& order.len() == k
    &&& forall|m: int| 0 <= m < order.len() ==> #[trigger] order[m] < k
    &&& forall|x: usize| x < k ==> #[trigger] order.contains(x)
    &&& forall|a: int, b: int|
        0 <= a < b < order.len() ==> ranks_before(
            confidences,
            #[trigger] order[a] as int,
            #[trigger] order[b] as int,
        )
}

/// Inserting detection `k` at the first position whose key is below its own
/// extends a ranking of the detections below `k` to one of those below `k + 1`.
proof fn lemma_insert_ranked(confidences: Seq<u32>, order: Seq<usize>, k: int, p: int)
    requires
        ranks_prefix(confidences, order, k),
        0 <= k < confidences.len(),
        k <= usize::MAX,
        0 <= p <= order.len(),
        forall|q: int|
            0 <= q < p ==> order_key_spec(confidences[#[trigger] order[q] as int])
                >= order_key_spec(confidences[k]),
        p < order.len() ==> order_key_spec(confidences[order[p] as int]) < order_key_spec(
            confidences[k],
        ),
    ensures
        ranks_prefix(confidences, order.insert(p, k as usize), k + 1),
{
    let i = k as usize;
    let ki = order_key_spec(confidences[k]);
    if p < order.len() {
        assert forall|q: int| p < q < order.len() implies order_key_spec(
            confidences[#[trigger] order[q] as int],
        ) < ki by {
            assert(ranks_before(confidences, order[p] as int, order[q] as int));
        }
    }
    let s = order.insert(p, i);
    assert forall|a: int, b: int| 0 <= a < b < s.len() implies ranks_before(
        confidences,
        #[trigger] s[a] as int,
        #[trigger] s[b] as int,
    ) by {
        if b < p {
            assert(s[a] == order[a]);
            assert(s[b] == order[b]);
        } else if b == p {
            assert(s[a] == order[a]);
            assert(s[a] < i);
        } else if a == p {
            assert(s[b] == order[b - 1]);
        } else if a < p {
            assert(s[a] == order[a]);
            assert(s[b] == order[b - 1]);
        } else {
            assert(s[a] == order[a - 1]);
            assert(s[b] == order[b - 1]);
        }
    }
    assert forall|m: int| 0 <= m < s.len() implies #[trigger] s[m] < k + 1 by {
        if m < p {
            assert(s[m] == order[m]);
        } else if m > p {
            assert(s[m] == order[m - 1]);
        }
    }
    assert forall|x: usize| x < k + 1 implies #[trigger] s.contains(x) by {
        if x == i {
            assert(s[p] == i);
        } else {
            assert(order.contains(x));
            let m = choose|m: int| 0 <= m < order.len() && order[m] == x;
            if m < p {
                assert(s[m] == x);
            } else {
                assert(s[m + 1] == x);
            }
        }
    }
}

/// A ranking of the indices below `k`, built by insertion.
proof fn lemma_prefix_ranking_exists(confidences: Seq<u32>, k: int) -> (order: Seq<usize>)
    requires
        0 <= k <= confidences.len(),
        confidences.len() <= usize::MAX,
    ensures
        ranks_prefix(confidences, order, k),
    decreases k,
{
    if k == 0 {
        Seq::empty()
    } else {
        let old_order = lemma_prefix_ranking_exists(confidences, k - 1);
        let ki = order_key_spec(confidences[k - 1]);
        lemma_first_below(old_order, confidences, ki, 0);
        let p = first_below(old_order, confidences, ki, 0);
        lemma_insert_ranked(confidences, old_order, k - 1, p);
        old_order.insert(p, (k - 1) as usize)
    }
}

/// Every sequence of confidences has a ranking.
pub proof fn lemma_ranking_exists(confidences: Seq<u32>)
    requires
        confidences.len() <= usize::MAX,
    ensures
        is_ranking(confidences, ranking(confidences)),
{
    let o = lemma_prefix_ranking_exists(confidences, confidences.len() as int);
    assert(is_ranking(confidences, o));
}

/// A ranking lists non-NaN confidences in non-increasing order of the
/// values they encode.
pub proof fn lemma_ranking_descending(confidences: Seq<u32>, order: Seq<usize>, i: int, j: int)
    requires
        is_ranking(confidences, order),
        0 <= i < j < order.len(),
        !is_nan(confidences[order[i] as int]),
        !is_nan(confidences[order[j] as int]),
    ensures
        le(confidences[order[j] as int], confidences[order[i] as int]),
{
    let x = confidences[order[i] as int];
    let y = confidences[order[j] as int];
    assert(ranks_before(confidences, order[i] as int, order[j] as int));
    lemma_order_key_monotone(y, x);
    lemma_order_key_injective(y, x);
}

/// Orders detection indices by descending confidence (`f32` bit patterns),
/// keeping equal confidences in index order.
pub fn rank_by_confidence(confidences: &Vec<u32>) -> (order: Vec<usize>)
    ensures
        is_ranking(confidences@, order@),
        order@ == ranking(confidences@),
{
    let n = confidences.len();
    let mut order: Vec<usize> = Vec::with_capacity(n);
    for i in 0..n
        invariant
            n == confidences.len(),
            ranks_prefix(confidences@, order@, i as int),
    {
        let ki = order_key(confidences[i]);
        let mut p: usize = 0;
        while p < order.len() && order_key(confidences[order[p]]) >= ki
            invariant
                n == confidences.len(),
                i < n,
                ki == order_key_spec(confidences@[i as int]),
                p <= order.len(),
                ranks_prefix(confidences@, order@, i as int),
                forall|q: int|
                    0 <= q < p ==> order_key_spec(confidences@[#[trigger] order[q] as int]) >= ki,
            decreases order.len() - p,
        {
            p = p + 1;
        }
        proof {
            lemma_insert_ranked(confidences@, order@, i as int, p as int);
        }
        order.insert(p, i);
    }
    proof {
        assert(is_ranking(confidences@, order@));
        lemma_ranking_unique(confidences@, order@, ranking(confidences@));
    }
    order
}

/// The relation that an overlap test `f` decides: `f(a, b)` may return `true`.
pub open spec fn overlap_relation<F: Fn(usize, usize) -> bool>(f: F) -> spec_fn(usize, usize) -> bool {
    |a: usize, b: usize| call_ensures(f, (a, b), true)
}

/// `f` answers each question one way only, as a pure computation does.
pub open spec fn is_deterministic<F: Fn(usize, usize) -> bool>(f: F) -> bool {
    forall|a: usize, b: usize, r: bool| #[trigger]
        call_ensures(f, (a, b), r) ==> r == call_ensures(f, (a, b), true)
}

/// Some detection already kept has the class of `candidate` and overlaps it.
pub open spec fn suppressed_by(
    kept: Seq<usize>,
    classes: Seq<usize>,
    overlaps: spec_fn(usize, usize) -> bool,
    candidate: usize,
) -> bool {
    exists|q: int|
        0 <= q < kept.len() && classes[#[trigger] kept[q] as int] == classes[candidate as int]
            && overlaps(kept[q], candidate)
}

/// Greedy suppression over the first `k` ranked detections: a detection is kept
/// unless a kept detection of its class, ranked before it, overlaps it.
pub open spec fn survivors(
    order: Seq<usize>,
    classes: Seq<usize>,
    overlaps: spec_fn(usize, usize) -> bool,
    k: int,
) -> Seq<usize>
    decreases k,
{
    if k <= 0 {
        Seq::empty()
    } else {
        let kept = survivors(order, classes, overlaps, k - 1);
        if suppressed_by(kept, classes, overlaps, order[k - 1]) {
            kept
        } else {
            kept.push(order[k - 1])
        }
    }
}

/// Result of non-maximum suppression over ranked detections: the survivors,
/// cut to the first `max_keep` when `max_keep` is non-zero.
pub open spec fn nms_spec(
    order: Seq<usize>,
    classes: Seq<usize>,
    overlaps: spec_fn(usize, usize) -> bool,
    max_keep: usize,
) -> Seq<usize> {
    let s = survivors(order, classes, overlaps, order.len() as int);
    if max_keep > 0 && s.len() > max_keep {
        s.take(max_keep as int)
    } else {
        s
    }
}

/// Survivors of a shorter prefix are a prefix of the survivors of a longer one.
pub proof fn lemma_survivors_prefix(
    order: Seq<usize>,
    classes: Seq<usize>,
    overlaps: spec_fn(usize, usize) -> bool,
    k: int,
    m: int,
)
    requires
        0 <= k <= m,
    ensures
        survivors(order, classes, overlaps, k).len() <= survivors(order, classes, overlaps, m).len(),
        survivors(order, classes, overlaps, m).take(
            survivors(order, classes, overlaps, k).len() as int,
        ) == survivors(order, classes, overlaps, k),
    decreases m - k,
{
    if k < m {
        lemma_survivors_prefix(order, classes, overlaps, k, m - 1);
        let sk = survivors(order, classes, overlaps, k);
        let sm1 = survivors(order, classes, overlaps, m - 1);
        let sm = survivors(order, classes, overlaps, m);
        if !suppressed_by(sm1, classes, overlaps, order[m - 1]) {
            assert(sm.take(sk.len() as int) =~= sm1.take(sk.len() as int));
        }
    } else {
        let sk = survivors(order, classes, overlaps, k);
        assert(sk.take(sk.len() as int) =~= sk);
    }
}

/// Per-class non-maximum suppression.
///
/// Detections are ranked by descending confidence (`f32` bit patterns); each
/// detection not yet suppressed is kept, and suppresses every lower-ranked
/// detection of the same class for which `iou_above(kept, other)` holds.
/// Stops once `max_keep` detections are kept (`max_keep == 0`: no limit).
/// Returns the indices of the kept detections, best first.
pub fn non_max_suppression<F: Fn(usize, usize) -> bool>(
    classes: &Vec<usize>,
    confidences: &Vec<u32>,
    iou_above: F,
    max_keep: usize,
) -> (kept: Vec<usize>)
    requires
        classes.len() == confidences.len(),
        forall|a: usize, b: usize|
            a < classes.len() && b < classes.len() ==> call_requires(iou_above, (a, b)),
        is_deterministic(iou_above),
    ensures
        kept@ == nms_spec(
            ranking(confidences@),
            classes@,
            overlap_relation(iou_above),
            max_keep,
        ),
{
    let n = confidences.len();
    let ghost rel = overlap_relation(iou_above);
    let order = rank_by_confidence(confidences);
    if n == 0 {
        return Vec::new();
    }
    let mut suppressed: Vec<bool> = Vec::with_capacity(n);
    for k in 0..n
        invariant
            suppressed.len() == k,
            forall|j: int| 0 <= j < k ==> !(#[trigger] suppressed[j]),
    {
        suppressed.push(false);
    }
    let mut kept: Vec<usize> = Vec::new();
    let mut i: usize = 0;
    while i < n
        invariant
            n == confidences.len(),
            n == classes.len(),
            n == order.len(),
            order@ == ranking(confidences@),
            is_ranking(confidences@, order@),
            suppressed.len() == n,
            i <= n,
            rel == overlap_relation(iou_above),
            forall|a: usize, b: usize|
            a < classes.len() && b < classes.len() ==> call_requires(iou_above, (a, b)),
            is_deterministic(iou_above),
            kept@ == survivors(order@, classes@, rel, i as int),
            max_keep == 0 || kept.len() < max_keep,
            forall|j: int|
                i <= j < n ==> (#[trigger] suppressed[j] <==> suppressed_by(
                    kept@,
                    classes@,
                    rel,
                    order[j],
                )),
        decreases n - i,
    {
        if !suppressed[i] {
            let pivot = order[i];
            assert(pivot < n);
            let ghost before = suppressed@;
            let mut j: usize = i + 1;
            while j < n
                invariant
                    n == confidences.len(),
                    n == classes.len(),
                    n == order.len(),
                    is_ranking(confidences@, order@),
                    suppressed.len() == n,
                    i < j <= n,
                    pivot == order[i as int],
                    pivot < n,
                    rel == overlap_relation(iou_above),
                    forall|a: usize, b: usize|
            a < classes.len() && b < classes.len() ==> call_requires(iou_above, (a, b)),
                    is_deterministic(iou_above),
                    forall|jj: int|
                        i < jj < j ==> (#[trigger] suppressed[jj] <==> (before[jj] || (
                        classes[order[jj] as int] == classes[pivot as int] && rel(
                            pivot,
                            order[jj],
                        )))),
                    forall|jj: int| 0 <= jj <= i || j <= jj < n ==> #[trigger] suppressed[jj] == before[jj],
                decreases n - j,
            {
                let other = order[j];
                assert(other < n);
                if !suppressed[j] && classes[other] == classes[pivot] {
                    let hit = iou_above(pivot, other);
                    if hit {
                        suppressed.set(j, true);
                    }
                }
                j = j + 1;
            }
            let ghost old_kept = kept@;
            kept.push(pivot);
            proof {
                assert forall|jj: int| i < jj < n implies (#[trigger] suppressed[jj] <==> suppressed_by(
                    kept@,
                    classes@,
                    rel,
                    order[jj],
                )) by {
                    let c = order[jj];
                    if suppressed_by(kept@, classes@, rel, c) && !before[jj] {
                        let q = choose|q: int|
                            0 <= q < kept@.len() && classes[#[trigger] kept@[q] as int]
                                == classes[c as int] && rel(kept@[q], c);
                        if q < old_kept.len() {
                            assert(old_kept[q] == kept@[q]);
                            assert(suppressed_by(old_kept, classes@, rel, c));
                        }
                    }
                    if before[jj] {
                        let q = choose|q: int|
                            0 <= q < old_kept.len() && classes[#[trigger] old_kept[q] as int]
                                == classes[c as int] && rel(old_kept[q], c);
                        assert(kept@[q] == old_kept[q]);
                    }
                    if suppressed[jj] && !before[jj] {
                        assert(kept@[old_kept.len() as int] == pivot);
                    }
                }
            }
            if kept.len() == max_keep {
                proof {
                    lemma_survivors_prefix(order@, classes@, rel, i + 1, n as int);
                }
                return kept;
            }
        }
        i = i + 1;
    }
    kept
}

/// Keeps the `max_keep` most confident detections (all of them when there
/// are fewer), best first. Used for models whose head already suppresses
/// duplicates.
pub fn cap_and_sort(confidences: &Vec<u32>, max_keep: usize) -> (kept: Vec<usize>)
    ensures
        kept@ == capped(ranking(confidences@), max_keep),
{
    let mut order = rank_by_confidence(confidences);
    order.truncate(max_keep);
    order
}

/// The `max_keep` best of a ranking (all of it when shorter).
pub open spec fn capped(order: Seq<usize>, max_keep: usize) -> Seq<usize> {
    if max_keep < order.len() {
        order.take(max_keep as int)
    } else {
        order
    }
}

/// Capping keeps the best `max_keep` of a ranking, in order: its first
/// `min(max_keep, len)` entries.
pub proof fn lemma_capped_is_best_prefix(order: Seq<usize>, max_keep: usize)
    ensures
        capped(order, max_keep).len() == if max_keep < order.len() {
            max_keep as int
        } else {
            order.len() as int
        },
        forall|k: int| 0 <= k < capped(order, max_keep).len() ==> #[trigger] capped(order, max_keep)[k] == order[k],
{
}

/// Final selection of a model's detections: models whose head already
/// suppresses duplicates (YOLOv26) are only ranked and capped; the others
/// go through per-class non-maximum suppression.
pub fn keep_detections<F: Fn(usize, usize) -> bool>(
    variant: ModelVariant,
    classes: &Vec<usize>,
    confidences: &Vec<u32>,
    iou_above: F,
    max_keep: usize,
) -> (kept: Vec<usize>)
    requires
        classes.len() == confidences.len(),
        forall|a: usize, b: usize|
            a < classes.len() && b < classes.len() ==> call_requires(iou_above, (a, b)),
        is_deterministic(iou_above),
    ensures
        kept@ == if variant == ModelVariant::V26 {
            capped(ranking(confidences@), max_keep)
        } else {
            nms_spec(ranking(confidences@), classes@, overlap_relation(iou_above), max_keep)
        },
{
    if variant.skips_nms() {
        cap_and_sort(confidences, max_keep)
    } else {
        non_max_suppression(classes, confidences, iou_above, max_keep)
    }
}

/// What holds of the survivors of every prefix of a ranking.
proof fn lemma_survivors_invariant(
    confidences: Seq<u32>,
    order: Seq<usize>,
    classes: Seq<usize>,
    overlaps: spec_fn(usize, usize) -> bool,
    k: int,
)
    requires
        is_ranking(confidences, order),
        classes.len() == order.len(),
        0 <= k <= order.len(),
    ensures
        ({
            let s = survivors(order, classes, overlaps, k);
            &&& forall|a: int|
                0 <= a < s.len() ==> exists|p: int| 0 <= p < k && order[p] == #[trigger] s[a]
            &&& forall|a: int, b: int|
                0 <= a < b < s.len() ==> ranks_before(
                    confidences,
                    #[trigger] s[a] as int,
                    #[trigger] s[b] as int,
                )
            &&& forall|a: int, b: int|
                0 <= a < b < s.len() ==> !(classes[#[trigger] s[a] as int] == classes[
                    #[trigger] s[b] as int] && overlaps(s[a], s[b]))
            &&& forall|p: int|
                0 <= p < k ==> s.contains(#[trigger] order[p]) || suppressed_by(
                    s,
                    classes,
                    overlaps,
                    order[p],
                )
        }),
    decreases k,
{
    if k > 0 {
        lemma_survivors_invariant(confidences, order, classes, overlaps, k - 1);
        let prev = survivors(order, classes, overlaps, k - 1);
        let s = survivors(order, classes, overlaps, k);
        let c = order[k - 1];
        if !suppressed_by(prev, classes, overlaps, c) {
            assert(s == prev.push(c));
            assert forall|a: int| 0 <= a < s.len() implies exists|p: int|
                0 <= p < k && order[p] == #[trigger] s[a] by {
                if a < prev.len() {
                    assert(s[a] == prev[a]);
                } else {
                    assert(order[k - 1] == s[a]);
                }
            }
            assert forall|a: int, b: int| 0 <= a < b < s.len() implies ranks_before(
                confidences,
                #[trigger] s[a] as int,
                #[trigger] s[b] as int,
            ) by {
                if b == prev.len() {
                    assert(s[a] == prev[a]);
                    let p = choose|p: int| 0 <= p < k - 1 && order[p] == #[trigger] prev[a];
                    assert(ranks_before(confidences, order[p] as int, order[k - 1] as int));
                } else {
                    assert(s[a] == prev[a] && s[b] == prev[b]);
                }
            }
            assert forall|a: int, b: int| 0 <= a < b < s.len() implies !(classes[
                #[trigger] s[a] as int] == classes[#[trigger] s[b] as int] && overlaps(
                s[a],
                s[b],
            )) by {
                assert(s[a] == prev[a]);
                if b < prev.len() {
                    assert(s[b] == prev[b]);
                }
            }
            assert forall|p: int| 0 <= p < k implies s.contains(#[trigger] order[p])
                || suppressed_by(s, classes, overlaps, order[p]) by {
                if p == k - 1 {
                    assert(s[prev.len() as int] == c);
                } else if prev.contains(order[p]) {
                    let m = choose|m: int| 0 <= m < prev.len() && prev[m] == order[p];
                    assert(s[m] == order[p]);
                } else {
                    let q = choose|q: int|
                        0 <= q < prev.len() && classes[#[trigger] prev[q] as int]
                            == classes[order[p] as int] && overlaps(prev[q], order[p]);
                    assert(s[q] == prev[q]);
                }
            }
        } else {
            assert forall|p: int| 0 <= p < k implies s.contains(#[trigger] order[p])
                || suppressed_by(s, classes, overlaps, order[p]) by {
                if p < k - 1 {
                }
            }
        }
    }
}

/// The detections of `s` whose class is `c`, in their order in `s`.
pub open spec fn of_class(s: Seq<usize>, classes: Seq<usize>, c: usize) -> Seq<usize>
    decreases s.len(),
{
    if s.len() == 0 {
        Seq::empty()
    } else {
        let rest = of_class(s.drop_last(), classes, c);
        if classes[s.last() as int] == c {
            rest.push(s.last())
        } else {
            rest
        }
    }
}

proof fn lemma_of_class_contains(s: Seq<usize>, classes: Seq<usize>, c: usize, y: usize)
    ensures
        of_class(s, classes, c).contains(y) <==> (s.contains(y) && classes[y as int] == c),
    decreases s.len(),
{
    if s.len() > 0 {
        let init = s.drop_last();
        let rest = of_class(init, classes, c);
        lemma_of_class_contains(init, classes, c, y);
        if s.contains(y) && classes[y as int] == c {
            let m = choose|m: int| 0 <= m < s.len() && s[m] == y;
            if m < s.len() - 1 {
                assert(init[m] == y);
                let r = choose|r: int| 0 <= r < rest.len() && rest[r] == y;
                if classes[s.last() as int] == c {
                    assert(rest.push(s.last())[r] == y);
                }
            } else {
                assert(rest.push(s.last())[rest.len() as int] == y);
            }
        }
        if of_class(s, classes, c).contains(y) {
            let o = of_class(s, classes, c);
            let r = choose|r: int| 0 <= r < o.len() && o[r] == y;
            if classes[s.last() as int] == c && r == rest.len() {
                assert(s[s.len() - 1] == y);
            } else {
                assert(rest[r] == y);
                assert(rest.contains(y));
                let m = choose|m: int| 0 <= m < init.len() && init[m] == y;
                assert(s[m] == y);
            }
        }
    }
}

/// Whether a candidate is suppressed depends only on the kept detections of
/// its own class.
proof fn lemma_suppressed_by_own_class(
    kept: Seq<usize>,
    classes: Seq<usize>,
    overlaps: spec_fn(usize, usize) -> bool,
    x: usize,
)
    ensures
        suppressed_by(kept, classes, overlaps, x) <==> suppressed_by(
            of_class(kept, classes, classes[x as int]),
            classes,
            overlaps,
            x,
        ),
{
    let c = classes[x as int];
    let kc = of_class(kept, classes, c);
    if suppressed_by(kept, classes, overlaps, x) {
        let q = choose|q: int|
            0 <= q < kept.len() && classes[#[trigger] kept[q] as int] == c && overlaps(kept[q], x);
        lemma_of_class_contains(kept, classes, c, kept[q]);
        let r = choose|r: int| 0 <= r < kc.len() && kc[r] == kept[q];
        assert(classes[kc[r] as int] == c && overlaps(kc[r], x));
    }
    if suppressed_by(kc, classes, overlaps, x) {
        let r = choose|r: int|
            0 <= r < kc.len() && classes[#[trigger] kc[r] as int] == c && overlaps(kc[r], x);
        lemma_of_class_contains(kept, classes, c, kc[r]);
        let q = choose|q: int| 0 <= q < kept.len() && kept[q] == kc[r];
        assert(classes[kept[q] as int] == c && overlaps(kept[q], x));
    }
}

/// The survivors of the first `k` ranked detections depend on those alone.
proof fn lemma_survivors_same_prefix(
    o1: Seq<usize>,
    o2: Seq<usize>,
    classes: Seq<usize>,
    overlaps: spec_fn(usize, usize) -> bool,
    k: int,
)
    requires
        0 <= k <= o1.len(),
        k <= o2.len(),
        forall|j: int| 0 <= j < k ==> o1[j] == o2[j],
    ensures
        survivors(o1, classes, overlaps, k) == survivors(o2, classes, overlaps, k),
    decreases k,
{
    if k > 0 {
        lemma_survivors_same_prefix(o1, o2, classes, overlaps, k - 1);
    }
}

/// No more detections survive than were ranked.
proof fn lemma_survivors_len(
    order: Seq<usize>,
    classes: Seq<usize>,
    overlaps: spec_fn(usize, usize) -> bool,
    k: int,
)
    requires
        0 <= k,
    ensures
        survivors(order, classes, overlaps, k).len() <= k,
    decreases k,
{
    if k > 0 {
        lemma_survivors_len(order, classes, overlaps, k - 1);
    }
}

/// Over every prefix of a ranking, the survivors of class `c` are the
/// survivors of the class-`c` detections of that prefix.
proof fn lemma_survivors_of_class(
    order: Seq<usize>,
    classes: Seq<usize>,
    overlaps: spec_fn(usize, usize) -> bool,
    c: usize,
    k: int,
)
    requires
        0 <= k <= order.len(),
    ensures
        ({
            let oc = of_class(order.take(k), classes, c);
            of_class(survivors(order, classes, overlaps, k), classes, c) == survivors(
                oc,
                classes,
                overlaps,
                oc.len() as int,
            )
        }),
    decreases k,
{
    if k == 0 {
        assert(order.take(0) =~= Seq::<usize>::empty());
    } else {
        lemma_survivors_of_class(order, classes, overlaps, c, k - 1);
        let x = order[k - 1];
        let t = order.take(k);
        assert(t.drop_last() =~= order.take(k - 1));
        assert(t.last() == x);
        let tc_prev = of_class(order.take(k - 1), classes, c);
        let tc = of_class(t, classes, c);
        let prev = survivors(order, classes, overlaps, k - 1);
        assert(prev.push(x).drop_last() =~= prev);
        if classes[x as int] == c {
            assert(tc == tc_prev.push(x));
            lemma_survivors_same_prefix(tc, tc_prev, classes, overlaps, tc_prev.len() as int);
            lemma_suppressed_by_own_class(prev, classes, overlaps, x);
            assert(tc[tc.len() - 1] == x);
            if !suppressed_by(prev, classes, overlaps, x) {
                assert(of_class(prev.push(x), classes, c) == of_class(prev, classes, c).push(x));
            }
        } else {
            assert(tc == tc_prev);
            if !suppressed_by(prev, classes, overlaps, x) {
                assert(of_class(prev.push(x), classes, c) == of_class(prev, classes, c));
            }
        }
    }
}

/// Suppression is per class: without a cap that is reached, the detections
/// of class `c` that non-maximum suppression keeps are exactly the ones it
/// keeps when run over the class-`c` detections alone, in the same ranking.
pub proof fn lemma_nms_classes_independent(
    confidences: Seq<u32>,
    classes: Seq<usize>,
    overlaps: spec_fn(usize, usize) -> bool,
    max_keep: usize,
    c: usize,
)
    requires
        confidences.len() <= usize::MAX,
        max_keep == 0 || max_keep >= confidences.len(),
    ensures
        of_class(nms_spec(ranking(confidences), classes, overlaps, max_keep), classes, c)
            == nms_spec(of_class(ranking(confidences), classes, c), classes, overlaps, 0),
{
    lemma_ranking_exists(confidences);
    let order = ranking(confidences);
    let n = order.len() as int;
    lemma_survivors_len(order, classes, overlaps, n);
    lemma_survivors_of_class(order, classes, overlaps, c, n);
    assert(order.take(n) =~= order);
}

/// `s` lists detections by strictly descending rank.
spec fn ranked_strictly(confidences: Seq<u32>, s: Seq<usize>) -> bool {
    forall|a: int, b: int|
        0 <= a < b < s.len() ==> ranks_before(
            confidences,
            #[trigger] s[a] as int,
            #[trigger] s[b] as int,
        )
}

/// Two sequences ranked strictly by the same confidences and holding the same
/// detections are equal.
proof fn lemma_ranked_strictly_unique(confidences: Seq<u32>, s1: Seq<usize>, s2: Seq<usize>)
    requires
        ranked_strictly(confidences, s1),
        ranked_strictly(confidences, s2),
        forall|x: usize| s1.contains(x) <==> s2.contains(x),
    ensures
        s1 == s2,
{
    let m = if s1.len() < s2.len() { s1.len() as int } else { s2.len() as int };
    lemma_ranked_strictly_prefix(confidences, s1, s2, m);
    if s1.len() > s2.len() {
        let z = s1[m];
        assert(s1.contains(z));
        let p = choose|p: int| 0 <= p < s2.len() && s2[p] == z;
        assert(s1[p] == z);
        assert(ranks_before(confidences, s1[p] as int, s1[m] as int));
    }
    if s2.len() > s1.len() {
        let z = s2[m];
        assert(s2.contains(z));
        let p = choose|p: int| 0 <= p < s1.len() && s1[p] == z;
        assert(s2[p] == z);
        assert(ranks_before(confidences, s2[p] as int, s2[m] as int));
    }
    assert(s1 =~= s2);
}

proof fn lemma_ranked_strictly_prefix(
    confidences: Seq<u32>,
    s1: Seq<usize>,
    s2: Seq<usize>,
    m: int,
)
    requires
        ranked_strictly(confidences, s1),
        ranked_strictly(confidences, s2),
        forall|x: usize| s1.contains(x) <==> s2.contains(x),
        0 <= m <= s1.len(),
        m <= s2.len(),
    ensures
        forall|j: int| 0 <= j < m ==> s1[j] == s2[j],
    decreases m,
{
    if m > 0 {
        lemma_ranked_strictly_prefix(confidences, s1, s2, m - 1);
        let j = m - 1;
        let x = s1[j];
        let y = s2[j];
        if x != y {
            assert(s2.contains(y));
            let p = choose|p: int| 0 <= p < s1.len() && s1[p] == y;
            assert(s1.contains(x));
            let q = choose|q: int| 0 <= q < s2.len() && s2[q] == x;
            if p < j {
                assert(s2[p] == y);
                assert(ranks_before(confidences, s2[p] as int, s2[j] as int));
            }
            if q < j {
                assert(s1[q] == x);
                assert(ranks_before(confidences, s1[q] as int, s1[j] as int));
            }
            assert(ranks_before(confidences, s1[j] as int, s1[p] as int));
            assert(ranks_before(confidences, s2[j] as int, s2[q] as int));
            lemma_ranks_before_asymmetric(confidences, x as int, y as int);
        }
    }
}

/// Keeping the detections of one class keeps a strict ranking strict.
proof fn lemma_of_class_ranked(confidences: Seq<u32>, s: Seq<usize>, classes: Seq<usize>, c: usize)
    requires
        ranked_strictly(confidences, s),
    ensures
        ranked_strictly(confidences, of_class(s, classes, c)),
    decreases s.len(),
{
    if s.len() > 0 {
        let init = s.drop_last();
        assert(ranked_strictly(confidences, init)) by {
            assert forall|a: int, b: int| 0 <= a < b < init.len() implies ranks_before(
                confidences,
                #[trigger] init[a] as int,
                #[trigger] init[b] as int,
            ) by {
                assert(init[a] == s[a] && init[b] == s[b]);
            }
        }
        lemma_of_class_ranked(confidences, init, classes, c);
        let rest = of_class(init, classes, c);
        if classes[s.last() as int] == c {
            let o = rest.push(s.last());
            assert forall|a: int, b: int| 0 <= a < b < o.len() implies ranks_before(
                confidences,
                #[trigger] o[a] as int,
                #[trigger] o[b] as int,
            ) by {
                assert(o[a] == rest[a]);
                if b == rest.len() {
                    lemma_of_class_contains(init, classes, c, rest[a]);
                    assert(rest.contains(rest[a]));
                    let m = choose|m: int| 0 <= m < init.len() && init[m] == rest[a];
                    assert(s[m] == rest[a]);
                    assert(ranks_before(confidences, s[m] as int, s[s.len() - 1] as int));
                } else {
                    assert(o[b] == rest[b]);
                }
            }
        }
    }
}

/// `s` with every detection `a` of a sub-collection replaced by the index
/// `idx[a]` it has in the whole collection.
pub open spec fn reindex(idx: Seq<usize>, s: Seq<usize>) -> Seq<usize> {
    s.map_values(|a: usize| idx[a as int])
}

/// Suppression commutes with passing to the detections of a sub-collection.
proof fn lemma_survivors_reindex(
    order: Seq<usize>,
    sub_classes: Seq<usize>,
    sub_overlaps: spec_fn(usize, usize) -> bool,
    idx: Seq<usize>,
    classes: Seq<usize>,
    overlaps: spec_fn(usize, usize) -> bool,
    k: int,
)
    requires
        0 <= k <= order.len(),
        forall|a: int| 0 <= a < order.len() ==> #[trigger] order[a] < idx.len(),
        forall|a: int| 0 <= a < idx.len() ==> sub_classes[a] == classes[#[trigger] idx[a] as int],
        forall|a: usize, b: usize|
            a < idx.len() && b < idx.len() ==> #[trigger] sub_overlaps(a, b) == overlaps(
                idx[a as int],
                idx[b as int],
            ),
    ensures
        survivors(reindex(idx, order), classes, overlaps, k) == reindex(
            idx,
            survivors(order, sub_classes, sub_overlaps, k),
        ),
        forall|a: int|
            0 <= a < survivors(order, sub_classes, sub_overlaps, k).len() ==> #[trigger] survivors(
                order,
                sub_classes,
                sub_overlaps,
                k,
            )[a] < idx.len(),
    decreases k,
{
    if k > 0 {
        lemma_survivors_reindex(order, sub_classes, sub_overlaps, idx, classes, overlaps, k - 1);
        let small = survivors(order, sub_classes, sub_overlaps, k - 1);
        let big = reindex(idx, small);
        let x = order[k - 1];
        let bx = reindex(idx, order)[k - 1];
        assert(bx == idx[x as int]);
        if suppressed_by(small, sub_classes, sub_overlaps, x) {
            let q = choose|q: int|
                0 <= q < small.len() && sub_classes[#[trigger] small[q] as int]
                    == sub_classes[x as int] && sub_overlaps(small[q], x);
            assert(big[q] == idx[small[q] as int]);
            assert(classes[big[q] as int] == classes[bx as int] && overlaps(big[q], bx));
        }
        if suppressed_by(big, classes, overlaps, bx) {
            let q = choose|q: int|
                0 <= q < big.len() && classes[#[trigger] big[q] as int] == classes[bx as int]
                    && overlaps(big[q], bx);
            assert(big[q] == idx[small[q] as int]);
            assert(sub_overlaps(small[q], x) == overlaps(big[q], bx));
            assert(sub_classes[small[q] as int] == sub_classes[x as int] && sub_overlaps(
                small[q],
                x,
            ));
        }
        if !suppressed_by(small, sub_classes, sub_overlaps, x) {
            assert(reindex(idx, small.push(x)) =~= big.push(bx));
        }
    }
}

/// An increasing sequence of indices holds at position `a` an index of at
/// least `a`.
proof fn lemma_increasing_at_least(idx: Seq<usize>, a: int)
    requires
        forall|i: int, j: int| 0 <= i < j < idx.len() ==> idx[i] < idx[j],
        0 <= a < idx.len(),
    ensures
        idx[a] >= a,
    decreases a,
{
    if a > 0 {
        lemma_increasing_at_least(idx, a - 1);
    }
}

/// Suppression is per class, also on a sub-collection: without a cap that is
/// reached, the detections of class `c` that non-maximum suppression keeps
/// are, in order, the ones it keeps when run over the collection of the
/// class-`c` detections alone (`idx[a]` is the index in the whole collection
/// of detection `a` of that collection, in index order), mapped back.
pub proof fn lemma_nms_class_subcollection(
    confidences: Seq<u32>,
    classes: Seq<usize>,
    overlaps: spec_fn(usize, usize) -> bool,
    max_keep: usize,
    c: usize,
    idx: Seq<usize>,
    sub_confidences: Seq<u32>,
    sub_classes: Seq<usize>,
    sub_overlaps: spec_fn(usize, usize) -> bool,
)
    requires
        confidences.len() <= usize::MAX,
        classes.len() == confidences.len(),
        max_keep == 0 || max_keep >= confidences.len(),
        forall|i: int, j: int| 0 <= i < j < idx.len() ==> idx[i] < idx[j],
        forall|a: int|
            0 <= a < idx.len() ==> #[trigger] idx[a] < confidences.len() && classes[idx[a] as int]
                == c,
        forall|x: usize| x < confidences.len() && classes[x as int] == c ==> idx.contains(x),
        sub_confidences.len() == idx.len(),
        sub_classes.len() == idx.len(),
        forall|a: int|
            0 <= a < idx.len() ==> sub_confidences[a] == confidences[#[trigger] idx[a] as int]
                && sub_classes[a] == classes[idx[a] as int],
        forall|a: usize, b: usize|
            a < idx.len() && b < idx.len() ==> #[trigger] sub_overlaps(a, b) == overlaps(
                idx[a as int],
                idx[b as int],
            ),
    ensures
        of_class(nms_spec(ranking(confidences), classes, overlaps, max_keep), classes, c)
            == reindex(idx, nms_spec(ranking(sub_confidences), sub_classes, sub_overlaps, max_keep)),
{
    let n = confidences.len() as int;
    if idx.len() > 0 {
        lemma_increasing_at_least(idx, idx.len() - 1);
    }
    lemma_ranking_exists(confidences);
    lemma_ranking_exists(sub_confidences);
    let order = ranking(confidences);
    let sub_order = ranking(sub_confidences);
    let r = of_class(order, classes, c);
    let rm = reindex(idx, sub_order);
    // The class-`c` part of the ranking is the sub-collection's ranking, mapped back.
    lemma_of_class_ranked(confidences, order, classes, c);
    assert(ranked_strictly(confidences, rm)) by {
        assert forall|a: int, b: int| 0 <= a < b < rm.len() implies ranks_before(
            confidences,
            #[trigger] rm[a] as int,
            #[trigger] rm[b] as int,
        ) by {
            assert(ranks_before(sub_confidences, sub_order[a] as int, sub_order[b] as int));
            assert(sub_order[a] < idx.len() && sub_order[b] < idx.len());
        }
    }
    assert forall|x: usize| r.contains(x) <==> rm.contains(x) by {
        lemma_of_class_contains(order, classes, c, x);
        if r.contains(x) {
            assert(order.contains(x));
            let p = choose|p: int| 0 <= p < order.len() && order[p] == x;
            assert(x < n);
            assert(idx.contains(x));
            let j = choose|j: int| 0 <= j < idx.len() && idx[j] == x;
            assert(sub_order.contains(j as usize));
            let a = choose|a: int| 0 <= a < sub_order.len() && sub_order[a] == j as usize;
            assert(rm[a] == x);
        }
        if rm.contains(x) {
            let a = choose|a: int| 0 <= a < rm.len() && rm[a] == x;
            assert(sub_order[a] < idx.len());
            assert(x == idx[sub_order[a] as int]);
            assert(order.contains(x));
        }
    }
    lemma_ranked_strictly_unique(confidences, r, rm);
    // Suppression on the class-`c` part equals suppression on the sub-collection.
    lemma_survivors_of_class(order, classes, overlaps, c, n);
    assert(order.take(n) =~= order);
    lemma_survivors_reindex(
        sub_order,
        sub_classes,
        sub_overlaps,
        idx,
        classes,
        overlaps,
        sub_order.len() as int,
    );
    lemma_survivors_len(order, classes, overlaps, n);
    lemma_survivors_len(sub_order, sub_classes, sub_overlaps, sub_order.len() as int);
}

/// A cap only cuts: with `max_keep > 0`, non-maximum suppression keeps the
/// first `max_keep` detections that it keeps without a cap, and all of them
/// when fewer survive. Suppression itself does not depend on the cap.
pub proof fn lemma_nms_cap_is_prefix(
    order: Seq<usize>,
    classes: Seq<usize>,
    overlaps: spec_fn(usize, usize) -> bool,
    max_keep: usize,
)
    requires
        max_keep > 0,
    ensures
        ({
            let all = nms_spec(order, classes, overlaps, 0);
            let capped = nms_spec(order, classes, overlaps, max_keep);
            &&& all.len() <= max_keep ==> capped == all
            &&& all.len() > max_keep ==> capped.len() == max_keep && capped == all.take(
                max_keep as int,
            )
        }),
{
}

/// Non-maximum suppression keeps detections best first: every kept index is
/// a detection, and each kept detection ranks before the ones kept after it.
pub proof fn lemma_nms_best_first(
    confidences: Seq<u32>,
    classes: Seq<usize>,
    overlaps: spec_fn(usize, usize) -> bool,
    max_keep: usize,
)
    requires
        confidences.len() <= usize::MAX,
        classes.len() == confidences.len(),
    ensures
        ({
            let kept = nms_spec(ranking(confidences), classes, overlaps, max_keep);
            &&& forall|a: int| 0 <= a < kept.len() ==> #[trigger] kept[a] < confidences.len()
            &&& forall|a: int, b: int|
                0 <= a < b < kept.len() ==> ranks_before(
                    confidences,
                    #[trigger] kept[a] as int,
                    #[trigger] kept[b] as int,
                )
        }),
{
    lemma_ranking_exists(confidences);
    let order = ranking(confidences);
    lemma_survivors_invariant(confidences, order, classes, overlaps, order.len() as int);
    let s = survivors(order, classes, overlaps, order.len() as int);
    let kept = nms_spec(order, classes, overlaps, max_keep);
    assert forall|a: int| 0 <= a < kept.len() implies #[trigger] kept[a] < confidences.len() by {
        assert(kept[a] == s[a]);
        let p = choose|p: int| 0 <= p < order.len() && order[p] == #[trigger] s[a];
    }
    assert forall|a: int, b: int| 0 <= a < b < kept.len() implies ranks_before(
        confidences,
        #[trigger] kept[a] as int,
        #[trigger] kept[b] as int,
    ) by {
        assert(kept[a] == s[a] && kept[b] == s[b]);
    }
}

/// Suppression is per class and greedy: no detection kept after another
/// detection of its class is overlapped by it.
pub proof fn lemma_nms_kept_do_not_overlap(
    confidences: Seq<u32>,
    classes: Seq<usize>,
    overlaps: spec_fn(usize, usize) -> bool,
    max_keep: usize,
)
    requires
        confidences.len() <= usize::MAX,
        classes.len() == confidences.len(),
    ensures
        ({
            let kept = nms_spec(ranking(confidences), classes, overlaps, max_keep);
            forall|a: int, b: int|
                0 <= a < b < kept.len() ==> !(classes[#[trigger] kept[a] as int] == classes[
                    #[trigger] kept[b] as int] && overlaps(kept[a], kept[b]))
        }),
{
    lemma_ranking_exists(confidences);
    let order = ranking(confidences);
    lemma_survivors_invariant(confidences, order, classes, overlaps, order.len() as int);
    let s = survivors(order, classes, overlaps, order.len() as int);
    let kept = nms_spec(order, classes, overlaps, max_keep);
    assert forall|a: int, b: int| 0 <= a < b < kept.len() implies !(classes[
        #[trigger] kept[a] as int] == classes[#[trigger] kept[b] as int] && overlaps(
        kept[a],
        kept[b],
    )) by {
        assert(kept[a] == s[a] && kept[b] == s[b]);
    }
}

/// Without a cap, every detection that is not kept was suppressed: a kept
/// detection of its class overlaps it.
pub proof fn lemma_nms_dropped_were_suppressed(
    confidences: Seq<u32>,
    classes: Seq<usize>,
    overlaps: spec_fn(usize, usize) -> bool,
)
    requires
        confidences.len() <= usize::MAX,
        classes.len() == confidences.len(),
    ensures
        ({
            let kept = nms_spec(ranking(confidences), classes, overlaps, 0);
            forall|x: usize|
                x < confidences.len() && !kept.contains(x) ==> suppressed_by(
                    kept,
                    classes,
                    overlaps,
                    x,
                )
        }),
{
    lemma_ranking_exists(confidences);
    let order = ranking(confidences);
    lemma_survivors_invariant(confidences, order, classes, overlaps, order.len() as int);
    let kept = nms_spec(order, classes, overlaps, 0);
    assert forall|x: usize| x < confidences.len() && !kept.contains(x) implies suppressed_by(
        kept,
        classes,
        overlaps,
        x,
    ) by {
        assert(order.contains(x));
        let p = choose|p: int| 0 <= p < order.len() && order[p] == x;
        assert(kept.contains(order[p]) || suppressed_by(kept, classes, overlaps, order[p]));
    }
}

/// A detection whose class no other detection has is never suppressed: it is
/// kept, unless the cap was reached before it.
pub proof fn lemma_nms_lone_class_kept(
    confidences: Seq<u32>,
    classes: Seq<usize>,
    overlaps: spec_fn(usize, usize) -> bool,
    x: usize,
)
    requires
        confidences.len() <= usize::MAX,
        classes.len() == confidences.len(),
        x < confidences.len(),
        forall|y: int| 0 <= y < classes.len() && y != x ==> classes[y] != classes[x as int],
    ensures
        nms_spec(ranking(confidences), classes, overlaps, 0).contains(x),
{
    lemma_ranking_exists(confidences);
    let order = ranking(confidences);
    lemma_survivors_invariant(confidences, order, classes, overlaps, order.len() as int);
    let kept = nms_spec(order, classes, overlaps, 0);
    assert(order.contains(x));
    let p = choose|p: int| 0 <= p < order.len() && order[p] == x;
    if !kept.contains(x) {
        assert(kept.contains(order[p]) || suppressed_by(kept, classes, overlaps, order[p]));
        let q = choose|q: int|
            0 <= q < kept.len() && classes[#[trigger] kept[q] as int] == classes[x as int]
                && overlaps(kept[q], x);
        let pq = choose|pp: int| 0 <= pp < order.len() && order[pp] == #[trigger] kept[q];
        assert(kept[q] < classes.len());
        assert(kept[q] == x);
    }
}

/// The cap holds: with `max_keep > 0`, at most `max_keep` detections are kept.
pub proof fn lemma_nms_respects_max_keep(
    order: Seq<usize>,
    classes: Seq<usize>,
    overlaps: spec_fn(usize, usize) -> bool,
    max_keep: usize,
)
    requires
        max_keep > 0,
    ensures
        nms_spec(order, classes, overlaps, max_keep).len() <= max_keep,
{
}

/// The most confident detection is always kept, first.
pub proof fn lemma_nms_keeps_best(
    confidences: Seq<u32>,
    classes: Seq<usize>,
    overlaps: spec_fn(usize, usize) -> bool,
    max_keep: usize,
)
    requires
        confidences.len() <= usize::MAX,
        classes.len() == confidences.len(),
        confidences.len() > 0,
    ensures
        nms_spec(ranking(confidences), classes, overlaps, max_keep).len() > 0,
        nms_spec(ranking(confidences), classes, overlaps, max_keep)[0] == ranking(confidences)[0],
{
    lemma_ranking_exists(confidences);
    let order = ranking(confidences);
    lemma_survivors_prefix(order, classes, overlaps, 1, order.len() as int);
    let s1 = survivors(order, classes, overlaps, 1);
    assert(survivors(order, classes, overlaps, 0) =~= Seq::<usize>::empty());
    assert(s1 == seq![order[0]]);
    let s = survivors(order, classes, overlaps, order.len() as int);
    assert(s.take(1)[0] == s[0]);
    assert(s[0] == order[0]);
    let kept = nms_spec(order, classes, overlaps, max_keep);
    if max_keep > 0 && s.len() > max_keep {
        assert(kept[0] == s[0]);
    }
}

} // verus!
