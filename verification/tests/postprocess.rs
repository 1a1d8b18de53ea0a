use yolo_ort::{cap_and_sort, keep_detections, non_max_suppression, rank_by_confidence, ModelVariant};

/// A detection as the detector holds it: box corners, class, confidence.
struct Det {
    bbox: [f32; 4],
    class_id: usize,
    confidence: f32,
}

fn det(x1: f32, y1: f32, x2: f32, y2: f32, class: usize, conf: f32) -> Det {
    Det { bbox: [x1, y1, x2, y2], class_id: class, confidence: conf }
}

fn area(b: &[f32; 4]) -> f32 {
    (b[2] - b[0]).max(0.0) * (b[3] - b[1]).max(0.0)
}

/// Intersection over union of two boxes.
fn iou(a: &[f32; 4], b: &[f32; 4]) -> f32 {
    let x1 = a[0].max(b[0]);
    let y1 = a[1].max(b[1]);
    let x2 = a[2].min(b[2]);
    let y2 = a[3].min(b[3]);
    let inter = (x2 - x1).max(0.0) * (y2 - y1).max(0.0);
    let union = area(a) + area(b) - inter;
    if union <= 0.0 { 0.0 } else { inter / union }
}

/// Per-class NMS over `dets`, returning the kept detections.
fn non_max_suppression_of(dets: &[Det], iou_threshold: f32, max_keep: usize) -> Vec<&Det> {
    let classes: Vec<usize> = dets.iter().map(|d| d.class_id).collect();
    let confidences: Vec<u32> = dets.iter().map(|d| d.confidence.to_bits()).collect();
    let kept = non_max_suppression(
        &classes,
        &confidences,
        |a: usize, b: usize| iou(&dets[a].bbox, &dets[b].bbox) > iou_threshold,
        max_keep,
    );
    kept.into_iter().map(|i| &dets[i]).collect()
}

fn bits(values: &[f32]) -> Vec<u32> {
    values.iter().map(|v| v.to_bits()).collect()
}

#[test]
fn nms_keeps_highest_confidence_in_overlapping_cluster() {
    let dets = vec![
        det(0.0, 0.0, 10.0, 10.0, 0, 0.9),
        det(1.0, 1.0, 11.0, 11.0, 0, 0.8),
        det(50.0, 50.0, 60.0, 60.0, 0, 0.7),
    ];
    let kept = non_max_suppression_of(&dets, 0.5, 100);
    assert_eq!(kept.len(), 2);
    assert!((kept[0].confidence - 0.9).abs() < 1e-6);
    assert!((kept[1].confidence - 0.7).abs() < 1e-6);
}

#[test]
fn nms_does_not_suppress_across_classes() {
    let dets = vec![
        det(0.0, 0.0, 10.0, 10.0, 0, 0.9),
        det(0.0, 0.0, 10.0, 10.0, 1, 0.8),
    ];
    let kept = non_max_suppression_of(&dets, 0.5, 100);
    assert_eq!(kept.len(), 2);
}

#[test]
fn nms_respects_max_keep() {
    let dets: Vec<Det> = (0..10)
        .map(|i| {
            let x = (i as f32).mul_add(20.0, 0.0);
            det(x, 0.0, x + 5.0, 5.0, 0, 0.5)
        })
        .collect();
    let kept = non_max_suppression_of(&dets, 0.5, 3);
    assert_eq!(kept.len(), 3);
}

#[test]
fn nms_of_nothing_is_nothing() {
    let kept = non_max_suppression(&Vec::new(), &Vec::new(), |_a: usize, _b: usize| true, 5);
    assert!(kept.is_empty());
}

#[test]
fn nms_without_cap_keeps_every_survivor() {
    // max_keep == 0 sets no limit.
    let dets: Vec<Det> = (0..5)
        .map(|i| det(i as f32 * 20.0, 0.0, i as f32 * 20.0 + 5.0, 5.0, 0, 0.5))
        .collect();
    assert_eq!(non_max_suppression_of(&dets, 0.5, 0).len(), 5);
}

#[test]
fn nms_sorts_kept_best_first_and_suppresses_in_rank_order() {
    // Ranked: 2 (0.95), 0 (0.9), 1 (0.6), 3 (0.4).
    // 2 overlaps 0; 0 would overlap 1 but is suppressed, so 1 survives.
    let dets = vec![
        det(10.0, 0.0, 20.0, 10.0, 0, 0.9),
        det(18.0, 0.0, 28.0, 10.0, 0, 0.6),
        det(11.0, 0.0, 21.0, 10.0, 0, 0.95),
        det(100.0, 0.0, 110.0, 10.0, 0, 0.4),
    ];
    let classes: Vec<usize> = dets.iter().map(|d| d.class_id).collect();
    let confidences: Vec<u32> = dets.iter().map(|d| d.confidence.to_bits()).collect();
    let kept = non_max_suppression(
        &classes,
        &confidences,
        |a: usize, b: usize| iou(&dets[a].bbox, &dets[b].bbox) > 0.5,
        100,
    );
    assert_eq!(kept, vec![2, 1, 3]);
}

#[test]
fn nms_lone_class_is_kept() {
    let dets = vec![
        det(0.0, 0.0, 10.0, 10.0, 0, 0.9),
        det(0.0, 0.0, 10.0, 10.0, 0, 0.8),
        det(0.0, 0.0, 10.0, 10.0, 7, 0.1),
    ];
    let kept = non_max_suppression_of(&dets, 0.5, 0);
    assert_eq!(kept.len(), 2);
    assert_eq!(kept[1].class_id, 7);
}

#[test]
fn ranking_orders_by_descending_confidence_ties_by_index() {
    let conf = bits(&[0.5, 0.9, -1.0, 0.5, f32::INFINITY, 0.0, -0.0]);
    // +0.0 ranks before -0.0.
    assert_eq!(rank_by_confidence(&conf), vec![4, 1, 0, 3, 5, 6, 2]);
}

#[test]
fn cap_and_sort_keeps_the_most_confident() {
    let conf = bits(&[0.2, 0.8, 0.5, 0.9]);
    assert_eq!(cap_and_sort(&conf, 2), vec![3, 1]);
    assert_eq!(cap_and_sort(&conf, 10), vec![3, 1, 2, 0]);
    assert_eq!(cap_and_sort(&conf, 0), Vec::<usize>::new());
}

#[test]
fn keep_detections_skips_nms_only_for_v26() {
    let dets = vec![
        det(0.0, 0.0, 10.0, 10.0, 0, 0.8),
        det(0.0, 0.0, 10.0, 10.0, 0, 0.9),
        det(0.0, 0.0, 10.0, 10.0, 0, 0.7),
    ];
    let classes: Vec<usize> = dets.iter().map(|d| d.class_id).collect();
    let confidences: Vec<u32> = dets.iter().map(|d| d.confidence.to_bits()).collect();
    let overlap = |a: usize, b: usize| iou(&dets[a].bbox, &dets[b].bbox) > 0.5;
    assert_eq!(keep_detections(ModelVariant::V26, &classes, &confidences, overlap, 2), vec![1, 0]);
    assert_eq!(keep_detections(ModelVariant::V11, &classes, &confidences, overlap, 2), vec![1]);
    assert_eq!(keep_detections(ModelVariant::V5, &classes, &confidences, overlap, 0), vec![1]);
}

#[test]
fn nms_classes_do_not_interact() {
    // Two overlapping clusters of class 0 and one of class 1, interleaved in
    // index and confidence: the class-0 survivors of the whole run are, in
    // order, the survivors of a run over the class-0 detections alone.
    let dets = vec![
        det(0.0, 0.0, 10.0, 10.0, 0, 0.60),
        det(1.0, 1.0, 11.0, 11.0, 1, 0.95),
        det(0.5, 0.5, 10.5, 10.5, 0, 0.90),
        det(40.0, 40.0, 50.0, 50.0, 0, 0.70),
        det(0.0, 0.0, 10.0, 10.0, 1, 0.50),
        det(41.0, 41.0, 51.0, 51.0, 0, 0.80),
    ];
    let all: Vec<usize> = {
        let classes: Vec<usize> = dets.iter().map(|d| d.class_id).collect();
        let confidences: Vec<u32> = dets.iter().map(|d| d.confidence.to_bits()).collect();
        non_max_suppression(
            &classes,
            &confidences,
            |a: usize, b: usize| iou(&dets[a].bbox, &dets[b].bbox) > 0.5,
            100,
        )
    };
    let class0: Vec<usize> = all.iter().copied().filter(|&i| dets[i].class_id == 0).collect();
    assert_eq!(class0, vec![2, 5]);

    let idx: Vec<usize> = (0..dets.len()).filter(|&i| dets[i].class_id == 0).collect();
    let sub_classes: Vec<usize> = idx.iter().map(|&i| dets[i].class_id).collect();
    let sub_confidences: Vec<u32> = idx.iter().map(|&i| dets[i].confidence.to_bits()).collect();
    let sub = non_max_suppression(
        &sub_classes,
        &sub_confidences,
        |a: usize, b: usize| iou(&dets[idx[a]].bbox, &dets[idx[b]].bbox) > 0.5,
        100,
    );
    let mapped: Vec<usize> = sub.iter().map(|&a| idx[a]).collect();
    assert_eq!(mapped, class0);
}
