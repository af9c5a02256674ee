use bongo_modulator::detect::{
    activity_rate, decode_predictions, detect, non_max_suppression, rate_for_output,
    sort_by_confidence, DetectionBox,
};
use bongo_modulator::input::prepare_frame;

/// Lays out predictions (columns) as the row-major `pred_size × npreds` tensor.
fn tensor(preds: &[Vec<i32>]) -> (Vec<i32>, usize, usize) {
    let ps = preds[0].len();
    let np = preds.len();
    let mut out = vec![0; ps * np];
    for (j, p) in preds.iter().enumerate() {
        for (r, v) in p.iter().enumerate() {
            out[r * np + j] = *v;
        }
    }
    (out, ps, np)
}

fn bx(xmin: i64, ymin: i64, xmax: i64, ymax: i64, confidence: i32, class_index: usize) -> DetectionBox {
    DetectionBox { xmin, ymin, xmax, ymax, confidence, class_index }
}

#[test]
fn overlapping_box_of_same_class_is_suppressed() {
    let (out, ps, np) = tensor(&[
        vec![100_000, 100_000, 50_000, 50_000, 900],
        vec![105_000, 100_000, 50_000, 50_000, 800],
        vec![400_000, 400_000, 20_000, 20_000, 700],
        vec![300_000, 300_000, 20_000, 20_000, 200],
    ]);
    let boxes = detect(&out, ps, np).unwrap();
    assert_eq!(
        boxes,
        vec![
            bx(75_000, 75_000, 125_000, 125_000, 900, 0),
            bx(390_000, 390_000, 410_000, 410_000, 700, 0),
        ]
    );
}

#[test]
fn overlapping_boxes_of_other_classes_are_kept() {
    let (out, ps, np) = tensor(&[
        vec![100_000, 100_000, 50_000, 50_000, 900, 100],
        vec![100_000, 100_000, 50_000, 50_000, 100, 800],
    ]);
    let boxes = detect(&out, ps, np).unwrap();
    assert_eq!(boxes.len(), 2);
    assert_eq!(boxes[0].class_index, 0);
    assert_eq!(boxes[1].class_index, 1);
    assert_eq!(boxes[1].confidence, 800);
}

#[test]
fn threshold_is_strict() {
    let (out, ps, np) = tensor(&[vec![10, 10, 4, 4, 250], vec![10, 10, 4, 4, 251]]);
    let boxes = decode_predictions(&out, ps, np).unwrap();
    assert_eq!(boxes, vec![bx(8, 8, 12, 12, 251, 0)]);
}

#[test]
fn best_class_first_wins_tie() {
    let (out, ps, np) = tensor(&[vec![0, 0, 2, 2, 300, 600, 600]]);
    let boxes = decode_predictions(&out, ps, np).unwrap();
    assert_eq!(boxes[0].class_index, 1);
    assert_eq!(boxes[0].confidence, 600);
}

#[test]
fn negative_size_gives_inverted_box() {
    let (out, ps, np) = tensor(&[vec![0, 0, -2, 2, 900], vec![10, 10, -3, 3, 900]]);
    assert_eq!(
        decode_predictions(&out, ps, np).unwrap(),
        vec![bx(1, -1, -1, 1, 900, 0), bx(11, 9, 9, 11, 900, 0)]
    );
}

#[test]
fn bad_shapes_are_rejected() {
    assert_eq!(decode_predictions(&vec![0; 8], 4, 2), None);
    assert_eq!(decode_predictions(&vec![0; 9], 5, 2), None);
    assert_eq!(detect(&vec![0; 11], 5, 2), None);
    assert_eq!(decode_predictions(&vec![], 5, 0), Some(Vec::new()));
}

#[test]
fn iou_at_threshold_suppresses() {
    let a = bx(0, 0, 290, 100, 900, 0);
    let b = bx(0, 0, 290, 100, 800, 0);
    // identical boxes: IoU 1
    assert_eq!(non_max_suppression(&vec![a, b]), vec![a]);
    // intersection 9000, union 49000: about 18%
    let c = bx(200, 0, 490, 100, 800, 0);
    assert_eq!(non_max_suppression(&vec![a, c]), vec![a, c]);
    // intersection 18, union 40: exactly 45% is suppressed
    let d = bx(0, 0, 29, 1, 900, 0);
    let e = bx(11, 0, 40, 1, 800, 0);
    assert_eq!(non_max_suppression(&vec![e, d]), vec![d]);
    // intersection 17, union 41: just below 45% is kept
    let f = bx(12, 0, 41, 1, 800, 0);
    assert_eq!(non_max_suppression(&vec![d, f]), vec![d, f]);
    // boxes that only touch never overlap
    let g = bx(29, 0, 58, 1, 800, 0);
    assert_eq!(non_max_suppression(&vec![d, g]), vec![d, g]);
}

#[test]
fn sort_is_stable_and_descending() {
    let a = bx(0, 0, 1, 1, 500, 0);
    let b = bx(0, 0, 2, 2, 700, 0);
    let c = bx(0, 0, 3, 3, 500, 1);
    assert_eq!(sort_by_confidence(&vec![a, b, c]), vec![b, a, c]);
}

#[test]
fn two_tracked_boxes_raise_rate() {
    // each box covers 320×256 px, a fifth of the 640×640 input: 40% together
    let a = bx(0, 0, 320_000, 256_000, 900, 0);
    let b = bx(320_000, 0, 640_000, 256_000, 800, 0);
    let rate = activity_rate(&vec![a, b]);
    assert_eq!(rate, 11_000);
    assert!(rate > 5000 && rate <= 30_000);
}

#[test]
fn no_tracked_box_keeps_base_rate() {
    let other = bx(0, 0, 640_000, 640_000, 900, 3);
    assert_eq!(activity_rate(&vec![]), 5000);
    assert_eq!(activity_rate(&vec![other]), 5000);
}

#[test]
fn many_boxes_saturate_at_max() {
    let boxes: Vec<DetectionBox> = (0..40).map(|i| bx(i, 0, i + 1, 1, 900, 0)).collect();
    assert_eq!(activity_rate(&boxes), 30_000);
}

#[test]
fn rate_for_output_chains_detection() {
    let (out, ps, np) = tensor(&[vec![320_000, 320_000, 640_000, 640_000, 900]]);
    // one box over the whole frame: 5000 + 1000 + 20 * 1000
    assert_eq!(rate_for_output(&out, ps, np), Some(26_000));
    assert_eq!(rate_for_output(&vec![1, 2, 3], 5, 1), None);
}

#[test]
fn frame_is_resampled_to_model_input() {
    let small = vec![10u8, 20, 30, 40, 50, 60, 70, 80, 90, 100, 110, 120];
    let out = prepare_frame(2, 2, small.clone()).unwrap();
    assert_eq!(out.len(), 640 * 640 * 3);
    assert_ne!(out, small);
    let full: Vec<u8> = (0..640 * 640 * 3).map(|i| (i % 251) as u8).collect();
    assert_eq!(prepare_frame(640, 640, full.clone()), Some(full));
}

#[test]
fn frame_with_wrong_size_is_rejected() {
    assert_eq!(prepare_frame(2, 2, vec![0; 11]), None);
    assert_eq!(prepare_frame(0, 2, vec![]), None);
    assert_eq!(prepare_frame(2, 0, vec![]), None);
}
