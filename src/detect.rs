//! Detection post-processing and the activity heuristic of the rate controller.
//!
//! The model's output tensor reaches this module quantized: every value is
//! multiplied by 1000 and rounded, so coordinates are in thousandths of a pixel
//! of the square model input and confidences in thousandths.
//!
//! The tensor is `pred_size × npreds`, stored row after row: rows 0 to 3 hold
//! each prediction's center x, center y, width and height, the remaining rows
//! its confidence for each class.
use vstd::prelude::*;
use crate::control::{clamp_rate_spec, clamp_rate, DEFAULT_RATE, MIN_RATE, MAX_RATE};

verus! {

/// A candidate is kept only if its best class confidence exceeds 0.25.
pub const CONF_THRESHOLD: i32 = 250;

/// Two boxes of one class overlap too much when intersection over union reaches
/// `IOU_PERCENT` percent.
pub const IOU_PERCENT: i128 = 45;

/// Side of the square model input, in pixels.
pub const INPUT_SIDE: u32 = 640;

/// Area of the model input in squared thousandths of a pixel.
pub const FRAME_AREA: i128 = 409_600_000_000;

/// Class whose boxes drive the rate.
pub const PRIMARY_CLASS: usize = 0;

/// Rate added per box of the primary class, in millihertz.
pub const COUNT_WEIGHT: i128 = 1000;

/// Rate added per thousandth of the frame covered by the largest primary box, in millihertz.
pub const AREA_WEIGHT: i128 = 20;

/// One detected object: corners in thousandths of a pixel, confidence in thousandths.
#[derive(PartialEq, Eq, Structural, Clone, Copy, Debug)]
pub struct DetectionBox {
    pub xmin: i64,
    pub ymin: i64,
    pub xmax: i64,
    pub ymax: i64,
    pub confidence: i32,
    pub class_index: usize,
}

/// The value at row `r`, column `j` of a row-major matrix with `np` columns.
pub open spec fn at(out: Seq<i32>, np: nat, r: int, j: int) -> int {
    out[r * np + j] as int
}

/// Row of the best class of prediction `j` among rows `4 .. end`; the first
/// one wins a tie.
pub open spec fn best_row(out: Seq<i32>, np: nat, j: int, end: int) -> int
    decreases end,
{
    if end <= 5 {
        4
    } else {
        let b = best_row(out, np, j, end - 1);
        if at(out, np, end - 1, j) > at(out, np, b, j) {
            end - 1
        } else {
            b
        }
    }
}

/// Half a size, rounded toward zero.
pub open spec fn half(v: int) -> int {
    if v >= 0 {
        v / 2
    } else {
        -((-v) / 2)
    }
}

/// The box prediction `j` stands for, if its best confidence exceeds the threshold.
pub open spec fn candidate(out: Seq<i32>, np: nat, ps: nat, j: int) -> Option<DetectionBox> {
    let r = best_row(out, np, j, ps as int);
    let cx = at(out, np, 0, j);
    let cy = at(out, np, 1, j);
    let w = at(out, np, 2, j);
    let h = at(out, np, 3, j);
    if at(out, np, r, j) > CONF_THRESHOLD {
        Some(
            DetectionBox {
                xmin: (cx - half(w)) as i64,
                ymin: (cy - half(h)) as i64,
                xmax: (cx + half(w)) as i64,
                ymax: (cy + half(h)) as i64,
                confidence: at(out, np, r, j) as i32,
                class_index: (r - 4) as usize,
            },
        )
    } else {
        None
    }
}

/// Candidates of the first `n` predictions, in prediction order.
pub open spec fn candidates(out: Seq<i32>, np: nat, ps: nat, n: int) -> Seq<DetectionBox>
    decreases n,
{
    if n <= 0 {
        Seq::empty()
    } else {
        let front = candidates(out, np, ps, n - 1);
        match candidate(out, np, ps, n - 1) {
            Some(b) => front.push(b),
            None => front,
        }
    }
}

pub open spec fn max_spec(a: int, b: int) -> int {
    if a >= b {
        a
    } else {
        b
    }
}

pub open spec fn min_spec(a: int, b: int) -> int {
    if a <= b {
        a
    } else {
        b
    }
}

pub open spec fn box_area(b: DetectionBox) -> int {
    (b.xmax - b.xmin) * (b.ymax - b.ymin)
}

pub open spec fn intersection(a: DetectionBox, b: DetectionBox) -> int {
    let w = min_spec(a.xmax as int, b.xmax as int) - max_spec(a.xmin as int, b.xmin as int);
    let h = min_spec(a.ymax as int, b.ymax as int) - max_spec(a.ymin as int, b.ymin as int);
    if w <= 0 || h <= 0 {
        0
    } else {
        w * h
    }
}

/// Intersection over union stays below 45%; boxes that do not meet never overlap.
pub open spec fn overlap_below(a: DetectionBox, b: DetectionBox) -> bool {
    let inter = intersection(a, b);
    let union = box_area(a) + box_area(b) - inter;
    inter == 0 || 100 * inter < IOU_PERCENT * union
}

/// `b` may join the accepted boxes `acc`: it overlaps none of its own class too much.
pub open spec fn compatible(acc: Seq<DetectionBox>, b: DetectionBox) -> bool {
    forall|k: int| 0 <= k < acc.len() ==> acc[k].class_index != b.class_index || overlap_below(#[trigger] acc[k], b)
}

/// Greedy suppression over boxes already in decreasing confidence.
pub open spec fn greedy(s: Seq<DetectionBox>) -> Seq<DetectionBox>
    decreases s.len(),
{
    if s.len() == 0 {
        Seq::empty()
    } else {
        let acc = greedy(s.drop_last());
        if compatible(acc, s.last()) {
            acc.push(s.last())
        } else {
            acc
        }
    }
}

/// Inserts `b` into a sequence sorted by decreasing confidence, after every box
/// at least as confident.
pub open spec fn insert_desc(sorted: Seq<DetectionBox>, b: DetectionBox) -> Seq<DetectionBox>
    decreases sorted.len(),
{
    if sorted.len() == 0 {
        seq![b]
    } else if sorted[0].confidence < b.confidence {
        seq![b] + sorted
    } else {
        seq![sorted[0]] + insert_desc(sorted.drop_first(), b)
    }
}

/// Stable sort by decreasing confidence.
pub open spec fn sort_desc(s: Seq<DetectionBox>) -> Seq<DetectionBox>
    decreases s.len(),
{
    if s.len() == 0 {
        Seq::empty()
    } else {
        insert_desc(sort_desc(s.drop_last()), s.last())
    }
}

/// Non-maximum suppression: sort by confidence, then keep each box that does
/// not overlap an already kept box of its class.
pub open spec fn nms_spec(s: Seq<DetectionBox>) -> Seq<DetectionBox> {
    greedy(sort_desc(s))
}

/// The boxes a well-shaped output tensor yields.
pub open spec fn detect_spec(out: Seq<i32>, ps: nat, np: nat) -> Seq<DetectionBox> {
    nms_spec(candidates(out, np, ps, np as int))
}

/// An output tensor the detector can read: at least one class row, and exactly
/// `pred_size × npreds` values.
pub open spec fn well_shaped(len: nat, ps: nat, np: nat) -> bool {
    ps >= 5 && len == ps * np
}

proof fn lemma_index_in_range(r: int, j: int, ps: int, np: int)
    requires
        0 <= r < ps,
        0 <= j < np,
    ensures
        0 <= r * np + j < ps * np,
{
    assert(0 <= r * np + j < ps * np) by (nonlinear_arith)
        requires
            0 <= r < ps,
            0 <= j < np,
    ;
}

fn value_at(out: &Vec<i32>, ps: usize, np: usize, r: usize, j: usize) -> (v: i32)
    requires
        out@.len() == ps * np,
        r < ps,
        j < np,
    ensures
        v as int == at(out@, np as nat, r as int, j as int),
{
    proof {
        lemma_index_in_range(r as int, j as int, ps as int, np as int);
    }
    let len = out.len();
    assert(r * np + j < len);
    out[r * np + j]
}

fn best_row_exec(out: &Vec<i32>, ps: usize, np: usize, j: usize) -> (r: usize)
    requires
        ps >= 5,
        out@.len() == ps * np,
        j < np,
    ensures
        r as int == best_row(out@, np as nat, j as int, ps as int),
        4 <= r < ps,
{
    let mut best: usize = 4;
    let mut end: usize = 5;
    while end < ps
        invariant
            5 <= end <= ps,
            out@.len() == ps * np,
            j < np,
            best as int == best_row(out@, np as nat, j as int, end as int),
            4 <= best < end,
        decreases ps - end,
    {
        if value_at(out, ps, np, end, j) > value_at(out, ps, np, best, j) {
            best = end;
        }
        end += 1;
    }
    best
}

fn half_exec(v: i64) -> (r: i64)
    requires
        -0x1_0000_0000 <= v <= 0x1_0000_0000,
    ensures
        r == half(v as int),
{
    if v >= 0 {
        v / 2
    } else {
        -((-v) / 2)
    }
}

fn candidate_exec(out: &Vec<i32>, ps: usize, np: usize, j: usize) -> (c: Option<DetectionBox>)
    requires
        ps >= 5,
        out@.len() == ps * np,
        j < np,
    ensures
        c == candidate(out@, np as nat, ps as nat, j as int),
{
    let r = best_row_exec(out, ps, np, j);
    let conf = value_at(out, ps, np, r, j);
    let cx = value_at(out, ps, np, 0, j) as i64;
    let cy = value_at(out, ps, np, 1, j) as i64;
    let w = value_at(out, ps, np, 2, j) as i64;
    let h = value_at(out, ps, np, 3, j) as i64;
    if conf > CONF_THRESHOLD {
        let hw = half_exec(w);
        let hh = half_exec(h);
        Some(
            DetectionBox {
                xmin: cx - hw,
                ymin: cy - hh,
                xmax: cx + hw,
                ymax: cy + hh,
                confidence: conf,
                class_index: r - 4,
            },
        )
    } else {
        None
    }
}

/// Turns a quantized output tensor into the boxes of its confident predictions,
/// in prediction order, or `None` when its shape cannot be read.
pub fn decode_predictions(out: &Vec<i32>, pred_size: usize, npreds: usize) -> (r: Option<Vec<DetectionBox>>)
    ensures
        match r {
            Some(v) => well_shaped(out@.len(), pred_size as nat, npreds as nat) && v@ == candidates(
                out@,
                npreds as nat,
                pred_size as nat,
                npreds as int,
            ),
            None => !well_shaped(out@.len(), pred_size as nat, npreds as nat),
        },
{
    let len = out.len();
    if pred_size < 5 {
        return None;
    }
    let total = match pred_size.checked_mul(npreds) {
        Some(t) => t,
        None => {
            assert(pred_size * npreds > usize::MAX);
            return None;
        },
    };
    if out.len() != total {
        return None;
    }
    let mut v: Vec<DetectionBox> = Vec::new();
    let mut j: usize = 0;
    while j < npreds
        invariant
            pred_size >= 5,
            out@.len() == pred_size * npreds,
            j <= npreds,
            v@ == candidates(out@, npreds as nat, pred_size as nat, j as int),
        decreases npreds - j,
    {
        match candidate_exec(out, pred_size, npreds, j) {
            Some(b) => v.push(b),
            None => {},
        }
        j += 1;
    }
    Some(v)
}

proof fn lemma_insert_at(sorted: Seq<DetectionBox>, b: DetectionBox, p: int)
    requires
        0 <= p <= sorted.len(),
        forall|k: int| 0 <= k < p ==> sorted[k].confidence >= b.confidence,
        p < sorted.len() ==> sorted[p].confidence < b.confidence,
    ensures
        insert_desc(sorted, b) == sorted.insert(p, b),
    decreases sorted.len(),
{
    if sorted.len() == 0 {
        assert(sorted.insert(p, b) =~= seq![b]);
    } else if p == 0 {
        assert(sorted.insert(p, b) =~= seq![b] + sorted);
    } else {
        let rest = sorted.drop_first();
        assert forall|k: int| 0 <= k < p - 1 implies rest[k].confidence >= b.confidence by {
            assert(rest[k] == sorted[k + 1]);
        }
        if p - 1 < rest.len() {
            assert(rest[p - 1] == sorted[p]);
        }
        lemma_insert_at(rest, b, p - 1);
        assert(seq![sorted[0]] + rest.insert(p - 1, b) =~= sorted.insert(p, b));
    }
}

/// Stable sort of the candidates by decreasing confidence.
pub fn sort_by_confidence(boxes: &Vec<DetectionBox>) -> (r: Vec<DetectionBox>)
    ensures
        r@ == sort_desc(boxes@),
{
    let mut sorted: Vec<DetectionBox> = Vec::new();
    let mut i: usize = 0;
    while i < boxes.len()
        invariant
            i <= boxes.len(),
            sorted@ == sort_desc(boxes@.subrange(0, i as int)),
        decreases boxes.len() - i,
    {
        let b = boxes[i];
        let mut p: usize = 0;
        while p < sorted.len() && sorted[p].confidence >= b.confidence
            invariant
                p <= sorted.len(),
                forall|k: int| 0 <= k < p ==> sorted@[k].confidence >= b.confidence,
            decreases sorted.len() - p,
        {
            p += 1;
        }
        proof {
            lemma_insert_at(sorted@, b, p as int);
            assert(boxes@.subrange(0, i + 1).drop_last() =~= boxes@.subrange(0, i as int));
        }
        sorted.insert(p, b);
        i += 1;
    }
    assert(boxes@.subrange(0, boxes.len() as int) =~= boxes@);
    sorted
}

/// Coordinates any box built from a quantized tensor stays within.
pub open spec fn coords_bounded(b: DetectionBox) -> bool {
    let lim = 0x1_0000_0000i64;
    -lim <= b.xmin <= lim && -lim <= b.ymin <= lim && -lim <= b.xmax <= lim && -lim <= b.ymax <= lim
}

fn overlap_below_exec(a: &DetectionBox, b: &DetectionBox) -> (r: bool)
    requires
        coords_bounded(*a),
        coords_bounded(*b),
    ensures
        r == overlap_below(*a, *b),
{
    let ix0 = if a.xmin >= b.xmin { a.xmin } else { b.xmin };
    let ix1 = if a.xmax <= b.xmax { a.xmax } else { b.xmax };
    let iy0 = if a.ymin >= b.ymin { a.ymin } else { b.ymin };
    let iy1 = if a.ymax <= b.ymax { a.ymax } else { b.ymax };
    let iw = ix1 as i128 - ix0 as i128;
    let ih = iy1 as i128 - iy0 as i128;
    let aw = a.xmax as i128 - a.xmin as i128;
    let ah = a.ymax as i128 - a.ymin as i128;
    let bw = b.xmax as i128 - b.xmin as i128;
    let bh = b.ymax as i128 - b.ymin as i128;
    let lim: i128 = 0x2_0000_0000;
    assert(-lim <= iw <= lim && -lim <= ih <= lim && -lim <= aw <= lim && -lim <= ah <= lim);
    assert(-lim <= bw <= lim && -lim <= bh <= lim);
    proof {
        lemma_product_bounded(iw as int, ih as int);
        lemma_product_bounded(aw as int, ah as int);
        lemma_product_bounded(bw as int, bh as int);
    }
    let inter: i128 = if iw <= 0 || ih <= 0 { 0 } else { iw * ih };
    let union = aw * ah + bw * bh - inter;
    inter == 0 || 100 * inter < IOU_PERCENT * union
}

proof fn lemma_product_bounded(x: int, y: int)
    requires
        -0x2_0000_0000 <= x <= 0x2_0000_0000,
        -0x2_0000_0000 <= y <= 0x2_0000_0000,
    ensures
        -0x4_0000_0000_0000_0000 <= x * y <= 0x4_0000_0000_0000_0000,
{
    assert(-0x4_0000_0000_0000_0000 <= x * y <= 0x4_0000_0000_0000_0000) by (nonlinear_arith)
        requires
            -0x2_0000_0000 <= x <= 0x2_0000_0000,
            -0x2_0000_0000 <= y <= 0x2_0000_0000,
    ;
}

fn compatible_exec(acc: &Vec<DetectionBox>, b: &DetectionBox) -> (r: bool)
    requires
        coords_bounded(*b),
        forall|k: int| 0 <= k < acc.len() ==> coords_bounded(#[trigger] acc@[k]),
    ensures
        r == compatible(acc@, *b),
{
    let mut k: usize = 0;
    while k < acc.len()
        invariant
            k <= acc.len(),
            coords_bounded(*b),
            forall|m: int| 0 <= m < acc.len() ==> coords_bounded(#[trigger] acc@[m]),
            forall|m: int| 0 <= m < k ==> acc@[m].class_index != b.class_index || overlap_below(#[trigger] acc@[m], *b),
        decreases acc.len() - k,
    {
        assert(coords_bounded(acc@[k as int]));
        if acc[k].class_index == b.class_index && !overlap_below_exec(&acc[k], b) {
            return false;
        }
        k += 1;
    }
    true
}

/// Greedy per-class non-maximum suppression.
pub fn non_max_suppression(boxes: &Vec<DetectionBox>) -> (r: Vec<DetectionBox>)
    requires
        forall|k: int| 0 <= k < boxes.len() ==> coords_bounded(#[trigger] boxes@[k]),
    ensures
        r@ == nms_spec(boxes@),
{
    let sorted = sort_by_confidence(boxes);
    proof {
        lemma_sort_desc_members(boxes@);
    }
    let mut kept: Vec<DetectionBox> = Vec::new();
    let mut i: usize = 0;
    while i < sorted.len()
        invariant
            i <= sorted.len(),
            sorted@ == sort_desc(boxes@),
            forall|k: int| 0 <= k < sorted.len() ==> coords_bounded(#[trigger] sorted@[k]),
            kept@ == greedy(sorted@.subrange(0, i as int)),
            forall|k: int| 0 <= k < kept.len() ==> coords_bounded(#[trigger] kept@[k]),
        decreases sorted.len() - i,
    {
        let b = sorted[i];
        proof {
            assert(sorted@.subrange(0, i + 1).drop_last() =~= sorted@.subrange(0, i as int));
            assert(sorted@.subrange(0, i + 1).last() == b);
        }
        if compatible_exec(&kept, &b) {
            kept.push(b);
        }
        i += 1;
    }
    assert(sorted@.subrange(0, sorted.len() as int) =~= sorted@);
    kept
}

proof fn lemma_insert_desc_members(sorted: Seq<DetectionBox>, b: DetectionBox)
    ensures
        insert_desc(sorted, b).len() == sorted.len() + 1,
        forall|k: int| 0 <= k < insert_desc(sorted, b).len() ==> {
            let x = #[trigger] insert_desc(sorted, b)[k];
            x == b || exists|m: int| 0 <= m < sorted.len() && sorted[m] == x
        },
    decreases sorted.len(),
{
    if sorted.len() > 0 && sorted[0].confidence >= b.confidence {
        let rest = sorted.drop_first();
        lemma_insert_desc_members(rest, b);
        assert forall|k: int| 0 <= k < insert_desc(sorted, b).len() implies {
            let x = #[trigger] insert_desc(sorted, b)[k];
            x == b || exists|m: int| 0 <= m < sorted.len() && sorted[m] == x
        } by {
            if k > 0 {
                let x = insert_desc(rest, b)[k - 1];
                assert(insert_desc(sorted, b)[k] == x);
                if x != b {
                    let m = choose|m: int| 0 <= m < rest.len() && rest[m] == x;
                    assert(sorted[m + 1] == x);
                }
            } else {
                assert(sorted[0] == insert_desc(sorted, b)[0]);
            }
        }
    } else if sorted.len() > 0 {
        assert forall|k: int| 0 <= k < insert_desc(sorted, b).len() implies {
            let x = #[trigger] insert_desc(sorted, b)[k];
            x == b || exists|m: int| 0 <= m < sorted.len() && sorted[m] == x
        } by {
            if k > 0 {
                assert(sorted[k - 1] == insert_desc(sorted, b)[k]);
            }
        }
    }
}

/// Every box of the sorted sequence comes from the input.
proof fn lemma_sort_desc_members(s: Seq<DetectionBox>)
    ensures
        sort_desc(s).len() == s.len(),
        forall|k: int| 0 <= k < sort_desc(s).len() ==> exists|m: int| 0 <= m < s.len() && s[m] == #[trigger] sort_desc(s)[k],
    decreases s.len(),
{
    if s.len() > 0 {
        let front = s.drop_last();
        lemma_sort_desc_members(front);
        lemma_insert_desc_members(sort_desc(front), s.last());
        assert forall|k: int| 0 <= k < sort_desc(s).len() implies exists|m: int| 0 <= m < s.len() && s[m] == #[trigger] sort_desc(s)[k] by {
            let x = sort_desc(s)[k];
            if x == s.last() {
                assert(s[s.len() - 1] == x);
            } else {
                let m = choose|m: int| 0 <= m < sort_desc(front).len() && sort_desc(front)[m] == x;
                let m2 = choose|m2: int| 0 <= m2 < front.len() && front[m2] == sort_desc(front)[m];
                assert(s[m2] == x);
            }
        }
    }
}

proof fn lemma_candidates_bounded(out: Seq<i32>, np: nat, ps: nat, n: int)
    ensures
        forall|k: int| 0 <= k < candidates(out, np, ps, n).len() ==> coords_bounded(#[trigger] candidates(out, np, ps, n)[k]),
    decreases n,
{
    if n > 0 {
        lemma_candidates_bounded(out, np, ps, n - 1);
        let front = candidates(out, np, ps, n - 1);
        match candidate(out, np, ps, n - 1) {
            Some(b) => {
                assert(coords_bounded(b));
                assert forall|k: int| 0 <= k < candidates(out, np, ps, n).len() implies coords_bounded(
                    #[trigger] candidates(out, np, ps, n)[k],
                ) by {
                    if k < front.len() {
                        assert(candidates(out, np, ps, n)[k] == front[k]);
                    }
                }
            },
            None => {},
        }
    }
}

/// Boxes of the confident, non-overlapping predictions of a quantized output
/// tensor, most confident first; `None` when the tensor's shape cannot be read.
pub fn detect(out: &Vec<i32>, pred_size: usize, npreds: usize) -> (r: Option<Vec<DetectionBox>>)
    ensures
        match r {
            Some(v) => well_shaped(out@.len(), pred_size as nat, npreds as nat) && v@ == detect_spec(
                out@,
                pred_size as nat,
                npreds as nat,
            ),
            None => !well_shaped(out@.len(), pred_size as nat, npreds as nat),
        },
{
    match decode_predictions(out, pred_size, npreds) {
        Some(cands) => {
            proof {
                lemma_candidates_bounded(out@, npreds as nat, pred_size as nat, npreds as int);
            }
            Some(non_max_suppression(&cands))
        },
        None => None,
    }
}

/// Number of boxes of the primary class.
pub open spec fn tracked_count(boxes: Seq<DetectionBox>) -> nat
    decreases boxes.len(),
{
    if boxes.len() == 0 {
        0
    } else {
        tracked_count(boxes.drop_last()) + if boxes.last().class_index == PRIMARY_CLASS {
            1nat
        } else {
            0nat
        }
    }
}

/// Largest area of a box of the primary class; 0 when there is none.
pub open spec fn largest_tracked_area(boxes: Seq<DetectionBox>) -> int
    decreases boxes.len(),
{
    if boxes.len() == 0 {
        0
    } else {
        let a = largest_tracked_area(boxes.drop_last());
        let b = boxes.last();
        if b.class_index == PRIMARY_CLASS && box_area(b) > a {
            box_area(b)
        } else {
            a
        }
    }
}

/// Thousandths of the model input covered by an area, rounded down.
pub open spec fn area_permille(area: int) -> int {
    area * 1000 / FRAME_AREA as int
}

/// The rate the controller publishes for one frame's boxes: the base rate, plus
/// a weight per primary box and a weight per thousandth of the frame covered by
/// the largest one, clamped into the valid range.
pub open spec fn activity_rate_spec(boxes: Seq<DetectionBox>) -> int {
    clamp_rate_spec(
        DEFAULT_RATE + COUNT_WEIGHT * tracked_count(boxes) + AREA_WEIGHT * area_permille(
            largest_tracked_area(boxes),
        ),
    )
}

proof fn lemma_largest_bounds(boxes: Seq<DetectionBox>)
    requires
        forall|k: int| 0 <= k < boxes.len() ==> coords_bounded(#[trigger] boxes[k]),
    ensures
        0 <= largest_tracked_area(boxes) <= 0x4_0000_0000_0000_0000,
        tracked_count(boxes) <= boxes.len(),
    decreases boxes.len(),
{
    if boxes.len() > 0 {
        let front = boxes.drop_last();
        assert forall|k: int| 0 <= k < front.len() implies coords_bounded(#[trigger] front[k]) by {
            assert(front[k] == boxes[k]);
        }
        lemma_largest_bounds(front);
        let b = boxes.last();
        assert(coords_bounded(boxes[boxes.len() - 1]));
        lemma_product_bounded((b.xmax - b.xmin) as int, (b.ymax - b.ymin) as int);
    }
}

/// The rate (millihertz) that one frame's detections call for.
pub fn activity_rate(boxes: &Vec<DetectionBox>) -> (r: u32)
    requires
        forall|k: int| 0 <= k < boxes.len() ==> coords_bounded(#[trigger] boxes@[k]),
    ensures
        r == activity_rate_spec(boxes@),
        MIN_RATE <= r <= MAX_RATE,
{
    let mut count: u64 = 0;
    let mut largest: i128 = 0;
    let mut i: usize = 0;
    while i < boxes.len()
        invariant
            i <= boxes.len(),
            forall|k: int| 0 <= k < boxes.len() ==> coords_bounded(#[trigger] boxes@[k]),
            count == tracked_count(boxes@.subrange(0, i as int)),
            largest == largest_tracked_area(boxes@.subrange(0, i as int)),
        decreases boxes.len() - i,
    {
        let ghost pre = boxes@.subrange(0, i as int);
        let ghost cur = boxes@.subrange(0, i + 1);
        assert(cur.drop_last() =~= pre);
        proof {
            assert forall|k: int| 0 <= k < cur.len() implies coords_bounded(#[trigger] cur[k]) by {
                assert(cur[k] == boxes@[k]);
            }
            lemma_largest_bounds(cur);
            lemma_largest_bounds(pre);
        }
        let b = boxes[i];
        if b.class_index == PRIMARY_CLASS {
            assert(coords_bounded(boxes@[i as int]));
            proof {
                lemma_product_bounded((b.xmax - b.xmin) as int, (b.ymax - b.ymin) as int);
            }
            let area = (b.xmax as i128 - b.xmin as i128) * (b.ymax as i128 - b.ymin as i128);
            if area > largest {
                largest = area;
            }
            count = count + 1;
        }
        i += 1;
    }
    assert(boxes@.subrange(0, boxes.len() as int) =~= boxes@);
    proof {
        lemma_largest_bounds(boxes@);
    }
    assert(0 <= largest * 1000 <= 0x4_0000_0000_0000_0000 * 1000) by (nonlinear_arith)
        requires
            0 <= largest <= 0x4_0000_0000_0000_0000,
    ;
    let permille = largest * 1000 / FRAME_AREA;
    assert(0 <= permille <= largest * 1000) by (nonlinear_arith)
        requires
            0 <= largest * 1000,
            permille == largest * 1000 / (FRAME_AREA as int),
    ;
    assert(COUNT_WEIGHT * count <= 1000 * 0xffff_ffff_ffff_ffffu64) by (nonlinear_arith)
        requires
            count <= 0xffff_ffff_ffff_ffffu64,
    ;
    let total = DEFAULT_RATE as i128 + COUNT_WEIGHT * count as i128 + AREA_WEIGHT * permille;
    if total >= MAX_RATE as i128 {
        MAX_RATE
    } else {
        clamp_rate(total as u64)
    }
}

/// Any detection of the primary class raises the rate above the base rate,
/// and the rate always stays within the valid range.
pub proof fn lemma_tracked_boxes_raise_rate(boxes: Seq<DetectionBox>)
    requires
        forall|k: int| 0 <= k < boxes.len() ==> coords_bounded(#[trigger] boxes[k]),
    ensures
        MIN_RATE <= activity_rate_spec(boxes) <= MAX_RATE,
        tracked_count(boxes) >= 1 ==> activity_rate_spec(boxes) > DEFAULT_RATE,
{
    lemma_largest_bounds(boxes);
    let a = largest_tracked_area(boxes);
    assert(area_permille(a) >= 0) by (nonlinear_arith)
        requires
            a >= 0,
    {
        assert(a * 1000 >= 0);
    }
    assert(COUNT_WEIGHT * tracked_count(boxes) >= 0);
    if tracked_count(boxes) >= 1 {
        assert(COUNT_WEIGHT * tracked_count(boxes) >= 1000) by (nonlinear_arith)
            requires
                tracked_count(boxes) >= 1,
        ;
    }
}

proof fn lemma_greedy_members(s: Seq<DetectionBox>)
    ensures
        forall|k: int| 0 <= k < greedy(s).len() ==> exists|m: int| 0 <= m < s.len() && s[m] == #[trigger] greedy(s)[k],
    decreases s.len(),
{
    if s.len() > 0 {
        let front = s.drop_last();
        lemma_greedy_members(front);
        assert forall|k: int| 0 <= k < greedy(s).len() implies exists|m: int| 0 <= m < s.len() && s[m] == #[trigger] greedy(s)[k] by {
            let acc = greedy(front);
            if k < acc.len() {
                assert(greedy(s)[k] == acc[k]);
                let m = choose|m: int| 0 <= m < front.len() && front[m] == acc[k];
                assert(s[m] == front[m]);
            } else {
                assert(s[s.len() - 1] == greedy(s)[k]);
            }
        }
    }
}

/// The boxes of a well-shaped tensor all have bounded coordinates.
proof fn lemma_detect_bounded(out: Seq<i32>, ps: nat, np: nat)
    ensures
        forall|k: int| 0 <= k < detect_spec(out, ps, np).len() ==> coords_bounded(#[trigger] detect_spec(out, ps, np)[k]),
{
    let c = candidates(out, np, ps, np as int);
    lemma_candidates_bounded(out, np, ps, np as int);
    lemma_sort_desc_members(c);
    lemma_greedy_members(sort_desc(c));
    assert forall|k: int| 0 <= k < detect_spec(out, ps, np).len() implies coords_bounded(#[trigger] detect_spec(out, ps, np)[k]) by {
        let x = detect_spec(out, ps, np)[k];
        let m = choose|m: int| 0 <= m < sort_desc(c).len() && sort_desc(c)[m] == x;
        let m2 = choose|m2: int| 0 <= m2 < c.len() && c[m2] == sort_desc(c)[m];
        assert(coords_bounded(c[m2]));
    }
}

/// One controller cycle after inference: the rate (millihertz) that a
/// quantized output tensor calls for, or `None` when its shape cannot be read
/// (the cycle is then skipped and the published rate left alone).
pub fn rate_for_output(out: &Vec<i32>, pred_size: usize, npreds: usize) -> (r: Option<u32>)
    ensures
        match r {
            Some(rate) => well_shaped(out@.len(), pred_size as nat, npreds as nat) && rate == activity_rate_spec(
                detect_spec(out@, pred_size as nat, npreds as nat),
            ),
            None => !well_shaped(out@.len(), pred_size as nat, npreds as nat),
        },
{
    match detect(out, pred_size, npreds) {
        Some(boxes) => {
            proof {
                lemma_detect_bounded(out@, pred_size as nat, npreds as nat);
            }
            Some(activity_rate(&boxes))
        },
        None => None,
    }
}

} // verus!
