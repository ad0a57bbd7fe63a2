use vstd::prelude::*;

verus! {

/// A detected box in original-image pixels, with its class and its score in
/// millionths.
#[derive(Clone, Copy, Debug, PartialEq, Eq, Structural)]
pub struct CandidateBox {
    pub left: u32,
    pub top: u32,
    pub width: u32,
    pub height: u32,
    pub class_id: u32,
    pub score: u32,
}

/// Thresholds of the suppression step. A pair of boxes overlaps too much when
/// its IoU exceeds `iou_num / iou_den`; boxes that score below
/// `score_threshold` are left out.
#[derive(Clone, Copy, Debug, PartialEq, Eq, Structural)]
pub struct SuppressionConfig {
    pub iou_num: u32,
    pub iou_den: u32,
    pub score_threshold: u32,
}

/// Length of the overlap of `[a0, a0 + al)` and `[b0, b0 + bl)`.
pub open spec fn overlap_len(a0: int, al: int, b0: int, bl: int) -> int {
    let lo = if a0 >= b0 { a0 } else { b0 };
    let hi = if a0 + al <= b0 + bl { a0 + al } else { b0 + bl };
    if hi > lo { hi - lo } else { 0 }
}

pub open spec fn intersection_area(a: CandidateBox, b: CandidateBox) -> int {
    overlap_len(a.left as int, a.width as int, b.left as int, b.width as int) * overlap_len(
        a.top as int,
        a.height as int,
        b.top as int,
        b.height as int,
    )
}

pub open spec fn area(a: CandidateBox) -> int {
    a.width as int * a.height as int
}

pub open spec fn union_area(a: CandidateBox, b: CandidateBox) -> int {
    area(a) + area(b) - intersection_area(a, b)
}

/// IoU of `a` and `b` is greater than the configured threshold.
pub open spec fn iou_exceeds(a: CandidateBox, b: CandidateBox, cfg: SuppressionConfig) -> bool {
    intersection_area(a, b) * cfg.iou_den > cfg.iou_num as int * union_area(a, b)
}

/// Either box of the pair discards the other once it is selected.
pub open spec fn suppresses(a: CandidateBox, b: CandidateBox, cfg: SuppressionConfig) -> bool {
    a.class_id == b.class_id && iou_exceeds(a, b, cfg)
}

fn overlap_len_exec(a0: u32, al: u32, b0: u32, bl: u32) -> (r: u64)
    ensures
        r == overlap_len(a0 as int, al as int, b0 as int, bl as int),
        r <= al,
        r <= bl,
{
    let lo: u64 = if a0 >= b0 { a0 as u64 } else { b0 as u64 };
    let a1: u64 = a0 as u64 + al as u64;
    let b1: u64 = b0 as u64 + bl as u64;
    let hi: u64 = if a1 <= b1 { a1 } else { b1 };
    if hi > lo { hi - lo } else { 0 }
}

/// Whether the IoU of the two boxes exceeds the threshold, in exact integer
/// arithmetic.
pub fn iou_exceeds_exec(a: &CandidateBox, b: &CandidateBox, cfg: &SuppressionConfig) -> (r: bool)
    ensures
        r == iou_exceeds(*a, *b, *cfg),
{
    let ox = overlap_len_exec(a.left, a.width, b.left, b.width);
    let oy = overlap_len_exec(a.top, a.height, b.top, b.height);
    assert(ox * oy <= a.width as int * a.height as int) by (nonlinear_arith)
        requires
            ox <= a.width,
            oy <= a.height,
    ;
    assert(a.width as int * a.height as int <= u32::MAX as int * u32::MAX as int) by (nonlinear_arith);
    assert(b.width as int * b.height as int <= u32::MAX as int * u32::MAX as int) by (nonlinear_arith);
    let inter: u128 = ox as u128 * oy as u128;
    let area_a: u128 = a.width as u128 * a.height as u128;
    let area_b: u128 = b.width as u128 * b.height as u128;
    let union: u128 = area_a + area_b - inter;
    assert(inter * cfg.iou_den <= u32::MAX as int * u32::MAX as int * u32::MAX as int) by (nonlinear_arith)
        requires
            inter <= u32::MAX as int * u32::MAX as int,
            cfg.iou_den <= u32::MAX,
    ;
    assert(cfg.iou_num * union <= u32::MAX as int * (2 * u32::MAX as int * u32::MAX as int)) by (nonlinear_arith)
        requires
            union <= 2 * u32::MAX as int * u32::MAX as int,
            cfg.iou_num <= u32::MAX,
    ;
    inter * cfg.iou_den as u128 > cfg.iou_num as u128 * union
}

} // verus!
