use vstd::prelude::*;
use crate::boxes::{CandidateBox, SuppressionConfig};
use crate::suppress::{is_suppression_of, lemma_suppression_unique, non_max_suppression};

verus! {

/// Fixed-point units per model input pixel in the geometry rows of a
/// `RawOutput`.
pub const GEOMETRY_UNITS: i64 = 1000;

/// Raw detector output for one image: `n_attrs` rows of `n_anchors` values,
/// row by row. Rows 0 to 3 are centre x, centre y, width and height in
/// thousandths of a model input pixel; each further row holds one class's
/// scores in millionths.
pub struct RawOutput {
    pub n_attrs: usize,
    pub n_anchors: usize,
    pub values: Vec<i64>,
}

/// Why a raw output could not be decoded.
#[derive(Clone, Copy, Debug, PartialEq, Eq, Structural)]
pub enum DetectError {
    /// The output does not hold four geometry rows and one row per class.
    ShapeMismatch,
    /// Neither the model nor the caller gives a usable input resolution.
    ModelContractViolation,
}

/// Sizes of the original image and of the model input it was resized to.
#[derive(Clone, Copy, Debug, PartialEq, Eq, Structural)]
pub struct Geometry {
    pub image_width: u32,
    pub image_height: u32,
    pub model_width: u32,
    pub model_height: u32,
}

impl Geometry {
    pub open spec fn wf(&self) -> bool {
        self.model_width > 0 && self.model_height > 0
    }
}

/// A non-negative pixel offset `n / d`, saturated to `u32`: negative values
/// become 0.
pub open spec fn to_pixel(n: int, d: int) -> int {
    if n <= 0 {
        0
    } else if n / d > u32::MAX {
        u32::MAX as int
    } else {
        n / d
    }
}

/// Low and high edge of a span given by centre and size in fixed-point model
/// units, scaled by `orig / model` to original pixels.
pub open spec fn decode_span(center: int, size: int, orig: int, model: int) -> (int, int) {
    (
        to_pixel((2 * center - size) * orig, 2 * model * GEOMETRY_UNITS),
        to_pixel((2 * center + size) * orig, 2 * model * GEOMETRY_UNITS),
    )
}

/// The inclusive extent of a span of `size` fixed-point model units: the
/// size scaled by `orig / model` to whole original pixels, less one, never
/// below 0.
pub open spec fn extent(size: int, orig: int, model: int) -> int {
    let s = to_pixel(size * orig, model * GEOMETRY_UNITS);
    if s >= 1 {
        s - 1
    } else {
        0
    }
}

/// A score clamped to `u32`.
pub open spec fn clamp_score(v: int) -> int {
    if v < 0 {
        0
    } else if v > u32::MAX {
        u32::MAX as int
    } else {
        v
    }
}

pub open spec fn raw_at(values: Seq<i64>, n_anchors: int, attr: int, anchor: int) -> int {
    values[attr * n_anchors + anchor] as int
}

/// The box that anchor `a` gives for class `c`.
pub open spec fn decode_box(values: Seq<i64>, n_anchors: int, geo: Geometry, c: int, a: int) -> CandidateBox {
    let sx = decode_span(
        raw_at(values, n_anchors, 0, a),
        raw_at(values, n_anchors, 2, a),
        geo.image_width as int,
        geo.model_width as int,
    );
    let sy = decode_span(
        raw_at(values, n_anchors, 1, a),
        raw_at(values, n_anchors, 3, a),
        geo.image_height as int,
        geo.model_height as int,
    );
    CandidateBox {
        left: sx.0 as u32,
        top: sy.0 as u32,
        width: extent(raw_at(values, n_anchors, 2, a), geo.image_width as int, geo.model_width as int) as u32,
        height: extent(raw_at(values, n_anchors, 3, a), geo.image_height as int, geo.model_height as int) as u32,
        class_id: c as u32,
        score: clamp_score(raw_at(values, n_anchors, 4 + c, a)) as u32,
    }
}

/// The candidates of classes below `c`, then of class `c` at anchors below
/// `a`: every pair whose score reaches the threshold, class by class, anchor
/// by anchor.
pub open spec fn candidates(
    values: Seq<i64>,
    n_anchors: nat,
    geo: Geometry,
    threshold: u32,
    c: nat,
    a: nat,
) -> Seq<CandidateBox>
    decreases c, a,
{
    if a == 0 {
        if c == 0 {
            Seq::empty()
        } else {
            candidates(values, n_anchors, geo, threshold, (c - 1) as nat, n_anchors)
        }
    } else {
        let prev = candidates(values, n_anchors, geo, threshold, c, (a - 1) as nat);
        let b = decode_box(values, n_anchors as int, geo, c as int, a - 1);
        if b.score >= threshold {
            prev.push(b)
        } else {
            prev
        }
    }
}

/// Decoded edges never cross: for a size that is not negative, the low edge
/// is at most the high edge once scaled to the original image.
pub proof fn lemma_span_ordered(center: int, size: int, orig: int, model: int)
    requires
        size >= 0,
        orig >= 0,
        model > 0,
    ensures
        decode_span(center, size, orig, model).0 <= decode_span(center, size, orig, model).1,
{
    let n1 = (2 * center - size) * orig;
    let n2 = (2 * center + size) * orig;
    assert(n1 <= n2) by (nonlinear_arith)
        requires
            size >= 0,
            orig >= 0,
            n1 == (2 * center - size) * orig,
            n2 == (2 * center + size) * orig,
    ;
    if n1 > 0 {
        vstd::arithmetic::div_mod::lemma_div_is_ordered(n1, n2, 2 * model * GEOMETRY_UNITS);
    }
}

proof fn lemma_candidate_source(
    values: Seq<i64>,
    n_anchors: nat,
    geo: Geometry,
    threshold: u32,
    c: nat,
    a: nat,
    k: int,
) -> (src: (int, int))
    requires
        a <= n_anchors,
        0 <= k < candidates(values, n_anchors, geo, threshold, c, a).len(),
    ensures
        0 <= src.0,
        0 <= src.1 < n_anchors,
        src.0 < c || (src.0 == c && src.1 < a),
        candidates(values, n_anchors, geo, threshold, c, a)[k] == decode_box(values, n_anchors as int, geo, src.0, src.1),
    decreases c, a,
{
    if a == 0 {
        lemma_candidate_source(values, n_anchors, geo, threshold, (c - 1) as nat, n_anchors, k)
    } else {
        let prev = candidates(values, n_anchors, geo, threshold, c, (a - 1) as nat);
        if k == prev.len() {
            (c as int, a - 1)
        } else {
            lemma_candidate_source(values, n_anchors, geo, threshold, c, (a - 1) as nat, k)
        }
    }
}

/// Every candidate, and so every box that `detect_objects` returns, is the box
/// of one class at one anchor; where that anchor's width and height are not
/// negative, its decoded left edge is at most its right edge and its top at
/// most its bottom.
pub proof fn lemma_candidate_not_inverted(
    values: Seq<i64>,
    n_anchors: nat,
    geo: Geometry,
    threshold: u32,
    n_classes: nat,
    k: int,
) -> (src: (int, int))
    requires
        geo.wf(),
        0 <= k < candidates(values, n_anchors, geo, threshold, n_classes, 0).len(),
    ensures
        0 <= src.0 < n_classes,
        0 <= src.1 < n_anchors,
        candidates(values, n_anchors, geo, threshold, n_classes, 0)[k] == decode_box(
            values,
            n_anchors as int,
            geo,
            src.0,
            src.1,
        ),
        raw_at(values, n_anchors as int, 2, src.1) >= 0 ==> decode_span(
            raw_at(values, n_anchors as int, 0, src.1),
            raw_at(values, n_anchors as int, 2, src.1),
            geo.image_width as int,
            geo.model_width as int,
        ).0 <= decode_span(
            raw_at(values, n_anchors as int, 0, src.1),
            raw_at(values, n_anchors as int, 2, src.1),
            geo.image_width as int,
            geo.model_width as int,
        ).1,
        raw_at(values, n_anchors as int, 3, src.1) >= 0 ==> decode_span(
            raw_at(values, n_anchors as int, 1, src.1),
            raw_at(values, n_anchors as int, 3, src.1),
            geo.image_height as int,
            geo.model_height as int,
        ).0 <= decode_span(
            raw_at(values, n_anchors as int, 1, src.1),
            raw_at(values, n_anchors as int, 3, src.1),
            geo.image_height as int,
            geo.model_height as int,
        ).1,
{
    let src = lemma_candidate_source(values, n_anchors, geo, threshold, n_classes, 0, k);
    let a = src.1;
    if raw_at(values, n_anchors as int, 2, a) >= 0 {
        lemma_span_ordered(
            raw_at(values, n_anchors as int, 0, a),
            raw_at(values, n_anchors as int, 2, a),
            geo.image_width as int,
            geo.model_width as int,
        );
    }
    if raw_at(values, n_anchors as int, 3, a) >= 0 {
        lemma_span_ordered(
            raw_at(values, n_anchors as int, 1, a),
            raw_at(values, n_anchors as int, 3, a),
            geo.image_height as int,
            geo.model_height as int,
        );
    }
    src
}

fn to_pixel_exec(n: i128, d: i128) -> (r: u32)
    requires
        d > 0,
    ensures
        r == to_pixel(n as int, d as int),
{
    if n <= 0 {
        0
    } else {
        let q: u128 = n as u128 / d as u128;
        if q > u32::MAX as u128 {
            u32::MAX
        } else {
            q as u32
        }
    }
}

proof fn lemma_scaled_bound(v: int, orig: int)
    requires
        -0x4_0000_0000_0000_0000 <= v <= 0x4_0000_0000_0000_0000,
        0 <= orig <= u32::MAX,
    ensures
        -0x4_0000_0000_0000_0000 * orig <= v * orig <= 0x4_0000_0000_0000_0000 * orig,
        0x4_0000_0000_0000_0000 * orig <= 0x4_0000_0000_0000_0000 * 0xffff_ffff,
{
    assert(v * orig <= 0x4_0000_0000_0000_0000 * orig) by (nonlinear_arith)
        requires
            v <= 0x4_0000_0000_0000_0000,
            0 <= orig,
    ;
    assert(-0x4_0000_0000_0000_0000 * orig <= v * orig) by (nonlinear_arith)
        requires
            -0x4_0000_0000_0000_0000 <= v,
            0 <= orig,
    ;
}

fn decode_span_exec(center: i64, size: i64, orig: u32, model: u32) -> (r: (u32, u32))
    requires
        model > 0,
    ensures
        (r.0 as int, r.1 as int) == decode_span(center as int, size as int, orig as int, model as int),
{
    let lo: i128 = 2 * center as i128 - size as i128;
    let hi: i128 = 2 * center as i128 + size as i128;
    proof {
        lemma_scaled_bound(lo as int, orig as int);
        lemma_scaled_bound(hi as int, orig as int);
    }
    let units: i128 = GEOMETRY_UNITS as i128;
    assert(units == 1000);
    let d: i128 = 2 * model as i128 * units;
    (to_pixel_exec(lo * orig as i128, d), to_pixel_exec(hi * orig as i128, d))
}

fn extent_exec(size: i64, orig: u32, model: u32) -> (r: u32)
    requires
        model > 0,
    ensures
        r == extent(size as int, orig as int, model as int),
{
    proof {
        lemma_scaled_bound(size as int, orig as int);
    }
    let units: i128 = GEOMETRY_UNITS as i128;
    assert(units == 1000);
    let s = to_pixel_exec(size as i128 * orig as i128, model as i128 * units);
    if s >= 1 {
        s - 1
    } else {
        0
    }
}

/// The model input resolution `(width, height)`: the model's own, else the
/// caller's fallback.
pub open spec fn resolution(input_size: Option<(u32, u32)>, fallback: Option<(u32, u32)>) -> Option<(u32, u32)> {
    match input_size {
        Some(d) => Some(d),
        None => fallback,
    }
}

pub open spec fn usable_resolution(res: Option<(u32, u32)>) -> bool {
    match res {
        Some(d) => d.0 > 0 && d.1 > 0,
        None => false,
    }
}

pub open spec fn shape_ok(n_attrs: int, n_anchors: int, len: int, n_classes: int) -> bool {
    n_attrs == 4 + n_classes && len == n_attrs * n_anchors
}

fn raw_value(output: &RawOutput, attr: usize, anchor: usize) -> (r: i64)
    requires
        output.values@.len() == output.n_attrs * output.n_anchors,
        attr < output.n_attrs,
        anchor < output.n_anchors,
    ensures
        r as int == raw_at(output.values@, output.n_anchors as int, attr as int, anchor as int),
{
    let _n = output.values.len();
    proof {
        crate::raster::lemma_index_in_bounds(
            anchor as int,
            attr as int,
            output.n_anchors as int,
            output.n_attrs as int,
        );
        assert(output.n_anchors * output.n_attrs == output.n_attrs * output.n_anchors) by (nonlinear_arith);
    }
    output.values[attr * output.n_anchors + anchor]
}

/// Decodes every (class, anchor) pair whose score reaches `threshold`, class
/// by class and, within a class, anchor by anchor.
pub fn decode_candidates(output: &RawOutput, n_classes: usize, geo: &Geometry, threshold: u32) -> (r: Vec<CandidateBox>)
    requires
        output.n_attrs == 4 + n_classes,
        output.values@.len() == output.n_attrs * output.n_anchors,
        geo.wf(),
    ensures
        r@ == candidates(output.values@, output.n_anchors as nat, *geo, threshold, n_classes as nat, 0),
{
    let ghost vals = output.values@;
    let ghost na = output.n_anchors as nat;
    let mut r: Vec<CandidateBox> = Vec::new();
    let mut c: usize = 0;
    while c < n_classes
        invariant
            c <= n_classes,
            output.n_attrs == 4 + n_classes,
            output.values@.len() == output.n_attrs * output.n_anchors,
            vals == output.values@,
            na == output.n_anchors,
            geo.wf(),
            r@ == candidates(vals, na, *geo, threshold, c as nat, 0),
        decreases n_classes - c,
    {
        let mut a: usize = 0;
        while a < output.n_anchors
            invariant
                c < n_classes,
                a <= output.n_anchors,
                output.n_attrs == 4 + n_classes,
                output.values@.len() == output.n_attrs * output.n_anchors,
                vals == output.values@,
                na == output.n_anchors,
                geo.wf(),
                r@ == candidates(vals, na, *geo, threshold, c as nat, a as nat),
            decreases output.n_anchors - a,
        {
            let raw_score = raw_value(output, 4 + c, a);
            let score: u32 = if raw_score < 0 {
                0
            } else if raw_score > u32::MAX as i64 {
                u32::MAX
            } else {
                raw_score as u32
            };
            if score >= threshold {
                let w = raw_value(output, 2, a);
                let h = raw_value(output, 3, a);
                let sx = decode_span_exec(raw_value(output, 0, a), w, geo.image_width, geo.model_width);
                let sy = decode_span_exec(raw_value(output, 1, a), h, geo.image_height, geo.model_height);
                let b = CandidateBox {
                    left: sx.0,
                    top: sy.0,
                    width: extent_exec(w, geo.image_width, geo.model_width),
                    height: extent_exec(h, geo.image_height, geo.model_height),
                    class_id: c as u32,
                    score,
                };
                assert(b == decode_box(vals, na as int, *geo, c as int, a as int));
                r.push(b);
            }
            a = a + 1;
        }
        c = c + 1;
    }
    r
}

/// Decodes the detector output of one image and keeps what greedy
/// non-maximum suppression selects, in the order it selects them.
///
/// Fails with `ModelContractViolation` where neither `input_size` nor
/// `fallback` gives a resolution with both sides above zero, and otherwise
/// with `ShapeMismatch` where the output does not hold `4 + n_classes` full
/// rows.
pub fn detect_objects(
    output: &RawOutput,
    n_classes: usize,
    input_size: Option<(u32, u32)>,
    fallback: Option<(u32, u32)>,
    image_width: u32,
    image_height: u32,
    cfg: &SuppressionConfig,
) -> (r: Result<Vec<CandidateBox>, DetectError>)
    ensures
        r == Err::<Vec<CandidateBox>, DetectError>(DetectError::ModelContractViolation) <==> !usable_resolution(
            resolution(input_size, fallback),
        ),
        r == Err::<Vec<CandidateBox>, DetectError>(DetectError::ShapeMismatch) <==> usable_resolution(
            resolution(input_size, fallback),
        ) && !shape_ok(output.n_attrs as int, output.n_anchors as int, output.values@.len() as int, n_classes as int),
        r is Ok ==> {
            let res = resolution(input_size, fallback)->0;
            let geo = Geometry { image_width, image_height, model_width: res.0, model_height: res.1 };
            let cands = candidates(
                output.values@,
                output.n_anchors as nat,
                geo,
                cfg.score_threshold,
                n_classes as nat,
                0,
            );
            &&& exists|sel: Seq<usize>|
                is_suppression_of(cands, *cfg, sel) && r->Ok_0@ == sel.map_values(|i: usize| cands[i as int])
            &&& forall|sel: Seq<usize>|
                is_suppression_of(cands, *cfg, sel) ==> r->Ok_0@ == sel.map_values(|i: usize| cands[i as int])
        },
{
    let res = match input_size {
        Some(d) => Some(d),
        None => fallback,
    };
    let (model_width, model_height) = match res {
        Some(d) => {
            if d.0 == 0 || d.1 == 0 {
                return Err(DetectError::ModelContractViolation);
            }
            d
        },
        None => {
            return Err(DetectError::ModelContractViolation);
        },
    };
    let rows = output.n_attrs as u128;
    let cols = output.n_anchors as u128;
    assert(rows * cols <= 0xffff_ffff_ffff_ffff * 0xffff_ffff_ffff_ffff) by (nonlinear_arith)
        requires
            rows <= 0xffff_ffff_ffff_ffff,
            cols <= 0xffff_ffff_ffff_ffff,
    ;
    if n_classes > usize::MAX - 4 || output.n_attrs != 4 + n_classes || output.values.len() as u128 != rows * cols {
        return Err(DetectError::ShapeMismatch);
    }
    let geo = Geometry { image_width, image_height, model_width, model_height };
    let cands = decode_candidates(output, n_classes, &geo, cfg.score_threshold);
    // reading the length bounds the candidate count by usize::MAX
    let _n_cands = cands.len();
    let sel = non_max_suppression(&cands, cfg);
    let mut kept: Vec<CandidateBox> = Vec::new();
    let mut k: usize = 0;
    while k < sel.len()
        invariant
            k <= sel@.len(),
            is_suppression_of(cands@, *cfg, sel@),
            kept@ == sel@.subrange(0, k as int).map_values(|i: usize| cands@[i as int]),
        decreases sel@.len() - k,
    {
        assert(crate::suppress::eligible(cands@, *cfg, sel@[k as int] as int));
        kept.push(cands[sel[k]]);
        assert(sel@.subrange(0, k + 1).map_values(|i: usize| cands@[i as int]) =~= sel@.subrange(0, k as int).map_values(
            |i: usize| cands@[i as int],
        ).push(cands@[sel@[k as int] as int]));
        k = k + 1;
    }
    assert(sel@.subrange(0, sel@.len() as int) =~= sel@);
    assert forall|other: Seq<usize>| is_suppression_of(cands@, *cfg, other) implies kept@ == other.map_values(
        |i: usize| cands@[i as int],
    ) by {
        lemma_suppression_unique(cands@, *cfg, sel@, other);
    }
    Ok(kept)
}

} // verus!
