use vstd::prelude::*;
use crate::boxes::CandidateBox;
use crate::raster::{ColorImage, GrayImage, Rgba};

verus! {

/// Largest snippet that is cut out of the original image for one detection.
#[derive(Clone, Copy, Debug, PartialEq, Eq, Structural)]
pub struct SnippetLimits {
    pub max_width: u32,
    pub max_height: u32,
}

/// A label and the point where its text is drawn.
pub struct LabelPlacement {
    pub text: String,
    pub x: i64,
    pub y: i64,
}

pub open spec fn min3(a: int, b: int, c: int) -> int {
    let m = if a <= b { a } else { b };
    if m <= c { m } else { c }
}

/// Size of the snippet cut for `det` out of a `img_w` by `img_h` image: none
/// where the box starts off the image, else the box clamped to the limits and
/// to what remains of the image right of and below its corner.
pub open spec fn snippet_size(det: CandidateBox, img_w: int, img_h: int, lim: SnippetLimits) -> Option<(int, int)> {
    if det.left >= img_w || det.top >= img_h {
        None
    } else {
        Some(
            (
                min3(lim.max_width as int, det.width as int, img_w - det.left),
                min3(lim.max_height as int, det.height as int, img_h - det.top),
            ),
        )
    }
}

/// The snippet of `det` covers pixel `(x, y)`.
pub open spec fn covers(det: CandidateBox, x: int, y: int, img_w: int, img_h: int, lim: SnippetLimits) -> bool {
    match snippet_size(det, img_w, img_h, lim) {
        None => false,
        Some(sz) => det.left <= x < det.left + sz.0 && det.top <= y < det.top + sz.1,
    }
}

/// One of the first `n` detections covers pixel `(x, y)`.
pub open spec fn covered(
    dets: Seq<CandidateBox>,
    n: int,
    x: int,
    y: int,
    img_w: int,
    img_h: int,
    lim: SnippetLimits,
) -> bool {
    exists|k: int| 0 <= k < n && #[trigger] covers(dets[k], x, y, img_w, img_h, lim)
}

pub open spec fn gray_to_rgba(v: u8) -> Rgba {
    Rgba { r: v, g: v, b: v, a: 255 }
}

/// Where text of size `tw` by `th` is drawn to be centred on a `w` by `h`
/// snippet at `(x, y)`.
pub open spec fn anchor_of(x: int, y: int, w: int, h: int, tw: int, th: int) -> (int, int) {
    (x + w / 2 - tw / 2, y + h / 2 - th / 2)
}

/// The labels that compositing `dets` places: class and draw point of each
/// detection whose snippet is kept, in detection order.
pub open spec fn label_plan(
    dets: Seq<CandidateBox>,
    img_w: int,
    img_h: int,
    lim: SnippetLimits,
    sizes: Seq<(u32, u32)>,
) -> Seq<(u32, int, int)>
    decreases dets.len(),
{
    if dets.len() == 0 {
        Seq::empty()
    } else {
        let prev = label_plan(dets.drop_last(), img_w, img_h, lim, sizes);
        let d = dets.last();
        match snippet_size(d, img_w, img_h, lim) {
            None => prev,
            Some(sz) => {
                let t = sizes[d.class_id as int];
                let a = anchor_of(d.left as int, d.top as int, sz.0, sz.1, t.0 as int, t.1 as int);
                prev.push((d.class_id, a.0, a.1))
            },
        }
    }
}

/// Clamps the snippet of one detection; `None` where the box starts off the
/// image.
pub fn clamp_snippet(det: &CandidateBox, img_w: u32, img_h: u32, lim: &SnippetLimits) -> (r: Option<(u32, u32)>)
    ensures
        match r {
            None => snippet_size(*det, img_w as int, img_h as int, *lim) is None,
            Some(sz) => snippet_size(*det, img_w as int, img_h as int, *lim) == Some((sz.0 as int, sz.1 as int))
                && det.left + sz.0 <= img_w && det.top + sz.1 <= img_h,
        },
{
    if det.left >= img_w || det.top >= img_h {
        return None;
    }
    let rest_w = img_w - det.left;
    let rest_h = img_h - det.top;
    let mut w = if lim.max_width <= det.width { lim.max_width } else { det.width };
    if rest_w < w {
        w = rest_w;
    }
    let mut h = if lim.max_height <= det.height { lim.max_height } else { det.height };
    if rest_h < h {
        h = rest_h;
    }
    Some((w, h))
}

/// The draw point of a label centred on a snippet.
pub fn label_anchor(x: u32, y: u32, w: u32, h: u32, tw: u32, th: u32) -> (r: (i64, i64))
    ensures
        (r.0 as int, r.1 as int) == anchor_of(x as int, y as int, w as int, h as int, tw as int, th as int),
{
    (x as i64 + (w / 2) as i64 - (tw / 2) as i64, y as i64 + (h / 2) as i64 - (th / 2) as i64)
}

/// The edge image as an opaque grey colour image.
pub fn gray_to_color(gray: &GrayImage) -> (r: ColorImage)
    requires
        gray.wf(),
    ensures
        r.wf(),
        r.width == gray.width,
        r.height == gray.height,
        forall|x: int, y: int| r.in_bounds(x, y) ==> #[trigger] r.at(x, y) == gray_to_rgba(gray.at(x, y)),
{
    let n = gray.pixels.len();
    let mut pixels: Vec<Rgba> = Vec::new();
    let mut i: usize = 0;
    while i < n
        invariant
            n == gray.pixels@.len(),
            i <= n,
            pixels@.len() == i,
            forall|k: int| 0 <= k < i ==> #[trigger] pixels@[k] == gray_to_rgba(gray.pixels@[k]),
        decreases n - i,
    {
        let v = gray.pixels[i];
        pixels.push(Rgba { r: v, g: v, b: v, a: 255 });
        i = i + 1;
    }
    let r = ColorImage { width: gray.width, height: gray.height, pixels };
    assert forall|x: int, y: int| r.in_bounds(x, y) implies #[trigger] r.at(x, y) == gray_to_rgba(gray.at(x, y)) by {
        crate::raster::lemma_index_in_bounds(x, y, gray.width as int, gray.height as int);
    }
    r
}

/// Copies the rectangle at `(x0, y0)` of size `w` by `h` from `src` into the
/// same place of `dest`, overwriting what was there.
pub fn copy_region(dest: &mut ColorImage, src: &ColorImage, x0: u32, y0: u32, w: u32, h: u32)
    requires
        old(dest).wf(),
        src.wf(),
        src.width == old(dest).width,
        src.height == old(dest).height,
        x0 + w <= src.width,
        y0 + h <= src.height,
    ensures
        final(dest).wf(),
        final(dest).width == old(dest).width,
        final(dest).height == old(dest).height,
        forall|x: int, y: int|
            #![trigger final(dest).at(x, y)]
            old(dest).in_bounds(x, y) ==> final(dest).at(x, y) == if x0 <= x < x0 + w && y0 <= y < y0 + h {
                src.at(x, y)
            } else {
                old(dest).at(x, y)
            },
{
    let ghost start = *dest;
    let mut dy: u32 = 0;
    while dy < h
        invariant
            dy <= h,
            dest.wf(),
            src.wf(),
            dest.width == start.width,
            dest.height == start.height,
            src.width == start.width,
            src.height == start.height,
            x0 + w <= src.width,
            y0 + h <= src.height,
            forall|x: int, y: int|
                #![trigger dest.at(x, y)]
                start.in_bounds(x, y) ==> dest.at(x, y) == if x0 <= x < x0 + w && y0 <= y < y0 + dy {
                    src.at(x, y)
                } else {
                    start.at(x, y)
                },
        decreases h - dy,
    {
        let mut dx: u32 = 0;
        while dx < w
            invariant
                dx <= w,
                dy < h,
                dest.wf(),
                src.wf(),
                dest.width == start.width,
                dest.height == start.height,
                src.width == start.width,
                src.height == start.height,
                x0 + w <= src.width,
                y0 + h <= src.height,
                forall|x: int, y: int|
                    #![trigger dest.at(x, y)]
                    start.in_bounds(x, y) ==> dest.at(x, y) == if x0 <= x < x0 + w && y0 <= y < y0 + dy {
                        src.at(x, y)
                    } else if y == y0 + dy && x0 <= x < x0 + dx {
                        src.at(x, y)
                    } else {
                        start.at(x, y)
                    },
            decreases w - dx,
        {
            let p = src.get_pixel(x0 + dx, y0 + dy);
            dest.put_pixel(x0 + dx, y0 + dy, p);
            dx = dx + 1;
        }
        dy = dy + 1;
    }
}

/// A snippet never reaches past the image: its corner plus its clamped size
/// stays within the image's width and height.
pub proof fn lemma_snippet_within_image(det: CandidateBox, img_w: u32, img_h: u32, lim: SnippetLimits)
    ensures
        match snippet_size(det, img_w as int, img_h as int, lim) {
            None => true,
            Some(sz) => 0 <= sz.0 && 0 <= sz.1 && det.left + sz.0 <= img_w && det.top + sz.1 <= img_h,
        },
{
}

/// Composites one photograph: the edge image, made grey and opaque, with the
/// snippet of every detection that starts on the image copied over it from the
/// original, and a label for each such detection centred on its snippet.
pub fn apply_glitch_art_2(
    img: &ColorImage,
    edge: &GrayImage,
    dets: &Vec<CandidateBox>,
    labels: &Vec<String>,
    label_sizes: &Vec<(u32, u32)>,
    lim: &SnippetLimits,
) -> (r: (ColorImage, Vec<LabelPlacement>))
    requires
        img.wf(),
        edge.wf(),
        edge.width == img.width,
        edge.height == img.height,
        labels@.len() == label_sizes@.len(),
        forall|k: int| 0 <= k < dets@.len() ==> (#[trigger] dets@[k]).class_id < labels@.len(),
    ensures
        r.0.wf(),
        r.0.width == img.width,
        r.0.height == img.height,
        forall|x: int, y: int|
            #![trigger r.0.at(x, y)]
            r.0.in_bounds(x, y) ==> r.0.at(x, y) == if covered(
                dets@,
                dets@.len() as int,
                x,
                y,
                img.width as int,
                img.height as int,
                *lim,
            ) {
                img.at(x, y)
            } else {
                gray_to_rgba(edge.at(x, y))
            },
        r.1@.len() == label_plan(dets@, img.width as int, img.height as int, *lim, label_sizes@).len(),
        forall|k: int|
            0 <= k < r.1@.len() ==> {
                let e = #[trigger] label_plan(dets@, img.width as int, img.height as int, *lim, label_sizes@)[k];
                &&& r.1@[k].text@ == labels@[e.0 as int]@
                &&& r.1@[k].x == e.1
                &&& r.1@[k].y == e.2
            },
{
    let ghost iw = img.width as int;
    let ghost ih = img.height as int;
    let mut result = gray_to_color(edge);
    let mut placed: Vec<LabelPlacement> = Vec::new();
    let mut i: usize = 0;
    while i < dets.len()
        invariant
            i <= dets@.len(),
            img.wf(),
            iw == img.width,
            ih == img.height,
            labels@.len() == label_sizes@.len(),
            forall|k: int| 0 <= k < dets@.len() ==> (#[trigger] dets@[k]).class_id < labels@.len(),
            result.wf(),
            result.width == img.width,
            result.height == img.height,
            forall|x: int, y: int|
                #![trigger result.at(x, y)]
                result.in_bounds(x, y) ==> result.at(x, y) == if covered(dets@, i as int, x, y, iw, ih, *lim) {
                    img.at(x, y)
                } else {
                    gray_to_rgba(edge.at(x, y))
                },
            placed@.len() == label_plan(dets@.subrange(0, i as int), iw, ih, *lim, label_sizes@).len(),
            forall|k: int|
                0 <= k < placed@.len() ==> {
                    let e = #[trigger] label_plan(dets@.subrange(0, i as int), iw, ih, *lim, label_sizes@)[k];
                    &&& placed@[k].text@ == labels@[e.0 as int]@
                    &&& placed@[k].x == e.1
                    &&& placed@[k].y == e.2
                },
        decreases dets@.len() - i,
    {
        let det = dets[i];
        let ghost prev_placed = placed@;
        let ghost prev_plan = label_plan(dets@.subrange(0, i as int), iw, ih, *lim, label_sizes@);
        proof {
            let s = dets@.subrange(0, i + 1);
            assert(s.drop_last() =~= dets@.subrange(0, i as int));
            assert(s.last() == det);
        }
        let ghost before = result;
        match clamp_snippet(&det, img.width, img.height, lim) {
            None => {
                assert forall|x: int, y: int| #![trigger result.at(x, y)] result.in_bounds(x, y) implies
                    covered(dets@, i + 1, x, y, iw, ih, *lim) == covered(dets@, i as int, x, y, iw, ih, *lim) by {
                    if covered(dets@, i + 1, x, y, iw, ih, *lim) {
                        let k = choose|k: int| 0 <= k < i + 1 && #[trigger] covers(dets@[k], x, y, iw, ih, *lim);
                        assert(k != i);
                    }
                }
            },
            Some(sz) => {
                copy_region(&mut result, img, det.left, det.top, sz.0, sz.1);
                assert forall|x: int, y: int| #![trigger result.at(x, y)] result.in_bounds(x, y) implies
                    result.at(x, y) == if covered(dets@, i + 1, x, y, iw, ih, *lim) {
                        img.at(x, y)
                    } else {
                        gray_to_rgba(edge.at(x, y))
                    } by {
                    assert(before.at(x, y) == if covered(dets@, i as int, x, y, iw, ih, *lim) {
                        img.at(x, y)
                    } else {
                        gray_to_rgba(edge.at(x, y))
                    });
                    if covers(det, x, y, iw, ih, *lim) {
                        assert(covers(dets@[i as int], x, y, iw, ih, *lim));
                    } else if covered(dets@, i + 1, x, y, iw, ih, *lim) {
                        let k = choose|k: int| 0 <= k < i + 1 && #[trigger] covers(dets@[k], x, y, iw, ih, *lim);
                        assert(k != i);
                    }
                }
                let c = det.class_id as usize;
                let t = label_sizes[c];
                let a = label_anchor(det.left, det.top, sz.0, sz.1, t.0, t.1);
                placed.push(LabelPlacement { text: labels[c].clone(), x: a.0, y: a.1 });
                proof {
                    let plan = label_plan(dets@.subrange(0, i + 1), iw, ih, *lim, label_sizes@);
                    assert(plan == prev_plan.push((det.class_id, a.0 as int, a.1 as int)));
                    assert forall|k: int| 0 <= k < placed@.len() implies {
                        let e = #[trigger] plan[k];
                        &&& placed@[k].text@ == labels@[e.0 as int]@
                        &&& placed@[k].x == e.1
                        &&& placed@[k].y == e.2
                    } by {
                        if k < prev_placed.len() {
                            assert(placed@[k] == prev_placed[k]);
                            assert(plan[k] == prev_plan[k]);
                        }
                    }
                }
            },
        }
        i = i + 1;
    }
    assert(dets@.subrange(0, dets@.len() as int) =~= dets@);
    (result, placed)
}

} // verus!
