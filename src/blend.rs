use vstd::prelude::*;
use crate::raster::{background, background_pixel, is_background, ColorImage, Rgba};

verus! {

/// Folds one sampled pixel into the running blend: a background pixel leaves
/// it as it is; any other raises each colour channel to its own value and
/// hands over its alpha.
pub open spec fn blend_step(acc: Rgba, p: Rgba) -> Rgba {
    if is_background(p) {
        acc
    } else {
        Rgba {
            r: if acc.r >= p.r { acc.r } else { p.r },
            g: if acc.g >= p.g { acc.g } else { p.g },
            b: if acc.b >= p.b { acc.b } else { p.b },
            a: p.a,
        }
    }
}

/// The pixel of `img` that covers canvas point `(x, y)` when the image is tiled.
pub open spec fn tiled_sample(img: ColorImage, x: int, y: int) -> Rgba {
    img.at(x % (img.width as int), y % (img.height as int))
}

/// The blended canvas pixel at `(x, y)` over the images in order.
pub open spec fn blend_over(imgs: Seq<ColorImage>, x: int, y: int) -> Rgba
    decreases imgs.len(),
{
    if imgs.len() == 0 {
        background()
    } else {
        blend_step(blend_over(imgs.drop_last(), x, y), tiled_sample(imgs.last(), x, y))
    }
}

pub open spec fn can_tile(img: ColorImage) -> bool {
    img.wf() && img.width > 0 && img.height > 0
}

/// Channel `c` of a pixel: 0 red, 1 green, 2 blue.
pub open spec fn channel(p: Rgba, c: int) -> u8 {
    if c == 0 {
        p.r
    } else if c == 1 {
        p.g
    } else {
        p.b
    }
}

/// Brightest wins: each colour channel of a blended pixel is at least that
/// channel of every non-background sample, and equals it for one of them; where
/// every sample is background the pixel is the background itself.
pub proof fn lemma_blend_is_channel_max(imgs: Seq<ColorImage>, x: int, y: int, c: int)
    requires
        0 <= c < 3,
    ensures
        forall|k: int|
            0 <= k < imgs.len() && !is_background(#[trigger] tiled_sample(imgs[k], x, y))
                ==> channel(tiled_sample(imgs[k], x, y), c) <= channel(blend_over(imgs, x, y), c),
        (exists|k: int|
            0 <= k < imgs.len() && !is_background(#[trigger] tiled_sample(imgs[k], x, y))
                && channel(tiled_sample(imgs[k], x, y), c) == channel(blend_over(imgs, x, y), c))
            || ((forall|k: int| 0 <= k < imgs.len() ==> is_background(#[trigger] tiled_sample(imgs[k], x, y)))
            && blend_over(imgs, x, y) == background()),
    decreases imgs.len(),
{
    if imgs.len() > 0 {
        let prev = imgs.drop_last();
        lemma_blend_is_channel_max(prev, x, y, c);
        let last = imgs.len() - 1;
        assert forall|k: int| 0 <= k < last implies #[trigger] tiled_sample(imgs[k], x, y) == tiled_sample(prev[k], x, y) by {}
        let p = tiled_sample(imgs[last], x, y);
        if !is_background(p) {
            if channel(p, c) < channel(blend_over(imgs, x, y), c) {
                let k = choose|k: int|
                    0 <= k < prev.len() && !is_background(#[trigger] tiled_sample(prev[k], x, y))
                        && channel(tiled_sample(prev[k], x, y), c) == channel(blend_over(prev, x, y), c);
                assert(tiled_sample(imgs[k], x, y) == tiled_sample(prev[k], x, y));
            } else {
                assert(tiled_sample(imgs[last], x, y) == p);
            }
        } else {
            if exists|k: int|
                0 <= k < prev.len() && !is_background(#[trigger] tiled_sample(prev[k], x, y))
                    && channel(tiled_sample(prev[k], x, y), c) == channel(blend_over(prev, x, y), c) {
                let k = choose|k: int|
                    0 <= k < prev.len() && !is_background(#[trigger] tiled_sample(prev[k], x, y))
                        && channel(tiled_sample(prev[k], x, y), c) == channel(blend_over(prev, x, y), c);
                assert(tiled_sample(imgs[k], x, y) == tiled_sample(prev[k], x, y));
            }
        }
    }
}

/// The alpha of a blended pixel is that of the last non-background sample;
/// where every sample is background the pixel is the background itself.
pub proof fn lemma_blend_alpha_is_last(imgs: Seq<ColorImage>, x: int, y: int)
    ensures
        (exists|k: int|
            0 <= k < imgs.len() && !is_background(#[trigger] tiled_sample(imgs[k], x, y))
                && blend_over(imgs, x, y).a == tiled_sample(imgs[k], x, y).a
                && forall|q: int| k < q < imgs.len() ==> is_background(#[trigger] tiled_sample(imgs[q], x, y)))
            || ((forall|k: int| 0 <= k < imgs.len() ==> is_background(#[trigger] tiled_sample(imgs[k], x, y)))
            && blend_over(imgs, x, y) == background()),
    decreases imgs.len(),
{
    if imgs.len() > 0 {
        let prev = imgs.drop_last();
        lemma_blend_alpha_is_last(prev, x, y);
        let last = imgs.len() - 1;
        assert forall|k: int| 0 <= k < last implies #[trigger] tiled_sample(imgs[k], x, y) == tiled_sample(prev[k], x, y) by {}
        let p = tiled_sample(imgs[last], x, y);
        if !is_background(p) {
            assert(tiled_sample(imgs[last], x, y) == p);
        } else if exists|k: int|
            0 <= k < prev.len() && !is_background(#[trigger] tiled_sample(prev[k], x, y))
                && blend_over(prev, x, y).a == tiled_sample(prev[k], x, y).a
                && forall|q: int| k < q < prev.len() ==> is_background(#[trigger] tiled_sample(prev[q], x, y)) {
            let k = choose|k: int|
                0 <= k < prev.len() && !is_background(#[trigger] tiled_sample(prev[k], x, y))
                    && blend_over(prev, x, y).a == tiled_sample(prev[k], x, y).a
                    && forall|q: int| k < q < prev.len() ==> is_background(#[trigger] tiled_sample(prev[q], x, y));
            assert(tiled_sample(imgs[k], x, y) == tiled_sample(prev[k], x, y));
            assert forall|q: int| k < q < imgs.len() implies is_background(#[trigger] tiled_sample(imgs[q], x, y)) by {
                if q < last {
                    assert(tiled_sample(imgs[q], x, y) == tiled_sample(prev[q], x, y));
                }
            }
        } else {
            assert forall|k: int| 0 <= k < imgs.len() implies is_background(#[trigger] tiled_sample(imgs[k], x, y)) by {
                if k < last {
                    assert(tiled_sample(imgs[k], x, y) == tiled_sample(prev[k], x, y));
                }
            }
        }
    }
}

fn blend_pixel_at(imgs: &Vec<ColorImage>, x: u32, y: u32) -> (r: Rgba)
    requires
        forall|k: int| 0 <= k < imgs@.len() ==> can_tile(#[trigger] imgs@[k]),
    ensures
        r == blend_over(imgs@, x as int, y as int),
{
    let mut acc = background_pixel();
    let mut k: usize = 0;
    while k < imgs.len()
        invariant
            k <= imgs@.len(),
            forall|j: int| 0 <= j < imgs@.len() ==> can_tile(#[trigger] imgs@[j]),
            acc == blend_over(imgs@.subrange(0, k as int), x as int, y as int),
        decreases imgs@.len() - k,
    {
        let img = &imgs[k];
        assert(can_tile(imgs@[k as int]));
        let p = img.get_pixel(x % img.width, y % img.height);
        if !(p.r == 0 && p.g == 0 && p.b == 0 && p.a == 255) {
            acc = Rgba {
                r: if acc.r >= p.r { acc.r } else { p.r },
                g: if acc.g >= p.g { acc.g } else { p.g },
                b: if acc.b >= p.b { acc.b } else { p.b },
                a: p.a,
            };
        }
        proof {
            let s = imgs@.subrange(0, k + 1);
            assert(s.drop_last() =~= imgs@.subrange(0, k as int));
            assert(s.last() == imgs@[k as int]);
        }
        k = k + 1;
    }
    assert(imgs@.subrange(0, imgs@.len() as int) =~= imgs@);
    acc
}

/// Blends the images onto a `width` by `height` canvas: each canvas pixel takes,
/// channel by channel, the brightest of the non-background pixels that tile it,
/// and the alpha of the last of them.
pub fn blend_composites(imgs: &Vec<ColorImage>, width: u32, height: u32) -> (r: ColorImage)
    requires
        forall|k: int| 0 <= k < imgs@.len() ==> can_tile(#[trigger] imgs@[k]),
        width as int * height as int <= usize::MAX,
    ensures
        r.wf(),
        r.width == width,
        r.height == height,
        forall|x: int, y: int| r.in_bounds(x, y) ==> #[trigger] r.at(x, y) == blend_over(imgs@, x, y),
{
    let mut canvas = ColorImage::filled(width, height, background_pixel());
    let mut x: u32 = 0;
    while x < width
        invariant
            x <= width,
            forall|k: int| 0 <= k < imgs@.len() ==> can_tile(#[trigger] imgs@[k]),
            canvas.wf(),
            canvas.width == width,
            canvas.height == height,
            forall|xx: int, yy: int|
                canvas.in_bounds(xx, yy) && xx < x ==> #[trigger] canvas.at(xx, yy) == blend_over(imgs@, xx, yy),
        decreases width - x,
    {
        let mut y: u32 = 0;
        while y < height
            invariant
                x < width,
                y <= height,
                forall|k: int| 0 <= k < imgs@.len() ==> can_tile(#[trigger] imgs@[k]),
                canvas.wf(),
                canvas.width == width,
                canvas.height == height,
                forall|xx: int, yy: int|
                    canvas.in_bounds(xx, yy) && (xx < x || (xx == x && yy < y)) ==> #[trigger] canvas.at(xx, yy)
                        == blend_over(imgs@, xx, yy),
            decreases height - y,
        {
            let p = blend_pixel_at(imgs, x, y);
            canvas.put_pixel(x, y, p);
            y = y + 1;
        }
        x = x + 1;
    }
    canvas
}

/// The canvas size for a batch: the smallest width and the smallest height.
/// An empty batch gives `u32::MAX` for both.
pub fn canvas_size(imgs: &Vec<ColorImage>) -> (r: (u32, u32))
    ensures
        forall|k: int| 0 <= k < imgs@.len() ==> r.0 <= (#[trigger] imgs@[k]).width && r.1 <= imgs@[k].height,
        imgs@.len() == 0 ==> r == (u32::MAX, u32::MAX),
        imgs@.len() > 0 ==> (exists|k: int| 0 <= k < imgs@.len() && (#[trigger] imgs@[k]).width == r.0),
        imgs@.len() > 0 ==> (exists|k: int| 0 <= k < imgs@.len() && (#[trigger] imgs@[k]).height == r.1),
{
    let mut min_w: u32 = u32::MAX;
    let mut min_h: u32 = u32::MAX;
    let mut k: usize = 0;
    while k < imgs.len()
        invariant
            k <= imgs@.len(),
            forall|j: int| 0 <= j < k ==> min_w <= (#[trigger] imgs@[j]).width && min_h <= imgs@[j].height,
            k == 0 ==> min_w == u32::MAX && min_h == u32::MAX,
            k > 0 ==> (exists|j: int| 0 <= j < k && (#[trigger] imgs@[j]).width == min_w),
            k > 0 ==> (exists|j: int| 0 <= j < k && (#[trigger] imgs@[j]).height == min_h),
        decreases imgs@.len() - k,
    {
        if imgs[k].width <= min_w {
            min_w = imgs[k].width;
        }
        if imgs[k].height <= min_h {
            min_h = imgs[k].height;
        }
        assert(imgs@[k as int].width >= min_w);
        k = k + 1;
    }
    (min_w, min_h)
}

} // verus!
