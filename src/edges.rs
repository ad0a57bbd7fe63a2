use vstd::prelude::*;
use crate::raster::GrayImage;

verus! {

/// Sobel gradient magnitudes of a grey image given by its size and its pixels,
/// row by row.
pub uninterp spec fn sobel_of(width: u32, height: u32, pixels: Seq<u8>) -> Seq<u16>;

/// Relies on `imageproc::gradients::sobel_gradients`: an image of the same
/// size whose pixels are the Sobel gradient magnitudes of the input.
#[verifier::external_body]
fn sobel_gradients(img: &GrayImage) -> (r: Vec<u16>)
    requires
        img.wf(),
    ensures
        r@ == sobel_of(img.width, img.height, img.pixels@),
        r@.len() == img.pixels@.len(),
{
    let buf = image::GrayImage::from_raw(img.width, img.height, img.pixels.clone()).unwrap();
    imageproc::gradients::sobel_gradients(&buf).into_raw()
}

/// The largest `m <= r` with `m * m <= n`.
pub open spec fn root_upto(n: int, r: nat) -> nat
    decreases r,
{
    if r == 0 {
        0
    } else if r * r <= n {
        r
    } else {
        root_upto(n, (r - 1) as nat)
    }
}

/// `root_upto(n, r)` is the integer square root of `n`, capped at `r`: its
/// square is at most `n`, and either it is the cap or the next square exceeds
/// `n`.
pub proof fn lemma_root_upto_is_capped_root(n: int, r: nat)
    requires
        n >= 0,
    ensures
        root_upto(n, r) <= r,
        root_upto(n, r) * root_upto(n, r) <= n,
        root_upto(n, r) == r || (root_upto(n, r) + 1) * (root_upto(n, r) + 1) > n,
    decreases r,
{
    if r == 0 {
        assert(0 * 0 == 0) by (nonlinear_arith);
    } else if r * r > n {
        lemma_root_upto_is_capped_root(n, (r - 1) as nat);
        let m = root_upto(n, (r - 1) as nat);
        if m == r - 1 {
            assert((m + 1) * (m + 1) == r * r);
        }
    }
}

proof fn lemma_root_upto_unique(n: int, r: nat, m: nat)
    requires
        m <= r,
        m * m <= n,
        m == r || (m + 1) * (m + 1) > n,
    ensures
        root_upto(n, r) == m,
    decreases r,
{
    if r > m {
        assert(r * r > n) by (nonlinear_arith)
            requires
                r >= m + 1,
                (m + 1) * (m + 1) > n,
        ;
        lemma_root_upto_unique(n, (r - 1) as nat, m);
    }
}

/// The edge value of gradient magnitude `g`: the magnitude of the gradient
/// pair `(g, g)`, that is the integer square root of `2 * g * g` capped at
/// 255, or 0 where that is below 40.
pub open spec fn edge_of(g: int) -> int {
    let m = root_upto(2 * g * g, 255);
    if m < 40 { 0 } else { m as int }
}

/// The edge value of one gradient magnitude.
pub fn edge_value(g: u16) -> (v: u8)
    ensures
        v == edge_of(g as int),
{
    assert(2 * (g as int) * (g as int) <= 2 * 0xffff * 0xffff) by (nonlinear_arith)
        requires
            0 <= g <= 0xffff,
    ;
    let n: u64 = 2 * g as u64 * g as u64;
    let mut m: u64 = 0;
    while m < 255 && (m + 1) * (m + 1) <= n
        invariant
            m <= 255,
            m * m <= n,
            (m + 1) * (m + 1) <= 256 * 256,
            n == 2 * (g as int) * (g as int),
        decreases 255 - m,
    {
        m = m + 1;
        assert((m + 1) * (m + 1) <= 256 * 256) by (nonlinear_arith)
            requires
                m <= 255,
        ;
    }
    proof {
        lemma_root_upto_unique(n as int, 255, m as nat);
    }
    if m < 40 {
        0
    } else {
        m as u8
    }
}

/// The edge pixels of an image from its gradient magnitudes, pixel by pixel.
pub fn edges_from_gradients(grad: &Vec<u16>) -> (r: Vec<u8>)
    ensures
        r@.len() == grad@.len(),
        forall|i: int| 0 <= i < r@.len() ==> #[trigger] r@[i] as int == edge_of(grad@[i] as int),
{
    let mut out: Vec<u8> = Vec::new();
    let mut i: usize = 0;
    while i < grad.len()
        invariant
            i <= grad@.len(),
            out@.len() == i,
            forall|k: int| 0 <= k < i ==> #[trigger] out@[k] as int == edge_of(grad@[k] as int),
        decreases grad@.len() - i,
    {
        out.push(edge_value(grad[i]));
        i = i + 1;
    }
    out
}

/// Sobel edge detection: each pixel becomes the magnitude of the gradient
/// pair `(g, g)` built from its Sobel gradient `g`, capped at 255, or 0 where
/// that is below 40.
pub fn apply_sobel_edge_detection(img: &GrayImage) -> (r: GrayImage)
    requires
        img.wf(),
    ensures
        r.wf(),
        r.width == img.width,
        r.height == img.height,
        forall|i: int|
            0 <= i < r.pixels@.len() ==> #[trigger] r.pixels@[i] as int == edge_of(
                sobel_of(img.width, img.height, img.pixels@)[i] as int,
            ),
{
    let grad = sobel_gradients(img);
    let out = edges_from_gradients(&grad);
    GrayImage { width: img.width, height: img.height, pixels: out }
}

} // verus!
