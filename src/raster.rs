use vstd::prelude::*;

verus! {

/// One RGBA pixel.
#[derive(Clone, Copy, Debug, PartialEq, Eq, Structural)]
pub struct Rgba {
    pub r: u8,
    pub g: u8,
    pub b: u8,
    pub a: u8,
}

/// The background sentinel: opaque black.
pub open spec fn background() -> Rgba {
    Rgba { r: 0, g: 0, b: 0, a: 255 }
}

pub open spec fn is_background(p: Rgba) -> bool {
    p == background()
}

/// The opaque background colour.
pub fn background_pixel() -> (r: Rgba)
    ensures
        r == background(),
{
    Rgba { r: 0, g: 0, b: 0, a: 255 }
}

/// Row-major index of `(x, y)` in an image `w` pixels wide.
pub open spec fn pixel_index(x: int, y: int, w: int) -> int {
    y * w + x
}

pub proof fn lemma_index_in_bounds(x: int, y: int, w: int, h: int)
    requires
        0 <= x < w,
        0 <= y < h,
    ensures
        0 <= pixel_index(x, y, w) < w * h,
        y * w <= pixel_index(x, y, w),
{
    assert(0 <= y * w) by (nonlinear_arith)
        requires
            0 <= y,
            0 <= x < w,
    ;
    assert(y * w + x < w * h) by (nonlinear_arith)
        requires
            0 <= x < w,
            0 <= y < h,
    ;
}

pub proof fn lemma_index_injective(x1: int, y1: int, x2: int, y2: int, w: int)
    requires
        0 <= x1 < w,
        0 <= x2 < w,
        0 <= y1,
        0 <= y2,
        pixel_index(x1, y1, w) == pixel_index(x2, y2, w),
    ensures
        x1 == x2,
        y1 == y2,
{
    if y1 < y2 {
        assert(y1 * w + w <= y2 * w) by (nonlinear_arith)
            requires
                y1 < y2,
                0 < w,
        ;
    } else if y2 < y1 {
        assert(y2 * w + w <= y1 * w) by (nonlinear_arith)
            requires
                y2 < y1,
                0 < w,
        ;
    }
}

/// A colour image, stored row by row.
pub struct ColorImage {
    pub width: u32,
    pub height: u32,
    pub pixels: Vec<Rgba>,
}

/// A single-channel image, stored row by row.
pub struct GrayImage {
    pub width: u32,
    pub height: u32,
    pub pixels: Vec<u8>,
}

impl GrayImage {
    pub open spec fn wf(&self) -> bool {
        self.pixels@.len() == self.width as int * self.height as int
    }

    pub open spec fn at(&self, x: int, y: int) -> u8 {
        self.pixels@[pixel_index(x, y, self.width as int)]
    }

    pub fn get_pixel(&self, x: u32, y: u32) -> (r: u8)
        requires
            self.wf(),
            x < self.width,
            y < self.height,
        ensures
            r == self.at(x as int, y as int),
    {
        let _n = self.pixels.len();
        proof {
            lemma_index_in_bounds(x as int, y as int, self.width as int, self.height as int);
        }
        self.pixels[y as usize * self.width as usize + x as usize]
    }
}

impl ColorImage {
    pub open spec fn wf(&self) -> bool {
        self.pixels@.len() == self.width as int * self.height as int
    }

    pub open spec fn at(&self, x: int, y: int) -> Rgba {
        self.pixels@[pixel_index(x, y, self.width as int)]
    }

    pub open spec fn in_bounds(&self, x: int, y: int) -> bool {
        0 <= x < self.width && 0 <= y < self.height
    }

    /// An image of the given size with every pixel set to `fill`.
    pub fn filled(width: u32, height: u32, fill: Rgba) -> (r: ColorImage)
        requires
            width as int * height as int <= usize::MAX,
        ensures
            r.wf(),
            r.width == width,
            r.height == height,
            forall|x: int, y: int| r.in_bounds(x, y) ==> #[trigger] r.at(x, y) == fill,
    {
        let n: usize = width as usize * height as usize;
        let mut pixels: Vec<Rgba> = Vec::new();
        let mut i: usize = 0;
        while i < n
            invariant
                i <= n,
                pixels@.len() == i,
                forall|k: int| 0 <= k < i ==> pixels@[k] == fill,
            decreases n - i,
        {
            pixels.push(fill);
            i = i + 1;
        }
        let r = ColorImage { width, height, pixels };
        assert forall|x: int, y: int| r.in_bounds(x, y) implies #[trigger] r.at(x, y) == fill by {
            lemma_index_in_bounds(x, y, width as int, height as int);
        }
        r
    }

    pub fn get_pixel(&self, x: u32, y: u32) -> (r: Rgba)
        requires
            self.wf(),
            x < self.width,
            y < self.height,
        ensures
            r == self.at(x as int, y as int),
    {
        let _n = self.pixels.len();
        proof {
            lemma_index_in_bounds(x as int, y as int, self.width as int, self.height as int);
        }
        self.pixels[y as usize * self.width as usize + x as usize]
    }

    pub fn put_pixel(&mut self, x: u32, y: u32, p: Rgba)
        requires
            old(self).wf(),
            x < old(self).width,
            y < old(self).height,
        ensures
            final(self).wf(),
            final(self).width == old(self).width,
            final(self).height == old(self).height,
            forall|xx: int, yy: int|
                #![trigger final(self).at(xx, yy)]
                old(self).in_bounds(xx, yy) ==> final(self).at(xx, yy) == if xx == x && yy == y {
                    p
                } else {
                    old(self).at(xx, yy)
                },
    {
        let _n = self.pixels.len();
        proof {
            lemma_index_in_bounds(x as int, y as int, self.width as int, self.height as int);
        }
        let i = y as usize * self.width as usize + x as usize;
        self.pixels.set(i, p);
        proof {
            let w = self.width as int;
            let h = self.height as int;
            assert forall|xx: int, yy: int|
                #![trigger self.at(xx, yy)]
                old(self).in_bounds(xx, yy) implies self.at(xx, yy) == if xx == x && yy == y {
                    p
                } else {
                    old(self).at(xx, yy)
                } by {
                lemma_index_in_bounds(xx, yy, w, h);
                if pixel_index(xx, yy, w) == i {
                    lemma_index_injective(xx, yy, x as int, y as int, w);
                }
            }
        }
    }
}

} // verus!
