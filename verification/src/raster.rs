//! An RGBA pixel raster: the image representation that the decoder reads.

use vstd::prelude::*;

verus! {

/// BT.601 luminance (0–255) of an RGB colour.
pub open spec fn spec_luma(r: u8, g: u8, b: u8) -> u8 {
    ((r as int * 299 + g as int * 587 + b as int * 114) / 1000) as u8
}

/// A `width × height` image stored as row-major RGBA bytes: the four
/// channels of pixel `(x, y)` are at `4 * (y * width + x)`.
#[derive(Debug)]
pub struct Raster {
    width: u32,
    height: u32,
    rgba: Vec<u8>,
}

impl Raster {
    #[verifier::type_invariant]
    spec fn well_formed(self) -> bool {
        self.rgba@.len() == 4 * (self.width as int) * (self.height as int)
    }

    /// Width in pixels.
    pub closed spec fn spec_width(&self) -> u32 {
        self.width
    }

    /// Height in pixels.
    pub closed spec fn spec_height(&self) -> u32 {
        self.height
    }

    /// The row-major RGBA bytes.
    pub closed spec fn rgba_bytes(&self) -> Seq<u8> {
        self.rgba@
    }

    /// Channel `c` (0 = red, 1 = green, 2 = blue, 3 = alpha) of pixel `(x, y)`.
    pub closed spec fn channel(&self, x: int, y: int, c: int) -> u8 {
        self.rgba@[4 * (y * self.width + x) + c]
    }

    /// Luminance of pixel `(x, y)`.
    pub open spec fn luma_at(&self, x: int, y: int) -> u8 {
        spec_luma(self.channel(x, y, 0), self.channel(x, y, 1), self.channel(x, y, 2))
    }

    /// The raster is `width × height` and its channels are the row-major
    /// RGBA bytes `rgba`.
    pub open spec fn holds_rgba(&self, width: u32, height: u32, rgba: Seq<u8>) -> bool {
        &&& self.spec_width() == width
        &&& self.spec_height() == height
        &&& forall|x: int, y: int, c: int|
            0 <= x < width && 0 <= y < height && 0 <= c < 4 ==> #[trigger] self.channel(x, y, c)
                == rgba[4 * (y * width + x) + c]
    }

    /// The raster is `width × height` and pixel `(x, y)` is the opaque gray
    /// `luma[y * width + x]`.
    pub open spec fn holds_luma(&self, width: u32, height: u32, luma: Seq<u8>) -> bool {
        &&& self.spec_width() == width
        &&& self.spec_height() == height
        &&& forall|x: int, y: int|
            0 <= x < width && 0 <= y < height ==> {
                &&& #[trigger] self.channel(x, y, 0) == luma[y * width + x]
                &&& self.channel(x, y, 1) == luma[y * width + x]
                &&& self.channel(x, y, 2) == luma[y * width + x]
                &&& self.channel(x, y, 3) == 255
            }
    }

    /// Wrap row-major RGBA bytes; `None` when the length is not
    /// `4 * width * height`.
    pub fn from_rgba(width: u32, height: u32, rgba: Vec<u8>) -> (r: Option<Raster>)
        ensures
            r is Some <==> rgba@.len() == 4 * (width as int) * (height as int),
            r matches Some(img) ==> img.holds_rgba(width, height, rgba@),
    {
        let area: u128 = area_of(width, height);
        proof {
            assert(4 * area == 4 * (width as int) * (height as int)) by (nonlinear_arith)
                requires
                    area == (width as int) * (height as int),
            ;
        }
        if (rgba.len() as u128) != 4 * area {
            return None;
        }
        Some(Raster { width, height, rgba })
    }

    /// Build a raster from row-major 8-bit gray levels; `None` when the
    /// length is not `width * height`.  Every pixel becomes an opaque gray
    /// `(l, l, l, 255)`.
    pub fn from_luma(width: u32, height: u32, luma: &[u8]) -> (r: Option<Raster>)
        ensures
            r is Some <==> luma@.len() == (width as int) * (height as int),
            r matches Some(img) ==> img.holds_luma(width, height, luma@),
    {
        if (luma.len() as u128) != area_of(width, height) {
            return None;
        }
        let n = luma.len();
        let mut rgba: Vec<u8> = Vec::new();
        for i in 0..n
            invariant
                n == luma@.len(),
                rgba@.len() == 4 * i,
                forall|j: int|
                    0 <= j < i ==> {
                        &&& rgba@[4 * j] == #[trigger] luma@[j]
                        &&& rgba@[4 * j + 1] == luma@[j]
                        &&& rgba@[4 * j + 2] == luma@[j]
                        &&& rgba@[4 * j + 3] == 255
                    },
        {
            proof {
                assert(4 * i + 4 <= 4 * n);
            }
            let l = luma[i];
            rgba.push(l);
            rgba.push(l);
            rgba.push(l);
            rgba.push(255);
        }
        proof {
            assert(rgba@.len() == 4 * (width as int) * (height as int)) by (nonlinear_arith)
                requires
                    rgba@.len() == 4 * n,
                    n == (width as int) * (height as int),
            ;
        }
        let img = Raster { width, height, rgba };
        proof {
            assert forall|x: int, y: int|
                0 <= x < width && 0 <= y < height implies {
                    &&& #[trigger] img.channel(x, y, 0) == luma@[y * width + x]
                    &&& img.channel(x, y, 1) == luma@[y * width + x]
                    &&& img.channel(x, y, 2) == luma@[y * width + x]
                    &&& img.channel(x, y, 3) == 255
                } by {
                let j = y * width + x;
                assert(0 <= j < n) by (nonlinear_arith)
                    requires
                        0 <= x < width,
                        0 <= y < height,
                        j == y * width + x,
                        n == width * height,
                ;
                assert(rgba@[4 * j] == luma@[j]);
            }
        }
        assert(img.holds_luma(width, height, luma@));
        Some(img)
    }

    /// Width in pixels.
    pub fn width(&self) -> (r: u32)
        ensures
            r == self.spec_width(),
    {
        self.width
    }

    /// Height in pixels.
    pub fn height(&self) -> (r: u32)
        ensures
            r == self.spec_height(),
    {
        self.height
    }

    /// The RGBA channels of pixel `(x, y)`.
    pub fn get_pixel(&self, x: u32, y: u32) -> (r: [u8; 4])
        requires
            x < self.spec_width(),
            y < self.spec_height(),
        ensures
            forall|c: int| 0 <= c < 4 ==> r@[c] == self.channel(x as int, y as int, c),
    {
        proof {
            use_type_invariant(self);
        }
        let w = self.width as usize;
        let len = self.rgba.len();
        proof {
            assert(4 * (y * w + x) + 3 < len && y * w <= y * w + x) by (nonlinear_arith)
                requires
                    x < w,
                    y < self.height,
                    w == self.width,
                    len == 4 * (self.width as int) * (self.height as int),
            ;
        }
        let base = 4 * (y as usize * w + x as usize);
        [self.rgba[base], self.rgba[base + 1], self.rgba[base + 2], self.rgba[base + 3]]
    }

    /// The raw row-major RGBA bytes.
    pub fn as_rgba(&self) -> (r: &[u8])
        ensures
            r@ == self.rgba_bytes(),
            r@.len() == 4 * (self.spec_width() as int) * (self.spec_height() as int),
            forall|x: int, y: int, c: int|
                0 <= x < self.spec_width() && 0 <= y < self.spec_height() && 0 <= c < 4
                    ==> #[trigger] self.channel(x, y, c) == r@[4 * (y * self.spec_width() + x) + c],
    {
        proof {
            use_type_invariant(self);
        }
        self.rgba.as_slice()
    }
}

/// A gray raster reads back its gray levels: the luminance of an opaque
/// gray pixel `(l, l, l)` is `l`.
pub proof fn lemma_gray_luma(img: &Raster, w: u32, h: u32, luma: Seq<u8>, x: int, y: int)
    requires
        img.holds_luma(w, h, luma),
        0 <= x < w,
        0 <= y < h,
    ensures
        img.luma_at(x, y) == luma[y * w + x],
{
    let l = luma[y * w + x];
    assert(img.channel(x, y, 0) == l);
    assert(spec_luma(l, l, l) == l) by (nonlinear_arith)
        requires
            0 <= l <= 255,
            spec_luma(l, l, l) == ((l as int * 299 + l as int * 587 + l as int * 114) / 1000) as u8,
    ;
}

/// The number of pixels of a `width × height` image.
fn area_of(width: u32, height: u32) -> (r: u128)
    ensures
        r == (width as int) * (height as int),
        r <= 0xFFFF_FFFF * 0xFFFF_FFFF,
{
    proof {
        assert((width as int) * (height as int) <= 0xFFFF_FFFF * 0xFFFF_FFFF) by (nonlinear_arith)
            requires
                width <= 0xFFFF_FFFFu32,
                height <= 0xFFFF_FFFFu32,
        ;
    }
    (width as u128) * (height as u128)
}

/// BT.601 luminance of an RGBA pixel (the alpha channel is ignored).
pub fn pixel_luma(p: [u8; 4]) -> (r: u8)
    ensures
        r == spec_luma(p@[0], p@[1], p@[2]),
{
    let r = p[0] as u32;
    let g = p[1] as u32;
    let b = p[2] as u32;
    proof {
        assert(r * 299 + g * 587 + b * 114 <= 255000) by (nonlinear_arith)
            requires
                r <= 255,
                g <= 255,
                b <= 255,
        ;
    }
    ((r * 299 + g * 587 + b * 114) / 1000) as u8
}

} // verus!
