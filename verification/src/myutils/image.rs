use vstd::prelude::*;
use crate::error::RecError;
use crate::config::ImageProcessingConfig;
use crate::models::{Coordinate, ProcessedImage};

verus! {

/// A single-channel 8-bit image stored row by row.
pub struct GrayImage {
    width: u32,
    height: u32,
    data: Vec<u8>,
}

/// A three-channel (red, green, blue) 8-bit image stored row by row.
pub struct RgbImage {
    pub(crate) width: u32,
    pub(crate) height: u32,
    pub(crate) data: Vec<u8>,
}

impl GrayImage {
    #[verifier::type_invariant]
    spec fn inv(self) -> bool {
        self.data@.len() == self.width as int * self.height as int
    }

    pub closed spec fn spec_width(self) -> nat {
        self.width as nat
    }

    pub closed spec fn spec_height(self) -> nat {
        self.height as nat
    }

    /// The pixels, row after row.
    pub closed spec fn pixels(self) -> Seq<u8> {
        self.data@
    }

    /// The buffer holds exactly one byte per pixel.
    pub open spec fn valid(self) -> bool {
        self.pixels().len() == self.spec_width() * self.spec_height()
    }

    /// The pixel in column `x` of row `y`.
    pub open spec fn pixel(self, x: int, y: int) -> u8 {
        self.pixels()[y * self.spec_width() + x]
    }

    /// Wraps a row-major buffer; `None` when its length is not `width * height`.
    pub fn from_raw(width: u32, height: u32, data: Vec<u8>) -> (r: Option<GrayImage>)
        ensures
            r is Some <==> data@.len() == width as int * height as int,
            r matches Some(img) ==> img.spec_width() == width && img.spec_height() == height
                && img.pixels() == data@,
    {
        proof {
            assert(width as u64 * height as u64 <= u64::MAX) by (nonlinear_arith)
                requires
                    width <= u32::MAX,
                    height <= u32::MAX,
            ;
        }
        if data.len() as u64 == width as u64 * height as u64 {
            Some(GrayImage { width, height, data })
        } else {
            None
        }
    }

    pub fn width(&self) -> (r: u32)
        ensures
            r == self.spec_width(),
            self.valid(),
    {
        proof {
            use_type_invariant(self);
        }
        self.width
    }

    pub fn height(&self) -> (r: u32)
        ensures
            r == self.spec_height(),
            self.valid(),
    {
        proof {
            use_type_invariant(self);
        }
        self.height
    }

    /// The pixel in column `x` of row `y`.
    pub fn get_pixel(&self, x: u32, y: u32) -> (r: u8)
        requires
            x < self.spec_width(),
            y < self.spec_height(),
        ensures
            r == self.pixel(x as int, y as int),
    {
        proof {
            use_type_invariant(self);
            lemma_index_in_grid(x as int, y as int, self.width as int, self.height as int);
        }
        let len = self.data.len();
        assert(y * self.width + x < len);
        self.data[y as usize * self.width as usize + x as usize]
    }

    pub fn as_raw(&self) -> (r: &Vec<u8>)
        ensures
            r@ == self.pixels(),
    {
        &self.data
    }

    pub fn into_raw(self) -> (r: Vec<u8>)
        ensures
            r@ == self.pixels(),
    {
        self.data
    }
}

/// `v`, but no more than `bound`.
pub open spec fn clip(v: int, bound: int) -> int {
    if v < bound {
        v
    } else {
        bound
    }
}

/// Position of column `b` of row `a` in a row-major buffer `w` wide.
spec fn flat(w: int, a: int, b: int) -> int {
    a * w + b
}

/// Position of channel `k` of column `b` of row `a` in a row-major buffer of
/// three-channel pixels `w` wide.
spec fn at3(w: int, a: int, b: int, k: int) -> int {
    flat(w, a, b) * 3 + k
}

proof fn lemma_flat_bound(w: int, a: int, b: int, rows: int)
    requires
        0 <= a < rows,
        0 <= b < w,
    ensures
        0 <= flat(w, a, b) < rows * w,
        flat(w, a, b) + 1 <= rows * w,
{
    assert(0 <= a * w + b < rows * w) by (nonlinear_arith)
        requires
            0 <= a < rows,
            0 <= b < w,
    ;
}

/// `r` is the part of `img` that starts at column `x`, row `y` and is at most
/// `w` wide and `h` high: the start clamped into the image, the size clamped
/// to what remains of it right of and below the start.
pub open spec fn is_crop(r: GrayImage, img: GrayImage, x: int, y: int, w: int, h: int) -> bool {
    let cx = clip(x, img.spec_width() as int);
    let cy = clip(y, img.spec_height() as int);
    &&& r.spec_width() == clip(w, img.spec_width() - cx)
    &&& r.spec_height() == clip(h, img.spec_height() - cy)
    &&& forall|i: int, j: int|
        0 <= i < r.spec_width() && 0 <= j < r.spec_height() ==> #[trigger] r.pixel(i, j) == img.pixel(
            cx + i,
            cy + j,
        )
}

impl GrayImage {
    /// The part of the image that starts at column `x`, row `y` and is at most
    /// `w` wide and `h` high. The start is clamped into the image and the size
    /// to what remains of it right of and below the start.
    pub fn crop(&self, x: u32, y: u32, w: u32, h: u32) -> (r: GrayImage)
        ensures
            is_crop(r, *self, x as int, y as int, w as int, h as int),
    {
        proof {
            use_type_invariant(self);
        }
        let iw = self.width;
        let ih = self.height;
        let cx = if x < iw {
            x
        } else {
            iw
        };
        let cy = if y < ih {
            y
        } else {
            ih
        };
        let cw = if w < iw - cx {
            w
        } else {
            iw - cx
        };
        let ch = if h < ih - cy {
            h
        } else {
            ih - cy
        };
        let mut out: Vec<u8> = Vec::new();
        let mut row: u32 = 0;
        while row < ch
            invariant
                iw == self.spec_width(),
                ih == self.spec_height(),
                cx + cw <= iw,
                cy + ch <= ih,
                row <= ch,
                out@.len() == row * cw,
                forall|a: int, b: int|
                    0 <= a < row && 0 <= b < cw ==> out@[#[trigger] flat(cw as int, a, b)]
                        == self.pixel(cx + b, cy + a),
            decreases ch - row,
        {
            let mut col: u32 = 0;
            while col < cw
                invariant
                    iw == self.spec_width(),
                    ih == self.spec_height(),
                    cx + cw <= iw,
                    cy + ch <= ih,
                    row < ch,
                    col <= cw,
                    out@.len() == row * cw + col,
                    forall|a: int, b: int|
                        0 <= a < row && 0 <= b < cw ==> out@[#[trigger] flat(cw as int, a, b)]
                            == self.pixel(cx + b, cy + a),
                    forall|b: int|
                        0 <= b < col ==> out@[#[trigger] flat(cw as int, row as int, b)]
                            == self.pixel(cx + b, cy + row),
                decreases cw - col,
            {
                let p = self.get_pixel(cx + col, cy + row);
                let ghost before = out@;
                out.push(p);
                proof {
                    assert forall|a: int, b: int|
                        0 <= a < row && 0 <= b < cw implies out@[#[trigger] flat(cw as int, a, b)]
                        == self.pixel(cx + b, cy + a) by {
                        lemma_flat_bound(cw as int, a, b, row as int);
                        assert(out@[flat(cw as int, a, b)] == before[flat(cw as int, a, b)]);
                    }
                    assert forall|b: int|
                        0 <= b < col + 1 implies out@[#[trigger] flat(cw as int, row as int, b)]
                        == self.pixel(cx + b, cy + row) by {
                        if b < col {
                            assert(out@[flat(cw as int, row as int, b)] == before[flat(
                                cw as int,
                                row as int,
                                b,
                            )]);
                        }
                    }
                }
                col = col + 1;
            }
            proof {
                assert((row + 1) * cw == row * cw + cw) by (nonlinear_arith);
                assert forall|a: int, b: int|
                    0 <= a < row + 1 && 0 <= b < cw implies out@[#[trigger] flat(cw as int, a, b)]
                    == self.pixel(cx + b, cy + a) by {
                    if a == row {
                        assert(out@[flat(cw as int, row as int, b)] == self.pixel(cx + b, cy + row));
                    }
                }
            }
            row = row + 1;
        }
        proof {
            assert(ch * cw == cw * ch) by (nonlinear_arith);
        }
        let r = GrayImage { width: cw, height: ch, data: out };
        proof {
            assert forall|i: int, j: int|
                0 <= i < r.spec_width() && 0 <= j < r.spec_height() implies #[trigger] r.pixel(i, j)
                == self.pixel(cx + i, cy + j) by {
                assert(r.pixel(i, j) == out@[flat(cw as int, j, i)]);
            }
        }
        r
    }
}

/// The borders of the foreground regions (non-zero pixels) of an image of the
/// given size and row-major pixels, each as its list of points.
pub uninterp spec fn contours_of(width: u32, height: u32, pixels: Seq<u8>) -> Seq<Seq<(u32, u32)>>;

/// Calls `imageproc::contours::find_contours` and lists each contour's points.
/// Trusted: the result is the named value `contours_of` of the image; as the
/// function's source shows, every contour has at least one point and every
/// point lies inside the image. Images more than `i32::MAX` pixels wide or high
/// are left out, since the function steps through them with `i32` positions.
#[verifier::external_body]
pub(crate) fn find_contour_points(image: &GrayImage) -> (r: Vec<Vec<(u32, u32)>>)
    requires
        image.spec_width() <= i32::MAX,
        image.spec_height() <= i32::MAX,
    ensures
        r@.len() == contours_of(
            image.spec_width() as u32,
            image.spec_height() as u32,
            image.pixels(),
        ).len(),
        forall|i: int|
            0 <= i < r@.len() ==> #[trigger] r@[i]@ == contours_of(
                image.spec_width() as u32,
                image.spec_height() as u32,
                image.pixels(),
            )[i],
        forall|i: int| 0 <= i < r@.len() ==> #[trigger] r@[i]@.len() > 0,
        forall|i: int, j: int|
            0 <= i < r@.len() && 0 <= j < r@[i]@.len() ==> #[trigger] r@[i]@[j].0
                < image.spec_width() && r@[i]@[j].1 < image.spec_height(),
{
    let buf = ::image::GrayImage::from_raw(image.width, image.height, image.data.clone()).unwrap();
    imageproc::contours::find_contours::<u32>(&buf)
        .into_iter()
        .map(|c| c.points.into_iter().map(|p| (p.x, p.y)).collect())
        .collect()
}

/// The borders of the foreground regions (non-zero pixels) of the image, each
/// as its list of points: the image's contours, every one with at least one
/// point, each point inside the image.
pub fn foreground_contours(image: &GrayImage) -> (r: Vec<Vec<(u32, u32)>>)
    requires
        image.spec_width() <= i32::MAX,
        image.spec_height() <= i32::MAX,
    ensures
        r@.len() == contours_of(image.spec_width() as u32, image.spec_height() as u32, image.pixels()).len(),
        forall|i: int|
            0 <= i < r@.len() ==> #[trigger] r@[i]@ == contours_of(
                image.spec_width() as u32,
                image.spec_height() as u32,
                image.pixels(),
            )[i],
        forall|i: int| 0 <= i < r@.len() ==> #[trigger] r@[i]@.len() > 0,
        forall|i: int, j: int|
            0 <= i < r@.len() && 0 <= j < r@[i]@.len() ==> #[trigger] r@[i]@[j].0 < image.spec_width()
                && r@[i]@[j].1 < image.spec_height(),
{
    find_contour_points(image)
}

/// The value of pixel `x, y` of a row-major buffer `width` wide, as a function
/// of column and row.
pub open spec fn grid_fn(width: int, pixels: Seq<u8>) -> spec_fn(int, int) -> int {
    |c: int, r: int| pixels[r * width + c] as int
}

/// The lesser of two integers.
pub open spec fn min_int(a: int, b: int) -> int {
    if a < b {
        a
    } else {
        b
    }
}

/// The greater of two integers.
pub open spec fn max_int(a: int, b: int) -> int {
    if a < b {
        b
    } else {
        a
    }
}

/// Pixel `x, y` after adaptive thresholding: white (255) when it is at least
/// the mean of the block of radius `radius` around it (cut to the image, the
/// mean rounded down) minus `delta`, black (0) otherwise.
pub open spec fn adaptive_pixel(
    width: int,
    height: int,
    pixels: Seq<u8>,
    radius: int,
    delta: int,
    x: int,
    y: int,
) -> u8 {
    let x_lo = max_int(0, x - radius);
    let x_hi = min_int(width - 1, x + radius);
    let y_lo = max_int(0, y - radius);
    let y_hi = min_int(height - 1, y + radius);
    let count = (x_hi - x_lo + 1) * (y_hi - y_lo + 1);
    let mean = box_sum(grid_fn(width, pixels), x_lo, y_lo, x_hi + 1, y_hi + 1) / count;
    if pixels[y * width + x] as int >= mean - delta {
        255
    } else {
        0
    }
}

/// The pixels of an image of the given size after adaptive thresholding with
/// square blocks of radius `block_radius` and offset `delta`.
pub open spec fn adaptive_threshold_of(
    width: u32,
    height: u32,
    pixels: Seq<u8>,
    block_radius: u32,
    delta: i32,
) -> Seq<u8> {
    Seq::new(
        (width * height) as nat,
        |i: int| adaptive_pixel(width as int, height as int, pixels, block_radius as int, delta as int, i % (width as int), i / (width as int)),
    )
}

/// Some pixel within chessboard distance `k` of `x, y` is non-zero (when
/// `fg`) or zero (when not).
pub open spec fn near_pixel(width: int, height: int, pixels: Seq<u8>, x: int, y: int, k: int, fg: bool) -> bool {
    exists|qx: int, qy: int|
        0 <= qx < width && 0 <= qy < height && x - k <= qx <= x + k && y - k <= qy <= y + k && (
        #[trigger] pixels[qy * width + qx] != 0) == fg
}

/// Some pixel of the image is non-zero (when `fg`) or zero (when not).
pub open spec fn any_pixel(width: int, height: int, pixels: Seq<u8>, fg: bool) -> bool {
    exists|qx: int, qy: int| 0 <= qx < width && 0 <= qy < height && (#[trigger] pixels[qy * width + qx] != 0) == fg
}

/// Whether pixel `x, y` has its distance to the nearest non-zero (`fg`) or
/// zero pixel, counted in 8-bit steps, at most `k`: there is such a pixel
/// within chessboard distance `k`; or `k` is 255, where every distance
/// saturates; or there is none at all and the distance given to every pixel,
/// `width + height`, is at most `k`.
pub open spec fn within_linf(width: int, height: int, pixels: Seq<u8>, x: int, y: int, k: int, fg: bool) -> bool {
    near_pixel(width, height, pixels, x, y, k, fg) || k == 255 || (!any_pixel(width, height, pixels, fg) && width
        + height <= k)
}

/// The pixels of an image of the given size after dilation by `k` in the
/// chessboard (L-infinity) distance: white where a non-zero pixel is near
/// (see `within_linf`), black elsewhere.
pub open spec fn dilated_linf(width: u32, height: u32, pixels: Seq<u8>, k: u8) -> Seq<u8> {
    Seq::new(
        (width * height) as nat,
        |i: int|
            if within_linf(width as int, height as int, pixels, i % (width as int), i / (width as int), k as int, true) {
                255u8
            } else {
                0u8
            },
    )
}

/// The pixels of an image of the given size after erosion by `k` in the
/// chessboard (L-infinity) distance: black where a zero pixel is near (see
/// `within_linf`), white elsewhere.
pub open spec fn eroded_linf(width: u32, height: u32, pixels: Seq<u8>, k: u8) -> Seq<u8> {
    Seq::new(
        (width * height) as nat,
        |i: int|
            if within_linf(width as int, height as int, pixels, i % (width as int), i / (width as int), k as int, false) {
                0u8
            } else {
                255u8
            },
    )
}

/// The sum of the pixel values.
pub open spec fn pixel_total(pixels: Seq<u8>) -> int
    decreases pixels.len(),
{
    if pixels.len() == 0 {
        0
    } else {
        pixel_total(pixels.drop_last()) + pixels.last()
    }
}

proof fn lemma_total_step(s: Seq<u8>, i: int)
    requires
        0 <= i < s.len(),
    ensures
        pixel_total(s.take(i + 1)) == pixel_total(s.take(i)) + s[i],
{
    assert(s.take(i + 1).drop_last() =~= s.take(i));
}

proof fn lemma_total_prefix(s: Seq<u8>, k: int)
    requires
        0 <= k <= s.len(),
    ensures
        0 <= pixel_total(s.take(k)) <= pixel_total(s),
    decreases s.len() - k,
{
    if k == s.len() {
        assert(s.take(k) =~= s);
        lemma_total_nonneg(s);
    } else {
        lemma_total_prefix(s, k + 1);
        lemma_total_step(s, k);
        lemma_total_nonneg(s.take(k));
    }
}

proof fn lemma_total_nonneg(s: Seq<u8>)
    ensures
        pixel_total(s) >= 0,
    decreases s.len(),
{
    if s.len() > 0 {
        lemma_total_nonneg(s.drop_last());
    }
}

/// Whether twice the sum of the image's pixel values fits in `u32`: how
/// large a `u32` summed-area table of the image may grow.
pub fn pixel_sums_fit(image: &GrayImage) -> (r: bool)
    ensures
        r == (2 * pixel_total(image.pixels()) <= u32::MAX),
{
    let data = image.as_raw();
    let ghost s = data@;
    let mut total: u64 = 0;
    let mut i: usize = 0;
    while i < data.len()
        invariant
            s == data@,
            s == image.pixels(),
            0 <= i <= s.len(),
            total == pixel_total(s.take(i as int)),
            total <= 0x7fff_ffff,
        decreases s.len() - i,
    {
        proof {
            lemma_total_step(s, i as int);
        }
        total = total + data[i] as u64;
        if total > 0x7fff_ffff {
            proof {
                lemma_total_prefix(s, i + 1);
                assert(total == pixel_total(s.take(i + 1)));
                assert(s == image.pixels());
            }
            return false;
        }
        i = i + 1;
    }
    assert(s.take(s.len() as int) =~= s);
    true
}

/// The Otsu threshold level of an image of the given size.
pub uninterp spec fn otsu_level_of(width: u32, height: u32, pixels: Seq<u8>) -> u8;

/// An image of the same size as `img`.
pub open spec fn same_size(r: GrayImage, img: GrayImage) -> bool {
    r.spec_width() == img.spec_width() && r.spec_height() == img.spec_height()
}

/// Calls `imageproc::contrast::adaptive_threshold`. Trusted: the result has
/// the image's size and the pixels `adaptive_threshold_of`: each compared with
/// the rounded-down mean of its block, cut to the image. Left out, as the
/// function's source panics on them (or, past `i32::MAX` columns or rows, no
/// longer cuts the blocks at the top and left edges): a zero radius; images
/// whose `u32` summed-area table overflows, or whose block sums do, which
/// first add two entries of it, each at most the image's total (so twice the
/// total must fit); blocks whose pixel count overflows `u32`; and offsets for
/// which the mean less the offset overflows `i32`.
#[verifier::external_body]
fn adaptive_threshold(image: &GrayImage, block_radius: u32, delta: i32) -> (r: GrayImage)
    requires
        0 < block_radius <= i32::MAX,
        image.spec_width() <= i32::MAX,
        image.spec_height() <= i32::MAX,
        2 * pixel_total(image.pixels()) <= u32::MAX,
        min_int(2 * block_radius + 1, image.spec_width() as int) * min_int(
            2 * block_radius + 1,
            image.spec_height() as int,
        ) <= u32::MAX,
        255 - i32::MAX <= delta,
    ensures
        same_size(r, *image),
        r.pixels() == adaptive_threshold_of(
            image.spec_width() as u32,
            image.spec_height() as u32,
            image.pixels(),
            block_radius,
            delta,
        ),
{
    let buf = ::image::GrayImage::from_raw(image.width, image.height, image.data.clone()).unwrap();
    let out = imageproc::contrast::adaptive_threshold(&buf, block_radius, delta);
    GrayImage { width: out.width(), height: out.height(), data: out.into_raw() }
}

/// Calls `imageproc::morphology::dilate` with the L-infinity norm. Trusted:
/// the result has the image's size and the pixels `dilated_linf`, as the
/// function's source gives them: the chessboard distance to the nearest
/// non-zero pixel, saturated at 255 (and `width + height` where there is
/// none), compared with `k`. Left out: sizes whose sum overflows `u32`, on which the function's source
/// panics.
#[verifier::external_body]
fn dilate_linf(image: &GrayImage, k: u8) -> (r: GrayImage)
    requires
        image.spec_width() + image.spec_height() <= u32::MAX,
    ensures
        same_size(r, *image),
        r.pixels() == dilated_linf(image.spec_width() as u32, image.spec_height() as u32, image.pixels(), k),
{
    let buf = ::image::GrayImage::from_raw(image.width, image.height, image.data.clone()).unwrap();
    let out = imageproc::morphology::dilate(&buf, imageproc::distance_transform::Norm::LInf, k);
    GrayImage { width: out.width(), height: out.height(), data: out.into_raw() }
}

/// Calls `imageproc::morphology::erode` with the L-infinity norm. Trusted:
/// the result has the image's size and the pixels `eroded_linf`, as the
/// function's source gives them: the chessboard distance to the nearest zero
/// pixel, saturated at 255 (and `width + height` where there is none),
/// compared with `k`. Left out: sizes whose sum overflows `u32`, on which the function's source
/// panics.
#[verifier::external_body]
fn erode_linf(image: &GrayImage, k: u8) -> (r: GrayImage)
    requires
        image.spec_width() + image.spec_height() <= u32::MAX,
    ensures
        same_size(r, *image),
        r.pixels() == eroded_linf(image.spec_width() as u32, image.spec_height() as u32, image.pixels(), k),
{
    let buf = ::image::GrayImage::from_raw(image.width, image.height, image.data.clone()).unwrap();
    let out = imageproc::morphology::erode(&buf, imageproc::distance_transform::Norm::LInf, k);
    GrayImage { width: out.width(), height: out.height(), data: out.into_raw() }
}

/// Calls `imageproc::contrast::otsu_level`. Trusted: the result is the named
/// level `otsu_level_of` of the image. Left out: images whose histogram
/// weights overflow `u32`, on which the function's source panics.
#[verifier::external_body]
fn otsu_level(image: &GrayImage) -> (r: u8)
    requires
        image.spec_width() * image.spec_height() * 255 <= u32::MAX,
    ensures
        r == otsu_level_of(image.spec_width() as u32, image.spec_height() as u32, image.pixels()),
{
    let buf = ::image::GrayImage::from_raw(image.width, image.height, image.data.clone()).unwrap();
    imageproc::contrast::otsu_level(&buf)
}

/// Each pixel value `v` turned into `255 - v`.
pub open spec fn inverted(pixels: Seq<u8>) -> Seq<u8> {
    pixels.map_values(|v: u8| (255 - v) as u8)
}

/// Each pixel 0 where it is brighter than `level`, 255 elsewhere.
pub open spec fn thresholded_inverted(pixels: Seq<u8>, level: u8) -> Seq<u8> {
    pixels.map_values(|v: u8| if v > level { 0u8 } else { 255u8 })
}

impl GrayImage {
    /// The image with each pixel value `v` turned into `255 - v`.
    pub fn inverted(&self) -> (r: GrayImage)
        ensures
            same_size(r, *self),
            r.pixels() == inverted(self.pixels()),
    {
        proof {
            use_type_invariant(self);
        }
        let mut out: Vec<u8> = Vec::new();
        let mut i: usize = 0;
        while i < self.data.len()
            invariant
                0 <= i <= self.data@.len(),
                out@ == inverted(self.data@).take(i as int),
            decreases self.data@.len() - i,
        {
            out.push(255 - self.data[i]);
            i = i + 1;
            assert(out@ =~= inverted(self.data@).take(i as int));
        }
        assert(inverted(self.data@).take(self.data@.len() as int) =~= inverted(self.data@));
        GrayImage { width: self.width, height: self.height, data: out }
    }

    /// The image with each pixel 0 where it is brighter than `level` and 255
    /// elsewhere.
    pub fn threshold_inverted(&self, level: u8) -> (r: GrayImage)
        ensures
            same_size(r, *self),
            r.pixels() == thresholded_inverted(self.pixels(), level),
    {
        proof {
            use_type_invariant(self);
        }
        let mut out: Vec<u8> = Vec::new();
        let mut i: usize = 0;
        while i < self.data.len()
            invariant
                0 <= i <= self.data@.len(),
                out@ == thresholded_inverted(self.data@, level).take(i as int),
            decreases self.data@.len() - i,
        {
            out.push(if self.data[i] > level { 0 } else { 255 });
            i = i + 1;
            assert(out@ =~= thresholded_inverted(self.data@, level).take(i as int));
        }
        assert(thresholded_inverted(self.data@, level).take(self.data@.len() as int) =~= thresholded_inverted(
            self.data@,
            level,
        ));
        GrayImage { width: self.width, height: self.height, data: out }
    }
}

/// Otsu thresholding, inverted: pixels at or below the image's Otsu level
/// become white, the others black.
pub fn threshold_otsu(image: &GrayImage) -> (r: GrayImage)
    requires
        image.spec_width() * image.spec_height() * 255 <= u32::MAX,
    ensures
        same_size(r, *image),
        r.pixels() == thresholded_inverted(
            image.pixels(),
            otsu_level_of(image.spec_width() as u32, image.spec_height() as u32, image.pixels()),
        ),
{
    let level = otsu_level(image);
    image.threshold_inverted(level)
}

/// Adaptive thresholding over blocks of `BLOCK_SIZE` pixels (radius 25)
/// with offset `C` (5), inverted:
/// dark lines become white on black.
pub fn threshold_adaptive(image: &GrayImage) -> (r: GrayImage)
    requires
        image.spec_width() <= i32::MAX,
        image.spec_height() <= i32::MAX,
        2 * pixel_total(image.pixels()) <= u32::MAX,
    ensures
        same_size(r, *image),
        r.pixels() == adaptive_binary(image.spec_width() as u32, image.spec_height() as u32, image.pixels()),
{
    let block_radius: u32 = ImageProcessingConfig::BLOCK_SIZE / 2;
    let delta: i32 = ImageProcessingConfig::C;
    proof {
        let (w, h) = (image.spec_width() as int, image.spec_height() as int);
        assert(min_int(51, w) * min_int(51, h) <= 51 * 51) by (nonlinear_arith)
            requires
                0 <= min_int(51, w) <= 51,
                0 <= min_int(51, h) <= 51,
        ;
    }
    let thresh = adaptive_threshold(image, block_radius, delta);
    thresh.inverted()
}

/// The pixels after a closing (dilation, then erosion) with radius `k`,
/// taken as a byte.
pub open spec fn closed_pixels(width: u32, height: u32, pixels: Seq<u8>, k: u32) -> Seq<u8> {
    eroded_linf(width, height, dilated_linf(width, height, pixels, k as u8), k as u8)
}

/// The pixels after an opening (erosion, then dilation) with radius `k`,
/// taken as a byte.
pub open spec fn opened_pixels(width: u32, height: u32, pixels: Seq<u8>, k: u32) -> Seq<u8> {
    dilated_linf(width, height, eroded_linf(width, height, pixels, k as u8), k as u8)
}

/// The binary image of dark lines: adaptive thresholding over blocks of
/// radius 25 (the block size 51) with offset 5, inverted.
pub open spec fn adaptive_binary(width: u32, height: u32, pixels: Seq<u8>) -> Seq<u8> {
    inverted(adaptive_threshold_of(width, height, pixels, 25, 5))
}

/// Morphological closing (dilation, then erosion) with a square kernel of
/// radius `kernel_size`, taken as a byte.
pub fn morphology_close(image: &GrayImage, kernel_size: u32) -> (r: GrayImage)
    requires
        image.spec_width() + image.spec_height() <= u32::MAX,
    ensures
        same_size(r, *image),
        r.pixels() == closed_pixels(image.spec_width() as u32, image.spec_height() as u32, image.pixels(), kernel_size),
{
    let k = kernel_size as u8;
    let dilated = dilate_linf(image, k);
    erode_linf(&dilated, k)
}

/// Morphological opening (erosion, then dilation) with a square kernel of
/// radius `kernel_size`, taken as a byte.
pub fn morphology_open(image: &GrayImage, kernel_size: u32) -> (r: GrayImage)
    requires
        image.spec_width() + image.spec_height() <= u32::MAX,
    ensures
        same_size(r, *image),
        r.pixels() == opened_pixels(image.spec_width() as u32, image.spec_height() as u32, image.pixels(), kernel_size),
{
    let k = kernel_size as u8;
    let eroded = erode_linf(image, k);
    dilate_linf(&eroded, k)
}

impl RgbImage {
    #[verifier::type_invariant]
    spec fn inv(self) -> bool {
        self.data@.len() == self.width as int * self.height as int * 3
    }

    pub closed spec fn spec_width(self) -> nat {
        self.width as nat
    }

    pub closed spec fn spec_height(self) -> nat {
        self.height as nat
    }

    /// The channel bytes, pixel after pixel, row after row.
    pub closed spec fn pixels(self) -> Seq<u8> {
        self.data@
    }

    /// The buffer holds exactly three bytes per pixel.
    pub open spec fn valid(self) -> bool {
        self.pixels().len() == self.spec_width() * self.spec_height() * 3
    }

    /// Wraps a row-major buffer; `None` when its length is not `width * height * 3`.
    pub fn from_raw(width: u32, height: u32, data: Vec<u8>) -> (r: Option<RgbImage>)
        ensures
            r is Some <==> data@.len() == width as int * height as int * 3,
            r matches Some(img) ==> img.spec_width() == width && img.spec_height() == height
                && img.pixels() == data@,
    {
        proof {
            assert(width as u128 * height as u128 * 3 <= u128::MAX) by (nonlinear_arith)
                requires
                    width <= u32::MAX,
                    height <= u32::MAX,
            ;
        }
        if data.len() as u128 == width as u128 * height as u128 * 3 {
            Some(RgbImage { width, height, data })
        } else {
            None
        }
    }

    pub fn width(&self) -> (r: u32)
        ensures
            r == self.spec_width(),
            self.valid(),
    {
        proof {
            use_type_invariant(self);
        }
        self.width
    }

    pub fn height(&self) -> (r: u32)
        ensures
            r == self.spec_height(),
            self.valid(),
    {
        proof {
            use_type_invariant(self);
        }
        self.height
    }

    pub fn as_raw(&self) -> (r: &Vec<u8>)
        ensures
            r@ == self.pixels(),
    {
        &self.data
    }

    pub fn into_raw(self) -> (r: Vec<u8>)
        ensures
            r@ == self.pixels(),
    {
        self.data
    }

    /// Channel `k` (0 red, 1 green, 2 blue) of the pixel in column `x` of
    /// row `y`.
    pub open spec fn byte(self, x: int, y: int, k: int) -> u8 {
        self.pixels()[(y * self.spec_width() + x) * 3 + k]
    }

    /// The part of the image that starts at column `x`, row `y` and is at most
    /// `w` wide and `h` high. The start is clamped into the image and the size
    /// to what remains of it right of and below the start.
    pub fn crop(&self, x: u32, y: u32, w: u32, h: u32) -> (r: RgbImage)
        ensures
            is_rgb_crop(r, *self, x as int, y as int, w as int, h as int),
    {
        proof {
            use_type_invariant(self);
        }
        let iw = self.width;
        let ih = self.height;
        let cx = if x < iw {
            x
        } else {
            iw
        };
        let cy = if y < ih {
            y
        } else {
            ih
        };
        let cw = if w < iw - cx {
            w
        } else {
            iw - cx
        };
        let ch = if h < ih - cy {
            h
        } else {
            ih - cy
        };
        let n = self.data.len();
        let mut out: Vec<u8> = Vec::new();
        let mut row: u32 = 0;
        while row < ch
            invariant
                iw == self.spec_width(),
                ih == self.spec_height(),
                self.data@.len() == iw * ih * 3,
                n == self.data@.len(),
                cx + cw <= iw,
                cy + ch <= ih,
                row <= ch,
                out@.len() == row * cw * 3,
                forall|a: int, b: int, k: int|
                    0 <= a < row && 0 <= b < cw && 0 <= k < 3 ==> out@[#[trigger] at3(cw as int, a, b, k)]
                        == self.byte(cx + b, cy + a, k),
            decreases ch - row,
        {
            let mut col: u32 = 0;
            while col < cw
                invariant
                    iw == self.spec_width(),
                    ih == self.spec_height(),
                    self.data@.len() == iw * ih * 3,
                    n == self.data@.len(),
                    cx + cw <= iw,
                    cy + ch <= ih,
                    row < ch,
                    col <= cw,
                    out@.len() == (row * cw + col) * 3,
                    forall|a: int, b: int, k: int|
                        0 <= a < row && 0 <= b < cw && 0 <= k < 3 ==> out@[#[trigger] at3(cw as int, a, b, k)] == self.byte(cx + b, cy + a, k),
                    forall|b: int, k: int|
                        0 <= b < col && 0 <= k < 3 ==> out@[#[trigger] at3(cw as int, row as int, b, k)]
                            == self.byte(cx + b, cy + row, k),
                decreases cw - col,
            {
                proof {
                    lemma_index_in_grid((cx + col) as int, (cy + row) as int, iw as int, ih as int);
                    assert((cy + row) * iw <= iw * ih) by (nonlinear_arith)
                        requires
                            cy + row < ih,
                    ;
                    assert(((cy + row) * iw + cx + col) * 3 + 2 < n);
                }
                let base: usize = ((cy + row) as usize * iw as usize + (cx + col) as usize) * 3;
                let ghost before = out@;
                out.push(self.data[base]);
                out.push(self.data[base + 1]);
                out.push(self.data[base + 2]);
                proof {
                    assert(flat(cw as int, row as int, col as int) == row * cw + col);
                    assert forall|a: int, b: int, k: int|
                        0 <= a < row && 0 <= b < cw && 0 <= k < 3 implies out@[#[trigger] at3(cw as int, a, b, k)] == self.byte(cx + b, cy + a, k) by {
                        lemma_flat_bound(cw as int, a, b, row as int);
                        assert(out@[at3(cw as int, a, b, k)] == before[at3(cw as int, a, b, k)]);
                    }
                    assert forall|b: int, k: int|
                        0 <= b < col + 1 && 0 <= k < 3 implies out@[#[trigger] at3(cw as int, row as int, b, k)] == self.byte(cx + b, cy + row, k) by {
                        if b < col {
                            assert(flat(cw as int, row as int, b) < flat(cw as int, row as int, col as int));
                            assert(out@[at3(cw as int, row as int, b, k)] == before[at3(cw as int, row as int, b, k)]);
                        }
                    }
                }
                col = col + 1;
            }
            proof {
                assert((row + 1) * cw == row * cw + cw) by (nonlinear_arith);
                assert forall|a: int, b: int, k: int|
                    0 <= a < row + 1 && 0 <= b < cw && 0 <= k < 3 implies out@[#[trigger] at3(cw as int, a, b, k)] == self.byte(cx + b, cy + a, k) by {
                    if a == row {
                        assert(out@[at3(cw as int, row as int, b, k)] == self.byte(cx + b, cy + row, k));
                    }
                }
            }
            row = row + 1;
        }
        proof {
            assert(ch * cw * 3 == cw * ch * 3) by (nonlinear_arith);
        }
        let r = RgbImage { width: cw, height: ch, data: out };
        proof {
            assert forall|i: int, j: int, k: int|
                0 <= i < r.spec_width() && 0 <= j < r.spec_height() && 0 <= k < 3 implies #[trigger] r.byte(
                i,
                j,
                k,
            ) == self.byte(cx + i, cy + j, k) by {
                assert(r.byte(i, j, k) == out@[at3(cw as int, j, i, k)]);
            }
        }
        r
    }
}

/// `r` is the part of the colour image `img` that starts at column `x`, row
/// `y` and is at most `w` wide and `h` high: the start clamped into the
/// image, the size clamped to what remains of it right of and below the
/// start.
pub open spec fn is_rgb_crop(r: RgbImage, img: RgbImage, x: int, y: int, w: int, h: int) -> bool {
    let cx = clip(x, img.spec_width() as int);
    let cy = clip(y, img.spec_height() as int);
    &&& r.spec_width() == clip(w, img.spec_width() - cx)
    &&& r.spec_height() == clip(h, img.spec_height() - cy)
    &&& forall|i: int, j: int, k: int|
        0 <= i < r.spec_width() && 0 <= j < r.spec_height() && 0 <= k < 3 ==> #[trigger] r.byte(i, j, k)
            == img.byte(cx + i, cy + j, k)
}

impl Clone for GrayImage {
    fn clone(&self) -> (r: Self)
        ensures
            r.spec_width() == self.spec_width(),
            r.spec_height() == self.spec_height(),
            r.pixels() == self.pixels(),
    {
        proof {
            use_type_invariant(self);
        }
        let data = self.data.clone();
        proof {
            assert forall|i: int| 0 <= i < data@.len() implies data@[i] == self.data@[i] by {
                assert(cloned(self.data[i], data[i]));
            }
            assert(data@ =~= self.data@);
        }
        GrayImage { width: self.width, height: self.height, data }
    }
}

impl Clone for RgbImage {
    fn clone(&self) -> (r: Self)
        ensures
            r.spec_width() == self.spec_width(),
            r.spec_height() == self.spec_height(),
            r.pixels() == self.pixels(),
    {
        proof {
            use_type_invariant(self);
        }
        let data = self.data.clone();
        proof {
            assert forall|i: int| 0 <= i < data@.len() implies data@[i] == self.data@[i] by {
                assert(cloned(self.data[i], data[i]));
            }
            assert(data@ =~= self.data@);
        }
        RgbImage { width: self.width, height: self.height, data }
    }
}

proof fn lemma_index_in_grid(x: int, y: int, w: int, h: int)
    requires
        0 <= x < w,
        0 <= y < h,
    ensures
        0 <= y * w + x < w * h,
        y * w + x + 1 <= w * h,
{
    assert(y * w + x < w * h) by (nonlinear_arith)
        requires
            0 <= x < w,
            0 <= y < h,
    ;
    assert(0 <= y * w) by (nonlinear_arith)
        requires
            0 <= y,
            0 <= w,
    ;
}

/// Sum of `f(c, r)` over the cells with `x1 <= c < x2` in row `r`.
pub open spec fn row_sum(f: spec_fn(int, int) -> int, r: int, x1: int, x2: int) -> int
    decreases x2 - x1,
{
    if x2 <= x1 {
        0
    } else {
        row_sum(f, r, x1, x2 - 1) + f(x2 - 1, r)
    }
}

/// Sum of `f(c, r)` over the box `x1 <= c < x2`, `y1 <= r < y2`.
pub open spec fn box_sum(f: spec_fn(int, int) -> int, x1: int, y1: int, x2: int, y2: int) -> int
    decreases y2 - y1,
{
    if y2 <= y1 {
        0
    } else {
        box_sum(f, x1, y1, x2, y2 - 1) + row_sum(f, y2 - 1, x1, x2)
    }
}

/// The pixel values of an image as a function of column and row.
pub open spec fn pixel_fn(img: GrayImage) -> spec_fn(int, int) -> int {
    |c: int, r: int| img.pixel(c, r) as int
}

/// Entry `ii[y][x]` of a table, as an integer.
pub open spec fn entry(ii: Seq<Seq<u64>>, x: int, y: int) -> int {
    ii[y][x] as int
}

/// The cell value that a summed-area table encodes at column `c`, row `r`.
pub open spec fn cell(ii: Seq<Seq<u64>>, c: int, r: int) -> int {
    entry(ii, c + 1, r + 1) - entry(ii, c, r + 1) - entry(ii, c + 1, r) + entry(ii, c, r)
}

pub open spec fn cell_fn(ii: Seq<Seq<u64>>) -> spec_fn(int, int) -> int {
    |c: int, r: int| cell(ii, c, r)
}

/// A well-formed summed-area table: a rectangle of at least one row and
/// column, zero in its first row and column, with no negative cell, and with
/// entries small enough that two of them add without overflow.
pub open spec fn integral_wf(ii: Seq<Seq<u64>>) -> bool {
    &&& ii.len() >= 1
    &&& ii[0].len() >= 1
    &&& forall|y: int| 0 <= y < ii.len() ==> #[trigger] ii[y].len() == ii[0].len()
    &&& forall|x: int| 0 <= x < ii[0].len() ==> #[trigger] ii[0][x] == 0
    &&& forall|y: int| 0 <= y < ii.len() ==> #[trigger] ii[y][0] == 0
    &&& forall|c: int, r: int|
        0 <= c < ii[0].len() - 1 && 0 <= r < ii.len() - 1 ==> #[trigger] cell(ii, c, r) >= 0
    &&& forall|x: int, y: int|
        0 <= x < ii[0].len() && 0 <= y < ii.len() ==> #[trigger] ii[y][x] <= u64::MAX / 2
}

/// `ii` is the summed-area table of `img`: one more row and column than the
/// image, and entry `(x, y)` is the sum of the pixels above and left of it.
pub open spec fn integral_of(ii: Seq<Seq<u64>>, img: GrayImage) -> bool {
    &&& ii.len() == img.spec_height() + 1
    &&& forall|y: int| 0 <= y < ii.len() ==> #[trigger] ii[y].len() == img.spec_width() + 1
    &&& forall|x: int, y: int|
        0 <= x <= img.spec_width() && 0 <= y <= img.spec_height() ==> #[trigger] entry(ii, x, y)
            == box_sum(pixel_fn(img), 0, 0, x, y)
}

proof fn lemma_row_sum_bounds(f: spec_fn(int, int) -> int, r: int, x1: int, x2: int, hi: int)
    requires
        x1 <= x2,
        forall|c: int| x1 <= c < x2 ==> 0 <= #[trigger] f(c, r) <= hi,
    ensures
        0 <= row_sum(f, r, x1, x2) <= hi * (x2 - x1),
    decreases x2 - x1,
{
    if x2 > x1 {
        lemma_row_sum_bounds(f, r, x1, x2 - 1, hi);
        assert(0 <= f(x2 - 1, r) <= hi);
        assert(row_sum(f, r, x1, x2) == row_sum(f, r, x1, x2 - 1) + f(x2 - 1, r));
        assert(hi * (x2 - 1 - x1) + hi == hi * (x2 - x1)) by (nonlinear_arith);
    } else {
        assert(hi * (x2 - x1) == 0) by (nonlinear_arith)
            requires
                x2 == x1,
        ;
    }
}

proof fn lemma_box_sum_bounds(f: spec_fn(int, int) -> int, x1: int, y1: int, x2: int, y2: int, hi: int)
    requires
        x1 <= x2,
        y1 <= y2,
        0 <= hi,
        forall|c: int, r: int| x1 <= c < x2 && y1 <= r < y2 ==> 0 <= #[trigger] f(c, r) <= hi,
    ensures
        0 <= box_sum(f, x1, y1, x2, y2) <= hi * (x2 - x1) * (y2 - y1),
    decreases y2 - y1,
{
    if y2 > y1 {
        lemma_box_sum_bounds(f, x1, y1, x2, y2 - 1, hi);
        lemma_row_sum_bounds(f, y2 - 1, x1, x2, hi);
        assert(hi * (x2 - x1) * (y2 - 1 - y1) + hi * (x2 - x1) == hi * (x2 - x1) * (y2 - y1))
            by (nonlinear_arith);
    }
}

proof fn lemma_row_sum_ext(f: spec_fn(int, int) -> int, g: spec_fn(int, int) -> int, r: int, x1: int, x2: int)
    requires
        forall|c: int| x1 <= c < x2 ==> #[trigger] f(c, r) == g(c, r),
    ensures
        row_sum(f, r, x1, x2) == row_sum(g, r, x1, x2),
    decreases x2 - x1,
{
    if x2 > x1 {
        lemma_row_sum_ext(f, g, r, x1, x2 - 1);
    }
}

proof fn lemma_box_sum_ext(
    f: spec_fn(int, int) -> int,
    g: spec_fn(int, int) -> int,
    x1: int,
    y1: int,
    x2: int,
    y2: int,
)
    requires
        forall|c: int, r: int| x1 <= c < x2 && y1 <= r < y2 ==> #[trigger] f(c, r) == g(c, r),
    ensures
        box_sum(f, x1, y1, x2, y2) == box_sum(g, x1, y1, x2, y2),
    decreases y2 - y1,
{
    if y2 > y1 {
        lemma_box_sum_ext(f, g, x1, y1, x2, y2 - 1);
        assert forall|c: int| x1 <= c < x2 implies #[trigger] f(c, y2 - 1) == g(c, y2 - 1) by {}
        lemma_row_sum_ext(f, g, y2 - 1, x1, x2);
    }
}

proof fn lemma_box_sum_no_columns(f: spec_fn(int, int) -> int, y1: int, y2: int)
    ensures
        box_sum(f, 0, y1, 0, y2) == 0,
    decreases y2 - y1,
{
    if y2 > y1 {
        lemma_box_sum_no_columns(f, y1, y2 - 1);
    }
}

/// Summing the cells of a table along a row telescopes.
proof fn lemma_row_cells(ii: Seq<Seq<u64>>, r: int, x1: int, x2: int)
    requires
        x1 <= x2,
    ensures
        row_sum(cell_fn(ii), r, x1, x2) == (entry(ii, x2, r + 1) - entry(ii, x2, r)) - (entry(
            ii,
            x1,
            r + 1,
        ) - entry(ii, x1, r)),
    decreases x2 - x1,
{
    if x2 > x1 {
        lemma_row_cells(ii, r, x1, x2 - 1);
    }
}

/// Summing the cells of a table over a box telescopes to four entries.
proof fn lemma_box_cells(ii: Seq<Seq<u64>>, x1: int, y1: int, x2: int, y2: int)
    requires
        x1 <= x2,
        y1 <= y2,
    ensures
        box_sum(cell_fn(ii), x1, y1, x2, y2) == entry(ii, x2, y2) - entry(ii, x1, y2) - entry(
            ii,
            x2,
            y1,
        ) + entry(ii, x1, y1),
    decreases y2 - y1,
{
    if y2 > y1 {
        lemma_box_cells(ii, x1, y1, x2, y2 - 1);
        lemma_row_cells(ii, y2 - 1, x1, x2);
    }
}

/// The summed-area table of an image; entry `[y][x]` is the sum of the pixels
/// in the first `y` rows and `x` columns.
pub fn integral_image(image: &GrayImage) -> (r: Result<Vec<Vec<u64>>, RecError>)
    requires
        image.spec_width() * image.spec_height() * 510 + 255 <= u64::MAX,
    ensures
        r matches Ok(ii) && integral_of(ii.deep_view(), *image) && integral_wf(ii.deep_view()),
{
    let width = image.width();
    let height = image.height();
    let ghost f = pixel_fn(*image);
    let ghost w = width as int;
    let ghost h = height as int;
    proof {
        use_type_invariant(image);
        assert(w * h * 255 <= u64::MAX / 2) by (nonlinear_arith)
            requires
                w * h * 510 + 255 <= u64::MAX,
        ;
        assert forall|c: int, r: int| 0 <= c < w && 0 <= r < h implies 0 <= #[trigger] f(c, r)
            <= 255 by {}
    }
    let mut integral: Vec<Vec<u64>> = Vec::new();
    let mut first: Vec<u64> = Vec::new();
    let mut x: u32 = 0;
    while x < width
        invariant
            0 <= x <= w,
            w == width,
            first@.len() == x,
            forall|j: int| 0 <= j < x ==> first@[j] == 0,
        decreases w - x,
    {
        first.push(0);
        x = x + 1;
    }
    first.push(0);
    integral.push(first);
    let mut y: u32 = 0;
    while y < height
        invariant
            0 <= y <= h,
            w == width,
            h == height,
            f == pixel_fn(*image),
            image.valid(),
            w * h * 255 <= u64::MAX / 2,
            image.spec_width() == w,
            image.spec_height() == h,
            integral@.len() == y + 1,
            forall|r: int| 0 <= r <= y ==> (#[trigger] integral@[r])@.len() == w + 1,
            forall|c: int, r: int| #![trigger integral@[r]@[c]]
                0 <= c <= w && 0 <= r <= y ==> integral@[r]@[c] as int == box_sum(
                    f,
                    0,
                    0,
                    c,
                    r,
                ),
        decreases h - y,
    {
        let mut cur: Vec<u64> = Vec::new();
        cur.push(0);
        proof {
            let r = y as int;
            lemma_box_sum_no_columns(f, 0, r + 1);
        }
        proof {
            use_type_invariant(image);
            assert(y * w + w <= w * h) by (nonlinear_arith)
                requires
                    y < h,
                    0 <= w,
            ;
        }
        let n = image.data.len();
        let row_start: usize = y as usize * width as usize;
        let mut x: u32 = 0;
        while x < width
            invariant
                0 <= x <= w,
                w == width,
                h == height,
                y < h,
                f == pixel_fn(*image),
                image.valid(),
                w * h * 255 <= u64::MAX / 2,
                image.spec_width() == w,
                image.spec_height() == h,
                row_start == y * w,
                row_start + w <= w * h,
                n == image.pixels().len(),
                w * h * 510 + 255 <= u64::MAX,
                integral@.len() == y + 1,
                forall|r: int| 0 <= r <= y ==> (#[trigger] integral@[r])@.len() == w + 1,
                forall|c: int, r: int| #![trigger integral@[r]@[c]]
                    0 <= c <= w && 0 <= r <= y ==> integral@[r]@[c] as int
                        == box_sum(f, 0, 0, c, r),
                cur@.len() == x + 1,
                forall|c: int| 0 <= c <= x ==> #[trigger] cur@[c] as int == box_sum(f, 0, 0, c, y + 1),
            decreases w - x,
        {
            let ghost c = x as int;
            let ghost r = y as int;
            let p = image.data[row_start + x as usize];
            proof {
                use_type_invariant(image);
                assert(p == f(c, r)) by {
                    assert(row_start + x == r * w + c);
                }
                lemma_box_sum_bounds(f, 0, 0, c + 1, r, 255);
                lemma_box_sum_bounds(f, 0, 0, c, r + 1, 255);
                lemma_box_sum_bounds(f, 0, 0, c, r, 255);
                assert(255 * (c + 1) * r <= w * h * 255) by (nonlinear_arith)
                    requires
                        0 <= c,
                        c + 1 <= w,
                        r < h,
                        0 <= r,
                ;
                assert(255 * c * (r + 1) <= w * h * 255) by (nonlinear_arith)
                    requires
                        0 <= r,
                        c < w,
                        r + 1 <= h,
                        0 <= c,
                ;
                // one more column of the rectangle adds one more pixel to its last row
                assert(box_sum(f, 0, 0, c + 1, r + 1) == box_sum(f, 0, 0, c + 1, r) + row_sum(
                    f,
                    r,
                    0,
                    c + 1,
                ));
                assert(box_sum(f, 0, 0, c, r + 1) == box_sum(f, 0, 0, c, r) + row_sum(f, r, 0, c));
                lemma_box_rows_extend(f, c, r);
                assert(box_sum(f, 0, 0, c + 1, r) <= w * h * 255);
                assert(box_sum(f, 0, 0, c, r + 1) <= w * h * 255);
                assert(0 <= box_sum(f, 0, 0, c, r));
                lemma_box_sum_bounds(f, 0, 0, c + 1, r + 1, 255);
            }
            let up_right = integral[y as usize][x as usize + 1];
            let up_left = integral[y as usize][x as usize];
            let left = cur[x as usize];
            assert(up_right as int == box_sum(f, 0, 0, c + 1, r));
            assert(up_left as int == box_sum(f, 0, 0, c, r));
            assert(left as int == box_sum(f, 0, 0, c, r + 1));
            let v = p as u64 + up_right + left - up_left;
            cur.push(v);
            x = x + 1;
        }
        integral.push(cur);
        y = y + 1;
    }
    proof {
        let ii = integral.deep_view();
        assert forall|r: int| 0 <= r < ii.len() implies #[trigger] ii[r] == integral@[r]@ by {}
        assert forall|x: int, y: int|
            0 <= x <= w && 0 <= y <= h implies #[trigger] entry(ii, x, y) == box_sum(f, 0, 0, x, y) by {
            assert(ii[y] == integral@[y]@);
        }
        assert forall|c: int, r: int| 0 <= c < ii[0].len() - 1 && 0 <= r < ii.len() - 1 implies #[trigger] cell(ii, c, r) >= 0 by {
            assert(ii[r] == integral@[r]@);
            assert(ii[r + 1] == integral@[r + 1]@);
            assert(entry(ii, c + 1, r + 1) == box_sum(f, 0, 0, c + 1, r + 1));
            assert(entry(ii, c, r + 1) == box_sum(f, 0, 0, c, r + 1));
            assert(entry(ii, c + 1, r) == box_sum(f, 0, 0, c + 1, r));
            assert(entry(ii, c, r) == box_sum(f, 0, 0, c, r));
            lemma_box_rows_extend(f, c, r);
        }
        assert forall|x: int, y: int| 0 <= x < ii[0].len() && 0 <= y < ii.len() implies #[trigger] ii[y][x] <= u64::MAX / 2 by {
            assert(ii[y] == integral@[y]@);
            lemma_box_sum_bounds(f, 0, 0, x, y, 255);
            assert(255 * x * y <= w * h * 255) by (nonlinear_arith)
                requires
                    0 <= x <= w,
                    0 <= y <= h,
            ;
        }
        assert forall|y: int| 0 <= y < ii.len() implies #[trigger] ii[y][0] == 0 by {
            assert(ii[y] == integral@[y]@);
            lemma_box_sum_no_columns(f, 0, y);
        }
        assert forall|x: int| 0 <= x < ii[0].len() implies #[trigger] ii[0][x] == 0 by {
            assert(ii[0] == integral@[0]@);
        }
    }
    Ok(integral)
}

/// Growing a rectangle anchored at the origin by one column and one row adds
/// the new corner pixel: the usual summed-area recurrence.
proof fn lemma_box_rows_extend(f: spec_fn(int, int) -> int, c: int, r: int)
    requires
        0 <= c,
        0 <= r,
    ensures
        box_sum(f, 0, 0, c + 1, r + 1) == f(c, r) + box_sum(f, 0, 0, c + 1, r) + box_sum(
            f,
            0,
            0,
            c,
            r + 1,
        ) - box_sum(f, 0, 0, c, r),
{
    assert(box_sum(f, 0, 0, c + 1, r + 1) == box_sum(f, 0, 0, c + 1, r) + row_sum(f, r, 0, c + 1));
    assert(box_sum(f, 0, 0, c, r + 1) == box_sum(f, 0, 0, c, r) + row_sum(f, r, 0, c));
    assert(row_sum(f, r, 0, c + 1) == row_sum(f, r, 0, c) + f(c, r));
}

/// The corners of the clipped box `[x1, x2) x [y1, y2)` that `sum_pixel` reads
/// for a coordinate: negative positions are clamped to zero.
pub open spec fn clip0(v: int) -> int {
    if v < 0 { 0 } else { v }
}

/// What `sum_pixel` reads off a summed-area table for a box: the sum of the
/// table's cells over the box with negative ends taken as 0, or 0 when the
/// box's far side lies past the table's last row or column.
pub open spec fn table_box_sum(ii: Seq<Seq<u64>>, coord: Coordinate) -> int {
    let x1 = clip0(coord.x as int);
    let y1 = clip0(coord.y as int);
    let x2 = clip0(coord.x + coord.w);
    let y2 = clip0(coord.y + coord.h);
    if y2 < ii.len() && x2 < ii[0].len() {
        box_sum(cell_fn(ii), x1, y1, x2, y2)
    } else {
        0
    }
}

/// Sum of the cells of a summed-area table inside a box, read from four
/// entries; 0 when the box reaches past the table's last row or column.
pub fn sum_pixel(integral: &Vec<Vec<u64>>, coord: &Coordinate) -> (r: u64)
    requires
        integral_wf(integral.deep_view()),
        coord.w >= 0,
        coord.h >= 0,
        coord.x + coord.w <= i32::MAX,
        coord.y + coord.h <= i32::MAX,
    ensures
        r == table_box_sum(integral.deep_view(), *coord),
{
    let ghost ii = integral.deep_view();
    let x1: usize = if coord.x > 0 { coord.x as usize } else { 0 };
    let y1: usize = if coord.y > 0 { coord.y as usize } else { 0 };
    let xe = coord.x + coord.w;
    let ye = coord.y + coord.h;
    let x2: usize = if xe > 0 { xe as usize } else { 0 };
    let y2: usize = if ye > 0 { ye as usize } else { 0 };
    proof {
        assert(integral@.len() == ii.len());
    }
    if y2 >= integral.len() || x2 >= integral[0].len() {
        return 0;
    }
    proof {
        assert(ii[0] == integral@[0]@);
        assert(ii[y1 as int] == integral@[y1 as int]@);
        assert(ii[y2 as int] == integral@[y2 as int]@);
        lemma_box_cells(ii, x1 as int, y1 as int, x2 as int, y2 as int);
        lemma_box_cells(ii, 0, y1 as int, x2 as int, y2 as int);
        lemma_box_cells(ii, x1 as int, y1 as int, x2 as int, y2 as int);
        lemma_cells_nonneg(ii, 0, y1 as int, x2 as int, y2 as int);
        lemma_cells_nonneg(ii, x1 as int, y1 as int, x2 as int, y2 as int);
    }
    let a = integral[y2][x2];
    let b = integral[y1][x1];
    let c = integral[y1][x2];
    let d = integral[y2][x1];
    a + b - c - d
}

proof fn lemma_cells_nonneg(ii: Seq<Seq<u64>>, x1: int, y1: int, x2: int, y2: int)
    requires
        integral_wf(ii),
        0 <= x1 <= x2 < ii[0].len(),
        0 <= y1 <= y2 < ii.len(),
    ensures
        box_sum(cell_fn(ii), x1, y1, x2, y2) >= 0,
{
    let f = cell_fn(ii);
    assert forall|c: int, r: int| x1 <= c < x2 && y1 <= r < y2 implies 0 <= #[trigger] f(c, r)
        <= u64::MAX by {
        assert(cell(ii, c, r) >= 0);
        assert(ii[r + 1].len() == ii[0].len());
        assert(ii[r].len() == ii[0].len());
        assert(ii[r + 1][c + 1] <= u64::MAX / 2);
        assert(ii[r][c] <= u64::MAX / 2);
    }
    lemma_box_sum_bounds(f, x1, y1, x2, y2, u64::MAX as int);
}

/// What `sum_pixel` reads from the summed-area table of an image is the sum of
/// the image's pixels in the (clipped) box.
pub proof fn integral_box_sum_law(ii: Seq<Seq<u64>>, img: GrayImage, x1: int, y1: int, x2: int, y2: int)
    requires
        integral_of(ii, img),
        0 <= x1 <= x2 <= img.spec_width(),
        0 <= y1 <= y2 <= img.spec_height(),
    ensures
        box_sum(cell_fn(ii), x1, y1, x2, y2) == box_sum(pixel_fn(img), x1, y1, x2, y2),
{
    let f = pixel_fn(img);
    assert forall|c: int, r: int| x1 <= c < x2 && y1 <= r < y2 implies #[trigger] cell_fn(ii)(c, r)
        == f(c, r) by {
        assert(entry(ii, c + 1, r + 1) == box_sum(f, 0, 0, c + 1, r + 1));
        assert(entry(ii, c, r + 1) == box_sum(f, 0, 0, c, r + 1));
        assert(entry(ii, c + 1, r) == box_sum(f, 0, 0, c + 1, r));
        assert(entry(ii, c, r) == box_sum(f, 0, 0, c, r));
        lemma_box_rows_extend(f, c, r);
    }
    lemma_box_sum_ext(cell_fn(ii), f, x1, y1, x2, y2);
}

/// On the summed-area table of an image, `sum_pixel` of a box with its corner
/// and size not negative gives the sum of the image's pixels in the box, or 0
/// when the box reaches past the image's right or bottom edge.
pub proof fn sum_pixel_law(ii: Seq<Seq<u64>>, img: GrayImage, c: Coordinate)
    requires
        integral_of(ii, img),
        c.x >= 0,
        c.y >= 0,
        c.w >= 0,
        c.h >= 0,
    ensures
        table_box_sum(ii, c) == (if c.x + c.w > img.spec_width() || c.y + c.h > img.spec_height() {
            0
        } else {
            box_sum(pixel_fn(img), c.x as int, c.y as int, c.x + c.w, c.y + c.h)
        }),
{
    assert(ii[0].len() == img.spec_width() + 1);
    if c.x + c.w <= img.spec_width() && c.y + c.h <= img.spec_height() {
        integral_box_sum_law(ii, img, c.x as int, c.y as int, c.x + c.w, c.y + c.h);
    }
}

pub open spec fn xs_of(cs: Seq<Coordinate>) -> Seq<int> {
    cs.map_values(|c: Coordinate| c.x as int)
}

pub open spec fn ys_of(cs: Seq<Coordinate>) -> Seq<int> {
    cs.map_values(|c: Coordinate| c.y as int)
}

pub open spec fn rights_of(cs: Seq<Coordinate>) -> Seq<int> {
    cs.map_values(|c: Coordinate| c.x + c.w)
}

pub open spec fn bottoms_of(cs: Seq<Coordinate>) -> Seq<int> {
    cs.map_values(|c: Coordinate| c.y + c.h)
}


pub(crate) proof fn lemma_least(s: Seq<int>, m: int)
    requires
        s.len() > 0,
        exists|i: int| 0 <= i < s.len() && s[i] == m,
        forall|i: int| 0 <= i < s.len() ==> m <= #[trigger] s[i],
    ensures
        s.min() == m,
{
    s.min_ensures();
    let k = choose|i: int| 0 <= i < s.len() && s[i] == m;
    assert(s.min() <= s[k]);
}

pub(crate) proof fn lemma_greatest(s: Seq<int>, m: int)
    requires
        s.len() > 0,
        exists|i: int| 0 <= i < s.len() && s[i] == m,
        forall|i: int| 0 <= i < s.len() ==> #[trigger] s[i] <= m,
    ensures
        s.max() == m,
{
    s.max_ensures();
    let k = choose|i: int| 0 <= i < s.len() && s[i] == m;
    assert(s[k] <= s.max());
}

/// The box lies inside the summed-area table: its corner at or right of and
/// below the origin, its far sides at most the table's last column and row.
pub open spec fn box_in_table(ii: Seq<Seq<u64>>, c: Coordinate) -> bool {
    &&& c.x >= 0
    &&& c.y >= 0
    &&& c.x + c.w <= ii[0].len() - 1
    &&& c.y + c.h <= ii.len() - 1
}

/// The pixel sum of a box that lies inside the summed-area table; an error
/// when it does not.
pub fn box_sum_in_table(integral: &Vec<Vec<u64>>, coordinate: &Coordinate) -> (r: Result<u64, RecError>)
    requires
        integral_wf(integral.deep_view()),
        integral.deep_view().len() <= i32::MAX,
        integral.deep_view()[0].len() <= i32::MAX,
        coordinate.w >= 0,
        coordinate.h >= 0,
        coordinate.x + coordinate.w <= i32::MAX,
        coordinate.y + coordinate.h <= i32::MAX,
    ensures
        r is Ok <==> box_in_table(integral.deep_view(), *coordinate),
        r matches Ok(v) ==> v == box_sum(
            cell_fn(integral.deep_view()),
            coordinate.x as int,
            coordinate.y as int,
            coordinate.x + coordinate.w,
            coordinate.y + coordinate.h,
        ),
{
    let ghost ii = integral.deep_view();
    proof {
        assert(integral@.len() == ii.len());
        assert(ii[0] == integral@[0]@);
    }
    let rows = integral.len() as i32;
    let cols = integral[0].len() as i32;
    if coordinate.x < 0 || coordinate.y < 0 || coordinate.x + coordinate.w > cols - 1 || coordinate.y
        + coordinate.h > rows - 1 {
        return Err(RecError::BoxOutsideTable);
    }
    Ok(sum_pixel(integral, coordinate))
}

/// The bounding box of several boxes, grown by `extend_size_w` on the left and
/// right and by `extend_size_h` at the top and bottom.
pub fn merge_coordinates(coordinates: &Vec<Coordinate>, extend_size_w: i32, extend_size_h: i32) -> (r: Coordinate)
    requires
        coordinates@.len() > 0,
        forall|i: int|
            0 <= i < coordinates@.len() ==> i32::MIN <= #[trigger] coordinates@[i].x
                + coordinates@[i].w <= i32::MAX && i32::MIN <= coordinates@[i].y
                + coordinates@[i].h <= i32::MAX,
        i32::MIN <= rights_of(coordinates@).max() - xs_of(coordinates@).min() <= i32::MAX,
        i32::MIN <= bottoms_of(coordinates@).max() - ys_of(coordinates@).min() <= i32::MAX,
        i32::MIN <= xs_of(coordinates@).min() - extend_size_w <= i32::MAX,
        i32::MIN <= ys_of(coordinates@).min() - extend_size_h <= i32::MAX,
        i32::MIN <= extend_size_w * 2 <= i32::MAX,
        i32::MIN <= extend_size_h * 2 <= i32::MAX,
        i32::MIN <= rights_of(coordinates@).max() - xs_of(coordinates@).min() + extend_size_w * 2
            <= i32::MAX,
        i32::MIN <= bottoms_of(coordinates@).max() - ys_of(coordinates@).min() + extend_size_h * 2
            <= i32::MAX,
    ensures
        r.x == xs_of(coordinates@).min() - extend_size_w,
        r.y == ys_of(coordinates@).min() - extend_size_h,
        r.w == rights_of(coordinates@).max() - xs_of(coordinates@).min() + extend_size_w * 2,
        r.h == bottoms_of(coordinates@).max() - ys_of(coordinates@).min() + extend_size_h * 2,
        forall|i: int|
            0 <= i < coordinates@.len() ==> {
                let c = #[trigger] coordinates@[i];
                &&& r.x + extend_size_w <= c.x
                &&& c.x + c.w <= r.x + r.w - extend_size_w
                &&& r.y + extend_size_h <= c.y
                &&& c.y + c.h <= r.y + r.h - extend_size_h
            },
{
    let ghost cs = coordinates@;
    let n = coordinates.len();
    let mut min_x = coordinates[0].x;
    let mut min_y = coordinates[0].y;
    let mut max_r = coordinates[0].x + coordinates[0].w;
    let mut max_b = coordinates[0].y + coordinates[0].h;
    let mut i: usize = 1;
    while i < n
        invariant
            cs == coordinates@,
            n == cs.len(),
            1 <= i <= n,
            forall|j: int|
                0 <= j < cs.len() ==> i32::MIN <= #[trigger] cs[j].x + cs[j].w <= i32::MAX
                    && i32::MIN <= cs[j].y + cs[j].h <= i32::MAX,
            exists|j: int| 0 <= j < i && cs[j].x == min_x,
            exists|j: int| 0 <= j < i && cs[j].y == min_y,
            exists|j: int| 0 <= j < i && cs[j].x + cs[j].w == max_r,
            exists|j: int| 0 <= j < i && cs[j].y + cs[j].h == max_b,
            forall|j: int|
                0 <= j < i ==> {
                    &&& min_x <= #[trigger] cs[j].x
                    &&& min_y <= cs[j].y
                    &&& cs[j].x + cs[j].w <= max_r
                    &&& cs[j].y + cs[j].h <= max_b
                },
        decreases n - i,
    {
        let c = coordinates[i];
        if c.x < min_x {
            min_x = c.x;
        }
        if c.y < min_y {
            min_y = c.y;
        }
        if c.x + c.w > max_r {
            max_r = c.x + c.w;
        }
        if c.y + c.h > max_b {
            max_b = c.y + c.h;
        }
        i = i + 1;
    }
    proof {
        assert forall|j: int| 0 <= j < cs.len() implies xs_of(cs)[j] == cs[j].x && ys_of(cs)[j]
            == cs[j].y && rights_of(cs)[j] == cs[j].x + cs[j].w && bottoms_of(cs)[j] == cs[j].y
            + cs[j].h by {}
        let j1 = choose|j: int| 0 <= j < n && cs[j].x == min_x;
        assert(xs_of(cs)[j1] == min_x);
        lemma_least(xs_of(cs), min_x as int);
        let j2 = choose|j: int| 0 <= j < n && cs[j].y == min_y;
        assert(ys_of(cs)[j2] == min_y);
        lemma_least(ys_of(cs), min_y as int);
        let j3 = choose|j: int| 0 <= j < n && cs[j].x + cs[j].w == max_r;
        assert(rights_of(cs)[j3] == max_r);
        lemma_greatest(rights_of(cs), max_r as int);
        let j4 = choose|j: int| 0 <= j < n && cs[j].y + cs[j].h == max_b;
        assert(bottoms_of(cs)[j4] == max_b);
        lemma_greatest(bottoms_of(cs), max_b as int);
    }
    let mut x = min_x;
    let mut y = min_y;
    let mut w = max_r - x;
    let mut h = max_b - y;
    x -= extend_size_w;
    y -= extend_size_h;
    w += extend_size_w * 2;
    h += extend_size_h * 2;
    Coordinate { x, y, w, h }
}


/// The images of a scaled photo ready for recognition: the colour and gray
/// images as they are; the blurred gray image binarized (`adaptive_binary`)
/// and closed with radius 3; and, for finding the frame, the binary image
/// opened with radius 3 and then closed with radius 5.
pub fn process_blurred(rgb: RgbImage, gray: GrayImage, blurred: &GrayImage) -> (r: ProcessedImage)
    requires
        blurred.spec_width() <= i32::MAX,
        blurred.spec_height() <= i32::MAX,
        2 * pixel_total(blurred.pixels()) <= u32::MAX,
    ensures
        r.rgb.spec_width() == rgb.spec_width() && r.rgb.spec_height() == rgb.spec_height() && r.rgb.pixels()
            == rgb.pixels(),
        r.gray.spec_width() == gray.spec_width() && r.gray.spec_height() == gray.spec_height()
            && r.gray.pixels() == gray.pixels(),
        ({
            let (w, h) = (blurred.spec_width() as u32, blurred.spec_height() as u32);
            let thresh = adaptive_binary(w, h, blurred.pixels());
            &&& same_size(r.thresh, *blurred)
            &&& same_size(r.closed, *blurred)
            &&& same_size(r.closed_for_location, *blurred)
            &&& r.thresh.pixels() == thresh
            &&& r.closed.pixels() == closed_pixels(w, h, thresh, 3)
            &&& r.closed_for_location.pixels() == closed_pixels(w, h, opened_pixels(w, h, thresh, 3), 5)
        }),
{
    let thresh = threshold_adaptive(blurred);
    let closed = morphology_close(&thresh, ImageProcessingConfig::MORPH_KERNEL);
    let opened_for_location = morphology_open(&thresh, ImageProcessingConfig::MORPH_KERNEL_OPEN_FOR_LOCATION);
    let closed_for_location = morphology_close(
        &opened_for_location,
        ImageProcessingConfig::MORPH_KERNEL_CLOSE_FOR_LOCATION,
    );
    ProcessedImage { rgb, gray, thresh, closed, closed_for_location }
}

} // verus!
