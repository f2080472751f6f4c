use vstd::prelude::*;
use crate::error::RecError;
use crate::models::{AssistLocation, Coordinate, RecType};
use crate::myutils::image::RgbImage;

verus! {

/// How a box is drawn.
#[derive(Debug, Clone, Copy, PartialEq, Eq, Structural)]
pub enum RenderMode {
    Filled,
    Hollow,
    Corners,
}

/// A colour as red, green and blue intensities.
#[derive(Debug, Clone, Copy, PartialEq, Eq)]
pub struct Rgb(pub [u8; 3]);

/// Preset colours.
pub struct Colors;

impl Colors {
    pub fn red() -> (r: Rgb)
        ensures
            r.0@ == seq![255u8, 0u8, 0u8],
    {
        let r = Rgb([255, 0, 0]);
        assert(r.0@ =~= seq![255u8, 0u8, 0u8]);
        r
    }

    pub fn green() -> (r: Rgb)
        ensures
            r.0@ == seq![0u8, 255u8, 0u8],
    {
        let r = Rgb([0, 255, 0]);
        assert(r.0@ =~= seq![0u8, 255u8, 0u8]);
        r
    }

    pub fn blue() -> (r: Rgb)
        ensures
            r.0@ == seq![0u8, 0u8, 255u8],
    {
        let r = Rgb([0, 0, 255]);
        assert(r.0@ =~= seq![0u8, 0u8, 255u8]);
        r
    }

    pub fn yellow() -> (r: Rgb)
        ensures
            r.0@ == seq![255u8, 255u8, 0u8],
    {
        let r = Rgb([255, 255, 0]);
        assert(r.0@ =~= seq![255u8, 255u8, 0u8]);
        r
    }

    pub fn orange() -> (r: Rgb)
        ensures
            r.0@ == seq![255u8, 165u8, 0u8],
    {
        let r = Rgb([255, 165, 0]);
        assert(r.0@ =~= seq![255u8, 165u8, 0u8]);
        r
    }

    pub fn white() -> (r: Rgb)
        ensures
            r.0@ == seq![255u8, 255u8, 255u8],
    {
        let r = Rgb([255, 255, 255]);
        assert(r.0@ =~= seq![255u8, 255u8, 255u8]);
        r
    }

    pub fn black() -> (r: Rgb)
        ensures
            r.0@ == seq![0u8, 0u8, 0u8],
    {
        let r = Rgb([0, 0, 0]);
        assert(r.0@ =~= seq![0u8, 0u8, 0u8]);
        r
    }
}

/// Coordinates that the outside line drawing handles without overflow: it
/// turns them into `f32` (which rounds values near `i32::MAX` up to 2^31) and
/// counts along them in `i32` up to one past the last, so the last 255 values
/// below `i32::MAX` are left out.
pub open spec fn drawable(v: int) -> bool {
    i32::MIN <= v <= i32::MAX - 255
}

/// The bytes of a row-major RGB image of the given width after every pixel of
/// the box `[left, left + w) x [top, top + h)` that lies in the image is set
/// to `color`.
pub open spec fn filled_rect_pixels(
    pixels: Seq<u8>,
    width: int,
    left: int,
    top: int,
    w: int,
    h: int,
    color: Seq<u8>,
) -> Seq<u8> {
    Seq::new(
        pixels.len(),
        |i: int|
            {
                let px = (i / 3) % width;
                let py = (i / 3) / width;
                if left <= px < left + w && top <= py < top + h {
                    color[i % 3]
                } else {
                    pixels[i]
                }
            },
    )
}

/// A coordinate that `f32` holds exactly: at most 2^24 from 0.
pub open spec fn f32_exact(v: int) -> bool {
    -0x100_0000 <= v <= 0x100_0000
}

/// Pixel `px, py` lies on the one-pixel border of the box
/// `[left, left + w) x [top, top + h)`.
pub open spec fn on_outline(px: int, py: int, left: int, top: int, w: int, h: int) -> bool {
    &&& left <= px < left + w
    &&& top <= py < top + h
    &&& (px == left || px == left + w - 1 || py == top || py == top + h - 1)
}

/// The bytes of a row-major RGB image of the given width after every pixel on
/// the border of the box `[left, left + w) x [top, top + h)` that lies in the
/// image is set to `color`.
pub open spec fn outline_rect_pixels(
    pixels: Seq<u8>,
    width: int,
    left: int,
    top: int,
    w: int,
    h: int,
    color: Seq<u8>,
) -> Seq<u8> {
    Seq::new(
        pixels.len(),
        |i: int|
            {
                let px = (i / 3) % width;
                let py = (i / 3) / width;
                if on_outline(px, py, left, top, w, h) {
                    color[i % 3]
                } else {
                    pixels[i]
                }
            },
    )
}

/// The borders for `t` in `0..layers`, each box grown by `t` on every side,
/// drawn one after the other.
pub open spec fn outline_layers(pixels: Seq<u8>, width: int, c: Coordinate, color: Seq<u8>, layers: int) -> Seq<u8>
    decreases layers,
{
    if layers <= 0 {
        pixels
    } else {
        let t = layers - 1;
        outline_rect_pixels(
            outline_layers(pixels, width, c, color, t),
            width,
            c.x - t,
            c.y - t,
            c.w + 2 * t,
            c.h + 2 * t,
            color,
        )
    }
}

/// Every outline of a box drawn `thickness` pixels wide has corners that
/// `f32` holds exactly.
pub open spec fn outlines_exact(c: Coordinate, thickness: i32) -> bool {
    thickness <= 0 || {
        &&& f32_exact(c.x - (thickness - 1))
        &&& f32_exact(c.y - (thickness - 1))
        &&& f32_exact(c.x + c.w + thickness - 2)
        &&& f32_exact(c.y + c.h + thickness - 2)
    }
}

/// The bytes of an RGB image after `imageproc::drawing::draw_hollow_rect_mut`
/// draws the outline of the rectangle at `(left, top)` of the given size.
pub uninterp spec fn hollow_rect_drawn(
    pixels: Seq<u8>,
    width: u32,
    height: u32,
    left: i32,
    top: i32,
    rect_width: u32,
    rect_height: u32,
    color: Seq<u8>,
) -> Seq<u8>;

/// The bytes of an RGB image after `imageproc::drawing::draw_filled_circle_mut`
/// draws a disc of the given radius around `(center_x, center_y)`.
pub uninterp spec fn filled_circle_drawn(
    pixels: Seq<u8>,
    width: u32,
    height: u32,
    center_x: i32,
    center_y: i32,
    radius: i32,
    color: Seq<u8>,
) -> Seq<u8>;

/// Calls `imageproc::drawing::draw_filled_rect_mut`, which sets every pixel
/// of the rectangle that lies inside the image to `color` and leaves the
/// others. Left out, as the source panics on them: empty sizes, and
/// rectangles whose far side `left + width` (computed before subtracting 1)
/// overflows `i32`.
#[verifier::external_body]
fn draw_filled_rect(image: &mut RgbImage, left: i32, top: i32, rect_width: u32, rect_height: u32, color: Rgb)
    requires
        0 < rect_width <= i32::MAX,
        0 < rect_height <= i32::MAX,
        left + rect_width <= i32::MAX,
        top + rect_height <= i32::MAX,
        old(image).spec_width() <= i32::MAX,
        old(image).spec_height() <= i32::MAX,
    ensures
        final(image).spec_width() == old(image).spec_width(),
        final(image).spec_height() == old(image).spec_height(),
        final(image).pixels() == filled_rect_pixels(
            old(image).pixels(),
            old(image).spec_width() as int,
            left as int,
            top as int,
            rect_width as int,
            rect_height as int,
            color.0@,
        ),
{
    let mut buf = ::image::RgbImage::from_raw(image.width, image.height, std::mem::take(&mut image.data)).unwrap();
    let rect = imageproc::rect::Rect::at(left, top).of_size(rect_width, rect_height);
    imageproc::drawing::draw_filled_rect_mut(&mut buf, rect, ::image::Rgb(color.0));
    image.data = buf.into_raw();
}

/// Calls `imageproc::drawing::draw_hollow_rect_mut` to draw the outline of a
/// rectangle. Its four sides are horizontal and vertical line segments that
/// the function draws with `f32` end points, setting every point of each that
/// lies in the image; so where the corners are held exactly by `f32` (and the
/// image size fits in `i32`, as the bounds test takes it), the bytes are the
/// border of the rectangle clipped to the image. Beyond that, which bytes
/// change is only named.
#[verifier::external_body]
fn draw_hollow_rect(image: &mut RgbImage, left: i32, top: i32, rect_width: u32, rect_height: u32, color: Rgb)
    requires
        0 < rect_width <= i32::MAX,
        0 < rect_height <= i32::MAX,
        drawable(left as int),
        drawable(top as int),
        drawable(left + rect_width - 1),
        drawable(top + rect_height - 1),
    ensures
        final(image).spec_width() == old(image).spec_width(),
        final(image).spec_height() == old(image).spec_height(),
        final(image).pixels() == hollow_rect_drawn(
            old(image).pixels(),
            old(image).spec_width() as u32,
            old(image).spec_height() as u32,
            left,
            top,
            rect_width,
            rect_height,
            color.0@,
        ),
        f32_exact(left as int) && f32_exact(left + rect_width - 1) && f32_exact(top as int) && f32_exact(
            top + rect_height - 1,
        ) && old(image).spec_width() <= i32::MAX && old(image).spec_height() <= i32::MAX
            ==> final(image).pixels() == outline_rect_pixels(
            old(image).pixels(),
            old(image).spec_width() as int,
            left as int,
            top as int,
            rect_width as int,
            rect_height as int,
            color.0@,
        ),
{
    let mut buf = ::image::RgbImage::from_raw(image.width, image.height, std::mem::take(&mut image.data)).unwrap();
    let rect = imageproc::rect::Rect::at(left, top).of_size(rect_width, rect_height);
    imageproc::drawing::draw_hollow_rect_mut(&mut buf, rect, ::image::Rgb(color.0));
    image.data = buf.into_raw();
}

/// Calls `imageproc::drawing::draw_filled_circle_mut` to draw a disc; which
/// bytes change is named, not stated. Left out, as the function's `i32`
/// arithmetic overflows on them: radii whose start value `1 - radius`
/// overflows, radii past 2^30 (where its decision steps `2 * (x - y)`
/// overflow), and, for a radius that draws (not negative), discs that reach
/// coordinates the line drawing does not handle.
#[verifier::external_body]
fn draw_filled_circle(image: &mut RgbImage, center_x: i32, center_y: i32, radius: i32, color: Rgb)
    requires
        -0x7FFF_FFFE <= radius <= 0x4000_0000,
        radius >= 0 ==> drawable(center_x - radius) && drawable(center_x + radius) && drawable(
            center_y - radius,
        ) && drawable(center_y + radius),
    ensures
        final(image).spec_width() == old(image).spec_width(),
        final(image).spec_height() == old(image).spec_height(),
        final(image).pixels() == filled_circle_drawn(
            old(image).pixels(),
            old(image).spec_width() as u32,
            old(image).spec_height() as u32,
            center_x,
            center_y,
            radius,
            color.0@,
        ),
{
    let mut buf = ::image::RgbImage::from_raw(image.width, image.height, std::mem::take(&mut image.data)).unwrap();
    imageproc::drawing::draw_filled_circle_mut(&mut buf, (center_x, center_y), radius, ::image::Rgb(color.0));
    image.data = buf.into_raw();
}

/// The outlines for `t` in `0..layers`, each grown by `t` on every side,
/// drawn one after the other.
pub open spec fn hollow_layers(
    pixels: Seq<u8>,
    width: u32,
    height: u32,
    c: Coordinate,
    color: Seq<u8>,
    layers: int,
) -> Seq<u8>
    decreases layers,
{
    if layers <= 0 {
        pixels
    } else {
        let t = layers - 1;
        hollow_rect_drawn(
            hollow_layers(pixels, width, height, c, color, t),
            width,
            height,
            (c.x - t) as i32,
            (c.y - t) as i32,
            (c.w + 2 * t) as u32,
            (c.h + 2 * t) as u32,
            color,
        )
    }
}

/// The four corner discs of a box, drawn clockwise from the top-left corner.
pub open spec fn corners_drawn(
    pixels: Seq<u8>,
    width: u32,
    height: u32,
    c: Coordinate,
    color: Seq<u8>,
    radius: i32,
) -> Seq<u8> {
    let p1 = filled_circle_drawn(pixels, width, height, c.x, c.y, radius, color);
    let p2 = filled_circle_drawn(p1, width, height, (c.x + c.w) as i32, c.y, radius, color);
    let p3 = filled_circle_drawn(p2, width, height, (c.x + c.w) as i32, (c.y + c.h) as i32, radius, color);
    filled_circle_drawn(p3, width, height, c.x, (c.y + c.h) as i32, radius, color)
}

/// The image bytes after a box is drawn in the given mode.
pub open spec fn coordinate_drawn(
    pixels: Seq<u8>,
    width: u32,
    height: u32,
    c: Coordinate,
    mode: RenderMode,
    color: Seq<u8>,
    thickness: i32,
) -> Seq<u8> {
    match mode {
        RenderMode::Filled => filled_rect_pixels(pixels, width as int, c.x as int, c.y as int, c.w as int, c.h as int, color),
        RenderMode::Hollow => hollow_layers(pixels, width, height, c, color, thickness as int),
        RenderMode::Corners => corners_drawn(pixels, width, height, c, color, (thickness * 2) as i32),
    }
}

/// The box can be drawn in the given mode without the drawing code panicking
/// or overflowing.
pub open spec fn can_render(c: Coordinate, mode: RenderMode, thickness: i32, width: nat, height: nat) -> bool {
    match mode {
        RenderMode::Filled => {
            &&& c.w > 0
            &&& c.h > 0
            &&& c.x + c.w <= i32::MAX
            &&& c.y + c.h <= i32::MAX
            &&& width <= i32::MAX
            &&& height <= i32::MAX
        },
        RenderMode::Hollow => c.w != 0 && c.h != 0 && (thickness <= 0 || {
            &&& c.w > 0
            &&& c.h > 0
            &&& c.w + 2 * (thickness - 1) <= i32::MAX
            &&& c.h + 2 * (thickness - 1) <= i32::MAX
            &&& drawable(c.x - (thickness - 1))
            &&& drawable(c.y - (thickness - 1))
            &&& drawable(c.x + c.w + thickness - 2)
            &&& drawable(c.y + c.h + thickness - 2)
        }),
        RenderMode::Corners => {
            let radius = thickness * 2;
            &&& c.w != 0
            &&& c.h != 0
            &&& -0x3FFF_FFFF <= thickness <= 0x2000_0000
            &&& i32::MIN <= c.x + c.w <= i32::MAX
            &&& i32::MIN <= c.y + c.h <= i32::MAX
            &&& radius >= 0 ==> {
                &&& drawable(c.x - radius)
                &&& drawable(c.y - radius)
                &&& drawable(c.x + c.w + radius)
                &&& drawable(c.y + c.h + radius)
                &&& drawable(c.x + c.w - radius)
                &&& drawable(c.y + c.h - radius)
                &&& drawable(c.x + radius)
                &&& drawable(c.y + radius)
            }
        },
    }
}

/// Whether `v` is a coordinate that the drawing handles.
fn is_drawable(v: i64) -> (r: bool)
    ensures
        r == drawable(v as int),
{
    i32::MIN as i64 <= v && v <= i32::MAX as i64 - 255
}

/// Whether the box can be drawn in the given mode on an image of the given
/// size; see `can_render`.
pub fn renderable(coord: &Coordinate, mode: RenderMode, thickness: i32, width: u32, height: u32) -> (r: bool)
    ensures
        r == can_render(*coord, mode, thickness, width as nat, height as nat),
{
    let x = coord.x as i64;
    let y = coord.y as i64;
    let w = coord.w as i64;
    let h = coord.h as i64;
    let t = thickness as i64;
    let max = i32::MAX as i64;
    match mode {
        RenderMode::Filled => {
            w > 0 && h > 0 && x + w <= max && y + h <= max && width as i64 <= max
                && height as i64 <= max
        },
        RenderMode::Hollow => {
            w != 0 && h != 0 && (t <= 0 || (w > 0 && h > 0 && w + 2 * (t - 1) <= max && h + 2 * (t - 1) <= max
                && is_drawable(x - (t - 1)) && is_drawable(y - (t - 1)) && is_drawable(x + w + t - 2)
                && is_drawable(y + h + t - 2)))
        },
        RenderMode::Corners => {
            let radius = t * 2;
            w != 0 && h != 0 && -0x3FFF_FFFF <= t && t <= 0x2000_0000 && i32::MIN as i64 <= x + w && x + w
                <= max && i32::MIN as i64 <= y + h && y + h <= max && (radius < 0 || (is_drawable(x - radius)
                && is_drawable(y - radius) && is_drawable(x + w + radius) && is_drawable(y + h + radius)
                && is_drawable(x + w - radius) && is_drawable(y + h - radius) && is_drawable(x + radius)
                && is_drawable(y + radius)))
        },
    }
}

/// Draws one box: filled, as an outline `thickness` pixels wide that grows
/// outward, or as four corner discs of radius `2 * thickness`.
pub fn render_coordinate(
    image: &mut RgbImage,
    coord: &Coordinate,
    mode: RenderMode,
    color: Rgb,
    thickness: i32,
) -> (r: Result<(), RecError>)
    requires
        can_render(*coord, mode, thickness, old(image).spec_width(), old(image).spec_height()),
    ensures
        r is Ok,
        final(image).spec_width() == old(image).spec_width(),
        final(image).spec_height() == old(image).spec_height(),
        final(image).pixels() == coordinate_drawn(
            old(image).pixels(),
            old(image).spec_width() as u32,
            old(image).spec_height() as u32,
            *coord,
            mode,
            color.0@,
            thickness,
        ),
        mode == RenderMode::Hollow && outlines_exact(*coord, thickness) && old(image).spec_width()
            <= i32::MAX && old(image).spec_height() <= i32::MAX ==> final(image).pixels() == outline_layers(
            old(image).pixels(),
            old(image).spec_width() as int,
            *coord,
            color.0@,
            thickness as int,
        ),
{
    let ghost w0 = image.spec_width();
    let ghost h0 = image.spec_height();
    match mode {
        RenderMode::Filled => {
            draw_filled_rect(image, coord.x, coord.y, coord.w as u32, coord.h as u32, color);
        },
        RenderMode::Hollow => {
            let mut t: i32 = 0;
            while t < thickness
                invariant
                    0 <= t,
                    thickness <= 0 ==> t == 0,
                    thickness > 0 ==> t <= thickness,
                    mode == RenderMode::Hollow,
                    can_render(*coord, mode, thickness, w0, h0),
                    image.spec_width() == w0,
                    image.spec_height() == h0,
                    image.pixels() == hollow_layers(old(image).pixels(), w0 as u32, h0 as u32, *coord, color.0@, t as int),
                    outlines_exact(*coord, thickness) && w0 <= i32::MAX && h0 <= i32::MAX ==> image.pixels()
                        == outline_layers(old(image).pixels(), w0 as int, *coord, color.0@, t as int),
                    old(image).spec_width() == w0,
                    old(image).spec_height() == h0,
                decreases thickness - t,
            {
                draw_hollow_rect(
                    image,
                    coord.x - t,
                    coord.y - t,
                    (coord.w + t * 2) as u32,
                    (coord.h + t * 2) as u32,
                    color,
                );
                t = t + 1;
            }
        },
        RenderMode::Corners => {
            let radius = thickness * 2;
            draw_filled_circle(image, coord.x, coord.y, radius, color);
            draw_filled_circle(image, coord.x + coord.w, coord.y, radius, color);
            draw_filled_circle(image, coord.x + coord.w, coord.y + coord.h, radius, color);
            draw_filled_circle(image, coord.x, coord.y + coord.h, radius, color);
        },
    }
    Ok(())
}

/// The image bytes after the first `n` boxes are drawn in order.
pub open spec fn coordinates_drawn(
    pixels: Seq<u8>,
    width: u32,
    height: u32,
    coords: Seq<Coordinate>,
    mode: RenderMode,
    color: Seq<u8>,
    thickness: i32,
    n: int,
) -> Seq<u8>
    decreases n,
{
    if n <= 0 {
        pixels
    } else {
        coordinate_drawn(
            coordinates_drawn(pixels, width, height, coords, mode, color, thickness, n - 1),
            width,
            height,
            coords[n - 1],
            mode,
            color,
            thickness,
        )
    }
}

/// The mode, colour and thickness that `render_coordinates` uses when none is
/// given: an outline, red, 2 pixels wide.
pub open spec fn mode_or_default(mode: Option<RenderMode>) -> RenderMode {
    match mode {
        Some(m) => m,
        None => RenderMode::Hollow,
    }
}

pub open spec fn color_or_default(color: Option<Rgb>) -> Seq<u8> {
    match color {
        Some(c) => c.0@,
        None => seq![255u8, 0u8, 0u8],
    }
}

pub open spec fn thickness_or_default(thickness: Option<i32>) -> i32 {
    match thickness {
        Some(t) => t,
        None => 2,
    }
}

fn draw_all(
    image: &mut RgbImage,
    coords: &[Coordinate],
    mode: RenderMode,
    color: Rgb,
    thickness: i32,
)
    requires
        forall|i: int|
            0 <= i < coords@.len() ==> can_render(
                #[trigger] coords@[i],
                mode,
                thickness,
                old(image).spec_width(),
                old(image).spec_height(),
            ),
    ensures
        final(image).spec_width() == old(image).spec_width(),
        final(image).spec_height() == old(image).spec_height(),
        final(image).pixels() == coordinates_drawn(
            old(image).pixels(),
            old(image).spec_width() as u32,
            old(image).spec_height() as u32,
            coords@,
            mode,
            color.0@,
            thickness,
            coords@.len() as int,
        ),
{
    let ghost w0 = image.spec_width();
    let ghost h0 = image.spec_height();
    let mut i: usize = 0;
    while i < coords.len()
        invariant
            0 <= i <= coords@.len(),
            image.spec_width() == w0,
            image.spec_height() == h0,
            old(image).spec_width() == w0,
            old(image).spec_height() == h0,
            forall|j: int| 0 <= j < coords@.len() ==> can_render(#[trigger] coords@[j], mode, thickness, w0, h0),
            image.pixels() == coordinates_drawn(
                old(image).pixels(),
                w0 as u32,
                h0 as u32,
                coords@,
                mode,
                color.0@,
                thickness,
                i as int,
            ),
        decreases coords@.len() - i,
    {
        let _ = render_coordinate(image, &coords[i], mode, color, thickness);
        i = i + 1;
    }
}

/// Draws every box, by default as red outlines 2 pixels wide.
pub fn render_coordinates(
    image: &mut RgbImage,
    coords: &[Coordinate],
    mode: Option<RenderMode>,
    color: Option<Rgb>,
    thickness: Option<i32>,
) -> (r: Result<(), RecError>)
    requires
        forall|i: int|
            0 <= i < coords@.len() ==> can_render(
                #[trigger] coords@[i],
                mode_or_default(mode),
                thickness_or_default(thickness),
                old(image).spec_width(),
                old(image).spec_height(),
            ),
    ensures
        r is Ok,
        final(image).spec_width() == old(image).spec_width(),
        final(image).spec_height() == old(image).spec_height(),
        final(image).pixels() == coordinates_drawn(
            old(image).pixels(),
            old(image).spec_width() as u32,
            old(image).spec_height() as u32,
            coords@,
            mode_or_default(mode),
            color_or_default(color),
            thickness_or_default(thickness),
            coords@.len() as int,
        ),
{
    let mode = match mode {
        Some(m) => m,
        None => RenderMode::Hollow,
    };
    let color = match color {
        Some(c) => c,
        None => Colors::red(),
    };
    let thickness = match thickness {
        Some(t) => t,
        None => 2,
    };
    draw_all(image, coords, mode, color, thickness);
    Ok(())
}

/// Draws the assist marks of the left margin, then those of the right margin.
pub fn render_assist_location(
    image: &mut RgbImage,
    assist_location: &AssistLocation,
    mode: RenderMode,
    color: Rgb,
    thickness: i32,
) -> (r: Result<(), RecError>)
    requires
        forall|i: int|
            0 <= i < assist_location.left@.len() ==> can_render(
                #[trigger] assist_location.left@[i],
                mode,
                thickness,
                old(image).spec_width(),
                old(image).spec_height(),
            ),
        forall|i: int|
            0 <= i < assist_location.right@.len() ==> can_render(
                #[trigger] assist_location.right@[i],
                mode,
                thickness,
                old(image).spec_width(),
                old(image).spec_height(),
            ),
    ensures
        r is Ok,
        final(image).spec_width() == old(image).spec_width(),
        final(image).spec_height() == old(image).spec_height(),
        final(image).pixels() == coordinates_drawn(
            coordinates_drawn(
                old(image).pixels(),
                old(image).spec_width() as u32,
                old(image).spec_height() as u32,
                assist_location.left@,
                mode,
                color.0@,
                thickness,
                assist_location.left@.len() as int,
            ),
            old(image).spec_width() as u32,
            old(image).spec_height() as u32,
            assist_location.right@,
            mode,
            color.0@,
            thickness,
            assist_location.right@.len() as int,
        ),
{
    draw_all(image, assist_location.left.as_slice(), mode, color, thickness);
    draw_all(image, assist_location.right.as_slice(), mode, color, thickness);
    Ok(())
}

/// Whether the output picture outlines option `index` of an item: every
/// option of a location item, and the marked options of any other item.
pub fn option_drawn(rec_type: RecType, marks: &Vec<bool>, index: usize) -> (r: bool)
    requires
        rec_type != RecType::Location ==> index < marks@.len(),
    ensures
        r == (rec_type == RecType::Location || marks@[index as int]),
{
    match rec_type {
        RecType::Location => true,
        _ => marks[index],
    }
}

} // verus!
