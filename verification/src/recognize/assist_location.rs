use vstd::prelude::*;
use vstd::relations::{sorted_by, total_ordering};
use crate::config::AssistLocationPageConfig;
use crate::error::RecError;
use crate::models::{lemma_filter_none, AssistLocation, Coordinate};
use crate::myutils::image::{contours_of, find_contour_points, is_crop, GrayImage};
use crate::recognize::align::{filter_by_extra_indices, half_toward_zero, kept_upto};

verus! {

/// Finds the assist marks of a page.
pub struct AssistLocationModule;

/// Order of `i32` values.
pub open spec fn i32_le() -> spec_fn(i32, i32) -> bool {
    |a: i32, b: i32| a <= b
}

/// The `x` positions of the boxes, in their order.
pub open spec fn box_xs(s: Seq<Coordinate>) -> Seq<i32> {
    s.map_values(|c: Coordinate| c.x)
}

/// The `x` positions of the boxes, in increasing order.
pub open spec fn sorted_xs(s: Seq<Coordinate>) -> Seq<i32> {
    box_xs(s).sort_by(i32_le())
}

/// The median of the `x` positions: the middle one, or for an even count the
/// two middle ones added and halved (rounding toward zero).
pub open spec fn median_x(s: Seq<Coordinate>) -> int {
    let xs = sorted_xs(s);
    let n = xs.len() as int;
    if n % 2 == 0 {
        half_toward_zero(xs[n / 2 - 1] + xs[n / 2])
    } else {
        xs[n / 2] as int
    }
}

/// The box lies within `threshold` of `median` horizontally.
pub open spec fn near_median(median: int, threshold: int) -> spec_fn(Coordinate) -> bool {
    |c: Coordinate| -threshold <= c.x - median <= threshold
}

/// Filtering by the median `x` computes without overflow: the two middle
/// positions add up within `i32`, and every distance to the median fits.
pub open spec fn x_filter_fits(s: Seq<Coordinate>) -> bool {
    &&& s.len() > 0 ==> {
        let xs = sorted_xs(s);
        let n = xs.len() as int;
        n % 2 == 0 ==> i32::MIN <= xs[n / 2 - 1] + xs[n / 2] <= i32::MAX
    }
    &&& forall|i: int| 0 <= i < s.len() ==> -i32::MAX <= #[trigger] s[i].x - median_x(s) <= i32::MAX
}

proof fn lemma_i32_le_total()
    ensures
        total_ordering(i32_le()),
{
}

/// Sorts integers in increasing order.
fn sort_i32(v: &mut Vec<i32>)
    ensures
        sorted_by(final(v)@, i32_le()),
        final(v)@.to_multiset() == old(v)@.to_multiset(),
{
    let ghost orig = v@;
    let n = v.len();
    let mut sorted: Vec<i32> = Vec::new();
    let mut i: usize = 0;
    assert(orig.take(0) =~= sorted@);
    while i < n
        invariant
            n == orig.len(),
            v@ == orig,
            0 <= i <= n,
            sorted_by(sorted@, i32_le()),
            sorted@.to_multiset() == orig.take(i as int).to_multiset(),
        decreases n - i,
    {
        let e = v[i];
        let mut pos: usize = 0;
        while pos < sorted.len() && sorted[pos] <= e
            invariant
                0 <= pos <= sorted.len(),
                forall|j: int| 0 <= j < pos ==> #[trigger] sorted@[j] <= e,
            decreases sorted.len() - pos,
        {
            pos = pos + 1;
        }
        let ghost before = sorted@;
        proof {
            assert forall|j: int| pos <= j < before.len() implies e < #[trigger] before[j] by {
                assert(e < before[pos as int]);
                assert(i32_le()(before[pos as int], before[j]) || j == pos);
            }
        }
        sorted.insert(pos, e);
        proof {
            let a = before.subrange(0, pos as int);
            let b = before.subrange(pos as int, before.len() as int);
            assert(before =~= a + b);
            assert(sorted@ =~= a.push(e) + b);
            assert(orig.take(i + 1) =~= orig.take(i as int).push(e));
            assert forall|p: int, q: int| 0 <= p < q < sorted@.len() implies #[trigger] i32_le()(
                sorted@[p],
                sorted@[q],
            ) by {
                if q < pos {
                    assert(i32_le()(before[p], before[q]));
                } else if q == pos {
                    assert(sorted@[p] == before[p]);
                } else if p == pos {
                    assert(sorted@[q] == before[q - 1]);
                } else if p < pos {
                    assert(sorted@[q] == before[q - 1]);
                    assert(sorted@[p] == before[p]);
                } else {
                    assert(sorted@[q] == before[q - 1]);
                    assert(sorted@[p] == before[p - 1]);
                    assert(i32_le()(before[p - 1], before[q - 1]));
                }
            }
            broadcast use vstd::seq_lib::group_to_multiset_ensures;

            vstd::seq_lib::lemma_multiset_commutative(a.push(e), b);
            vstd::seq_lib::lemma_multiset_commutative(a, b);
            assert(sorted@.to_multiset() =~= before.to_multiset().insert(e));
        }
        i = i + 1;
    }
    proof {
        assert(orig.take(n as int) =~= orig);
    }
    *v = sorted;
}

/// The `x` positions of the boxes in increasing order.
fn sorted_x_values(boxes: &Vec<Coordinate>) -> (r: Vec<i32>)
    ensures
        r@ == sorted_xs(boxes@),
        r@.len() == boxes@.len(),
{
    let ghost s = boxes@;
    let n = boxes.len();
    let mut x_values: Vec<i32> = Vec::new();
    let mut i: usize = 0;
    while i < n
        invariant
            n == s.len(),
            s == boxes@,
            0 <= i <= n,
            x_values@ == box_xs(s).take(i as int),
        decreases n - i,
    {
        x_values.push(boxes[i].x);
        i = i + 1;
        assert(x_values@ =~= box_xs(s).take(i as int));
    }
    assert(x_values@ =~= box_xs(s));
    let ghost xs0 = x_values@;
    sort_i32(&mut x_values);
    proof {
        lemma_i32_le_total();
        xs0.lemma_sort_by_ensures(i32_le());
        vstd::seq_lib::lemma_sorted_unique(x_values@, xs0.sort_by(i32_le()), i32_le());
        broadcast use vstd::seq_lib::group_to_multiset_ensures;

        assert(x_values@.to_multiset().len() == xs0.to_multiset().len());
    }
    x_values
}

/// Whether filtering the boxes by their median `x` computes without overflow;
/// see `x_filter_fits`.
fn x_filter_computable(boxes: &Vec<Coordinate>) -> (r: bool)
    ensures
        r == x_filter_fits(boxes@),
{
    let ghost s = boxes@;
    if boxes.len() == 0 {
        return true;
    }
    let xs = sorted_x_values(boxes);
    let n = xs.len();
    let median: i64 = if n % 2 == 0 {
        let mid = n / 2;
        let sum = xs[mid - 1] as i64 + xs[mid] as i64;
        if sum < i32::MIN as i64 || sum > i32::MAX as i64 {
            return false;
        }
        sum / 2
    } else {
        xs[n / 2] as i64
    };
    assert(median == median_x(s));
    let mut i: usize = 0;
    while i < n
        invariant
            n == s.len(),
            s == boxes@,
            0 <= i <= n,
            median == median_x(s),
            forall|j: int| 0 <= j < i ==> -i32::MAX <= #[trigger] s[j].x - median_x(s) <= i32::MAX,
        decreases n - i,
    {
        let d = boxes[i].x as i64 - median;
        if d < -(i32::MAX as i64) || d > i32::MAX as i64 {
            return false;
        }
        i = i + 1;
    }
    true
}

impl AssistLocationModule {
    pub fn new() -> (r: Self) {
        AssistLocationModule
    }

    /// Keeps, in order, the boxes whose `x` lies within
    /// `assist_point_x_median_diff` of the median `x`; none when there are
    /// no boxes.
    pub fn filter_assist_location_by_x(assist_location: &Vec<Coordinate>) -> (r: Vec<Coordinate>)
        requires
            x_filter_fits(assist_location@),
        ensures
            r@ == assist_location@.filter(near_median(median_x(assist_location@), 18)),
    {
        let ghost s = assist_location@;
        if assist_location.len() == 0 {
            proof {
                reveal(Seq::filter);
                assert(s.filter(near_median(median_x(s), 18)) =~= Seq::<Coordinate>::empty());
            }
            return Vec::new();
        }
        let n = assist_location.len();
        let x_values = sorted_x_values(assist_location);
        let median = if x_values.len() % 2 == 0 {
            let mid = x_values.len() / 2;
            (x_values[mid - 1] + x_values[mid]) / 2
        } else {
            x_values[x_values.len() / 2]
        };
        assert(median == median_x(s));
        let threshold = AssistLocationPageConfig::assist_point_x_median_diff();
        let ghost keep = near_median(median_x(s), 18);
        let mut r: Vec<Coordinate> = Vec::new();
        let mut i: usize = 0;
        while i < n
            invariant
                n == s.len(),
                s == assist_location@,
                0 <= i <= n,
                median == median_x(s),
                threshold == 18,
                keep == near_median(median_x(s), 18),
                forall|j: int| 0 <= j < n ==> -i32::MAX <= #[trigger] s[j].x - median_x(s) <= i32::MAX,
                r@ == s.take(i as int).filter(keep),
            decreases n - i,
        {
            let c = assist_location[i];
            assert(-i32::MAX <= s[i as int].x - median_x(s) <= i32::MAX);
            let d = c.x - median;
            let diff = if d < 0 {
                -d
            } else {
                d
            };
            proof {
                assert(s.take(i + 1) =~= s.take(i as int).push(c));
                s.take(i as int).lemma_filter_push(c, keep);
            }
            if diff <= threshold {
                r.push(c);
            }
            i = i + 1;
        }
        assert(s.take(n as int) =~= s);
        r
    }
}

/// The smallest value, or `u32::MAX` when there is none.
pub open spec fn min_or_max(s: Seq<u32>) -> u32
    decreases s.len(),
{
    if s.len() == 0 {
        u32::MAX
    } else {
        let m = min_or_max(s.drop_last());
        if s.last() < m {
            s.last()
        } else {
            m
        }
    }
}

/// The largest value, or 0 when there is none.
pub open spec fn max_or_zero(s: Seq<u32>) -> u32
    decreases s.len(),
{
    if s.len() == 0 {
        0
    } else {
        let m = max_or_zero(s.drop_last());
        if s.last() > m {
            s.last()
        } else {
            m
        }
    }
}

pub open spec fn point_xs(points: Seq<(u32, u32)>) -> Seq<u32> {
    points.map_values(|p: (u32, u32)| p.0)
}

pub open spec fn point_ys(points: Seq<(u32, u32)>) -> Seq<u32> {
    points.map_values(|p: (u32, u32)| p.1)
}

proof fn lemma_min_max_props(s: Seq<u32>)
    ensures
        forall|i: int| 0 <= i < s.len() ==> min_or_max(s) <= #[trigger] s[i] && s[i] <= max_or_zero(s),
        s.len() > 0 ==> s.contains(min_or_max(s)) && s.contains(max_or_zero(s)),
    decreases s.len(),
{
    if s.len() > 0 {
        lemma_min_max_props(s.drop_last());
        assert forall|i: int| 0 <= i < s.len() implies min_or_max(s) <= #[trigger] s[i] && s[i]
            <= max_or_zero(s) by {
            if i < s.len() - 1 {
                assert(s[i] == s.drop_last()[i]);
            }
        }
        if s.len() > 1 {
            let m = min_or_max(s.drop_last());
            let mm = max_or_zero(s.drop_last());
            let a = choose|a: int| 0 <= a < s.drop_last().len() && s.drop_last()[a] == m;
            let b = choose|b: int| 0 <= b < s.drop_last().len() && s.drop_last()[b] == mm;
            assert(s[a] == m);
            assert(s[b] == mm);
        } else {
            assert(s[0] == s.last());
            assert(s.drop_last().len() == 0);
        }
        assert(s[s.len() - 1] == s.last());
    }
}

/// The bounding box of contour points as `(min_x, min_y, max_x, max_y)`, each
/// converted to `i32` by wrapping; for no points the minima are `u32::MAX`
/// (which wraps to -1) and the maxima 0.
pub fn get_contour_bounds(points: &[(u32, u32)]) -> (r: (i32, i32, i32, i32))
    ensures
        r.0 == min_or_max(point_xs(points@)) as i32,
        r.1 == min_or_max(point_ys(points@)) as i32,
        r.2 == max_or_zero(point_xs(points@)) as i32,
        r.3 == max_or_zero(point_ys(points@)) as i32,
        forall|i: int|
            0 <= i < points@.len() ==> min_or_max(point_xs(points@)) <= #[trigger] points@[i].0
                <= max_or_zero(point_xs(points@)) && min_or_max(point_ys(points@)) <= points@[i].1
                <= max_or_zero(point_ys(points@)),
{
    let mut min_x = u32::MAX;
    let mut min_y = u32::MAX;
    let mut max_x = 0u32;
    let mut max_y = 0u32;
    let mut i: usize = 0;
    while i < points.len()
        invariant
            0 <= i <= points@.len(),
            min_x == min_or_max(point_xs(points@).take(i as int)),
            min_y == min_or_max(point_ys(points@).take(i as int)),
            max_x == max_or_zero(point_xs(points@).take(i as int)),
            max_y == max_or_zero(point_ys(points@).take(i as int)),
        decreases points@.len() - i,
    {
        let p = points[i];
        proof {
            assert(point_xs(points@).take(i + 1).drop_last() =~= point_xs(points@).take(i as int));
            assert(point_ys(points@).take(i + 1).drop_last() =~= point_ys(points@).take(i as int));
        }
        min_x = if p.0 < min_x {
            p.0
        } else {
            min_x
        };
        min_y = if p.1 < min_y {
            p.1
        } else {
            min_y
        };
        max_x = if p.0 > max_x {
            p.0
        } else {
            max_x
        };
        max_y = if p.1 > max_y {
            p.1
        } else {
            max_y
        };
        i = i + 1;
    }
    proof {
        assert(point_xs(points@).take(points@.len() as int) =~= point_xs(points@));
        assert(point_ys(points@).take(points@.len() as int) =~= point_ys(points@));
        lemma_min_max_props(point_xs(points@));
        lemma_min_max_props(point_ys(points@));
        assert forall|i: int| 0 <= i < points@.len() implies point_xs(points@)[i] == #[trigger] points@[i].0
            && point_ys(points@)[i] == points@[i].1 by {}
    }
    (min_x as i32, min_y as i32, max_x as i32, max_y as i32)
}

/// The crop window of the search area `c` in an image `iw` by `ih` pixels, as
/// `(x, y, width, height)`: a negative start reads as 0, and each size is the
/// area's own, limited to what lies right of or below the start, taken as
/// `u32` (a negative size wraps around, and cropping then clamps it).
pub open spec fn search_window(c: Coordinate, iw: int, ih: int) -> (u32, u32, u32, u32) {
    let x0: int = if c.x < 0 {
        0
    } else {
        c.x as int
    };
    let y0: int = if c.y < 0 {
        0
    } else {
        c.y as int
    };
    let w: int = if c.w < iw - x0 {
        c.w as int
    } else {
        iw - x0
    };
    let h: int = if c.h < ih - y0 {
        c.h as int
    } else {
        ih - y0
    };
    (x0 as u32, y0 as u32, w as i32 as u32, h as i32 as u32)
}

/// The bounding box of a contour: the corner at its smallest `x` and `y`, the
/// sides the spans of its coordinates.
pub open spec fn contour_box(pts: Seq<(u32, u32)>) -> Coordinate {
    let x0 = min_or_max(point_xs(pts)) as int;
    let y0 = min_or_max(point_ys(pts)) as int;
    Coordinate {
        x: x0 as i32,
        y: y0 as i32,
        w: (max_or_zero(point_xs(pts)) - x0) as i32,
        h: (max_or_zero(point_ys(pts)) - y0) as i32,
    }
}

/// A box of the size of an assist mark: both sides from 8 to 15 pixels, sides
/// that differ by at most 4, and an area from 80 to 170.
pub open spec fn assist_size_ok(c: Coordinate) -> bool {
    &&& 8 <= c.w <= 15
    &&& 8 <= c.h <= 15
    &&& -4 <= c.w - c.h <= 4
    &&& 80 <= c.w * c.h <= 170
}

/// The boxes of the contours of an image that have the size of an assist
/// mark, in contour order.
pub open spec fn assist_boxes(contours: Seq<Seq<(u32, u32)>>) -> Seq<Coordinate> {
    contours.map_values(|pts: Seq<(u32, u32)>| contour_box(pts)).filter(
        |c: Coordinate| assist_size_ok(c),
    )
}

/// Every box kept as an assist mark has both sides from 8 to 15 pixels,
/// sides that differ by at most 4 and an area from 80 to 170; and the box of
/// every contour that meets these bounds is kept.
pub proof fn assist_boxes_law(contours: Seq<Seq<(u32, u32)>>)
    ensures
        forall|i: int|
            0 <= i < assist_boxes(contours).len() ==> {
                let c = #[trigger] assist_boxes(contours)[i];
                &&& 8 <= c.w <= 15
                &&& 8 <= c.h <= 15
                &&& -4 <= c.w - c.h <= 4
                &&& 80 <= c.w * c.h <= 170
            },
        forall|j: int|
            0 <= j < contours.len() ==> {
                let c = contour_box(#[trigger] contours[j]);
                (8 <= c.w <= 15 && 8 <= c.h <= 15 && -4 <= c.w - c.h <= 4 && 80 <= c.w * c.h <= 170)
                    ==> assist_boxes(contours).contains(c)
            },
{
    broadcast use Seq::lemma_filter_pred, Seq::lemma_filter_contains;

    let boxes = contours.map_values(|pts: Seq<(u32, u32)>| contour_box(pts));
    let ok = |c: Coordinate| assist_size_ok(c);
    assert forall|i: int| 0 <= i < assist_boxes(contours).len() implies {
        let c = #[trigger] assist_boxes(contours)[i];
        &&& 8 <= c.w <= 15
        &&& 8 <= c.h <= 15
        &&& -4 <= c.w - c.h <= 4
        &&& 80 <= c.w * c.h <= 170
    } by {
        assert(ok(boxes.filter(ok)[i]));
    }
    assert forall|j: int| 0 <= j < contours.len() implies {
        let c = contour_box(#[trigger] contours[j]);
        (8 <= c.w <= 15 && 8 <= c.h <= 15 && -4 <= c.w - c.h <= 4 && 80 <= c.w * c.h <= 170)
            ==> assist_boxes(contours).contains(c)
    } by {
        let c = contour_box(contours[j]);
        assert(boxes[j] == c);
        if 8 <= c.w <= 15 && 8 <= c.h <= 15 && -4 <= c.w - c.h <= 4 && 80 <= c.w * c.h <= 170 {
            assert(ok(boxes[j]));
            assert(boxes.filter(ok).contains(boxes[j]));
        }
    }
}

impl AssistLocationModule {
    /// Crops the search area `coordinate` out of the closed image and lists,
    /// in contour order, the bounding boxes of the contours in the crop that
    /// have the size of an assist mark, in the crop's own coordinates.
    /// Returns the crop and the boxes.
    pub fn assist_mark_candidates(closed: &GrayImage, coordinate: &Coordinate) -> (r: (
        GrayImage,
        Vec<Coordinate>,
    ))
        requires
            closed.spec_width() <= i32::MAX,
            closed.spec_height() <= i32::MAX,
        ensures
            ({
                let win = search_window(
                    *coordinate,
                    closed.spec_width() as int,
                    closed.spec_height() as int,
                );
                is_crop(r.0, *closed, win.0 as int, win.1 as int, win.2 as int, win.3 as int)
            }),
            r.1@ == assist_boxes(
                contours_of(r.0.spec_width() as u32, r.0.spec_height() as u32, r.0.pixels()),
            ),
            forall|i: int|
                0 <= i < r.1@.len() ==> 8 <= #[trigger] r.1@[i].w <= 15 && 8 <= r.1@[i].h <= 15 && -4
                    <= r.1@[i].w - r.1@[i].h <= 4 && 80 <= r.1@[i].w * r.1@[i].h <= 170,
            forall|i: int|
                0 <= i < r.1@.len() ==> 0 <= #[trigger] r.1@[i].x && r.1@[i].x + r.1@[i].w
                    < r.0.spec_width() && 0 <= r.1@[i].y && r.1@[i].y + r.1@[i].h < r.0.spec_height(),
    {
        let iw = closed.width() as i32;
        let ih = closed.height() as i32;
        let x0: i32 = if coordinate.x < 0 {
            0
        } else {
            coordinate.x
        };
        let y0: i32 = if coordinate.y < 0 {
            0
        } else {
            coordinate.y
        };
        let rw: i32 = if coordinate.w < iw - x0 {
            coordinate.w
        } else {
            iw - x0
        };
        let rh: i32 = if coordinate.h < ih - y0 {
            coordinate.h
        } else {
            ih - y0
        };
        let roi = closed.crop(x0 as u32, y0 as u32, #[verifier::truncate] (rw as u32), #[verifier::truncate] (rh as u32));
        let contours = find_contour_points(&roi);
        let ghost cs = contours_of(roi.spec_width() as u32, roi.spec_height() as u32, roi.pixels());
        assert(contours.deep_view() =~= cs) by {
            assert forall|j: int| 0 <= j < cs.len() implies #[trigger] contours.deep_view()[j] == cs[j] by {
                assert(contours.deep_view()[j] =~= contours@[j]@);
            }
        }
        let boxes = Self::assist_boxes_in(&contours, roi.width(), roi.height());
        (roi, boxes)
    }
    /// The bounding boxes, in contour order, of the contours that have the
    /// size of an assist mark, for contours whose points lie in a `width` by
    /// `height` image; each box lies inside that image.
    pub fn assist_boxes_in(contours: &Vec<Vec<(u32, u32)>>, width: u32, height: u32) -> (r: Vec<Coordinate>)
        requires
            width <= i32::MAX,
            height <= i32::MAX,
            forall|j: int| 0 <= j < contours@.len() ==> #[trigger] contours@[j]@.len() > 0,
            forall|j: int, k: int|
                0 <= j < contours@.len() && 0 <= k < contours@[j]@.len() ==> #[trigger] contours@[j]@[k].0
                    < width && contours@[j]@[k].1 < height,
        ensures
            r@ == assist_boxes(contours.deep_view()),
            forall|i: int|
                0 <= i < r@.len() ==> 8 <= #[trigger] r@[i].w <= 15 && 8 <= r@[i].h <= 15 && -4 <= r@[i].w
                    - r@[i].h <= 4 && 80 <= r@[i].w * r@[i].h <= 170,
            forall|i: int|
                0 <= i < r@.len() ==> 0 <= #[trigger] r@[i].x && r@[i].x + r@[i].w < width && 0 <= r@[i].y
                    && r@[i].y + r@[i].h < height,
    {
        proof {
            assist_boxes_law(contours.deep_view());
        }
        let ghost cs = contours.deep_view();
        assert forall|j: int| 0 <= j < cs.len() implies #[trigger] contours@[j]@ == cs[j] by {
            assert(cs[j] =~= contours@[j]@);
        }
        let ghost boxes_all = cs.map_values(|pts: Seq<(u32, u32)>| contour_box(pts));
        let ghost ok = |c: Coordinate| assist_size_ok(c);
        let min_size = AssistLocationPageConfig::assist_point_min_size();
        let max_size = AssistLocationPageConfig::assist_point_max_size();
        let whdiff = AssistLocationPageConfig::assist_point_whdiff_max();
        let min_area = AssistLocationPageConfig::assist_point_min_area();
        let max_area = AssistLocationPageConfig::assist_point_max_area();
        let mut boxes: Vec<Coordinate> = Vec::new();
        let mut i: usize = 0;
        while i < contours.len()
            invariant
                contours@.len() == cs.len(),
                forall|j: int| 0 <= j < cs.len() ==> #[trigger] contours@[j]@ == cs[j],
                forall|j: int| 0 <= j < cs.len() ==> #[trigger] contours@[j]@.len() > 0,
                forall|j: int, k: int|
                    0 <= j < cs.len() && 0 <= k < contours@[j]@.len() ==> #[trigger] contours@[j]@[k].0
                        < width && contours@[j]@[k].1 < height,
                width <= i32::MAX,
                height <= i32::MAX,
                boxes_all == cs.map_values(|pts: Seq<(u32, u32)>| contour_box(pts)),
                ok == (|c: Coordinate| assist_size_ok(c)),
                min_size == 8,
                max_size == 15,
                whdiff == 4,
                min_area == 80,
                max_area == 170,
                0 <= i <= cs.len(),
                boxes@ == boxes_all.take(i as int).filter(ok),
                forall|j: int|
                    0 <= j < boxes@.len() ==> 0 <= #[trigger] boxes@[j].x && boxes@[j].x + boxes@[j].w
                        < width && 0 <= boxes@[j].y && boxes@[j].y + boxes@[j].h
                        < height,
            decreases cs.len() - i,
        {
            let pts = contours[i].as_slice();
            let b = get_contour_bounds(pts);
            let ghost p = cs[i as int];
            proof {
                lemma_min_max_props(point_xs(p));
                lemma_min_max_props(point_ys(p));
                let a = choose|a: int| 0 <= a < point_xs(p).len() && point_xs(p)[a] == max_or_zero(point_xs(p));
                let c = choose|c: int| 0 <= c < point_ys(p).len() && point_ys(p)[c] == max_or_zero(point_ys(p));
                assert(point_xs(p)[a] == contours@[i as int]@[a].0);
                assert(point_ys(p)[c] == contours@[i as int]@[c].1);
                assert(contours@[i as int]@[c].0 < width);
            }
            let width = b.2 - b.0;
            let height = b.3 - b.1;
            let c = Coordinate { x: b.0, y: b.1, w: width, h: height };
            assert(c == contour_box(p));
            assert(boxes_all[i as int] == c);
            proof {
                assert(boxes_all.take(i + 1) =~= boxes_all.take(i as int).push(c));
                boxes_all.take(i as int).lemma_filter_push(c, ok);
            }
            if min_size <= width && width <= max_size && min_size <= height && height <= max_size {
                let d = width - height;
                if -whdiff <= d && d <= whdiff {
                    proof {
                        assert(width * height <= 225) by (nonlinear_arith)
                            requires
                                8 <= width <= 15,
                                8 <= height <= 15,
                        ;
                        assert(width * height >= 64) by (nonlinear_arith)
                            requires
                                8 <= width <= 15,
                                8 <= height <= 15,
                        ;
                    }
                    let area = width * height;
                    if min_area <= area && area <= max_area {
                        boxes.push(c);
                    }
                }
            }
            i = i + 1;
        }
        assert(boxes_all.take(cs.len() as int) =~= boxes_all);
        boxes
    }
}

/// The boxes are in increasing order of `y`.
pub open spec fn y_sorted(s: Seq<Coordinate>) -> bool {
    forall|i: int, j: int| 0 <= i < j < s.len() ==> (#[trigger] s[i]).y <= (#[trigger] s[j]).y
}

/// Selects the boxes whose top is at `v`.
pub open spec fn at_top(v: i32) -> spec_fn(Coordinate) -> bool {
    |c: Coordinate| c.y == v
}

/// `after` is `before` sorted stably by `y`: sorted, the same boxes, and the
/// boxes with equal `y` keep their relative order.
pub open spec fn stable_y_sort_of(before: Seq<Coordinate>, after: Seq<Coordinate>) -> bool {
    &&& y_sorted(after)
    &&& after.to_multiset() == before.to_multiset()
    &&& forall|v: i32| #[trigger] after.filter(at_top(v)) == before.filter(at_top(v))
}

/// Sorts boxes stably by `y` (insertion into a sorted prefix); the `x`
/// positions keep their multiset too.
fn sort_by_y(v: &mut Vec<Coordinate>)
    ensures
        stable_y_sort_of(old(v)@, final(v)@),
        box_xs(final(v)@).to_multiset() == box_xs(old(v)@).to_multiset(),
{
    let ghost orig = v@;
    let n = v.len();
    let mut sorted: Vec<Coordinate> = Vec::new();
    let mut i: usize = 0;
    assert(orig.take(0) =~= sorted@);
    assert(box_xs(orig.take(0)) =~= box_xs(sorted@));
    while i < n
        invariant
            n == orig.len(),
            v@ == orig,
            0 <= i <= n,
            y_sorted(sorted@),
            sorted@.to_multiset() == orig.take(i as int).to_multiset(),
            box_xs(sorted@).to_multiset() == box_xs(orig.take(i as int)).to_multiset(),
            forall|k: i32| #[trigger] sorted@.filter(at_top(k)) == orig.take(i as int).filter(at_top(k)),
        decreases n - i,
    {
        let e = v[i];
        let mut pos: usize = 0;
        while pos < sorted.len() && sorted[pos].y <= e.y
            invariant
                0 <= pos <= sorted.len(),
                forall|j: int| 0 <= j < pos ==> (#[trigger] sorted@[j]).y <= e.y,
            decreases sorted.len() - pos,
        {
            pos = pos + 1;
        }
        let ghost before = sorted@;
        proof {
            assert forall|j: int| pos <= j < before.len() implies e.y < (#[trigger] before[j]).y by {
                assert(e.y < before[pos as int].y);
                assert(before[pos as int].y <= before[j].y || j == pos);
            }
        }
        sorted.insert(pos, e);
        proof {
            let a = before.subrange(0, pos as int);
            let b = before.subrange(pos as int, before.len() as int);
            assert(before =~= a + b);
            assert(sorted@ =~= a.push(e) + b);
            assert(orig.take(i + 1) =~= orig.take(i as int).push(e));
            assert forall|p: int, q: int| 0 <= p < q < sorted@.len() implies (#[trigger] sorted@[p]).y
                <= (#[trigger] sorted@[q]).y by {
                if q < pos {
                } else if q == pos {
                    assert(sorted@[p] == before[p]);
                } else if p == pos {
                    assert(sorted@[q] == before[q - 1]);
                } else if p < pos {
                    assert(sorted@[q] == before[q - 1]);
                    assert(sorted@[p] == before[p]);
                } else {
                    assert(sorted@[q] == before[q - 1]);
                    assert(sorted@[p] == before[p - 1]);
                }
            }
            broadcast use vstd::seq_lib::group_to_multiset_ensures;

            vstd::seq_lib::lemma_multiset_commutative(a.push(e), b);
            vstd::seq_lib::lemma_multiset_commutative(a, b);
            assert(sorted@.to_multiset() =~= before.to_multiset().insert(e));
            assert(box_xs(sorted@) =~= box_xs(a).push(e.x) + box_xs(b));
            assert(box_xs(before) =~= box_xs(a) + box_xs(b));
            assert(box_xs(orig.take(i + 1)) =~= box_xs(orig.take(i as int)).push(e.x));
            vstd::seq_lib::lemma_multiset_commutative(box_xs(a).push(e.x), box_xs(b));
            vstd::seq_lib::lemma_multiset_commutative(box_xs(a), box_xs(b));
            assert(box_xs(sorted@).to_multiset() =~= box_xs(before).to_multiset().insert(e.x));
            assert forall|k: i32| #[trigger] sorted@.filter(at_top(k)) == orig.take(i + 1).filter(
                at_top(k),
            ) by {
                let p = at_top(k);
                Seq::filter_distributes_over_add(a.push(e), b, p);
                Seq::filter_distributes_over_add(a, b, p);
                a.lemma_filter_push(e, p);
                orig.take(i as int).lemma_filter_push(e, p);
                if p(e) {
                    assert forall|j: int| 0 <= j < b.len() implies !p(#[trigger] b[j]) by {
                        assert(b[j] == before[pos + j]);
                    }
                    lemma_filter_none(b, p);
                    assert(b.filter(p) + Seq::<Coordinate>::empty() =~= b.filter(p));
                    assert(sorted@.filter(p) =~= a.filter(p).push(e));
                    assert(before.filter(p) =~= a.filter(p));
                }
            }
        }
        i = i + 1;
    }
    proof {
        assert(orig.take(n as int) =~= orig);
    }
    *v = sorted;
}

/// Boxes with the same multiset of `x` positions have the same sorted `x`
/// positions, and so the same median.
proof fn lemma_same_xs(s: Seq<Coordinate>, t: Seq<Coordinate>)
    requires
        box_xs(s).to_multiset() == box_xs(t).to_multiset(),
    ensures
        sorted_xs(s) == sorted_xs(t),
        median_x(s) == median_x(t),
{
    lemma_i32_le_total();
    box_xs(s).lemma_sort_by_ensures(i32_le());
    box_xs(t).lemma_sort_by_ensures(i32_le());
    vstd::seq_lib::lemma_sorted_unique(sorted_xs(s), sorted_xs(t), i32_le());
}

/// The boxes moved right by `dx` and down by `dy`.
pub open spec fn shifted(s: Seq<Coordinate>, dx: int, dy: int) -> Seq<Coordinate> {
    s.map_values(|c: Coordinate| Coordinate { x: (c.x + dx) as i32, y: (c.y + dy) as i32, w: c.w, h: c.h })
}

impl AssistLocationModule {
    /// Places the assist marks found in a crop of the search area
    /// `coordinate` on the page: moves each box by the area's corner, orders
    /// them by `y` (boxes with equal `y` keep their order) and keeps those near
    /// the median `x` of them all.
    pub fn place_assist_points(kept: &Vec<Coordinate>, coordinate: &Coordinate) -> (r: Vec<Coordinate>)
        requires
            forall|i: int|
                0 <= i < kept@.len() ==> i32::MIN <= #[trigger] kept@[i].x + coordinate.x <= i32::MAX
                    && i32::MIN <= kept@[i].y + coordinate.y <= i32::MAX,
            x_filter_fits(shifted(kept@, coordinate.x as int, coordinate.y as int)),
        ensures
            exists|t: Seq<Coordinate>|
                stable_y_sort_of(shifted(kept@, coordinate.x as int, coordinate.y as int), t) && r@
                    == t.filter(
                    near_median(median_x(shifted(kept@, coordinate.x as int, coordinate.y as int)), 18),
                ),
    {
        let ghost s = shifted(kept@, coordinate.x as int, coordinate.y as int);
        let mut points: Vec<Coordinate> = Vec::new();
        let mut i: usize = 0;
        while i < kept.len()
            invariant
                s == shifted(kept@, coordinate.x as int, coordinate.y as int),
                forall|j: int|
                    0 <= j < kept@.len() ==> i32::MIN <= #[trigger] kept@[j].x + coordinate.x
                        <= i32::MAX && i32::MIN <= kept@[j].y + coordinate.y <= i32::MAX,
                0 <= i <= kept@.len(),
                points@ == s.take(i as int),
            decreases kept@.len() - i,
        {
            let c = kept[i];
            assert(i32::MIN <= kept@[i as int].x + coordinate.x <= i32::MAX);
            points.push(Coordinate { x: c.x + coordinate.x, y: c.y + coordinate.y, w: c.w, h: c.h });
            i = i + 1;
            assert(points@ =~= s.take(i as int));
        }
        assert(s.take(kept@.len() as int) =~= s);
        sort_by_y(&mut points);
        let ghost t = points@;
        proof {
            lemma_same_xs(s, t);
            broadcast use vstd::seq_lib::group_to_multiset_ensures;

            assert(t.len() == s.len()) by {
                assert(t.to_multiset().len() == s.to_multiset().len());
            }
            assert forall|j: int| 0 <= j < t.len() implies -i32::MAX <= #[trigger] t[j].x - median_x(t)
                <= i32::MAX by {
                assert(t.to_multiset().count(t[j]) > 0);
                assert(s.contains(t[j]));
                let k = choose|k: int| 0 <= k < s.len() && s[k] == t[j];
                assert(-i32::MAX <= s[k].x - median_x(s) <= i32::MAX);
            }
            assert(x_filter_fits(t));
        }
        let r = Self::filter_assist_location_by_x(&points);
        r
    }

    /// `place_assist_points` where moving the boxes and filtering them by the
    /// median `x` compute without overflow; `None` where they would not.
    pub fn try_place_assist_points(kept: &Vec<Coordinate>, coordinate: &Coordinate) -> (r: Option<
        Vec<Coordinate>,
    >)
        ensures
            r is Some <==> (forall|i: int|
                0 <= i < kept@.len() ==> i32::MIN <= #[trigger] kept@[i].x + coordinate.x <= i32::MAX
                    && i32::MIN <= kept@[i].y + coordinate.y <= i32::MAX) && x_filter_fits(
                shifted(kept@, coordinate.x as int, coordinate.y as int),
            ),
            r matches Some(v) ==> exists|t: Seq<Coordinate>|
                stable_y_sort_of(shifted(kept@, coordinate.x as int, coordinate.y as int), t) && v@
                    == t.filter(
                    near_median(median_x(shifted(kept@, coordinate.x as int, coordinate.y as int)), 18),
                ),
    {
        let ghost s = shifted(kept@, coordinate.x as int, coordinate.y as int);
        let mut moved: Vec<Coordinate> = Vec::new();
        let mut i: usize = 0;
        while i < kept.len()
            invariant
                s == shifted(kept@, coordinate.x as int, coordinate.y as int),
                0 <= i <= kept@.len(),
                forall|j: int|
                    0 <= j < i ==> i32::MIN <= #[trigger] kept@[j].x + coordinate.x <= i32::MAX
                        && i32::MIN <= kept@[j].y + coordinate.y <= i32::MAX,
                moved@ == s.take(i as int),
            decreases kept@.len() - i,
        {
            let c = kept[i];
            let x = c.x as i64 + coordinate.x as i64;
            let y = c.y as i64 + coordinate.y as i64;
            if x < i32::MIN as i64 || x > i32::MAX as i64 || y < i32::MIN as i64 || y > i32::MAX as i64 {
                return None;
            }
            moved.push(Coordinate { x: x as i32, y: y as i32, w: c.w, h: c.h });
            i = i + 1;
            assert(moved@ =~= s.take(i as int));
        }
        assert(s.take(kept@.len() as int) =~= s);
        if !x_filter_computable(&moved) {
            return None;
        }
        Some(Self::place_assist_points(kept, coordinate))
    }
}

/// The assist marks placed on the page lie inside the search area: for a
/// search area with its corner and size not negative, take boxes that lie
/// inside the crop of that area (as `assist_mark_candidates` gives them), and
/// place them as `try_place_assist_points` does where it succeeds; every
/// placed box starts at or right of and below the area's corner and ends
/// strictly before its right and bottom edges.
pub proof fn placed_marks_in_area(
    closed: GrayImage,
    coordinate: Coordinate,
    roi: GrayImage,
    kept: Seq<Coordinate>,
    placed: Seq<Coordinate>,
)
    requires
        coordinate.x >= 0,
        coordinate.y >= 0,
        coordinate.w >= 0,
        coordinate.h >= 0,
        ({
            let win = search_window(coordinate, closed.spec_width() as int, closed.spec_height() as int);
            is_crop(roi, closed, win.0 as int, win.1 as int, win.2 as int, win.3 as int)
        }),
        forall|i: int|
            0 <= i < kept.len() ==> 0 <= #[trigger] kept[i].x && kept[i].x + kept[i].w < roi.spec_width()
                && 0 <= kept[i].y && kept[i].y + kept[i].h < roi.spec_height(),
        forall|i: int|
            0 <= i < kept.len() ==> i32::MIN <= #[trigger] kept[i].x + coordinate.x <= i32::MAX && i32::MIN
                <= kept[i].y + coordinate.y <= i32::MAX,
        exists|t: Seq<Coordinate>|
            stable_y_sort_of(shifted(kept, coordinate.x as int, coordinate.y as int), t) && placed == t.filter(
                near_median(median_x(shifted(kept, coordinate.x as int, coordinate.y as int)), 18),
            ),
    ensures
        forall|j: int|
            0 <= j < placed.len() ==> coordinate.x <= #[trigger] placed[j].x && placed[j].x + placed[j].w
                < coordinate.x + coordinate.w && coordinate.y <= placed[j].y && placed[j].y + placed[j].h
                < coordinate.y + coordinate.h,
{
    broadcast use vstd::seq_lib::group_to_multiset_ensures;

    let s = shifted(kept, coordinate.x as int, coordinate.y as int);
    let p = near_median(median_x(s), 18);
    let t = choose|t: Seq<Coordinate>| stable_y_sort_of(s, t) && placed == t.filter(p);
    let (iw, ih) = (closed.spec_width() as int, closed.spec_height() as int);
    assert(roi.spec_width() <= coordinate.w) by {
        if coordinate.x > iw {
            assert(roi.spec_width() <= 0);
        }
    }
    assert(roi.spec_height() <= coordinate.h) by {
        if coordinate.y > ih {
            assert(roi.spec_height() <= 0);
        }
    }
    assert forall|j: int| 0 <= j < placed.len() implies coordinate.x <= #[trigger] placed[j].x && placed[j].x
        + placed[j].w < coordinate.x + coordinate.w && coordinate.y <= placed[j].y && placed[j].y + placed[j].h
        < coordinate.y + coordinate.h by {
        let c = placed[j];
        assert(t.filter(p).contains(c));
        t.lemma_filter_contains_rev(p, c);
        assert(t.to_multiset().count(c) > 0);
        assert(s.to_multiset().count(c) > 0);
        assert(s.contains(c));
        let k = choose|k: int| 0 <= k < s.len() && s[k] == c;
        assert(i32::MIN <= kept[k].x + coordinate.x <= i32::MAX);
        assert(c.x == kept[k].x + coordinate.x && c.w == kept[k].w);
        assert(c.y == kept[k].y + coordinate.y && c.h == kept[k].h);
    }
}

/// How the assist marks detected in the two margins are matched with the
/// marked ones.
#[derive(Debug, Clone, Copy, PartialEq, Eq, Structural)]
pub enum AlignPlan {
    /// Both margins show the marked number of marks.
    Matched,
    /// The right margin shows too few marks: the marked ones it misses go.
    RightMissing,
    /// The right margin shows too many marks: the extra detections go.
    RightExtra,
    /// The left margin shows too few marks: the marked ones it misses go.
    LeftMissing,
    /// The left margin shows too many marks: the extra detections go.
    LeftExtra,
}

/// The plan for `left` and `right` detected marks where `expected` are marked
/// in each margin: matched when both agree; an error when neither does, or when
/// the one that differs is off by more than 2; otherwise the plan that repairs
/// the margin that differs.
pub open spec fn align_plan_spec(expected: int, left: int, right: int) -> Result<AlignPlan, RecError> {
    let left_match = left == expected;
    let right_match = right == expected;
    let off = if !left_match {
        left - expected
    } else {
        right - expected
    };
    if left_match && right_match {
        Ok(AlignPlan::Matched)
    } else if !left_match && !right_match {
        Err(RecError::AssistColumnsMismatch)
    } else if off > 2 || off < -2 {
        Err(RecError::AssistCountOff)
    } else if left_match {
        if right < expected {
            Ok(AlignPlan::RightMissing)
        } else {
            Ok(AlignPlan::RightExtra)
        }
    } else if left < expected {
        Ok(AlignPlan::LeftMissing)
    } else {
        Ok(AlignPlan::LeftExtra)
    }
}

/// The plan for `left` and `right` detected marks against `expected` marked
/// ones follows the counts: both margins match, the plan is `Matched`;
/// neither matches, no alignment is possible; exactly one matches and the
/// other is off by more than 2, the count is off; otherwise the other margin
/// misses marks when it shows fewer and has extra marks when it shows more.
pub proof fn alignment_plan_law(expected: int, left: int, right: int)
    ensures
        (left == expected && right == expected) ==> align_plan_spec(expected, left, right) == Ok::<AlignPlan, RecError>(AlignPlan::Matched),
        (left != expected && right != expected) ==> align_plan_spec(expected, left, right) == Err::<AlignPlan, RecError>(RecError::AssistColumnsMismatch),
        (left == expected && expected - 2 <= right < expected) ==> align_plan_spec(expected, left, right) == Ok::<AlignPlan, RecError>(AlignPlan::RightMissing),
        (left == expected && expected < right <= expected + 2) ==> align_plan_spec(expected, left, right) == Ok::<AlignPlan, RecError>(AlignPlan::RightExtra),
        (right == expected && expected - 2 <= left < expected) ==> align_plan_spec(expected, left, right) == Ok::<AlignPlan, RecError>(AlignPlan::LeftMissing),
        (right == expected && expected < left <= expected + 2) ==> align_plan_spec(expected, left, right) == Ok::<AlignPlan, RecError>(AlignPlan::LeftExtra),
        (left == expected && (right < expected - 2 || right > expected + 2)) ==> align_plan_spec(expected, left, right) == Err::<AlignPlan, RecError>(RecError::AssistCountOff),
        (right == expected && (left < expected - 2 || left > expected + 2)) ==> align_plan_spec(expected, left, right) == Err::<AlignPlan, RecError>(RecError::AssistCountOff),
{
}

/// Order of `usize` values from large to small.
pub open spec fn usize_ge() -> spec_fn(usize, usize) -> bool {
    |a: usize, b: usize| a >= b
}

/// The positions in decreasing order.
pub open spec fn desc_order(indices: Seq<usize>) -> Seq<usize> {
    indices.sort_by(usize_ge())
}

/// `s` with the elements at the positions of `order` removed one after
/// another, each position counted in what is left at that moment.
pub open spec fn remove_in_turn(s: Seq<Coordinate>, order: Seq<usize>) -> Seq<Coordinate>
    decreases order.len(),
{
    if order.len() == 0 {
        s
    } else {
        remove_in_turn(s.remove(order[0] as int), order.drop_first())
    }
}

/// Each removal in turn finds its position among the `n` elements left.
pub open spec fn removable_in_turn(n: int, order: Seq<usize>) -> bool
    decreases order.len(),
{
    order.len() == 0 || (order[0] < n && removable_in_turn(n - 1, order.drop_first()))
}

proof fn lemma_usize_ge_total()
    ensures
        total_ordering(usize_ge()),
{
}

/// Sorts `usize` values from large to small.
fn sort_desc(v: &mut Vec<usize>)
    ensures
        final(v)@ == desc_order(old(v)@),
{
    let ghost orig = v@;
    let n = v.len();
    let mut sorted: Vec<usize> = Vec::new();
    let mut i: usize = 0;
    assert(orig.take(0) =~= sorted@);
    while i < n
        invariant
            n == orig.len(),
            v@ == orig,
            0 <= i <= n,
            sorted_by(sorted@, usize_ge()),
            sorted@.to_multiset() == orig.take(i as int).to_multiset(),
        decreases n - i,
    {
        let e = v[i];
        let mut pos: usize = 0;
        while pos < sorted.len() && sorted[pos] >= e
            invariant
                0 <= pos <= sorted.len(),
                forall|j: int| 0 <= j < pos ==> #[trigger] sorted@[j] >= e,
            decreases sorted.len() - pos,
        {
            pos = pos + 1;
        }
        let ghost before = sorted@;
        proof {
            assert forall|j: int| pos <= j < before.len() implies #[trigger] before[j] < e by {
                assert(before[pos as int] < e);
                assert(usize_ge()(before[pos as int], before[j]) || j == pos);
            }
        }
        sorted.insert(pos, e);
        proof {
            let a = before.subrange(0, pos as int);
            let b = before.subrange(pos as int, before.len() as int);
            assert(before =~= a + b);
            assert(sorted@ =~= a.push(e) + b);
            assert(orig.take(i + 1) =~= orig.take(i as int).push(e));
            assert forall|p: int, q: int| 0 <= p < q < sorted@.len() implies #[trigger] usize_ge()(
                sorted@[p],
                sorted@[q],
            ) by {
                if q < pos {
                    assert(usize_ge()(before[p], before[q]));
                } else if q == pos {
                    assert(sorted@[p] == before[p]);
                } else if p == pos {
                    assert(sorted@[q] == before[q - 1]);
                } else if p < pos {
                    assert(sorted@[q] == before[q - 1]);
                    assert(sorted@[p] == before[p]);
                } else {
                    assert(sorted@[q] == before[q - 1]);
                    assert(sorted@[p] == before[p - 1]);
                    assert(usize_ge()(before[p - 1], before[q - 1]));
                }
            }
            broadcast use vstd::seq_lib::group_to_multiset_ensures;

            vstd::seq_lib::lemma_multiset_commutative(a.push(e), b);
            vstd::seq_lib::lemma_multiset_commutative(a, b);
            assert(sorted@.to_multiset() =~= before.to_multiset().insert(e));
        }
        i = i + 1;
    }
    proof {
        assert(orig.take(n as int) =~= orig);
        lemma_usize_ge_total();
        orig.lemma_sort_by_ensures(usize_ge());
        vstd::seq_lib::lemma_sorted_unique(sorted@, desc_order(orig), usize_ge());
    }
    *v = sorted;
}

/// The kept boxes up to `i` depend only on which positions below `i` are
/// listed.
proof fn lemma_kept_upto_same_listed(s: Seq<Coordinate>, e1: Seq<usize>, e2: Seq<usize>, i: int)
    requires
        forall|u: usize|
            #![trigger e1.contains(u)]
            #![trigger e2.contains(u)]
            (u as int) < i ==> (e1.contains(u) <==> e2.contains(u)),
    ensures
        kept_upto(s, e1, i) == kept_upto(s, e2, i),
    decreases i,
{
    if i > 0 {
        lemma_kept_upto_same_listed(s, e1, e2, i - 1);
    }
}

/// With `d0` removed from `s` and `d0` listed on top of `rest` (all below
/// `d0`), the kept boxes agree: below `d0` position for position, and from
/// `d0` on shifted by one.
proof fn lemma_kept_after_remove(s: Seq<Coordinate>, d: Seq<usize>, i: int)
    requires
        d.len() > 0,
        d[0] < s.len(),
        s.len() <= usize::MAX,
        forall|k: int| 1 <= k < d.len() ==> #[trigger] d[k] < d[0],
        0 <= i <= s.len() - 1,
    ensures
        i <= d[0] ==> kept_upto(s.remove(d[0] as int), d.drop_first(), i) == kept_upto(s, d, i),
        i >= d[0] ==> kept_upto(s.remove(d[0] as int), d.drop_first(), i) == kept_upto(s, d, i + 1),
    decreases i,
{
    let d0 = d[0] as int;
    let rest = d.drop_first();
    let t = s.remove(d0);
    if i > 0 {
        lemma_kept_after_remove(s, d, i - 1);
        let j = i - 1;
        if i <= d0 {
            if i == d0 {
                assert(d.contains(d0 as usize)) by {
                    assert(d[0] == d0 as usize);
                }
                assert(kept_upto(s, d, d0 + 1) == kept_upto(s, d, d0));
            }
            assert(t[j] == s[j]);
            assert(d.contains(j as usize) <==> rest.contains(j as usize)) by {
                if d.contains(j as usize) {
                    let k = choose|k: int| 0 <= k < d.len() && d[k] == j as usize;
                    assert(k != 0);
                    assert(rest[k - 1] == d[k]);
                }
                if rest.contains(j as usize) {
                    let k = choose|k: int| 0 <= k < rest.len() && rest[k] == j as usize;
                    assert(d[k + 1] == rest[k]);
                }
            }
        } else {
            assert(t[j] == s[j + 1]);
            assert(!rest.contains(j as usize)) by {
                if rest.contains(j as usize) {
                    let k = choose|k: int| 0 <= k < rest.len() && rest[k] == j as usize;
                    assert(d[k + 1] == rest[k]);
                }
            }
            assert(!d.contains((j + 1) as usize)) by {
                if d.contains((j + 1) as usize) {
                    let k = choose|k: int| 0 <= k < d.len() && d[k] == (j + 1) as usize;
                    if k > 0 {
                        assert(d[k] < d[0]);
                    }
                }
            }
            if i - 1 == d0 {
                assert(d.contains(d0 as usize)) by {
                    assert(d[0] == d0 as usize);
                }
                assert(kept_upto(s, d, d0 + 1) == kept_upto(s, d, d0));
            }
        }
    } else {
        if d0 == 0 {
            assert(d.contains(0usize)) by {
                assert(d[0] == 0usize);
            }
            assert(kept_upto(s, d, 1) == kept_upto(s, d, 0));
        }
    }
}

/// Removing the positions of a decreasing list, all inside `s`, one after
/// another keeps exactly the boxes at the unlisted positions.
proof fn lemma_remove_decreasing(s: Seq<Coordinate>, d: Seq<usize>)
    requires
        forall|a: int, b: int| 0 <= a < b < d.len() ==> #[trigger] d[a] > #[trigger] d[b],
        forall|k: int| 0 <= k < d.len() ==> #[trigger] d[k] < s.len(),
        s.len() <= usize::MAX,
    ensures
        removable_in_turn(s.len() as int, d),
        remove_in_turn(s, d) == kept_upto(s, d, s.len() as int),
    decreases d.len(),
{
    if d.len() == 0 {
        assert(kept_upto(s, d, s.len() as int) =~= s) by {
            lemma_kept_upto_none(s, d, s.len() as int);
        }
    } else {
        let d0 = d[0] as int;
        let rest = d.drop_first();
        let t = s.remove(d0);
        assert forall|a: int, b: int| 0 <= a < b < rest.len() implies #[trigger] rest[a] > #[trigger] rest[b] by {
            assert(rest[a] == d[a + 1] && rest[b] == d[b + 1]);
        }
        assert forall|k: int| 0 <= k < rest.len() implies #[trigger] rest[k] < t.len() by {
            assert(rest[k] == d[k + 1]);
            assert(d[0] > d[k + 1]);
        }
        lemma_remove_decreasing(t, rest);
        assert forall|k: int| 1 <= k < d.len() implies #[trigger] d[k] < d[0] by {
            assert(d[0] > d[k]);
        }
        lemma_kept_after_remove(s, d, s.len() - 1);
    }
}

/// With nothing listed, the kept boxes up to `i` are the first `i`.
proof fn lemma_kept_upto_none(s: Seq<Coordinate>, e: Seq<usize>, i: int)
    requires
        e.len() == 0,
        0 <= i <= s.len(),
    ensures
        kept_upto(s, e, i) == s.take(i),
    decreases i,
{
    if i > 0 {
        lemma_kept_upto_none(s, e, i - 1);
        assert(s.take(i) =~= s.take(i - 1).push(s[i - 1]));
    } else {
        assert(s.take(0) =~= Seq::<Coordinate>::empty());
    }
}

/// Removing distinct positions inside `s`, the largest first, never runs out of
/// boxes, and leaves exactly the boxes at the other positions, in order.
pub proof fn remove_distinct_law(s: Seq<Coordinate>, indices: Seq<usize>)
    requires
        indices.no_duplicates(),
        forall|k: int| 0 <= k < indices.len() ==> #[trigger] indices[k] < s.len(),
        s.len() <= usize::MAX,
    ensures
        removable_in_turn(s.len() as int, desc_order(indices)),
        remove_in_turn(s, desc_order(indices)) == kept_upto(s, indices, s.len() as int),
{
    broadcast use vstd::seq_lib::group_to_multiset_ensures;

    let d = desc_order(indices);
    lemma_usize_ge_total();
    indices.lemma_sort_by_ensures(usize_ge());
    indices.lemma_multiset_has_no_duplicates();
    d.lemma_multiset_has_no_duplicates_conv();
    assert forall|k: int| 0 <= k < d.len() implies #[trigger] d[k] < s.len() by {
        assert(d.to_multiset().count(d[k]) > 0);
        assert(indices.contains(d[k]));
    }
    assert forall|a: int, b: int| 0 <= a < b < d.len() implies #[trigger] d[a] > #[trigger] d[b] by {
        assert(usize_ge()(d[a], d[b]));
        assert(d[a] != d[b]);
    }
    lemma_remove_decreasing(s, d);
    assert forall|u: usize|
        #![trigger d.contains(u)]
        #![trigger indices.contains(u)]
        (u as int) < s.len() implies (d.contains(u) <==> indices.contains(u)) by {
        assert(d.contains(u) <==> d.to_multiset().count(u) > 0);
        assert(indices.contains(u) <==> indices.to_multiset().count(u) > 0);
    }
    lemma_kept_upto_same_listed(s, d, indices, s.len() as int);
}

/// Removes the boxes at the given positions: the positions are taken from
/// large to small and each box is removed in turn.
fn remove_marks(column: &mut Vec<Coordinate>, indices: &[usize])
    requires
        removable_in_turn(old(column)@.len() as int, desc_order(indices@)),
    ensures
        final(column)@ == remove_in_turn(old(column)@, desc_order(indices@)),
{
    let mut order: Vec<usize> = Vec::new();
    let mut i: usize = 0;
    while i < indices.len()
        invariant
            0 <= i <= indices@.len(),
            order@ == indices@.take(i as int),
        decreases indices@.len() - i,
    {
        order.push(indices[i]);
        i = i + 1;
        assert(order@ =~= indices@.take(i as int));
    }
    assert(indices@.take(indices@.len() as int) =~= indices@);
    sort_desc(&mut order);
    let ghost all = desc_order(indices@);
    let ghost start = column@;
    assert(all.skip(0) =~= all);
    let mut k: usize = 0;
    while k < order.len()
        invariant
            order@ == all,
            0 <= k <= all.len(),
            removable_in_turn(column@.len() as int, all.skip(k as int)),
            remove_in_turn(column@, all.skip(k as int)) == remove_in_turn(start, all),
        decreases all.len() - k,
    {
        let idx = order[k];
        assert(all.skip(k as int)[0] == idx);
        assert(all.skip(k as int).drop_first() =~= all.skip(k + 1));
        column.remove(idx);
        k = k + 1;
    }
    assert(all.skip(all.len() as int) =~= Seq::<usize>::empty());
}

impl AssistLocationModule {
    /// Decides how to align the detected assist marks with the `expected`
    /// marked ones per margin; see `align_plan_spec`.
    pub fn plan_alignment(expected: usize, detected_left: usize, detected_right: usize) -> (r: Result<
        AlignPlan,
        RecError,
    >)
        ensures
            r == align_plan_spec(expected as int, detected_left as int, detected_right as int),
            (detected_left == expected && detected_right == expected) ==> r == Ok::<AlignPlan, RecError>(AlignPlan::Matched),
            (detected_left != expected && detected_right != expected) ==> r == Err::<AlignPlan, RecError>(RecError::AssistColumnsMismatch),
            (detected_left == expected && expected - 2 <= detected_right < expected) ==> r == Ok::<AlignPlan, RecError>(AlignPlan::RightMissing),
            (detected_left == expected && expected < detected_right <= expected + 2) ==> r == Ok::<AlignPlan, RecError>(AlignPlan::RightExtra),
            (detected_right == expected && expected - 2 <= detected_left < expected) ==> r == Ok::<AlignPlan, RecError>(AlignPlan::LeftMissing),
            (detected_right == expected && expected < detected_left <= expected + 2) ==> r == Ok::<AlignPlan, RecError>(AlignPlan::LeftExtra),
            (detected_left == expected && (detected_right < expected - 2 || detected_right > expected + 2)) ==> r == Err::<AlignPlan, RecError>(RecError::AssistCountOff),
            (detected_right == expected && (detected_left < expected - 2 || detected_left > expected + 2)) ==> r == Err::<AlignPlan, RecError>(RecError::AssistCountOff),
    {
        proof {
            alignment_plan_law(expected as int, detected_left as int, detected_right as int);
        }
        let left_match = detected_left == expected;
        let right_match = detected_right == expected;
        if left_match && right_match {
            return Ok(AlignPlan::Matched);
        }
        if !left_match && !right_match {
            return Err(RecError::AssistColumnsMismatch);
        }
        let (seen, want) = if !left_match {
            (detected_left, expected)
        } else {
            (detected_right, expected)
        };
        let diff = if seen >= want {
            seen - want
        } else {
            want - seen
        };
        if diff > 2 {
            return Err(RecError::AssistCountOff);
        }
        if left_match {
            if detected_right < expected {
                Ok(AlignPlan::RightMissing)
            } else {
                Ok(AlignPlan::RightExtra)
            }
        } else {
            if detected_left < expected {
                Ok(AlignPlan::LeftMissing)
            } else {
                Ok(AlignPlan::LeftExtra)
            }
        }
    }

    /// Carries out an alignment plan with the positions `indices` that were
    /// chosen for it: for a missing-marks plan the marked boxes at those
    /// positions are removed from that margin of `marked`; for an extra-marks
    /// plan the detected boxes at those positions are left out of that margin
    /// of the returned marks. Everything else is kept as it is.
    pub fn apply_alignment(
        plan: AlignPlan,
        detected: AssistLocation,
        marked: &mut AssistLocation,
        indices: &[usize],
    ) -> (r: AssistLocation)
        requires
            plan == AlignPlan::RightMissing ==> removable_in_turn(
                old(marked).right@.len() as int,
                desc_order(indices@),
            ),
            plan == AlignPlan::LeftMissing ==> removable_in_turn(
                old(marked).left@.len() as int,
                desc_order(indices@),
            ),
        ensures
            r.left@ == (if plan == AlignPlan::LeftExtra {
                kept_upto(detected.left@, indices@, detected.left@.len() as int)
            } else {
                detected.left@
            }),
            r.right@ == (if plan == AlignPlan::RightExtra {
                kept_upto(detected.right@, indices@, detected.right@.len() as int)
            } else {
                detected.right@
            }),
            final(marked).left@ == (if plan == AlignPlan::LeftMissing {
                remove_in_turn(old(marked).left@, desc_order(indices@))
            } else {
                old(marked).left@
            }),
            final(marked).right@ == (if plan == AlignPlan::RightMissing {
                remove_in_turn(old(marked).right@, desc_order(indices@))
            } else {
                old(marked).right@
            }),
    {
        match plan {
            AlignPlan::Matched => detected,
            AlignPlan::RightMissing => {
                remove_marks(&mut marked.right, indices);
                detected
            },
            AlignPlan::LeftMissing => {
                remove_marks(&mut marked.left, indices);
                detected
            },
            AlignPlan::RightExtra => {
                let right = filter_by_extra_indices(detected.right.as_slice(), indices);
                AssistLocation { left: detected.left, right }
            },
            AlignPlan::LeftExtra => {
                let left = filter_by_extra_indices(detected.left.as_slice(), indices);
                AssistLocation { left, right: detected.right }
            },
        }
    }
}

} // verus!
