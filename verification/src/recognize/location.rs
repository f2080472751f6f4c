use vstd::prelude::*;
use crate::myutils::image::{lemma_greatest, lemma_least};
use crate::recognize::align::{all_combinations, generate_combinations, is_combination, lex_lt};

verus! {

/// Locates the outer frame of the sheet.
pub struct LocationModule;

impl LocationModule {
    pub fn new() -> (r: Self) {
        LocationModule
    }
}

pub open spec fn pt_xs(points: Seq<(i32, i32)>) -> Seq<int> {
    points.map_values(|p: (i32, i32)| p.0 as int)
}

pub open spec fn pt_ys(points: Seq<(i32, i32)>) -> Seq<int> {
    points.map_values(|p: (i32, i32)| p.1 as int)
}

/// The bounding rectangle of points as `(x, y, width, height)`, where width
/// and height are the spans of the coordinates.
pub fn get_bounding_rect(points: &[(i32, i32)]) -> (r: (i32, i32, i32, i32))
    requires
        points@.len() > 0,
        pt_xs(points@).max() - pt_xs(points@).min() <= i32::MAX,
        pt_ys(points@).max() - pt_ys(points@).min() <= i32::MAX,
    ensures
        r.0 == pt_xs(points@).min(),
        r.1 == pt_ys(points@).min(),
        r.2 == pt_xs(points@).max() - pt_xs(points@).min(),
        r.3 == pt_ys(points@).max() - pt_ys(points@).min(),
{
    let ghost ps = points@;
    let mut min_x = i32::MAX;
    let mut min_y = i32::MAX;
    let mut max_x = i32::MIN;
    let mut max_y = i32::MIN;
    let ghost mut w0: int = 0;
    let ghost mut w1: int = 0;
    let ghost mut w2: int = 0;
    let ghost mut w3: int = 0;
    let mut i: usize = 0;
    while i < points.len()
        invariant
            ps == points@,
            0 <= i <= ps.len(),
            forall|j: int| 0 <= j < i ==> min_x <= #[trigger] ps[j].0 <= max_x,
            forall|j: int| 0 <= j < i ==> min_y <= #[trigger] ps[j].1 <= max_y,
            i == 0 ==> min_x == i32::MAX && min_y == i32::MAX && max_x == i32::MIN && max_y == i32::MIN,
            i > 0 ==> 0 <= w0 < i && ps[w0].0 == min_x,
            i > 0 ==> 0 <= w1 < i && ps[w1].1 == min_y,
            i > 0 ==> 0 <= w2 < i && ps[w2].0 == max_x,
            i > 0 ==> 0 <= w3 < i && ps[w3].1 == max_y,
        decreases ps.len() - i,
    {
        let x = points[i].0;
        let y = points[i].1;
        assert(ps[i as int].0 == x && ps[i as int].1 == y);
        if x < min_x || i == 0 {
            proof {
                w0 = i as int;
            }
        }
        if x < min_x {
            min_x = x;
        }
        if y < min_y || i == 0 {
            proof {
                w1 = i as int;
            }
        }
        if y < min_y {
            min_y = y;
        }
        if x > max_x || i == 0 {
            proof {
                w2 = i as int;
            }
        }
        if x > max_x {
            max_x = x;
        }
        if y > max_y || i == 0 {
            proof {
                w3 = i as int;
            }
        }
        if y > max_y {
            max_y = y;
        }
        i = i + 1;
    }
    proof {
        assert forall|j: int| 0 <= j < ps.len() implies pt_xs(ps)[j] == #[trigger] ps[j].0 && pt_ys(ps)[j]
            == ps[j].1 by {}
        assert(pt_xs(ps)[w0] == min_x);
        lemma_least(pt_xs(ps), min_x as int);
        assert(pt_ys(ps)[w1] == min_y);
        lemma_least(pt_ys(ps), min_y as int);
        assert(pt_xs(ps)[w2] == max_x);
        lemma_greatest(pt_xs(ps), max_x as int);
        assert(pt_ys(ps)[w3] == max_y);
        lemma_greatest(pt_ys(ps), max_y as int);
    }
    (min_x, min_y, max_x - min_x, max_y - min_y)
}

/// The least distance from the box `(x, y, w, h)` to the border of an image
/// `width` by `height` (left, top, right or bottom), or 0 when the box pokes
/// out.
pub open spec fn margin_to_border(rect: (i32, i32, i32, i32), width: int, height: int) -> int {
    let (x, y, w, h) = rect;
    let m1 = if x < y { x as int } else { y as int };
    let right = width - x - w;
    let bottom = height - y - h;
    let m2 = if m1 < right { m1 } else { right };
    let m3 = if m2 < bottom { m2 } else { bottom };
    if m3 < 0 { 0 } else { m3 }
}

/// The margin of a box `(x, y, w, h)` to the border of a `width` by `height`
/// image is the least of its four gaps (left `x`, top `y`, right
/// `width - x - w`, bottom `height - y - h`), or 0 when any gap is negative:
/// it is never more than any gap, and it is one of them.
pub proof fn margin_is_least_gap(rect: (i32, i32, i32, i32), width: int, height: int)
    ensures
        ({
            let r = margin_to_border(rect, width, height);
            let (x, y, cw, ch) = rect;
            let (right, bottom) = (width - x - cw, height - y - ch);
            &&& 0 <= r
            &&& (x < 0 || y < 0 || right < 0 || bottom < 0) ==> r == 0
            &&& (x >= 0 && y >= 0 && right >= 0 && bottom >= 0) ==> r <= x && r <= y && r <= right && r
                <= bottom && (r == x || r == y || r == right || r == bottom)
        }),
{
}

impl LocationModule {
    /// The margin between a contour's bounding box and the image border, by
    /// which candidate frames are penalized; see `margin_to_border`.
    pub fn frame_margin(rect: (i32, i32, i32, i32), width: i32, height: i32) -> (r: i32)
        requires
            i32::MIN <= width - rect.0 - rect.2 <= i32::MAX,
            i32::MIN <= width - rect.0 <= i32::MAX,
            i32::MIN <= height - rect.1 - rect.3 <= i32::MAX,
            i32::MIN <= height - rect.1 <= i32::MAX,
        ensures
            r == margin_to_border(rect, width as int, height as int),
            ({
                let (x, y, cw, ch) = rect;
                let (right, bottom) = (width - x - cw, height - y - ch);
                &&& 0 <= r
                &&& (x < 0 || y < 0 || right < 0 || bottom < 0) ==> r == 0
                &&& (x >= 0 && y >= 0 && right >= 0 && bottom >= 0) ==> r <= x && r <= y && r <= right
                    && r <= bottom && (r == x || r == y || r == right || r == bottom)
            }),
    {
        proof {
            margin_is_least_gap(rect, width as int, height as int);
        }
        let (x, y, cw, ch) = rect;
        let m1 = if x < y { x } else { y };
        let right = width - x - cw;
        let bottom = height - y - ch;
        let m2 = if m1 < right { m1 } else { right };
        let m3 = if m2 < bottom { m2 } else { bottom };
        if m3 < 0 { 0 } else { m3 }
    }
}

/// `a` comes no later than `b` when ordered by `x`, then by `y`.
pub open spec fn pt_le(a: (i32, i32), b: (i32, i32)) -> bool {
    a.0 < b.0 || (a.0 == b.0 && a.1 <= b.1)
}

/// Twice the signed area of the triangle `o, a, b`: positive when `o -> a -> b`
/// turns left (counter-clockwise in a y-up frame).
#[verifier::opaque]
pub open spec fn cross(o: (i32, i32), a: (i32, i32), b: (i32, i32)) -> int {
    (a.0 - o.0) * (b.1 - o.1) - (a.1 - o.1) * (b.0 - o.0)
}

/// Every difference of two coordinates of the points fits in `i32`.
pub open spec fn differences_fit(points: Seq<(i32, i32)>) -> bool {
    forall|i: int, j: int|
        0 <= i < points.len() && 0 <= j < points.len() ==> i32::MIN <= #[trigger] points[i].0
            - #[trigger] points[j].0 <= i32::MAX && i32::MIN <= points[i].1 - points[j].1
            <= i32::MAX
}

/// Whether every difference of two coordinates of the points fits in `i32`;
/// see `differences_fit`.
pub fn spans_fit(points: &[(i32, i32)]) -> (r: bool)
    ensures
        r == differences_fit(points@),
{
    let ghost ps = points@;
    if points.len() == 0 {
        return true;
    }
    let mut min_x = points[0].0;
    let mut max_x = points[0].0;
    let mut min_y = points[0].1;
    let mut max_y = points[0].1;
    let ghost mut a: int = 0;
    let ghost mut b: int = 0;
    let ghost mut c: int = 0;
    let ghost mut d: int = 0;
    let mut i: usize = 1;
    while i < points.len()
        invariant
            ps == points@,
            1 <= i <= ps.len(),
            0 <= a < i && ps[a].0 == min_x,
            0 <= b < i && ps[b].0 == max_x,
            0 <= c < i && ps[c].1 == min_y,
            0 <= d < i && ps[d].1 == max_y,
            forall|j: int| 0 <= j < i ==> min_x <= (#[trigger] ps[j]).0 <= max_x && min_y <= ps[j].1 <= max_y,
        decreases ps.len() - i,
    {
        let p = points[i];
        if p.0 < min_x {
            min_x = p.0;
            proof {
                a = i as int;
            }
        }
        if p.0 > max_x {
            max_x = p.0;
            proof {
                b = i as int;
            }
        }
        if p.1 < min_y {
            min_y = p.1;
            proof {
                c = i as int;
            }
        }
        if p.1 > max_y {
            max_y = p.1;
            proof {
                d = i as int;
            }
        }
        i = i + 1;
    }
    let r = (max_x as i64) - (min_x as i64) <= i32::MAX as i64 && (max_y as i64) - (min_y as i64)
        <= i32::MAX as i64;
    proof {
        if !r {
            if (max_x as i64) - (min_x as i64) > i32::MAX as i64 {
                assert(!(ps[b].0 - ps[a].0 <= i32::MAX));
            } else {
                assert(!(ps[d].1 - ps[c].1 <= i32::MAX));
            }
        }
    }
    r
}

/// The chain turns strictly left at its point `k + 1`.
pub open spec fn turn_at(chain: Seq<(i32, i32)>, k: int) -> int {
    cross(chain[k], chain[k + 1], chain[k + 2])
}

/// Every consecutive triple of the chain turns strictly left.
pub open spec fn turns_left(chain: Seq<(i32, i32)>) -> bool {
    forall|k: int| 0 <= k < chain.len() - 2 ==> #[trigger] turn_at(chain, k) > 0
}

/// `q` lies left of (or on) the edge from point `m` to point `m + 1` of the
/// chain.
pub open spec fn left_of_edge(chain: Seq<(i32, i32)>, m: int, q: (i32, i32)) -> bool {
    cross(chain[m], chain[m + 1], q) >= 0
}

/// `q` lies strictly left of the edge from point `m` to point `m + 1`.
pub open spec fn strictly_left_of_edge(chain: Seq<(i32, i32)>, m: int, q: (i32, i32)) -> bool {
    cross(chain[m], chain[m + 1], q) > 0
}

proof fn lemma_cross_bounds(o: (i32, i32), a: (i32, i32), b: (i32, i32))
    requires
        i32::MIN <= a.0 - o.0 <= i32::MAX,
        i32::MIN <= a.1 - o.1 <= i32::MAX,
        i32::MIN <= b.0 - o.0 <= i32::MAX,
        i32::MIN <= b.1 - o.1 <= i32::MAX,
    ensures
        i64::MIN < (a.0 - o.0) * (b.1 - o.1) <= 0x4000_0000_0000_0000,
        i64::MIN < (a.1 - o.1) * (b.0 - o.0) <= 0x4000_0000_0000_0000,
        i64::MIN < cross(o, a, b) < i64::MAX,
{
    reveal(cross);
    let p = a.0 - o.0;
    let q = b.1 - o.1;
    let s = a.1 - o.1;
    let t = b.0 - o.0;
    assert(-0x4000_0000_0000_0000 + 0x8000_0000 <= p * q <= 0x4000_0000_0000_0000) by (nonlinear_arith)
        requires
            -0x8000_0000 <= p <= 0x7fff_ffff,
            -0x8000_0000 <= q <= 0x7fff_ffff,
    ;
    assert(-0x4000_0000_0000_0000 + 0x8000_0000 <= s * t <= 0x4000_0000_0000_0000) by (nonlinear_arith)
        requires
            -0x8000_0000 <= s <= 0x7fff_ffff,
            -0x8000_0000 <= t <= 0x7fff_ffff,
    ;
}

/// The cross product of three points, in `i64`.
fn cross_i64(o: (i32, i32), a: (i32, i32), b: (i32, i32)) -> (r: i64)
    requires
        i32::MIN <= a.0 - o.0 <= i32::MAX,
        i32::MIN <= a.1 - o.1 <= i32::MAX,
        i32::MIN <= b.0 - o.0 <= i32::MAX,
        i32::MIN <= b.1 - o.1 <= i32::MAX,
    ensures
        r == cross(o, a, b),
{
    reveal(cross);
    proof {
        lemma_cross_bounds(o, a, b);
    }
    ((a.0 - o.0) as i64) * ((b.1 - o.1) as i64) - ((a.1 - o.1) as i64) * ((b.0 - o.0) as i64)
}

/// Sorts points by `x`, then by `y`.
fn sort_points(v: &mut Vec<(i32, i32)>)
    ensures
        forall|i: int, j: int| 0 <= i < j < final(v)@.len() ==> pt_le(#[trigger] final(v)@[i], #[trigger] final(v)@[j]),
        final(v)@.to_multiset() == old(v)@.to_multiset(),
{
    let ghost orig = v@;
    let n = v.len();
    let mut sorted: Vec<(i32, i32)> = Vec::new();
    let mut i: usize = 0;
    assert(orig.take(0) =~= sorted@);
    while i < n
        invariant
            n == orig.len(),
            v@ == orig,
            0 <= i <= n,
            forall|p: int, q: int| 0 <= p < q < sorted@.len() ==> pt_le(#[trigger] sorted@[p], #[trigger] sorted@[q]),
            sorted@.to_multiset() == orig.take(i as int).to_multiset(),
        decreases n - i,
    {
        let e = v[i];
        let mut pos: usize = 0;
        while pos < sorted.len() && (sorted[pos].0 < e.0 || (sorted[pos].0 == e.0 && sorted[pos].1 <= e.1))
            invariant
                0 <= pos <= sorted.len(),
                forall|j: int| 0 <= j < pos ==> pt_le(#[trigger] sorted@[j], e),
            decreases sorted.len() - pos,
        {
            pos = pos + 1;
        }
        let ghost before = sorted@;
        proof {
            assert forall|j: int| pos <= j < before.len() implies !pt_le(#[trigger] before[j], e) by {
                assert(!pt_le(before[pos as int], e));
                assert(pt_le(before[pos as int], before[j]) || j == pos);
            }
        }
        sorted.insert(pos, e);
        proof {
            let a = before.subrange(0, pos as int);
            let b = before.subrange(pos as int, before.len() as int);
            assert(before =~= a + b);
            assert(sorted@ =~= a.push(e) + b);
            assert(orig.take(i + 1) =~= orig.take(i as int).push(e));
            assert forall|p: int, q: int| 0 <= p < q < sorted@.len() implies pt_le(
                #[trigger] sorted@[p],
                #[trigger] sorted@[q],
            ) by {
                if q < pos {
                } else if q == pos {
                    assert(sorted@[p] == before[p]);
                } else if p == pos {
                    assert(sorted@[q] == before[q - 1]);
                    assert(!pt_le(before[q - 1], e));
                } else if p < pos {
                    assert(sorted@[q] == before[q - 1]);
                    assert(sorted@[p] == before[p]);
                } else {
                    assert(sorted@[q] == before[q - 1]);
                    assert(sorted@[p] == before[p - 1]);
                }
            }
            broadcast use vstd::seq_lib::group_to_multiset_ensures;

            vstd::seq_lib::lemma_multiset_commutative(a.push(e), b);
            vstd::seq_lib::lemma_multiset_commutative(a, b);
            assert(sorted@.to_multiset() =~= before.to_multiset().insert(e));
        }
        i = i + 1;
    }
    proof {
        assert(orig.take(n as int) =~= orig);
    }
    *v = sorted;
}

/// A point with integer coordinates of any size.
pub type IPoint = (int, int);

/// Twice the signed area of the triangle `o, a, b`, over integers.
#[verifier::opaque]
pub open spec fn icross(o: IPoint, a: IPoint, b: IPoint) -> int {
    (a.0 - o.0) * (b.1 - o.1) - (a.1 - o.1) * (b.0 - o.0)
}

/// `b` comes no earlier than `a`: greater `x`, or equal `x` and no smaller `y`.
pub open spec fn ahead(a: IPoint, b: IPoint) -> bool {
    a.0 < b.0 || (a.0 == b.0 && a.1 <= b.1)
}

/// A point as integers.
pub open spec fn lift(p: (i32, i32)) -> IPoint {
    (p.0 as int, p.1 as int)
}

/// A point turned half round the origin.
pub open spec fn flip(p: IPoint) -> IPoint {
    (-p.0, -p.1)
}

proof fn lemma_cross_lift(o: (i32, i32), a: (i32, i32), b: (i32, i32))
    ensures
        cross(o, a, b) == icross(lift(o), lift(a), lift(b)),
        icross(flip(lift(o)), flip(lift(a)), flip(lift(b))) == icross(lift(o), lift(a), lift(b)),
        pt_le(o, a) == ahead(lift(o), lift(a)),
        pt_le(o, a) == ahead(flip(lift(a)), flip(lift(o))),
{
    reveal(cross);
    reveal(icross);
    let (ox, oy, ax, ay, bx, by) = (o.0 as int, o.1 as int, a.0 as int, a.1 as int, b.0 as int, b.1 as int);
    assert((-ax - -ox) * (-by - -oy) - (-ay - -oy) * (-bx - -ox) == (ax - ox) * (by - oy) - (ay - oy) * (bx
        - ox)) by (nonlinear_arith);
}

/// A triangle with a repeated corner has no area.
proof fn lemma_icross_repeat(a: IPoint, b: IPoint)
    ensures
        icross(a, b, b) == 0,
        icross(a, b, a) == 0,
        icross(a, a, b) == 0,
{
    reveal(icross);
    assert((b.0 - a.0) * (b.1 - a.1) - (b.1 - a.1) * (b.0 - a.0) == 0) by (nonlinear_arith);
}

/// Along a chain that moves ahead and turns left twice, the last point lies
/// left of the first edge.
proof fn lemma_left_carries(a: IPoint, b: IPoint, c: IPoint, p: IPoint)
    requires
        ahead(a, b),
        ahead(b, c),
        ahead(c, p),
        icross(a, b, c) > 0,
        icross(b, c, p) > 0,
    ensures
        icross(a, b, p) > 0,
{
    reveal(icross);
    let (ux, uy) = (b.0 - a.0, b.1 - a.1);
    let (vx, vy) = (c.0 - b.0, c.1 - b.1);
    let (wx, wy) = (p.0 - c.0, p.1 - c.1);
    assert(icross(a, b, c) == ux * vy - uy * vx) by (nonlinear_arith)
        requires
            icross(a, b, c) == (b.0 - a.0) * (c.1 - a.1) - (b.1 - a.1) * (c.0 - a.0),
            ux == b.0 - a.0,
            uy == b.1 - a.1,
            vx == c.0 - b.0,
            vy == c.1 - b.1,
    ;
    assert(icross(b, c, p) == vx * wy - vy * wx) by (nonlinear_arith)
        requires
            icross(b, c, p) == (c.0 - b.0) * (p.1 - b.1) - (c.1 - b.1) * (p.0 - b.0),
            vx == c.0 - b.0,
            vy == c.1 - b.1,
            wx == p.0 - c.0,
            wy == p.1 - c.1,
    ;
    assert(icross(a, b, p) == (ux * vy - uy * vx) + (ux * wy - uy * wx)) by (nonlinear_arith)
        requires
            icross(a, b, p) == (b.0 - a.0) * (p.1 - a.1) - (b.1 - a.1) * (p.0 - a.0),
            ux == b.0 - a.0,
            uy == b.1 - a.1,
            vx == c.0 - b.0,
            vy == c.1 - b.1,
            wx == p.0 - c.0,
            wy == p.1 - c.1,
    ;
    assert((ux * wy - uy * wx) * vx == (ux * vy - uy * vx) * wx + (vx * wy - vy * wx) * ux)
        by (nonlinear_arith);
    if vx > 0 {
        assert((ux * vy - uy * vx) * wx >= 0) by (nonlinear_arith)
            requires
                ux * vy - uy * vx > 0,
                wx >= 0,
        ;
        assert((vx * wy - vy * wx) * ux >= 0) by (nonlinear_arith)
            requires
                vx * wy - vy * wx > 0,
                ux >= 0,
        ;
        assert(ux * wy - uy * wx >= 0) by (nonlinear_arith)
            requires
                (ux * wy - uy * wx) * vx >= 0,
                vx > 0,
        ;
    } else {
        assert(vx == 0);
        assert(ux * vy > 0) by (nonlinear_arith)
            requires
                ux * vy - uy * vx > 0,
                vx == 0,
        ;
        assert(-vy * wx > 0) by (nonlinear_arith)
            requires
                vx * wy - vy * wx > 0,
                vx == 0,
        ;
        assert(vy >= 0);
        assert(false) by (nonlinear_arith)
            requires
                -vy * wx > 0,
                vy >= 0,
                wx >= 0,
        ;
    }
}

/// A point `q` behind `t` and left of the edge `prev -> t` lies left of (or
/// on) the edge `t -> p` when `p` is ahead of `t` and left of that edge.
proof fn lemma_left_behind(prev: IPoint, t: IPoint, p: IPoint, q: IPoint)
    requires
        ahead(prev, t),
        ahead(q, t),
        ahead(t, p),
        icross(prev, t, p) > 0,
        icross(prev, t, q) >= 0,
    ensures
        icross(t, p, q) >= 0,
{
    reveal(icross);
    let (ux, uy) = (t.0 - prev.0, t.1 - prev.1);
    let (wx, wy) = (p.0 - t.0, p.1 - t.1);
    let (zx, zy) = (q.0 - t.0, q.1 - t.1);
    assert(icross(prev, t, p) == ux * wy - uy * wx) by (nonlinear_arith)
        requires
            icross(prev, t, p) == (t.0 - prev.0) * (p.1 - prev.1) - (t.1 - prev.1) * (p.0 - prev.0),
            ux == t.0 - prev.0,
            uy == t.1 - prev.1,
            wx == p.0 - t.0,
            wy == p.1 - t.1,
    ;
    assert(icross(prev, t, q) == ux * zy - uy * zx) by (nonlinear_arith)
        requires
            icross(prev, t, q) == (t.0 - prev.0) * (q.1 - prev.1) - (t.1 - prev.1) * (q.0 - prev.0),
            ux == t.0 - prev.0,
            uy == t.1 - prev.1,
            zx == q.0 - t.0,
            zy == q.1 - t.1,
    ;
    assert(icross(t, p, q) == wx * zy - wy * zx) by (nonlinear_arith)
        requires
            icross(t, p, q) == (p.0 - t.0) * (q.1 - t.1) - (p.1 - t.1) * (q.0 - t.0),
            wx == p.0 - t.0,
            wy == p.1 - t.1,
            zx == q.0 - t.0,
            zy == q.1 - t.1,
    ;
    assert((wx * zy - wy * zx) * ux == (ux * zy - uy * zx) * wx - (ux * wy - uy * wx) * zx)
        by (nonlinear_arith);
    if ux > 0 {
        assert((ux * zy - uy * zx) * wx >= 0) by (nonlinear_arith)
            requires
                ux * zy - uy * zx >= 0,
                wx >= 0,
        ;
        assert((ux * wy - uy * wx) * zx <= 0) by (nonlinear_arith)
            requires
                ux * wy - uy * wx > 0,
                zx <= 0,
        ;
        assert(wx * zy - wy * zx >= 0) by (nonlinear_arith)
            requires
                (wx * zy - wy * zx) * ux >= 0,
                ux > 0,
        ;
    } else {
        assert(ux == 0);
        assert(-uy * wx > 0) by (nonlinear_arith)
            requires
                ux * wy - uy * wx > 0,
                ux == 0,
        ;
        assert(false) by (nonlinear_arith)
            requires
                -uy * wx > 0,
                uy >= 0,
                wx >= 0,
        ;
    }
}

/// A point `q` ahead of `t` and left of (or on) the edge `t -> b` lies left of
/// (or on) the edge `t -> p` when `p`, ahead of `t`, lies right of (or on)
/// `t -> b`, and `b` differs from `t`.
proof fn lemma_left_ahead(t: IPoint, b: IPoint, p: IPoint, q: IPoint)
    requires
        ahead(t, b),
        b != t,
        ahead(t, p),
        ahead(t, q),
        icross(t, b, q) >= 0,
        icross(t, b, p) <= 0,
    ensures
        icross(t, p, q) >= 0,
{
    reveal(icross);
    let (dx, dy) = (b.0 - t.0, b.1 - t.1);
    let (wx, wy) = (p.0 - t.0, p.1 - t.1);
    let (zx, zy) = (q.0 - t.0, q.1 - t.1);
    assert(icross(t, b, q) == dx * zy - dy * zx);
    assert(icross(t, b, p) == dx * wy - dy * wx);
    assert(icross(t, p, q) == wx * zy - wy * zx);
    assert((wx * zy - wy * zx) * dx == (dx * zy - dy * zx) * wx - (dx * wy - dy * wx) * zx)
        by (nonlinear_arith);
    if dx > 0 {
        assert((dx * zy - dy * zx) * wx >= 0) by (nonlinear_arith)
            requires
                dx * zy - dy * zx >= 0,
                wx >= 0,
        ;
        assert((dx * wy - dy * wx) * zx <= 0) by (nonlinear_arith)
            requires
                dx * wy - dy * wx <= 0,
                zx >= 0,
        ;
        assert(wx * zy - wy * zx >= 0) by (nonlinear_arith)
            requires
                (wx * zy - wy * zx) * dx >= 0,
                dx > 0,
        ;
    } else {
        assert(dx == 0 && dy > 0);
        assert(-dy * zx >= 0) by (nonlinear_arith)
            requires
                dx * zy - dy * zx >= 0,
                dx == 0,
        ;
        assert(zx <= 0) by (nonlinear_arith)
            requires
                -dy * zx >= 0,
                dy > 0,
        ;
        assert(zx == 0);
        assert(wy * zx == 0) by (nonlinear_arith)
            requires
                zx == 0,
        ;
        assert(wx * zy >= 0) by (nonlinear_arith)
            requires
                wx >= 0,
                zy >= 0,
        ;
    }
}

/// The `j`-th point in the order a chain takes them: from the first of `pts`
/// on, or from the last back when `rev`.
pub open spec fn order_at(pts: Seq<(i32, i32)>, rev: bool, j: int) -> (i32, i32) {
    if rev {
        pts[pts.len() - 1 - j]
    } else {
        pts[j]
    }
}

/// A point as the chain sees it: as it is, or turned half round when `rev`,
/// so that the chain always moves ahead.
pub open spec fn img(p: (i32, i32), rev: bool) -> IPoint {
    if rev {
        flip(lift(p))
    } else {
        lift(p)
    }
}

/// The points are sorted by `x`, then by `y`.
#[verifier::opaque]
pub open spec fn pts_sorted(pts: Seq<(i32, i32)>) -> bool {
    forall|i: int, j: int| 0 <= i < j < pts.len() ==> pt_le(#[trigger] pts[i], #[trigger] pts[j])
}

proof fn lemma_img_cross(a: (i32, i32), b: (i32, i32), c: (i32, i32), rev: bool)
    ensures
        cross(a, b, c) == icross(img(a, rev), img(b, rev), img(c, rev)),
{
    lemma_cross_lift(a, b, c);
}

proof fn lemma_order_ahead(pts: Seq<(i32, i32)>, rev: bool, i: int, j: int)
    requires
        pts_sorted(pts),
        0 <= i <= j < pts.len(),
    ensures
        ahead(img(order_at(pts, rev, i), rev), img(order_at(pts, rev, j), rev)),
{
    reveal(pts_sorted);
    let a = order_at(pts, rev, i);
    let b = order_at(pts, rev, j);
    if rev {
        if i < j {
            assert(pt_le(pts[pts.len() - 1 - j], pts[pts.len() - 1 - i]));
        }
        lemma_cross_lift(b, a, a);
    } else {
        if i < j {
            assert(pt_le(pts[i], pts[j]));
        }
        lemma_cross_lift(a, b, b);
    }
}

/// What a chain built over the first `k` points (in its order) keeps: it runs
/// from the first point to the last one taken, through points taken in order,
/// turns left at every point, and has every point taken so far on the left
/// of (or on) each of its edges.
pub open spec fn chain_inv(pts: Seq<(i32, i32)>, rev: bool, k: int, h: Seq<(i32, i32)>, ix: Seq<int>) -> bool {
    &&& 0 <= k <= pts.len()
    &&& h.len() == ix.len()
    &&& (k == 0 <==> h.len() == 0)
    &&& forall|m: int| 0 <= m < h.len() ==> 0 <= #[trigger] ix[m] < k && h[m] == order_at(pts, rev, ix[m])
    &&& forall|m1: int, m2: int| 0 <= m1 < m2 < h.len() ==> #[trigger] ix[m1] < #[trigger] ix[m2]
    &&& k > 0 ==> ix[0] == 0 && ix[h.len() - 1] == k - 1
    &&& turns_left(h)
    &&& forall|m: int, j: int|
        0 <= m < h.len() - 1 && 0 <= j < k ==> #[trigger] left_of_edge(h, m, order_at(pts, rev, j))
}

/// The chain points in the image order move ahead.
proof fn lemma_chain_ahead(pts: Seq<(i32, i32)>, rev: bool, k: int, h: Seq<(i32, i32)>, ix: Seq<int>, m1: int, m2: int)
    requires
        pts_sorted(pts),
        chain_inv(pts, rev, k, h, ix),
        0 <= m1 <= m2 < h.len(),
    ensures
        ahead(img(h[m1], rev), img(h[m2], rev)),
{
    if m1 < m2 {
        assert(ix[m1] < ix[m2]);
    }
    lemma_order_ahead(pts, rev, ix[m1], ix[m2]);
}

/// A point ahead of the end of a left-turning chain, and left of its last
/// edge, lies left of every edge.
proof fn lemma_chain_left(pts: Seq<(i32, i32)>, rev: bool, k: int, h: Seq<(i32, i32)>, ix: Seq<int>, i: int, p: (i32, i32))
    requires
        pts_sorted(pts),
        chain_inv(pts, rev, k, h, ix),
        1 <= i < h.len(),
        ahead(img(h[i], rev), img(p, rev)),
        cross(h[i - 1], h[i], p) > 0,
    ensures
        forall|m: int| 0 <= m < i ==> #[trigger] strictly_left_of_edge(h, m, p),
    decreases i,
{
    if i >= 2 {
        lemma_chain_ahead(pts, rev, k, h, ix, i - 2, i - 1);
        lemma_chain_ahead(pts, rev, k, h, ix, i - 1, i);
        lemma_img_cross(h[i - 2], h[i - 1], h[i], rev);
        lemma_img_cross(h[i - 1], h[i], p, rev);
        lemma_img_cross(h[i - 2], h[i - 1], p, rev);
        assert(turn_at(h, i - 2) > 0);
        lemma_left_carries(img(h[i - 2], rev), img(h[i - 1], rev), img(h[i], rev), img(p, rev));
        assert(ahead(img(h[i - 1], rev), img(p, rev))) by {
            lemma_ahead_trans(img(h[i - 1], rev), img(h[i], rev), img(p, rev));
        }
        lemma_chain_left(pts, rev, k, h, ix, i - 1, p);
    }
}

proof fn lemma_ahead_trans(a: IPoint, b: IPoint, c: IPoint)
    requires
        ahead(a, b),
        ahead(b, c),
    ensures
        ahead(a, c),
{
}

/// Taking the next point: with the chain cut back to its first `len` points
/// (each cut made because the next point did not lie strictly left of the
/// last edge) and the point appended, the chain keeps its properties.
proof fn lemma_chain_step(
    pts: Seq<(i32, i32)>,
    rev: bool,
    k: int,
    c: Seq<(i32, i32)>,
    cix: Seq<int>,
    len: int,
)
    requires
        pts_sorted(pts),
        0 <= k < pts.len(),
        chain_inv(pts, rev, k, c, cix),
        k > 0 ==> 1 <= len,
        0 <= len <= c.len(),
        k == 0 ==> len == 0,
        len < c.len() ==> cross(c[len - 1], c[len], order_at(pts, rev, k)) <= 0,
        len >= 2 ==> cross(c[len - 2], c[len - 1], order_at(pts, rev, k)) > 0,
    ensures
        chain_inv(pts, rev, k + 1, c.take(len).push(order_at(pts, rev, k)), cix.take(len).push(k)),
{
    let p = order_at(pts, rev, k);
    let h = c.take(len).push(p);
    let hix = cix.take(len).push(k);
    if k == 0 {
        assert(h =~= seq![p]);
        assert(hix =~= seq![0int]);
        return;
    }
    let i = len - 1;
    let t = c[i];
    lemma_order_ahead(pts, rev, k - 1, k);
    lemma_chain_ahead(pts, rev, k, c, cix, i, c.len() - 1);
    assert(c[c.len() - 1] == order_at(pts, rev, k - 1));
    lemma_ahead_trans(img(t, rev), img(order_at(pts, rev, k - 1), rev), img(p, rev));
    assert(ahead(img(t, rev), img(p, rev)));
    // turns
    assert forall|m: int| 0 <= m < h.len() - 2 implies #[trigger] turn_at(h, m) > 0 by {
        if m + 2 < len {
            assert(h[m] == c[m] && h[m + 1] == c[m + 1] && h[m + 2] == c[m + 2]);
            assert(turn_at(c, m) > 0);
        } else {
            assert(m == len - 2);
            assert(h[m] == c[len - 2] && h[m + 1] == c[len - 1] && h[m + 2] == p);
        }
    }
    // p lies left of the edges kept
    if i >= 1 {
        lemma_chain_left(pts, rev, k, c, cix, i, p);
    }
    assert forall|m: int, j: int|
        0 <= m < h.len() - 1 && 0 <= j < k + 1 implies #[trigger] left_of_edge(h, m, order_at(pts, rev, j)) by {
        let q = order_at(pts, rev, j);
        if m < i {
            assert(h[m] == c[m] && h[m + 1] == c[m + 1]);
            if j < k {
                assert(left_of_edge(c, m, q));
            } else {
                assert(strictly_left_of_edge(c, m, p));
            }
        } else {
            assert(m == i);
            assert(h[m] == t && h[m + 1] == p);
            lemma_step_new_edge(pts, rev, k, c, cix, len, j);
        }
    }
    assert forall|m: int| 0 <= m < h.len() implies 0 <= #[trigger] hix[m] < k + 1 && h[m] == order_at(pts, rev, hix[m]) by {
        if m < len {
            assert(hix[m] == cix[m]);
        }
    }
    assert forall|m1: int, m2: int| 0 <= m1 < m2 < h.len() implies #[trigger] hix[m1] < #[trigger] hix[m2] by {
        if m2 < len {
            assert(hix[m1] == cix[m1] && hix[m2] == cix[m2]);
        } else {
            assert(hix[m1] == cix[m1]);
        }
    }
}

/// The new edge from the chain's kept end `t = c[len - 1]` to the next point
/// has every point taken so far on its left (or on it).
proof fn lemma_step_new_edge(
    pts: Seq<(i32, i32)>,
    rev: bool,
    k: int,
    c: Seq<(i32, i32)>,
    cix: Seq<int>,
    len: int,
    j: int,
)
    requires
        pts_sorted(pts),
        0 < k < pts.len(),
        chain_inv(pts, rev, k, c, cix),
        1 <= len <= c.len(),
        len < c.len() ==> cross(c[len - 1], c[len], order_at(pts, rev, k)) <= 0,
        len >= 2 ==> cross(c[len - 2], c[len - 1], order_at(pts, rev, k)) > 0,
        0 <= j <= k,
    ensures
        cross(c[len - 1], order_at(pts, rev, k), order_at(pts, rev, j)) >= 0,
{
    let p = order_at(pts, rev, k);
    let q = order_at(pts, rev, j);
    let i = len - 1;
    let t = c[i];
    lemma_img_cross(t, p, q, rev);
    lemma_order_ahead(pts, rev, k - 1, k);
    lemma_chain_ahead(pts, rev, k, c, cix, i, c.len() - 1);
    lemma_ahead_trans(img(t, rev), img(order_at(pts, rev, k - 1), rev), img(p, rev));
    if j == k {
        lemma_icross_repeat(img(t, rev), img(p, rev));
        return;
    }
    lemma_order_ahead(pts, rev, j, k - 1);
    lemma_chain_ahead(pts, rev, k, c, cix, 0, i);
    assert(c[0] == order_at(pts, rev, 0));
    lemma_order_ahead(pts, rev, 0, j);
    if ahead(img(q, rev), img(t, rev)) {
        if i >= 1 {
            let prev = c[i - 1];
            lemma_chain_ahead(pts, rev, k, c, cix, i - 1, i);
            lemma_img_cross(prev, t, p, rev);
            lemma_img_cross(prev, t, q, rev);
            assert(left_of_edge(c, i - 1, q));
            lemma_left_behind(img(prev, rev), img(t, rev), img(p, rev), img(q, rev));
        } else {
            // t is the first point, so q, behind it and ahead of it, is t
            assert(img(q, rev) == img(t, rev));
            assert(q == t);
            lemma_icross_repeat(img(t, rev), img(p, rev));
        }
    } else {
        // q lies strictly ahead of t; as q is not ahead of the chain's end, a
        // point b = c[len] was cut
        let last = c[c.len() - 1];
        assert(last == order_at(pts, rev, k - 1));
        assert(ahead(img(q, rev), img(last, rev)));
        assert(len < c.len());
        let b = c[len];
        lemma_chain_ahead(pts, rev, k, c, cix, i, len);
        lemma_img_cross(t, b, p, rev);
        lemma_img_cross(t, b, q, rev);
        assert(left_of_edge(c, i, q));
        if b == t {
            if len + 1 < c.len() {
                assert(turn_at(c, i) > 0);
                lemma_img_cross(t, b, c[i + 2], rev);
                lemma_icross_repeat(img(t, rev), img(c[i + 2], rev));
            } else {
                assert(b == last);
            }
        }
        assert(img(b, rev) != img(t, rev));
        lemma_left_ahead(img(t, rev), img(b, rev), img(p, rev), img(q, rev));
    }
}

/// At a chain's end `m`, with `a` the point before it on one chain and `u` the
/// point after it on the other (both behind `m`), a point `q` left of (or on)
/// both edges lies on the line through `a` and `m` when `a`, `m`, `u` are
/// collinear.
proof fn lemma_flat_corner(a: IPoint, m: IPoint, u: IPoint, q: IPoint)
    requires
        ahead(a, m),
        ahead(u, m),
        a != m,
        u != m,
        icross(a, m, u) == 0,
        icross(a, m, q) >= 0,
        icross(m, u, q) >= 0,
    ensures
        icross(a, m, q) == 0,
{
    reveal(icross);
    let (dx, dy) = (m.0 - a.0, m.1 - a.1);
    let (ex, ey) = (m.0 - u.0, m.1 - u.1);
    let (zx, zy) = (q.0 - m.0, q.1 - m.1);
    assert(icross(a, m, u) == -(dx * ey - dy * ex)) by (nonlinear_arith)
        requires
            icross(a, m, u) == (m.0 - a.0) * (u.1 - a.1) - (m.1 - a.1) * (u.0 - a.0),
            dx == m.0 - a.0,
            dy == m.1 - a.1,
            ex == m.0 - u.0,
            ey == m.1 - u.1,
    ;
    assert(icross(a, m, q) == dx * zy - dy * zx) by (nonlinear_arith)
        requires
            icross(a, m, q) == (m.0 - a.0) * (q.1 - a.1) - (m.1 - a.1) * (q.0 - a.0),
            dx == m.0 - a.0,
            dy == m.1 - a.1,
            zx == q.0 - m.0,
            zy == q.1 - m.1,
    ;
    assert(icross(m, u, q) == -(ex * zy - ey * zx)) by (nonlinear_arith)
        requires
            icross(m, u, q) == (u.0 - m.0) * (q.1 - m.1) - (u.1 - m.1) * (q.0 - m.0),
            ex == m.0 - u.0,
            ey == m.1 - u.1,
            zx == q.0 - m.0,
            zy == q.1 - m.1,
    ;
    let dz = dx * zy - dy * zx;
    let ez = ex * zy - ey * zx;
    assert(dx * ey - dy * ex == 0);
    assert(dz * ex == ez * dx + (dx * ey - dy * ex) * zx) by (nonlinear_arith)
        requires
            dz == dx * zy - dy * zx,
            ez == ex * zy - ey * zx,
    ;
    assert(dz * ey == ez * dy + (dx * ey - dy * ex) * zy) by (nonlinear_arith)
        requires
            dz == dx * zy - dy * zx,
            ez == ex * zy - ey * zx,
    ;
    assert(dz >= 0 && ez <= 0);
    if dx > 0 {
        if ex == 0 {
            assert(dx * ey == 0) by (nonlinear_arith)
                requires
                    dx * ey - dy * ex == 0,
                    ex == 0,
            ;
            assert(ey == 0) by (nonlinear_arith)
                requires
                    dx * ey == 0,
                    dx > 0,
            ;
            assert(false);
        }
        assert(ex > 0);
        assert(dz * ex == ez * dx);
        assert(dz == 0) by (nonlinear_arith)
            requires
                dz * ex == ez * dx,
                dz >= 0,
                ez <= 0,
                ex > 0,
                dx > 0,
        ;
    } else {
        assert(dx == 0 && dy > 0);
        assert(dy * ex == 0) by (nonlinear_arith)
            requires
                dx * ey - dy * ex == 0,
                dx == 0,
        ;
        assert(ex == 0) by (nonlinear_arith)
            requires
                dy * ex == 0,
                dy > 0,
        ;
        assert(ey > 0);
        assert(dz * ey == ez * dy);
        assert(dz == 0) by (nonlinear_arith)
            requires
                dz * ey == ez * dy,
                dz >= 0,
                ez <= 0,
                ey > 0,
                dy > 0,
        ;
    }
}

/// `(u x v) d = (d x v) u - (d x u) v` for plane vectors.
proof fn lemma_triple_identity(dx: int, dy: int, ux: int, uy: int, vx: int, vy: int)
    ensures
        (ux * vy - uy * vx) * dx == (dx * vy - dy * vx) * ux - (dx * uy - dy * ux) * vx,
        (ux * vy - uy * vx) * dy == (dx * vy - dy * vx) * uy - (dx * uy - dy * ux) * vy,
{
    assert((ux * vy - uy * vx) * dx == (dx * vy - dy * vx) * ux - (dx * uy - dy * ux) * vx) by (nonlinear_arith);
    assert((ux * vy - uy * vx) * dy == (dx * vy - dy * vx) * uy - (dx * uy - dy * ux) * vy) by (nonlinear_arith);
}

/// Points on one line through two distinct points are collinear.
proof fn lemma_on_line(a: IPoint, m: IPoint, p: IPoint, q: IPoint, s: IPoint)
    requires
        a != m,
        icross(a, m, p) == 0,
        icross(a, m, q) == 0,
        icross(a, m, s) == 0,
    ensures
        icross(p, q, s) == 0,
{
    reveal(icross);
    let (dx, dy) = (m.0 - a.0, m.1 - a.1);
    let (ux, uy) = (q.0 - p.0, q.1 - p.1);
    let (vx, vy) = (s.0 - p.0, s.1 - p.1);
    let (px, py) = (p.0 - a.0, p.1 - a.1);
    assert(dx * py - dy * px == 0) by (nonlinear_arith)
        requires
            icross(a, m, p) == (m.0 - a.0) * (p.1 - a.1) - (m.1 - a.1) * (p.0 - a.0),
            icross(a, m, p) == 0,
            dx == m.0 - a.0,
            dy == m.1 - a.1,
            px == p.0 - a.0,
            py == p.1 - a.1,
    ;
    assert(dx * uy - dy * ux == 0) by (nonlinear_arith)
        requires
            icross(a, m, q) == (m.0 - a.0) * (q.1 - a.1) - (m.1 - a.1) * (q.0 - a.0),
            icross(a, m, q) == 0,
            dx * py - dy * px == 0,
            dx == m.0 - a.0,
            dy == m.1 - a.1,
            px == p.0 - a.0,
            py == p.1 - a.1,
            ux == q.0 - p.0,
            uy == q.1 - p.1,
    ;
    assert(dx * vy - dy * vx == 0) by (nonlinear_arith)
        requires
            icross(a, m, s) == (m.0 - a.0) * (s.1 - a.1) - (m.1 - a.1) * (s.0 - a.0),
            icross(a, m, s) == 0,
            dx * py - dy * px == 0,
            dx == m.0 - a.0,
            dy == m.1 - a.1,
            px == p.0 - a.0,
            py == p.1 - a.1,
            vx == s.0 - p.0,
            vy == s.1 - p.1,
    ;
    let uv = ux * vy - uy * vx;
    lemma_triple_identity(dx, dy, ux, uy, vx, vy);
    assert(uv * dx == (dx * vy - dy * vx) * ux - (dx * uy - dy * ux) * vx);
    assert(uv * dy == (dx * vy - dy * vx) * uy - (dx * uy - dy * ux) * vy);
    assert(uv * dx == 0 && uv * dy == 0) by (nonlinear_arith)
        requires
            uv * dx == (dx * vy - dy * vx) * ux - (dx * uy - dy * ux) * vx,
            uv * dy == (dx * vy - dy * vx) * uy - (dx * uy - dy * ux) * vy,
            dx * vy - dy * vx == 0,
            dx * uy - dy * ux == 0,
    ;
    assert(uv == 0) by (nonlinear_arith)
        requires
            uv * dx == 0,
            uv * dy == 0,
            dx != 0 || dy != 0,
    ;
    assert(icross(p, q, s) == uv) by (nonlinear_arith)
        requires
            icross(p, q, s) == (q.0 - p.0) * (s.1 - p.1) - (q.1 - p.1) * (s.0 - p.0),
            uv == ux * vy - uy * vx,
            ux == q.0 - p.0,
            uy == q.1 - p.1,
            vx == s.0 - p.0,
            vy == s.1 - p.1,
    ;
}

/// All of the points lie on one line: every three of them are collinear.
pub open spec fn all_collinear(points: Seq<(i32, i32)>) -> bool {
    forall|i: int, j: int, k: int|
        0 <= i < points.len() && 0 <= j < points.len() && 0 <= k < points.len() ==> #[trigger] cross(
            points[i],
            points[j],
            points[k],
        ) == 0
}

/// The turn of the closed polygon `poly` at vertex `i + 1`: how far vertex
/// `i + 2` lies left of the side from vertex `i` to vertex `i + 1` (indices
/// taken round).
pub open spec fn corner_turn(poly: Seq<(i32, i32)>, i: int) -> int {
    let n = poly.len() as int;
    cross(poly[i], poly[(i + 1) % n], poly[(i + 2) % n])
}

/// A strictly convex polygon: at least three vertices, turning strictly left
/// at every one.
pub open spec fn strictly_convex(poly: Seq<(i32, i32)>) -> bool {
    &&& poly.len() >= 3
    &&& forall|i: int| 0 <= i < poly.len() ==> #[trigger] corner_turn(poly, i) > 0
}

/// The hull from its two chains: the lower one without its last point, then
/// the upper one without its last point.
pub open spec fn joined_chains(lo: Seq<(i32, i32)>, up: Seq<(i32, i32)>) -> Seq<(i32, i32)> {
    lo.take(lo.len() - 1) + up.take(up.len() - 1)
}

proof fn lemma_lift_flip_injective(p: (i32, i32), q: (i32, i32))
    ensures
        lift(p) == lift(q) ==> p == q,
        flip(lift(p)) == flip(lift(q)) ==> p == q,
{
}

/// When every point lies on the line through two distinct points, all the
/// points are collinear.
proof fn lemma_collinear_on_line(ps: Seq<(i32, i32)>, s: Seq<(i32, i32)>, a: (i32, i32), m: (i32, i32))
    requires
        a != m,
        forall|j: int| 0 <= j < s.len() ==> cross(a, m, #[trigger] s[j]) == 0,
        forall|q: int| 0 <= q < ps.len() ==> s.contains(#[trigger] ps[q]),
    ensures
        all_collinear(ps),
{
    assert forall|i: int, j: int, k: int|
        0 <= i < ps.len() && 0 <= j < ps.len() && 0 <= k < ps.len() implies #[trigger] cross(ps[i], ps[j], ps[k])
        == 0 by {
        assert(s.contains(ps[i]) && s.contains(ps[j]) && s.contains(ps[k]));
        let (x, y, z) = (ps[i], ps[j], ps[k]);
        lemma_cross_lift(a, m, x);
        lemma_cross_lift(a, m, y);
        lemma_cross_lift(a, m, z);
        lemma_cross_lift(x, y, z);
        lemma_lift_flip_injective(a, m);
        lemma_on_line(lift(a), lift(m), lift(x), lift(y), lift(z));
    }
}

/// When the first and last sorted points agree, all points agree and are
/// collinear.
proof fn lemma_collinear_all_equal(ps: Seq<(i32, i32)>, s: Seq<(i32, i32)>)
    requires
        pts_sorted(s),
        s.len() >= 1,
        s[0] == s[s.len() - 1],
        forall|q: int| 0 <= q < ps.len() ==> s.contains(#[trigger] ps[q]),
    ensures
        all_collinear(ps),
{
    assert forall|j: int| 0 <= j < s.len() implies #[trigger] s[j] == s[0] by {
        lemma_order_ahead(s, false, 0, j);
        lemma_order_ahead(s, false, j, s.len() - 1);
        lemma_cross_lift(s[0], s[j], s[j]);
        lemma_cross_lift(s[j], s[s.len() - 1], s[j]);
    }
    assert forall|i: int, j: int, k: int|
        0 <= i < ps.len() && 0 <= j < ps.len() && 0 <= k < ps.len() implies #[trigger] cross(ps[i], ps[j], ps[k])
        == 0 by {
        assert(s.contains(ps[i]) && s.contains(ps[j]) && s.contains(ps[k]));
        lemma_cross_lift(s[0], s[0], s[0]);
        lemma_icross_repeat(lift(s[0]), lift(s[0]));
    }
}

/// The two chains of the hull over sorted points meet at the last point
/// turning strictly left, unless all the points are collinear.
proof fn lemma_turn_at_last(
    ps: Seq<(i32, i32)>,
    s: Seq<(i32, i32)>,
    lo: Seq<(i32, i32)>,
    lix: Seq<int>,
    up: Seq<(i32, i32)>,
    uix: Seq<int>,
)
    requires
        pts_sorted(s),
        s.len() >= 1,
        chain_inv(s, false, s.len() as int, lo, lix),
        chain_inv(s, true, s.len() as int, up, uix),
        lo.len() >= 2,
        up.len() >= 2,
        lo[0] == s[0],
        lo[lo.len() - 1] == s[s.len() - 1],
        up[0] == s[s.len() - 1],
        up[up.len() - 1] == s[0],
        forall|q: int| 0 <= q < ps.len() ==> s.contains(#[trigger] ps[q]),
        !all_collinear(ps),
    ensures
        cross(lo[lo.len() - 2], lo[lo.len() - 1], up[1]) > 0,
{
    let n = s.len() as int;
    let aa = lo.len() - 1;
    let a = lo[aa - 1];
    let m = lo[aa];
    let u = up[1];
    // u is one of the points
    assert(u == order_at(s, true, uix[1]));
    lemma_order_at_in(s, true, uix[1]);
    let k = choose|k: int| 0 <= k < s.len() && s[k] == u;
    assert(order_at(s, false, k) == u);
    assert(left_of_edge(lo, aa - 1, order_at(s, false, k)));
    if cross(a, m, u) <= 0 {
        // distinct ends
        if a == m {
            if aa >= 2 {
                assert(turn_at(lo, aa - 2) > 0);
                lemma_cross_lift(lo[aa - 2], m, m);
                lemma_icross_repeat(lift(lo[aa - 2]), lift(m));
            } else {
                lemma_collinear_all_equal(ps, s);
            }
            assert(false);
        }
        if u == m {
            if up.len() >= 3 {
                assert(turn_at(up, 0) > 0);
                lemma_cross_lift(m, m, up[2]);
                lemma_icross_repeat(lift(m), lift(up[2]));
            } else {
                lemma_collinear_all_equal(ps, s);
            }
            assert(false);
        }
        lemma_chain_ahead(s, false, n, lo, lix, aa - 1, aa);
        lemma_chain_ahead(s, true, n, up, uix, 0, 1);
        lemma_cross_lift(u, m, m);
        lemma_cross_lift(a, m, u);
        lemma_lift_flip_injective(a, m);
        lemma_lift_flip_injective(u, m);
        assert forall|j: int| 0 <= j < s.len() implies cross(a, m, #[trigger] s[j]) == 0 by {
            let q = s[j];
            assert(order_at(s, false, j) == q);
            assert(left_of_edge(lo, aa - 1, order_at(s, false, j)));
            assert(order_at(s, true, n - 1 - j) == q);
            assert(left_of_edge(up, 0, order_at(s, true, n - 1 - j)));
            lemma_cross_lift(a, m, q);
            lemma_cross_lift(m, u, q);
            lemma_flat_corner(lift(a), lift(m), lift(u), lift(q));
        }
        lemma_collinear_on_line(ps, s, a, m);
    }
}

/// The two chains meet at the first point turning strictly left, unless all
/// the points are collinear.
proof fn lemma_turn_at_first(
    ps: Seq<(i32, i32)>,
    s: Seq<(i32, i32)>,
    lo: Seq<(i32, i32)>,
    lix: Seq<int>,
    up: Seq<(i32, i32)>,
    uix: Seq<int>,
)
    requires
        pts_sorted(s),
        s.len() >= 1,
        chain_inv(s, false, s.len() as int, lo, lix),
        chain_inv(s, true, s.len() as int, up, uix),
        lo.len() >= 2,
        up.len() >= 2,
        lo[0] == s[0],
        lo[lo.len() - 1] == s[s.len() - 1],
        up[0] == s[s.len() - 1],
        up[up.len() - 1] == s[0],
        forall|q: int| 0 <= q < ps.len() ==> s.contains(#[trigger] ps[q]),
        !all_collinear(ps),
    ensures
        cross(up[up.len() - 2], up[up.len() - 1], lo[1]) > 0,
{
    let n = s.len() as int;
    let bb = up.len() - 1;
    let a = up[bb - 1];
    let m = up[bb];
    let u = lo[1];
    assert(u == order_at(s, false, lix[1]));
    lemma_order_at_in(s, false, lix[1]);
    let k = choose|k: int| 0 <= k < s.len() && s[k] == u;
    assert(order_at(s, true, n - 1 - k) == u);
    assert(left_of_edge(up, bb - 1, order_at(s, true, n - 1 - k)));
    if cross(a, m, u) <= 0 {
        if a == m {
            if bb >= 2 {
                assert(turn_at(up, bb - 2) > 0);
                lemma_cross_lift(up[bb - 2], m, m);
                lemma_icross_repeat(lift(up[bb - 2]), lift(m));
            } else {
                lemma_collinear_all_equal(ps, s);
            }
            assert(false);
        }
        if u == m {
            if lo.len() >= 3 {
                assert(turn_at(lo, 0) > 0);
                lemma_cross_lift(m, m, lo[2]);
                lemma_icross_repeat(lift(m), lift(lo[2]));
            } else {
                lemma_collinear_all_equal(ps, s);
            }
            assert(false);
        }
        lemma_chain_ahead(s, true, n, up, uix, bb - 1, bb);
        lemma_chain_ahead(s, false, n, lo, lix, 0, 1);
        lemma_cross_lift(m, u, u);
        lemma_cross_lift(a, m, u);
        lemma_lift_flip_injective(a, m);
        lemma_lift_flip_injective(u, m);
        assert forall|j: int| 0 <= j < s.len() implies cross(a, m, #[trigger] s[j]) == 0 by {
            let q = s[j];
            assert(order_at(s, true, n - 1 - j) == q);
            assert(left_of_edge(up, bb - 1, order_at(s, true, n - 1 - j)));
            assert(order_at(s, false, j) == q);
            assert(left_of_edge(lo, 0, order_at(s, false, j)));
            lemma_cross_lift(a, m, q);
            lemma_cross_lift(m, u, q);
            lemma_flat_corner(flip(lift(a)), flip(lift(m)), flip(lift(u)), flip(lift(q)));
        }
        lemma_collinear_on_line(ps, s, a, m);
    }
}

/// The hull joined from the two chains turns strictly left at every vertex,
/// unless all the points are collinear.
proof fn lemma_joined_convex(
    ps: Seq<(i32, i32)>,
    s: Seq<(i32, i32)>,
    lo: Seq<(i32, i32)>,
    lix: Seq<int>,
    up: Seq<(i32, i32)>,
    uix: Seq<int>,
)
    requires
        pts_sorted(s),
        s.len() >= 1,
        chain_inv(s, false, s.len() as int, lo, lix),
        chain_inv(s, true, s.len() as int, up, uix),
        lo.len() >= 2,
        up.len() >= 2,
        lo[0] == s[0],
        lo[lo.len() - 1] == s[s.len() - 1],
        up[0] == s[s.len() - 1],
        up[up.len() - 1] == s[0],
        forall|q: int| 0 <= q < ps.len() ==> s.contains(#[trigger] ps[q]),
        !all_collinear(ps),
    ensures
        strictly_convex(joined_chains(lo, up)),
{
    let r = joined_chains(lo, up);
    let aa = lo.len() - 1;
    let bb = up.len() - 1;
    let nn = aa + bb;
    assert(r.len() == nn);
    lemma_turn_at_last(ps, s, lo, lix, up, uix);
    lemma_turn_at_first(ps, s, lo, lix, up, uix);
    assert forall|i: int| 0 <= i < nn implies (i < aa ==> #[trigger] r[i] == lo[i]) && (i >= aa ==> r[i] == up[i
        - aa]) by {}
    if nn == 2 {
        assert(lo[0] == s[0] && up[1] == s[0]);
        lemma_cross_lift(lo[0], lo[1], lo[0]);
        lemma_icross_repeat(lift(lo[0]), lift(lo[1]));
        assert(false);
    }
    assert forall|i: int| 0 <= i < r.len() implies #[trigger] corner_turn(r, i) > 0 by {
        let i1 = (i + 1) % nn;
        let i2 = (i + 2) % nn;
        if i + 1 < nn {
            vstd::arithmetic::div_mod::lemma_small_mod((i + 1) as nat, nn as nat);
        } else {
            vstd::arithmetic::div_mod::lemma_mod_self_0(nn);
        }
        if i + 2 < nn {
            vstd::arithmetic::div_mod::lemma_small_mod((i + 2) as nat, nn as nat);
        } else if i + 2 == nn {
            vstd::arithmetic::div_mod::lemma_mod_self_0(nn);
        } else {
            vstd::arithmetic::div_mod::lemma_mod_add_multiples_vanish(1, nn);
            vstd::arithmetic::div_mod::lemma_small_mod(1, nn as nat);
        }
        assert(r[0] == lo[0]);
        if i <= aa - 2 {
            assert(r[i] == lo[i] && r[i1] == lo[i + 1]);
            if i + 2 < aa {
                assert(r[i2] == lo[i + 2]);
            } else {
                assert(r[i2] == up[0]);
            }
            assert(turn_at(lo, i) > 0);
        } else if i == aa - 1 {
            assert(r[i] == lo[aa - 1] && r[i1] == up[0]);
            if aa + 1 < nn {
                assert(r[i2] == up[1]);
            } else {
                assert(r[i2] == lo[0]);
            }
        } else if i <= nn - 2 {
            let j = i - aa;
            assert(r[i] == up[j] && r[i1] == up[j + 1]);
            if j + 2 < bb {
                assert(r[i2] == up[j + 2]);
            } else {
                assert(r[i2] == lo[0]);
            }
            assert(turn_at(up, j) > 0);
        } else {
            assert(r[i] == up[bb - 1] && r[i1] == lo[0]);
            if aa >= 2 {
                assert(r[i2] == lo[1]);
            } else {
                assert(r[i2] == up[0]);
            }
        }
    }
}

/// Splitting `d` along `b` and across it: `|b|^2 (d x a) = (b . d)(b x a) - (b x d)(b . a)`.
proof fn lemma_split_along(ax: int, ay: int, bx: int, by: int, dx: int, dy: int)
    ensures
        (bx * bx + by * by) * (dx * ay - dy * ax) == (bx * dx + by * dy) * (bx * ay - by * ax) - (bx * dy
            - by * dx) * (bx * ax + by * ay),
{
    let (m1, m2, m3, m4) = (bx * bx * (dx * ay), bx * bx * (dy * ax), by * by * (dx * ay), by * by * (dy * ax));
    let (m5, m6) = (bx * by * (dx * ax), bx * by * (dy * ay));
    assert((bx * bx + by * by) * (dx * ay - dy * ax) == m1 - m2 + m3 - m4) by (nonlinear_arith)
        requires
            m1 == bx * bx * (dx * ay),
            m2 == bx * bx * (dy * ax),
            m3 == by * by * (dx * ay),
            m4 == by * by * (dy * ax),
    ;
    let (u, v, w, z) = (bx * dx, by * dy, bx * ay, by * ax);
    assert((u + v) * (w - z) == u * w - u * z + v * w - v * z) by (nonlinear_arith);
    assert(u * w == m1) by (nonlinear_arith)
        requires
            u == bx * dx,
            w == bx * ay,
            m1 == bx * bx * (dx * ay),
    ;
    assert(u * z == m5) by (nonlinear_arith)
        requires
            u == bx * dx,
            z == by * ax,
            m5 == bx * by * (dx * ax),
    ;
    assert(v * w == m6) by (nonlinear_arith)
        requires
            v == by * dy,
            w == bx * ay,
            m6 == bx * by * (dy * ay),
    ;
    assert(v * z == m4) by (nonlinear_arith)
        requires
            v == by * dy,
            z == by * ax,
            m4 == by * by * (dy * ax),
    ;
    let (u2, v2, w2, z2) = (bx * dy, by * dx, bx * ax, by * ay);
    assert((u2 - v2) * (w2 + z2) == u2 * w2 + u2 * z2 - v2 * w2 - v2 * z2) by (nonlinear_arith);
    assert(u2 * w2 == m2) by (nonlinear_arith)
        requires
            u2 == bx * dy,
            w2 == bx * ax,
            m2 == bx * bx * (dy * ax),
    ;
    assert(u2 * z2 == m6) by (nonlinear_arith)
        requires
            u2 == bx * dy,
            z2 == by * ay,
            m6 == bx * by * (dy * ay),
    ;
    assert(v2 * w2 == m5) by (nonlinear_arith)
        requires
            v2 == by * dx,
            w2 == bx * ax,
            m5 == bx * by * (dx * ax),
    ;
    assert(v2 * z2 == m3) by (nonlinear_arith)
        requires
            v2 == by * dx,
            z2 == by * ay,
            m3 == by * by * (dx * ay),
    ;
}

/// With `a -> p -> b` turning strictly left, `b` after `p` and `d` before it
/// in the order by `x`, then `y`, and `b` and `d` each left of (or on) the
/// edge from `p` to the other, `d` lies strictly right of `a -> p`: so no
/// vertex lies on both chains of a hull.
proof fn lemma_pinched_vertex(a: (i32, i32), p: (i32, i32), b: (i32, i32), d: (i32, i32))
    requires
        cross(a, p, b) > 0,
        cross(p, b, d) >= 0,
        cross(p, d, b) >= 0,
        pt_le(p, b),
        p != b,
        pt_le(d, p),
        d != p,
    ensures
        cross(a, p, d) < 0,
{
    reveal(cross);
    if cross(a, p, d) < 0 {
        return;
    }
    let (ax, ay) = (a.0 - p.0, a.1 - p.1);
    let (bx, by) = (b.0 - p.0, b.1 - p.1);
    let (dx, dy) = (d.0 - p.0, d.1 - p.1);
    assert(bx * dy - by * dx == 0) by (nonlinear_arith)
        requires
            bx == b.0 - p.0,
            by == b.1 - p.1,
            dx == d.0 - p.0,
            dy == d.1 - p.1,
            (b.0 - p.0) * (d.1 - p.1) - (b.1 - p.1) * (d.0 - p.0) >= 0,
            (d.0 - p.0) * (b.1 - p.1) - (d.1 - p.1) * (b.0 - p.0) >= 0,
    ;
    assert(bx * ay - by * ax > 0) by (nonlinear_arith)
        requires
            ax == a.0 - p.0,
            ay == a.1 - p.1,
            bx == b.0 - p.0,
            by == b.1 - p.1,
            (p.0 - a.0) * (b.1 - a.1) - (p.1 - a.1) * (b.0 - a.0) > 0,
    ;
    assert(dx * ay - dy * ax >= 0) by (nonlinear_arith)
        requires
            ax == a.0 - p.0,
            ay == a.1 - p.1,
            dx == d.0 - p.0,
            dy == d.1 - p.1,
            (p.0 - a.0) * (d.1 - a.1) - (p.1 - a.1) * (d.0 - a.0) >= 0,
    ;
    // `d` lies on the line through `p` and `b`, on the far side of `p`
    let dot = bx * dx + by * dy;
    if bx > 0 {
        if dx == 0 {
            assert(bx * dy == 0) by (nonlinear_arith)
                requires
                    dx == 0,
                    bx * dy - by * dx == 0,
            ;
            assert(dy == 0) by (nonlinear_arith)
                requires
                    bx > 0,
                    bx * dy == 0,
            ;
        }
        assert(dx < 0);
        assert(bx * dot == dx * (bx * bx + by * by)) by (nonlinear_arith)
            requires
                bx * dy - by * dx == 0,
                dot == bx * dx + by * dy,
        ;
        assert(dx * (bx * bx + by * by) < 0) by (nonlinear_arith)
            requires
                dx < 0,
                bx > 0,
        ;
        assert(dot < 0) by (nonlinear_arith)
            requires
                bx > 0,
                bx * dot < 0,
        ;
    } else {
        assert(bx == 0 && by > 0);
        assert(dx == 0) by (nonlinear_arith)
            requires
                bx == 0,
                by > 0,
                bx * dy - by * dx == 0,
        ;
        assert(dy < 0);
        assert(dot < 0) by (nonlinear_arith)
            requires
                bx == 0,
                dx == 0,
                by > 0,
                dy < 0,
                dot == bx * dx + by * dy,
        ;
    }
    let nb = bx * bx + by * by;
    lemma_split_along(ax, ay, bx, by, dx, dy);
    assert(nb > 0) by (nonlinear_arith)
        requires
            nb == bx * bx + by * by,
            bx > 0 || by > 0,
    ;
    assert(nb * (dx * ay - dy * ax) < 0) by (nonlinear_arith)
        requires
            nb * (dx * ay - dy * ax) == dot * (bx * ay - by * ax),
            dot < 0,
            bx * ay - by * ax > 0,
    ;
    assert(nb * (dx * ay - dy * ax) >= 0) by (nonlinear_arith)
        requires
            nb > 0,
            dx * ay - dy * ax >= 0,
    ;
}

/// Neighbouring points of a chain differ: a strict turn needs three distinct
/// points, and a chain of two runs from the first sorted point to a different
/// last one.
proof fn lemma_chain_steps_differ(h: Seq<(i32, i32)>, m: int)
    requires
        turns_left(h),
        h.len() == 2 ==> h[0] != h[1],
        0 <= m < h.len() - 1,
    ensures
        h[m] != h[m + 1],
{
    if h.len() >= 3 {
        if m <= h.len() - 3 {
            assert(turn_at(h, m) > 0);
            lemma_cross_lift(h[m], h[m], h[m + 2]);
            lemma_icross_repeat(lift(h[m]), lift(h[m + 2]));
        } else {
            assert(turn_at(h, m - 1) > 0);
            lemma_cross_lift(h[m - 1], h[m], h[m]);
            lemma_icross_repeat(lift(h[m - 1]), lift(h[m]));
        }
    }
}

/// The points of a chain whose neighbours differ are all distinct.
proof fn lemma_chain_distinct(pts: Seq<(i32, i32)>, rev: bool, k: int, h: Seq<(i32, i32)>, ix: Seq<int>, m1: int, m2: int)
    requires
        pts_sorted(pts),
        chain_inv(pts, rev, k, h, ix),
        h.len() == 2 ==> h[0] != h[1],
        0 <= m1 < m2 < h.len(),
    ensures
        h[m1] != h[m2],
{
    lemma_chain_steps_differ(h, m2 - 1);
    lemma_chain_ahead(pts, rev, k, h, ix, m1, m2 - 1);
    lemma_chain_ahead(pts, rev, k, h, ix, m2 - 1, m2);
    if h[m1] == h[m2] {
        lemma_lift_flip_injective(h[m2 - 1], h[m2]);
        assert(img(h[m2 - 1], rev) == img(h[m2], rev));
    }
}

/// Over points that all lie on one line, a chain turning strictly left at
/// every point has at most two points.
proof fn lemma_collinear_chain_short(
    ps: Seq<(i32, i32)>,
    s: Seq<(i32, i32)>,
    rev: bool,
    h: Seq<(i32, i32)>,
    ix: Seq<int>,
)
    requires
        chain_inv(s, rev, s.len() as int, h, ix),
        forall|k: int| 0 <= k < s.len() ==> ps.contains(#[trigger] s[k]),
        all_collinear(ps),
    ensures
        h.len() <= 2,
{
    if h.len() >= 3 {
        assert(turn_at(h, 0) > 0);
        lemma_order_at_in(s, rev, ix[0]);
        lemma_order_at_in(s, rev, ix[1]);
        lemma_order_at_in(s, rev, ix[2]);
        let a = choose|k: int| 0 <= k < s.len() && s[k] == h[0];
        let b = choose|k: int| 0 <= k < s.len() && s[k] == h[1];
        let c = choose|k: int| 0 <= k < s.len() && s[k] == h[2];
        let i = choose|q: int| 0 <= q < ps.len() && ps[q] == s[a];
        let j = choose|q: int| 0 <= q < ps.len() && ps[q] == s[b];
        let k = choose|q: int| 0 <= q < ps.len() && ps[q] == s[c];
        assert(cross(ps[i], ps[j], ps[k]) == 0);
    }
}

/// The hull joined from the two chains visits no point twice, unless all the
/// points are collinear.
proof fn lemma_joined_distinct(
    ps: Seq<(i32, i32)>,
    s: Seq<(i32, i32)>,
    lo: Seq<(i32, i32)>,
    lix: Seq<int>,
    up: Seq<(i32, i32)>,
    uix: Seq<int>,
)
    requires
        pts_sorted(s),
        s.len() >= 1,
        chain_inv(s, false, s.len() as int, lo, lix),
        chain_inv(s, true, s.len() as int, up, uix),
        lo.len() >= 2,
        up.len() >= 2,
        lo[0] == s[0],
        lo[lo.len() - 1] == s[s.len() - 1],
        up[0] == s[s.len() - 1],
        up[up.len() - 1] == s[0],
        forall|q: int| 0 <= q < ps.len() ==> s.contains(#[trigger] ps[q]),
        !all_collinear(ps),
    ensures
        joined_chains(lo, up).no_duplicates(),
{
    let n = s.len() as int;
    let r = joined_chains(lo, up);
    let aa = lo.len() - 1;
    let bb = up.len() - 1;
    if s[0] == s[n - 1] {
        lemma_collinear_all_equal(ps, s);
    }
    assert forall|i: int, j: int| 0 <= i < j < r.len() implies #[trigger] r[i] != #[trigger] r[j] by {
        if j < aa {
            lemma_chain_distinct(s, false, n, lo, lix, i, j);
        } else if i >= aa {
            lemma_chain_distinct(s, true, n, up, uix, i - aa, j - aa);
        } else {
            let k = j - aa;
            let p = lo[i];
            assert(r[i] == p && r[j] == up[k]);
            if p == up[k] {
                if i == 0 {
                    lemma_chain_distinct(s, true, n, up, uix, k, bb);
                } else if k == 0 {
                    lemma_chain_distinct(s, false, n, lo, lix, i, aa);
                } else {
                    let a = lo[i - 1];
                    let b = lo[i + 1];
                    let d = up[k + 1];
                    assert(turn_at(lo, i - 1) > 0);
                    lemma_chain_distinct(s, false, n, lo, lix, i, i + 1);
                    lemma_chain_distinct(s, true, n, up, uix, k, k + 1);
                    lemma_chain_ahead(s, false, n, lo, lix, i, i + 1);
                    lemma_chain_ahead(s, true, n, up, uix, k, k + 1);
                    lemma_cross_lift(p, b, b);
                    lemma_cross_lift(d, p, p);
                    let jd = n - 1 - uix[k + 1];
                    assert(d == order_at(s, true, uix[k + 1]));
                    assert(order_at(s, false, jd) == d);
                    assert(left_of_edge(lo, i - 1, order_at(s, false, jd)));
                    assert(left_of_edge(lo, i, order_at(s, false, jd)));
                    let jb = lix[i + 1];
                    assert(b == order_at(s, false, jb));
                    assert(order_at(s, true, n - 1 - jb) == b);
                    assert(left_of_edge(up, k, order_at(s, true, n - 1 - jb)));
                    lemma_pinched_vertex(a, p, b, d);
                }
            }
        }
    }
}

/// `q` lies left of (or on) the edge from vertex `i` to the next vertex of the
/// closed polygon `poly` (the last vertex is followed by the first).
pub open spec fn left_of_side(poly: Seq<(i32, i32)>, i: int, q: (i32, i32)) -> bool {
    cross(poly[i], poly[(i + 1) % (poly.len() as int)], q) >= 0
}

/// Every point lies left of (or on) every side of the closed polygon `poly`:
/// the polygon, walked in order, encloses the points.
pub open spec fn encloses(poly: Seq<(i32, i32)>, points: Seq<(i32, i32)>) -> bool {
    forall|i: int, q: int|
        0 <= i < poly.len() && 0 <= q < points.len() ==> #[trigger] left_of_side(poly, i, points[q])
}

proof fn lemma_order_at_in(pts: Seq<(i32, i32)>, rev: bool, j: int)
    requires
        0 <= j < pts.len(),
    ensures
        pts.contains(order_at(pts, rev, j)),
{
    if rev {
        assert(pts[pts.len() - 1 - j] == order_at(pts, rev, j));
    } else {
        assert(pts[j] == order_at(pts, rev, j));
    }
}

/// One chain of the hull: the points are taken in order (from the first of
/// `pts`, or from the last back when `rev`), and before each is appended the
/// chain drops its end points at which it would not turn strictly left.
fn half_hull(pts: &Vec<(i32, i32)>, rev: bool) -> (h: Vec<(i32, i32)>)
    requires
        pts@.len() >= 1,
        pts_sorted(pts@),
        differences_fit(pts@),
    ensures
        exists|ix: Seq<int>| chain_inv(pts@, rev, pts@.len() as int, h@, ix),
{
    let n = pts.len();
    let mut h: Vec<(i32, i32)> = Vec::new();
    let ghost mut ix: Seq<int> = Seq::empty();
    let mut k: usize = 0;
    while k < n
        invariant
            n == pts@.len(),
            pts_sorted(pts@),
            differences_fit(pts@),
            0 <= k <= n,
            chain_inv(pts@, rev, k as int, h@, ix),
        decreases n - k,
    {
        let p = if rev {
            pts[n - 1 - k]
        } else {
            pts[k]
        };
        assert(p == order_at(pts@, rev, k as int));
        let ghost c = h@;
        let ghost cix = ix;
        proof {
            lemma_order_at_in(pts@, rev, k as int);
        }
        loop
            invariant
                n == pts@.len(),
                differences_fit(pts@),
                pts@.contains(p),
                0 <= k < n,
                p == order_at(pts@, rev, k as int),
                chain_inv(pts@, rev, k as int, c, cix),
                h@ == c.take(h@.len() as int),
                h@.len() <= c.len(),
                k > 0 ==> h@.len() >= 1,
                k == 0 ==> h@.len() == 0,
                h@.len() < c.len() ==> cross(c[h@.len() - 1], c[h@.len() as int], p) <= 0,
            ensures
                h@ == c.take(h@.len() as int),
                h@.len() <= c.len(),
                k > 0 ==> h@.len() >= 1,
                k == 0 ==> h@.len() == 0,
                h@.len() < c.len() ==> cross(c[h@.len() - 1], c[h@.len() as int], p) <= 0,
                h@.len() >= 2 ==> cross(c[h@.len() - 2], c[h@.len() - 1], p) > 0,
            decreases h@.len(),
        {
            if h.len() < 2 {
                break;
            }
            let o = h[h.len() - 2];
            let a = h[h.len() - 1];
            proof {
                let m1 = h@.len() - 2;
                let m2 = h@.len() - 1;
                assert(c[m1] == order_at(pts@, rev, cix[m1]));
                assert(c[m2] == order_at(pts@, rev, cix[m2]));
                lemma_order_at_in(pts@, rev, cix[m1]);
                lemma_order_at_in(pts@, rev, cix[m2]);
                lemma_diff_fit(pts@, o, a);
                lemma_diff_fit(pts@, o, p);
            }
            if cross_i64(o, a, p) > 0 {
                break;
            }
            h.pop();
            assert(h@ =~= c.take(h@.len() as int));
        }
        proof {
            lemma_chain_step(pts@, rev, k as int, c, cix, h@.len() as int);
            ix = cix.take(h@.len() as int).push(k as int);
        }
        h.push(p);
        k = k + 1;
    }
    h
}

/// The convex hull by Andrew's monotone chain: the lower chain from the
/// leftmost point, then the upper chain back; fewer than three points are
/// returned as they are. Every point lies left of (or on) every side of the
/// hull.
pub fn convex_hull(points: &[(i32, i32)]) -> (r: Vec<(i32, i32)>)
    requires
        differences_fit(points@),
    ensures
        points@.len() < 3 ==> r@ == points@,
        forall|i: int| 0 <= i < r@.len() ==> points@.contains(#[trigger] r@[i]),
        points@.len() >= 3 ==> r@.len() >= 2 && encloses(r@, points@),
        points@.len() >= 3 ==> forall|q: int| 0 <= q < points@.len() ==> pt_le(r@[0], #[trigger] points@[q]),
        points@.len() >= 3 && !all_collinear(points@) ==> strictly_convex(r@) && r@.no_duplicates(),
        points@.len() >= 3 && all_collinear(points@) ==> r@.len() == 2 && forall|q: int|
            0 <= q < points@.len() ==> pt_le(#[trigger] points@[q], r@[1]),
{
    if points.len() < 3 {
        let mut out: Vec<(i32, i32)> = Vec::new();
        let mut i: usize = 0;
        while i < points.len()
            invariant
                0 <= i <= points@.len(),
                out@ == points@.take(i as int),
            decreases points@.len() - i,
        {
            out.push(points[i]);
            i = i + 1;
            assert(out@ =~= points@.take(i as int));
        }
        assert(points@.take(points@.len() as int) =~= points@);
        return out;
    }
    let ghost ps = points@;
    let mut pts: Vec<(i32, i32)> = Vec::new();
    let mut i: usize = 0;
    while i < points.len()
        invariant
            ps == points@,
            0 <= i <= ps.len(),
            pts@ == ps.take(i as int),
        decreases ps.len() - i,
    {
        pts.push(points[i]);
        i = i + 1;
        assert(pts@ =~= ps.take(i as int));
    }
    assert(ps.take(ps.len() as int) =~= ps);
    sort_points(&mut pts);
    let ghost s = pts@;
    proof {
        broadcast use vstd::seq_lib::group_to_multiset_ensures;

        assert forall|k: int| 0 <= k < s.len() implies ps.contains(#[trigger] s[k]) by {
            assert(s.to_multiset().count(s[k]) > 0);
        }
        assert forall|q: int| 0 <= q < ps.len() implies s.contains(#[trigger] ps[q]) by {
            assert(ps.to_multiset().count(ps[q]) > 0);
        }
        assert(s.to_multiset().len() == ps.to_multiset().len());
        assert forall|a: int, b: int| 0 <= a < s.len() && 0 <= b < s.len() implies i32::MIN <= #[trigger] s[a].0
            - #[trigger] s[b].0 <= i32::MAX && i32::MIN <= s[a].1 - s[b].1 <= i32::MAX by {
            lemma_diff_fit(ps, s[b], s[a]);
        }
        reveal(pts_sorted);
    }
    let n = pts.len();
    let mut lower = half_hull(&pts, false);
    let mut upper = half_hull(&pts, true);
    let ghost lo = lower@;
    let ghost up = upper@;
    lower.pop();
    upper.pop();
    let mut q: usize = 0;
    let ghost a = lower@.len();
    while q < upper.len()
        invariant
            0 <= q <= upper@.len(),
            lower@ == lo.take(a as int) + upper@.take(q as int),
            a == lo.len() - 1,
        decreases upper@.len() - q,
    {
        lower.push(upper[q]);
        q = q + 1;
        assert(lower@ =~= lo.take(a as int) + upper@.take(q as int));
    }
    proof {
        let r = lower@;
        let b = up.len() - 1;
        assert(r =~= joined_chains(lo, up)) by {
            assert(upper@ =~= up.take(b));
        }
        assert(upper@ =~= up.take(b));
        assert(upper@.take(b) =~= up.take(b));
        assert(r =~= lo.take(a as int) + up.take(b));
        let lix = choose|ix: Seq<int>| chain_inv(s, false, n as int, lo, ix);
        let uix = choose|ix: Seq<int>| chain_inv(s, true, n as int, up, ix);
        assert(lo.len() >= 2) by {
            assert(lix[0] == 0 && lix[lo.len() - 1] == n - 1);
        }
        assert(up.len() >= 2) by {
            assert(uix[0] == 0 && uix[up.len() - 1] == n - 1);
        }
        assert(lo[0] == s[0]);
        assert(lo[lo.len() - 1] == s[n - 1]);
        assert(up[0] == s[n - 1]);
        assert(up[up.len() - 1] == s[0]);
        assert(r[0] == s[0]);
        if !all_collinear(ps) {
            assert forall|q: int| 0 <= q < ps.len() implies s.contains(#[trigger] ps[q]) by {}
            lemma_joined_convex(ps, s, lo, lix, up, uix);
            lemma_joined_distinct(ps, s, lo, lix, up, uix);
        } else {
            lemma_collinear_chain_short(ps, s, false, lo, lix);
            lemma_collinear_chain_short(ps, s, true, up, uix);
            assert(r.len() == 2 && r[1] == up[0]);
            assert forall|qq: int| 0 <= qq < ps.len() implies pt_le(#[trigger] ps[qq], r[1]) by {
                let j = choose|j: int| 0 <= j < s.len() && s[j] == ps[qq];
                if j < n - 1 {
                    reveal(pts_sorted);
                    assert(pt_le(s[j], s[n - 1]));
                }
            }
        }
        assert forall|qq: int| 0 <= qq < ps.len() implies pt_le(r[0], #[trigger] ps[qq]) by {
            let j = choose|j: int| 0 <= j < s.len() && s[j] == ps[qq];
            if j > 0 {
                reveal(pts_sorted);
                assert(pt_le(s[0], s[j]));
            }
        }
        assert forall|i: int| 0 <= i < r.len() implies ps.contains(#[trigger] r[i]) by {
            if i < a {
                assert(r[i] == lo[i]);
                lemma_order_at_in(s, false, lix[i]);
            } else {
                assert(r[i] == up[i - a]);
                lemma_order_at_in(s, true, uix[i - a]);
            }
        }
        assert forall|i: int, qq: int| 0 <= i < r.len() && 0 <= qq < ps.len() implies #[trigger] left_of_side(
            r,
            i,
            ps[qq],
        ) by {
            let pt = ps[qq];
            let j = choose|j: int| 0 <= j < s.len() && s[j] == pt;
            assert(order_at(s, false, j) == pt);
            assert(order_at(s, true, n - 1 - j) == pt);
            let nn = r.len() as int;
            if i + 1 < nn {
                vstd::arithmetic::div_mod::lemma_small_mod((i + 1) as nat, nn as nat);
            } else {
                vstd::arithmetic::div_mod::lemma_mod_self_0(nn);
            }
            if i < a - 1 {
                assert(r[i] == lo[i] && r[(i + 1) % nn] == lo[i + 1]);
                assert(left_of_edge(lo, i, order_at(s, false, j)));
            } else if i == a - 1 {
                assert((i + 1) % nn == a);
                assert(r[i] == lo[i] && r[a as int] == up[0]);
                assert(left_of_edge(lo, i, order_at(s, false, j)));
            } else if i < nn - 1 {
                assert(r[i] == up[i - a] && r[(i + 1) % nn] == up[i - a + 1]);
                assert(left_of_edge(up, i - a, order_at(s, true, n - 1 - j)));
            } else {
                assert((i + 1) % nn == 0);
                assert(r[i] == up[b - 1] && r[0] == lo[0]);
                assert(left_of_edge(up, b - 1, order_at(s, true, n - 1 - j)));
            }
        }
    }
    lower
}

proof fn lemma_diff_fit(ps: Seq<(i32, i32)>, a: (i32, i32), b: (i32, i32))
    requires
        differences_fit(ps),
        ps.contains(a),
        ps.contains(b),
    ensures
        i32::MIN <= b.0 - a.0 <= i32::MAX,
        i32::MIN <= b.1 - a.1 <= i32::MAX,
{
    let i = choose|i: int| 0 <= i < ps.len() && ps[i] == a;
    let j = choose|j: int| 0 <= j < ps.len() && ps[j] == b;
    assert(i32::MIN <= ps[j].0 - ps[i].0 <= i32::MAX);
}

/// The squared distance between two points.
pub open spec fn dist_sq(a: (i32, i32), b: (i32, i32)) -> int {
    (a.0 - b.0) * (a.0 - b.0) + (a.1 - b.1) * (a.1 - b.1)
}

/// The least distance between two corners of a frame, squared.
pub const MIN_CORNER_DISTANCE_SQ: u64 = 640000;

/// Two points at least 800 apart, the least distance between two corners of a
/// frame.
pub open spec fn far_apart(a: (i32, i32), b: (i32, i32)) -> bool {
    dist_sq(a, b) >= 640000
}

/// Every two of the picked points are far apart.
pub open spec fn spread_out(points: Seq<(i32, i32)>, pick: Seq<usize>) -> bool {
    forall|a: int, b: int|
        0 <= a < b < pick.len() ==> far_apart(
            points[#[trigger] pick[a] as int],
            points[#[trigger] pick[b] as int],
        )
}

proof fn lemma_square_bound(d: int)
    requires
        -0x8000_0000 <= d <= 0x8000_0000,
    ensures
        0 <= d * d <= 0x4000_0000_0000_0000,
{
    assert(0 <= d * d <= 0x4000_0000_0000_0000) by (nonlinear_arith)
        requires
            -0x8000_0000 <= d <= 0x8000_0000,
    ;
}

/// Whether two points are far apart, computed exactly.
fn is_far_apart(a: (i32, i32), b: (i32, i32)) -> (r: bool)
    requires
        i32::MIN <= a.0 - b.0 <= i32::MAX,
        i32::MIN <= a.1 - b.1 <= i32::MAX,
    ensures
        r == far_apart(a, b),
{
    let dx = (a.0 - b.0) as i64;
    let dy = (a.1 - b.1) as i64;
    proof {
        lemma_square_bound(dx as int);
        lemma_square_bound(dy as int);
    }
    let sx = (dx * dx) as u64;
    let sy = (dy * dy) as u64;
    sx + sy >= MIN_CORNER_DISTANCE_SQ
}

impl LocationModule {
    /// The ways to pick four of the points, every two of them far apart, as
    /// increasing position lists in lexicographic order: the candidate corners
    /// of a frame.
    pub fn spread_quads(points: &[(i32, i32)]) -> (r: Vec<Vec<usize>>)
        requires
            differences_fit(points@),
        ensures
            forall|i: int|
                0 <= i < r.deep_view().len() ==> is_combination(#[trigger] r.deep_view()[i], points@.len() as int, 0, 4)
                    && spread_out(points@, r.deep_view()[i]),
            forall|s: Seq<usize>|
                #[trigger] is_combination(s, points@.len() as int, 0, 4) && spread_out(points@, s)
                    ==> r.deep_view().contains(s),
            forall|i: int, j: int|
                0 <= i < j < r.deep_view().len() ==> lex_lt(#[trigger] r.deep_view()[i], #[trigger] r.deep_view()[j]),
    {
        let ghost ps = points@;
        let n = points.len();
        let combos = generate_combinations(n, 4);
        let ghost cs = combos.deep_view();
        let mut out: Vec<Vec<usize>> = Vec::new();
        let mut i: usize = 0;
        while i < combos.len()
            invariant
                ps == points@,
                n == ps.len(),
                differences_fit(ps),
                cs == combos.deep_view(),
                all_combinations(cs, n as int, 0, 4),
                0 <= i <= cs.len(),
                forall|p: int|
                    0 <= p < out.deep_view().len() ==> exists|j: int|
                        0 <= j < i && #[trigger] out.deep_view()[p] == #[trigger] cs[j],
                forall|p: int|
                    0 <= p < out.deep_view().len() ==> spread_out(ps, #[trigger] out.deep_view()[p]),
                forall|j: int|
                    0 <= j < i && spread_out(ps, #[trigger] cs[j]) ==> out.deep_view().contains(cs[j]),
                forall|p: int, q: int|
                    0 <= p < q < out.deep_view().len() ==> lex_lt(
                        #[trigger] out.deep_view()[p],
                        #[trigger] out.deep_view()[q],
                    ),
            decreases cs.len() - i,
        {
            let c = &combos[i];
            assert(c@ == cs[i as int]);
            assert(is_combination(cs[i as int], n as int, 0, 4));
            let a = c[0];
            let b = c[1];
            let d = c[2];
            let e = c[3];
            proof {
                assert(c@[0] < n && c@[1] < n && c@[2] < n && c@[3] < n);
                assert(c@[0] < c@[1] && c@[1] < c@[2] && c@[2] < c@[3]);
                assert(c@[0] < c@[2] && c@[0] < c@[3] && c@[1] < c@[3]);
                assert(i32::MIN <= ps[a as int].0 - ps[b as int].0 <= i32::MAX);
                assert(i32::MIN <= ps[a as int].0 - ps[d as int].0 <= i32::MAX);
                assert(i32::MIN <= ps[a as int].0 - ps[e as int].0 <= i32::MAX);
                assert(i32::MIN <= ps[b as int].0 - ps[d as int].0 <= i32::MAX);
                assert(i32::MIN <= ps[b as int].0 - ps[e as int].0 <= i32::MAX);
                assert(i32::MIN <= ps[d as int].0 - ps[e as int].0 <= i32::MAX);
            }
            let ok = is_far_apart(points[a], points[b]) && is_far_apart(points[a], points[d])
                && is_far_apart(points[a], points[e]) && is_far_apart(points[b], points[d])
                && is_far_apart(points[b], points[e]) && is_far_apart(points[d], points[e]);
            let ghost before = out.deep_view();
            proof {
                let s = cs[i as int];
                assert(s.len() == 4);
                if ok {
                    assert forall|x: int, y: int| 0 <= x < y < s.len() implies far_apart(
                        ps[#[trigger] s[x] as int],
                        ps[#[trigger] s[y] as int],
                    ) by {
                        assert(s[0] == a && s[1] == b && s[2] == d && s[3] == e);
                    }
                } else {
                    assert(!spread_out(ps, s)) by {
                        assert(s[0] == a && s[1] == b && s[2] == d && s[3] == e);
                        if spread_out(ps, s) {
                            assert(far_apart(ps[s[0] as int], ps[s[1] as int]));
                            assert(far_apart(ps[s[0] as int], ps[s[2] as int]));
                            assert(far_apart(ps[s[0] as int], ps[s[3] as int]));
                            assert(far_apart(ps[s[1] as int], ps[s[2] as int]));
                            assert(far_apart(ps[s[1] as int], ps[s[3] as int]));
                            assert(far_apart(ps[s[2] as int], ps[s[3] as int]));
                        }
                    }
                }
            }
            if ok {
                let q = vec![a, b, d, e];
                proof {
                    assert(q@ =~= cs[i as int]);
                }
                out.push(q);
                proof {
                    let now = out.deep_view();
                    assert(now.len() == before.len() + 1);
                    assert forall|p: int| 0 <= p < before.len() implies #[trigger] now[p] == before[p] by {}
                    assert(now[before.len() as int] == cs[i as int]);
                    assert forall|p: int| 0 <= p < now.len() implies exists|j: int|
                        0 <= j < i + 1 && #[trigger] now[p] == #[trigger] cs[j] by {
                        if p < before.len() {
                            assert(now[p] == before[p]);
                        } else {
                            assert(now[p] == cs[i as int]);
                        }
                    }
                    assert forall|j: int|
                        0 <= j < i + 1 && spread_out(ps, #[trigger] cs[j]) implies now.contains(cs[j]) by {
                        if j < i {
                            assert(before.contains(cs[j]));
                            let p = choose|p: int| 0 <= p < before.len() && before[p] == cs[j];
                            assert(now[p] == cs[j]);
                        } else {
                            assert(now[before.len() as int] == cs[j]);
                        }
                    }
                    assert forall|p: int, r: int| 0 <= p < r < now.len() implies lex_lt(
                        #[trigger] now[p],
                        #[trigger] now[r],
                    ) by {
                        if r < before.len() {
                            assert(now[p] == before[p] && now[r] == before[r]);
                        } else {
                            assert(now[p] == before[p]);
                            let j = choose|j: int| 0 <= j < i && #[trigger] before[p] == #[trigger] cs[j];
                            assert(lex_lt(cs[j], cs[i as int]));
                        }
                    }
                }
            } else {
                proof {
                    assert forall|j: int|
                        0 <= j < i + 1 && spread_out(ps, #[trigger] cs[j]) implies out.deep_view().contains(
                        cs[j],
                    ) by {
                        if j == i {
                            assert(!spread_out(ps, cs[i as int]));
                        }
                    }
                }
            }
            i = i + 1;
        }
        proof {
            let r = out.deep_view();
            assert forall|s: Seq<usize>|
                #[trigger] is_combination(s, n as int, 0, 4) && spread_out(ps, s) implies r.contains(s) by {
                assert(cs.contains(s));
                let j = choose|j: int| 0 <= j < cs.len() && cs[j] == s;
                assert(spread_out(ps, cs[j]));
            }
            assert forall|p: int| 0 <= p < r.len() implies is_combination(
                #[trigger] r[p],
                n as int,
                0,
                4,
            ) && spread_out(ps, r[p]) by {
                let j = choose|j: int| 0 <= j < cs.len() && #[trigger] r[p] == #[trigger] cs[j];
                assert(is_combination(cs[j], n as int, 0, 4));
            }
        }
        out
    }
}

/// `x + y` of a point, by which the top-left corner is found.
pub open spec fn corner_sum(p: (i32, i32)) -> int {
    p.0 + p.1
}

/// The first of the four points with the least `x + y`.
pub open spec fn top_left_index(s: Seq<(i32, i32)>) -> int {
    let m1: int = if corner_sum(s[1]) < corner_sum(s[0]) {
        1
    } else {
        0
    };
    let m2: int = if corner_sum(s[2]) < corner_sum(s[m1]) {
        2
    } else {
        m1
    };
    if corner_sum(s[3]) < corner_sum(s[m2]) {
        3
    } else {
        m2
    }
}

impl LocationModule {
    /// Turns the four corners round, keeping their cyclic order, so that the
    /// first one is the first with the least `x + y`.
    pub fn rotate_to_top_left(pts: &mut [(i32, i32); 4])
        requires
            forall|i: int| 0 <= i < 4 ==> i32::MIN <= #[trigger] corner_sum(old(pts)@[i]) <= i32::MAX,
        ensures
            forall|i: int|
                0 <= i < 4 ==> #[trigger] final(pts)@[i] == old(pts)@[(i + top_left_index(old(pts)@)) % 4],
            forall|j: int|
                0 <= j < top_left_index(old(pts)@) ==> corner_sum(#[trigger] old(pts)@[j]) > corner_sum(
                    old(pts)@[top_left_index(old(pts)@)],
                ),
            forall|j: int|
                0 <= j < 4 ==> corner_sum(#[trigger] old(pts)@[j]) >= corner_sum(
                    old(pts)@[top_left_index(old(pts)@)],
                ),
    {
        let ghost s = pts@;
        assert(corner_sum(s[0]) == pts[0].0 + pts[0].1);
        assert(i32::MIN <= corner_sum(s[1]) <= i32::MAX);
        assert(i32::MIN <= corner_sum(s[2]) <= i32::MAX);
        assert(i32::MIN <= corner_sum(s[3]) <= i32::MAX);
        assert(i32::MIN <= corner_sum(s[0]) <= i32::MAX);
        let mut min_index: usize = 0;
        let mut min_sum = pts[0].0 + pts[0].1;
        let mut i: usize = 1;
        while i < 4
            invariant
                s == pts@,
                forall|k: int| 0 <= k < 4 ==> i32::MIN <= #[trigger] corner_sum(s[k]) <= i32::MAX,
                1 <= i <= 4,
                0 <= min_index < i,
                min_sum == corner_sum(s[min_index as int]),
                min_index == (if i == 1 {
                    0
                } else if i == 2 {
                    if corner_sum(s[1]) < corner_sum(s[0]) {
                        1
                    } else {
                        0
                    }
                } else if i == 3 {
                    let m1: int = if corner_sum(s[1]) < corner_sum(s[0]) {
                        1
                    } else {
                        0
                    };
                    if corner_sum(s[2]) < corner_sum(s[m1]) {
                        2
                    } else {
                        m1
                    }
                } else {
                    top_left_index(s)
                }),
            decreases 4 - i,
        {
            assert(i32::MIN <= corner_sum(s[i as int]) <= i32::MAX);
            let sum = pts[i].0 + pts[i].1;
            if sum < min_sum {
                min_sum = sum;
                min_index = i;
            }
            i = i + 1;
        }
        let m = min_index;
        let r = [pts[m % 4], pts[(m + 1) % 4], pts[(m + 2) % 4], pts[(m + 3) % 4]];
        *pts = r;
    }
}

} // verus!
