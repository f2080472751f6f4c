use vstd::prelude::*;
use crate::config::ImageProcessingConfig;
use crate::myutils::image::{GrayImage, RgbImage};

verus! {

/// An axis-aligned box: top-left corner `(x, y)`, width `w`, height `h`.
#[derive(Debug, Clone, Copy, PartialEq, Eq, Structural)]
pub struct Coordinate {
    pub x: i32,
    pub y: i32,
    pub w: i32,
    pub h: i32,
}

/// A general quadrilateral given by its four corners.
#[derive(Debug, Clone, Copy)]
pub struct Quad {
    pub points: [(i32, i32); 4],
}

impl Quad {
    /// The box whose corner is `points[0]`, whose width runs to `points[1].x`
    /// and whose height runs to `points[2].y`.
    pub fn to_coordinate(&self) -> (c: Coordinate)
        requires
            i32::MIN <= self.points[1].0 - self.points[0].0 <= i32::MAX,
            i32::MIN <= self.points[2].1 - self.points[0].1 <= i32::MAX,
        ensures
            c.x == self.points[0].0,
            c.y == self.points[0].1,
            c.w == self.points[1].0 - self.points[0].0,
            c.h == self.points[2].1 - self.points[0].1,
    {
        Coordinate {
            x: self.points[0].0,
            y: self.points[0].1,
            w: self.points[1].0 - self.points[0].0,
            h: self.points[2].1 - self.points[0].1,
        }
    }
}

/// The images that the recognition steps work on, all of one size.
#[derive(Clone)]
pub struct ProcessedImage {
    pub rgb: RgbImage,
    pub gray: GrayImage,
    pub thresh: GrayImage,
    pub closed: GrayImage,
    pub closed_for_location: GrayImage,
}

/// The kind of a recognition item.
#[derive(Debug, Clone, Copy, PartialEq, Eq, Structural)]
pub enum RecType {
    SingleChoice,
    MultipleChoice,
    Vx,
    HandWriting,
    Location,
}

impl RecType {
    /// A single- or multiple-choice item, whose options are read by how much
    /// they are filled.
    pub fn is_choice(&self) -> (r: bool)
        ensures
            r == (*self == RecType::SingleChoice || *self == RecType::MultipleChoice),
    {
        match self {
            RecType::SingleChoice => true,
            RecType::MultipleChoice => true,
            _ => false,
        }
    }
}

/// The numeric code of a recognition kind, as it is written in JSON.
pub open spec fn rec_type_code(t: RecType) -> i32 {
    match t {
        RecType::SingleChoice => 1,
        RecType::MultipleChoice => 2,
        RecType::Vx => 3,
        RecType::HandWriting => 4,
        RecType::Location => 5,
    }
}

/// The recognition kind of a numeric code; unknown codes read as single choice.
pub open spec fn rec_type_of_code(v: i32) -> RecType {
    if v == 2 {
        RecType::MultipleChoice
    } else if v == 3 {
        RecType::Vx
    } else if v == 4 {
        RecType::HandWriting
    } else if v == 5 {
        RecType::Location
    } else {
        RecType::SingleChoice
    }
}

impl From<i32> for RecType {
    fn from(value: i32) -> (r: Self) {
        match value {
            1 => RecType::SingleChoice,
            2 => RecType::MultipleChoice,
            3 => RecType::Vx,
            4 => RecType::HandWriting,
            5 => RecType::Location,
            _ => RecType::SingleChoice,
        }
    }
}

impl vstd::std_specs::convert::FromSpecImpl<i32> for RecType {
    open spec fn obeys_from_spec() -> bool {
        true
    }

    open spec fn from_spec(v: i32) -> RecType {
        rec_type_of_code(v)
    }
}

impl From<RecType> for i32 {
    fn from(rec_type: RecType) -> (r: Self) {
        match rec_type {
            RecType::SingleChoice => 1,
            RecType::MultipleChoice => 2,
            RecType::Vx => 3,
            RecType::HandWriting => 4,
            RecType::Location => 5,
        }
    }
}

impl vstd::std_specs::convert::FromSpecImpl<RecType> for i32 {
    open spec fn obeys_from_spec() -> bool {
        true
    }

    open spec fn from_spec(v: RecType) -> i32 {
        rec_type_code(v)
    }
}

/// Reading a kind back from its code gives the kind; a known code survives the
/// way back and forth.
pub proof fn rec_type_code_round_trip(t: RecType, v: i32)
    ensures
        rec_type_of_code(rec_type_code(t)) == t,
        1 <= v <= 5 ==> rec_type_code(rec_type_of_code(v)) == v,
        !(1 <= v <= 5) ==> rec_type_of_code(v) == RecType::SingleChoice,
{
}

/// One recognition item: its kind and the boxes of its options.
#[derive(Debug, Clone)]
pub struct RecItem {
    pub rec_type: RecType,
    pub sub_options: Vec<Coordinate>,
}

/// The assist marks in the left and right margins of a page.
#[derive(Debug, Clone)]
pub struct AssistLocation {
    pub left: Vec<Coordinate>,
    pub right: Vec<Coordinate>,
}

/// `a` comes no later than `b` when ordered by `x`, then by `y`.
pub open spec fn xy_le(a: Coordinate, b: Coordinate) -> bool {
    a.x < b.x || (a.x == b.x && a.y <= b.y)
}

/// The boxes are in `(x, y)` order.
pub open spec fn xy_sorted(s: Seq<Coordinate>) -> bool {
    forall|i: int, j: int| 0 <= i < j < s.len() ==> xy_le(#[trigger] s[i], #[trigger] s[j])
}

/// Selects the boxes whose corner is `k`.
pub open spec fn at_corner(k: (i32, i32)) -> spec_fn(Coordinate) -> bool {
    |c: Coordinate| c.x == k.0 && c.y == k.1
}

/// `after` is `before` sorted stably by `(x, y)`: sorted, the same boxes, and the
/// boxes that share a corner keep their relative order.
pub open spec fn stable_xy_sort_of(before: Seq<Coordinate>, after: Seq<Coordinate>) -> bool {
    &&& xy_sorted(after)
    &&& after.to_multiset() == before.to_multiset()
    &&& forall|k: (i32, i32)| #[trigger] after.filter(at_corner(k)) == before.filter(at_corner(k))
}

pub(crate) proof fn lemma_filter_none<A>(s: Seq<A>, p: spec_fn(A) -> bool)
    requires
        forall|i: int| 0 <= i < s.len() ==> !p(#[trigger] s[i]),
    ensures
        s.filter(p) =~= Seq::<A>::empty(),
{
    broadcast use Seq::lemma_filter_pred, Seq::lemma_filter_contains_rev;

    if s.filter(p).len() > 0 {
        let x = s.filter(p)[0];
        assert(s.filter(p).contains(x));
        assert(p(x));
        let i = choose|i: int| 0 <= i < s.len() && s[i] == x;
        assert(!p(s[i]));
    }
}

/// Sorts boxes stably by `(x, y)` (insertion into a sorted prefix).
fn sort_by_xy(v: &mut Vec<Coordinate>)
    ensures
        stable_xy_sort_of(old(v)@, final(v)@),
{
    let ghost orig = v@;
    let n = v.len();
    let mut sorted: Vec<Coordinate> = Vec::new();
    let mut i: usize = 0;
    assert(orig.take(0) =~= sorted@);
    while i < n
        invariant
            n == orig.len(),
            v@ == orig,
            0 <= i <= n,
            xy_sorted(sorted@),
            sorted@.to_multiset() == orig.take(i as int).to_multiset(),
            forall|k: (i32, i32)| #[trigger] sorted@.filter(at_corner(k)) == orig.take(i as int).filter(at_corner(k)),
        decreases n - i,
    {
        let e = v[i];
        let mut pos: usize = 0;
        while pos < sorted.len() && (sorted[pos].x < e.x || (sorted[pos].x == e.x && sorted[pos].y <= e.y))
            invariant
                0 <= pos <= sorted.len(),
                forall|j: int| 0 <= j < pos ==> xy_le(#[trigger] sorted@[j], e),
            decreases sorted.len() - pos,
        {
            pos = pos + 1;
        }
        let ghost before = sorted@;
        proof {
            assert forall|j: int| pos <= j < before.len() implies !xy_le(#[trigger] before[j], e) by {
                assert(!xy_le(before[pos as int], e));
                assert(xy_le(before[pos as int], before[j]) || j == pos);
            }
        }
        sorted.insert(pos, e);
        proof {
            let a = before.subrange(0, pos as int);
            let b = before.subrange(pos as int, before.len() as int);
            assert(before =~= a + b);
            assert(sorted@ =~= a.push(e) + b);
            assert(orig.take(i + 1) =~= orig.take(i as int).push(e));
            // sortedness
            assert forall|p: int, q: int| 0 <= p < q < sorted@.len() implies xy_le(
                #[trigger] sorted@[p],
                #[trigger] sorted@[q],
            ) by {
                if q < pos {
                } else if q == pos {
                    assert(sorted@[p] == before[p]);
                } else if p == pos {
                    assert(sorted@[q] == before[q - 1]);
                    assert(!xy_le(before[q - 1], e));
                } else if p < pos {
                    assert(sorted@[q] == before[q - 1]);
                    assert(sorted@[p] == before[p]);
                } else {
                    assert(sorted@[q] == before[q - 1]);
                    assert(sorted@[p] == before[p - 1]);
                }
            }
            // same elements
            broadcast use vstd::seq_lib::group_to_multiset_ensures;

            vstd::seq_lib::lemma_multiset_commutative(a.push(e), b);
            vstd::seq_lib::lemma_multiset_commutative(a, b);
            assert(sorted@.to_multiset() =~= before.to_multiset().insert(e));
            // stability
            assert forall|k: (i32, i32)| #[trigger] sorted@.filter(at_corner(k)) == orig.take(
                i + 1,
            ).filter(at_corner(k)) by {
                let p = at_corner(k);
                Seq::filter_distributes_over_add(a.push(e), b, p);
                Seq::filter_distributes_over_add(a, b, p);
                a.lemma_filter_push(e, p);
                orig.take(i as int).lemma_filter_push(e, p);
                if p(e) {
                    assert forall|j: int| 0 <= j < b.len() implies !p(#[trigger] b[j]) by {
                        assert(b[j] == before[pos + j]);
                        assert(!xy_le(before[pos + j], e));
                    }
                    lemma_filter_none(b, p);
                    assert(b.filter(p) + Seq::<Coordinate>::empty() =~= b.filter(p));
                    assert(sorted@.filter(p) =~= a.filter(p).push(e));
                    assert(before.filter(p) =~= a.filter(p));
                }
            }
        }
        i = i + 1;
    }
    proof {
        assert(orig.take(n as int) =~= orig);
    }
    *v = sorted;
}

impl AssistLocation {
    /// Sorts both margins by `x`, then by `y`.
    pub fn init_sort(&mut self)
        ensures
            stable_xy_sort_of(old(self).left@, final(self).left@),
            stable_xy_sort_of(old(self).right@, final(self).right@),
    {
        sort_by_xy(&mut self.left);
        sort_by_xy(&mut self.right);
    }
}

/// The marked layout of a whole answer sheet.
#[derive(Debug, Clone)]
pub struct MarkPaper {
    pub vx_model_path: String,
    pub boundary: Coordinate,
    pub page_number: Vec<Coordinate>,
    pub pages: Vec<MarkPage>,
    pub num_threads: usize,
}

/// The number of worker threads when the layout names none.
pub fn default_num_threads() -> (r: usize)
    ensures
        r == 1,
{
    1
}

/// The marked layout of one page.
#[derive(Debug, Clone)]
pub struct MarkPage {
    pub rec_items: Vec<RecItem>,
    pub assist_location: AssistLocation,
}

impl MarkPage {
    fn init_sort(&mut self)
        ensures
            stable_xy_sort_of(old(self).assist_location.left@, final(self).assist_location.left@),
            stable_xy_sort_of(old(self).assist_location.right@, final(self).assist_location.right@),
            final(self).rec_items@ == old(self).rec_items@,
    {
        self.assist_location.init_sort();
    }
}

/// `after` is `before` with its assist marks sorted and nothing else changed.
pub open spec fn page_sorted_from(before: MarkPage, after: MarkPage) -> bool {
    &&& after.rec_items@ == before.rec_items@
    &&& stable_xy_sort_of(before.assist_location.left@, after.assist_location.left@)
    &&& stable_xy_sort_of(before.assist_location.right@, after.assist_location.right@)
}

impl MarkPaper {
    /// A portrait sheet (narrower than high) is A4; otherwise A3.
    pub fn is_a4(&self) -> (r: bool)
        ensures
            r == (self.boundary.w < self.boundary.h),
    {
        self.boundary.w < self.boundary.h
    }

    /// The width a photo of the sheet is scaled to: the A4 width for a
    /// portrait sheet, the A3 width otherwise.
    pub fn target_width(&self) -> (r: u32)
        ensures
            r == (if self.boundary.w < self.boundary.h {
                ImageProcessingConfig::TARGET_WIDTH_A4
            } else {
                ImageProcessingConfig::TARGET_WIDTH_A3
            }),
    {
        if self.is_a4() {
            ImageProcessingConfig::TARGET_WIDTH_A4
        } else {
            ImageProcessingConfig::TARGET_WIDTH_A3
        }
    }

    /// Sorts the assist marks of every page.
    pub fn init_sort(&mut self)
        ensures
            final(self).vx_model_path@ == old(self).vx_model_path@,
            final(self).boundary == old(self).boundary,
            final(self).page_number@ == old(self).page_number@,
            final(self).num_threads == old(self).num_threads,
            final(self).pages@.len() == old(self).pages@.len(),
            forall|i: int|
                0 <= i < old(self).pages@.len() ==> page_sorted_from(
                    #[trigger] old(self).pages@[i],
                    final(self).pages@[i],
                ),
    {
        let ghost orig = self.pages@;
        let n = self.pages.len();
        let mut pages: Vec<MarkPage> = Vec::new();
        std::mem::swap(&mut pages, &mut self.pages);
        let mut out: Vec<MarkPage> = Vec::new();
        let mut i: usize = 0;
        while i < n
            invariant
                pages@ == orig.subrange(i as int, n as int),
                n == orig.len(),
                0 <= i <= n,
                out@.len() == i,
                forall|j: int| 0 <= j < i ==> page_sorted_from(#[trigger] orig[j], out@[j]),
            decreases n - i,
        {
            let mut page = pages.remove(0);
            assert(page == orig[i as int]);
            page.init_sort();
            out.push(page);
            i = i + 1;
            assert(pages@ =~= orig.subrange(i as int, n as int));
        }
        self.pages = out;
    }
}

} // verus!
