use vstd::prelude::*;
use crate::models::Coordinate;

verus! {

/// `v / 2` as Rust computes it on `i32`: the quotient rounded toward zero.
pub open spec fn half_toward_zero(v: int) -> int {
    if v >= 0 {
        v / 2
    } else {
        -((-v) / 2)
    }
}

/// The vertical centre of a box.
pub open spec fn y_center(c: Coordinate) -> int {
    c.y + half_toward_zero(c.h as int)
}

/// The vertical centres of the boxes.
pub fn extract_y_centers(coords: &[Coordinate]) -> (r: Vec<i32>)
    requires
        forall|i: int| 0 <= i < coords@.len() ==> i32::MIN <= #[trigger] y_center(coords@[i]) <= i32::MAX,
    ensures
        r@.len() == coords@.len(),
        forall|i: int| 0 <= i < coords@.len() ==> #[trigger] r@[i] == y_center(coords@[i]),
{
    let mut r: Vec<i32> = Vec::new();
    let mut i: usize = 0;
    while i < coords.len()
        invariant
            0 <= i <= coords@.len(),
            r@.len() == i,
            forall|j: int| 0 <= j < coords@.len() ==> i32::MIN <= #[trigger] y_center(coords@[j]) <= i32::MAX,
            forall|j: int| 0 <= j < i ==> #[trigger] r@[j] == y_center(coords@[j]),
        decreases coords@.len() - i,
    {
        let c = coords[i];
        assert(i32::MIN <= y_center(coords@[i as int]) <= i32::MAX);
        r.push(c.y + c.h / 2);
        i = i + 1;
    }
    r
}

/// Distance between two values.
pub open spec fn gap(a: i32, b: i32) -> int {
    if a >= b {
        a - b
    } else {
        b - a
    }
}

/// Entry `i` of `base` is the one a probe `v` is matched to: it is still free,
/// no free entry is nearer, every earlier free entry is strictly farther, and
/// its distance is below `i32::MAX`.
pub open spec fn is_pick(base: Seq<i32>, taken: Seq<bool>, v: i32, i: int) -> bool {
    &&& 0 <= i < base.len()
    &&& !taken[i]
    &&& gap(base[i], v) < i32::MAX
    &&& forall|j: int| 0 <= j < base.len() && !taken[j] ==> gap(base[i], v) <= #[trigger] gap(base[j], v)
    &&& forall|j: int| 0 <= j < i && !taken[j] ==> gap(base[i], v) < #[trigger] gap(base[j], v)
}

/// The entry a probe is matched to: the first nearest free entry, or entry 0
/// when no free entry is nearer than `i32::MAX`.
pub open spec fn pick(base: Seq<i32>, taken: Seq<bool>, v: i32) -> int {
    if exists|i: int| is_pick(base, taken, v, i) {
        choose|i: int| is_pick(base, taken, v, i)
    } else {
        0
    }
}

/// Which entries of `base` are taken after matching the first `k` probes, each
/// to its nearest free entry.
pub open spec fn taken_after(base: Seq<i32>, probes: Seq<i32>, k: int) -> Seq<bool>
    decreases k,
{
    if k <= 0 {
        Seq::new(base.len(), |i: int| false)
    } else {
        let t = taken_after(base, probes, k - 1);
        t.update(pick(base, t, probes[k - 1]), true)
    }
}

/// The positions below `i` that are not taken, in increasing order.
pub open spec fn free_upto(taken: Seq<bool>, i: int) -> Seq<usize>
    decreases i,
{
    if i <= 0 {
        Seq::empty()
    } else if !taken[i - 1] {
        free_upto(taken, i - 1).push((i - 1) as usize)
    } else {
        free_upto(taken, i - 1)
    }
}

/// The number of taken positions below `i`.
pub open spec fn taken_count(taken: Seq<bool>, i: int) -> int
    decreases i,
{
    if i <= 0 {
        0
    } else if taken[i - 1] {
        taken_count(taken, i - 1) + 1
    } else {
        taken_count(taken, i - 1)
    }
}

/// While matching, no distance that is computed overflows `i32`.
pub open spec fn gaps_fit(base: Seq<i32>, probes: Seq<i32>) -> bool {
    forall|k: int, j: int| #![trigger taken_after(base, probes, k)[j]]
        0 <= k < probes.len() && 0 <= j < base.len() && !taken_after(base, probes, k)[j]
            ==> -i32::MAX <= base[j] - probes[k] <= i32::MAX
}

/// Every probe finds a free entry nearer than `i32::MAX`.
pub open spec fn gaps_small(base: Seq<i32>, probes: Seq<i32>) -> bool {
    forall|k: int, j: int|
        0 <= k < probes.len() && 0 <= j < base.len() ==> #[trigger] gap(base[j], probes[k]) < i32::MAX
}

proof fn lemma_pick_unique(base: Seq<i32>, taken: Seq<bool>, v: i32, i: int)
    requires
        is_pick(base, taken, v, i),
    ensures
        pick(base, taken, v) == i,
{
    let p = choose|p: int| is_pick(base, taken, v, p);
    if p < i {
        assert(gap(base[i], v) < gap(base[p], v));
    } else if p > i {
        assert(gap(base[p], v) < gap(base[i], v));
    }
}

proof fn lemma_free_upto(taken: Seq<bool>, i: int)
    requires
        0 <= i <= taken.len(),
        taken.len() <= usize::MAX,
    ensures
        free_upto(taken, i).len() + taken_count(taken, i) == i,
        forall|a: int, b: int|
            0 <= a < b < free_upto(taken, i).len() ==> #[trigger] free_upto(taken, i)[a]
                < #[trigger] free_upto(taken, i)[b],
        forall|a: int|
            0 <= a < free_upto(taken, i).len() ==> #[trigger] free_upto(taken, i)[a] < i
                && !taken[free_upto(taken, i)[a] as int],
        forall|j: int| 0 <= j < i && !taken[j] ==> free_upto(taken, i).contains(j as usize),
    decreases i,
{
    if i > 0 {
        lemma_free_upto(taken, i - 1);
        let prev = free_upto(taken, i - 1);
        if !taken[i - 1] {
            assert(free_upto(taken, i)[prev.len() as int] == (i - 1) as usize);
            assert forall|j: int| 0 <= j < i && !taken[j] implies free_upto(taken, i).contains(
                j as usize,
            ) by {
                if j < i - 1 {
                    let a = choose|a: int| 0 <= a < prev.len() && prev[a] == j as usize;
                    assert(free_upto(taken, i)[a] == j as usize);
                } else {
                    assert(free_upto(taken, i)[prev.len() as int] == j as usize);
                }
            }
        }
    }
}

proof fn lemma_taken_count_update(taken: Seq<bool>, p: int, i: int)
    requires
        0 <= p < taken.len(),
        !taken[p],
        0 <= i <= taken.len(),
    ensures
        taken_count(taken.update(p, true), i) == taken_count(taken, i) + if p < i { 1int } else { 0int },
    decreases i,
{
    if i > 0 {
        lemma_taken_count_update(taken, p, i - 1);
    }
}

proof fn lemma_taken_count_none(taken: Seq<bool>, i: int)
    requires
        0 <= i <= taken.len(),
        forall|j: int| 0 <= j < i ==> !taken[j],
    ensures
        taken_count(taken, i) == 0,
    decreases i,
{
    if i > 0 {
        lemma_taken_count_none(taken, i - 1);
    }
}

proof fn lemma_some_free(taken: Seq<bool>, i: int)
    requires
        0 <= i <= taken.len(),
        taken_count(taken, i) < i,
    ensures
        exists|j: int| 0 <= j < i && !taken[j],
    decreases i,
{
    if i > 0 && taken[i - 1] {
        lemma_some_free(taken, i - 1);
    }
}

/// Matches each probe to the nearest free entry of `base` and returns the
/// positions of `base` that no probe took.
fn unmatched_indices(base: &[i32], probes: &[i32]) -> (r: Vec<usize>)
    requires
        base@.len() > 0,
        gaps_fit(base@, probes@),
    ensures
        r@ == free_upto(taken_after(base@, probes@, probes@.len() as int), base@.len() as int),
        probes@.len() <= base@.len() && gaps_small(base@, probes@) ==> taken_count(
            taken_after(base@, probes@, probes@.len() as int),
            base@.len() as int,
        ) == probes@.len(),
{
    let n = base.len();
    let m = probes.len();
    let mut matched: Vec<bool> = Vec::new();
    let mut i: usize = 0;
    while i < n
        invariant
            n == base@.len(),
            0 <= i <= n,
            matched@.len() == i,
            forall|j: int| 0 <= j < i ==> !matched@[j],
        decreases n - i,
    {
        matched.push(false);
        i = i + 1;
    }
    assert(matched@ =~= taken_after(base@, probes@, 0));
    proof {
        lemma_taken_count_none(matched@, n as int);
    }
    let mut k: usize = 0;
    while k < m
        invariant
            n == base@.len(),
            m == probes@.len(),
            n > 0,
            0 <= k <= m,
            gaps_fit(base@, probes@),
            matched@ == taken_after(base@, probes@, k as int),
            matched@.len() == n,
            m <= n && gaps_small(base@, probes@) ==> taken_count(matched@, n as int) == k,
        decreases m - k,
    {
        let v = probes[k];
        let ghost t = matched@;
        let mut best_idx: usize = 0;
        let mut best_diff: i32 = i32::MAX;
        let mut idx: usize = 0;
        while idx < n
            invariant
                n == base@.len(),
                m == probes@.len(),
                0 <= k < m,
                v == probes@[k as int],
                n > 0,
                0 <= idx <= n,
                gaps_fit(base@, probes@),
                t == taken_after(base@, probes@, k as int),
                matched@ == t,
                t.len() == n,
                best_diff < i32::MAX ==> {
                    &&& 0 <= best_idx < idx
                    &&& !t[best_idx as int]
                    &&& gap(base@[best_idx as int], v) == best_diff
                    &&& forall|j: int| 0 <= j < idx && !t[j] ==> best_diff <= #[trigger] gap(base@[j], v)
                    &&& forall|j: int| 0 <= j < best_idx && !t[j] ==> best_diff < #[trigger] gap(base@[j], v)
                },
                best_diff == i32::MAX ==> best_idx == 0 && forall|j: int|
                    0 <= j < idx && !t[j] ==> #[trigger] gap(base@[j], v) >= i32::MAX,
            decreases n - idx,
        {
            if !matched[idx] {
                proof {
                    assert(!(taken_after(base@, probes@, k as int))[idx as int]);
                }
                let d = base[idx] - v;
                let diff = if d < 0 {
                    -d
                } else {
                    d
                };
                if diff < best_diff {
                    best_diff = diff;
                    best_idx = idx;
                }
            }
            idx = idx + 1;
        }
        proof {
            if best_diff < i32::MAX {
                assert(is_pick(base@, t, v, best_idx as int));
                lemma_pick_unique(base@, t, v, best_idx as int);
            } else {
                assert forall|i: int| !is_pick(base@, t, v, i) by {
                    if is_pick(base@, t, v, i) {
                        assert(gap(base@[i], v) >= i32::MAX);
                    }
                }
            }
            if m <= n && gaps_small(base@, probes@) {
                assert(taken_count(t, n as int) == k);
                lemma_some_free(t, n as int);
                let j = choose|j: int| 0 <= j < n && !t[j];
                assert(gap(base@[j], v) < i32::MAX);
                assert(best_diff < i32::MAX);
                lemma_taken_count_update(t, best_idx as int, n as int);
            }
        }
        matched.set(best_idx, true);
        k = k + 1;
    }
    let mut r: Vec<usize> = Vec::new();
    let mut i: usize = 0;
    while i < n
        invariant
            n == base@.len(),
            0 <= i <= n,
            matched@.len() == n,
            r@ == free_upto(matched@, i as int),
        decreases n - i,
    {
        if !matched[i] {
            r.push(i);
        }
        i = i + 1;
    }
    r
}

/// The positions that the complete column has and the short column misses;
/// none when the short column is not shorter.
pub open spec fn missing_spec(complete_y: Seq<i32>, incomplete_y: Seq<i32>) -> Seq<usize> {
    if incomplete_y.len() >= complete_y.len() {
        Seq::empty()
    } else {
        free_upto(
            taken_after(complete_y, incomplete_y, incomplete_y.len() as int),
            complete_y.len() as int,
        )
    }
}

/// The positions of the long column that match nothing in the complete
/// column. None when the long column is not longer.
pub open spec fn extra_spec(complete_y: Seq<i32>, extra_y: Seq<i32>) -> Seq<usize> {
    if extra_y.len() <= complete_y.len() {
        Seq::empty()
    } else {
        free_upto(taken_after(extra_y, complete_y, complete_y.len() as int), extra_y.len() as int)
    }
}

/// Fewer marks detected than expected: matches each detected mark to the
/// nearest unmatched mark of the complete column and returns the positions of
/// the complete column that stay unmatched, in increasing order.
pub fn find_missing_indices(complete_y: &[i32], incomplete_y: &[i32]) -> (r: Vec<usize>)
    requires
        incomplete_y@.len() < complete_y@.len() ==> gaps_fit(complete_y@, incomplete_y@),
    ensures
        r@ == missing_spec(complete_y@, incomplete_y@),
        forall|a: int, b: int| 0 <= a < b < r@.len() ==> #[trigger] r@[a] < #[trigger] r@[b],
        forall|a: int| 0 <= a < r@.len() ==> #[trigger] r@[a] < complete_y@.len(),
        incomplete_y@.len() < complete_y@.len() && gaps_small(complete_y@, incomplete_y@)
            ==> r@.len() == complete_y@.len() - incomplete_y@.len(),
{
    let n = complete_y.len();
    let m = incomplete_y.len();
    if m >= n {
        return Vec::new();
    }
    let r = unmatched_indices(complete_y, incomplete_y);
    proof {
        lemma_taken_after_len(complete_y@, incomplete_y@, m as int);
        lemma_free_upto(taken_after(complete_y@, incomplete_y@, m as int), n as int);
    }
    r
}

/// More marks detected than expected: matches each mark of the complete
/// column to the nearest unmatched detected mark and returns the positions of
/// the detected marks that stay unmatched, in increasing order.
pub fn find_extra_indices(complete_y: &[i32], extra_y: &[i32]) -> (r: Vec<usize>)
    requires
        extra_y@.len() > complete_y@.len() ==> gaps_fit(extra_y@, complete_y@),
    ensures
        r@ == extra_spec(complete_y@, extra_y@),
        forall|a: int, b: int| 0 <= a < b < r@.len() ==> #[trigger] r@[a] < #[trigger] r@[b],
        forall|a: int| 0 <= a < r@.len() ==> #[trigger] r@[a] < extra_y@.len(),
        extra_y@.len() > complete_y@.len() && gaps_small(extra_y@, complete_y@) ==> r@.len()
            == extra_y@.len() - complete_y@.len(),
{
    let n = complete_y.len();
    let m = extra_y.len();
    if m <= n {
        return Vec::new();
    }
    let r = unmatched_indices(extra_y, complete_y);
    proof {
        lemma_taken_after_len(extra_y@, complete_y@, n as int);
        lemma_free_upto(taken_after(extra_y@, complete_y@, n as int), m as int);
    }
    r
}

/// The boxes at positions below `i` that are not listed in `extra`, in order.
pub open spec fn kept_upto(coords: Seq<Coordinate>, extra: Seq<usize>, i: int) -> Seq<Coordinate>
    decreases i,
{
    if i <= 0 {
        Seq::empty()
    } else if extra.contains((i - 1) as usize) {
        kept_upto(coords, extra, i - 1)
    } else {
        kept_upto(coords, extra, i - 1).push(coords[i - 1])
    }
}

/// The boxes whose positions are not listed in `extra_indices`, in order.
pub fn filter_by_extra_indices(coords: &[Coordinate], extra_indices: &[usize]) -> (r: Vec<Coordinate>)
    ensures
        r@ == kept_upto(coords@, extra_indices@, coords@.len() as int),
{
    let mut r: Vec<Coordinate> = Vec::new();
    let mut i: usize = 0;
    while i < coords.len()
        invariant
            0 <= i <= coords@.len(),
            r@ == kept_upto(coords@, extra_indices@, i as int),
        decreases coords@.len() - i,
    {
        let mut listed = false;
        let mut j: usize = 0;
        while j < extra_indices.len()
            invariant
                0 <= j <= extra_indices@.len(),
                listed <==> exists|a: int| 0 <= a < j && extra_indices@[a] == i,
            decreases extra_indices@.len() - j,
        {
            if extra_indices[j] == i {
                listed = true;
            }
            j = j + 1;
        }
        if !listed {
            r.push(coords[i]);
        }
        i = i + 1;
    }
    r
}

proof fn lemma_kept_free(coords: Seq<Coordinate>, taken: Seq<bool>, i: int)
    requires
        0 <= i <= taken.len(),
        taken.len() <= usize::MAX,
    ensures
        kept_upto(coords, free_upto(taken, taken.len() as int), i).len() == taken_count(taken, i),
    decreases i,
{
    if i > 0 {
        lemma_kept_free(coords, taken, i - 1);
        let free = free_upto(taken, taken.len() as int);
        lemma_free_upto(taken, taken.len() as int);
        if taken[i - 1] {
            if free.contains((i - 1) as usize) {
                let a = choose|a: int| 0 <= a < free.len() && free[a] == (i - 1) as usize;
                assert(!taken[free[a] as int]);
            }
        } else {
            assert(free.contains((i - 1) as usize));
        }
    }
}

/// Dropping the surplus detections that `find_extra_indices` reports leaves as
/// many detections as the complete column has marks.
pub proof fn extra_filter_len_law(complete_y: Seq<i32>, extra_y: Seq<i32>, coords: Seq<Coordinate>)
    requires
        extra_y.len() > complete_y.len(),
        extra_y.len() <= usize::MAX,
        coords.len() == extra_y.len(),
        gaps_small(extra_y, complete_y),
        gaps_fit(extra_y, complete_y),
    ensures
        kept_upto(coords, extra_spec(complete_y, extra_y), coords.len() as int).len()
            == complete_y.len(),
{
    let t = taken_after(extra_y, complete_y, complete_y.len() as int);
    lemma_taken_after_len(extra_y, complete_y, complete_y.len() as int);
    lemma_taken_after_count(extra_y, complete_y, complete_y.len() as int);
    lemma_taken_after_len(extra_y, complete_y, complete_y.len() as int);
    lemma_kept_free(coords, t, extra_y.len() as int);
}

proof fn lemma_taken_after_len(base: Seq<i32>, probes: Seq<i32>, k: int)
    requires
        0 <= k <= probes.len(),
        base.len() > 0,
    ensures
        taken_after(base, probes, k).len() == base.len(),
    decreases k,
{
    if k > 0 {
        lemma_taken_after_len(base, probes, k - 1);
        let t = taken_after(base, probes, k - 1);
        let p = pick(base, t, probes[k - 1]);
        if exists|i: int| #[trigger] is_pick(base, t, probes[k - 1], i) {
            assert(is_pick(base, t, probes[k - 1], p));
        }
    }
}

/// With every probe strictly nearer than `i32::MAX` to every entry and fewer
/// probes than entries, each probe takes a fresh entry.
proof fn lemma_taken_after_count(base: Seq<i32>, probes: Seq<i32>, k: int)
    requires
        0 <= k <= probes.len(),
        probes.len() <= base.len(),
        gaps_small(base, probes),
    ensures
        taken_count(taken_after(base, probes, k), base.len() as int) == k,
    decreases k,
{
    if k > 0 {
        lemma_taken_after_count(base, probes, k - 1);
        lemma_taken_after_len(base, probes, k - 1);
        let t = taken_after(base, probes, k - 1);
        let v = probes[k - 1];
        lemma_some_free(t, base.len() as int);
        let j = choose|j: int| 0 <= j < base.len() && !t[j];
        let b = lemma_first_nearest(base, t, v, base.len() as int);
        assert(gap(base[j], v) < i32::MAX);
        lemma_pick_unique(base, t, v, b);
        lemma_taken_count_update(t, b, base.len() as int);
        assert(pick(base, t, v) == b);
        assert(taken_after(base, probes, k) == t.update(b, true));
    } else {
        lemma_taken_count_none(taken_after(base, probes, 0), base.len() as int);
    }
}

/// Among the free entries below `idx`, the first nearest one.
proof fn lemma_first_nearest(base: Seq<i32>, taken: Seq<bool>, v: i32, idx: int) -> (b: int)
    requires
        0 <= idx <= base.len(),
        taken.len() == base.len(),
        exists|j: int| 0 <= j < idx && !taken[j],
        forall|j: int| 0 <= j < base.len() ==> #[trigger] gap(base[j], v) < i32::MAX,
    ensures
        0 <= b < idx,
        !taken[b],
        forall|j: int| 0 <= j < idx && !taken[j] ==> gap(base[b], v) <= #[trigger] gap(base[j], v),
        forall|j: int| 0 <= j < b && !taken[j] ==> gap(base[b], v) < #[trigger] gap(base[j], v),
        idx == base.len() ==> is_pick(base, taken, v, b),
    decreases idx,
{
    if exists|j: int| 0 <= j < idx - 1 && !taken[j] {
        let p = lemma_first_nearest(base, taken, v, idx - 1);
        if !taken[idx - 1] && gap(base[idx - 1], v) < gap(base[p], v) {
            assert(gap(base[idx - 1], v) < i32::MAX);
            idx - 1
        } else {
            p
        }
    } else {
        assert(!taken[idx - 1]);
        idx - 1
    }
}


/// `s` lists `k` positions from `lo` up to (not including) `n`, in increasing
/// order.
pub open spec fn is_combination(s: Seq<usize>, n: int, lo: int, k: int) -> bool {
    &&& s.len() == k
    &&& forall|a: int| 0 <= a < s.len() ==> lo <= #[trigger] s[a] < n
    &&& forall|a: int, b: int| 0 <= a < b < s.len() ==> #[trigger] s[a] < #[trigger] s[b]
}

/// `a` comes before `b` in dictionary order.
pub open spec fn lex_lt(a: Seq<usize>, b: Seq<usize>) -> bool {
    exists|p: int|
        0 <= p < a.len() && p < b.len() && a[p] < b[p] && forall|q: int| 0 <= q < p ==> #[trigger] a[q] == b[q]
}

/// All combinations of `k` positions from `lo` up to `n`, in dictionary order.
pub open spec fn all_combinations(r: Seq<Seq<usize>>, n: int, lo: int, k: int) -> bool {
    &&& forall|i: int| 0 <= i < r.len() ==> is_combination(#[trigger] r[i], n, lo, k)
    &&& forall|s: Seq<usize>| #[trigger] is_combination(s, n, lo, k) ==> r.contains(s)
    &&& forall|i: int, j: int| 0 <= i < j < r.len() ==> lex_lt(#[trigger] r[i], #[trigger] r[j])
}

fn combinations_from(n: usize, k: usize, lo: usize) -> (r: Vec<Vec<usize>>)
    requires
        lo <= n,
    ensures
        all_combinations(r.deep_view(), n as int, lo as int, k as int),
    decreases k,
{
    let mut out: Vec<Vec<usize>> = Vec::new();
    if k == 0 {
        out.push(Vec::new());
        proof {
            let r = out.deep_view();
            assert(r[0] =~= Seq::<usize>::empty());
            assert forall|s: Seq<usize>| #[trigger] is_combination(s, n as int, lo as int, 0) implies r.contains(s) by {
                assert(s =~= r[0]);
            }
        }
        return out;
    }
    let mut i: usize = lo;
    while i < n
        invariant
            lo <= i <= n,
            k > 0,
            forall|a: int| 0 <= a < out.deep_view().len() ==> is_combination(#[trigger] out.deep_view()[a], n as int, lo as int, k as int)
                && out.deep_view()[a][0] < i,
            forall|s: Seq<usize>| #[trigger] is_combination(s, n as int, lo as int, k as int) && s[0] < i ==> out.deep_view().contains(s),
            forall|a: int, b: int| 0 <= a < b < out.deep_view().len() ==> lex_lt(#[trigger] out.deep_view()[a], #[trigger] out.deep_view()[b]),
        decreases n - i,
    {
        let sub = combinations_from(n, k - 1, i + 1);
        let ghost before = out.deep_view();
        let ghost subs = sub.deep_view();
        let mut j: usize = 0;
        while j < sub.len()
            invariant
                lo <= i < n,
                k > 0,
                subs == sub.deep_view(),
                all_combinations(subs, n as int, i + 1, k - 1),
                0 <= j <= subs.len(),
                out.deep_view().len() == before.len() + j,
                forall|a: int| 0 <= a < before.len() ==> #[trigger] out.deep_view()[a] == before[a],
                forall|a: int| 0 <= a < j ==> #[trigger] out.deep_view()[before.len() + a] == seq![i].add(subs[a]),
                forall|a: int| 0 <= a < before.len() ==> is_combination(#[trigger] before[a], n as int, lo as int, k as int)
                    && before[a][0] < i,
                forall|a: int, b: int| 0 <= a < b < before.len() ==> lex_lt(#[trigger] before[a], #[trigger] before[b]),
            decreases subs.len() - j,
        {
            let t = &sub[j];
            let mut c: Vec<usize> = Vec::new();
            c.push(i);
            let mut q: usize = 0;
            while q < t.len()
                invariant
                    0 <= q <= t@.len(),
                    c@ == seq![i].add(t@.take(q as int)),
                decreases t@.len() - q,
            {
                c.push(t[q]);
                q = q + 1;
                assert(c@ =~= seq![i].add(t@.take(q as int)));
            }
            assert(t@.take(t@.len() as int) =~= t@);
            assert(subs[j as int] == t@);
            let ghost prev = out.deep_view();
            let ghost prev_raw = out@;
            out.push(c);
            proof {
                let r = out.deep_view();
                assert(r.len() == before.len() + j + 1);
                assert forall|a: int| 0 <= a < before.len() implies #[trigger] r[a] == before[a] by {
                    assert(r[a] == out@[a].deep_view());
                    assert(out@[a] == prev_raw[a]);
                    assert(prev[a] == prev_raw[a].deep_view());
                }
                assert forall|a: int| 0 <= a < j + 1 implies #[trigger] r[before.len() + a] == seq![i].add(subs[a]) by {
                    assert(r[before.len() + a] == out@[before.len() + a].deep_view());
                    if a == j {
                        assert(out@[before.len() + a]@ == c@);
                        assert(c.deep_view() =~= c@);
                    } else {
                        assert(out@[before.len() + a] == prev_raw[before.len() + a]);
                        assert(prev[before.len() + a] == prev_raw[before.len() + a].deep_view());
                    }
                }
            }
            j = j + 1;
        }
        proof {
            let r = out.deep_view();
            let m = before.len();
            assert forall|a: int| 0 <= a < r.len() implies is_combination(#[trigger] r[a], n as int, lo as int, k as int)
                && r[a][0] < i + 1 by {
                if a >= m {
                    let t = subs[a - m];
                    assert(is_combination(t, n as int, i + 1, k - 1));
                    assert(r[m + (a - m)] == seq![i].add(subs[a - m]));
                    assert forall|x: int, y: int| 0 <= x < y < r[a].len() implies #[trigger] r[a][x] < #[trigger] r[a][y] by {
                        if x == 0 {
                            assert(r[a][y] == t[y - 1]);
                        } else {
                            assert(r[a][x] == t[x - 1]);
                            assert(r[a][y] == t[y - 1]);
                        }
                    }
                    assert forall|x: int| 0 <= x < r[a].len() implies lo <= #[trigger] r[a][x] < n by {
                        if x > 0 {
                            assert(r[a][x] == t[x - 1]);
                        }
                    }
                }
            }
            assert forall|s: Seq<usize>| #[trigger] is_combination(s, n as int, lo as int, k as int) && s[0] < i + 1
                implies r.contains(s) by {
                if s[0] < i {
                    let a = choose|a: int| 0 <= a < before.len() && before[a] == s;
                    assert(r[a] == s);
                } else {
                    let rest = s.drop_first();
                    assert(is_combination(rest, n as int, i + 1, k - 1)) by {
                        assert forall|x: int| 0 <= x < rest.len() implies i + 1 <= #[trigger] rest[x] < n by {
                            assert(rest[x] == s[x + 1]);
                            assert(s[0] < s[x + 1]);
                        }
                        assert forall|x: int, y: int| 0 <= x < y < rest.len() implies #[trigger] rest[x] < #[trigger] rest[y] by {
                            assert(rest[x] == s[x + 1]);
                            assert(rest[y] == s[y + 1]);
                        }
                    }
                    let b = choose|b: int| 0 <= b < subs.len() && subs[b] == rest;
                    assert(seq![i].add(rest) =~= s);
                    assert(r[m + b] == seq![i].add(subs[b]));
                    assert(r[m + b] == s);
                }
            }
            assert forall|a: int, b: int| 0 <= a < b < r.len() implies lex_lt(#[trigger] r[a], #[trigger] r[b]) by {
                if b < m {
                    assert(r[a] == before[a]);
                    assert(r[b] == before[b]);
                } else if a < m {
                    assert(r[a] == before[a]);
                    assert(r[m + (b - m)] == seq![i].add(subs[b - m]));
                    assert(r[a][0] < i);
                    assert(r[b][0] == i);
                    assert(r[a].len() == k);
                    assert(r[b].len() == k);
                    assert(forall|q: int| 0 <= q < 0 ==> #[trigger] r[a][q] == r[b][q]);
                } else {
                    let ta = subs[a - m];
                    let tb = subs[b - m];
                    assert(lex_lt(ta, tb));
                    let p = choose|p: int| 0 <= p < ta.len() && p < tb.len() && ta[p] < tb[p] && forall|q: int| 0 <= q < p ==> #[trigger] ta[q] == tb[q];
                    assert(r[m + (a - m)] == seq![i].add(ta));
                    assert(r[m + (b - m)] == seq![i].add(tb));
                    assert(r[a][p + 1] == ta[p]);
                    assert(r[b][p + 1] == tb[p]);
                    assert forall|q: int| 0 <= q < p + 1 implies #[trigger] r[a][q] == r[b][q] by {
                        if q > 0 {
                            assert(r[a][q] == ta[q - 1]);
                            assert(r[b][q] == tb[q - 1]);
                        }
                    }
                }
            }
        }
        i = i + 1;
    }
    proof {
        let r = out.deep_view();
        assert forall|s: Seq<usize>| #[trigger] is_combination(s, n as int, lo as int, k as int) implies r.contains(s) by {
            assert(s[0] < n);
        }
    }
    out
}

/// All ways to choose `k` of the positions `0..n`, each in increasing order,
/// listed in dictionary order.
pub fn generate_combinations(n: usize, k: usize) -> (r: Vec<Vec<usize>>)
    ensures
        all_combinations(r.deep_view(), n as int, 0, k as int),
{
    combinations_from(n, k, 0)
}

/// The positions of the complete column to drop where no cosine choice is
/// needed: the greedy matching when more than two marks are missing (none
/// when nothing is missing); `None` when one or two are missing, which the
/// choice by cosine similarity over every combination decides.
pub fn missing_indices_direct(complete_y: &[i32], incomplete_y: &[i32]) -> (r: Option<Vec<usize>>)
    requires
        incomplete_y@.len() + 2 < complete_y@.len() ==> gaps_fit(complete_y@, incomplete_y@),
    ensures
        r is None <==> incomplete_y@.len() < complete_y@.len() <= incomplete_y@.len() + 2,
        r matches Some(v) ==> v@ == missing_spec(complete_y@, incomplete_y@),
{
    let n = complete_y.len();
    let m = incomplete_y.len();
    if m < n && n - m <= 2 {
        None
    } else {
        Some(find_missing_indices(complete_y, incomplete_y))
    }
}

/// The positions of the long column to drop where no cosine choice is
/// needed: the greedy matching when more than two marks are extra (none when
/// nothing is extra); `None` when one or two are extra, which the choice by
/// cosine similarity over every combination decides.
pub fn extra_indices_direct(complete_y: &[i32], extra_y: &[i32]) -> (r: Option<Vec<usize>>)
    requires
        complete_y@.len() + 2 < extra_y@.len() ==> gaps_fit(extra_y@, complete_y@),
    ensures
        r is None <==> complete_y@.len() < extra_y@.len() <= complete_y@.len() + 2,
        r matches Some(v) ==> v@ == extra_spec(complete_y@, extra_y@),
{
    let n = complete_y.len();
    let m = extra_y.len();
    if n < m && m - n <= 2 {
        None
    } else {
        Some(find_extra_indices(complete_y, extra_y))
    }
}

} // verus!
