//! Horizontal cross-sections of shapes, as merged closed intervals.
use crate::bounds::{has_point, max_x, min_x, x_bounds};
use crate::overlay::{clip_line, line_clip, FillMode, LineClipRule};
use crate::wire::{
    coordinate_in_range, in_overlay_range, paths_view, shapes_in_range, shapes_view, shapes_within_range, ShapesView, WirePoint, WireShapes,
};
use vstd::prelude::*;

verus! {

/// A closed interval `[left, right]` of x coordinates.
pub type Interval = [i64; 2];

/// Some interval of `s` contains the point `p / 2` (points are measured in half
/// units, so that the gap between two integers is visible).
pub open spec fn covers(s: Seq<Interval>, p: int) -> bool {
    exists|i: int| 0 <= i < s.len() && 2 * (#[trigger] s[i])[0] <= p <= 2 * s[i][1]
}

/// Every interval has positive length.
pub open spec fn all_positive(s: Seq<Interval>) -> bool {
    forall|i: int| 0 <= i < s.len() ==> (#[trigger] s[i])[0] < s[i][1]
}

/// Left endpoints never decrease.
pub open spec fn sorted_by_left(s: Seq<Interval>) -> bool {
    forall|i: int, j: int| 0 <= i < j < s.len() ==> (#[trigger] s[i])[0] <= (#[trigger] s[j])[0]
}

/// Positive intervals in increasing order, each separated from the next by a gap.
pub open spec fn separated(s: Seq<Interval>) -> bool {
    &&& all_positive(s)
    &&& forall|i: int, j: int| 0 <= i < j < s.len() ==> (#[trigger] s[i])[1] < (#[trigger] s[j])[0]
}

/// The connected components of the union of the intervals `s`: the separated
/// intervals that cover exactly the points that `s` covers (unique by
/// `lemma_components_unique`).
pub open spec fn components(s: Seq<Interval>) -> Seq<Interval> {
    choose|r: Seq<Interval>| separated(r) && forall|p: int| #[trigger] covers(r, p) == covers(s, p)
}

/// The larger of two integers.
pub open spec fn max_i64(a: i64, b: i64) -> i64 {
    if a >= b {
        a
    } else {
        b
    }
}

/// Scans `s` in order, extending the last merged interval by every interval that
/// starts no later than its right end, and starting a new one otherwise.
pub open spec fn merge_fold(s: Seq<Interval>) -> Seq<Interval>
    decreases s.len(),
{
    if s.len() == 0 {
        seq![]
    } else {
        let m = merge_fold(s.drop_last());
        let iv = s.last();
        if m.len() > 0 && iv[0] <= m.last()[1] {
            m.update(m.len() - 1, [m.last()[0], max_i64(m.last()[1], iv[1])])
        } else {
            m.push(iv)
        }
    }
}

/// Merging intervals sorted by their left ends yields the connected components of
/// their union: positive, separated intervals that cover exactly the same points.
pub proof fn lemma_merge_components(s: Seq<Interval>)
    requires
        sorted_by_left(s),
        all_positive(s),
    ensures
        separated(merge_fold(s)),
        forall|p: int| #[trigger] covers(merge_fold(s), p) == covers(s, p),
        forall|i: int|
            0 <= i < merge_fold(s).len() ==> exists|j: int|
                0 <= j < s.len() && (#[trigger] merge_fold(s)[i])[0] == s[j][0],
        s.len() > 0 ==> merge_fold(s).len() > 0,
    decreases s.len(),
{
    if s.len() > 0 {
        let r = s.drop_last();
        assert(sorted_by_left(r)) by {
            assert forall|i: int, j: int| 0 <= i < j < r.len() implies (#[trigger] r[i])[0] <= (
            #[trigger] r[j])[0] by {
                assert(r[i] == s[i] && r[j] == s[j]);
            }
        }
        assert(all_positive(r)) by {
            assert forall|i: int| 0 <= i < r.len() implies (#[trigger] r[i])[0] < r[i][1] by {
                assert(r[i] == s[i]);
            }
        }
        lemma_merge_components(r);
        let m = merge_fold(r);
        let iv = s.last();
        let out = merge_fold(s);
        assert(iv == s[s.len() - 1]);
        if m.len() > 0 && iv[0] <= m.last()[1] {
            let last = m.last();
            let grown: Interval = [last[0], max_i64(last[1], iv[1])];
            assert(out == m.update(m.len() - 1, grown));
            let jl = choose|j: int| 0 <= j < r.len() && (#[trigger] m[m.len() - 1])[0] == r[j][0];
            assert(r[jl] == s[jl]);
            assert(last[0] <= iv[0]);
            assert forall|i: int, j: int| 0 <= i < j < out.len() implies (#[trigger] out[i])[1] < (
            #[trigger] out[j])[0] by {
                if j == out.len() - 1 {
                    assert(out[i] == m[i]);
                    assert(out[j][0] == m[j][0]);
                } else {
                    assert(out[i] == m[i] && out[j] == m[j]);
                }
            }
            assert forall|i: int| 0 <= i < out.len() implies (#[trigger] out[i])[0] < out[i][1] by {
                if i < out.len() - 1 {
                    assert(out[i] == m[i]);
                }
            }
            assert forall|p: int| #[trigger] covers(out, p) == covers(s, p) by {
                if covers(out, p) {
                    let i = choose|i: int| 0 <= i < out.len() && 2 * (#[trigger] out[i])[0] <= p <= 2 * out[i][1];
                    if i < out.len() - 1 {
                        assert(out[i] == m[i]);
                        assert(covers(m, p));
                    } else if p <= 2 * last[1] {
                        assert(covers(m, p));
                    } else {
                        assert(2 * s[s.len() - 1][0] <= p <= 2 * s[s.len() - 1][1]);
                    }
                    if covers(r, p) {
                        let k = choose|k: int| 0 <= k < r.len() && 2 * (#[trigger] r[k])[0] <= p <= 2 * r[k][1];
                        assert(s[k] == r[k]);
                    }
                }
                if covers(s, p) {
                    let k = choose|k: int| 0 <= k < s.len() && 2 * (#[trigger] s[k])[0] <= p <= 2 * s[k][1];
                    if k < s.len() - 1 {
                        assert(r[k] == s[k]);
                        assert(covers(r, p));
                        assert(covers(m, p));
                        let i = choose|i: int| 0 <= i < m.len() && 2 * (#[trigger] m[i])[0] <= p <= 2 * m[i][1];
                        if i < m.len() - 1 {
                            assert(out[i] == m[i]);
                        } else {
                            assert(2 * out[i][0] <= p <= 2 * out[i][1]);
                        }
                    } else {
                        assert(2 * out[out.len() - 1][0] <= p <= 2 * out[out.len() - 1][1]);
                    }
                }
            }
            assert forall|i: int| 0 <= i < out.len() implies exists|j: int|
                0 <= j < s.len() && (#[trigger] out[i])[0] == s[j][0] by {
                let j = choose|j: int| 0 <= j < r.len() && (#[trigger] m[i])[0] == r[j][0];
                assert(r[j] == s[j]);
            }
        } else {
            assert(out == m.push(iv));
            if m.len() > 0 {
                let jl = choose|j: int| 0 <= j < r.len() && (#[trigger] m[m.len() - 1])[0] == r[j][0];
                assert(r[jl] == s[jl]);
            }
            assert forall|i: int, j: int| 0 <= i < j < out.len() implies (#[trigger] out[i])[1] < (
            #[trigger] out[j])[0] by {
                if j == out.len() - 1 {
                    assert(out[i] == m[i]);
                    if i < m.len() - 1 {
                        assert(m[i][1] < m[m.len() - 1][0]);
                    }
                } else {
                    assert(out[i] == m[i] && out[j] == m[j]);
                }
            }
            assert forall|i: int| 0 <= i < out.len() implies (#[trigger] out[i])[0] < out[i][1] by {
                if i < out.len() - 1 {
                    assert(out[i] == m[i]);
                }
            }
            assert forall|p: int| #[trigger] covers(out, p) == covers(s, p) by {
                if covers(out, p) {
                    let i = choose|i: int| 0 <= i < out.len() && 2 * (#[trigger] out[i])[0] <= p <= 2 * out[i][1];
                    if i < out.len() - 1 {
                        assert(out[i] == m[i]);
                        assert(covers(m, p));
                        let k = choose|k: int| 0 <= k < r.len() && 2 * (#[trigger] r[k])[0] <= p <= 2 * r[k][1];
                        assert(s[k] == r[k]);
                    } else {
                        assert(2 * s[s.len() - 1][0] <= p <= 2 * s[s.len() - 1][1]);
                    }
                }
                if covers(s, p) {
                    let k = choose|k: int| 0 <= k < s.len() && 2 * (#[trigger] s[k])[0] <= p <= 2 * s[k][1];
                    if k < s.len() - 1 {
                        assert(r[k] == s[k]);
                        assert(covers(r, p));
                        assert(covers(m, p));
                        let i = choose|i: int| 0 <= i < m.len() && 2 * (#[trigger] m[i])[0] <= p <= 2 * m[i][1];
                        assert(out[i] == m[i]);
                    } else {
                        assert(out[out.len() - 1] == s[k]);
                    }
                }
            }
            assert forall|i: int| 0 <= i < out.len() implies exists|j: int|
                0 <= j < s.len() && (#[trigger] out[i])[0] == s[j][0] by {
                if i < out.len() - 1 {
                    let j = choose|j: int| 0 <= j < r.len() && (#[trigger] m[i])[0] == r[j][0];
                    assert(out[i] == m[i]);
                    assert(r[j] == s[j]);
                } else {
                    assert(out[i] == s[s.len() - 1]);
                }
            }
        }
    }
}

/// Merges intervals that overlap or touch, scanning them in order.
///
/// When the intervals are sorted by their left ends and have positive length, the
/// result is the list of connected components of their union.
pub fn merge_intervals(intervals: Vec<Interval>) -> (merged: Vec<Interval>)
    ensures
        merged@ == merge_fold(intervals@),
        sorted_by_left(intervals@) && all_positive(intervals@) ==> {
            &&& separated(merged@)
            &&& forall|p: int| #[trigger] covers(merged@, p) == covers(intervals@, p)
        },
{
    let mut merged: Vec<Interval> = Vec::new();
    let mut k: usize = 0;
    while k < intervals.len()
        invariant
            k <= intervals@.len(),
            merged@ == merge_fold(intervals@.take(k as int)),
        decreases intervals@.len() - k,
    {
        let iv = intervals[k];
        proof {
            let next = intervals@.take(k + 1);
            assert(next.drop_last() =~= intervals@.take(k as int));
            assert(next.last() == iv);
        }
        let count = merged.len();
        if count > 0 && iv[0] <= merged[count - 1][1] {
            let last = merged[count - 1];
            let right = if last[1] >= iv[1] {
                last[1]
            } else {
                iv[1]
            };
            merged[count - 1] = [last[0], right];
        } else {
            merged.push(iv);
        }
        k = k + 1;
    }
    proof {
        assert(intervals@.take(intervals@.len() as int) =~= intervals@);
        if sorted_by_left(intervals@) && all_positive(intervals@) {
            lemma_merge_components(intervals@);
        }
    }
    merged
}

/// The least x coordinate of a non-empty path.
pub open spec fn path_min_x(path: Seq<WirePoint>) -> i64
    decreases path.len(),
{
    if path.len() <= 1 {
        path[0][0]
    } else if path.last()[0] < path_min_x(path.drop_last()) {
        path.last()[0]
    } else {
        path_min_x(path.drop_last())
    }
}

/// The greatest x coordinate of a non-empty path.
pub open spec fn path_max_x(path: Seq<WirePoint>) -> i64
    decreases path.len(),
{
    if path.len() <= 1 {
        path[0][0]
    } else if path.last()[0] > path_max_x(path.drop_last()) {
        path.last()[0]
    } else {
        path_max_x(path.drop_last())
    }
}

/// The x extent of a clipped path, kept when it has positive length.
pub open spec fn path_extent(path: Seq<WirePoint>) -> Seq<Interval> {
    if path.len() > 0 && path_min_x(path) < path_max_x(path) {
        seq![[path_min_x(path), path_max_x(path)]]
    } else {
        seq![]
    }
}

/// The positive x extents of a sequence of clipped paths, in order.
pub open spec fn path_intervals(paths: Seq<Seq<WirePoint>>) -> Seq<Interval>
    decreases paths.len(),
{
    if paths.len() == 0 {
        seq![]
    } else {
        path_intervals(paths.drop_last()) + path_extent(paths.last())
    }
}

/// How horizontal lines are clipped against shapes: even-odd interiors, boundary
/// points included.
pub open spec fn section_fill() -> FillMode {
    FillMode::EvenOdd
}

/// See `section_fill`.
pub open spec fn section_rule() -> LineClipRule {
    LineClipRule { invert: false, boundary_included: true }
}

/// The extents of the pieces of the horizontal line at height `y`, reaching one unit
/// past the shapes on both sides, that lie inside the shapes.
pub open spec fn section_pieces(shapes: ShapesView, y: i64) -> Seq<Interval> {
    path_intervals(section_pieces_paths(shapes, y))
}

/// The engine can clip the horizontal line at height `y` that reaches one unit past
/// the shapes on both sides.
pub open spec fn section_in_range(shapes: ShapesView, y: i64) -> bool {
    shapes_in_range(shapes) && (has_point(shapes) ==> {
        &&& in_overlay_range(y as int)
        &&& in_overlay_range(min_x(shapes) - 1)
        &&& in_overlay_range(max_x(shapes) + 1)
    })
}

/// The x extent of a path, or `None` when the extent is empty or the path has no
/// points.
fn extent_of(path: &Vec<WirePoint>) -> (extent: Option<Interval>)
    ensures
        extent matches Some(iv) ==> path_extent(path@) == seq![iv],
        extent is None ==> path_extent(path@) == Seq::<Interval>::empty(),
{
    if path.len() == 0 {
        return None;
    }
    let mut left = path[0][0];
    let mut right = path[0][0];
    let mut k: usize = 1;
    while k < path.len()
        invariant
            1 <= k <= path@.len(),
            left == path_min_x(path@.take(k as int)),
            right == path_max_x(path@.take(k as int)),
        decreases path@.len() - k,
    {
        proof {
            let next = path@.take(k + 1);
            assert(next.drop_last() =~= path@.take(k as int));
            assert(next.last() == path@[k as int]);
        }
        if path[k][0] < left {
            left = path[k][0];
        }
        if path[k][0] > right {
            right = path[k][0];
        }
        k = k + 1;
    }
    proof {
        assert(path@.take(path@.len() as int) =~= path@);
    }
    if left < right {
        Some([left, right])
    } else {
        None
    }
}

/// Sorts intervals by their left ends (insertion sort, stable).
fn sort_by_left(intervals: Vec<Interval>) -> (sorted: Vec<Interval>)
    ensures
        sorted@.len() == intervals@.len(),
        forall|x: Interval| sorted@.contains(x) <==> intervals@.contains(x),
        sorted_by_left(sorted@),
{
    let mut sorted: Vec<Interval> = Vec::new();
    let mut i: usize = 0;
    while i < intervals.len()
        invariant
            i <= intervals@.len(),
            sorted@.len() == i,
            forall|x: Interval| sorted@.contains(x) <==> intervals@.take(i as int).contains(x),
            sorted_by_left(sorted@),
        decreases intervals@.len() - i,
    {
        let e = intervals[i];
        let mut p: usize = sorted.len();
        while p > 0 && sorted[p - 1][0] > e[0]
            invariant
                p <= sorted@.len(),
                forall|q: int| p <= q < sorted@.len() ==> (#[trigger] sorted@[q])[0] > e[0],
            decreases p,
        {
            p = p - 1;
        }
        let ghost before = sorted@;
        sorted.insert(p, e);
        proof {
            let after = sorted@;
            assert(after == before.insert(p as int, e));
            assert forall|a: int, b: int| 0 <= a < b < after.len() implies (#[trigger] after[a])[0]
                <= (#[trigger] after[b])[0] by {
                if b < p {
                    assert(after[a] == before[a] && after[b] == before[b]);
                } else if b == p {
                    assert(after[a] == before[a]);
                    if p > 0 {
                        assert(before[p - 1][0] <= e[0]);
                        assert(before[a][0] <= before[p - 1][0]);
                    }
                } else if a > p {
                    assert(after[a] == before[a - 1] && after[b] == before[b - 1]);
                } else if a == p {
                    assert(after[b] == before[b - 1]);
                } else {
                    assert(after[a] == before[a] && after[b] == before[b - 1]);
                }
            }
            assert forall|x: Interval| after.contains(x) <==> intervals@.take(i + 1).contains(x) by {
                let grown = intervals@.take(i + 1);
                assert(grown =~= intervals@.take(i as int).push(e));
                assert(after[p as int] == e);
                if after.contains(x) {
                    let k = choose|k: int| 0 <= k < after.len() && after[k] == x;
                    if k < p {
                        assert(before[k] == x);
                        assert(before.contains(x));
                    } else if k > p {
                        assert(before[k - 1] == x);
                        assert(before.contains(x));
                    }
                    if x != e {
                        assert(intervals@.take(i as int).contains(x));
                        let m = choose|m: int| 0 <= m < i && intervals@.take(i as int)[m] == x;
                        assert(grown[m] == x);
                    } else {
                        assert(grown[i as int] == e);
                    }
                }
                if grown.contains(x) {
                    let m = choose|m: int| 0 <= m < grown.len() && grown[m] == x;
                    if m < i {
                        assert(intervals@.take(i as int)[m] == x);
                        assert(intervals@.take(i as int).contains(x));
                        assert(before.contains(x));
                        let k = choose|k: int| 0 <= k < before.len() && before[k] == x;
                        if k < p {
                            assert(after[k] == x);
                        } else {
                            assert(after[k + 1] == x);
                        }
                    }
                }
            }
        }
        i = i + 1;
    }
    proof {
        assert(intervals@.take(intervals@.len() as int) =~= intervals@);
    }
    sorted
}

/// Two sequences with the same elements cover the same points.
proof fn lemma_covers_same_elements(a: Seq<Interval>, b: Seq<Interval>)
    requires
        forall|x: Interval| a.contains(x) <==> b.contains(x),
    ensures
        forall|p: int| #[trigger] covers(a, p) == covers(b, p),
{
    assert forall|p: int| #[trigger] covers(a, p) == covers(b, p) by {
        if covers(a, p) {
            let i = choose|i: int| 0 <= i < a.len() && 2 * (#[trigger] a[i])[0] <= p <= 2 * a[i][1];
            assert(a.contains(a[i]));
            let j = choose|j: int| 0 <= j < b.len() && b[j] == a[i];
        }
        if covers(b, p) {
            let i = choose|i: int| 0 <= i < b.len() && 2 * (#[trigger] b[i])[0] <= p <= 2 * b[i][1];
            assert(b.contains(b[i]));
            let j = choose|j: int| 0 <= j < a.len() && a[j] == b[i];
        }
    }
}

/// The intervals where the horizontal line at height `y` runs inside the shapes
/// (even-odd interiors, boundaries included), merged into separated intervals
/// sorted from left to right.
pub fn horizontal_intervals(shapes: &WireShapes, y: i64) -> (intervals: Vec<Interval>)
    requires
        section_in_range(shapes_view(*shapes), y),
    ensures
        !has_point(shapes_view(*shapes)) ==> intervals@.len() == 0,
        has_point(shapes_view(*shapes)) ==> {
            &&& separated(intervals@)
            &&& forall|p: int| #[trigger] covers(intervals@, p) == covers(
                section_pieces(shapes_view(*shapes), y),
                p,
            )
            &&& intervals@ == components(section_pieces(shapes_view(*shapes), y))
            &&& intervals@ == components(
                path_intervals(
                    line_clip(
                        FillMode::EvenOdd,
                        LineClipRule { invert: false, boundary_included: true },
                        shapes_view(*shapes),
                        [(min_x(shapes_view(*shapes)) - 1) as i64, y],
                        [(max_x(shapes_view(*shapes)) + 1) as i64, y],
                    ),
                ),
            )
        },
{
    proof {
        lemma_section_is_even_odd(shapes_view(*shapes), y);
    }
    let (minimum_x, maximum_x) = match x_bounds(shapes) {
        None => {
            return Vec::new();
        },
        Some(b) => b,
    };
    let start: WirePoint = [minimum_x - 1, y];
    let end: WirePoint = [maximum_x + 1, y];
    let rule = LineClipRule { invert: false, boundary_included: true };
    let paths = clip_line(FillMode::EvenOdd, rule, shapes, start, end);
    intervals_of_paths(&paths)
}

/// The x extents of clipped horizontal paths, sorted and merged into separated
/// intervals: exactly the components of the paths' positive extents.
pub fn intervals_of_paths(paths: &Vec<Vec<WirePoint>>) -> (intervals: Vec<Interval>)
    ensures
        separated(intervals@),
        forall|p: int| #[trigger] covers(intervals@, p) == covers(path_intervals(paths_view(*paths)), p),
        intervals@ == components(path_intervals(paths_view(*paths))),
{
    let ghost pv = paths_view(*paths);
    let mut raw: Vec<Interval> = Vec::new();
    let mut k: usize = 0;
    while k < paths.len()
        invariant
            k <= paths@.len(),
            pv == paths_view(*paths),
            raw@ == path_intervals(pv.take(k as int)),
        decreases paths@.len() - k,
    {
        proof {
            let next = pv.take(k + 1);
            assert(next.drop_last() =~= pv.take(k as int));
            assert(next.last() == paths@[k as int]@);
        }
        match extent_of(&paths[k]) {
            Some(iv) => {
                raw.push(iv);
            },
            None => {},
        }
        proof {
            assert(raw@ =~= path_intervals(pv.take(k + 1)));
        }
        k = k + 1;
    }
    proof {
        assert(pv.take(pv.len() as int) =~= pv);
        lemma_path_intervals_positive(pv);
    }
    let sorted = sort_by_left(raw);
    proof {
        lemma_covers_same_elements(sorted@, raw@);
        assert(all_positive(sorted@)) by {
            assert forall|i: int| 0 <= i < sorted@.len() implies (#[trigger] sorted@[i])[0] < sorted@[i][1] by {
                assert(sorted@.contains(sorted@[i]));
                let j = choose|j: int| 0 <= j < raw@.len() && raw@[j] == sorted@[i];
            }
        }
    }
    let merged = merge_intervals(sorted);
    proof {
        let pieces = path_intervals(pv);
        let chosen = components(pieces);
        assert(separated(merged@) && forall|p: int| #[trigger] covers(merged@, p) == covers(pieces, p));
        assert forall|p: int| #[trigger] covers(chosen, p) == covers(merged@, p) by {
            assert(covers(chosen, p) == covers(pieces, p));
        }
        lemma_components_unique(chosen, merged@);
    }
    merged
}

/// The clipped paths behind `section_pieces`.
pub open spec fn section_pieces_paths(shapes: ShapesView, y: i64) -> Seq<Seq<WirePoint>> {
    line_clip(
        section_fill(),
        section_rule(),
        shapes,
        [(min_x(shapes) - 1) as i64, y],
        [(max_x(shapes) + 1) as i64, y],
    )
}

/// Every extent of a path has positive length.
proof fn lemma_path_intervals_positive(paths: Seq<Seq<WirePoint>>)
    ensures
        all_positive(path_intervals(paths)),
    decreases paths.len(),
{
    if paths.len() > 0 {
        lemma_path_intervals_positive(paths.drop_last());
        let head = path_intervals(paths.drop_last());
        let all = path_intervals(paths);
        assert forall|i: int| 0 <= i < all.len() implies (#[trigger] all[i])[0] < all[i][1] by {
            if i < head.len() {
                assert(all[i] == head[i]);
            }
        }
    }
}

/// Whether the engine can clip the cross-section at height `y` (see
/// `section_in_range`).
pub fn section_within_range(shapes: &WireShapes, y: i64) -> (ok: bool)
    ensures
        ok == section_in_range(shapes_view(*shapes), y),
{
    if !shapes_within_range(shapes) {
        return false;
    }
    match x_bounds(shapes) {
        None => true,
        Some((minimum_x, maximum_x)) => {
            let left = minimum_x as i128 - 1;
            let right = maximum_x as i128 + 1;
            coordinate_in_range(y) && -0x4000_0000_0000_0000i128 <= left && right
                <= 0x3fff_ffff_ffff_ffffi128
        },
    }
}

/// Separated intervals are determined by the points they cover: two separated
/// sequences that cover the same points are equal.
pub proof fn lemma_components_unique(a: Seq<Interval>, b: Seq<Interval>)
    requires
        separated(a),
        separated(b),
        forall|p: int| #[trigger] covers(a, p) == covers(b, p),
    ensures
        a == b,
    decreases a.len(),
{
    if a.len() == 0 {
        if b.len() > 0 {
            assert(covers(b, 2 * b[0][0]));
            assert(!covers(a, 2 * b[0][0]));
        }
        assert(a =~= b);
    } else {
        assert(covers(a, 2 * a[0][0]));
        assert(covers(b, 2 * a[0][0]));
        assert(b.len() > 0);
        assert(covers(b, 2 * b[0][0]));
        assert(covers(a, 2 * b[0][0]));
        let l1 = a[0][0];
        let r1 = a[0][1];
        let l2 = b[0][0];
        let r2 = b[0][1];
        // The least covered point is the left end of the first interval.
        let j = choose|j: int| 0 <= j < b.len() && 2 * (#[trigger] b[j])[0] <= 2 * l1 <= 2 * b[j][1];
        if j > 0 {
            assert(b[0][1] < b[j][0]);
        }
        let i = choose|i: int| 0 <= i < a.len() && 2 * (#[trigger] a[i])[0] <= 2 * l2 <= 2 * a[i][1];
        if i > 0 {
            assert(a[0][1] < a[i][0]);
        }
        assert(l1 == l2);
        // The first gap starts right after the right end of the first interval.
        if r1 < r2 {
            let p = 2 * r1 + 1;
            assert(2 * b[0][0] <= p <= 2 * b[0][1]);
            assert(covers(b, p));
            assert(covers(a, p));
            let k = choose|k: int| 0 <= k < a.len() && 2 * (#[trigger] a[k])[0] <= p <= 2 * a[k][1];
            if k > 0 {
                assert(a[0][1] < a[k][0]);
            }
        }
        if r2 < r1 {
            let p = 2 * r2 + 1;
            assert(2 * a[0][0] <= p <= 2 * a[0][1]);
            assert(covers(a, p));
            let k = choose|k: int| 0 <= k < b.len() && 2 * (#[trigger] b[k])[0] <= p <= 2 * b[k][1];
            if k > 0 {
                assert(b[0][1] < b[k][0]);
            }
        }
        assert(r1 == r2);
        assert(a[0] =~= b[0]);
        let ra = a.drop_first();
        let rb = b.drop_first();
        assert(separated(ra)) by {
            assert forall|x: int, y: int| 0 <= x < y < ra.len() implies (#[trigger] ra[x])[1] < (
            #[trigger] ra[y])[0] by {
                assert(ra[x] == a[x + 1] && ra[y] == a[y + 1]);
            }
            assert forall|x: int| 0 <= x < ra.len() implies (#[trigger] ra[x])[0] < ra[x][1] by {
                assert(ra[x] == a[x + 1]);
            }
        }
        assert(separated(rb)) by {
            assert forall|x: int, y: int| 0 <= x < y < rb.len() implies (#[trigger] rb[x])[1] < (
            #[trigger] rb[y])[0] by {
                assert(rb[x] == b[x + 1] && rb[y] == b[y + 1]);
            }
            assert forall|x: int| 0 <= x < rb.len() implies (#[trigger] rb[x])[0] < rb[x][1] by {
                assert(rb[x] == b[x + 1]);
            }
        }
        assert forall|p: int| #[trigger] covers(ra, p) == covers(rb, p) by {
            if covers(ra, p) {
                let x = choose|x: int| 0 <= x < ra.len() && 2 * (#[trigger] ra[x])[0] <= p <= 2 * ra[x][1];
                assert(ra[x] == a[x + 1]);
                assert(a[0][1] < a[x + 1][0]);
                assert(covers(a, p));
                assert(covers(b, p));
                let y = choose|y: int| 0 <= y < b.len() && 2 * (#[trigger] b[y])[0] <= p <= 2 * b[y][1];
                assert(y > 0);
                assert(rb[y - 1] == b[y]);
            }
            if covers(rb, p) {
                let x = choose|x: int| 0 <= x < rb.len() && 2 * (#[trigger] rb[x])[0] <= p <= 2 * rb[x][1];
                assert(rb[x] == b[x + 1]);
                assert(b[0][1] < b[x + 1][0]);
                assert(covers(b, p));
                assert(covers(a, p));
                let y = choose|y: int| 0 <= y < a.len() && 2 * (#[trigger] a[y])[0] <= p <= 2 * a[y][1];
                assert(y > 0);
                assert(ra[y - 1] == a[y]);
            }
        }
        lemma_components_unique(ra, rb);
        assert(a =~= seq![a[0]] + ra);
        assert(b =~= seq![b[0]] + rb);
    }
}

/// A cross section follows the even-odd rule with boundaries included: its pieces are
/// the positive x extents of what `i_overlay` keeps, under `FillMode::EvenOdd` and a
/// rule that neither inverts nor drops boundary points, of the horizontal line at
/// height `y` reaching from one unit left of the shapes' least x to one unit right of
/// their greatest x. A contour nested inside another therefore opens a gap whatever
/// its orientation.
pub proof fn lemma_section_is_even_odd(shapes: ShapesView, y: i64)
    ensures
        section_pieces(shapes, y) == path_intervals(
            line_clip(
                FillMode::EvenOdd,
                LineClipRule { invert: false, boundary_included: true },
                shapes,
                [(min_x(shapes) - 1) as i64, y],
                [(max_x(shapes) + 1) as i64, y],
            ),
        ),
{
}

} // verus!
