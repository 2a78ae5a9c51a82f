//! Bounding boxes of shapes.
use crate::wire::{shape_view, shapes_view, ShapesView, WirePoint, WireShapes};
use vstd::prelude::*;

verus! {

/// `p` is a vertex of some contour of `shapes`.
pub open spec fn is_point(shapes: ShapesView, p: WirePoint) -> bool {
    exists|i: int, j: int, k: int|
        0 <= i < shapes.len() && 0 <= j < shapes[i].len() && 0 <= k < shapes[i][j].len()
            && #[trigger] shapes[i][j][k] == p
}

/// `shapes` has at least one vertex.
pub open spec fn has_point(shapes: ShapesView) -> bool {
    exists|p: WirePoint| is_point(shapes, p)
}

/// `m` is the value of coordinate `axis` at some vertex, and no vertex lies below
/// it (when `least`) or above it (otherwise).
pub open spec fn is_extreme(shapes: ShapesView, axis: int, least: bool, m: i64) -> bool {
    (exists|p: WirePoint| is_point(shapes, p) && p[axis] == m) && forall|p: WirePoint|
        #[trigger] is_point(shapes, p) ==> if least {
            m <= p[axis]
        } else {
            p[axis] <= m
        }
}

/// The extreme value of coordinate `axis` over all vertices: the least when `least`
/// holds, the greatest otherwise.
pub open spec fn extreme(shapes: ShapesView, axis: int, least: bool) -> i64 {
    choose|m: i64| #[trigger] is_extreme(shapes, axis, least, m)
}

/// The least x coordinate of a vertex.
pub open spec fn min_x(shapes: ShapesView) -> i64 {
    extreme(shapes, 0, true)
}

/// The least y coordinate of a vertex.
pub open spec fn min_y(shapes: ShapesView) -> i64 {
    extreme(shapes, 1, true)
}

/// The greatest x coordinate of a vertex.
pub open spec fn max_x(shapes: ShapesView) -> i64 {
    extreme(shapes, 0, false)
}

/// The greatest y coordinate of a vertex.
pub open spec fn max_y(shapes: ShapesView) -> i64 {
    extreme(shapes, 1, false)
}

/// A value attained on `axis` and bounding every vertex is the extreme.
proof fn lemma_extreme(shapes: ShapesView, axis: int, least: bool, m: i64)
    requires
        is_extreme(shapes, axis, least, m),
    ensures
        extreme(shapes, axis, least) == m,
{
    let e = extreme(shapes, axis, least);
    let pe = choose|p: WirePoint| is_point(shapes, p) && p[axis] == e;
    let pm = choose|p: WirePoint| is_point(shapes, p) && p[axis] == m;
    assert(is_point(shapes, pe) && is_point(shapes, pm));
}

/// Lists every vertex of every contour of every shape, in order.
fn collect_points(shapes: &WireShapes) -> (points: Vec<WirePoint>)
    ensures
        forall|p: WirePoint| points@.contains(p) <==> is_point(shapes_view(*shapes), p),
{
    let ghost v = shapes_view(*shapes);
    let mut points: Vec<WirePoint> = Vec::new();
    let mut i: usize = 0;
    while i < shapes.len()
        invariant
            i <= shapes@.len(),
            v == shapes_view(*shapes),
            forall|p: WirePoint|
                points@.contains(p) <==> exists|a: int, b: int, c: int|
                    0 <= a < i && 0 <= b < v[a].len() && 0 <= c < v[a][b].len() && #[trigger] v[a][b][c] == p,
        decreases shapes@.len() - i,
    {
        let shape = &shapes[i];
        assert(v[i as int] == shape_view(*shape));
        let mut j: usize = 0;
        while j < shape.len()
            invariant
                i < shapes@.len(),
                j <= shape@.len(),
                v == shapes_view(*shapes),
                v[i as int] == shape_view(*shape),
                forall|p: WirePoint|
                    points@.contains(p) <==> (exists|a: int, b: int, c: int|
                        0 <= a < i && 0 <= b < v[a].len() && 0 <= c < v[a][b].len() && #[trigger] v[a][b][c] == p)
                        || (exists|b: int, c: int|
                        0 <= b < j && 0 <= c < v[i as int][b].len() && #[trigger] v[i as int][b][c] == p),
            decreases shape@.len() - j,
        {
            let contour = &shape[j];
            assert(v[i as int][j as int] == contour@);
            let mut k: usize = 0;
            while k < contour.len()
                invariant
                    i < shapes@.len(),
                    j < shape@.len(),
                    k <= contour@.len(),
                    v == shapes_view(*shapes),
                    v[i as int] == shape_view(*shape),
                    v[i as int][j as int] == contour@,
                    forall|p: WirePoint|
                        points@.contains(p) <==> (exists|a: int, b: int, c: int|
                            0 <= a < i && 0 <= b < v[a].len() && 0 <= c < v[a][b].len() && #[trigger] v[a][b][c] == p)
                            || (exists|b: int, c: int|
                            0 <= b < j && 0 <= c < v[i as int][b].len() && #[trigger] v[i as int][b][c] == p)
                            || (exists|c: int| 0 <= c < k && #[trigger] contour@[c] == p),
                decreases contour@.len() - k,
            {
                let ghost before = points@;
                points.push(contour[k]);
                proof {
                    assert forall|p: WirePoint| points@.contains(p) <==> before.contains(p) || p == contour@[k as int] by {
                        if points@.contains(p) {
                            let x = choose|x: int| 0 <= x < points@.len() && points@[x] == p;
                            if x < before.len() {
                                assert(before[x] == p);
                            }
                        }
                        if before.contains(p) {
                            let x = choose|x: int| 0 <= x < before.len() && before[x] == p;
                            assert(points@[x] == p);
                        }
                        assert(points@[before.len() as int] == contour@[k as int]);
                    }
                    assert forall|p: WirePoint|
                        #[trigger] points@.contains(p) <==> (exists|a: int, b: int, c: int|
                            0 <= a < i && 0 <= b < v[a].len() && 0 <= c < v[a][b].len() && #[trigger] v[a][b][c] == p)
                            || (exists|b: int, c: int|
                            0 <= b < j && 0 <= c < v[i as int][b].len() && #[trigger] v[i as int][b][c] == p)
                            || (exists|c: int| 0 <= c < k + 1 && #[trigger] contour@[c] == p) by {
                        if exists|c: int| 0 <= c < k + 1 && #[trigger] contour@[c] == p {
                            let c = choose|c: int| 0 <= c < k + 1 && #[trigger] contour@[c] == p;
                            if c < k {
                                assert(contour@[c] == p);
                            }
                        }
                        if p == contour@[k as int] {
                            assert(contour@[k as int] == p);
                        }
                        if before.contains(p) {
                        }
                    }
                }
                k = k + 1;
            }
            proof {
                assert forall|p: WirePoint|
                    points@.contains(p) <==> (exists|a: int, b: int, c: int|
                        0 <= a < i && 0 <= b < v[a].len() && 0 <= c < v[a][b].len() && #[trigger] v[a][b][c] == p)
                        || (exists|b: int, c: int|
                        0 <= b < j + 1 && 0 <= c < v[i as int][b].len() && #[trigger] v[i as int][b][c] == p) by {
                    if exists|c: int| 0 <= c < k && #[trigger] contour@[c] == p {
                        let c = choose|c: int| 0 <= c < k && #[trigger] contour@[c] == p;
                        assert(v[i as int][j as int][c] == p);
                    }
                    if exists|b: int, c: int|
                        0 <= b < j + 1 && 0 <= c < v[i as int][b].len() && #[trigger] v[i as int][b][c] == p {
                        let (b, c) = choose|b: int, c: int|
                            0 <= b < j + 1 && 0 <= c < v[i as int][b].len() && #[trigger] v[i as int][b][c] == p;
                        if b == j {
                            assert(contour@[c] == p);
                        }
                    }
                }
            }
            j = j + 1;
        }
        proof {
            assert forall|p: WirePoint|
                points@.contains(p) <==> exists|a: int, b: int, c: int|
                    0 <= a < i + 1 && 0 <= b < v[a].len() && 0 <= c < v[a][b].len() && #[trigger] v[a][b][c] == p by {
                if exists|b: int, c: int|
                    0 <= b < j && 0 <= c < v[i as int][b].len() && #[trigger] v[i as int][b][c] == p {
                    let (b, c) = choose|b: int, c: int|
                        0 <= b < j && 0 <= c < v[i as int][b].len() && #[trigger] v[i as int][b][c] == p;
                    assert(v[i as int][b][c] == p);
                }
                if exists|a: int, b: int, c: int|
                    0 <= a < i + 1 && 0 <= b < v[a].len() && 0 <= c < v[a][b].len() && #[trigger] v[a][b][c] == p {
                    let (a, b, c) = choose|a: int, b: int, c: int|
                        0 <= a < i + 1 && 0 <= b < v[a].len() && 0 <= c < v[a][b].len() && #[trigger] v[a][b][c] == p;
                    if a == i {
                        assert(v[i as int][b][c] == p);
                    }
                }
            }
        }
        i = i + 1;
    }
    proof {
        assert forall|p: WirePoint| points@.contains(p) <==> is_point(v, p) by {
            if is_point(v, p) {
                let (a, b, c) = choose|a: int, b: int, c: int|
                    0 <= a < v.len() && 0 <= b < v[a].len() && 0 <= c < v[a][b].len() && #[trigger] v[a][b][c] == p;
                assert(v[a][b][c] == p);
            }
        }
    }
    points
}

/// The least and greatest x and y over all vertices, or `None` without vertices.
pub fn bounds(shapes: &WireShapes) -> (result: Option<(i64, i64, i64, i64)>)
    ensures
        result is None <==> !has_point(shapes_view(*shapes)),
        result matches Some(b) ==> b == (
            min_x(shapes_view(*shapes)),
            min_y(shapes_view(*shapes)),
            max_x(shapes_view(*shapes)),
            max_y(shapes_view(*shapes)),
        ),
        result matches Some(b) ==> {
            &&& is_extreme(shapes_view(*shapes), 0, true, b.0)
            &&& is_extreme(shapes_view(*shapes), 1, true, b.1)
            &&& is_extreme(shapes_view(*shapes), 0, false, b.2)
            &&& is_extreme(shapes_view(*shapes), 1, false, b.3)
            &&& b.0 <= b.2
            &&& b.1 <= b.3
        },
{
    let ghost v = shapes_view(*shapes);
    let points = collect_points(shapes);
    if points.len() == 0 {
        proof {
            if has_point(v) {
                let p = choose|p: WirePoint| is_point(v, p);
                assert(points@.contains(p));
            }
        }
        return None;
    }
    let first = points[0];
    let mut minimum_x = first[0];
    let mut minimum_y = first[1];
    let mut maximum_x = first[0];
    let mut maximum_y = first[1];
    let mut k: usize = 1;
    proof {
        assert(points@.contains(first));
    }
    while k < points.len()
        invariant
            1 <= k <= points@.len(),
            forall|p: WirePoint| points@.contains(p) <==> is_point(v, p),
            exists|a: int| 0 <= a < k && (#[trigger] points@[a])[0] == minimum_x,
            exists|a: int| 0 <= a < k && (#[trigger] points@[a])[1] == minimum_y,
            exists|a: int| 0 <= a < k && (#[trigger] points@[a])[0] == maximum_x,
            exists|a: int| 0 <= a < k && (#[trigger] points@[a])[1] == maximum_y,
            forall|a: int| 0 <= a < k ==> minimum_x <= (#[trigger] points@[a])[0] <= maximum_x
                && minimum_y <= points@[a][1] <= maximum_y,
        decreases points@.len() - k,
    {
        let point = points[k];
        if point[0] < minimum_x {
            minimum_x = point[0];
        }
        if point[1] < minimum_y {
            minimum_y = point[1];
        }
        if point[0] > maximum_x {
            maximum_x = point[0];
        }
        if point[1] > maximum_y {
            maximum_y = point[1];
        }
        k = k + 1;
    }
    proof {
        assert(is_point(v, first));
        assert(has_point(v));
        assert forall|p: WirePoint| #[trigger] is_point(v, p) implies minimum_x <= p[0] <= maximum_x
            && minimum_y <= p[1] <= maximum_y by {
            assert(points@.contains(p));
            let a = choose|a: int| 0 <= a < points@.len() && points@[a] == p;
        }
        let a0 = choose|a: int| 0 <= a < k && (#[trigger] points@[a])[0] == minimum_x;
        let a1 = choose|a: int| 0 <= a < k && (#[trigger] points@[a])[1] == minimum_y;
        let a2 = choose|a: int| 0 <= a < k && (#[trigger] points@[a])[0] == maximum_x;
        let a3 = choose|a: int| 0 <= a < k && (#[trigger] points@[a])[1] == maximum_y;
        assert(points@.contains(points@[a0]) && points@.contains(points@[a1]));
        assert(points@.contains(points@[a2]) && points@.contains(points@[a3]));
        lemma_extreme(v, 0, true, minimum_x);
        lemma_extreme(v, 1, true, minimum_y);
        lemma_extreme(v, 0, false, maximum_x);
        lemma_extreme(v, 1, false, maximum_y);
    }
    Some((minimum_x, minimum_y, maximum_x, maximum_y))
}

/// The least and greatest x over all vertices, or `None` without vertices.
pub fn x_bounds(shapes: &WireShapes) -> (result: Option<(i64, i64)>)
    ensures
        result is None <==> !has_point(shapes_view(*shapes)),
        result matches Some(b) ==> b == (min_x(shapes_view(*shapes)), max_x(shapes_view(*shapes))),
        result matches Some(b) ==> b.0 <= b.1,
{
    match bounds(shapes) {
        None => None,
        Some((minimum_x, _, maximum_x, _)) => Some((minimum_x, maximum_x)),
    }
}

} // verus!
