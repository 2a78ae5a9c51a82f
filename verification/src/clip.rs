//! Clipping shapes to one side of a horizontal cut.
use crate::bounds::{bounds, has_point, is_point, max_x, max_y, min_x, min_y};
use crate::overlay::{boolean_overlay, overlay_shapes, BooleanOp, FillMode};
use crate::validate::{shape_ok, shapes_ok};
use crate::scene::{lemma_normalize_in_range, normalize_shapes, normalize_view, oriented_contour, shapes_area_fit, shapes_oriented};
use crate::wire::{shape_view, shapes_in_range, shapes_view, ShapesView, WirePoint, WireShapes};
use vstd::prelude::*;

verus! {

/// The axis-aligned rectangle `[left, right] × [bottom, top]` as a single shape.
pub open spec fn rectangle_view(left: i64, bottom: i64, right: i64, top: i64) -> ShapesView {
    seq![seq![seq![[left, bottom], [right, bottom], [right, top], [left, top]]]]
}

/// What clipping `shapes` at height `y` yields: the part above the cut when
/// `positive`, below it otherwise. A cut outside the shapes' vertical extent keeps
/// everything (with its contours oriented, as every result of the kernel is) or
/// nothing; otherwise the shapes are intersected (even-odd) with their bounding box
/// cut at `y`.
pub open spec fn spec_clip_at_y(shapes: ShapesView, y: i64, positive: bool) -> ShapesView {
    if !has_point(shapes) {
        seq![]
    } else if positive && y <= min_y(shapes) || !positive && y >= max_y(shapes) {
        normalize_view(shapes)
    } else if positive && y >= max_y(shapes) || !positive && y <= min_y(shapes) {
        seq![]
    } else if positive {
        boolean_overlay(
            BooleanOp::Intersect,
            FillMode::EvenOdd,
            shapes,
            rectangle_view(min_x(shapes), y, max_x(shapes), max_y(shapes)),
        )
    } else {
        boolean_overlay(
            BooleanOp::Intersect,
            FillMode::EvenOdd,
            shapes,
            rectangle_view(min_x(shapes), min_y(shapes), max_x(shapes), y),
        )
    }
}

/// A vertex of shapes in the overlay range is in the overlay range.
pub proof fn lemma_point_in_range(shapes: ShapesView, p: WirePoint)
    requires
        shapes_in_range(shapes),
        is_point(shapes, p),
    ensures
        crate::wire::point_in_range(p),
{
    let (i, j, k) = choose|i: int, j: int, k: int|
        0 <= i < shapes.len() && 0 <= j < shapes[i].len() && 0 <= k < shapes[i][j].len()
            && #[trigger] shapes[i][j][k] == p;
    assert(crate::wire::point_in_range(shapes[i][j][k]));
}

/// Keeps the part of `shapes` above (`positive`) or below the horizontal line at `y`.
pub fn clip_shapes_at_y(shapes: WireShapes, y: i64, positive: bool) -> (result: WireShapes)
    requires
        shapes_in_range(shapes_view(shapes)),
        shapes_area_fit(shapes_view(shapes)),
    ensures
        shapes_view(result) == spec_clip_at_y(shapes_view(shapes), y, positive),
        shapes_in_range(shapes_view(result)),
        shapes_oriented(shapes_view(result)),
        shapes_ok(shapes_view(shapes)) ==> shapes_ok(shapes_view(result)),
{
    let ghost v = shapes_view(shapes);
    let (minimum_x, minimum_y, maximum_x, maximum_y) = match bounds(&shapes) {
        None => {
            let empty: WireShapes = Vec::new();
            proof {
                assert(shapes_view(empty) =~= Seq::<Seq<Seq<WirePoint>>>::empty());
            }
            return empty;
        },
        Some(b) => b,
    };
    if positive && y <= minimum_y || !positive && y >= maximum_y {
        proof {
            lemma_normalize_in_range(v);
            let n = normalize_view(v);
            assert forall|i: int, j: int| 0 <= i < n.len() && 0 <= j < n[i].len() implies #[trigger] n[i][j].len()
                == v[i][j].len() by {
                assert(n[i][j] == oriented_contour(v[i][j], j));
            }
            if shapes_ok(v) {
                assert forall|i: int| 0 <= i < n.len() implies shape_ok(#[trigger] n[i]) by {
                    assert(shape_ok(v[i]));
                    assert forall|j: int| 0 <= j < n[i].len() implies (#[trigger] n[i][j]).len() >= 3 by {
                        assert(v[i][j].len() >= 3);
                    }
                }
            }
        }
        return normalize_shapes(&shapes);
    }
    if positive && y >= maximum_y || !positive && y <= minimum_y {
        let empty: WireShapes = Vec::new();
        proof {
            assert(shapes_view(empty) =~= Seq::<Seq<Seq<WirePoint>>>::empty());
        }
        return empty;
    }
    let (bottom, top) = if positive {
        (y, maximum_y)
    } else {
        (minimum_y, y)
    };
    let clipping: WireShapes = vec![
        vec![vec![[minimum_x, bottom], [maximum_x, bottom], [maximum_x, top], [minimum_x, top]]],
    ];
    proof {
        let px = choose|p: WirePoint| is_point(v, p) && p[0] == minimum_x;
        let qx = choose|p: WirePoint| is_point(v, p) && p[0] == maximum_x;
        let py = choose|p: WirePoint| is_point(v, p) && p[1] == minimum_y;
        let qy = choose|p: WirePoint| is_point(v, p) && p[1] == maximum_y;
        lemma_point_in_range(v, px);
        lemma_point_in_range(v, qx);
        lemma_point_in_range(v, py);
        lemma_point_in_range(v, qy);
        assert(shape_view(clipping@[0]) =~= rectangle_view(minimum_x, bottom, maximum_x, top)[0]);
        assert(shapes_view(clipping) =~= rectangle_view(minimum_x, bottom, maximum_x, top));
    }
    overlay_shapes(BooleanOp::Intersect, FillMode::EvenOdd, &shapes, &clipping)
}

/// When the cut at `y` passes strictly through the shapes' vertical extent, clipping
/// intersects (even-odd) the shapes with one rectangle that spans their full width,
/// from their least to their greatest x, and reaches from the cut to their top
/// (`positive`) or from their bottom to the cut. Nothing left or right of the cut
/// window's sides is ever lost, because those sides are the shapes' own x extremes.
pub proof fn lemma_clip_window_spans_full_width(shapes: ShapesView, y: i64, positive: bool)
    requires
        has_point(shapes),
        min_y(shapes) < y < max_y(shapes),
    ensures
        positive ==> spec_clip_at_y(shapes, y, positive) == boolean_overlay(
            BooleanOp::Intersect,
            FillMode::EvenOdd,
            shapes,
            seq![
                seq![
                    seq![
                        [min_x(shapes), y],
                        [max_x(shapes), y],
                        [max_x(shapes), max_y(shapes)],
                        [min_x(shapes), max_y(shapes)],
                    ],
                ],
            ],
        ),
        !positive ==> spec_clip_at_y(shapes, y, positive) == boolean_overlay(
            BooleanOp::Intersect,
            FillMode::EvenOdd,
            shapes,
            seq![
                seq![
                    seq![
                        [min_x(shapes), min_y(shapes)],
                        [max_x(shapes), min_y(shapes)],
                        [max_x(shapes), y],
                        [min_x(shapes), y],
                    ],
                ],
            ],
        ),
{
}

/// A cut at or below the shapes' lowest point keeps all of them above it, and a cut
/// at or above their highest point keeps all of them below it (with every contour
/// oriented, and the same points); a cut beyond the far side keeps nothing.
pub proof fn lemma_clip_outside_keeps_all_or_nothing(shapes: ShapesView, y: i64)
    requires
        has_point(shapes),
    ensures
        y <= min_y(shapes) ==> spec_clip_at_y(shapes, y, true) == normalize_view(shapes),
        y >= max_y(shapes) ==> spec_clip_at_y(shapes, y, false) == normalize_view(shapes),
        y >= max_y(shapes) && y > min_y(shapes) ==> spec_clip_at_y(shapes, y, true).len() == 0,
        y <= min_y(shapes) && y < max_y(shapes) ==> spec_clip_at_y(shapes, y, false).len() == 0,
{
}

} // verus!
