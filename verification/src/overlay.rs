//! Boolean operations and line clipping on integer shapes, performed by the
//! `i_overlay` engine.
use crate::scene::shapes_oriented;
use crate::validate::shapes_ok;
use crate::wire::{paths_view, shapes_in_range, shapes_view, point_in_range, ShapesView, WirePoint, WireShapes};
use i_overlay::i_float::int::point::IntPoint;
use i_overlay::string::clip::{ClipRule, IntClip};
use vstd::prelude::*;

verus! {

/// The Boolean operations that the geometry kernel performs.
#[derive(Clone, Copy, Debug, PartialEq, Eq, Structural)]
pub enum BooleanOp {
    Intersect,
    Union,
    Difference,
}

/// How the interior of a set of contours is decided.
#[derive(Clone, Copy, Debug, PartialEq, Eq, Structural)]
pub enum FillMode {
    EvenOdd,
    NonZero,
    Positive,
    Negative,
}

/// Which parts of a clipped line are kept.
#[derive(Clone, Copy, Debug)]
pub struct LineClipRule {
    pub invert: bool,
    pub boundary_included: bool,
}

/// The shapes that `i_overlay`'s Boolean operation `op` yields for `subject` and
/// `clip` under the fill mode `fill`.
pub uninterp spec fn boolean_overlay(
    op: BooleanOp,
    fill: FillMode,
    subject: ShapesView,
    clip: ShapesView,
) -> ShapesView;

/// The open paths that `i_overlay` keeps of the line from `start` to `end` when it
/// clips that line against `shapes` under `fill` and `rule`.
pub uninterp spec fn line_clip(
    fill: FillMode,
    rule: LineClipRule,
    shapes: ShapesView,
    start: WirePoint,
    end: WirePoint,
) -> Seq<Seq<WirePoint>>;

/// Runs `i_overlay::core::overlay::Overlay::from_subj_and_clip(subject, clip).overlay(op, fill)` of `i_overlay`.
///
/// Trusted: the result is the named overlay result of the arguments, and, as the
/// engine's source states for crossing points (they stay within the bounds of the
/// crossing segments) and as all other output points are input points, it stays in
/// the documented coordinate range when the inputs do. As `overlay` documents, outer
/// contours of the result run counter-clockwise and holes clockwise. Every output
/// shape has its outer contour and every output contour at least three points: the
/// engine drops shorter contours when it extracts them, and its simplification drops
/// a contour that falls below three points (and a shape whose outer contour does).
/// The engine requires every input coordinate to lie in that range.
#[verifier::external_body]
pub(crate) fn overlay_shapes(
    op: BooleanOp,
    fill: FillMode,
    subject: &WireShapes,
    clip: &WireShapes,
) -> (result: WireShapes)
    requires
        shapes_in_range(shapes_view(*subject)),
        shapes_in_range(shapes_view(*clip)),
    ensures
        shapes_view(result) == boolean_overlay(op, fill, shapes_view(*subject), shapes_view(*clip)),
        shapes_in_range(shapes_view(result)),
        shapes_oriented(shapes_view(result)),
        shapes_ok(shapes_view(result)),
{
    let grid = |s: &WireShapes| -> Vec<Vec<Vec<IntPoint<i64>>>> {
        s.iter().map(|h| h.iter().map(|c| c.iter().map(|p| IntPoint::new(p[0], p[1])).collect()).collect()).collect()
    };
    let mut overlay = i_overlay::core::overlay::Overlay::from_subj_and_clip(&grid(subject), &grid(clip));
    let shapes = overlay.overlay(overlay_rule(op), fill_rule(fill));
    shapes.into_iter().map(|h| h.into_iter().map(|c| c.into_iter().map(|p| [p.x, p.y]).collect()).collect()).collect()
}

/// Runs `IntClip::clip_line` of `i_overlay` on `shapes` with the line `[start, end]`.
///
/// Trusted: the result is the named clipping result of the arguments; nothing more is
/// stated of it. The engine requires every input coordinate, the line's included, to
/// lie in its documented coordinate range.
#[verifier::external_body]
pub(crate) fn clip_line(
    fill: FillMode,
    rule: LineClipRule,
    shapes: &WireShapes,
    start: WirePoint,
    end: WirePoint,
) -> (paths: Vec<Vec<WirePoint>>)
    requires
        shapes_in_range(shapes_view(*shapes)),
        point_in_range(start),
        point_in_range(end),
    ensures
        paths_view(paths) == line_clip(fill, rule, shapes_view(*shapes), start, end),
{
    let grid: Vec<Vec<Vec<IntPoint<i64>>>> = shapes.iter().map(|h| h.iter().map(|c| c.iter().map(|p| IntPoint::new(p[0], p[1])).collect()).collect()).collect();
    let line = [IntPoint::new(start[0], start[1]), IntPoint::new(end[0], end[1])];
    let clip_rule = ClipRule { invert: rule.invert, boundary_included: rule.boundary_included };
    let paths = grid.clip_line(line, fill_rule(fill), clip_rule);
    paths.into_iter().map(|path| path.into_iter().map(|p| [p.x, p.y]).collect()).collect()
}

/// `i_overlay`'s overlay rule, carried opaquely from `overlay_rule` into the engine call.
#[verifier::external_type_specification]
#[verifier::external_body]
pub struct ExOverlayRule(i_overlay::core::overlay_rule::OverlayRule);

/// Converts a Boolean operation to `i_overlay`'s `OverlayRule`, variant for variant;
/// nothing is stated of the result, which only travels into `overlay_shapes`.
#[verifier::external_body]
fn overlay_rule(op: BooleanOp) -> i_overlay::core::overlay_rule::OverlayRule {
    match op {
        BooleanOp::Intersect => i_overlay::core::overlay_rule::OverlayRule::Intersect,
        BooleanOp::Union => i_overlay::core::overlay_rule::OverlayRule::Union,
        BooleanOp::Difference => i_overlay::core::overlay_rule::OverlayRule::Difference,
    }
}

/// `i_overlay`'s fill rule, carried opaquely from `fill_rule` into the engine calls.
#[verifier::external_type_specification]
#[verifier::external_body]
pub struct ExFillRule(i_overlay::core::fill_rule::FillRule);

/// Converts a fill mode to `i_overlay`'s `FillRule`, variant for variant; nothing is
/// stated of the result, which only travels into the engine calls above.
#[verifier::external_body]
fn fill_rule(fill: FillMode) -> i_overlay::core::fill_rule::FillRule {
    match fill {
        FillMode::EvenOdd => i_overlay::core::fill_rule::FillRule::EvenOdd,
        FillMode::NonZero => i_overlay::core::fill_rule::FillRule::NonZero,
        FillMode::Positive => i_overlay::core::fill_rule::FillRule::Positive,
        FillMode::Negative => i_overlay::core::fill_rule::FillRule::Negative,
    }
}

} // verus!
