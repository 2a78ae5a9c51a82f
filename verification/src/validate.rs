//! Validation of the shapes that requests carry.
use crate::wire::{shape_view, shapes_view, ShapeView, ShapesView, WireShapes};
use vstd::prelude::*;

verus! {

/// Which collection of shapes a validation error refers to.
#[derive(Clone, Copy, Debug, PartialEq, Eq, Structural)]
pub enum ShapeSet {
    Subject,
    Mask,
    CrossSection,
    ClipY,
    Volume(usize),
}

/// A shape without contours (`contour == None`), or the first contour of a shape
/// with fewer than three points.
#[derive(Clone, Copy, Debug, PartialEq, Eq)]
pub struct ShapeError {
    pub set: ShapeSet,
    pub shape: usize,
    pub contour: Option<usize>,
}

/// A shape has at least one contour, and every contour has at least three points.
pub open spec fn shape_ok(shape: ShapeView) -> bool {
    shape.len() > 0 && forall|j: int| 0 <= j < shape.len() ==> (#[trigger] shape[j]).len() >= 3
}

/// Every shape is well formed.
pub open spec fn shapes_ok(shapes: ShapesView) -> bool {
    forall|i: int| 0 <= i < shapes.len() ==> shape_ok(#[trigger] shapes[i])
}

/// The index of the first malformed shape.
pub open spec fn first_bad_shape(shapes: ShapesView) -> int {
    choose|i: int|
        0 <= i < shapes.len() && !shape_ok(shapes[i]) && forall|k: int|
            0 <= k < i ==> shape_ok(#[trigger] shapes[k])
}

/// The index of the first contour with fewer than three points.
pub open spec fn first_short_contour(shape: ShapeView) -> int {
    choose|j: int|
        0 <= j < shape.len() && shape[j].len() < 3 && forall|k: int|
            0 <= k < j ==> (#[trigger] shape[k]).len() >= 3
}

/// What validating `shapes` under the name `set` reports.
pub open spec fn spec_validate_shapes(set: ShapeSet, shapes: ShapesView) -> Result<(), ShapeError> {
    if shapes_ok(shapes) {
        Ok(())
    } else {
        let i = first_bad_shape(shapes);
        Err(
            ShapeError {
                set,
                shape: i as usize,
                contour: if shapes[i].len() == 0 {
                    None
                } else {
                    Some(first_short_contour(shapes[i]) as usize)
                },
            },
        )
    }
}

/// Checks that every shape has a contour and that every contour has at least three
/// points, reporting the first violation.
pub fn validate_shapes(set: ShapeSet, shapes: &WireShapes) -> (result: Result<(), ShapeError>)
    ensures
        result == spec_validate_shapes(set, shapes_view(*shapes)),
{
    let ghost v = shapes_view(*shapes);
    let mut i: usize = 0;
    while i < shapes.len()
        invariant
            i <= shapes@.len(),
            v == shapes_view(*shapes),
            forall|k: int| 0 <= k < i ==> shape_ok(#[trigger] v[k]),
        decreases shapes@.len() - i,
    {
        let shape = &shapes[i];
        assert(v[i as int] == shape_view(*shape));
        if shape.len() == 0 {
            proof {
                assert(!shape_ok(v[i as int]));
                assert(!shapes_ok(v));
                let b = first_bad_shape(v);
                if b != i {
                    assert(shape_ok(v[b]) || b > i);
                }
                assert(b == i);
            }
            return Err(ShapeError { set, shape: i, contour: None });
        }
        let mut j: usize = 0;
        while j < shape.len()
            invariant
                j <= shape@.len(),
                i < shapes@.len(),
                v == shapes_view(*shapes),
                v[i as int] == shape_view(*shape),
                forall|k: int| 0 <= k < i ==> shape_ok(#[trigger] v[k]),
                forall|k: int| 0 <= k < j ==> (#[trigger] v[i as int][k]).len() >= 3,
            decreases shape@.len() - j,
        {
            if shape[j].len() < 3 {
                proof {
                    assert(v[i as int][j as int].len() < 3);
                    assert(!shape_ok(v[i as int]));
                    assert(!shapes_ok(v));
                    let b = first_bad_shape(v);
                    assert(b == i);
                    let c = first_short_contour(v[i as int]);
                    assert(c == j);
                }
                return Err(ShapeError { set, shape: i, contour: Some(j) });
            }
            j = j + 1;
        }
        assert(shape_ok(v[i as int]));
        i = i + 1;
    }
    Ok(())
}

} // verus!
