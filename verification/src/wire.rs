//! Planar shapes on the integer grid, and their mathematical views.
use vstd::prelude::*;

verus! {

/// A grid point `[x, y]`.
pub type WirePoint = [i64; 2];

/// A closed contour: consecutive points are joined, and the last joins the first.
pub type WireContour = Vec<WirePoint>;

/// A shape: an outer contour followed by its holes.
pub type WireShape = Vec<WireContour>;

/// A collection of shapes.
pub type WireShapes = Vec<WireShape>;

/// The view of a contour.
pub type ContourView = Seq<WirePoint>;

/// The view of a shape.
pub type ShapeView = Seq<Seq<WirePoint>>;

/// The view of a collection of shapes.
pub type ShapesView = Seq<Seq<Seq<WirePoint>>>;

/// The view of a shape.
pub open spec fn shape_view(shape: WireShape) -> ShapeView {
    shape@.map_values(|contour: WireContour| contour@)
}

/// The view of a collection of shapes.
pub open spec fn shapes_view(shapes: WireShapes) -> ShapesView {
    shapes@.map_values(|shape: WireShape| shape_view(shape))
}

/// The view of a collection of open paths.
pub open spec fn paths_view(paths: Vec<Vec<WirePoint>>) -> Seq<Seq<WirePoint>> {
    paths@.map_values(|path: Vec<WirePoint>| path@)
}

/// A coordinate lies in the range that the overlay engine accepts for 64-bit
/// coordinates: `-2^62 ..= 2^62 - 1`.
pub open spec fn in_overlay_range(v: int) -> bool {
    -0x4000_0000_0000_0000 <= v <= 0x3fff_ffff_ffff_ffff
}

/// Both coordinates of a point lie in the overlay range.
pub open spec fn point_in_range(p: WirePoint) -> bool {
    in_overlay_range(p[0] as int) && in_overlay_range(p[1] as int)
}

/// Every point of every contour of every shape lies in the overlay range.
pub open spec fn shapes_in_range(shapes: ShapesView) -> bool {
    forall|i: int, j: int, k: int|
        0 <= i < shapes.len() && 0 <= j < shapes[i].len() && 0 <= k < shapes[i][j].len()
            ==> point_in_range(#[trigger] shapes[i][j][k])
}

/// Whether a coordinate lies in the overlay range.
pub fn coordinate_in_range(v: i64) -> (ok: bool)
    ensures
        ok == in_overlay_range(v as int),
{
    -0x4000_0000_0000_0000i64 <= v && v <= 0x3fff_ffff_ffff_ffffi64
}

/// Whether every point of every contour of every shape lies in the overlay range.
pub fn shapes_within_range(shapes: &WireShapes) -> (ok: bool)
    ensures
        ok == shapes_in_range(shapes_view(*shapes)),
{
    let ghost v = shapes_view(*shapes);
    let mut i: usize = 0;
    while i < shapes.len()
        invariant
            i <= shapes@.len(),
            v == shapes_view(*shapes),
            forall|a: int, b: int, c: int|
                0 <= a < i && 0 <= b < v[a].len() && 0 <= c < v[a][b].len() ==> point_in_range(
                    #[trigger] v[a][b][c],
                ),
        decreases shapes@.len() - i,
    {
        let shape = &shapes[i];
        assert(v[i as int] == shape_view(*shape));
        let mut j: usize = 0;
        while j < shape.len()
            invariant
                i < shapes@.len(),
                j <= shape@.len(),
                v == shapes_view(*shapes),
                v[i as int] == shape_view(*shape),
                forall|a: int, b: int, c: int|
                    0 <= a < i && 0 <= b < v[a].len() && 0 <= c < v[a][b].len() ==> point_in_range(
                        #[trigger] v[a][b][c],
                    ),
                forall|b: int, c: int|
                    0 <= b < j && 0 <= c < v[i as int][b].len() ==> point_in_range(
                        #[trigger] v[i as int][b][c],
                    ),
            decreases shape@.len() - j,
        {
            let contour = &shape[j];
            assert(v[i as int][j as int] == contour@);
            let mut k: usize = 0;
            while k < contour.len()
                invariant
                    i < shapes@.len(),
                    j < shape@.len(),
                    k <= contour@.len(),
                    v == shapes_view(*shapes),
                    v[i as int] == shape_view(*shape),
                    v[i as int][j as int] == contour@,
                    forall|c: int| 0 <= c < k ==> point_in_range(#[trigger] contour@[c]),
                decreases contour@.len() - k,
            {
                if !(coordinate_in_range(contour[k][0]) && coordinate_in_range(contour[k][1])) {
                    proof {
                        assert(!point_in_range(v[i as int][j as int][k as int]));
                    }
                    return false;
                }
                k = k + 1;
            }
            j = j + 1;
        }
        proof {
            assert forall|a: int, b: int, c: int|
                0 <= a < i + 1 && 0 <= b < v[a].len() && 0 <= c < v[a][b].len() implies point_in_range(
                #[trigger] v[a][b][c],
            ) by {
                if a == i {
                    assert(point_in_range(v[i as int][b][c]));
                }
            }
        }
        i = i + 1;
    }
    true
}

} // verus!
