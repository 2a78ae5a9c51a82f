//! Boundary faces of a scene of extruded volumes.
//!
//! A volume is a stack of polygonal shapes extruded between two heights. Its top
//! face is the part of its (normalised) footprint not covered by volumes that start
//! at its top; its bottom face likewise; and every contour edge of its footprint
//! becomes a vertical wall.
use crate::arith::{fits_i128, fits_i64, Point3};
use crate::edges::{atomic_edges, faces_fit, faces_view, spec_atomic_edges, Face, FaceView, WireEdge};
use crate::lines::{lemma_flat_segment_fits, lemma_vertical_segment_fits, segment_fits, Segment};
use crate::overlay::{boolean_overlay, overlay_shapes, BooleanOp, FillMode};
use crate::wire::{
    in_overlay_range, point_in_range, shapes_within_range, shape_view, shapes_in_range, shapes_view, ContourView,
    ShapeView, ShapesView, WireContour, WirePoint, WireShape, WireShapes,
};
use vstd::arithmetic::div_mod::{lemma_mod_self_0, lemma_small_mod};
use vstd::prelude::*;

verus! {

/// A polygonal footprint extruded from `bottom` to `top`, made of `material`.
#[derive(Clone, Debug)]
pub struct WireVolume {
    pub shapes: WireShapes,
    pub bottom: i64,
    pub top: i64,
    pub material: u32,
}

/// The mathematical view of a volume.
pub struct VolumeView {
    pub shapes: ShapesView,
    pub bottom: i64,
    pub top: i64,
    pub material: u32,
}

impl View for WireVolume {
    type V = VolumeView;

    open spec fn view(&self) -> VolumeView {
        VolumeView {
            shapes: shapes_view(self.shapes),
            bottom: self.bottom,
            top: self.top,
            material: self.material,
        }
    }
}

/// The views of a sequence of volumes.
pub open spec fn volumes_view(volumes: Seq<WireVolume>) -> Seq<VolumeView> {
    volumes.map_values(|v: WireVolume| v@)
}

/// The shoelace term of edge `i` of a closed contour: `p_i × p_(i+1)`.
pub open spec fn area_term(c: ContourView, i: int) -> int {
    let a = c[i];
    let b = c[(i + 1) % (c.len() as int)];
    a[0] * b[1] - a[1] * b[0]
}

/// The sum of the first `k` shoelace terms.
pub open spec fn area_partial(c: ContourView, k: nat) -> int
    decreases k,
{
    if k == 0 {
        0
    } else {
        area_partial(c, (k - 1) as nat) + area_term(c, k - 1)
    }
}

/// Twice the signed area of a closed contour (positive when counter-clockwise).
pub open spec fn twice_area(c: ContourView) -> int {
    area_partial(c, c.len())
}

/// Every partial shoelace sum fits in `i128`.
pub open spec fn area_fits(c: ContourView) -> bool {
    forall|k: nat| k <= c.len() ==> fits_i128(#[trigger] area_partial(c, k))
}

/// Every contour's shoelace sum can be accumulated in `i128`.
pub open spec fn shapes_area_fit(shapes: ShapesView) -> bool {
    forall|i: int, j: int|
        0 <= i < shapes.len() && 0 <= j < shapes[i].len() ==> area_fits(#[trigger] shapes[i][j])
}

/// Every outer contour (index 0 of its shape) has non-negative signed area and
/// every hole non-positive: outer contours run counter-clockwise, holes clockwise.
pub open spec fn shapes_oriented(shapes: ShapesView) -> bool {
    forall|i: int, j: int|
        0 <= i < shapes.len() && 0 <= j < shapes[i].len() ==> {
            &&& j == 0 ==> twice_area(#[trigger] shapes[i][j]) >= 0
            &&& j > 0 ==> twice_area(shapes[i][j]) <= 0
        }
}

/// A contour oriented for its place in a shape: the outer contour (index 0)
/// counter-clockwise, holes clockwise; a contour of zero area counts as clockwise.
pub open spec fn oriented_contour(c: ContourView, index: int) -> ContourView {
    if (twice_area(c) > 0) != (index == 0) {
        c.reverse()
    } else {
        c
    }
}

/// A shape with every contour oriented for its place.
pub open spec fn oriented_shape(shape: ShapeView) -> ShapeView {
    Seq::new(shape.len(), |j: int| oriented_contour(shape[j], j))
}

/// Shapes with every contour oriented for its place.
pub open spec fn normalize_view(shapes: ShapesView) -> ShapesView {
    Seq::new(shapes.len(), |i: int| oriented_shape(shapes[i]))
}

/// The volumes with normalised footprints.
pub open spec fn canonical_view(volumes: Seq<VolumeView>) -> Seq<VolumeView> {
    Seq::new(
        volumes.len(),
        |i: int|
            VolumeView {
                shapes: normalize_view(volumes[i].shapes),
                bottom: volumes[i].bottom,
                top: volumes[i].top,
                material: volumes[i].material,
            },
    )
}

/// Volume `other` rests on top of `v` (`upward`) or `v` rests on top of `other`.
pub open spec fn touches(other: VolumeView, v: VolumeView, upward: bool) -> bool {
    if upward {
        other.bottom == v.top
    } else {
        other.top == v.bottom
    }
}

/// The footprints, among the first `k` volumes other than volume `i`, that touch
/// volume `i` from above (`upward`) or below.
pub open spec fn cover_list(vols: Seq<VolumeView>, i: int, k: int, upward: bool) -> Seq<ShapesView>
    decreases k,
{
    if k <= 0 {
        seq![]
    } else {
        cover_list(vols, i, k - 1, upward) + if k - 1 != i && touches(vols[k - 1], vols[i], upward) {
            seq![vols[k - 1].shapes]
        } else {
            seq![]
        }
    }
}

/// The even-odd union of a sequence of footprints, folded from the left; empty
/// footprints are skipped.
pub open spec fn union_fold(covers: Seq<ShapesView>) -> ShapesView
    decreases covers.len(),
{
    if covers.len() == 0 {
        seq![]
    } else {
        let r = union_fold(covers.drop_last());
        let c = covers.last();
        if r.len() == 0 {
            c
        } else if c.len() == 0 {
            r
        } else {
            boolean_overlay(BooleanOp::Union, FillMode::EvenOdd, r, c)
        }
    }
}

/// The even-odd difference `subject - clip`, or `subject` itself when `clip` is empty.
pub open spec fn difference_view(subject: ShapesView, clip: ShapesView) -> ShapesView {
    if clip.len() == 0 {
        subject
    } else {
        boolean_overlay(BooleanOp::Difference, FillMode::EvenOdd, subject, clip)
    }
}

/// The part of the footprint of volume `i` not covered by the volumes that touch it
/// from above (`upward`) or from below.
pub open spec fn exposed(vols: Seq<VolumeView>, i: int, upward: bool) -> ShapesView {
    difference_view(vols[i].shapes, union_fold(cover_list(vols, i, vols.len() as int, upward)))
}

/// The edges of a closed contour lifted to `height`.
pub open spec fn contour_ring(c: ContourView, height: i64) -> Seq<Segment> {
    Seq::new(
        c.len(),
        |k: int|
            Segment {
                start: [c[k][0], c[k][1], height],
                end: [c[(k + 1) % (c.len() as int)][0], c[(k + 1) % (c.len() as int)][1], height],
            },
    )
}

/// The edges of all contours of a shape lifted to `height`.
pub open spec fn shape_ring(shape: ShapeView, height: i64) -> Seq<Segment> {
    Seq::new(shape.len(), |j: int| contour_ring(shape[j], height)).flatten()
}

/// One horizontal face per shape, at `height`, with the given normal and material.
pub open spec fn horizontal_faces(
    shapes: ShapesView,
    height: i64,
    normal: Point3,
    material: u32,
) -> Seq<FaceView> {
    Seq::new(
        shapes.len(),
        |i: int| FaceView { normal, material, edges: shape_ring(shapes[i], height) },
    )
}

/// The vertical wall above edge `k` of contour `c` of a volume.
pub open spec fn wall(c: ContourView, k: int, bottom: i64, top: i64, material: u32) -> FaceView {
    let p = c[k];
    let q = c[(k + 1) % (c.len() as int)];
    let bottom_start: Point3 = [p[0], p[1], bottom];
    let bottom_end: Point3 = [q[0], q[1], bottom];
    let top_start: Point3 = [p[0], p[1], top];
    let top_end: Point3 = [q[0], q[1], top];
    FaceView {
        normal: [(q[1] - p[1]) as i64, (p[0] - q[0]) as i64, 0],
        material,
        edges: seq![
            Segment { start: bottom_start, end: bottom_end },
            Segment { start: bottom_end, end: top_end },
            Segment { start: top_end, end: top_start },
            Segment { start: top_start, end: bottom_start },
        ],
    }
}

/// The walls of one contour.
pub open spec fn contour_walls(c: ContourView, bottom: i64, top: i64, material: u32) -> Seq<
    FaceView,
> {
    Seq::new(c.len(), |k: int| wall(c, k, bottom, top, material))
}

/// The walls of every contour of every shape of a volume.
pub open spec fn vertical_faces(v: VolumeView) -> Seq<FaceView> {
    Seq::new(
        v.shapes.len(),
        |i: int|
            Seq::new(
                v.shapes[i].len(),
                |j: int| contour_walls(v.shapes[i][j], v.bottom, v.top, v.material),
            ).flatten(),
    ).flatten()
}

/// The faces of volume `i` of the canonical volumes: exposed top, exposed bottom, walls.
pub open spec fn volume_faces(canon: Seq<VolumeView>, i: int) -> Seq<FaceView> {
    let v = canon[i];
    horizontal_faces(exposed(canon, i, true), v.top, [0i64, 0i64, 1i64], v.material) + horizontal_faces(
        exposed(canon, i, false),
        v.bottom,
        [0i64, 0i64, -1i64],
        v.material,
    ) + vertical_faces(v)
}

/// The boundary faces of a scene, volume by volume.
pub open spec fn spec_scene_faces(volumes: Seq<VolumeView>) -> Seq<FaceView> {
    let canon = canonical_view(volumes);
    Seq::new(volumes.len(), |i: int| volume_faces(canon, i)).flatten()
}

/// The atomic edges of a scene.
pub open spec fn spec_scene_edges(volumes: Seq<VolumeView>) -> Seq<WireEdge> {
    spec_atomic_edges(spec_scene_faces(volumes))
}

/// A scene the kernel can process: every footprint lies in the overlay range and its
/// shoelace sums fit in `i128`, and every volume's height difference fits in `i64`.
pub open spec fn scene_in_range(volumes: Seq<VolumeView>) -> bool {
    forall|i: int|
        0 <= i < volumes.len() ==> {
            &&& shapes_in_range((#[trigger] volumes[i]).shapes)
            &&& shapes_area_fit(volumes[i].shapes)
            &&& fits_i64(volumes[i].top - volumes[i].bottom)
            &&& fits_i64(volumes[i].bottom - volumes[i].top)
        }
}

/// One volume rests on the other.
pub open spec fn adjacent(a: VolumeView, b: VolumeView) -> bool {
    a.bottom == b.top || a.top == b.bottom
}

/// Some other volume rests on volume `i` or carries it, so its footprint takes part
/// in a Boolean operation.
pub open spec fn in_contact(vols: Seq<VolumeView>, i: int) -> bool {
    exists|j: int| 0 <= j < vols.len() && j != i && #[trigger] adjacent(vols[j], vols[i])
}

/// The wall above edge `k` of contour `c` has a normal that fits in `i64`.
pub open spec fn edge_normal_fits(c: ContourView, k: int) -> bool {
    let p = c[k];
    let q = c[(k + 1) % (c.len() as int)];
    fits_i64(q[1] - p[1]) && fits_i64(p[0] - q[0])
}

/// Every wall above an edge of `shapes` has a normal that fits in `i64`.
pub open spec fn wall_normals_fit(shapes: ShapesView) -> bool {
    forall|i: int, j: int, k: int|
        0 <= i < shapes.len() && 0 <= j < shapes[i].len() && 0 <= k < shapes[i][j].len()
            ==> #[trigger] edge_normal_fits(shapes[i][j], k)
}

/// What building a scene's faces needs: every footprint's shoelace sums fit in
/// `i128` (to orient it), every wall normal of the oriented footprint fits in `i64`,
/// and every footprint that takes part in a Boolean operation lies in the overlay
/// range.
pub open spec fn faces_in_range(volumes: Seq<VolumeView>) -> bool {
    forall|i: int|
        0 <= i < volumes.len() ==> {
            &&& shapes_area_fit((#[trigger] volumes[i]).shapes)
            &&& wall_normals_fit(normalize_view(volumes[i].shapes))
            &&& in_contact(volumes, i) ==> shapes_in_range(volumes[i].shapes)
        }
}

/// Shapes in the overlay range have wall normals that fit in `i64`.
pub proof fn lemma_range_normals_fit(shapes: ShapesView)
    requires
        shapes_in_range(shapes),
    ensures
        wall_normals_fit(shapes),
{
    assert forall|i: int, j: int, k: int|
        0 <= i < shapes.len() && 0 <= j < shapes[i].len() && 0 <= k < shapes[i][j].len()
            implies #[trigger] edge_normal_fits(shapes[i][j], k) by {
        let n = shapes[i][j].len() as int;
        assert(point_in_range(shapes[i][j][k]));
        assert(point_in_range(shapes[i][j][(k + 1) % n]));
    }
}

/// A scene in range can have its faces built.
pub proof fn lemma_scene_faces_in_range(volumes: Seq<VolumeView>)
    requires
        scene_in_range(volumes),
    ensures
        faces_in_range(volumes),
{
    assert forall|i: int| 0 <= i < volumes.len() implies {
        &&& shapes_area_fit((#[trigger] volumes[i]).shapes)
        &&& wall_normals_fit(normalize_view(volumes[i].shapes))
        &&& in_contact(volumes, i) ==> shapes_in_range(volumes[i].shapes)
    } by {
        lemma_normalize_in_range(volumes[i].shapes);
        lemma_range_normals_fit(normalize_view(volumes[i].shapes));
    }
}

/// Twice the signed area of a closed contour, by the shoelace formula.
pub fn signed_area(contour: &Vec<WirePoint>) -> (area: i128)
    requires
        area_fits(contour@),
    ensures
        area as int == twice_area(contour@),
{
    let n = contour.len();
    let mut sum: i128 = 0;
    let mut k: usize = 0;
    while k < n
        invariant
            n == contour@.len(),
            k <= n,
            area_fits(contour@),
            sum as int == area_partial(contour@, k as nat),
        decreases n - k,
    {
        let a = contour[k];
        let b = contour[(k + 1) % n];
        proof {
            crate::arith::lemma_cross_term_fits(a[0], b[1], a[1], b[0]);
            assert(fits_i128(area_partial(contour@, (k + 1) as nat)));
        }
        sum = sum + (a[0] as i128 * b[1] as i128 - a[1] as i128 * b[0] as i128);
        k = k + 1;
    }
    sum
}

/// The points of a contour in reverse order.
fn reversed_contour(contour: &Vec<WirePoint>) -> (reversed: Vec<WirePoint>)
    ensures
        reversed@ == contour@.reverse(),
{
    let n = contour.len();
    let mut reversed: Vec<WirePoint> = Vec::new();
    let mut k: usize = 0;
    while k < n
        invariant
            n == contour@.len(),
            k <= n,
            reversed@ == contour@.reverse().take(k as int),
        decreases n - k,
    {
        reversed.push(contour[n - 1 - k]);
        proof {
            assert(reversed@ =~= contour@.reverse().take(k + 1));
        }
        k = k + 1;
    }
    proof {
        assert(contour@.reverse().take(n as int) =~= contour@.reverse());
    }
    reversed
}

/// A copy of a contour.
fn copy_contour(contour: &Vec<WirePoint>) -> (copy: Vec<WirePoint>)
    ensures
        copy@ == contour@,
{
    let mut copy: Vec<WirePoint> = Vec::new();
    let mut k: usize = 0;
    while k < contour.len()
        invariant
            k <= contour@.len(),
            copy@ == contour@.take(k as int),
        decreases contour@.len() - k,
    {
        copy.push(contour[k]);
        proof {
            assert(copy@ =~= contour@.take(k + 1));
        }
        k = k + 1;
    }
    proof {
        assert(contour@.take(contour@.len() as int) =~= contour@);
    }
    copy
}

/// A copy of a collection of shapes.
pub fn copy_shapes(shapes: &WireShapes) -> (copy: WireShapes)
    ensures
        shapes_view(copy) == shapes_view(*shapes),
{
    let ghost v = shapes_view(*shapes);
    let mut copy: WireShapes = Vec::new();
    let mut i: usize = 0;
    while i < shapes.len()
        invariant
            i <= shapes@.len(),
            v == shapes_view(*shapes),
            shapes_view(copy) == v.take(i as int),
            copy@.len() == i,
        decreases shapes@.len() - i,
    {
        let shape = &shapes[i];
        let mut contours: WireShape = Vec::new();
        let mut j: usize = 0;
        while j < shape.len()
            invariant
                j <= shape@.len(),
                shape_view(contours) == shape_view(*shape).take(j as int),
                contours@.len() == j,
            decreases shape@.len() - j,
        {
            let ghost before = contours@;
            let c = copy_contour(&shape[j]);
            contours.push(c);
            proof {
                assert(contours@ == before.push(c));
                assert(shape_view(contours) =~= shape_view(*shape).take(j + 1)) by {
                    assert forall|k: int| 0 <= k < j + 1 implies shape_view(contours)[k]
                        == shape_view(*shape).take(j + 1)[k] by {
                        if k < j {
                            assert(contours@[k] == before[k]);
                        }
                    }
                }
            }
            j = j + 1;
        }
        proof {
            assert(shape_view(contours) =~= shape_view(*shape));
        }
        let ghost before = copy@;
        copy.push(contours);
        proof {
            assert(copy@ == before.push(contours));
            assert(shapes_view(copy) =~= v.take(i + 1)) by {
                assert forall|k: int| 0 <= k < i + 1 implies shapes_view(copy)[k] == v.take(i + 1)[k] by {
                    if k < i {
                        assert(copy@[k] == before[k]);
                    }
                }
            }
        }
        i = i + 1;
    }
    proof {
        assert(v.take(v.len() as int) =~= v);
    }
    copy
}

/// Orients every contour for its place: outer contours counter-clockwise, holes
/// clockwise.
pub fn normalize_shapes(shapes: &WireShapes) -> (normalized: WireShapes)
    requires
        shapes_area_fit(shapes_view(*shapes)),
    ensures
        shapes_view(normalized) == normalize_view(shapes_view(*shapes)),
        shapes_oriented(shapes_view(normalized)),
{
    let ghost v = shapes_view(*shapes);
    let mut normalized: WireShapes = Vec::new();
    let mut i: usize = 0;
    while i < shapes.len()
        invariant
            i <= shapes@.len(),
            v == shapes_view(*shapes),
            shapes_area_fit(v),
            shapes_view(normalized) == normalize_view(v).take(i as int),
            normalized@.len() == i,
        decreases shapes@.len() - i,
    {
        let shape = &shapes[i];
        proof {
            assert(v[i as int] == shape_view(*shape));
        }
        let mut contours: WireShape = Vec::new();
        let mut j: usize = 0;
        while j < shape.len()
            invariant
                i < shapes@.len(),
                j <= shape@.len(),
                v == shapes_view(*shapes),
                shapes_area_fit(v),
                v[i as int] == shape_view(*shape),
                shape_view(contours) == oriented_shape(v[i as int]).take(j as int),
                contours@.len() == j,
            decreases shape@.len() - j,
        {
            let contour = &shape[j];
            proof {
                assert(v[i as int][j as int] == contour@);
                assert(area_fits(v[i as int][j as int]));
            }
            let area = signed_area(contour);
            let oriented = if (area > 0) != (j == 0) {
                reversed_contour(contour)
            } else {
                copy_contour(contour)
            };
            let ghost before = contours@;
            contours.push(oriented);
            proof {
                assert(contours@ == before.push(oriented));
                assert(oriented@ == oriented_contour(v[i as int][j as int], j as int));
                assert(shape_view(contours) =~= oriented_shape(v[i as int]).take(j + 1)) by {
                    assert forall|k: int| 0 <= k < j + 1 implies shape_view(contours)[k]
                        == oriented_shape(v[i as int]).take(j + 1)[k] by {
                        if k < j {
                            assert(contours@[k] == before[k]);
                        }
                    }
                }
            }
            j = j + 1;
        }
        proof {
            assert(shape_view(contours) =~= oriented_shape(v[i as int]));
        }
        let ghost before = normalized@;
        normalized.push(contours);
        proof {
            assert(normalized@ == before.push(contours));
            assert(shapes_view(normalized) =~= normalize_view(v).take(i + 1)) by {
                assert forall|k: int| 0 <= k < i + 1 implies shapes_view(normalized)[k]
                    == normalize_view(v).take(i + 1)[k] by {
                    if k < i {
                        assert(normalized@[k] == before[k]);
                    }
                }
            }
        }
        i = i + 1;
    }
    proof {
        assert(normalize_view(v).take(v.len() as int) =~= normalize_view(v));
        assert forall|i: int, j: int|
            0 <= i < shapes_view(normalized).len() && 0 <= j < shapes_view(normalized)[i].len() implies {
                &&& j == 0 ==> twice_area(#[trigger] shapes_view(normalized)[i][j]) >= 0
                &&& j > 0 ==> twice_area(shapes_view(normalized)[i][j]) <= 0
            } by {
            lemma_oriented_area_sign(v[i][j], j);
        }
    }
    normalized
}

/// Orienting contours keeps every point, so it keeps shapes in the overlay range.
pub proof fn lemma_normalize_in_range(v: ShapesView)
    requires
        shapes_in_range(v),
    ensures
        shapes_in_range(normalize_view(v)),
{
    let n = normalize_view(v);
    assert forall|i: int, j: int, k: int|
        0 <= i < n.len() && 0 <= j < n[i].len() && 0 <= k < n[i][j].len() implies point_in_range(
        #[trigger] n[i][j][k],
    ) by {
        let c = v[i][j];
        if (twice_area(c) > 0) != (j == 0) {
            assert(n[i][j] == c.reverse());
            assert(n[i][j][k] == c[c.len() - 1 - k]);
            assert(point_in_range(v[i][j][c.len() - 1 - k]));
        } else {
            assert(point_in_range(v[i][j][k]));
        }
    }
}

/// The even-odd union of the footprints that touch volume `i` from above (`upward`)
/// or from below.
fn union_covers(canon: &Vec<WireVolume>, i: usize, upward: bool) -> (union: WireShapes)
    requires
        i < canon@.len(),
        forall|j: int|
            0 <= j < canon@.len() && j != i && #[trigger] touches(canon@[j]@, canon@[i as int]@, upward)
                ==> shapes_in_range(canon@[j]@.shapes),
    ensures
        shapes_view(union) == union_fold(
            cover_list(volumes_view(canon@), i as int, canon@.len() as int, upward),
        ),
        shapes_in_range(shapes_view(union)),
        union@.len() > 0 ==> exists|j: int|
            0 <= j < canon@.len() && j != i && #[trigger] touches(canon@[j]@, canon@[i as int]@, upward),
{
    let ghost vv = volumes_view(canon@);
    let mut result: WireShapes = Vec::new();
    let mut k: usize = 0;
    proof {
        assert(shapes_view(result) =~= union_fold(cover_list(vv, i as int, 0, upward)));
    }
    while k < canon.len()
        invariant
            k <= canon@.len(),
            i < canon@.len(),
            vv == volumes_view(canon@),
            forall|j: int|
                0 <= j < canon@.len() && j != i && #[trigger] touches(canon@[j]@, canon@[i as int]@, upward)
                    ==> shapes_in_range(canon@[j]@.shapes),
            shapes_view(result) == union_fold(cover_list(vv, i as int, k as int, upward)),
            shapes_in_range(shapes_view(result)),
            result@.len() > 0 ==> exists|j: int|
                0 <= j < k && j != i && #[trigger] touches(canon@[j]@, canon@[i as int]@, upward),
        decreases canon@.len() - k,
    {
        let other = &canon[k];
        let ghost prefix = cover_list(vv, i as int, k as int, upward);
        proof {
            assert(vv[k as int] == other@);
        }
        let touching = if upward {
            other.bottom == canon[i].top
        } else {
            other.top == canon[i].bottom
        };
        if k != i && touching {
            proof {
                assert(vv[i as int] == canon@[i as int]@);
                assert(cover_list(vv, i as int, k + 1, upward) == prefix + seq![vv[k as int].shapes]);
                let next = prefix + seq![vv[k as int].shapes];
                assert(next.drop_last() =~= prefix);
                assert(touches(canon@[k as int]@, canon@[i as int]@, upward));
                assert(shapes_in_range(canon@[k as int]@.shapes));
            }
            if result.len() == 0 {
                result = copy_shapes(&other.shapes);
            } else if other.shapes.len() != 0 {
                result = overlay_shapes(BooleanOp::Union, FillMode::EvenOdd, &result, &other.shapes);
            }
        } else {
            proof {
                assert(vv[i as int] == canon@[i as int]@);
                assert(cover_list(vv, i as int, k + 1, upward) =~= prefix);
            }
        }
        k = k + 1;
    }
    result
}

/// The even-odd difference `subject - clip`, or a copy of `subject` when `clip` is
/// empty.
pub fn difference_shapes(subject: &WireShapes, clip: &WireShapes) -> (difference: WireShapes)
    requires
        clip@.len() > 0 ==> shapes_in_range(shapes_view(*subject)) && shapes_in_range(
            shapes_view(*clip),
        ),
    ensures
        shapes_view(difference) == difference_view(shapes_view(*subject), shapes_view(*clip)),
        shapes_in_range(shapes_view(*subject)) ==> shapes_in_range(shapes_view(difference)),
{
    if clip.len() == 0 {
        return copy_shapes(subject);
    }
    overlay_shapes(BooleanOp::Difference, FillMode::EvenOdd, subject, clip)
}

/// Every segment of `s` can be keyed without overflow.
pub open spec fn segments_fit(s: Seq<Segment>) -> bool {
    forall|k: int| 0 <= k < s.len() ==> segment_fits(#[trigger] s[k])
}

/// Appending a face whose segments fit keeps every face fitting.
proof fn lemma_push_face_fits(faces: Seq<Face>, face: Face)
    requires
        faces_fit(faces_view(faces)),
        segments_fit(face.edges@),
    ensures
        faces_fit(faces_view(faces.push(face))),
{
    let fv = faces_view(faces.push(face));
    assert forall|i: int, j: int| 0 <= i < fv.len() && 0 <= j < fv[i].edges.len() implies segment_fits(
        #[trigger] fv[i].edges[j],
    ) by {
        if i < faces.len() {
            assert(fv[i] == faces_view(faces)[i]);
        } else {
            assert(fv[i] == face@);
        }
    }
}

/// Appends one horizontal face per shape at `height`, with the given normal and
/// material, bounded by the shape's contours.
pub fn add_horizontal_faces(
    faces: &mut Vec<Face>,
    shapes: &WireShapes,
    height: i64,
    normal: Point3,
    material: u32,
)
    ensures
        faces_view(final(faces)@) == faces_view(old(faces)@) + horizontal_faces(
            shapes_view(*shapes),
            height,
            normal,
            material,
        ),
        faces_fit(faces_view(old(faces)@)) && shapes_in_range(shapes_view(*shapes)) ==> faces_fit(
            faces_view(final(faces)@),
        ),
{
    let ghost v = shapes_view(*shapes);
    let ghost start = faces_view(faces@);
    let ghost fit = faces_fit(start) && shapes_in_range(v);
    let ghost all = horizontal_faces(v, height, normal, material);
    let mut i: usize = 0;
    while i < shapes.len()
        invariant
            i <= shapes@.len(),
            v == shapes_view(*shapes),
            fit ==> shapes_in_range(v),
            all == horizontal_faces(v, height, normal, material),
            faces_view(faces@) == start + all.take(i as int),
            fit ==> faces_fit(faces_view(faces@)),
        decreases shapes@.len() - i,
    {
        let shape = &shapes[i];
        proof {
            assert(v[i as int] == shape_view(*shape));
        }
        let mut edges: Vec<Segment> = Vec::new();
        let mut j: usize = 0;
        while j < shape.len()
            invariant
                i < shapes@.len(),
                j <= shape@.len(),
                v == shapes_view(*shapes),
                fit ==> shapes_in_range(v),
                v[i as int] == shape_view(*shape),
                edges@ == Seq::new(j as nat, |jj: int| contour_ring(v[i as int][jj], height)).flatten(),
                fit ==> segments_fit(edges@),
            decreases shape@.len() - j,
        {
            let contour = &shape[j];
            let n = contour.len();
            let ghost c = v[i as int][j as int];
            let ghost base = edges@;
            proof {
                assert(c == contour@);
            }
            let mut k: usize = 0;
            while k < n
                invariant
                    i < shapes@.len(),
                    j < shape@.len(),
                    n == contour@.len(),
                    k <= n,
                    c == contour@,
                    c == v[i as int][j as int],
                    v == shapes_view(*shapes),
                    v[i as int] == shape_view(*shape),
                    fit ==> shapes_in_range(v),
                    edges@ == base + contour_ring(c, height).take(k as int),
                    fit ==> segments_fit(edges@),
                decreases n - k,
            {
                let a = contour[k];
                let b = contour[(k + 1) % n];
                let segment = Segment { start: [a[0], a[1], height], end: [b[0], b[1], height] };
                proof {
                    assert(v.len() == shapes@.len());
                    assert(v[i as int].len() == shape@.len());
                    if fit {
                        assert(point_in_range(v[i as int][j as int][k as int]));
                        assert(point_in_range(v[i as int][j as int][(k + 1) % (n as int)]));
                        lemma_flat_segment_fits(segment);
                    }
                    assert(segment == contour_ring(c, height)[k as int]);
                }
                let ghost before = edges@;
                edges.push(segment);
                proof {
                    assert(edges@ =~= base + contour_ring(c, height).take(k + 1));
                    if fit {
                        assert forall|m: int| 0 <= m < edges@.len() implies segment_fits(
                            #[trigger] edges@[m],
                        ) by {
                            if m < before.len() {
                                assert(edges@[m] == before[m]);
                            }
                        }
                    }
                }
                k = k + 1;
            }
            proof {
                let rings = Seq::new(j as nat, |jj: int| contour_ring(v[i as int][jj], height));
                assert(contour_ring(c, height).take(n as int) =~= contour_ring(c, height));
                assert(Seq::new((j + 1) as nat, |jj: int| contour_ring(v[i as int][jj], height))
                    =~= rings.push(contour_ring(c, height)));
                rings.lemma_flatten_push(contour_ring(c, height));
            }
            j = j + 1;
        }
        let face = Face { normal, material, edges };
        proof {
            assert(Seq::new(shape@.len() as nat, |jj: int| contour_ring(v[i as int][jj], height))
                =~= Seq::new(v[i as int].len(), |jj: int| contour_ring(v[i as int][jj], height)));
            assert(face@ == all[i as int]);
            if fit {
                lemma_push_face_fits(faces@, face);
            }
        }
        let ghost before = faces@;
        faces.push(face);
        proof {
            assert(faces@ == before.push(face));
            assert(faces_view(before) == start + all.take(i as int));
            assert(all.len() == shapes@.len());
            assert(faces_view(faces@).len() == faces@.len());
            assert(faces_view(faces@) =~= start + all.take(i + 1)) by {
                assert forall|m: int| 0 <= m < faces_view(faces@).len() implies faces_view(faces@)[m]
                    == (start + all.take(i + 1))[m] by {
                    assert(faces_view(before).len() == before.len());
                    if m < before.len() {
                        assert(faces@[m] == before[m]);
                        assert(faces_view(before)[m] == (start + all.take(i as int))[m]);
                    } else {
                        assert(faces@[m] == face);
                        assert(m == start.len() + i);
                    }
                }
            }
        }
        i = i + 1;
    }
    proof {
        assert(all.take(shapes@.len() as int) =~= all);
    }
}

/// Appends the vertical wall above every contour edge of a volume.
#[verifier::spinoff_prover]
pub fn add_vertical_faces(faces: &mut Vec<Face>, volume: &WireVolume)
    requires
        wall_normals_fit(volume@.shapes),
    ensures
        faces_view(final(faces)@) == faces_view(old(faces)@) + vertical_faces(volume@),
        faces_fit(faces_view(old(faces)@)) && shapes_in_range(volume@.shapes) && fits_i64(
            volume.top - volume.bottom,
        ) && fits_i64(volume.bottom - volume.top) ==> faces_fit(faces_view(final(faces)@)),
{
    let ghost vol = volume@;
    let ghost v = vol.shapes;
    let ghost start = faces_view(faces@);
    let ghost fit = faces_fit(start) && shapes_in_range(v) && fits_i64(volume.top - volume.bottom)
        && fits_i64(volume.bottom - volume.top);
    let ghost outer = Seq::new(
        v.len(),
        |a: int|
            Seq::new(
                v[a].len(),
                |b: int| contour_walls(v[a][b], vol.bottom, vol.top, vol.material),
            ).flatten(),
    );
    let shapes = &volume.shapes;
    let mut i: usize = 0;
    while i < shapes.len()
        invariant
            i <= shapes@.len(),
            vol == volume@,
            v == vol.shapes,
            v == shapes_view(*shapes),
            *shapes == volume.shapes,
            wall_normals_fit(v),
            fit ==> shapes_in_range(v) && fits_i64(volume.top - volume.bottom) && fits_i64(
                volume.bottom - volume.top,
            ),
            outer == Seq::new(
                v.len(),
                |a: int|
                    Seq::new(
                        v[a].len(),
                        |b: int| contour_walls(v[a][b], vol.bottom, vol.top, vol.material),
                    ).flatten(),
            ),
            faces_view(faces@) == start + outer.take(i as int).flatten(),
            fit ==> faces_fit(faces_view(faces@)),
        decreases shapes@.len() - i,
    {
        let shape = &shapes[i];
        let ghost middle = Seq::new(
            v[i as int].len(),
            |b: int| contour_walls(v[i as int][b], vol.bottom, vol.top, vol.material),
        );
        proof {
            assert(v[i as int] == shape_view(*shape));
        }
        let mut j: usize = 0;
        while j < shape.len()
            invariant
                i < shapes@.len(),
                j <= shape@.len(),
                vol == volume@,
                v == shapes_view(*shapes),
                *shapes == volume.shapes,
                v[i as int] == shape_view(*shape),
                wall_normals_fit(v),
                fit ==> shapes_in_range(v) && fits_i64(volume.top - volume.bottom) && fits_i64(
                    volume.bottom - volume.top,
                ),
                middle == Seq::new(
                    v[i as int].len(),
                    |b: int| contour_walls(v[i as int][b], vol.bottom, vol.top, vol.material),
                ),
                faces_view(faces@) == start + outer.take(i as int).flatten() + middle.take(
                    j as int,
                ).flatten(),
                fit ==> faces_fit(faces_view(faces@)),
            decreases shape@.len() - j,
        {
            let contour = &shape[j];
            let n = contour.len();
            let ghost c = v[i as int][j as int];
            let ghost walls = contour_walls(c, vol.bottom, vol.top, vol.material);
            let ghost base = faces_view(faces@);
            proof {
                assert(c == contour@);
            }
            let mut k: usize = 0;
            while k < n
                invariant
                    i < shapes@.len(),
                    j < shape@.len(),
                    n == contour@.len(),
                    k <= n,
                    vol == volume@,
                    c == contour@,
                    c == v[i as int][j as int],
                    v == shapes_view(*shapes),
                    v[i as int] == shape_view(*shape),
                    wall_normals_fit(v),
                    fit ==> shapes_in_range(v) && fits_i64(volume.top - volume.bottom) && fits_i64(
                        volume.bottom - volume.top,
                    ),
                    walls == contour_walls(c, vol.bottom, vol.top, vol.material),
                    faces_view(faces@) == base + walls.take(k as int),
                    fit ==> faces_fit(faces_view(faces@)),
                decreases n - k,
            {
                let p = contour[k];
                let q = contour[(k + 1) % n];
                proof {
                    assert(v.len() == shapes@.len());
                    assert(v[i as int].len() == shape@.len());
                    assert(edge_normal_fits(v[i as int][j as int], k as int));
                    if fit {
                        assert(point_in_range(v[i as int][j as int][k as int]));
                        assert(point_in_range(v[i as int][j as int][(k + 1) % (n as int)]));
                    }
                }
                let bottom_start: Point3 = [p[0], p[1], volume.bottom];
                let bottom_end: Point3 = [q[0], q[1], volume.bottom];
                let top_start: Point3 = [p[0], p[1], volume.top];
                let top_end: Point3 = [q[0], q[1], volume.top];
                let mut edges: Vec<Segment> = Vec::new();
                edges.push(Segment { start: bottom_start, end: bottom_end });
                edges.push(Segment { start: bottom_end, end: top_end });
                edges.push(Segment { start: top_end, end: top_start });
                edges.push(Segment { start: top_start, end: bottom_start });
                let face = Face { normal: [q[1] - p[1], p[0] - q[0], 0], material: volume.material, edges };
                proof {
                    if fit {
                        lemma_flat_segment_fits(edges@[0]);
                        lemma_vertical_segment_fits(edges@[1]);
                        lemma_flat_segment_fits(edges@[2]);
                        lemma_vertical_segment_fits(edges@[3]);
                        assert(segments_fit(edges@));
                        lemma_push_face_fits(faces@, face);
                    }
                    assert(face@.edges =~= walls[k as int].edges);
                    assert(face@.normal =~= walls[k as int].normal);
                    assert(face@ == walls[k as int]);
                }
                let ghost before = faces@;
                faces.push(face);
                proof {
                    assert(faces@ == before.push(face));
                    assert(faces_view(before) == base + walls.take(k as int));
                    assert(walls.len() == n);
                    assert(faces_view(before).len() == before.len());
                    assert(before.len() == base.len() + k);
                    assert(faces_view(faces@).len() == faces@.len());
                    assert(faces_view(faces@).len() == (base + walls.take(k + 1)).len());
                    assert(faces_view(faces@) =~= base + walls.take(k + 1)) by {
                        assert forall|m: int| 0 <= m < faces_view(faces@).len() implies faces_view(faces@)[m]
                            == (base + walls.take(k + 1))[m] by {
                            assert(faces_view(before).len() == before.len());
                            if m < before.len() {
                                assert(faces@[m] == before[m]);
                                assert(faces_view(before)[m] == (base + walls.take(k as int))[m]);
                            } else {
                                assert(faces@[m] == face);
                                assert(m == base.len() + k);
                                assert(walls.take(k + 1)[k as int] == walls[k as int]);
                                assert(faces_view(faces@)[m] == face@);
                            }
                        }
                    }
                }
                k = k + 1;
            }
            proof {
                assert(walls.take(n as int) =~= walls);
                assert(middle[j as int] == walls);
                assert(middle.take(j + 1) =~= middle.take(j as int).push(walls));
                middle.take(j as int).lemma_flatten_push(walls);
            }
            j = j + 1;
        }
        proof {
            assert(middle.take(shape@.len() as int) =~= middle);
            assert(outer[i as int] == middle.flatten());
            assert(outer.take(i + 1) =~= outer.take(i as int).push(middle.flatten()));
            outer.take(i as int).lemma_flatten_push(middle.flatten());
        }
        i = i + 1;
    }
    proof {
        assert(outer.take(shapes@.len() as int) =~= outer);
        assert(outer == Seq::new(
            vol.shapes.len(),
            |a: int|
                Seq::new(
                    vol.shapes[a].len(),
                    |b: int| contour_walls(vol.shapes[a][b], vol.bottom, vol.top, vol.material),
                ).flatten(),
        ));
    }
}

/// The boundary faces of a scene: for each volume, its exposed top, its exposed
/// bottom, and its walls, after orienting every footprint contour.
pub fn scene_faces(volumes: &[WireVolume]) -> (faces: Vec<Face>)
    requires
        faces_in_range(volumes_view(volumes@)),
    ensures
        faces_view(faces@) == spec_scene_faces(volumes_view(volumes@)),
        scene_in_range(volumes_view(volumes@)) ==> faces_fit(faces_view(faces@)),
{
    let ghost vv = volumes_view(volumes@);
    let ghost canon = canonical_view(vv);
    let mut canonical: Vec<WireVolume> = Vec::new();
    let mut i: usize = 0;
    while i < volumes.len()
        invariant
            i <= volumes@.len(),
            vv == volumes_view(volumes@),
            canon == canonical_view(vv),
            faces_in_range(vv),
            volumes_view(canonical@) == canon.take(i as int),
            canonical@.len() == i,
        decreases volumes@.len() - i,
    {
        let volume = &volumes[i];
        proof {
            assert(vv[i as int] == volume@);
            assert(shapes_area_fit(vv[i as int].shapes));
        }
        let shapes = normalize_shapes(&volume.shapes);
        let next = WireVolume {
            shapes,
            bottom: volume.bottom,
            top: volume.top,
            material: volume.material,
        };
        let ghost before = canonical@;
        canonical.push(next);
        proof {
            assert(canonical@ == before.push(next));
            assert(volumes_view(canonical@) =~= canon.take(i + 1)) by {
                assert forall|m: int| 0 <= m < i + 1 implies volumes_view(canonical@)[m] == canon.take(i + 1)[m] by {
                    if m < i {
                        assert(canonical@[m] == before[m]);
                        assert(volumes_view(before)[m] == canon.take(i as int)[m]);
                    } else {
                        assert(canonical@[m] == next);
                    }
                }
            }
        }
        i = i + 1;
    }
    let ghost fit = scene_in_range(vv);
    proof {
        assert(canon.take(volumes@.len() as int) =~= canon);
        assert forall|j: int| 0 <= j < canonical@.len() && (fit || in_contact(vv, j)) implies shapes_in_range(
            #[trigger] canonical@[j]@.shapes,
        ) by {
            assert(canonical@[j]@ == canon[j]);
            assert(faces_in_range(vv) && 0 <= j < vv.len());
            assert(vv[j] == vv[j]);
            assert(shapes_in_range(vv[j].shapes));
            lemma_normalize_in_range(vv[j].shapes);
        }
    }
    let mut faces: Vec<Face> = Vec::new();
    let n = canonical.len();
    let mut k: usize = 0;
    while k < n
        invariant
            n == canonical@.len(),
            n == vv.len(),
            k <= n,
            vv == volumes_view(volumes@),
            canon == canonical_view(vv),
            volumes_view(canonical@) == canon,
            faces_in_range(vv),
            fit == scene_in_range(vv),
            forall|j: int|
                0 <= j < canonical@.len() && (fit || in_contact(vv, j)) ==> shapes_in_range(
                    #[trigger] canonical@[j]@.shapes,
                ),
            faces_view(faces@) == Seq::new(k as nat, |m: int| volume_faces(canon, m)).flatten(),
            fit ==> faces_fit(faces_view(faces@)),
        decreases n - k,
    {
        let volume = &canonical[k];
        let ghost before = faces_view(faces@);
        proof {
            assert(volume@ == canon[k as int]);
            assert(vv[k as int].top == volume.top && vv[k as int].bottom == volume.bottom);
            assert(wall_normals_fit(normalize_view(vv[k as int].shapes)));
            assert forall|j: int|
                0 <= j < canonical@.len() && j != k && #[trigger] touches(
                    canonical@[j]@,
                    canonical@[k as int]@,
                    true,
                ) implies shapes_in_range(canonical@[j]@.shapes) by {
                assert(canonical@[j]@ == canon[j]);
                assert(canon[j].bottom == vv[j].bottom && canon[k as int].top == vv[k as int].top);
                assert(adjacent(vv[k as int], vv[j]));
                assert(in_contact(vv, j));
            }
            assert forall|j: int|
                0 <= j < canonical@.len() && j != k && #[trigger] touches(
                    canonical@[j]@,
                    canonical@[k as int]@,
                    false,
                ) implies shapes_in_range(canonical@[j]@.shapes) by {
                assert(canonical@[j]@ == canon[j]);
                assert(canon[j].top == vv[j].top && canon[k as int].bottom == vv[k as int].bottom);
                assert(adjacent(vv[k as int], vv[j]));
                assert(in_contact(vv, j));
            }
        }
        let top_cover = union_covers(&canonical, k, true);
        proof {
            if top_cover@.len() > 0 {
                let j = choose|j: int|
                    0 <= j < canonical@.len() && j != k && #[trigger] touches(
                        canonical@[j]@,
                        canonical@[k as int]@,
                        true,
                    );
                assert(canonical@[j]@ == canon[j]);
                assert(canon[j].bottom == vv[j].bottom && canon[k as int].top == vv[k as int].top);
                assert(adjacent(vv[j], vv[k as int]));
                assert(in_contact(vv, k as int));
            }
        }
        let exposed_top = difference_shapes(&volume.shapes, &top_cover);
        add_horizontal_faces(&mut faces, &exposed_top, volume.top, [0, 0, 1], volume.material);
        let bottom_cover = union_covers(&canonical, k, false);
        proof {
            if bottom_cover@.len() > 0 {
                let j = choose|j: int|
                    0 <= j < canonical@.len() && j != k && #[trigger] touches(
                        canonical@[j]@,
                        canonical@[k as int]@,
                        false,
                    );
                assert(canonical@[j]@ == canon[j]);
                assert(canon[j].top == vv[j].top && canon[k as int].bottom == vv[k as int].bottom);
                assert(adjacent(vv[j], vv[k as int]));
                assert(in_contact(vv, k as int));
            }
        }
        let exposed_bottom = difference_shapes(&volume.shapes, &bottom_cover);
        add_horizontal_faces(&mut faces, &exposed_bottom, volume.bottom, [0, 0, -1], volume.material);
        proof {
            if fit {
                assert(vv[k as int] == vv[k as int]);
                assert(fits_i64(vv[k as int].top - vv[k as int].bottom));
                assert(fits_i64(vv[k as int].bottom - vv[k as int].top));
            }
        }
        add_vertical_faces(&mut faces, volume);
        proof {
            assert(shapes_view(exposed_top) == exposed(canon, k as int, true));
            assert(shapes_view(exposed_bottom) == exposed(canon, k as int, false));
            let piece = volume_faces(canon, k as int);
            assert(faces_view(faces@) =~= before + piece);
            let pieces = Seq::new(k as nat, |m: int| volume_faces(canon, m));
            assert(Seq::new((k + 1) as nat, |m: int| volume_faces(canon, m)) =~= pieces.push(piece));
            pieces.lemma_flatten_push(piece);
        }
        k = k + 1;
    }
    faces
}

/// The atomic edges of a scene's boundary faces.
pub fn scene_edges(volumes: &[WireVolume]) -> (edges: Vec<WireEdge>)
    requires
        scene_in_range(volumes_view(volumes@)),
    ensures
        edges@ == spec_scene_edges(volumes_view(volumes@)),
{
    proof {
        lemma_scene_faces_in_range(volumes_view(volumes@));
    }
    let faces = scene_faces(volumes);
    atomic_edges(&faces)
}

/// Whether every partial shoelace sum of a contour fits in `i128`.
pub fn contour_area_fits(contour: &Vec<WirePoint>) -> (ok: bool)
    ensures
        ok == area_fits(contour@),
{
    let n = contour.len();
    let mut sum: i128 = 0;
    let mut k: usize = 0;
    while k < n
        invariant
            n == contour@.len(),
            k <= n,
            sum as int == area_partial(contour@, k as nat),
            forall|m: nat| m <= k ==> fits_i128(#[trigger] area_partial(contour@, m)),
        decreases n - k,
    {
        let a = contour[k];
        let b = contour[(k + 1) % n];
        proof {
            crate::arith::lemma_cross_term_fits(a[0], b[1], a[1], b[0]);
        }
        let term = a[0] as i128 * b[1] as i128 - a[1] as i128 * b[0] as i128;
        match sum.checked_add(term) {
            Some(next) => {
                sum = next;
            },
            None => {
                proof {
                    assert(!fits_i128(area_partial(contour@, (k + 1) as nat)));
                }
                return false;
            },
        }
        k = k + 1;
    }
    true
}

/// Whether every contour of every shape has shoelace sums that fit in `i128`.
pub fn shapes_area_within_range(shapes: &WireShapes) -> (ok: bool)
    ensures
        ok == shapes_area_fit(shapes_view(*shapes)),
{
    let ghost v = shapes_view(*shapes);
    let mut i: usize = 0;
    while i < shapes.len()
        invariant
            i <= shapes@.len(),
            v == shapes_view(*shapes),
            forall|a: int, b: int| 0 <= a < i && 0 <= b < v[a].len() ==> area_fits(#[trigger] v[a][b]),
        decreases shapes@.len() - i,
    {
        let shape = &shapes[i];
        assert(v[i as int] == shape_view(*shape));
        let mut j: usize = 0;
        while j < shape.len()
            invariant
                i < shapes@.len(),
                j <= shape@.len(),
                v == shapes_view(*shapes),
                v[i as int] == shape_view(*shape),
                forall|a: int, b: int| 0 <= a < i && 0 <= b < v[a].len() ==> area_fits(#[trigger] v[a][b]),
                forall|b: int| 0 <= b < j ==> area_fits(#[trigger] v[i as int][b]),
            decreases shape@.len() - j,
        {
            assert(v[i as int][j as int] == shape[j as int]@);
            if !contour_area_fits(&shape[j]) {
                return false;
            }
            j = j + 1;
        }
        proof {
            assert forall|a: int, b: int| 0 <= a < i + 1 && 0 <= b < v[a].len() implies area_fits(#[trigger] v[a][b]) by {
                if a == i {
                    assert(area_fits(v[i as int][b]));
                }
            }
        }
        i = i + 1;
    }
    true
}

/// Whether the kernel can process a scene (see `scene_in_range`).
pub fn scene_within_range(volumes: &[WireVolume]) -> (ok: bool)
    ensures
        ok == scene_in_range(volumes_view(volumes@)),
{
    let ghost vv = volumes_view(volumes@);
    let mut i: usize = 0;
    while i < volumes.len()
        invariant
            i <= volumes@.len(),
            vv == volumes_view(volumes@),
            forall|a: int|
                0 <= a < i ==> {
                    &&& shapes_in_range((#[trigger] vv[a]).shapes)
                    &&& shapes_area_fit(vv[a].shapes)
                    &&& fits_i64(vv[a].top - vv[a].bottom)
                    &&& fits_i64(vv[a].bottom - vv[a].top)
                },
        decreases volumes@.len() - i,
    {
        let volume = &volumes[i];
        assert(vv[i as int] == volume@);
        let rise = volume.top as i128 - volume.bottom as i128;
        let heights = -0x8000_0000_0000_0000i128 <= rise && rise <= 0x7fff_ffff_ffff_ffffi128
            && -0x8000_0000_0000_0000i128 <= -rise && -rise <= 0x7fff_ffff_ffff_ffffi128;
        if !(heights && shapes_within_range(&volume.shapes) && shapes_area_within_range(&volume.shapes)) {
            return false;
        }
        i = i + 1;
    }
    true
}

/// The sum of a sequence of integers.
pub open spec fn seq_sum(s: Seq<int>) -> int
    decreases s.len(),
{
    if s.len() == 0 {
        0
    } else {
        seq_sum(s.drop_last()) + s.last()
    }
}

/// The shoelace terms of a contour.
pub open spec fn area_terms(c: ContourView) -> Seq<int> {
    Seq::new(c.len(), |i: int| area_term(c, i))
}

pub(crate) proof fn lemma_sum_concat(a: Seq<int>, b: Seq<int>)
    ensures
        seq_sum(a + b) == seq_sum(a) + seq_sum(b),
    decreases b.len(),
{
    if b.len() > 0 {
        assert((a + b).drop_last() =~= a + b.drop_last());
        lemma_sum_concat(a, b.drop_last());
    } else {
        assert(a + b =~= a);
    }
}

proof fn lemma_sum_reverse(a: Seq<int>)
    ensures
        seq_sum(a.reverse()) == seq_sum(a),
    decreases a.len(),
{
    if a.len() > 0 {
        let r = a.drop_last();
        lemma_sum_reverse(r);
        assert(a.reverse() =~= seq![a.last()] + r.reverse());
        lemma_sum_concat(seq![a.last()], r.reverse());
        let one = seq![a.last()];
        assert(one.drop_last() =~= Seq::<int>::empty());
        assert(one.last() == a.last());
        assert(seq_sum(one.drop_last()) == 0);
        assert(seq_sum(one) == a.last());
    }
}

proof fn lemma_sum_negate(a: Seq<int>)
    ensures
        seq_sum(a.map_values(|x: int| -x)) == -seq_sum(a),
    decreases a.len(),
{
    if a.len() > 0 {
        lemma_sum_negate(a.drop_last());
        assert(a.map_values(|x: int| -x).drop_last() =~= a.drop_last().map_values(|x: int| -x));
    }
}

pub(crate) proof fn lemma_area_partial_is_sum(c: ContourView, k: nat)
    requires
        k <= c.len(),
    ensures
        area_partial(c, k) == seq_sum(area_terms(c).take(k as int)),
    decreases k,
{
    if k > 0 {
        lemma_area_partial_is_sum(c, (k - 1) as nat);
        assert(area_terms(c).take(k as int).drop_last() =~= area_terms(c).take(k - 1));
    }
}

/// Reversing a contour negates its signed area.
pub proof fn lemma_reverse_negates_area(c: ContourView)
    ensures
        twice_area(c.reverse()) == -twice_area(c),
{
    let n = c.len();
    let r = c.reverse();
    lemma_area_partial_is_sum(c, n);
    lemma_area_partial_is_sum(r, n);
    assert(area_terms(c).take(n as int) =~= area_terms(c));
    assert(area_terms(r).take(n as int) =~= area_terms(r));
    if n > 0 {
        let t = area_terms(c);
        let head = t.take(n - 1);
        let rebuilt = head.map_values(|x: int| -x).reverse() + seq![-t[n - 1]];
        assert forall|i: int| 0 <= i < n implies area_terms(r)[i] == rebuilt[i] by {
            if i < n - 1 {
                let p = c[n - 1 - i];
                let q = c[n - 2 - i];
                assert(r[i] == p);
                assert((i + 1) % (n as int) == i + 1) by {
                    lemma_small_mod((i + 1) as nat, n);
                }
                assert((n - 2 - i + 1) % (n as int) == n - 1 - i) by {
                    lemma_small_mod((n - 1 - i) as nat, n);
                }
                assert(r[(i + 1) % (n as int)] == q);
                assert(c[(n - 2 - i + 1) % (n as int)] == p);
                assert(area_term(r, i) == p[0] * q[1] - p[1] * q[0]);
                assert(area_term(c, n - 2 - i) == q[0] * p[1] - q[1] * p[0]);
                assert(p[0] * q[1] - p[1] * q[0] == -(q[0] * p[1] - q[1] * p[0])) by (nonlinear_arith);
                assert(rebuilt[i] == head.map_values(|x: int| -x)[n - 2 - i]);
            } else {
                let p = c[0];
                let q = c[n - 1];
                assert(r[i] == p);
                assert((i + 1) % (n as int) == 0) by {
                    lemma_mod_self_0(n as int);
                }
                assert(r[(i + 1) % (n as int)] == q);
                assert(c[(n - 1 + 1) % (n as int)] == p);
                assert(p[0] * q[1] - p[1] * q[0] == -(q[0] * p[1] - q[1] * p[0])) by (nonlinear_arith);
            }
        }
        assert(area_terms(r) =~= rebuilt);
        lemma_sum_concat(head.map_values(|x: int| -x).reverse(), seq![-t[n - 1]]);
        lemma_sum_reverse(head.map_values(|x: int| -x));
        lemma_sum_negate(head);
        assert(t =~= head + seq![t[n - 1]]);
        lemma_sum_concat(head, seq![t[n - 1]]);
        assert(seq![t[n - 1]].drop_last() =~= Seq::<int>::empty());
        assert(seq![-t[n - 1]].drop_last() =~= Seq::<int>::empty());
    }
}

/// After orientation, an outer contour has non-negative signed area and a hole has
/// non-positive signed area.
pub proof fn lemma_oriented_area_sign(c: ContourView, index: int)
    ensures
        index == 0 ==> twice_area(oriented_contour(c, index)) >= 0,
        index != 0 ==> twice_area(oriented_contour(c, index)) <= 0,
{
    lemma_reverse_negates_area(c);
}

/// Orienting is idempotent: when every outer contour has non-zero area, orienting
/// already oriented shapes changes nothing. (A zero-area outer contour is reversed
/// again on every pass.)
pub proof fn lemma_normalize_idempotent(v: ShapesView)
    requires
        forall|i: int| 0 <= i < v.len() && v[i].len() > 0 ==> twice_area(#[trigger] v[i][0]) != 0,
    ensures
        normalize_view(normalize_view(v)) == normalize_view(v),
{
    let n = normalize_view(v);
    assert forall|i: int| 0 <= i < v.len() implies #[trigger] oriented_shape(n[i]) == n[i] by {
        assert forall|j: int| 0 <= j < n[i].len() implies oriented_contour(n[i][j], j)
            == #[trigger] n[i][j] by {
            let c = v[i][j];
            lemma_reverse_negates_area(c);
            if j == 0 {
                assert(twice_area(v[i][0]) != 0);
            }
        }
        assert(oriented_shape(n[i]) =~= n[i]);
    }
    assert(normalize_view(n) =~= n);
}

/// The cover grows by union: adding a non-empty footprint to a non-empty cover gives
/// the even-odd union of the two; an empty footprint leaves the cover as it is, and
/// the first non-empty footprint becomes the cover.
pub proof fn lemma_cover_grows_by_union(covers: Seq<ShapesView>, c: ShapesView)
    ensures
        union_fold(covers).len() > 0 && c.len() > 0 ==> union_fold(covers.push(c)) == boolean_overlay(
            BooleanOp::Union,
            FillMode::EvenOdd,
            union_fold(covers),
            c,
        ),
        c.len() == 0 ==> union_fold(covers.push(c)) == union_fold(covers),
        union_fold(covers).len() == 0 ==> union_fold(covers.push(c)) == c,
{
    assert(covers.push(c).drop_last() =~= covers);
}

proof fn lemma_cover_list_of_two(
    vols: Seq<VolumeView>,
    i: int,
    j: int,
    k: int,
    upward: bool,
    n: int,
)
    requires
        0 <= n <= vols.len(),
        0 <= i < vols.len(),
        0 <= j < k < vols.len(),
        j != i,
        k != i,
        touches(vols[j], vols[i], upward),
        touches(vols[k], vols[i], upward),
        forall|m: int|
            0 <= m < vols.len() && m != i && m != j && m != k ==> !#[trigger] touches(
                vols[m],
                vols[i],
                upward,
            ),
    ensures
        cover_list(vols, i, n, upward) == (if j < n {
            seq![vols[j].shapes]
        } else {
            seq![]
        }) + (if k < n {
            seq![vols[k].shapes]
        } else {
            seq![]
        }),
    decreases n,
{
    if n == 0 {
        assert(cover_list(vols, i, n, upward) =~= Seq::<ShapesView>::empty());
        assert((seq![] + seq![]) =~= Seq::<ShapesView>::empty());
    } else {
        lemma_cover_list_of_two(vols, i, j, k, upward, n - 1);
        let m = n - 1;
        if m != i && m != j && m != k {
            assert(!touches(vols[m], vols[i], upward));
        }
        assert(cover_list(vols, i, n, upward) =~= (if j < n {
            seq![vols[j].shapes]
        } else {
            seq![]
        }) + (if k < n {
            seq![vols[k].shapes]
        } else {
            seq![]
        }));
    }
}

/// When exactly two other volumes, `j` and `k`, rest on volume `i` (`upward`), or
/// carry it, and both have footprints, the exposed face of `i` on that side is its
/// footprint minus the even-odd union of theirs: every point under either of them is
/// covered, not only the points under both. (When that union is empty nothing is
/// subtracted.)
pub proof fn lemma_two_volumes_cover_their_union(
    vols: Seq<VolumeView>,
    i: int,
    j: int,
    k: int,
    upward: bool,
)
    requires
        0 <= i < vols.len(),
        0 <= j < k < vols.len(),
        j != i,
        k != i,
        upward ==> vols[j].bottom == vols[i].top && vols[k].bottom == vols[i].top,
        !upward ==> vols[j].top == vols[i].bottom && vols[k].top == vols[i].bottom,
        forall|m: int|
            0 <= m < vols.len() && m != i && m != j && m != k ==> if upward {
                (#[trigger] vols[m]).bottom != vols[i].top
            } else {
                vols[m].top != vols[i].bottom
            },
        vols[j].shapes.len() > 0,
        vols[k].shapes.len() > 0,
    ensures
        ({
            let cover = boolean_overlay(
                BooleanOp::Union,
                FillMode::EvenOdd,
                vols[j].shapes,
                vols[k].shapes,
            );
            exposed(vols, i, upward) == if cover.len() == 0 {
                vols[i].shapes
            } else {
                boolean_overlay(BooleanOp::Difference, FillMode::EvenOdd, vols[i].shapes, cover)
            }
        }),
{
    let n = vols.len() as int;
    assert forall|m: int|
        0 <= m < vols.len() && m != i && m != j && m != k implies !#[trigger] touches(
            vols[m],
            vols[i],
            upward,
        ) by {
        assert(vols[m] == vols[m]);
    }
    lemma_cover_list_of_two(vols, i, j, k, upward, n);
    let a = vols[j].shapes;
    let b = vols[k].shapes;
    let list = cover_list(vols, i, n, upward);
    assert(list =~= seq![a, b]);
    assert(seq![a].drop_last() =~= Seq::<ShapesView>::empty());
    assert(union_fold(Seq::<ShapesView>::empty()) =~= Seq::<Seq<Seq<WirePoint>>>::empty());
    assert(seq![a].last() == a);
    assert(union_fold(seq![a]) == a);
    assert(seq![a, b].drop_last() =~= seq![a]);
    assert(union_fold(seq![a, b]) == boolean_overlay(BooleanOp::Union, FillMode::EvenOdd, a, b));
}

/// When no other volume rests on volume `i` (`upward`), or carries it, its whole
/// footprint is exposed on that side.
pub proof fn lemma_uncovered_face_is_whole(vols: Seq<VolumeView>, i: int, upward: bool)
    requires
        0 <= i < vols.len(),
        forall|m: int|
            0 <= m < vols.len() && m != i ==> if upward {
                (#[trigger] vols[m]).bottom != vols[i].top
            } else {
                vols[m].top != vols[i].bottom
            },
    ensures
        exposed(vols, i, upward) == vols[i].shapes,
{
    assert forall|m: int| 0 <= m < vols.len() && m != i implies !#[trigger] touches(vols[m], vols[i], upward) by {
        assert(vols[m] == vols[m]);
    }
    lemma_cover_list_empty(vols, i, upward, vols.len() as int);
}

proof fn lemma_cover_list_empty(vols: Seq<VolumeView>, i: int, upward: bool, n: int)
    requires
        0 <= n <= vols.len(),
        0 <= i < vols.len(),
        forall|m: int| 0 <= m < vols.len() && m != i ==> !#[trigger] touches(vols[m], vols[i], upward),
    ensures
        cover_list(vols, i, n, upward).len() == 0,
    decreases n,
{
    if n > 0 {
        lemma_cover_list_empty(vols, i, upward, n - 1);
        if n - 1 != i {
            assert(!touches(vols[n - 1], vols[i], upward));
        }
    }
}

} // verus!
