//! The kernel's versioned operations: each checks the protocol version, validates
//! its shapes, and computes its result.
use crate::edges::WireEdge;
use crate::intervals::{
    components, covers, horizontal_intervals, section_in_range, section_pieces, separated, Interval,
};
use crate::bounds::has_point;
use crate::clip::{clip_shapes_at_y, spec_clip_at_y};
use crate::overlay::{boolean_overlay, overlay_shapes, BooleanOp, FillMode};
use crate::scene::{shapes_area_fit, shapes_oriented, scene_edges, scene_in_range, spec_scene_edges, volumes_view, VolumeView, WireVolume};
use crate::validate::{shapes_ok, spec_validate_shapes, validate_shapes, ShapeError, ShapeSet};
use crate::wire::{shapes_in_range, shapes_view, ShapesView, WireShapes};
use vstd::prelude::*;

verus! {

/// The version of the request and response protocol.
pub const PROTOCOL_VERSION: u8 = 1;

/// Why a request was refused.
#[derive(Clone, Copy, Debug, PartialEq, Eq)]
pub enum GeometryError {
    /// The request names a protocol version other than `PROTOCOL_VERSION`.
    UnsupportedVersion { found: u8 },
    /// A shape has no contours, or a contour has fewer than three points.
    InvalidShape(ShapeError),
    /// A volume's top is not above its bottom.
    InvertedVolume { index: usize, top: i64, bottom: i64 },
}

/// Subtract `mask` from `subject`.
#[derive(Clone, Debug)]
pub struct DifferenceRequest {
    pub version: u8,
    pub subject: WireShapes,
    pub mask: WireShapes,
}

/// Shapes computed by the kernel.
#[derive(Clone, Debug)]
pub struct GeometryResponse {
    pub version: u8,
    pub shapes: WireShapes,
}

/// Cut `shapes` along the horizontal line at height `y`.
#[derive(Clone, Debug)]
pub struct CrossSectionRequest {
    pub version: u8,
    pub shapes: WireShapes,
    pub y: i64,
}

/// The intervals where a horizontal line runs inside the shapes.
#[derive(Clone, Debug)]
pub struct CrossSectionResponse {
    pub version: u8,
    pub intervals: Vec<Interval>,
}

/// Keep the part of `shapes` above (`positive`) or below height `y`.
#[derive(Clone, Debug)]
pub struct ClipYRequest {
    pub version: u8,
    pub shapes: WireShapes,
    pub y: i64,
    pub positive: bool,
}

/// Find the atomic edges of a scene of volumes.
#[derive(Clone, Debug)]
pub struct SceneTopologyRequest {
    pub version: u8,
    pub volumes: Vec<WireVolume>,
}

/// The atomic edges of a scene.
#[derive(Clone, Debug)]
pub struct SceneTopologyResponse {
    pub version: u8,
    pub edges: Vec<WireEdge>,
}

/// The validation error of `shapes` named `set`, if any.
pub open spec fn shape_failure(set: ShapeSet, shapes: ShapesView) -> Option<GeometryError> {
    match spec_validate_shapes(set, shapes) {
        Ok(_) => None,
        Err(e) => Some(GeometryError::InvalidShape(e)),
    }
}

/// Checks the protocol version.
fn check_version(version: u8) -> (result: Result<(), GeometryError>)
    ensures
        version == PROTOCOL_VERSION <==> result is Ok,
        version != PROTOCOL_VERSION ==> result == Err::<(), GeometryError>(
            GeometryError::UnsupportedVersion { found: version },
        ),
{
    if version != PROTOCOL_VERSION {
        Err(GeometryError::UnsupportedVersion { found: version })
    } else {
        Ok(())
    }
}

/// Validates shapes, wrapping a failure as a request error.
fn check_shapes(set: ShapeSet, shapes: &WireShapes) -> (result: Result<(), GeometryError>)
    ensures
        result is Ok <==> shapes_ok(shapes_view(*shapes)),
        result matches Err(e) ==> shape_failure(set, shapes_view(*shapes)) == Some(e),
{
    match validate_shapes(set, shapes) {
        Ok(()) => Ok(()),
        Err(e) => Err(GeometryError::InvalidShape(e)),
    }
}

/// Subtracts `mask` from `subject` (even-odd), after checking the protocol version
/// and validating `subject`, then `mask`.
pub fn difference(request: DifferenceRequest) -> (result: Result<GeometryResponse, GeometryError>)
    requires
        request.version == PROTOCOL_VERSION && shapes_ok(shapes_view(request.subject)) && shapes_ok(
            shapes_view(request.mask),
        ) ==> shapes_in_range(shapes_view(request.subject)) && shapes_in_range(
            shapes_view(request.mask),
        ),
    ensures
        request.version != PROTOCOL_VERSION ==> result == Err::<GeometryResponse, GeometryError>(
            GeometryError::UnsupportedVersion { found: request.version },
        ),
        request.version == PROTOCOL_VERSION && !shapes_ok(shapes_view(request.subject)) ==> result
            == Err::<GeometryResponse, GeometryError>(
            shape_failure(ShapeSet::Subject, shapes_view(request.subject))->0,
        ),
        request.version == PROTOCOL_VERSION && shapes_ok(shapes_view(request.subject)) && !shapes_ok(
            shapes_view(request.mask),
        ) ==> result == Err::<GeometryResponse, GeometryError>(
            shape_failure(ShapeSet::Mask, shapes_view(request.mask))->0,
        ),
        request.version == PROTOCOL_VERSION && shapes_ok(shapes_view(request.subject)) && shapes_ok(
            shapes_view(request.mask),
        ) ==> (result matches Ok(response) && response.version == PROTOCOL_VERSION && shapes_view(
            response.shapes,
        ) == boolean_overlay(
            BooleanOp::Difference,
            FillMode::EvenOdd,
            shapes_view(request.subject),
            shapes_view(request.mask),
        ) && shapes_oriented(shapes_view(response.shapes)) && shapes_ok(shapes_view(response.shapes))),
{
    check_version(request.version)?;
    check_shapes(ShapeSet::Subject, &request.subject)?;
    check_shapes(ShapeSet::Mask, &request.mask)?;
    let shapes = overlay_shapes(
        BooleanOp::Difference,
        FillMode::EvenOdd,
        &request.subject,
        &request.mask,
    );
    Ok(GeometryResponse { version: PROTOCOL_VERSION, shapes })
}

/// Cuts the shapes along the horizontal line at height `y`, after checking the
/// protocol version and validating the shapes.
pub fn cross_section(request: CrossSectionRequest) -> (result: Result<
    CrossSectionResponse,
    GeometryError,
>)
    requires
        request.version == PROTOCOL_VERSION && shapes_ok(shapes_view(request.shapes))
            ==> section_in_range(shapes_view(request.shapes), request.y),
    ensures
        request.version != PROTOCOL_VERSION ==> result == Err::<CrossSectionResponse, GeometryError>(
            GeometryError::UnsupportedVersion { found: request.version },
        ),
        request.version == PROTOCOL_VERSION && !shapes_ok(shapes_view(request.shapes)) ==> result
            == Err::<CrossSectionResponse, GeometryError>(
            shape_failure(ShapeSet::CrossSection, shapes_view(request.shapes))->0,
        ),
        request.version == PROTOCOL_VERSION && shapes_ok(shapes_view(request.shapes)) ==> (result matches Ok(response) && response.version == PROTOCOL_VERSION && (!has_point(
            shapes_view(request.shapes),
        ) ==> response.intervals@.len() == 0) && (has_point(shapes_view(request.shapes)) ==> {
            &&& separated(response.intervals@)
            &&& forall|p: int| #[trigger] covers(response.intervals@, p) == covers(
                section_pieces(shapes_view(request.shapes), request.y),
                p,
            )
            &&& response.intervals@ == components(section_pieces(shapes_view(request.shapes), request.y))
        })),
{
    check_version(request.version)?;
    check_shapes(ShapeSet::CrossSection, &request.shapes)?;
    let intervals = horizontal_intervals(&request.shapes, request.y);
    Ok(CrossSectionResponse { version: PROTOCOL_VERSION, intervals })
}

/// Keeps the part of the shapes above (`positive`) or below height `y`, after
/// checking the protocol version and validating the shapes.
pub fn clip_y(request: ClipYRequest) -> (result: Result<GeometryResponse, GeometryError>)
    requires
        request.version == PROTOCOL_VERSION && shapes_ok(shapes_view(request.shapes))
            ==> shapes_in_range(shapes_view(request.shapes)) && shapes_area_fit(
            shapes_view(request.shapes),
        ),
    ensures
        request.version != PROTOCOL_VERSION ==> result == Err::<GeometryResponse, GeometryError>(
            GeometryError::UnsupportedVersion { found: request.version },
        ),
        request.version == PROTOCOL_VERSION && !shapes_ok(shapes_view(request.shapes)) ==> result
            == Err::<GeometryResponse, GeometryError>(
            shape_failure(ShapeSet::ClipY, shapes_view(request.shapes))->0,
        ),
        request.version == PROTOCOL_VERSION && shapes_ok(shapes_view(request.shapes)) ==> (result matches Ok(response) && response.version == PROTOCOL_VERSION && shapes_view(response.shapes)
            == spec_clip_at_y(shapes_view(request.shapes), request.y, request.positive)
            && shapes_oriented(shapes_view(response.shapes)) && shapes_ok(shapes_view(response.shapes))),
{
    check_version(request.version)?;
    check_shapes(ShapeSet::ClipY, &request.shapes)?;
    let shapes = clip_shapes_at_y(request.shapes, request.y, request.positive);
    Ok(GeometryResponse { version: PROTOCOL_VERSION, shapes })
}

/// A volume's top is above its bottom and its shapes are well formed.
pub open spec fn volume_ok(v: VolumeView) -> bool {
    v.top > v.bottom && shapes_ok(v.shapes)
}

/// Every volume is well formed.
pub open spec fn volumes_ok(vols: Seq<VolumeView>) -> bool {
    forall|i: int| 0 <= i < vols.len() ==> volume_ok(#[trigger] vols[i])
}

/// The index of the first malformed volume.
pub open spec fn first_bad_volume(vols: Seq<VolumeView>) -> int {
    choose|i: int|
        0 <= i < vols.len() && !volume_ok(vols[i]) && forall|k: int|
            0 <= k < i ==> volume_ok(#[trigger] vols[k])
}

/// What validating the volumes reports: the first volume whose top is not above its
/// bottom, or whose shapes are malformed.
pub open spec fn volume_failure(vols: Seq<VolumeView>) -> GeometryError {
    let i = first_bad_volume(vols);
    if vols[i].top <= vols[i].bottom {
        GeometryError::InvertedVolume { index: i as usize, top: vols[i].top, bottom: vols[i].bottom }
    } else {
        shape_failure(ShapeSet::Volume(i as usize), vols[i].shapes)->0
    }
}

/// Checks that every volume's top is above its bottom and that its shapes are well
/// formed, reporting the first violation.
pub fn validate_volumes(volumes: &[WireVolume]) -> (result: Result<(), GeometryError>)
    ensures
        result is Ok <==> volumes_ok(volumes_view(volumes@)),
        result matches Err(e) ==> e == volume_failure(volumes_view(volumes@)),
{
    let ghost vv = volumes_view(volumes@);
    let mut i: usize = 0;
    while i < volumes.len()
        invariant
            i <= volumes@.len(),
            vv == volumes_view(volumes@),
            forall|k: int| 0 <= k < i ==> volume_ok(#[trigger] vv[k]),
        decreases volumes@.len() - i,
    {
        let volume = &volumes[i];
        assert(vv[i as int] == volume@);
        if volume.top <= volume.bottom {
            proof {
                assert(!volume_ok(vv[i as int]));
                let b = first_bad_volume(vv);
                assert(b == i);
            }
            return Err(GeometryError::InvertedVolume { index: i, top: volume.top, bottom: volume.bottom });
        }
        match check_shapes(ShapeSet::Volume(i), &volume.shapes) {
            Ok(()) => {},
            Err(e) => {
                proof {
                    assert(!volume_ok(vv[i as int]));
                    let b = first_bad_volume(vv);
                    assert(b == i);
                }
                return Err(e);
            },
        }
        i = i + 1;
    }
    Ok(())
}

/// Finds and classifies the atomic edges of a scene of volumes, after checking the
/// protocol version and validating the volumes.
pub fn scene_topology(request: SceneTopologyRequest) -> (result: Result<
    SceneTopologyResponse,
    GeometryError,
>)
    requires
        request.version == PROTOCOL_VERSION && volumes_ok(volumes_view(request.volumes@))
            ==> scene_in_range(volumes_view(request.volumes@)),
    ensures
        request.version != PROTOCOL_VERSION ==> result == Err::<SceneTopologyResponse, GeometryError>(
            GeometryError::UnsupportedVersion { found: request.version },
        ),
        request.version == PROTOCOL_VERSION && !volumes_ok(volumes_view(request.volumes@)) ==> result
            == Err::<SceneTopologyResponse, GeometryError>(volume_failure(volumes_view(request.volumes@))),
        request.version == PROTOCOL_VERSION && volumes_ok(volumes_view(request.volumes@)) ==> (result matches Ok(response) && response.version == PROTOCOL_VERSION && response.edges@
            == spec_scene_edges(volumes_view(request.volumes@))),
{
    check_version(request.version)?;
    validate_volumes(request.volumes.as_slice())?;
    let edges = scene_edges(request.volumes.as_slice());
    Ok(SceneTopologyResponse { version: PROTOCOL_VERSION, edges })
}

} // verus!
