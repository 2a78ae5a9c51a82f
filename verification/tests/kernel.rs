use geometry::clip::clip_shapes_at_y;
use geometry::edges::{atomic_edges, EdgeKind, Face, WireEdge};
use geometry::intervals::horizontal_intervals;
use geometry::kernel_version;
use geometry::lines::Segment;
use geometry::requests::{difference, DifferenceRequest, PROTOCOL_VERSION};
use geometry::scene::{difference_shapes, scene_edges, WireVolume};
use geometry::wire::{WireContour, WireShapes};

fn rectangle(left: i64, bottom: i64, right: i64, top: i64) -> WireContour {
    vec![[left, bottom], [right, bottom], [right, top], [left, top]]
}

fn twice_area(shapes: &WireShapes) -> i128 {
    shapes
        .iter()
        .flatten()
        .map(|contour| {
            contour
                .iter()
                .zip(contour.iter().cycle().skip(1))
                .map(|([x0, y0], [x1, y1])| {
                    i128::from(*x0) * i128::from(*y1) - i128::from(*y0) * i128::from(*x1)
                })
                .sum::<i128>()
        })
        .sum()
}

fn masked_rectangle() -> WireShapes {
    let subject = vec![vec![rectangle(0, 0, 10, 6)]];
    let mask = vec![vec![rectangle(2, 1, 4, 3)], vec![rectangle(6, -1, 7, 7)]];
    difference_shapes(&subject, &mask)
}

fn edge_kind(edges: &[WireEdge], start: [i64; 3], end: [i64; 3]) -> Option<EdgeKind> {
    edges
        .iter()
        .find(|edge| (edge.start == start && edge.end == end) || (edge.start == end && edge.end == start))
        .map(|edge| edge.kind)
}

#[test]
fn reports_package_version() {
    assert_eq!(kernel_version(), b"0.1.0");
}

#[test]
fn subtracts_disconnected_and_enclosed_mask_regions() {
    let request = DifferenceRequest {
        version: PROTOCOL_VERSION,
        subject: vec![vec![rectangle(0, 0, 10, 6)]],
        mask: vec![vec![rectangle(2, 1, 4, 3)], vec![rectangle(6, -1, 7, 7)]],
    };

    let response = difference(request).unwrap();

    assert_eq!(response.version, PROTOCOL_VERSION);
    assert_eq!(response.shapes.len(), 2);
    assert_eq!(response.shapes.iter().map(|shape| shape.len()).sum::<usize>(), 3);
    assert_eq!(twice_area(&response.shapes), 100);
}

#[test]
fn slices_a_masked_polygon_into_intervals() {
    let shapes = masked_rectangle();

    assert_eq!(horizontal_intervals(&shapes, 2), vec![[0, 2], [4, 6], [7, 10]]);
    assert_eq!(horizontal_intervals(&shapes, 4), vec![[0, 6], [7, 10]]);
}

#[test]
fn clips_a_masked_polygon_to_either_side_of_a_cut() {
    let shapes = masked_rectangle();

    let positive = clip_shapes_at_y(shapes.clone(), 2, true);
    assert_eq!(positive.len(), 2);
    assert_eq!(positive.iter().map(Vec::len).sum::<usize>(), 2);
    assert_eq!(twice_area(&positive), 68);

    let negative = clip_shapes_at_y(shapes, 2, false);
    assert_eq!(twice_area(&negative), 32);
}

#[test]
fn splits_overlapping_collinear_edges_before_classification() {
    let faces = vec![
        Face {
            normal: [0, -1, 0],
            material: 0,
            edges: vec![Segment { start: [0, 0, 0], end: [10, 0, 0] }],
        },
        Face {
            normal: [0, -1, 0],
            material: 1,
            edges: vec![Segment { start: [0, 0, 0], end: [6, 0, 0] }],
        },
        Face {
            normal: [0, 0, 1],
            material: 0,
            edges: vec![Segment { start: [6, 0, 0], end: [7, 0, 0] }],
        },
        Face {
            normal: [0, -1, 0],
            material: 1,
            edges: vec![Segment { start: [7, 0, 0], end: [10, 0, 0] }],
        },
    ];

    let edges = atomic_edges(&faces);
    assert_eq!(edges.len(), 3);
    assert_eq!(edges[0].kind, EdgeKind::Material);
    assert_eq!(edges[1].kind, EdgeKind::Crease);
    assert_eq!(edges[2].kind, EdgeKind::Material);
    assert!(edges.iter().all(|edge| edge.faces == 2));
}

#[test]
fn classifies_outer_and_inner_vertical_corners_as_creases() {
    let subject = vec![vec![rectangle(0, 0, 10, 6)]];
    let mask = vec![vec![rectangle(2, 1, 4, 3)], vec![rectangle(6, -1, 7, 7)]];
    let result = difference_shapes(&subject, &mask);
    let volumes = vec![
        WireVolume { shapes: subject, bottom: -1500, top: 0, material: 0 },
        WireVolume { shapes: result, bottom: 0, top: 1500, material: 1 },
    ];

    let edges = scene_edges(&volumes);
    assert_eq!(edge_kind(&edges, [0, 0, -1500], [0, 0, 0]), Some(EdgeKind::Crease));
    assert_eq!(edge_kind(&edges, [2, 1, 0], [2, 1, 1500]), Some(EdgeKind::Crease));
    assert!(edges.iter().all(|edge| edge.kind != EdgeKind::Boundary));
}
