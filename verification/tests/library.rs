use geometry::arith::{cross_wide, dot_wide, gcd};
use geometry::bounds::{bounds, x_bounds};
use geometry::edges::{atomic_edges, classify_edge, EdgeKind, Face};
use geometry::intervals::{intervals_of_paths, merge_intervals, section_within_range};
use geometry::layers::sorted_layers;
use geometry::lines::{line_coordinates, Segment};
use geometry::requests::{
    clip_y, cross_section, difference, scene_topology, validate_volumes, ClipYRequest,
    CrossSectionRequest, DifferenceRequest, GeometryError, SceneTopologyRequest, PROTOCOL_VERSION,
};
use geometry::scene::{
    add_horizontal_faces, add_vertical_faces, copy_shapes, normalize_shapes, scene_faces,
    scene_within_range, signed_area, WireVolume,
};
use geometry::validate::{validate_shapes, ShapeError, ShapeSet};
use geometry::wire::{shapes_within_range, WireContour, WireShapes};

fn rectangle(left: i64, bottom: i64, right: i64, top: i64) -> WireContour {
    vec![[left, bottom], [right, bottom], [right, top], [left, top]]
}

fn square_face(material: u32) -> Face {
    Face {
        normal: [0, 0, 1],
        material,
        edges: vec![
            Segment { start: [0, 0, 0], end: [4, 0, 0] },
            Segment { start: [4, 0, 0], end: [4, 4, 0] },
            Segment { start: [4, 4, 0], end: [0, 4, 0] },
            Segment { start: [0, 4, 0], end: [0, 0, 0] },
        ],
    }
}

#[test]
fn gcd_of_signed_values_and_the_wrapped_extreme() {
    assert_eq!(gcd(12, -18), 6);
    assert_eq!(gcd(0, 7), 7);
    assert_eq!(gcd(0, 0), 0);
    assert_eq!(gcd(i64::MIN, 0), i64::MIN);
}

#[test]
fn wide_products() {
    assert_eq!(cross_wide([1, 0, 0], [0, 1, 0]), [0, 0, 1]);
    assert_eq!(cross_wide([2, 3, 4], [5, 6, 7]), [-3, 6, -3]);
    assert_eq!(dot_wide([2, 3, 4], [5, 6, 7]), 56);
    assert_eq!(
        cross_wide([i64::MIN, 0, 0], [0, i64::MIN, 0]),
        [0, 0, (i64::MIN as i128) * (i64::MIN as i128)]
    );
}

#[test]
fn keys_a_segment_by_its_primitive_direction() {
    let coordinates = line_coordinates(Segment { start: [0, 0, 0], end: [4, 6, 0] }).unwrap();
    assert_eq!(coordinates.key.direction, [2, 3, 0]);
    assert_eq!(coordinates.key.moment, [0, 0, 0]);
    assert_eq!(coordinates.start.0, 0);
    assert_eq!(coordinates.end.0, 26);

    let offset = line_coordinates(Segment { start: [1, 0, 0], end: [1, 5, 0] }).unwrap();
    assert_eq!(offset.key.direction, [0, 1, 0]);
    assert_eq!(offset.key.moment, [0, 0, 1]);
    assert_eq!((offset.start.0, offset.end.0), (0, 5));
}

#[test]
fn a_reversed_segment_shares_its_line_with_swapped_coordinates() {
    let forward = line_coordinates(Segment { start: [3, -2, 7], end: [9, 4, 1] }).unwrap();
    let backward = line_coordinates(Segment { start: [9, 4, 1], end: [3, -2, 7] }).unwrap();
    assert_eq!(forward.key.direction, backward.key.direction);
    assert_eq!(forward.key.direction, [1, 1, -1]);
    assert_eq!(forward.key.moment, backward.key.moment);
    assert_eq!(forward.start, backward.end);
    assert_eq!(forward.end, backward.start);
}

#[test]
fn a_point_segment_has_no_line() {
    assert!(line_coordinates(Segment { start: [5, 5, 5], end: [5, 5, 5] }).is_none());
}

#[test]
fn merges_touching_and_overlapping_intervals() {
    assert_eq!(merge_intervals(vec![[0, 2], [2, 4], [3, 5], [7, 9]]), vec![[0, 5], [7, 9]]);
    assert_eq!(merge_intervals(vec![[0, 10], [2, 3]]), vec![[0, 10]]);
    assert_eq!(merge_intervals(Vec::new()), Vec::<[i64; 2]>::new());
    assert_eq!(merge_intervals(vec![[5, 6], [0, 2]]), vec![[5, 6]]);
}

#[test]
fn bounds_of_shapes() {
    let shapes = vec![vec![rectangle(0, 0, 10, 6)], vec![rectangle(-3, 2, 1, 9)]];
    assert_eq!(bounds(&shapes), Some((-3, 0, 10, 9)));
    assert_eq!(x_bounds(&shapes), Some((-3, 10)));
    assert_eq!(bounds(&Vec::new()), None);
    assert_eq!(bounds(&vec![vec![Vec::new()]]), None);
}

#[test]
fn reports_the_first_malformed_shape() {
    let shapes: WireShapes = vec![vec![rectangle(0, 0, 1, 1)], Vec::new(), vec![vec![[0, 0]]]];
    assert_eq!(
        validate_shapes(ShapeSet::Subject, &shapes),
        Err(ShapeError { set: ShapeSet::Subject, shape: 1, contour: None })
    );
    let shapes: WireShapes = vec![vec![rectangle(0, 0, 1, 1), vec![[0, 0], [1, 1]]]];
    assert_eq!(
        validate_shapes(ShapeSet::Mask, &shapes),
        Err(ShapeError { set: ShapeSet::Mask, shape: 0, contour: Some(1) })
    );
    assert_eq!(validate_shapes(ShapeSet::ClipY, &vec![vec![rectangle(0, 0, 1, 1)]]), Ok(()));
}

#[test]
fn refuses_other_protocol_versions() {
    let request = DifferenceRequest {
        version: 2,
        subject: vec![vec![rectangle(0, 0, 10, 6)]],
        mask: Vec::new(),
    };
    assert_eq!(difference(request).unwrap_err(), GeometryError::UnsupportedVersion { found: 2 });
    let request = CrossSectionRequest { version: 0, shapes: Vec::new(), y: 0 };
    assert_eq!(cross_section(request).unwrap_err(), GeometryError::UnsupportedVersion { found: 0 });
}

#[test]
fn refuses_malformed_subject_before_mask() {
    let request = DifferenceRequest {
        version: PROTOCOL_VERSION,
        subject: vec![Vec::new()],
        mask: vec![vec![vec![[0, 0]]]],
    };
    assert_eq!(
        difference(request).unwrap_err(),
        GeometryError::InvalidShape(ShapeError { set: ShapeSet::Subject, shape: 0, contour: None })
    );
    let request = DifferenceRequest {
        version: PROTOCOL_VERSION,
        subject: vec![vec![rectangle(0, 0, 1, 1)]],
        mask: vec![vec![vec![[0, 0]]]],
    };
    assert_eq!(
        difference(request).unwrap_err(),
        GeometryError::InvalidShape(ShapeError { set: ShapeSet::Mask, shape: 0, contour: Some(0) })
    );
}

#[test]
fn cross_section_of_valid_and_empty_requests() {
    let request = CrossSectionRequest {
        version: PROTOCOL_VERSION,
        shapes: vec![vec![rectangle(0, 0, 10, 6)], vec![rectangle(12, 0, 20, 6)]],
        y: 3,
    };
    let response = cross_section(request).unwrap();
    assert_eq!(response.version, PROTOCOL_VERSION);
    assert_eq!(response.intervals, vec![[0, 10], [12, 20]]);

    let request = CrossSectionRequest { version: PROTOCOL_VERSION, shapes: Vec::new(), y: 3 };
    assert!(cross_section(request).unwrap().intervals.is_empty());

    let request =
        CrossSectionRequest { version: PROTOCOL_VERSION, shapes: vec![Vec::new()], y: 3 };
    assert_eq!(
        cross_section(request).unwrap_err(),
        GeometryError::InvalidShape(ShapeError {
            set: ShapeSet::CrossSection,
            shape: 0,
            contour: None
        })
    );
}

#[test]
fn clip_outside_the_vertical_extent_keeps_all_or_nothing() {
    let shapes = vec![vec![rectangle(0, 0, 10, 6)]];
    let keep = clip_y(ClipYRequest { version: PROTOCOL_VERSION, shapes: shapes.clone(), y: 0, positive: true })
        .unwrap();
    assert_eq!(keep.shapes, shapes);
    let drop = clip_y(ClipYRequest { version: PROTOCOL_VERSION, shapes: shapes.clone(), y: 6, positive: true })
        .unwrap();
    assert!(drop.shapes.is_empty());
    let keep_below =
        clip_y(ClipYRequest { version: PROTOCOL_VERSION, shapes: shapes.clone(), y: 9, positive: false })
            .unwrap();
    assert_eq!(keep_below.shapes, shapes);
    let cut = clip_y(ClipYRequest { version: PROTOCOL_VERSION, shapes: shapes.clone(), y: 2, positive: true })
        .unwrap();
    assert_ne!(cut.shapes, shapes);
    assert_eq!(bounds(&cut.shapes), Some((0, 2, 10, 6)));
    assert_eq!(
        clip_y(ClipYRequest { version: 3, shapes, y: 2, positive: true }).unwrap_err(),
        GeometryError::UnsupportedVersion { found: 3 }
    );
}

#[test]
fn clip_outside_the_vertical_extent_orients_the_kept_shapes() {
    let clockwise = vec![vec![vec![[0, 0], [0, 1], [1, 1], [1, 0]]]];
    assert_eq!(signed_area(&clockwise[0][0]), -2);
    let keep = clip_y(ClipYRequest { version: PROTOCOL_VERSION, shapes: clockwise.clone(), y: -5, positive: true })
        .unwrap();
    assert_eq!(keep.shapes, vec![vec![vec![[1, 0], [1, 1], [0, 1], [0, 0]]]]);
    assert_eq!(signed_area(&keep.shapes[0][0]), 2);
    let keep_below =
        clip_y(ClipYRequest { version: PROTOCOL_VERSION, shapes: clockwise, y: 5, positive: false }).unwrap();
    assert_eq!(signed_area(&keep_below.shapes[0][0]), 2);
}

#[test]
fn reports_inverted_and_malformed_volumes_in_order() {
    let volumes = vec![
        WireVolume { shapes: vec![vec![rectangle(0, 0, 1, 1)]], bottom: 0, top: 1, material: 0 },
        WireVolume { shapes: vec![Vec::new()], bottom: 2, top: 2, material: 0 },
    ];
    assert_eq!(
        validate_volumes(&volumes),
        Err(GeometryError::InvertedVolume { index: 1, top: 2, bottom: 2 })
    );
    let volumes = vec![
        WireVolume { shapes: vec![vec![rectangle(0, 0, 1, 1)]], bottom: 0, top: 1, material: 0 },
        WireVolume { shapes: vec![vec![vec![[0, 0], [1, 1]]]], bottom: 1, top: 2, material: 0 },
    ];
    let error = GeometryError::InvalidShape(ShapeError {
        set: ShapeSet::Volume(1),
        shape: 0,
        contour: Some(0),
    });
    assert_eq!(validate_volumes(&volumes), Err(error));
    assert_eq!(
        scene_topology(SceneTopologyRequest { version: PROTOCOL_VERSION, volumes }).unwrap_err(),
        error
    );
}

#[test]
fn shoelace_area_and_orientation() {
    let counter_clockwise = rectangle(0, 0, 10, 6);
    let clockwise: WireContour = counter_clockwise.iter().rev().copied().collect();
    assert_eq!(signed_area(&counter_clockwise), 120);
    assert_eq!(signed_area(&clockwise), -120);

    let shapes = vec![vec![clockwise.clone(), rectangle(2, 2, 4, 4)]];
    let normalized = normalize_shapes(&shapes);
    assert_eq!(normalized[0][0], counter_clockwise);
    assert!(signed_area(&normalized[0][0]) >= 0);
    assert!(signed_area(&normalized[0][1]) <= 0);
    assert_eq!(signed_area(&normalized[0][1]), -8);
    assert_eq!(copy_shapes(&normalized), normalized);
}

#[test]
fn classifies_by_the_covering_faces() {
    let faces = vec![square_face(0), square_face(0), square_face(1), Face { normal: [1, 0, 0], ..square_face(0) }];
    assert_eq!(classify_edge(&faces, &vec![0]), EdgeKind::Boundary);
    assert_eq!(classify_edge(&faces, &vec![0, 1]), EdgeKind::Smooth);
    assert_eq!(classify_edge(&faces, &vec![0, 2]), EdgeKind::Material);
    assert_eq!(classify_edge(&faces, &vec![0, 2, 3]), EdgeKind::Crease);
}

#[test]
fn a_lone_face_has_only_boundary_edges() {
    let edges = atomic_edges(&[square_face(0)]);
    assert_eq!(edges.len(), 4);
    assert!(edges.iter().all(|edge| edge.kind == EdgeKind::Boundary && edge.faces == 1));
}

#[test]
fn coinciding_reversed_segments_make_one_edge() {
    let first = Face {
        normal: [0, 0, 1],
        material: 0,
        edges: vec![Segment { start: [0, 0, 0], end: [5, 0, 0] }],
    };
    let second = Face {
        normal: [0, -1, 0],
        material: 0,
        edges: vec![Segment { start: [5, 0, 0], end: [0, 0, 0] }],
    };
    let edges = atomic_edges(&[first, second]);
    assert_eq!(edges.len(), 1);
    assert_eq!(edges[0].faces, 2);
    assert_eq!(edges[0].kind, EdgeKind::Crease);
}

#[test]
fn stacked_boxes_hide_their_shared_faces() {
    let footprint = vec![vec![rectangle(0, 0, 10, 10)]];
    let volumes = vec![
        WireVolume { shapes: footprint.clone(), bottom: 0, top: 1, material: 0 },
        WireVolume { shapes: footprint, bottom: 1, top: 2, material: 1 },
    ];
    let faces = scene_faces(&volumes);
    assert_eq!(faces.len(), 10);
    assert_eq!(faces.iter().filter(|face| face.normal == [0, 0, 1]).count(), 1);
    assert_eq!(faces.iter().filter(|face| face.normal == [0, 0, -1]).count(), 1);

    let response = scene_topology(SceneTopologyRequest { version: PROTOCOL_VERSION, volumes }).unwrap();
    let interface: Vec<_> = response
        .edges
        .iter()
        .filter(|edge| edge.start[2] == 1 && edge.end[2] == 1)
        .collect();
    assert_eq!(interface.len(), 4);
    assert!(interface.iter().all(|edge| edge.kind == EdgeKind::Material && edge.faces == 2));
    assert!(response.edges.iter().all(|edge| edge.faces >= 1 && ((edge.kind == EdgeKind::Boundary) == (edge.faces == 1))));
}

#[test]
fn lists_layers_once_in_order() {
    assert_eq!(sorted_layers(&vec![[20, 0], [1, 0], [20, 0], [1, 2]]), vec![[1, 0], [1, 2], [20, 0]]);
    assert_eq!(sorted_layers(&Vec::new()), Vec::<[i16; 2]>::new());
}

#[test]
fn range_checks() {
    let shapes = vec![vec![rectangle(0, 0, 10, 6)]];
    assert!(shapes_within_range(&shapes));
    assert!(!shapes_within_range(&vec![vec![rectangle(0, 0, i64::MAX, 6)]]));
    assert!(section_within_range(&shapes, 3));
    assert!(!section_within_range(&vec![vec![rectangle(-(1 << 62), 0, 10, 6)]], 3));
    let volume = WireVolume { shapes, bottom: i64::MIN, top: 1, material: 0 };
    assert!(!scene_within_range(&[volume.clone()]));
    assert!(scene_within_range(&[WireVolume { bottom: 0, ..volume }]));
}

#[test]
fn shoelace_area_ignores_start_point_and_position() {
    let contour: WireContour = vec![[0, 0], [4, 0], [4, 3], [1, 5]];
    let area = signed_area(&contour);
    assert_eq!(area, 29);
    let rotated: WireContour = vec![[4, 3], [1, 5], [0, 0], [4, 0]];
    assert_eq!(signed_area(&rotated), area);
    let shifted: WireContour = contour.iter().map(|p| [p[0] - 7, p[1] + 11]).collect();
    assert_eq!(signed_area(&shifted), area);
}

#[test]
fn orienting_twice_changes_nothing() {
    let shapes: WireShapes = vec![vec![
        vec![[0, 0], [0, 6], [6, 6], [6, 0]],
        vec![[1, 1], [2, 1], [2, 2], [1, 2]],
    ]];
    let once = normalize_shapes(&shapes);
    assert_ne!(once, shapes);
    assert_eq!(normalize_shapes(&once), once);
}

#[test]
fn equal_line_keys_mean_one_line() {
    let key = |start: [i64; 3], end: [i64; 3]| line_coordinates(Segment { start, end }).unwrap().key;
    let a = key([0, 0, 0], [2, 4, 6]);
    let b = key([5, 10, 15], [-3, -6, -9]);
    assert_eq!((a.direction, a.moment), (b.direction, b.moment));
    let parallel = key([1, 0, 0], [3, 4, 6]);
    assert_eq!(parallel.direction, a.direction);
    assert_ne!(parallel.moment, a.moment);
    let crossing = key([0, 0, 0], [2, 4, 7]);
    assert_ne!(crossing.direction, a.direction);
}

#[test]
fn intervals_of_clipped_paths() {
    let paths = vec![
        vec![[4, 5], [8, 5]],
        vec![[3, 5], [1, 5]],
        vec![[10, 5], [10, 5]],
        vec![[12, 5], [15, 5]],
    ];
    assert_eq!(intervals_of_paths(&paths), vec![[1, 3], [4, 8], [12, 15]]);
    let touching = vec![vec![[4, 5], [8, 5]], vec![[0, 5], [4, 5]]];
    assert_eq!(intervals_of_paths(&touching), vec![[0, 8]]);
    assert!(intervals_of_paths(&Vec::new()).is_empty());
}

#[test]
fn faces_are_appended_after_any_earlier_faces() {
    let far = Face {
        normal: [0, 0, 1],
        material: 9,
        edges: vec![Segment { start: [i64::MIN, 0, 0], end: [i64::MAX, 0, 0] }],
    };
    let mut faces = vec![far];
    add_horizontal_faces(&mut faces, &vec![vec![rectangle(0, 0, 10, 6)]], 5, [0, 0, -1], 2);
    assert_eq!(faces.len(), 2);
    assert_eq!(faces[0].material, 9);
    assert_eq!(faces[1].material, 2);
    assert_eq!(faces[1].normal, [0, 0, -1]);
    assert_eq!(faces[1].edges.len(), 4);
    assert_eq!((faces[1].edges[3].start, faces[1].edges[3].end), ([0, 6, 5], [0, 0, 5]));
    let tall = WireVolume { shapes: vec![vec![rectangle(0, 0, 10, 6)]], bottom: i64::MIN, top: i64::MAX, material: 3 };
    add_vertical_faces(&mut faces, &tall);
    assert_eq!(faces.len(), 6);
    assert_eq!(faces[2].normal, [0, -10, 0]);
    assert_eq!((faces[2].edges[1].start, faces[2].edges[1].end), ([10, 0, i64::MIN], [10, 0, i64::MAX]));
}

#[test]
fn line_coordinates_grow_in_the_key_direction() {
    let forward = line_coordinates(Segment { start: [0, 0, 0], end: [2, 4, 6] }).unwrap();
    assert_eq!(forward.key.direction, [1, 2, 3]);
    assert_eq!((forward.start.0, forward.end.0), (0, 28));
    let backward = line_coordinates(Segment { start: [2, 4, 6], end: [0, 0, 0] }).unwrap();
    assert_eq!((backward.start.0, backward.end.0), (28, 0));
}
