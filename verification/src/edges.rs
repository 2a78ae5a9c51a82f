//! Atomic edges of a set of planar faces.
//!
//! Every face boundary segment is keyed by its carrying line. On each line the
//! endpoints of all segments become stations; between two consecutive stations of a
//! line lies one atomic edge, shared by exactly the faces whose segments cover it.
//! Each atomic edge is classified by those faces: one face makes a boundary, faces
//! that meet at an angle make a crease, coplanar faces of different materials make a
//! material edge, and coplanar faces of one material make a smooth edge.
use crate::arith::{cross_at, cross_wide, Point3};
use crate::lines::{line_coordinates, segment_fits, spec_line_coordinates, LineKey, Segment};
use vstd::prelude::*;

verus! {

/// How the faces that meet along an edge relate to each other.
#[derive(Clone, Copy, Debug, PartialEq, Eq, Structural)]
pub enum EdgeKind {
    Boundary,
    Crease,
    Material,
    Smooth,
}

/// A planar face: its outward normal, its material, and its boundary segments.
#[derive(Clone, Debug)]
pub struct Face {
    pub normal: Point3,
    pub material: u32,
    pub edges: Vec<Segment>,
}

/// The mathematical view of a face.
pub struct FaceView {
    pub normal: Point3,
    pub material: u32,
    pub edges: Seq<Segment>,
}

impl View for Face {
    type V = FaceView;

    open spec fn view(&self) -> FaceView {
        FaceView { normal: self.normal, material: self.material, edges: self.edges@ }
    }
}

/// The views of a sequence of faces.
pub open spec fn faces_view(faces: Seq<Face>) -> Seq<FaceView> {
    faces.map_values(|f: Face| f@)
}

/// An atomic edge: a piece of a line between two consecutive stations, with its
/// classification and the number of faces that cover it.
#[derive(Clone, Copy, Debug)]
pub struct WireEdge {
    pub start: Point3,
    pub end: Point3,
    pub kind: EdgeKind,
    pub faces: u32,
}

/// A position on a keyed line.
pub type Station = (LineKey, i128);

/// A station together with the endpoint recorded there.
pub type Mark = (LineKey, i128, Point3);

/// The interval `[low, high]` of a keyed line covered by a segment of a face.
pub type Span = (LineKey, i128, i128, usize);

/// The segments of one face, each tagged with the face's index.
pub open spec fn face_segments(f: FaceView, index: int) -> Seq<(Segment, usize)> {
    Seq::new(f.edges.len(), |j: int| (f.edges[j], index as usize))
}

/// All segments of all faces, in face order, each tagged with its face's index.
pub open spec fn scene_segments(faces: Seq<FaceView>) -> Seq<(Segment, usize)>
    decreases faces.len(),
{
    if faces.len() == 0 {
        seq![]
    } else {
        scene_segments(faces.drop_last()) + face_segments(faces.last(), faces.len() - 1)
    }
}

/// Every boundary segment of every face can be keyed without overflow.
pub open spec fn faces_fit(faces: Seq<FaceView>) -> bool {
    forall|i: int, j: int|
        0 <= i < faces.len() && 0 <= j < faces[i].edges.len() ==> segment_fits(
            #[trigger] faces[i].edges[j],
        )
}

/// The two marks that a segment records: its start and its end on its line.
pub open spec fn segment_marks(s: Segment) -> Seq<Mark> {
    match spec_line_coordinates(s) {
        None => seq![],
        Some(c) => seq![(c.key, c.start.0, c.start.1), (c.key, c.end.0, c.end.1)],
    }
}

/// All marks of a sequence of segments, in order.
pub open spec fn marks_of(segs: Seq<(Segment, usize)>) -> Seq<Mark>
    decreases segs.len(),
{
    if segs.len() == 0 {
        seq![]
    } else {
        marks_of(segs.drop_last()) + segment_marks(segs.last().0)
    }
}

/// The span that a segment of face `face` covers on its line.
pub open spec fn segment_spans(s: Segment, face: usize) -> Seq<Span> {
    match spec_line_coordinates(s) {
        None => seq![],
        Some(c) => seq![
            (
                c.key,
                if c.start.0 <= c.end.0 {
                    c.start.0
                } else {
                    c.end.0
                },
                if c.start.0 <= c.end.0 {
                    c.end.0
                } else {
                    c.start.0
                },
                face,
            ),
        ],
    }
}

/// All spans of a sequence of tagged segments, in order.
pub open spec fn spans_of(segs: Seq<(Segment, usize)>) -> Seq<Span>
    decreases segs.len(),
{
    if segs.len() == 0 {
        seq![]
    } else {
        spans_of(segs.drop_last()) + segment_spans(segs.last().0, segs.last().1)
    }
}

/// Some mark lies at station `st`.
pub open spec fn is_station(marks: Seq<Mark>, st: Station) -> bool {
    exists|i: int| 0 <= i < marks.len() && (#[trigger] marks[i]).0 == st.0 && marks[i].1 == st.1
}

/// The set of stations of a sequence of marks.
pub open spec fn station_set(marks: Seq<Mark>) -> Set<Station> {
    Set::new(|st: Station| is_station(marks, st))
}

/// The point of the last mark recorded at station `(key, t)`.
pub open spec fn last_point(marks: Seq<Mark>, key: LineKey, t: i128) -> Point3
    decreases marks.len(),
{
    if marks.len() == 0 {
        [0, 0, 0]
    } else if marks.last().0 == key && marks.last().1 == t {
        marks.last().2
    } else {
        last_point(marks.drop_last(), key, t)
    }
}

/// Lexicographic order on line keys: direction first, then moment.
pub open spec fn key_lt(a: LineKey, b: LineKey) -> bool {
    if a.direction[0] != b.direction[0] {
        a.direction[0] < b.direction[0]
    } else if a.direction[1] != b.direction[1] {
        a.direction[1] < b.direction[1]
    } else if a.direction[2] != b.direction[2] {
        a.direction[2] < b.direction[2]
    } else if a.moment[0] != b.moment[0] {
        a.moment[0] < b.moment[0]
    } else if a.moment[1] != b.moment[1] {
        a.moment[1] < b.moment[1]
    } else {
        a.moment[2] < b.moment[2]
    }
}

/// Lexicographic order on stations: line key first, then coordinate.
pub open spec fn station_lt(a: Station, b: Station) -> bool {
    key_lt(a.0, b.0) || (a.0 == b.0 && a.1 < b.1)
}

/// The stations of `q` increase strictly.
pub open spec fn stations_increasing(q: Seq<Station>) -> bool {
    forall|i: int, j: int| 0 <= i < j < q.len() ==> station_lt(#[trigger] q[i], #[trigger] q[j])
}

/// The stations of a sequence of marks, in increasing order.
pub open spec fn sorted_stations(marks: Seq<Mark>) -> Seq<Station> {
    choose|q: Seq<Station>| stations_increasing(q) && q.to_set() == station_set(marks)
}

/// The faces whose spans on line `key` cover the interval `[low, high]`.
pub open spec fn covering_faces(spans: Seq<Span>, key: LineKey, low: i128, high: i128) -> Set<
    usize,
> {
    Set::new(
        |f: usize|
            exists|j: int|
                0 <= j < spans.len() && (#[trigger] spans[j]).0 == key && spans[j].1 <= low
                    && high <= spans[j].2 && spans[j].3 == f,
    )
}

/// Two normals are parallel (their cross product vanishes).
pub open spec fn normals_parallel(a: Point3, b: Point3) -> bool {
    cross_at(a, b, 0) == 0 && cross_at(a, b, 1) == 0 && cross_at(a, b, 2) == 0
}

/// The classification of an edge covered by the faces `inc`.
pub open spec fn spec_classify(faces: Seq<FaceView>, inc: Set<usize>) -> EdgeKind {
    if inc.len() == 1 {
        EdgeKind::Boundary
    } else if exists|f: usize, g: usize|
        inc.contains(f) && inc.contains(g) && !normals_parallel(
            faces[f as int].normal,
            faces[g as int].normal,
        ) {
        EdgeKind::Crease
    } else if exists|f: usize, g: usize|
        inc.contains(f) && inc.contains(g) && faces[f as int].material
            != faces[g as int].material {
        EdgeKind::Material
    } else {
        EdgeKind::Smooth
    }
}

/// The atomic edge between stations `q[i]` and `q[i + 1]`, if they share a line
/// and some face covers the interval between them.
pub open spec fn edge_piece(faces: Seq<FaceView>, q: Seq<Station>, i: int) -> Seq<WireEdge> {
    let segs = scene_segments(faces);
    let marks = marks_of(segs);
    let a = q[i];
    let b = q[i + 1];
    let inc = covering_faces(spans_of(segs), a.0, a.1, b.1);
    if a.0 == b.0 && inc.len() > 0 {
        seq![
            WireEdge {
                start: last_point(marks, a.0, a.1),
                end: last_point(marks, b.0, b.1),
                kind: spec_classify(faces, inc),
                faces: inc.len() as u32,
            },
        ]
    } else {
        seq![]
    }
}

/// The atomic edges of `faces`, ordered by line key and then by coordinate.
pub open spec fn spec_atomic_edges(faces: Seq<FaceView>) -> Seq<WireEdge> {
    let q = sorted_stations(marks_of(scene_segments(faces)));
    Seq::new(
        if q.len() == 0 {
            0nat
        } else {
            (q.len() - 1) as nat
        },
        |i: int| edge_piece(faces, q, i),
    ).flatten()
}

/// Two line keys are equal.
pub fn same_key(a: &LineKey, b: &LineKey) -> (equal: bool)
    ensures
        equal == (*a == *b),
{
    let equal = a.direction[0] == b.direction[0] && a.direction[1] == b.direction[1]
        && a.direction[2] == b.direction[2] && a.moment[0] == b.moment[0] && a.moment[1]
        == b.moment[1] && a.moment[2] == b.moment[2];
    proof {
        if equal {
            assert(a.direction =~= b.direction);
            assert(a.moment =~= b.moment);
        }
    }
    equal
}

/// `a` precedes `b` in the lexicographic order of line keys.
pub fn key_less(a: &LineKey, b: &LineKey) -> (less: bool)
    ensures
        less == key_lt(*a, *b),
{
    if a.direction[0] != b.direction[0] {
        a.direction[0] < b.direction[0]
    } else if a.direction[1] != b.direction[1] {
        a.direction[1] < b.direction[1]
    } else if a.direction[2] != b.direction[2] {
        a.direction[2] < b.direction[2]
    } else if a.moment[0] != b.moment[0] {
        a.moment[0] < b.moment[0]
    } else if a.moment[1] != b.moment[1] {
        a.moment[1] < b.moment[1]
    } else {
        a.moment[2] < b.moment[2]
    }
}

/// Station `(ak, at)` precedes station `(bk, bt)`.
fn station_less(ak: &LineKey, at: i128, bk: &LineKey, bt: i128) -> (less: bool)
    ensures
        less == station_lt((*ak, at), (*bk, bt)),
{
    key_less(ak, bk) || (same_key(ak, bk) && at < bt)
}

/// Lists the segments of all faces in order, each tagged with its face's index.
fn collect_segments(faces: &[Face]) -> (segs: Vec<(Segment, usize)>)
    ensures
        segs@ == scene_segments(faces_view(faces@)),
{
    let ghost fv = faces_view(faces@);
    let mut segs: Vec<(Segment, usize)> = Vec::new();
    let mut i: usize = 0;
    while i < faces.len()
        invariant
            i <= faces@.len(),
            fv == faces_view(faces@),
            segs@ == scene_segments(fv.take(i as int)),
        decreases faces@.len() - i,
    {
        let face = &faces[i];
        let mut j: usize = 0;
        while j < face.edges.len()
            invariant
                i < faces@.len(),
                *face == faces@[i as int],
                fv == faces_view(faces@),
                j <= face.edges@.len(),
                segs@ == scene_segments(fv.take(i as int)) + Seq::new(
                    j as nat,
                    |k: int| (face.edges@[k], i),
                ),
            decreases face.edges@.len() - j,
        {
            segs.push((face.edges[j], i));
            proof {
                assert(Seq::new((j + 1) as nat, |k: int| (face.edges@[k], i)) =~= Seq::new(
                    j as nat,
                    |k: int| (face.edges@[k], i),
                ).push((face.edges@[j as int], i)));
            }
            j = j + 1;
        }
        proof {
            let next = fv.take(i + 1);
            assert(next.drop_last() =~= fv.take(i as int));
            assert(next.last() == fv[i as int]);
            assert(fv[i as int] == faces@[i as int]@);
            assert(face_segments(fv[i as int], i as int) =~= Seq::new(
                j as nat,
                |k: int| (face.edges@[k], i),
            ));
        }
        i = i + 1;
    }
    proof {
        assert(fv.take(fv.len() as int) =~= fv);
    }
    segs
}

/// `table` holds one entry per station of `marks`, each with the last point
/// recorded at that station.
pub open spec fn table_matches(table: Seq<Mark>, marks: Seq<Mark>) -> bool {
    &&& forall|k: int|
        0 <= k < table.len() ==> is_station(marks, ((#[trigger] table[k]).0, table[k].1))
            && table[k].2 == last_point(marks, table[k].0, table[k].1)
    &&& forall|st: Station|
        is_station(marks, st) ==> exists|k: int|
            0 <= k < table.len() && (#[trigger] table[k]).0 == st.0 && table[k].1 == st.1
    &&& forall|k1: int, k2: int|
        0 <= k1 < k2 < table.len() ==> !((#[trigger] table[k1]).0 == (#[trigger] table[k2]).0
            && table[k1].1 == table[k2].1)
}

proof fn lemma_push_mark(marks: Seq<Mark>, m: Mark)
    ensures
        forall|key: LineKey, t: i128|
            #[trigger] last_point(marks.push(m), key, t) == (if m.0 == key && m.1 == t {
                m.2
            } else {
                last_point(marks, key, t)
            }),
        forall|st: Station|
            #[trigger] is_station(marks.push(m), st) == (is_station(marks, st) || (m.0 == st.0
                && m.1 == st.1)),
{
    assert(marks.push(m).drop_last() =~= marks);
    assert forall|st: Station|
        #[trigger] is_station(marks.push(m), st) == (is_station(marks, st) || (m.0 == st.0 && m.1
            == st.1)) by {
        let ms = marks.push(m);
        if is_station(marks, st) {
            let i = choose|i: int|
                0 <= i < marks.len() && (#[trigger] marks[i]).0 == st.0 && marks[i].1 == st.1;
            assert(ms[i] == marks[i]);
        }
        if m.0 == st.0 && m.1 == st.1 {
            assert(ms[marks.len() as int] == m);
        }
        if is_station(ms, st) {
            let i = choose|i: int|
                0 <= i < ms.len() && (#[trigger] ms[i]).0 == st.0 && ms[i].1 == st.1;
            if i < marks.len() {
                assert(marks[i] == ms[i]);
            }
        }
    }
}

/// Records mark `m`: updates the point of its station, or adds the station.
fn record(table: &mut Vec<Mark>, m: Mark, Ghost(marks): Ghost<Seq<Mark>>)
    requires
        table_matches(old(table)@, marks),
    ensures
        table_matches(final(table)@, marks.push(m)),
{
    proof {
        lemma_push_mark(marks, m);
    }
    let mut found: usize = table.len();
    let mut k: usize = 0;
    while k < table.len()
        invariant
            k <= table@.len(),
            found == table@.len() || (found < k && table@[found as int].0 == m.0 && table@[found as int].1 == m.1),
            found == table@.len() ==> forall|j: int|
                0 <= j < k ==> !((#[trigger] table@[j]).0 == m.0 && table@[j].1 == m.1),
        decreases table@.len() - k,
    {
        if found == table.len() && same_key(&table[k].0, &m.0) && table[k].1 == m.1 {
            found = k;
        }
        k = k + 1;
    }
    let ghost before = table@;
    if found < table.len() {
        table[found] = m;
        proof {
            let after = table@;
            assert(after == before.update(found as int, m));
            assert forall|st: Station| is_station(marks.push(m), st) implies exists|j: int|
                0 <= j < after.len() && (#[trigger] after[j]).0 == st.0 && after[j].1 == st.1 by {
                if is_station(marks, st) {
                    let j = choose|j: int|
                        0 <= j < before.len() && (#[trigger] before[j]).0 == st.0 && before[j].1
                            == st.1;
                    if j == found {
                        assert(after[j].0 == st.0 && after[j].1 == st.1);
                    } else {
                        assert(after[j] == before[j]);
                    }
                } else {
                    assert(after[found as int] == m);
                }
            }
            assert forall|k1: int, k2: int|
                0 <= k1 < k2 < after.len() implies !((#[trigger] after[k1]).0 == (
                #[trigger] after[k2]).0 && after[k1].1 == after[k2].1) by {
                assert(before[k1].0 == after[k1].0 && before[k1].1 == after[k1].1);
                assert(before[k2].0 == after[k2].0 && before[k2].1 == after[k2].1);
            }
            assert forall|j: int| 0 <= j < after.len() implies is_station(
                marks.push(m),
                ((#[trigger] after[j]).0, after[j].1),
            ) && after[j].2 == last_point(marks.push(m), after[j].0, after[j].1) by {
                if j != found {
                    assert(after[j] == before[j]);
                    assert(!(before[j].0 == m.0 && before[j].1 == m.1)) by {
                        if j < found {
                            assert(!((before[j]).0 == before[found as int].0 && before[j].1
                                == before[found as int].1));
                        } else {
                            assert(!((before[found as int]).0 == before[j].0 && before[found as int].1
                                == before[j].1));
                        }
                    }
                }
            }
        }
    } else {
        table.push(m);
        proof {
            let after = table@;
            assert(after == before.push(m));
            assert forall|st: Station| is_station(marks.push(m), st) implies exists|j: int|
                0 <= j < after.len() && (#[trigger] after[j]).0 == st.0 && after[j].1 == st.1 by {
                if is_station(marks, st) {
                    let j = choose|j: int|
                        0 <= j < before.len() && (#[trigger] before[j]).0 == st.0 && before[j].1
                            == st.1;
                    assert(after[j] == before[j]);
                } else {
                    assert(after[before.len() as int] == m);
                }
            }
            assert forall|j: int| 0 <= j < after.len() implies is_station(
                marks.push(m),
                ((#[trigger] after[j]).0, after[j].1),
            ) && after[j].2 == last_point(marks.push(m), after[j].0, after[j].1) by {
                if j < before.len() {
                    assert(after[j] == before[j]);
                }
            }
            assert forall|k1: int, k2: int|
                0 <= k1 < k2 < after.len() implies !((#[trigger] after[k1]).0 == (
                #[trigger] after[k2]).0 && after[k1].1 == after[k2].1) by {
                if k2 == before.len() {
                    assert(after[k1] == before[k1]);
                } else {
                    assert(after[k1] == before[k1]);
                    assert(after[k2] == before[k2]);
                }
            }
        }
    }
}

/// Records the marks of every segment in a station table and lists every span.
fn collect_marks(segs: &Vec<(Segment, usize)>) -> (result: (Vec<Mark>, Vec<Span>))
    requires
        forall|k: int| 0 <= k < segs@.len() ==> segment_fits(#[trigger] segs@[k].0),
    ensures
        table_matches(result.0@, marks_of(segs@)),
        result.1@ == spans_of(segs@),
{
    let mut table: Vec<Mark> = Vec::new();
    let mut spans: Vec<Span> = Vec::new();
    let mut k: usize = 0;
    proof {
        assert(segs@.take(0) =~= Seq::<(Segment, usize)>::empty());
    }
    while k < segs.len()
        invariant
            k <= segs@.len(),
            forall|j: int| 0 <= j < segs@.len() ==> segment_fits(#[trigger] segs@[j].0),
            table_matches(table@, marks_of(segs@.take(k as int))),
            spans@ == spans_of(segs@.take(k as int)),
        decreases segs@.len() - k,
    {
        let (segment, face) = segs[k];
        let ghost prefix = segs@.take(k as int);
        let ghost next = segs@.take(k + 1);
        proof {
            assert(next.drop_last() =~= prefix);
            assert(next.last() == segs@[k as int]);
        }
        match line_coordinates(segment) {
            None => {
                proof {
                    assert(marks_of(next) =~= marks_of(prefix));
                    assert(spans_of(next) =~= spans_of(prefix));
                }
            },
            Some(c) => {
                let first: Mark = (c.key, c.start.0, c.start.1);
                let second: Mark = (c.key, c.end.0, c.end.1);
                record(&mut table, first, Ghost(marks_of(prefix)));
                record(&mut table, second, Ghost(marks_of(prefix).push(first)));
                let low = if c.start.0 <= c.end.0 {
                    c.start.0
                } else {
                    c.end.0
                };
                let high = if c.start.0 <= c.end.0 {
                    c.end.0
                } else {
                    c.start.0
                };
                spans.push((c.key, low, high, face));
                proof {
                    assert(marks_of(next) =~= marks_of(prefix).push(first).push(second));
                    assert(spans_of(next) =~= spans_of(prefix).push((c.key, low, high, face)));
                }
            },
        }
        k = k + 1;
    }
    proof {
        assert(segs@.take(segs@.len() as int) =~= segs@);
    }
    (table, spans)
}

/// The order on line keys is a strict total order.
pub proof fn lemma_key_order(a: LineKey, b: LineKey, c: LineKey)
    ensures
        !key_lt(a, a),
        key_lt(a, b) ==> !key_lt(b, a),
        key_lt(a, b) && key_lt(b, c) ==> key_lt(a, c),
        !key_lt(a, b) && !key_lt(b, a) ==> a == b,
{
    if !key_lt(a, b) && !key_lt(b, a) {
        assert(a.direction =~= b.direction);
        assert(a.moment =~= b.moment);
    }
}

/// The order on stations is a strict total order.
pub proof fn lemma_station_order(a: Station, b: Station, c: Station)
    ensures
        !station_lt(a, a),
        station_lt(a, b) ==> !station_lt(b, a),
        station_lt(a, b) && station_lt(b, c) ==> station_lt(a, c),
        !station_lt(a, b) && !station_lt(b, a) ==> a == b,
{
    lemma_key_order(a.0, b.0, c.0);
    lemma_key_order(b.0, a.0, c.0);
    lemma_key_order(a.0, c.0, b.0);
}

/// The station of a mark.
pub open spec fn station_of(m: Mark) -> Station {
    (m.0, m.1)
}

/// The stations of a sequence of marks, in order.
pub open spec fn stations_of(table: Seq<Mark>) -> Seq<Station> {
    Seq::new(table.len(), |i: int| station_of(table[i]))
}

/// Sorts a table whose stations are distinct into increasing station order.
fn sort_marks(table: &Vec<Mark>) -> (sorted: Vec<Mark>)
    requires
        forall|k1: int, k2: int|
            0 <= k1 < k2 < table@.len() ==> station_of(#[trigger] table@[k1]) != station_of(
                #[trigger] table@[k2],
            ),
    ensures
        sorted@.len() == table@.len(),
        forall|x: Mark| sorted@.contains(x) <==> table@.contains(x),
        stations_increasing(stations_of(sorted@)),
{
    let mut sorted: Vec<Mark> = Vec::new();
    let mut i: usize = 0;
    while i < table.len()
        invariant
            i <= table@.len(),
            forall|k1: int, k2: int|
                0 <= k1 < k2 < table@.len() ==> station_of(#[trigger] table@[k1]) != station_of(
                    #[trigger] table@[k2],
                ),
            sorted@.len() == i,
            forall|x: Mark| sorted@.contains(x) <==> table@.take(i as int).contains(x),
            stations_increasing(stations_of(sorted@)),
        decreases table@.len() - i,
    {
        let e = table[i];
        let mut p: usize = 0;
        while p < sorted.len() && !station_less(&e.0, e.1, &sorted[p].0, sorted[p].1)
            invariant
                p <= sorted@.len(),
                forall|q: int| 0 <= q < p ==> !station_lt(station_of(e), station_of(#[trigger] sorted@[q])),
            decreases sorted@.len() - p,
        {
            p = p + 1;
        }
        let ghost before = sorted@;
        proof {
            // e's station differs from every station already placed.
            assert forall|q: int| 0 <= q < before.len() implies station_of(#[trigger] before[q])
                != station_of(e) by {
                assert(before.contains(before[q]));
                assert(table@.take(i as int).contains(before[q]));
                let k = choose|k: int| 0 <= k < i && table@.take(i as int)[k] == before[q];
                assert(table@[k] == before[q]);
                assert(table@[i as int] == e);
            }
            assert forall|q: int| 0 <= q < p implies station_lt(station_of(#[trigger] before[q]), station_of(e)) by {
                lemma_station_order(station_of(before[q]), station_of(e), station_of(e));
            }
        }
        sorted.insert(p, e);
        proof {
            let after = sorted@;
            assert(after == before.insert(p as int, e));
            let sa = stations_of(after);
            let sb = stations_of(before);
            assert forall|a: int, b: int| 0 <= a < b < sa.len() implies station_lt(
                #[trigger] sa[a],
                #[trigger] sa[b],
            ) by {
                if b < p {
                    assert(sa[a] == sb[a] && sa[b] == sb[b]);
                } else if b == p {
                    assert(sa[a] == sb[a]);
                } else if a > p {
                    assert(sa[a] == sb[a - 1] && sa[b] == sb[b - 1]);
                } else if a == p {
                    assert(sa[b] == sb[b - 1]);
                    assert(station_lt(station_of(e), sb[p as int]));
                    if b - 1 > p {
                        lemma_station_order(station_of(e), sb[p as int], sb[b - 1]);
                    }
                } else {
                    assert(sa[a] == sb[a] && sa[b] == sb[b - 1]);
                    assert(station_lt(sb[a], station_of(e)));
                    assert(station_lt(station_of(e), sb[p as int]));
                    lemma_station_order(sb[a], station_of(e), sb[p as int]);
                    if b - 1 > p {
                        lemma_station_order(sb[a], sb[p as int], sb[b - 1]);
                    }
                }
            }
            assert forall|x: Mark| after.contains(x) <==> table@.take(i + 1).contains(x) by {
                let grown = table@.take(i + 1);
                assert(grown =~= table@.take(i as int).push(e));
                assert(after[p as int] == e);
                if after.contains(x) {
                    let k = choose|k: int| 0 <= k < after.len() && after[k] == x;
                    if k < p {
                        assert(before[k] == x);
                        assert(before.contains(x));
                    } else if k > p {
                        assert(before[k - 1] == x);
                        assert(before.contains(x));
                    }
                    if x != e {
                        assert(table@.take(i as int).contains(x));
                        let m = choose|m: int| 0 <= m < i && table@.take(i as int)[m] == x;
                        assert(grown[m] == x);
                    } else {
                        assert(grown[i as int] == e);
                    }
                }
                if grown.contains(x) {
                    let m = choose|m: int| 0 <= m < grown.len() && grown[m] == x;
                    if m < i {
                        assert(table@.take(i as int)[m] == x);
                        assert(table@.take(i as int).contains(x));
                        assert(before.contains(x));
                        let k = choose|k: int| 0 <= k < before.len() && before[k] == x;
                        if k < p {
                            assert(after[k] == x);
                        } else {
                            assert(after[k + 1] == x);
                        }
                    } else {
                        assert(x == e);
                    }
                }
            }
        }
        i = i + 1;
    }
    proof {
        assert(table@.take(table@.len() as int) =~= table@);
    }
    sorted
}

/// Two strictly increasing sequences of stations with the same elements are equal.
pub proof fn lemma_increasing_unique(q1: Seq<Station>, q2: Seq<Station>)
    requires
        stations_increasing(q1),
        stations_increasing(q2),
        q1.to_set() == q2.to_set(),
    ensures
        q1 == q2,
    decreases q1.len(),
{
    if q1.len() == 0 {
        if q2.len() > 0 {
            assert(q2.to_set().contains(q2[0]));
        }
        assert(q1 =~= q2);
    } else {
        assert(q1.to_set().contains(q1[0]));
        assert(q2.len() > 0);
        assert(q2.to_set().contains(q2[0]));
        let j = choose|j: int| 0 <= j < q2.len() && q2[j] == q1[0];
        let i = choose|i: int| 0 <= i < q1.len() && q1[i] == q2[0];
        if j > 0 {
            assert(station_lt(q2[0], q2[j]));
            if i > 0 {
                assert(station_lt(q1[0], q1[i]));
                lemma_station_order(q1[0], q2[0], q1[0]);
            } else {
                lemma_station_order(q1[0], q1[0], q1[0]);
            }
        }
        assert(q1[0] == q2[0]);
        let r1 = q1.drop_first();
        let r2 = q2.drop_first();
        assert(stations_increasing(r1)) by {
            assert forall|a: int, b: int| 0 <= a < b < r1.len() implies station_lt(
                #[trigger] r1[a],
                #[trigger] r1[b],
            ) by {
                assert(r1[a] == q1[a + 1] && r1[b] == q1[b + 1]);
            }
        }
        assert(stations_increasing(r2)) by {
            assert forall|a: int, b: int| 0 <= a < b < r2.len() implies station_lt(
                #[trigger] r2[a],
                #[trigger] r2[b],
            ) by {
                assert(r2[a] == q2[a + 1] && r2[b] == q2[b + 1]);
            }
        }
        assert(r1.to_set() =~= r2.to_set()) by {
            assert forall|x: Station| r1.to_set().contains(x) implies r2.to_set().contains(x) by {
                let a = choose|a: int| 0 <= a < r1.len() && r1[a] == x;
                assert(q1[a + 1] == x);
                assert(q1.to_set().contains(x));
                let b = choose|b: int| 0 <= b < q2.len() && q2[b] == x;
                if b == 0 {
                    assert(station_lt(q1[0], q1[a + 1]));
                    lemma_station_order(x, x, x);
                }
                assert(r2[b - 1] == x);
            }
            assert forall|x: Station| r2.to_set().contains(x) implies r1.to_set().contains(x) by {
                let a = choose|a: int| 0 <= a < r2.len() && r2[a] == x;
                assert(q2[a + 1] == x);
                assert(q2.to_set().contains(x));
                let b = choose|b: int| 0 <= b < q1.len() && q1[b] == x;
                if b == 0 {
                    assert(station_lt(q2[0], q2[a + 1]));
                    lemma_station_order(x, x, x);
                }
                assert(r1[b - 1] == x);
            }
        }
        lemma_increasing_unique(r1, r2);
        assert(q1 =~= seq![q1[0]] + r1);
        assert(q2 =~= seq![q2[0]] + r2);
    }
}

/// The distinct faces whose spans on line `key` cover `[low, high]`, in span order.
fn incident_faces(spans: &Vec<Span>, key: &LineKey, low: i128, high: i128, Ghost(bound): Ghost<
    nat,
>) -> (inc: Vec<usize>)
    requires
        forall|j: int| 0 <= j < spans@.len() ==> (#[trigger] spans@[j]).3 < bound,
    ensures
        inc@.no_duplicates(),
        inc@.to_set() == covering_faces(spans@, *key, low, high),
        forall|k: int| 0 <= k < inc@.len() ==> #[trigger] inc@[k] < bound,
{
    let mut inc: Vec<usize> = Vec::new();
    let mut j: usize = 0;
    while j < spans.len()
        invariant
            j <= spans@.len(),
            inc@.no_duplicates(),
            inc@.to_set() == covering_faces(spans@.take(j as int), *key, low, high),
            forall|k: int| 0 <= k < inc@.len() ==> #[trigger] inc@[k] < bound,
            forall|m: int| 0 <= m < spans@.len() ==> (#[trigger] spans@[m]).3 < bound,
        decreases spans@.len() - j,
    {
        let span = spans[j];
        let ghost before = inc@;
        let ghost prefix = spans@.take(j as int);
        let ghost next = spans@.take(j + 1);
        let covers = same_key(&span.0, key) && span.1 <= low && high <= span.2;
        if covers {
            let mut seen = false;
            let mut k: usize = 0;
            while k < inc.len()
                invariant
                    k <= inc@.len(),
                    seen == exists|m: int| 0 <= m < k && inc@[m] == span.3,
                decreases inc@.len() - k,
            {
                if inc[k] == span.3 {
                    seen = true;
                }
                k = k + 1;
            }
            if !seen {
                inc.push(span.3);
            }
        }
        proof {
            assert forall|f: usize|
                covering_faces(next, *key, low, high).contains(f) == (covering_faces(
                    prefix,
                    *key,
                    low,
                    high,
                ).contains(f) || (covers && f == span.3)) by {
                if covering_faces(next, *key, low, high).contains(f) {
                    let m = choose|m: int|
                        0 <= m < next.len() && (#[trigger] next[m]).0 == *key && next[m].1 <= low
                            && high <= next[m].2 && next[m].3 == f;
                    if m < j {
                        assert(prefix[m] == next[m]);
                    }
                }
                if covering_faces(prefix, *key, low, high).contains(f) {
                    let m = choose|m: int|
                        0 <= m < prefix.len() && (#[trigger] prefix[m]).0 == *key && prefix[m].1
                            <= low && high <= prefix[m].2 && prefix[m].3 == f;
                    assert(next[m] == prefix[m]);
                }
                if covers && f == span.3 {
                    assert(next[j as int] == span);
                }
            }
            assert(inc@.to_set() =~= covering_faces(next, *key, low, high)) by {
                if covers && !before.contains(span.3) {
                    assert(inc@ == before.push(span.3));
                    assert forall|f: usize| inc@.to_set().contains(f) == (before.to_set().contains(f) || f == span.3) by {
                        if inc@.contains(f) {
                            let m = choose|m: int| 0 <= m < inc@.len() && inc@[m] == f;
                            if m < before.len() {
                                assert(before[m] == f);
                            }
                        }
                        if before.contains(f) {
                            let m = choose|m: int| 0 <= m < before.len() && before[m] == f;
                            assert(inc@[m] == f);
                        }
                        if f == span.3 {
                            assert(inc@[before.len() as int] == f);
                        }
                    }
                } else {
                    assert(inc@ == before);
                }
            }
            assert forall|k: int| 0 <= k < inc@.len() implies #[trigger] inc@[k] < bound by {
                if k == before.len() {
                    assert(spans@[j as int].3 == inc@[k]);
                } else {
                    assert(inc@[k] == before[k]);
                }
            }
        }
        j = j + 1;
    }
    proof {
        assert(spans@.take(spans@.len() as int) =~= spans@);
    }
    inc
}

proof fn lemma_cross_antisymmetric(a: Point3, b: Point3)
    ensures
        normals_parallel(a, b) == normals_parallel(b, a),
        normals_parallel(a, a),
{
    assert(cross_at(a, b, 0) == -cross_at(b, a, 0)) by (nonlinear_arith);
    assert(cross_at(a, b, 1) == -cross_at(b, a, 1)) by (nonlinear_arith);
    assert(cross_at(a, b, 2) == -cross_at(b, a, 2)) by (nonlinear_arith);
    assert(cross_at(a, a, 0) == 0) by (nonlinear_arith);
    assert(cross_at(a, a, 1) == 0) by (nonlinear_arith);
    assert(cross_at(a, a, 2) == 0) by (nonlinear_arith);
}

/// Classifies an edge by the distinct faces `incident` that cover it.
pub fn classify_edge(faces: &[Face], incident: &Vec<usize>) -> (kind: EdgeKind)
    requires
        incident@.len() >= 1,
        incident@.no_duplicates(),
        forall|k: int| 0 <= k < incident@.len() ==> #[trigger] incident@[k] < faces@.len(),
    ensures
        kind == spec_classify(faces_view(faces@), incident@.to_set()),
{
    let ghost inc = incident@.to_set();
    proof {
        incident@.unique_seq_to_set();
    }
    if incident.len() == 1 {
        return EdgeKind::Boundary;
    }
    let mut a: usize = 0;
    while a < incident.len()
        invariant
            a <= incident@.len(),
            incident@.len() == inc.len(),
            inc == incident@.to_set(),
            forall|k: int| 0 <= k < incident@.len() ==> #[trigger] incident@[k] < faces@.len(),
            incident@.len() >= 2,
            forall|x: int, y: int|
                0 <= x < a && x < y < incident@.len() ==> normals_parallel(
                    faces@[incident@[x] as int].normal,
                    faces@[incident@[y] as int].normal,
                ),
        decreases incident@.len() - a,
    {
        let mut b: usize = a + 1;
        while b < incident.len()
            invariant
                a < b <= incident@.len(),
                forall|k: int| 0 <= k < incident@.len() ==> #[trigger] incident@[k] < faces@.len(),
                forall|y: int|
                    a < y < b ==> normals_parallel(
                        faces@[incident@[a as int] as int].normal,
                        faces@[#[trigger] incident@[y] as int].normal,
                    ),
                inc == incident@.to_set(),
                incident@.len() == inc.len(),
                incident@.len() >= 2,
            decreases incident@.len() - b,
        {
            let product = cross_wide(faces[incident[a]].normal, faces[incident[b]].normal);
            if product[0] != 0 || product[1] != 0 || product[2] != 0 {
                proof {
                    let f = incident@[a as int];
                    let g = incident@[b as int];
                    assert(incident@.contains(f) && incident@.contains(g));
                    assert(inc.contains(f) && inc.contains(g));
                    assert(!normals_parallel(faces@[f as int].normal, faces@[g as int].normal));
                    let fv = faces_view(faces@);
                    assert(fv[f as int].normal == faces@[f as int].normal);
                    assert(fv[g as int].normal == faces@[g as int].normal);
                }
                return EdgeKind::Crease;
            }
            b = b + 1;
        }
        a = a + 1;
    }
    proof {
        assert forall|f: usize, g: usize| inc.contains(f) && inc.contains(g) implies normals_parallel(
            faces@[f as int].normal,
            faces@[g as int].normal,
        ) by {
            let x = choose|x: int| 0 <= x < incident@.len() && incident@[x] == f;
            let y = choose|y: int| 0 <= y < incident@.len() && incident@[y] == g;
            lemma_cross_antisymmetric(faces@[f as int].normal, faces@[g as int].normal);
            if x > y {
                assert(normals_parallel(faces@[g as int].normal, faces@[f as int].normal));
            } else if x < y {
                assert(normals_parallel(faces@[f as int].normal, faces@[g as int].normal));
            }
        }
    }
    let first = faces[incident[0]].material;
    let mut k: usize = 1;
    while k < incident.len()
        invariant
            1 <= k <= incident@.len(),
            forall|m: int| 0 <= m < incident@.len() ==> #[trigger] incident@[m] < faces@.len(),
            first == faces@[incident@[0] as int].material,
            forall|m: int| 0 <= m < k ==> faces@[#[trigger] incident@[m] as int].material == first,
            inc == incident@.to_set(),
            incident@.len() == inc.len(),
            incident@.len() >= 2,
            forall|f: usize, g: usize| inc.contains(f) && inc.contains(g) ==> normals_parallel(
                faces@[f as int].normal,
                faces@[g as int].normal,
            ),
        decreases incident@.len() - k,
    {
        if faces[incident[k]].material != first {
            proof {
                let f = incident@[0];
                let g = incident@[k as int];
                assert(incident@.contains(f) && incident@.contains(g));
                assert(inc.contains(f) && inc.contains(g));
            }
            return EdgeKind::Material;
        }
        k = k + 1;
    }
    proof {
        assert forall|f: usize, g: usize| inc.contains(f) && inc.contains(g) implies faces@[f as int].material == faces@[g as int].material by {
            let x = choose|x: int| 0 <= x < incident@.len() && incident@[x] == f;
            let y = choose|y: int| 0 <= y < incident@.len() && incident@[y] == g;
        }
    }
    EdgeKind::Smooth
}

/// Every tagged segment of a scene is a boundary segment of the face it is tagged with.
proof fn lemma_scene_segments_index(faces: Seq<FaceView>)
    requires
        faces.len() <= usize::MAX,
    ensures
        forall|k: int|
            0 <= k < scene_segments(faces).len() ==> ((#[trigger] scene_segments(faces)[k]).1
                < faces.len() && exists|j: int|
                0 <= j < faces[scene_segments(faces)[k].1 as int].edges.len() && faces[scene_segments(
                    faces,
                )[k].1 as int].edges[j] == scene_segments(faces)[k].0),
    decreases faces.len(),
{
    if faces.len() > 0 {
        let rest = faces.drop_last();
        lemma_scene_segments_index(rest);
        let segs = scene_segments(faces);
        let head = scene_segments(rest);
        let tail = face_segments(faces.last(), faces.len() - 1);
        assert(segs == head + tail);
        assert forall|k: int| 0 <= k < segs.len() implies ((#[trigger] segs[k]).1 < faces.len()
            && exists|j: int|
            0 <= j < faces[segs[k].1 as int].edges.len() && faces[segs[k].1 as int].edges[j]
                == segs[k].0) by {
            if k < head.len() {
                assert(segs[k] == head[k]);
                let f = head[k].1 as int;
                assert(rest[f] == faces[f]);
                let j = choose|j: int|
                    0 <= j < rest[f].edges.len() && rest[f].edges[j] == head[k].0;
                assert(faces[f].edges[j] == segs[k].0);
            } else {
                let j = k - head.len();
                assert(segs[k] == tail[j]);
                assert(segs[k].1 == faces.len() - 1);
                assert(faces[faces.len() - 1].edges[j] == segs[k].0);
            }
        }
    }
}

/// The faces named by the spans of tagged segments are among the segments' tags.
proof fn lemma_spans_bounded(segs: Seq<(Segment, usize)>, bound: nat)
    requires
        forall|k: int| 0 <= k < segs.len() ==> (#[trigger] segs[k]).1 < bound,
    ensures
        forall|j: int| 0 <= j < spans_of(segs).len() ==> (#[trigger] spans_of(segs)[j]).3 < bound,
    decreases segs.len(),
{
    if segs.len() > 0 {
        let rest = segs.drop_last();
        assert forall|k: int| 0 <= k < rest.len() implies (#[trigger] rest[k]).1 < bound by {
            assert(rest[k] == segs[k]);
        }
        lemma_spans_bounded(rest, bound);
        let sp = spans_of(segs);
        let head = spans_of(rest);
        assert forall|j: int| 0 <= j < sp.len() implies (#[trigger] sp[j]).3 < bound by {
            if j < head.len() {
                assert(sp[j] == head[j]);
            } else {
                assert(segs.last().1 < bound);
            }
        }
    }
}

/// Splits every face boundary into atomic edges and classifies each one.
///
/// Segments are grouped by the line that carries them; on each line, the endpoints of
/// all its segments cut the line into atomic edges, and each atomic edge is reported
/// once, with the faces whose segments cover it.
pub fn atomic_edges(faces: &[Face]) -> (edges: Vec<WireEdge>)
    requires
        faces_fit(faces_view(faces@)),
    ensures
        edges@ == spec_atomic_edges(faces_view(faces@)),
{
    let ghost fv = faces_view(faces@);
    let segs = collect_segments(faces);
    proof {
        assert(fv.len() == faces.len());
        lemma_scene_segments_index(fv);
        assert forall|k: int| 0 <= k < segs@.len() implies segment_fits(#[trigger] segs@[k].0) by {
            let f = segs@[k].1 as int;
            let j = choose|j: int| 0 <= j < fv[f].edges.len() && fv[f].edges[j] == segs@[k].0;
            assert(segment_fits(fv[f].edges[j]));
        }
        assert forall|k: int| 0 <= k < segs@.len() implies (#[trigger] segs@[k]).1 < faces@.len() by {
        }
        lemma_spans_bounded(segs@, faces@.len());
    }
    let (table, spans) = collect_marks(&segs);
    let ghost marks = marks_of(segs@);
    proof {
        assert forall|k1: int, k2: int| 0 <= k1 < k2 < table@.len() implies station_of(
            #[trigger] table@[k1],
        ) != station_of(#[trigger] table@[k2]) by {
        }
    }
    let sorted = sort_marks(&table);
    let ghost q = stations_of(sorted@);
    proof {
        assert(q.to_set() =~= station_set(marks)) by {
            assert forall|st: Station| q.to_set().contains(st) implies is_station(marks, st) by {
                let k = choose|k: int| 0 <= k < q.len() && q[k] == st;
                assert(sorted@.contains(sorted@[k]));
                let m = choose|m: int| 0 <= m < table@.len() && table@[m] == sorted@[k];
                assert(is_station(marks, ((table@[m]).0, table@[m].1)));
            }
            assert forall|st: Station| is_station(marks, st) implies q.to_set().contains(st) by {
                let m = choose|m: int|
                    0 <= m < table@.len() && (#[trigger] table@[m]).0 == st.0 && table@[m].1 == st.1;
                assert(table@.contains(table@[m]));
                let k = choose|k: int| 0 <= k < sorted@.len() && sorted@[k] == table@[m];
                assert(q[k] == st);
            }
        }
        lemma_increasing_unique(q, sorted_stations(marks));
    }
    let mut edges: Vec<WireEdge> = Vec::new();
    let n = sorted.len();
    if n == 0 {
        proof {
            assert(spec_atomic_edges(fv) =~= Seq::<WireEdge>::empty());
        }
        return edges;
    }
    let mut i: usize = 0;
    while i + 1 < n
        invariant
            n == sorted@.len(),
            n >= 1,
            i + 1 <= n,
            q == stations_of(sorted@),
            q == sorted_stations(marks),
            fv == faces_view(faces@),
            marks == marks_of(scene_segments(fv)),
            spans@ == spans_of(scene_segments(fv)),
            table_matches(table@, marks),
            forall|x: Mark| sorted@.contains(x) <==> table@.contains(x),
            forall|j: int| 0 <= j < spans@.len() ==> (#[trigger] spans@[j]).3 < faces@.len(),
            edges@ == Seq::new(i as nat, |k: int| edge_piece(fv, q, k)).flatten(),
        decreases n - i,
    {
        let a = sorted[i];
        let b = sorted[i + 1];
        let ghost piece = edge_piece(fv, q, i as int);
        proof {
            assert(sorted@.contains(a) && sorted@.contains(b));
            assert(table@.contains(a) && table@.contains(b));
            let ka = choose|k: int| 0 <= k < table@.len() && table@[k] == a;
            let kb = choose|k: int| 0 <= k < table@.len() && table@[k] == b;
            assert(a.2 == last_point(marks, a.0, a.1));
            assert(b.2 == last_point(marks, b.0, b.1));
            assert(q[i as int] == (a.0, a.1));
            assert(q[i + 1] == (b.0, b.1));
        }
        if same_key(&a.0, &b.0) {
            let inc = incident_faces(&spans, &a.0, a.1, b.1, Ghost(faces@.len()));
            proof {
                inc@.unique_seq_to_set();
            }
            if inc.len() > 0 {
                let kind = classify_edge(faces, &inc);
                let edge = WireEdge { start: a.2, end: b.2, kind, faces: inc.len() as u32 };
                edges.push(edge);
                proof {
                    assert(piece =~= seq![edge]);
                }
            } else {
                proof {
                    assert(piece =~= Seq::<WireEdge>::empty());
                }
            }
        } else {
            proof {
                assert(piece =~= Seq::<WireEdge>::empty());
            }
        }
        proof {
            let pieces = Seq::new(i as nat, |k: int| edge_piece(fv, q, k));
            assert(Seq::new((i + 1) as nat, |k: int| edge_piece(fv, q, k)) =~= pieces.push(piece));
            pieces.lemma_flatten_push(piece);
        }
        i = i + 1;
    }
    edges
}

/// Every element of a flattened sequence of sequences comes from one of them.
proof fn lemma_flatten_index<A>(s: Seq<Seq<A>>, k: int)
    requires
        0 <= k < s.flatten().len(),
    ensures
        exists|i: int, j: int| 0 <= i < s.len() && 0 <= j < s[i].len() && #[trigger] s[i][j] == s.flatten()[k],
    decreases s.len(),
{
    if s.len() > 0 {
        let rest = s.drop_first();
        assert(s.flatten() == s.first() + rest.flatten());
        if k < s.first().len() {
            assert(s[0][k] == s.flatten()[k]);
        } else {
            lemma_flatten_index(rest, k - s.first().len());
            let (i, j) = choose|i: int, j: int|
                0 <= i < rest.len() && 0 <= j < rest[i].len() && #[trigger] rest[i][j] == rest.flatten()[k - s.first().len()];
            assert(s[i + 1][j] == s.flatten()[k]);
        }
    }
}

/// A sequence of tagged segments has at most one span per segment.
proof fn lemma_spans_count(segs: Seq<(Segment, usize)>)
    ensures
        spans_of(segs).len() <= segs.len(),
    decreases segs.len(),
{
    if segs.len() > 0 {
        lemma_spans_count(segs.drop_last());
    }
}

/// No more faces cover an interval than there are spans.
proof fn lemma_covering_count(spans: Seq<Span>, key: LineKey, low: i128, high: i128)
    ensures
        covering_faces(spans, key, low, high).finite(),
        covering_faces(spans, key, low, high).len() <= spans.len(),
{
    let tags = spans.map_values(|s: Span| s.3);
    let inc = covering_faces(spans, key, low, high);
    assert forall|f: usize| inc.contains(f) implies tags.to_set().contains(f) by {
        let j = choose|j: int|
            0 <= j < spans.len() && (#[trigger] spans[j]).0 == key && spans[j].1 <= low && high
                <= spans[j].2 && spans[j].3 == f;
        assert(tags[j] == f);
    }
    tags.lemma_cardinality_of_set();
    vstd::set_lib::lemma_len_subset(inc, tags.to_set());
}

/// Every atomic edge is covered by at least one face, and it is a boundary edge
/// exactly when a single face covers it.
pub proof fn lemma_atomic_edge_cover(faces: Seq<FaceView>)
    requires
        scene_segments(faces).len() <= u32::MAX,
    ensures
        forall|k: int|
            0 <= k < spec_atomic_edges(faces).len() ==> {
                &&& (#[trigger] spec_atomic_edges(faces)[k]).faces >= 1
                &&& (spec_atomic_edges(faces)[k].kind == EdgeKind::Boundary
                    <==> spec_atomic_edges(faces)[k].faces == 1)
            },
{
    let segs = scene_segments(faces);
    let spans = spans_of(segs);
    let q = sorted_stations(marks_of(segs));
    let count: nat = if q.len() == 0 {
        0nat
    } else {
        (q.len() - 1) as nat
    };
    let pieces = Seq::new(count, |i: int| edge_piece(faces, q, i));
    lemma_spans_count(segs);
    assert forall|k: int| 0 <= k < spec_atomic_edges(faces).len() implies {
        &&& (#[trigger] spec_atomic_edges(faces)[k]).faces >= 1
        &&& (spec_atomic_edges(faces)[k].kind == EdgeKind::Boundary
            <==> spec_atomic_edges(faces)[k].faces == 1)
    } by {
        assert(spec_atomic_edges(faces) == pieces.flatten());
        lemma_flatten_index(pieces, k);
        let (i, j) = choose|i: int, j: int|
            0 <= i < pieces.len() && 0 <= j < pieces[i].len() && #[trigger] pieces[i][j] == pieces.flatten()[k];
        let a = q[i];
        let b = q[i + 1];
        lemma_covering_count(spans, a.0, a.1, b.1);
    }
}

} // verus!
