//! Canonical coordinates of straight segments: every segment with distinct endpoints is
//! keyed by the line that carries it (a primitive direction with a positive leading
//! component, and the moment of the line about the origin), and each endpoint gets a
//! scalar coordinate along that direction.
use crate::arith::{
    abs_nat, cross_at, cross_wide, dot_fits, dot_int, dot_wide, fits_i64, gcd, gcd_nat,
    lemma_gcd_bounded, lemma_gcd_divides, lemma_gcd_zero, unsigned_magnitude, Point3,
};
use vstd::arithmetic::div_mod::*;
use vstd::arithmetic::mul::*;
use vstd::prelude::*;

verus! {

/// A straight segment between two points.
#[derive(Clone, Copy, Debug)]
pub struct Segment {
    pub start: Point3,
    pub end: Point3,
}

/// The identity of an infinite line: its normalised direction and its moment
/// `point × direction`, which is the same for every point of the line.
#[derive(Clone, Copy, Debug)]
pub struct LineKey {
    pub direction: Point3,
    pub moment: [i128; 3],
}

/// A segment expressed on its line: the line's key and, for each endpoint, its
/// coordinate along the key's direction together with the endpoint itself.
#[derive(Clone, Copy, Debug)]
pub struct LineCoordinates {
    pub key: LineKey,
    pub start: (i128, Point3),
    pub end: (i128, Point3),
}

/// Component `i` of `end - start`.
pub open spec fn seg_delta(s: Segment, i: int) -> int {
    s.end[i] - s.start[i]
}

/// The greatest common divisor of the absolute components of `end - start`.
pub open spec fn seg_divisor(s: Segment) -> nat {
    gcd_nat(
        gcd_nat(abs_nat(seg_delta(s, 0)), abs_nat(seg_delta(s, 1))),
        abs_nat(seg_delta(s, 2)),
    )
}

/// Component `i` of `end - start` divided by the common divisor.
pub open spec fn seg_reduced(s: Segment, i: int) -> int {
    let q = (abs_nat(seg_delta(s, i)) / seg_divisor(s)) as int;
    if seg_delta(s, i) < 0 {
        -q
    } else {
        q
    }
}

/// The first non-zero reduced component is negative.
pub open spec fn seg_leading_negative(s: Segment) -> bool {
    if seg_reduced(s, 0) != 0 {
        seg_reduced(s, 0) < 0
    } else if seg_reduced(s, 1) != 0 {
        seg_reduced(s, 1) < 0
    } else {
        seg_reduced(s, 2) < 0
    }
}

/// Component `i` of the normalised direction: the reduced difference, negated if
/// needed so that its first non-zero component is positive.
pub open spec fn seg_unit(s: Segment, i: int) -> int {
    if seg_leading_negative(s) {
        -seg_reduced(s, i)
    } else {
        seg_reduced(s, i)
    }
}

/// The normalised direction as a point (meaningful when `segment_fits(s)`).
pub open spec fn seg_direction(s: Segment) -> Point3 {
    [seg_unit(s, 0) as i64, seg_unit(s, 1) as i64, seg_unit(s, 2) as i64]
}

/// The arithmetic that keys this segment stays within the machine integers: the
/// differences fit in `i64` and, when the endpoints differ, so does the normalised
/// direction, and both endpoint coordinates can be accumulated in `i128`.
pub open spec fn segment_fits(s: Segment) -> bool {
    &&& fits_i64(seg_delta(s, 0))
    &&& fits_i64(seg_delta(s, 1))
    &&& fits_i64(seg_delta(s, 2))
    &&& seg_divisor(s) > 0 ==> {
        &&& fits_i64(seg_unit(s, 0))
        &&& fits_i64(seg_unit(s, 1))
        &&& fits_i64(seg_unit(s, 2))
        &&& dot_fits(s.start, seg_direction(s))
        &&& dot_fits(s.end, seg_direction(s))
    }
}

/// The key of the line that carries `s`.
pub open spec fn seg_key(s: Segment) -> LineKey {
    let d = seg_direction(s);
    LineKey {
        direction: d,
        moment: [
            cross_at(s.start, d, 0) as i128,
            cross_at(s.start, d, 1) as i128,
            cross_at(s.start, d, 2) as i128,
        ],
    }
}

/// The keyed form of `s`, or `None` when its endpoints coincide.
pub open spec fn spec_line_coordinates(s: Segment) -> Option<LineCoordinates> {
    if seg_divisor(s) == 0 {
        None
    } else {
        let d = seg_direction(s);
        Some(
            LineCoordinates {
                key: seg_key(s),
                start: (dot_int(s.start, d) as i128, s.start),
                end: (dot_int(s.end, d) as i128, s.end),
            },
        )
    }
}

/// Keys a segment by its line and places both endpoints on that line.
pub fn line_coordinates(segment: Segment) -> (coordinates: Option<LineCoordinates>)
    requires
        segment_fits(segment),
    ensures
        coordinates == spec_line_coordinates(segment),
{
    let dx = segment.end[0] - segment.start[0];
    let dy = segment.end[1] - segment.start[1];
    let dz = segment.end[2] - segment.start[2];
    let divisor = gcd(gcd(dx, dy), dz);
    proof {
        let inner = gcd_nat(abs_nat(dx as int), abs_nat(dy as int));
        lemma_gcd_bounded(abs_nat(dx as int), abs_nat(dy as int));
        lemma_gcd_bounded(inner, abs_nat(dz as int));
        assert(inner <= 0x8000_0000_0000_0000);
        assert(seg_divisor(segment) <= 0x8000_0000_0000_0000);
    }
    if divisor == 0 {
        return None;
    }
    let magnitude = unsigned_magnitude(divisor);
    assert(magnitude as nat == seg_divisor(segment));
    let rx = reduce_component(dx, magnitude);
    let ry = reduce_component(dy, magnitude);
    let rz = reduce_component(dz, magnitude);
    let negate = if rx != 0 {
        rx < 0
    } else if ry != 0 {
        ry < 0
    } else {
        rz < 0
    };
    let direction: Point3 = if negate {
        [(-rx) as i64, (-ry) as i64, (-rz) as i64]
    } else {
        [rx as i64, ry as i64, rz as i64]
    };
    assert(direction == seg_direction(segment));
    let moment = cross_wide(segment.start, direction);
    let key = LineKey { direction, moment };
    assert(key.moment =~= seg_key(segment).moment);
    assert(key == seg_key(segment));
    let start = dot_wide(segment.start, direction);
    let end = dot_wide(segment.end, direction);
    Some(LineCoordinates { key, start: (start, segment.start), end: (end, segment.end) })
}

/// `sign(delta) * (|delta| / divisor)`, computed without signed division.
fn reduce_component(delta: i64, divisor: u64) -> (reduced: i128)
    requires
        divisor > 0,
    ensures
        reduced as int == (if delta < 0 {
            -((abs_nat(delta as int) / (divisor as nat)) as int)
        } else {
            (abs_nat(delta as int) / (divisor as nat)) as int
        }),
{
    let quotient = unsigned_magnitude(delta) / divisor;
    if delta < 0 {
        -(quotient as i128)
    } else {
        quotient as i128
    }
}

/// The reverse of a segment.
pub open spec fn reversed(s: Segment) -> Segment {
    Segment { start: s.end, end: s.start }
}

/// The common divisor divides each component of `end - start`, and each component
/// is the divisor times the reduced component.
pub proof fn lemma_delta_is_multiple(s: Segment)
    requires
        seg_divisor(s) > 0,
    ensures
        seg_delta(s, 0) == seg_divisor(s) * seg_reduced(s, 0),
        seg_delta(s, 1) == seg_divisor(s) * seg_reduced(s, 1),
        seg_delta(s, 2) == seg_divisor(s) * seg_reduced(s, 2),
{
    let a = abs_nat(seg_delta(s, 0));
    let b = abs_nat(seg_delta(s, 1));
    let c = abs_nat(seg_delta(s, 2));
    let h = gcd_nat(a, b);
    let g = seg_divisor(s);
    lemma_gcd_divides(a, b);
    lemma_gcd_divides(h, c);
    if h == 0 {
        lemma_gcd_zero(c);
        assert(a == 0 && b == 0);
    } else {
        lemma_divides_transitive(a, h, g);
        lemma_divides_transitive(b, h, g);
    }
    lemma_component_multiple(seg_delta(s, 0), g);
    lemma_component_multiple(seg_delta(s, 1), g);
    lemma_component_multiple(seg_delta(s, 2), g);
}

proof fn lemma_divides_transitive(a: nat, h: nat, g: nat)
    requires
        h > 0,
        g > 0,
        a % h == 0,
        h % g == 0,
    ensures
        a % g == 0,
{
    lemma_fundamental_div_mod(a as int, h as int);
    lemma_fundamental_div_mod(h as int, g as int);
    let k = a / h;
    let m = h / g;
    assert(a == h * k);
    assert(h == g * m);
    assert(a == g * (m * k)) by {
        lemma_mul_is_associative(g as int, m as int, k as int);
    }
    lemma_mod_multiples_basic((m * k) as int, g as int);
    lemma_mul_is_commutative(g as int, (m * k) as int);
}

proof fn lemma_component_multiple(d: int, g: nat)
    requires
        g > 0,
        abs_nat(d) % g == 0,
    ensures
        d == g * (if d < 0 {
            -((abs_nat(d) / g) as int)
        } else {
            (abs_nat(d) / g) as int
        }),
{
    let q = abs_nat(d) / g;
    lemma_fundamental_div_mod(abs_nat(d) as int, g as int);
    assert(abs_nat(d) == g * q);
    if d < 0 {
        assert(g * (-(q as int)) == -(g * q)) by (nonlinear_arith);
    }
}

/// Some reduced component is non-zero when the endpoints differ.
pub(crate) proof fn lemma_reduced_nonzero(s: Segment)
    requires
        seg_divisor(s) > 0,
    ensures
        seg_reduced(s, 0) != 0 || seg_reduced(s, 1) != 0 || seg_reduced(s, 2) != 0,
{
    lemma_delta_is_multiple(s);
    lemma_gcd_divides(
        gcd_nat(abs_nat(seg_delta(s, 0)), abs_nat(seg_delta(s, 1))),
        abs_nat(seg_delta(s, 2)),
    );
    lemma_gcd_divides(abs_nat(seg_delta(s, 0)), abs_nat(seg_delta(s, 1)));
    if seg_reduced(s, 0) == 0 && seg_reduced(s, 1) == 0 && seg_reduced(s, 2) == 0 {
        assert(seg_divisor(s) * 0 == 0);
        lemma_gcd_zero(0);
        assert(seg_divisor(s) == 0);
    }
}

/// The normalised direction has a positive leading component.
pub proof fn lemma_direction_leads_positive(s: Segment)
    requires
        seg_divisor(s) > 0,
    ensures
        seg_unit(s, 0) > 0 || (seg_unit(s, 0) == 0 && seg_unit(s, 1) > 0) || (seg_unit(s, 0)
            == 0 && seg_unit(s, 1) == 0 && seg_unit(s, 2) > 0),
{
    lemma_reduced_nonzero(s);
}

/// Both endpoints of a keyed segment lie on the keyed line: the cross product of
/// either endpoint with the key's direction is the key's moment.
pub proof fn lemma_endpoints_on_line(s: Segment)
    requires
        segment_fits(s),
        seg_divisor(s) > 0,
    ensures
        cross_at(s.end, seg_direction(s), 0) == cross_at(s.start, seg_direction(s), 0),
        cross_at(s.end, seg_direction(s), 1) == cross_at(s.start, seg_direction(s), 1),
        cross_at(s.end, seg_direction(s), 2) == cross_at(s.start, seg_direction(s), 2),
        dot_int(s.end, seg_direction(s)) != dot_int(s.start, seg_direction(s)),
        !seg_leading_negative(s) ==> dot_int(s.end, seg_direction(s)) > dot_int(
            s.start,
            seg_direction(s),
        ),
        seg_leading_negative(s) ==> dot_int(s.end, seg_direction(s)) < dot_int(
            s.start,
            seg_direction(s),
        ),
{
    lemma_delta_is_multiple(s);
    lemma_reduced_nonzero(s);
    let g = seg_divisor(s) as int;
    let d = seg_direction(s);
    let r0 = seg_reduced(s, 0);
    let r1 = seg_reduced(s, 1);
    let r2 = seg_reduced(s, 2);
    let sgn: int = if seg_leading_negative(s) {
        -1
    } else {
        1
    };
    assert(d[0] == sgn * r0 && d[1] == sgn * r1 && d[2] == sgn * r2);
    let a = s.start;
    let b = s.end;
    assert(b[0] == a[0] + g * r0 && b[1] == a[1] + g * r1 && b[2] == a[2] + g * r2);
    lemma_on_line_algebra(
        a[0] as int,
        a[1] as int,
        a[2] as int,
        g,
        r0,
        r1,
        r2,
        sgn,
        d[0] as int,
        d[1] as int,
        d[2] as int,
        b[0] as int,
        b[1] as int,
        b[2] as int,
    );
}

proof fn lemma_on_line_algebra(
    a0: int,
    a1: int,
    a2: int,
    g: int,
    r0: int,
    r1: int,
    r2: int,
    sgn: int,
    d0: int,
    d1: int,
    d2: int,
    b0: int,
    b1: int,
    b2: int,
)
    requires
        g > 0,
        sgn == 1 || sgn == -1,
        r0 != 0 || r1 != 0 || r2 != 0,
        d0 == sgn * r0,
        d1 == sgn * r1,
        d2 == sgn * r2,
        b0 == a0 + g * r0,
        b1 == a1 + g * r1,
        b2 == a2 + g * r2,
    ensures
        b1 * d2 - b2 * d1 == a1 * d2 - a2 * d1,
        b2 * d0 - b0 * d2 == a2 * d0 - a0 * d2,
        b0 * d1 - b1 * d0 == a0 * d1 - a1 * d0,
        b0 * d0 + b1 * d1 + b2 * d2 != a0 * d0 + a1 * d1 + a2 * d2,
        sgn == 1 ==> b0 * d0 + b1 * d1 + b2 * d2 > a0 * d0 + a1 * d1 + a2 * d2,
        sgn == -1 ==> b0 * d0 + b1 * d1 + b2 * d2 < a0 * d0 + a1 * d1 + a2 * d2,
{
    assert(b1 * d2 - b2 * d1 == a1 * d2 - a2 * d1) by (nonlinear_arith)
        requires
            d1 == sgn * r1,
            d2 == sgn * r2,
            b1 == a1 + g * r1,
            b2 == a2 + g * r2,
    ;
    assert(b2 * d0 - b0 * d2 == a2 * d0 - a0 * d2) by (nonlinear_arith)
        requires
            d0 == sgn * r0,
            d2 == sgn * r2,
            b0 == a0 + g * r0,
            b2 == a2 + g * r2,
    ;
    assert(b0 * d1 - b1 * d0 == a0 * d1 - a1 * d0) by (nonlinear_arith)
        requires
            d0 == sgn * r0,
            d1 == sgn * r1,
            b0 == a0 + g * r0,
            b1 == a1 + g * r1,
    ;
    let n = r0 * r0 + r1 * r1 + r2 * r2;
    assert(n > 0) by (nonlinear_arith)
        requires
            r0 != 0 || r1 != 0 || r2 != 0,
            n == r0 * r0 + r1 * r1 + r2 * r2,
    ;
    assert(b0 * d0 - a0 * d0 == g * sgn * (r0 * r0)) by (nonlinear_arith)
        requires
            d0 == sgn * r0,
            b0 == a0 + g * r0,
    ;
    assert(b1 * d1 - a1 * d1 == g * sgn * (r1 * r1)) by (nonlinear_arith)
        requires
            d1 == sgn * r1,
            b1 == a1 + g * r1,
    ;
    assert(b2 * d2 - a2 * d2 == g * sgn * (r2 * r2)) by (nonlinear_arith)
        requires
            d2 == sgn * r2,
            b2 == a2 + g * r2,
    ;
    assert(g * sgn * (r0 * r0) + g * sgn * (r1 * r1) + g * sgn * (r2 * r2) == g * sgn * n)
        by (nonlinear_arith)
        requires
            n == r0 * r0 + r1 * r1 + r2 * r2,
    ;
    assert(g * sgn * n != 0) by (nonlinear_arith)
        requires
            g > 0,
            sgn == 1 || sgn == -1,
            n > 0,
    ;
    assert(sgn == 1 ==> g * sgn * n > 0) by (nonlinear_arith)
        requires
            g > 0,
            n > 0,
    ;
    assert(sgn == -1 ==> g * sgn * n < 0) by (nonlinear_arith)
        requires
            g > 0,
            n > 0,
    ;
}

/// The coordinate along a keyed line grows from a segment's start to its end exactly
/// when the segment runs in the key's direction (its reduced difference was not
/// negated).
pub proof fn lemma_coordinate_follows_direction(s: Segment)
    requires
        segment_fits(s),
        seg_divisor(s) > 0,
    ensures
        !seg_leading_negative(s) <==> dot_int(s.end, seg_direction(s)) > dot_int(
            s.start,
            seg_direction(s),
        ),
        seg_leading_negative(s) <==> dot_int(s.end, seg_direction(s)) < dot_int(
            s.start,
            seg_direction(s),
        ),
{
    lemma_endpoints_on_line(s);
}

/// Along a direction `d`, the coordinate `p · d` grows strictly with the distance
/// travelled: moving `t` steps of `d` adds `t |d|²`, and `|d|² > 0`.
pub proof fn lemma_coordinate_increases_along(d: Point3, p: Point3, q: Point3, t: int)
    requires
        d[0] != 0 || d[1] != 0 || d[2] != 0,
        q[0] == p[0] + t * d[0],
        q[1] == p[1] + t * d[1],
        q[2] == p[2] + t * d[2],
    ensures
        dot_int(q, d) - dot_int(p, d) == t * (d[0] * d[0] + d[1] * d[1] + d[2] * d[2]),
        d[0] * d[0] + d[1] * d[1] + d[2] * d[2] > 0,
        t > 0 ==> dot_int(q, d) > dot_int(p, d),
{
    let (d0, d1, d2) = (d[0] as int, d[1] as int, d[2] as int);
    let (p0, p1, p2) = (p[0] as int, p[1] as int, p[2] as int);
    let n = d0 * d0 + d1 * d1 + d2 * d2;
    assert((p0 + t * d0) * d0 + (p1 + t * d1) * d1 + (p2 + t * d2) * d2 - (p0 * d0 + p1 * d1 + p2
        * d2) == t * (d0 * d0 + d1 * d1 + d2 * d2)) by (nonlinear_arith);
    assert(n > 0) by (nonlinear_arith)
        requires
            d0 != 0 || d1 != 0 || d2 != 0,
            n == d0 * d0 + d1 * d1 + d2 * d2,
    ;
    assert(t > 0 ==> t * n > 0) by (nonlinear_arith)
        requires
            n > 0,
    ;
}

/// A segment and its reverse lie on the same keyed line, with their endpoint
/// coordinates exchanged.
pub proof fn lemma_reverse_same_line(s: Segment)
    requires
        segment_fits(s),
        segment_fits(reversed(s)),
    ensures
        spec_line_coordinates(s) is None <==> spec_line_coordinates(reversed(s)) is None,
        spec_line_coordinates(s) matches Some(c) ==> {
            let r = spec_line_coordinates(reversed(s))->0;
            &&& r.key == c.key
            &&& r.start == c.end
            &&& r.end == c.start
        },
{
    let t = reversed(s);
    assert(abs_nat(seg_delta(t, 0)) == abs_nat(seg_delta(s, 0)));
    assert(abs_nat(seg_delta(t, 1)) == abs_nat(seg_delta(s, 1)));
    assert(abs_nat(seg_delta(t, 2)) == abs_nat(seg_delta(s, 2)));
    assert(seg_divisor(t) == seg_divisor(s));
    if seg_divisor(s) > 0 {
        lemma_reduced_nonzero(s);
        assert(seg_reduced(t, 0) == -seg_reduced(s, 0));
        assert(seg_reduced(t, 1) == -seg_reduced(s, 1));
        assert(seg_reduced(t, 2) == -seg_reduced(s, 2));
        assert(seg_unit(t, 0) == seg_unit(s, 0));
        assert(seg_unit(t, 1) == seg_unit(s, 1));
        assert(seg_unit(t, 2) == seg_unit(s, 2));
        assert(seg_direction(t) == seg_direction(s));
        lemma_endpoints_on_line(s);
        assert(seg_key(t) == seg_key(s));
    }
}

/// The product of a coordinate bounded by `2^62` and a direction component bounded
/// by `2^63` is bounded by `2^125`.
proof fn lemma_bounded_product(a: int, b: int)
    requires
        -0x4000_0000_0000_0000int <= a <= 0x4000_0000_0000_0000int,
        -0x8000_0000_0000_0000int <= b <= 0x8000_0000_0000_0000int,
    ensures
        -0x2000_0000_0000_0000_0000_0000_0000_0000int <= a * b
            <= 0x2000_0000_0000_0000_0000_0000_0000_0000int,
{
    assert(-0x2000_0000_0000_0000_0000_0000_0000_0000int <= a * b
        <= 0x2000_0000_0000_0000_0000_0000_0000_0000int) by (nonlinear_arith)
        requires
            -0x4000_0000_0000_0000int <= a <= 0x4000_0000_0000_0000int,
            -0x8000_0000_0000_0000int <= b <= 0x8000_0000_0000_0000int,
    {
        if a >= 0 && b >= 0 {
            assert(a * b <= 0x4000_0000_0000_0000int * 0x8000_0000_0000_0000int);
        } else if a < 0 && b < 0 {
            assert(a * b <= 0x4000_0000_0000_0000int * 0x8000_0000_0000_0000int);
        } else if a < 0 {
            assert(a * b >= -0x4000_0000_0000_0000int * 0x8000_0000_0000_0000int);
        } else {
            assert(a * b >= 0x4000_0000_0000_0000int * -0x8000_0000_0000_0000int);
        }
    }
}

/// A reduced component is no larger in magnitude than the difference it reduces.
proof fn lemma_reduced_bounded(s: Segment, i: int)
    requires
        seg_divisor(s) > 0,
    ensures
        abs_nat(seg_reduced(s, i)) <= abs_nat(seg_delta(s, i)),
        seg_delta(s, i) == 0 ==> seg_reduced(s, i) == 0,
{
    let d = abs_nat(seg_delta(s, i));
    let g = seg_divisor(s);
    lemma_div_is_ordered_by_denominator(d as int, 1, g as int);
    assert(d as int / 1 == d);
    if d == 0 {
        assert(0int / (g as int) == 0) by {
            lemma_div_of0(g as int);
        }
    }
}

/// A horizontal segment whose endpoints have x and y in the overlay range can be
/// keyed without overflow, whatever its height.
pub proof fn lemma_flat_segment_fits(s: Segment)
    requires
        s.start[2] == s.end[2],
        -0x4000_0000_0000_0000 <= s.start[0] < 0x4000_0000_0000_0000,
        -0x4000_0000_0000_0000 <= s.start[1] < 0x4000_0000_0000_0000,
        -0x4000_0000_0000_0000 <= s.end[0] < 0x4000_0000_0000_0000,
        -0x4000_0000_0000_0000 <= s.end[1] < 0x4000_0000_0000_0000,
    ensures
        segment_fits(s),
{
    if seg_divisor(s) > 0 {
        lemma_reduced_bounded(s, 0);
        lemma_reduced_bounded(s, 1);
        lemma_reduced_bounded(s, 2);
        let d = seg_direction(s);
        assert(seg_unit(s, 2) == 0);
        assert(d[2] == 0);
        lemma_bounded_product(s.start[0] as int, d[0] as int);
        lemma_bounded_product(s.start[1] as int, d[1] as int);
        lemma_bounded_product(s.end[0] as int, d[0] as int);
        lemma_bounded_product(s.end[1] as int, d[1] as int);
        assert(s.start[2] * d[2] == 0) by (nonlinear_arith)
            requires
                d[2] == 0,
        ;
        assert(s.end[2] * d[2] == 0) by (nonlinear_arith)
            requires
                d[2] == 0,
        ;
    }
}

/// A vertical segment whose height difference fits in `i64` can be keyed without
/// overflow: its direction is `(0, 0, 1)`.
pub proof fn lemma_vertical_segment_fits(s: Segment)
    requires
        s.start[0] == s.end[0],
        s.start[1] == s.end[1],
        fits_i64(s.end[2] - s.start[2]),
    ensures
        segment_fits(s),
        seg_divisor(s) > 0 ==> seg_direction(s) == [0i64, 0i64, 1i64],
{
    lemma_gcd_zero(0);
    let dz = abs_nat(seg_delta(s, 2));
    lemma_gcd_zero(dz);
    assert(seg_divisor(s) == dz);
    if dz > 0 {
        lemma_div_by_self(dz as int);
        lemma_div_of0(dz as int);
        assert(seg_reduced(s, 0) == 0 && seg_reduced(s, 1) == 0);
        assert(seg_unit(s, 2) == 1);
        let d = seg_direction(s);
        assert(d =~= [0i64, 0i64, 1i64]);
        assert(s.start[0] * 0 == 0 && s.start[1] * 0 == 0 && s.end[0] * 0 == 0 && s.end[1] * 0 == 0)
            by (nonlinear_arith);
        assert(s.start[2] * 1 == s.start[2] && s.end[2] * 1 == s.end[2]) by (nonlinear_arith);
    }
}

} // verus!
