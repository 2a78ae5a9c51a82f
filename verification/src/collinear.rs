//! Line keys identify lines: two segments get the same key exactly when they lie on
//! one infinite line.
use crate::arith::{abs_nat, cross_at, gcd_nat, lemma_cross_term_fits, Point3};
use crate::lines::{
    lemma_delta_is_multiple, lemma_direction_leads_positive, lemma_reduced_nonzero, seg_delta,
    seg_direction, seg_divisor, seg_key, seg_leading_negative, seg_reduced, seg_unit, segment_fits,
    Segment,
};
use vstd::arithmetic::div_mod::lemma_fundamental_div_mod;
use vstd::arithmetic::mul::{
    lemma_mul_is_associative, lemma_mul_is_commutative, lemma_mul_is_distributive_add,
    lemma_mul_is_distributive_add_other_way,
};
use vstd::prelude::*;

verus! {

/// Component `i` of `(end - start) × (p - start)`.
pub open spec fn offset_cross(s: Segment, p: Point3, i: int) -> int {
    let d0 = seg_delta(s, 0);
    let d1 = seg_delta(s, 1);
    let d2 = seg_delta(s, 2);
    let w0 = p[0] - s.start[0];
    let w1 = p[1] - s.start[1];
    let w2 = p[2] - s.start[2];
    if i == 0 {
        d1 * w2 - d2 * w1
    } else if i == 1 {
        d2 * w0 - d0 * w2
    } else {
        d0 * w1 - d1 * w0
    }
}

/// `p` lies on the infinite line through the endpoints of `s`.
pub open spec fn on_line_of(s: Segment, p: Point3) -> bool {
    offset_cross(s, p, 0) == 0 && offset_cross(s, p, 1) == 0 && offset_cross(s, p, 2) == 0
}

/// Both endpoints of `t` lie on the infinite line through the endpoints of `s`.
pub open spec fn same_line(s: Segment, t: Segment) -> bool {
    on_line_of(s, t.start) && on_line_of(s, t.end)
}

/// `m (a + b + c) = m a + m b + m c`, and the same with `m` on the right.
proof fn lemma_distribute3(m: int, a: int, b: int, c: int)
    ensures
        m * (a + b + c) == m * a + m * b + m * c,
        (a + b + c) * m == a * m + b * m + c * m,
{
    lemma_mul_is_distributive_add(m, a + b, c);
    lemma_mul_is_distributive_add(m, a, b);
    lemma_mul_is_distributive_add_other_way(m, a + b, c);
    lemma_mul_is_distributive_add_other_way(m, a, b);
}

/// Regrouping a product of three factors.
proof fn lemma_regroup(a: int, b: int, c: int)
    ensures
        (a * b) * c == a * (b * c),
        a * (b * c) == b * (a * c),
{
    lemma_mul_is_associative(a, b, c);
    lemma_mul_is_associative(b, a, c);
    lemma_mul_is_commutative(a, b);
}

/// Bezout's identity for `gcd_nat`.
proof fn lemma_bezout(a: nat, b: nat) -> (xy: (int, int))
    ensures
        xy.0 * a + xy.1 * b == gcd_nat(a, b),
    decreases b,
{
    if b == 0 {
        (1, 0)
    } else {
        let r = a % b;
        let (x, y) = lemma_bezout(b, r);
        lemma_fundamental_div_mod(a as int, b as int);
        let q = (a / b) as int;
        assert(y * a + (x - y * q) * b == x * b + y * r) by (nonlinear_arith)
            requires
                a == b * q + r,
        ;
        (y, x - y * q)
    }
}

/// The common divisor of a segment's differences is an integer combination of them.
proof fn lemma_delta_bezout(s: Segment) -> (c: (int, int, int))
    ensures
        c.0 * seg_delta(s, 0) + c.1 * seg_delta(s, 1) + c.2 * seg_delta(s, 2) == seg_divisor(s),
{
    let d0 = seg_delta(s, 0);
    let d1 = seg_delta(s, 1);
    let d2 = seg_delta(s, 2);
    let a = abs_nat(d0);
    let b = abs_nat(d1);
    let c = abs_nat(d2);
    let (x, y) = lemma_bezout(a, b);
    let h = gcd_nat(a, b);
    let (p, q) = lemma_bezout(h, c);
    let s0: int = if d0 < 0 { -1 } else { 1 };
    let s1: int = if d1 < 0 { -1 } else { 1 };
    let s2: int = if d2 < 0 { -1 } else { 1 };
    assert(a == s0 * d0 && b == s1 * d1 && c == s2 * d2);
    lemma_regroup(p * x, s0, d0);
    lemma_regroup(p, x, s0 * d0);
    lemma_regroup(p * y, s1, d1);
    lemma_regroup(p, y, s1 * d1);
    lemma_regroup(q, s2, d2);
    lemma_mul_is_distributive_add(p, x * a, y * b);
    (p * x * s0, p * y * s1, q * s2)
}

/// If `D = g u`, `x · D = g`, and `D × E = 0`, then `E = (x · E) u`.
proof fn lemma_parallel_multiple(
    d0: int, d1: int, d2: int, e0: int, e1: int, e2: int,
    x0: int, x1: int, x2: int, g: int, u0: int, u1: int, u2: int,
)
    requires
        g > 0,
        d0 == g * u0,
        d1 == g * u1,
        d2 == g * u2,
        x0 * d0 + x1 * d1 + x2 * d2 == g,
        d1 * e2 == d2 * e1,
        d2 * e0 == d0 * e2,
        d0 * e1 == d1 * e0,
    ensures
        e0 == (x0 * e0 + x1 * e1 + x2 * e2) * u0,
        e1 == (x0 * e0 + x1 * e1 + x2 * e2) * u1,
        e2 == (x0 * e0 + x1 * e1 + x2 * e2) * u2,
{
    let k = x0 * e0 + x1 * e1 + x2 * e2;
    lemma_distribute3(e0, x0 * d0, x1 * d1, x2 * d2);
    lemma_distribute3(e1, x0 * d0, x1 * d1, x2 * d2);
    lemma_distribute3(e2, x0 * d0, x1 * d1, x2 * d2);
    lemma_distribute3(d0, x0 * e0, x1 * e1, x2 * e2);
    lemma_distribute3(d1, x0 * e0, x1 * e1, x2 * e2);
    lemma_distribute3(d2, x0 * e0, x1 * e1, x2 * e2);
    lemma_regroup(x0, d0, e0);
    lemma_regroup(x1, d1, e0);
    lemma_regroup(x2, d2, e0);
    lemma_regroup(x0, d0, e1);
    lemma_regroup(x1, d1, e1);
    lemma_regroup(x2, d2, e1);
    lemma_regroup(x0, d0, e2);
    lemma_regroup(x1, d1, e2);
    lemma_regroup(x2, d2, e2);
    lemma_regroup(d0, x0, e0);
    lemma_regroup(d0, x1, e1);
    lemma_regroup(d0, x2, e2);
    lemma_regroup(d1, x0, e0);
    lemma_regroup(d1, x1, e1);
    lemma_regroup(d1, x2, e2);
    lemma_regroup(d2, x0, e0);
    lemma_regroup(d2, x1, e1);
    lemma_regroup(d2, x2, e2);
    lemma_mul_is_commutative(d1, e0);
    lemma_mul_is_commutative(d2, e0);
    lemma_mul_is_commutative(d0, e1);
    lemma_mul_is_commutative(d2, e1);
    lemma_mul_is_commutative(d0, e2);
    lemma_mul_is_commutative(d1, e2);
    assert(g * e0 == d0 * k);
    assert(g * e1 == d1 * k);
    assert(g * e2 == d2 * k);
    lemma_regroup(g, u0, k);
    lemma_regroup(g, u1, k);
    lemma_regroup(g, u2, k);
    lemma_mul_is_commutative(u0, k);
    lemma_mul_is_commutative(u1, k);
    lemma_mul_is_commutative(u2, k);
    lemma_cancel(g, e0, k * u0);
    lemma_cancel(g, e1, k * u1);
    lemma_cancel(g, e2, k * u2);
}

/// A non-zero factor cancels.
proof fn lemma_cancel(g: int, a: int, b: int)
    requires
        g != 0,
        g * a == g * b,
    ensures
        a == b,
{
    assert(g * (a - b) == g * a - g * b) by (nonlinear_arith);
    assert(a - b == 0) by (nonlinear_arith)
        requires
            g != 0,
            g * (a - b) == 0,
    ;
}

/// Parallel differences reduce to the same primitive vector up to sign.
proof fn lemma_parallel_reduced(s: Segment, t: Segment) -> (m: int)
    requires
        seg_divisor(s) > 0,
        seg_divisor(t) > 0,
        seg_delta(s, 1) * seg_delta(t, 2) == seg_delta(s, 2) * seg_delta(t, 1),
        seg_delta(s, 2) * seg_delta(t, 0) == seg_delta(s, 0) * seg_delta(t, 2),
        seg_delta(s, 0) * seg_delta(t, 1) == seg_delta(s, 1) * seg_delta(t, 0),
    ensures
        m == 1 || m == -1,
        m == 1 ==> seg_reduced(t, 0) == seg_reduced(s, 0) && seg_reduced(t, 1) == seg_reduced(s, 1)
            && seg_reduced(t, 2) == seg_reduced(s, 2),
        m == -1 ==> seg_reduced(t, 0) == -seg_reduced(s, 0) && seg_reduced(t, 1) == -seg_reduced(
            s,
            1,
        ) && seg_reduced(t, 2) == -seg_reduced(s, 2),
{
    lemma_delta_is_multiple(s);
    lemma_delta_is_multiple(t);
    let g = seg_divisor(s) as int;
    let h = seg_divisor(t) as int;
    let (d0, d1, d2) = (seg_delta(s, 0), seg_delta(s, 1), seg_delta(s, 2));
    let (e0, e1, e2) = (seg_delta(t, 0), seg_delta(t, 1), seg_delta(t, 2));
    let (u0, u1, u2) = (seg_reduced(s, 0), seg_reduced(s, 1), seg_reduced(s, 2));
    let (v0, v1, v2) = (seg_reduced(t, 0), seg_reduced(t, 1), seg_reduced(t, 2));
    let (x0, x1, x2) = lemma_delta_bezout(s);
    let (y0, y1, y2) = lemma_delta_bezout(t);
    lemma_parallel_multiple(d0, d1, d2, e0, e1, e2, x0, x1, x2, g, u0, u1, u2);
    let k = x0 * e0 + x1 * e1 + x2 * e2;
    let m = x0 * v0 + x1 * v1 + x2 * v2;
    let n = y0 * u0 + y1 * u1 + y2 * u2;
    lemma_regroup(x0, h, v0);
    lemma_regroup(x1, h, v1);
    lemma_regroup(x2, h, v2);
    lemma_distribute3(h, x0 * v0, x1 * v1, x2 * v2);
    assert(k == h * m);
    lemma_regroup(y0, k, u0);
    lemma_regroup(y1, k, u1);
    lemma_regroup(y2, k, u2);
    lemma_distribute3(k, y0 * u0, y1 * u1, y2 * u2);
    assert(h == k * n);
    lemma_regroup(h, m, n);
    assert(h * 1 == h * (m * n));
    lemma_cancel(h, 1, m * n);
    assert(m == 1 || m == -1) by (nonlinear_arith)
        requires
            m * n == 1,
    ;
    lemma_regroup(h, m, u0);
    lemma_regroup(h, m, u1);
    lemma_regroup(h, m, u2);
    lemma_cancel(h, v0, m * u0);
    lemma_cancel(h, v1, m * u1);
    lemma_cancel(h, v2, m * u2);
    assert(m == 1 ==> m * u0 == u0 && m * u1 == u1 && m * u2 == u2) by (nonlinear_arith);
    assert(m == -1 ==> m * u0 == -u0 && m * u1 == -u1 && m * u2 == -u2) by (nonlinear_arith);
    m
}

/// Segments with parallel differences get the same normalised direction.
proof fn lemma_parallel_same_direction(s: Segment, t: Segment)
    requires
        seg_divisor(s) > 0,
        seg_divisor(t) > 0,
        seg_delta(s, 1) * seg_delta(t, 2) == seg_delta(s, 2) * seg_delta(t, 1),
        seg_delta(s, 2) * seg_delta(t, 0) == seg_delta(s, 0) * seg_delta(t, 2),
        seg_delta(s, 0) * seg_delta(t, 1) == seg_delta(s, 1) * seg_delta(t, 0),
    ensures
        seg_unit(s, 0) == seg_unit(t, 0),
        seg_unit(s, 1) == seg_unit(t, 1),
        seg_unit(s, 2) == seg_unit(t, 2),
{
    let m = lemma_parallel_reduced(s, t);
    lemma_reduced_nonzero(s);
    lemma_direction_leads_positive(s);
    lemma_direction_leads_positive(t);
    if seg_reduced(s, 0) != 0 {
    } else if seg_reduced(s, 1) != 0 {
    } else {
    }
}

/// Two segments with distinct endpoints get the same line key exactly when they lie
/// on one infinite line.
pub proof fn lemma_key_identifies_line(s: Segment, t: Segment)
    requires
        segment_fits(s),
        segment_fits(t),
        seg_divisor(s) > 0,
        seg_divisor(t) > 0,
    ensures
        seg_key(s) == seg_key(t) <==> same_line(s, t),
{
    lemma_delta_is_multiple(s);
    lemma_delta_is_multiple(t);
    let g = seg_divisor(s) as int;
    let h = seg_divisor(t) as int;
    let ss: int = if seg_leading_negative(s) { -1 } else { 1 };
    let st: int = if seg_leading_negative(t) { -1 } else { 1 };
    let ds = seg_direction(s);
    let dt = seg_direction(t);
    assert(ds[0] == seg_unit(s, 0) && ds[1] == seg_unit(s, 1) && ds[2] == seg_unit(s, 2));
    assert(dt[0] == seg_unit(t, 0) && dt[1] == seg_unit(t, 1) && dt[2] == seg_unit(t, 2));
    lemma_cross_term_fits(s.start[1], ds[2], s.start[2], ds[1]);
    lemma_cross_term_fits(s.start[2], ds[0], s.start[0], ds[2]);
    lemma_cross_term_fits(s.start[0], ds[1], s.start[1], ds[0]);
    lemma_cross_term_fits(t.start[1], dt[2], t.start[2], dt[1]);
    lemma_cross_term_fits(t.start[2], dt[0], t.start[0], dt[2]);
    lemma_cross_term_fits(t.start[0], dt[1], t.start[1], dt[0]);
    let ks = seg_key(s);
    let kt = seg_key(t);
    assert(ks.moment[0] == cross_at(s.start, ds, 0) && ks.moment[1] == cross_at(s.start, ds, 1)
        && ks.moment[2] == cross_at(s.start, ds, 2));
    assert(kt.moment[0] == cross_at(t.start, dt, 0) && kt.moment[1] == cross_at(t.start, dt, 1)
        && kt.moment[2] == cross_at(t.start, dt, 2));
    let (u0, u1, u2) = (seg_unit(s, 0), seg_unit(s, 1), seg_unit(s, 2));
    let (a0, a1, a2) = (s.start[0] as int, s.start[1] as int, s.start[2] as int);
    let (b0, b1, b2) = (t.start[0] as int, t.start[1] as int, t.start[2] as int);
    let (w0, w1, w2) = (b0 - a0, b1 - a1, b2 - a2);
    let (f0, f1, f2) = (t.end[0] - a0, t.end[1] - a1, t.end[2] - a2);
    let (d0, d1, d2) = (seg_delta(s, 0), seg_delta(s, 1), seg_delta(s, 2));
    let (e0, e1, e2) = (seg_delta(t, 0), seg_delta(t, 1), seg_delta(t, 2));
    let c = g * ss;
    assert(c != 0) by (nonlinear_arith)
        requires
            g > 0,
            ss == 1 || ss == -1,
            c == g * ss,
    ;
    assert(d0 == c * u0 && d1 == c * u1 && d2 == c * u2) by {
        assert(g * seg_reduced(s, 0) == (g * ss) * (ss * seg_reduced(s, 0))) by (nonlinear_arith)
            requires ss == 1 || ss == -1;
        assert(g * seg_reduced(s, 1) == (g * ss) * (ss * seg_reduced(s, 1))) by (nonlinear_arith)
            requires ss == 1 || ss == -1;
        assert(g * seg_reduced(s, 2) == (g * ss) * (ss * seg_reduced(s, 2))) by (nonlinear_arith)
            requires ss == 1 || ss == -1;
    }
    // The moment difference is `(t.start - s.start) × direction(s)`, and the first
    // offset cross is `c` times its negation.
    assert((c * u1) * w2 - (c * u2) * w1 == -c * (w1 * u2 - w2 * u1)) by (nonlinear_arith);
    assert((c * u2) * w0 - (c * u0) * w2 == -c * (w2 * u0 - w0 * u2)) by (nonlinear_arith);
    assert((c * u0) * w1 - (c * u1) * w0 == -c * (w0 * u1 - w1 * u0)) by (nonlinear_arith);
    assert(offset_cross(s, t.start, 0) == -c * (w1 * u2 - w2 * u1));
    assert(offset_cross(s, t.start, 1) == -c * (w2 * u0 - w0 * u2));
    assert(offset_cross(s, t.start, 2) == -c * (w0 * u1 - w1 * u0));
    assert(cross_at(t.start, ds, 0) - cross_at(s.start, ds, 0) == w1 * u2 - w2 * u1
        && cross_at(t.start, ds, 1) - cross_at(s.start, ds, 1) == w2 * u0 - w0 * u2
        && cross_at(t.start, ds, 2) - cross_at(s.start, ds, 2) == w0 * u1 - w1 * u0) by (nonlinear_arith)
        requires
            cross_at(t.start, ds, 0) == b1 * u2 - b2 * u1,
            cross_at(t.start, ds, 1) == b2 * u0 - b0 * u2,
            cross_at(t.start, ds, 2) == b0 * u1 - b1 * u0,
            cross_at(s.start, ds, 0) == a1 * u2 - a2 * u1,
            cross_at(s.start, ds, 1) == a2 * u0 - a0 * u2,
            cross_at(s.start, ds, 2) == a0 * u1 - a1 * u0,
            w0 == b0 - a0,
            w1 == b1 - a1,
            w2 == b2 - a2,
    ;
    // `t.end - s.start` is `(t.start - s.start) + (end - start of t)`.
    assert(offset_cross(s, t.end, 0) == offset_cross(s, t.start, 0) + (d1 * e2 - d2 * e1)
        && offset_cross(s, t.end, 1) == offset_cross(s, t.start, 1) + (d2 * e0 - d0 * e2)
        && offset_cross(s, t.end, 2) == offset_cross(s, t.start, 2) + (d0 * e1 - d1 * e0))
        by (nonlinear_arith)
        requires
            offset_cross(s, t.start, 0) == d1 * w2 - d2 * w1,
            offset_cross(s, t.start, 1) == d2 * w0 - d0 * w2,
            offset_cross(s, t.start, 2) == d0 * w1 - d1 * w0,
            offset_cross(s, t.end, 0) == d1 * f2 - d2 * f1,
            offset_cross(s, t.end, 1) == d2 * f0 - d0 * f2,
            offset_cross(s, t.end, 2) == d0 * f1 - d1 * f0,
            f0 == w0 + e0,
            f1 == w1 + e1,
            f2 == w2 + e2,
    ;
    if seg_key(s) == seg_key(t) {
        // Equal directions make the differences parallel; equal moments put the start
        // of `t` on the line of `s`.
        assert(seg_unit(t, 0) == u0 && seg_unit(t, 1) == u1 && seg_unit(t, 2) == u2);
        let ct = h * st;
        assert(e0 == ct * u0 && e1 == ct * u1 && e2 == ct * u2) by {
            assert(h * seg_reduced(t, 0) == (h * st) * (st * seg_reduced(t, 0))) by (nonlinear_arith)
                requires st == 1 || st == -1;
            assert(h * seg_reduced(t, 1) == (h * st) * (st * seg_reduced(t, 1))) by (nonlinear_arith)
                requires st == 1 || st == -1;
            assert(h * seg_reduced(t, 2) == (h * st) * (st * seg_reduced(t, 2))) by (nonlinear_arith)
                requires st == 1 || st == -1;
        }
        assert(d1 * e2 - d2 * e1 == 0 && d2 * e0 - d0 * e2 == 0 && d0 * e1 - d1 * e0 == 0)
            by (nonlinear_arith)
            requires
                d0 == c * u0,
                d1 == c * u1,
                d2 == c * u2,
                e0 == ct * u0,
                e1 == ct * u1,
                e2 == ct * u2,
        ;
        assert(cross_at(t.start, ds, 0) == cross_at(s.start, ds, 0));
        assert(cross_at(t.start, ds, 1) == cross_at(s.start, ds, 1));
        assert(cross_at(t.start, ds, 2) == cross_at(s.start, ds, 2));
        assert(offset_cross(s, t.start, 0) == 0 && offset_cross(s, t.start, 1) == 0
            && offset_cross(s, t.start, 2) == 0) by (nonlinear_arith)
            requires
                offset_cross(s, t.start, 0) == -c * (w1 * u2 - w2 * u1),
                offset_cross(s, t.start, 1) == -c * (w2 * u0 - w0 * u2),
                offset_cross(s, t.start, 2) == -c * (w0 * u1 - w1 * u0),
                w1 * u2 - w2 * u1 == 0,
                w2 * u0 - w0 * u2 == 0,
                w0 * u1 - w1 * u0 == 0,
        ;
    }
    if same_line(s, t) {
        assert(d1 * e2 - d2 * e1 == 0 && d2 * e0 - d0 * e2 == 0 && d0 * e1 - d1 * e0 == 0);
        assert(d1 * e2 == d2 * e1 && d2 * e0 == d0 * e2 && d0 * e1 == d1 * e0);
        lemma_parallel_same_direction(s, t);
        assert(ds == dt);
        assert(w1 * u2 - w2 * u1 == 0 && w2 * u0 - w0 * u2 == 0 && w0 * u1 - w1 * u0 == 0)
            by (nonlinear_arith)
            requires
                c != 0,
                0 == -c * (w1 * u2 - w2 * u1),
                0 == -c * (w2 * u0 - w0 * u2),
                0 == -c * (w0 * u1 - w1 * u0),
        ;
        assert(ks.moment == kt.moment);
        assert(ks.direction == kt.direction);
    }
}

} // verus!
