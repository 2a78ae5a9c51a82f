//! Laws of the shoelace area: it does not depend on where a closed contour starts,
//! nor on where the contour lies.
use crate::arith::fits_i64;
use crate::scene::{
    area_partial, area_term, area_terms, lemma_area_partial_is_sum, lemma_sum_concat, seq_sum,
    twice_area,
};
use crate::wire::ContourView;
use vstd::arithmetic::div_mod::{lemma_mod_self_0, lemma_small_mod};
use vstd::prelude::*;

verus! {

/// The contour `c` started at its `r`-th point instead of its first.
pub open spec fn rotated(c: ContourView, r: int) -> ContourView {
    c.subrange(r, c.len() as int) + c.subrange(0, r)
}

/// The contour `c` moved by `(dx, dy)`.
pub open spec fn shifted(c: ContourView, dx: int, dy: int) -> ContourView {
    Seq::new(c.len(), |k: int| [(c[k][0] + dx) as i64, (c[k][1] + dy) as i64])
}

/// Moving every point of `c` by `(dx, dy)` keeps it in `i64`.
pub open spec fn shift_fits(c: ContourView, dx: int, dy: int) -> bool {
    forall|k: int| 0 <= k < c.len() ==> fits_i64(#[trigger] c[k][0] + dx) && fits_i64(c[k][1] + dy)
}

proof fn lemma_twice_area_is_sum(c: ContourView)
    ensures
        twice_area(c) == seq_sum(area_terms(c)),
{
    lemma_area_partial_is_sum(c, c.len());
    assert(area_terms(c).take(c.len() as int) =~= area_terms(c));
}

/// The signed area of a closed contour does not depend on the point it starts at.
pub proof fn lemma_rotation_keeps_area(c: ContourView, r: int)
    requires
        0 <= r <= c.len(),
    ensures
        twice_area(rotated(c, r)) == twice_area(c),
{
    let n = c.len() as int;
    let rc = rotated(c, r);
    if r == 0 || r == n {
        assert(rc =~= c);
    } else {
        let t = area_terms(c);
        assert forall|k: int| 0 <= k < n implies #[trigger] area_terms(rc)[k] == (t.subrange(r, n)
            + t.subrange(0, r))[k] by {
            if k < n - r - 1 {
                assert((k + 1) % n == k + 1) by { lemma_small_mod((k + 1) as nat, n as nat); }
                assert((k + r + 1) % n == k + r + 1) by { lemma_small_mod((k + r + 1) as nat, n as nat); }
                assert(rc[k] == c[k + r]);
                assert(rc[k + 1] == c[k + r + 1]);
            } else if k == n - r - 1 {
                assert((k + 1) % n == k + 1) by { lemma_small_mod((k + 1) as nat, n as nat); }
                assert((n - 1 + 1) % n == 0) by { lemma_mod_self_0(n); }
                assert(rc[k] == c[n - 1]);
                assert(rc[k + 1] == c[0]);
            } else if k < n - 1 {
                assert((k + 1) % n == k + 1) by { lemma_small_mod((k + 1) as nat, n as nat); }
                assert((k - (n - r) + 1) % n == k - (n - r) + 1) by {
                    lemma_small_mod((k - (n - r) + 1) as nat, n as nat);
                }
                assert(rc[k] == c[k - (n - r)]);
                assert(rc[k + 1] == c[k - (n - r) + 1]);
            } else {
                assert((k + 1) % n == 0) by { lemma_mod_self_0(n); }
                assert(r % n == r) by { lemma_small_mod(r as nat, n as nat); }
                assert(rc[k] == c[r - 1]);
                assert(rc[0] == c[r]);
                assert((r - 1 + 1) % n == r);
            }
        }
        assert(area_terms(rc) =~= t.subrange(r, n) + t.subrange(0, r));
        assert(t =~= t.subrange(0, r) + t.subrange(r, n));
        lemma_sum_concat(t.subrange(r, n), t.subrange(0, r));
        lemma_sum_concat(t.subrange(0, r), t.subrange(r, n));
        lemma_twice_area_is_sum(c);
        lemma_twice_area_is_sum(rc);
    }
}

proof fn lemma_shifted_term(x0: int, y0: int, x1: int, y1: int, dx: int, dy: int)
    ensures
        (x0 + dx) * (y1 + dy) - (y0 + dy) * (x1 + dx) == x0 * y1 - y0 * x1 + dy * (x0 - x1) + dx
            * (y1 - y0),
{
    assert((x0 + dx) * (y1 + dy) - (y0 + dy) * (x1 + dx) == x0 * y1 - y0 * x1 + dy * (x0 - x1) + dx
        * (y1 - y0)) by (nonlinear_arith);
}

proof fn lemma_shift_partial(c: ContourView, dx: int, dy: int, m: nat)
    requires
        m < c.len(),
        shift_fits(c, dx, dy),
    ensures
        area_partial(shifted(c, dx, dy), m) == area_partial(c, m) + dy * (c[0][0] - c[m as int][0])
            + dx * (c[m as int][1] - c[0][1]),
    decreases m,
{
    if m == 0 {
        assert(dy * (c[0][0] - c[0][0]) == 0) by (nonlinear_arith);
        assert(dx * (c[0][1] - c[0][1]) == 0) by (nonlinear_arith);
    } else {
        let n = c.len() as int;
        let sh = shifted(c, dx, dy);
        lemma_shift_partial(c, dx, dy, (m - 1) as nat);
        assert((m - 1 + 1) % n == m) by { lemma_small_mod(m, n as nat); }
        let a = c[m - 1];
        let b = c[m as int];
        assert(fits_i64(c[m - 1][0] + dx));
        assert(fits_i64(c[m as int][0] + dx));
        assert(sh[m - 1] == [(a[0] + dx) as i64, (a[1] + dy) as i64]);
        assert(sh[m as int] == [(b[0] + dx) as i64, (b[1] + dy) as i64]);
        lemma_shifted_term(a[0] as int, a[1] as int, b[0] as int, b[1] as int, dx, dy);
        assert(area_term(sh, m - 1) == area_term(c, m - 1) + dy * (a[0] - b[0]) + dx * (b[1] - a[1]));
        assert(area_partial(sh, m) == area_partial(sh, (m - 1) as nat) + area_term(sh, m - 1));
        assert(area_partial(c, m) == area_partial(c, (m - 1) as nat) + area_term(c, m - 1));
        assert(dy * (c[0][0] - a[0]) + dy * (a[0] - b[0]) == dy * (c[0][0] - b[0])) by (nonlinear_arith);
        assert(dx * (a[1] - c[0][1]) + dx * (b[1] - a[1]) == dx * (b[1] - c[0][1])) by (nonlinear_arith);
    }
}

/// The signed area of a closed contour does not change when the contour is moved.
pub proof fn lemma_translation_keeps_area(c: ContourView, dx: int, dy: int)
    requires
        shift_fits(c, dx, dy),
    ensures
        twice_area(shifted(c, dx, dy)) == twice_area(c),
{
    let n = c.len() as int;
    let sh = shifted(c, dx, dy);
    if n > 0 {
        lemma_shift_partial(c, dx, dy, (n - 1) as nat);
        assert((n - 1 + 1) % n == 0) by { lemma_mod_self_0(n); }
        let a = c[n - 1];
        let b = c[0];
        assert(fits_i64(c[n - 1][0] + dx));
        assert(fits_i64(c[0][0] + dx));
        assert(sh[n - 1] == [(a[0] + dx) as i64, (a[1] + dy) as i64]);
        assert(sh[0] == [(b[0] + dx) as i64, (b[1] + dy) as i64]);
        lemma_shifted_term(a[0] as int, a[1] as int, b[0] as int, b[1] as int, dx, dy);
        assert(dy * (b[0] - a[0]) + dy * (a[0] - b[0]) == 0) by (nonlinear_arith);
        assert(dx * (a[1] - b[1]) + dx * (b[1] - a[1]) == 0) by (nonlinear_arith);
    }
}

} // verus!
