//! Integer helpers: greatest common divisors and wide vector products.
use vstd::arithmetic::div_mod::*;
use vstd::arithmetic::mul::*;
use vstd::prelude::*;

verus! {

/// A three-dimensional point or vector with 64-bit integer components.
pub type Point3 = [i64; 3];

/// Greatest common divisor of two naturals (Euclid's recursion; `gcd(0, 0) == 0`).
pub open spec fn gcd_nat(a: nat, b: nat) -> nat
    decreases b,
{
    if b == 0 {
        a
    } else {
        gcd_nat(b, a % b)
    }
}

/// Absolute value as a natural number.
pub open spec fn abs_nat(v: int) -> nat {
    if v < 0 {
        (-v) as nat
    } else {
        v as nat
    }
}

/// `v` lies in the range of `i64`.
pub open spec fn fits_i64(v: int) -> bool {
    i64::MIN <= v <= i64::MAX
}

/// `v` lies in the range of `i128`.
pub open spec fn fits_i128(v: int) -> bool {
    i128::MIN <= v <= i128::MAX
}

/// Component `i` of the cross product `left × right`, over the integers.
pub open spec fn cross_at(left: Point3, right: Point3, i: int) -> int {
    if i == 0 {
        left[1] * right[2] - left[2] * right[1]
    } else if i == 1 {
        left[2] * right[0] - left[0] * right[2]
    } else {
        left[0] * right[1] - left[1] * right[0]
    }
}

/// The dot product `left · right`, over the integers.
pub open spec fn dot_int(left: Point3, right: Point3) -> int {
    left[0] * right[0] + left[1] * right[1] + left[2] * right[2]
}

/// The dot product can be accumulated left to right in `i128` without overflow.
pub open spec fn dot_fits(left: Point3, right: Point3) -> bool {
    &&& fits_i128(left[0] * right[0] + left[1] * right[1])
    &&& fits_i128(dot_int(left, right))
}

/// The greatest common divisor divides both of its arguments.
pub proof fn lemma_gcd_divides(a: nat, b: nat)
    ensures
        gcd_nat(a, b) > 0 ==> a % gcd_nat(a, b) == 0 && b % gcd_nat(a, b) == 0,
        gcd_nat(a, b) == 0 <==> (a == 0 && b == 0),
    decreases b,
{
    if b != 0 {
        let r = a % b;
        lemma_gcd_divides(b, r);
        let g = gcd_nat(a, b);
        assert(g == gcd_nat(b, r));
        if g > 0 {
            lemma_fundamental_div_mod(a as int, b as int);
            assert(a == b * (a / b) + r);
            lemma_mod_multiples_vanish_helper(b as int, (a / b) as int, r as int, g as int);
        }
    }
}

proof fn lemma_mod_multiples_vanish_helper(b: int, q: int, r: int, g: int)
    requires
        g > 0,
        b % g == 0,
        r % g == 0,
    ensures
        (b * q + r) % g == 0,
{
    lemma_mul_mod_noop_left(b, q, g);
    assert((b * q) % g == ((b % g) * q) % g);
    assert((b % g) * q == 0) by {
        lemma_mul_basics(q);
    }
    lemma_add_mod_noop(b * q, r, g);
    assert((b * q + r) % g == (((b * q) % g) + (r % g)) % g);
    assert(0int % g == 0) by {
        lemma_small_mod(0, g as nat);
    }
}

/// A positive greatest common divisor is no larger than either positive argument.
pub proof fn lemma_gcd_bounded(a: nat, b: nat)
    ensures
        a > 0 ==> gcd_nat(a, b) <= a,
        b > 0 ==> gcd_nat(a, b) <= b,
    decreases b,
{
    lemma_gcd_divides(a, b);
    let g = gcd_nat(a, b);
    if a > 0 {
        assert(g > 0);
        lemma_mod_is_zero_le(a, g);
    }
    if b > 0 {
        assert(g > 0);
        lemma_mod_is_zero_le(b, g);
    }
}

proof fn lemma_mod_is_zero_le(n: nat, d: nat)
    requires
        n > 0,
        d > 0,
        n % d == 0,
    ensures
        d <= n,
{
    lemma_fundamental_div_mod(n as int, d as int);
    assert(n == d * (n / d));
    if n / d == 0 {
        assert(d * 0 == 0);
    } else {
        assert(n / d >= 1) by {
            lemma_div_pos_is_pos(n as int, d as int);
        }
        lemma_mul_inequality(1, (n / d) as int, d as int);
        lemma_mul_is_commutative(d as int, (n / d) as int);
    }
}

/// `gcd(0, d) == d` and `gcd(d, 0) == d`.
pub proof fn lemma_gcd_zero(d: nat)
    ensures
        gcd_nat(0, d) == d,
        gcd_nat(d, 0) == d,
{
    if d != 0 {
        assert(0nat % d == 0) by {
            lemma_small_mod(0, d);
        }
        assert(gcd_nat(0, d) == gcd_nat(d, 0));
    }
}

/// Euclid's algorithm on unsigned 64-bit integers.
fn gcd_u64(a: u64, b: u64) -> (g: u64)
    ensures
        g as nat == gcd_nat(a as nat, b as nat),
{
    let mut left = a;
    let mut right = b;
    while right != 0
        invariant
            gcd_nat(left as nat, right as nat) == gcd_nat(a as nat, b as nat),
        decreases right,
    {
        let remainder = left % right;
        left = right;
        right = remainder;
    }
    left
}

/// The absolute value of a 64-bit integer, as an unsigned 64-bit integer.
pub fn unsigned_magnitude(v: i64) -> (m: u64)
    ensures
        m as nat == abs_nat(v as int),
{
    if v < 0 {
        (-(v as i128)) as u64
    } else {
        v as u64
    }
}

/// The greatest common divisor of `|left|` and `|right|`, returned as `i64`.
///
/// The only value that does not fit, `2^63` (the divisor of `i64::MIN` and `0` or
/// `i64::MIN`), wraps to `i64::MIN` as a two's-complement cast would.
pub fn gcd(left: i64, right: i64) -> (g: i64)
    ensures
        gcd_nat(abs_nat(left as int), abs_nat(right as int)) <= i64::MAX ==> g as int == gcd_nat(
            abs_nat(left as int),
            abs_nat(right as int),
        ),
        gcd_nat(abs_nat(left as int), abs_nat(right as int)) > i64::MAX ==> g == i64::MIN,
        g >= 0 || g == i64::MIN,
{
    let divisor = gcd_u64(unsigned_magnitude(left), unsigned_magnitude(right));
    if divisor > 0x7fff_ffff_ffff_ffffu64 {
        i64::MIN
    } else {
        divisor as i64
    }
}

/// The cross product of two integer vectors, computed in 128-bit arithmetic.
pub fn cross_wide(left: Point3, right: Point3) -> (product: [i128; 3])
    ensures
        product[0] as int == cross_at(left, right, 0),
        product[1] as int == cross_at(left, right, 1),
        product[2] as int == cross_at(left, right, 2),
{
    proof {
        lemma_cross_term_fits(left[1], right[2], left[2], right[1]);
        lemma_cross_term_fits(left[2], right[0], left[0], right[2]);
        lemma_cross_term_fits(left[0], right[1], left[1], right[0]);
    }
    [
        left[1] as i128 * right[2] as i128 - left[2] as i128 * right[1] as i128,
        left[2] as i128 * right[0] as i128 - left[0] as i128 * right[2] as i128,
        left[0] as i128 * right[1] as i128 - left[1] as i128 * right[0] as i128,
    ]
}

/// A difference of two products of 64-bit integers fits in `i128`.
pub proof fn lemma_cross_term_fits(a: i64, b: i64, c: i64, d: i64)
    ensures
        fits_i128(a * b),
        fits_i128(c * d),
        fits_i128(a * b - c * d),
{
    lemma_product_range(a, b);
    lemma_product_range(c, d);
}

/// The product of two 64-bit integers lies in `[-2^126 + 2^63, 2^126]`.
pub proof fn lemma_product_range(a: i64, b: i64)
    ensures
        -0x3fff_ffff_ffff_ffff_8000_0000_0000_0000int <= a * b,
        a * b <= 0x4000_0000_0000_0000_0000_0000_0000_0000int,
{
    assert(-0x3fff_ffff_ffff_ffff_8000_0000_0000_0000int <= a * b
        <= 0x4000_0000_0000_0000_0000_0000_0000_0000int) by (nonlinear_arith)
        requires
            -0x8000_0000_0000_0000int <= a <= 0x7fff_ffff_ffff_ffffint,
            -0x8000_0000_0000_0000int <= b <= 0x7fff_ffff_ffff_ffffint,
    {
        if a >= 0 && b >= 0 {
            assert(a * b <= 0x7fff_ffff_ffff_ffffint * 0x7fff_ffff_ffff_ffffint);
        } else if a < 0 && b < 0 {
            assert(a * b <= 0x8000_0000_0000_0000int * 0x8000_0000_0000_0000int);
        } else if a < 0 {
            assert(a * b >= -0x8000_0000_0000_0000int * 0x7fff_ffff_ffff_ffffint);
        } else {
            assert(a * b >= 0x7fff_ffff_ffff_ffffint * -0x8000_0000_0000_0000int);
        }
    }
}

/// The dot product of two integer vectors, computed in 128-bit arithmetic.
pub fn dot_wide(left: Point3, right: Point3) -> (product: i128)
    requires
        dot_fits(left, right),
    ensures
        product as int == dot_int(left, right),
{
    proof {
        lemma_product_range(left[0], right[0]);
        lemma_product_range(left[1], right[1]);
        lemma_product_range(left[2], right[2]);
    }
    left[0] as i128 * right[0] as i128 + left[1] as i128 * right[1] as i128 + left[2] as i128
        * right[2] as i128
}

} // verus!
