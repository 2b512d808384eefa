//! A longitude that is taken to the plane and back comes back but for
//! rounding.

use vstd::prelude::*;
use vstd::arithmetic::power2::{
    pow2,
    lemma2_to64,
    lemma2_to64_rest,
    lemma_pow2_pos,
    lemma_pow2_adds,
    lemma_pow2_strictly_increases,
};
use crate::accuracy::{close, distance, lemma_product_is_close, lemma_quotient_is_close};
use crate::convert::{
    degrees,
    number,
    radians,
    to_degrees_factor,
    to_radians_factor,
    PI_BITS,
    RADIUS_BITS,
};
use crate::arithmetic::lemma_nearest_zero;
use crate::float::Float;
use crate::rounding::{lemma_cancel_le, lemma_pow2_monotone, units};
use crate::types::HALF_TURN_BITS;

verus! {

proof fn lemma_scale(a: int, b: int, k: int)
    requires
        a <= b,
        k >= 0,
    ensures
        a * k <= b * k,
{
    assert(a * k <= b * k) by (nonlinear_arith)
        requires
            a <= b,
            k >= 0,
    ;
}

proof fn lemma_scale_lt(a: int, b: int, k: int)
    requires
        a < b,
        k > 0,
    ensures
        a * k < b * k,
{
    assert(a * k < b * k) by (nonlinear_arith)
        requires
            a < b,
            k > 0,
    ;
}

/// `a * m <= b * n` and `b * s <= c * t` give `a * (m * s) <= c * (n * t)`.
proof fn lemma_compose(a: int, b: int, c: int, m: int, n: int, s: int, t: int)
    requires
        s >= 0,
        n >= 0,
        a * m <= b * n,
        b * s <= c * t,
    ensures
        a * (m * s) <= c * (n * t),
{
    lemma_scale(a * m, b * n, s);
    lemma_scale(b * s, c * t, n);
    assert((a * m) * s == a * (m * s)) by (nonlinear_arith);
    assert((b * n) * s == (b * s) * n) by (nonlinear_arith);
    assert((c * t) * n == c * (n * t)) by (nonlinear_arith);
}

/// Four roundings in a row. Where each number `y` is at most the one before
/// it times `(q * n) / (p * d)`, the last is at most the first times the
/// product of the four.
proof fn lemma_four_roundings(
    p: int,
    q: int,
    y0: int,
    y1: int,
    y2: int,
    y3: int,
    y4: int,
    n1: int,
    n2: int,
    n3: int,
    n4: int,
    d1: int,
    d2: int,
    d3: int,
    d4: int,
)
    requires
        p > 0,
        q > 0,
        n1 > 0,
        n2 > 0,
        n3 > 0,
        n4 > 0,
        d1 > 0,
        d2 > 0,
        d3 > 0,
        d4 > 0,
        y1 * (p * d1) <= y0 * (q * n1),
        y2 * (p * d2) <= y1 * (q * n2),
        y3 * (p * d3) <= y2 * (q * n3),
        y4 * (p * d4) <= y3 * (q * n4),
    ensures
        y4 * (((p * p) * (p * p)) * ((d1 * d2) * (d3 * d4))) <= y0 * (((q * q) * (q * q)) * ((n1
            * n2) * (n3 * n4))),
{
    assert(p * d2 >= 0 && p * d3 >= 0 && p * d4 >= 0 && q * n1 >= 0 && q * n2 >= 0 && q * n3 >= 0)
        by (nonlinear_arith)
        requires
            p > 0,
            q > 0,
            n1 > 0,
            n2 > 0,
            n3 > 0,
            d2 > 0,
            d3 > 0,
            d4 > 0,
    ;
    lemma_compose(y2, y1, y0, p * d2, q * n2, p * d1, q * n1);
    lemma_compose(y4, y3, y2, p * d4, q * n4, p * d3, q * n3);
    let pa = (p * d2) * (p * d1);
    let qa = (q * n2) * (q * n1);
    let pb = (p * d4) * (p * d3);
    let qb = (q * n4) * (q * n3);
    assert(pa >= 0 && qb >= 0) by (nonlinear_arith)
        requires
            pa == (p * d2) * (p * d1),
            qb == (q * n4) * (q * n3),
            p > 0,
            q > 0,
            d1 > 0,
            d2 > 0,
            n3 > 0,
            n4 > 0,
    ;
    lemma_compose(y4, y2, y0, pb, qb, pa, qa);
    let pp = p * p;
    let qq = q * q;
    let da = d1 * d2;
    let db = d3 * d4;
    let na = n1 * n2;
    let nb = n3 * n4;
    assert(pa == pp * da) by (nonlinear_arith)
        requires
            pa == (p * d2) * (p * d1),
            pp == p * p,
            da == d1 * d2,
    ;
    assert(pb == pp * db) by (nonlinear_arith)
        requires
            pb == (p * d4) * (p * d3),
            pp == p * p,
            db == d3 * d4,
    ;
    assert(qa == qq * na) by (nonlinear_arith)
        requires
            qa == (q * n2) * (q * n1),
            qq == q * q,
            na == n1 * n2,
    ;
    assert(qb == qq * nb) by (nonlinear_arith)
        requires
            qb == (q * n4) * (q * n3),
            qq == q * q,
            nb == n3 * n4,
    ;
    assert((pp * db) * (pp * da) == (pp * pp) * (da * db)) by (nonlinear_arith);
    assert((qq * nb) * (qq * na) == (qq * qq) * (na * nb)) by (nonlinear_arith);
}

/// Four roundings in a row with factors that are themselves rounded: where
/// the product `n` of the factors is at most the product `d` of the divisors
/// times the square of `q / p`, the last number is at most the first times
/// the sixth power of `q / p`.
proof fn lemma_six_roundings(p: int, q: int, y0: int, y4: int, n: int, d: int)
    requires
        p > 0,
        q > 0,
        y0 >= 0,
        d > 0,
        y4 * (((p * p) * (p * p)) * d) <= y0 * (((q * q) * (q * q)) * n),
        n * (p * p) <= d * (q * q),
    ensures
        y4 * (((p * p) * (p * p)) * (p * p)) <= y0 * (((q * q) * (q * q)) * (q * q)),
{
    let pp = p * p;
    let qq = q * q;
    let pppp = pp * pp;
    let qqqq = qq * qq;
    assert(pp > 0 && qq > 0) by (nonlinear_arith)
        requires
            pp == p * p,
            qq == q * q,
            p > 0,
            q > 0,
    ;
    assert(qqqq > 0) by (nonlinear_arith)
        requires
            qqqq == qq * qq,
            qq > 0,
    ;
    assert(y0 * qqqq >= 0) by (nonlinear_arith)
        requires
            y0 >= 0,
            qqqq > 0,
    ;
    lemma_scale(y4 * (pppp * d), y0 * (qqqq * n), pp);
    lemma_scale(n * pp, d * qq, y0 * qqqq);
    assert((y0 * (qqqq * n)) * pp == (n * pp) * (y0 * qqqq)) by (nonlinear_arith);
    assert((d * qq) * (y0 * qqqq) == (y0 * (qqqq * qq)) * d) by (nonlinear_arith);
    assert((y4 * (pppp * d)) * pp == (y4 * (pppp * pp)) * d) by (nonlinear_arith);
    lemma_cancel_le(y4 * (pppp * pp), y0 * (qqqq * qq), d);
}

/// What one rounding allows, as products: with `t` for `2^53`, the rounded
/// number times the divisor lies between `t - 1` and `t + 1` parts of `t`
/// of the dividend, and so between half and twice the dividend.
proof fn lemma_close(x: nat, n: nat, d: nat)
    requires
        close(x, n, d),
    ensures
        0x20_0000_0000_0000 * (x * d) <= 0x20_0000_0000_0001 * n,
        0x1F_FFFF_FFFF_FFFF * n <= 0x20_0000_0000_0000 * (x * d),
        x * d <= 2 * n,
        n <= 2 * (x * d),
{
    lemma2_to64();
    lemma2_to64_rest();
}

/// The encodings of pi, of 180 and of the radius, in units.
proof fn lemma_constants()
    ensures
        3 * pow2(1074) <= units(PI_BITS as nat) <= 4 * pow2(1074),
        units(HALF_TURN_BITS as nat) == 180 * pow2(1074),
        units(RADIUS_BITS as nat) == 6378137 * pow2(1074),
{
    lemma2_to64();
    lemma2_to64_rest();
    let w = pow2(1023);
    lemma_pow2_adds(51, 1023);
    assert((PI_BITS as nat) % 0x10_0000_0000_0000 == 0x9_21FB_5444_2D18);
    assert((PI_BITS as nat) / 0x10_0000_0000_0000 == 1024);
    assert(units(PI_BITS as nat) == 0x19_21FB_5444_2D18 * w);
    assert(3 * pow2(1074) <= 0x19_21FB_5444_2D18 * w <= 4 * pow2(1074)) by (nonlinear_arith)
        requires
            pow2(1074) == 0x8_0000_0000_0000 * w,
            w >= 0,
    ;
    lemma_pow2_adds(45, 1029);
    assert((HALF_TURN_BITS as nat) % 0x10_0000_0000_0000 == 0x6_8000_0000_0000);
    assert((HALF_TURN_BITS as nat) / 0x10_0000_0000_0000 == 1030);
    assert(units(HALF_TURN_BITS as nat) == 0x16_8000_0000_0000 * pow2(1029));
    assert(0x16_8000_0000_0000 * pow2(1029) == 180 * pow2(1074)) by (nonlinear_arith)
        requires
            pow2(1074) == 0x2000_0000_0000 * pow2(1029),
    ;
    lemma_pow2_adds(30, 1044);
    assert((RADIUS_BITS as nat) % 0x10_0000_0000_0000 == 0x8_54A6_4000_0000);
    assert((RADIUS_BITS as nat) / 0x10_0000_0000_0000 == 1045);
    assert(units(RADIUS_BITS as nat) == 0x18_54A6_4000_0000 * pow2(1044));
    assert(0x18_54A6_4000_0000 * pow2(1044) == 6378137 * pow2(1074)) by (nonlinear_arith)
        requires
            pow2(1074) == 0x4000_0000 * pow2(1044),
    ;
}

/// The two factors are positive and finite, each its exact quotient but for
/// one rounding.
proof fn lemma_factors()
    ensures
        to_radians_factor().spec_is_finite(),
        !to_radians_factor().spec_is_sign_negative(),
        to_degrees_factor().spec_is_finite(),
        !to_degrees_factor().spec_is_sign_negative(),
        close(
            to_radians_factor().units(),
            units(PI_BITS as nat) * pow2(1074),
            units(HALF_TURN_BITS as nat),
        ),
        close(
            to_degrees_factor().units(),
            units(HALF_TURN_BITS as nat) * pow2(1074),
            units(PI_BITS as nat),
        ),
        16 * to_radians_factor().units() <= pow2(1074) <= 120 * to_radians_factor().units(),
        16 * pow2(1074) <= to_degrees_factor().units() <= 120 * pow2(1074),
{
    let u: int = pow2(1074) as int;
    let a: int = units(PI_BITS as nat) as int;
    let h: int = units(HALF_TURN_BITS as nat) as int;
    let pi = number(PI_BITS);
    let half = number(HALF_TURN_BITS);
    lemma_constants();
    lemma2_to64();
    lemma2_to64_rest();
    lemma_pow2_strictly_increases(60, 1074);
    lemma_pow2_strictly_increases(1074, 2097);
    assert(pi.spec_is_finite() && half.spec_is_finite());
    assert(pi.units() == a && half.units() == h);
    // pi by 180
    assert(a * u >= pow2(52) * h) by (nonlinear_arith)
        requires
            3 * u <= a,
            h == 180 * u,
            u >= 0x1000_0000_0000_0000,
            pow2(52) == 0x10_0000_0000_0000,
    ;
    assert(a * u < pow2(2097) * h) by (nonlinear_arith)
        requires
            0 <= a <= 4 * u,
            h == 180 * u,
            u > 0,
            u < pow2(2097),
    ;
    lemma_quotient_is_close(pi, half);
    let c1: int = to_radians_factor().units() as int;
    lemma_close(c1 as nat, (a * u) as nat, h as nat);
    assert((180 * c1) * u <= (8 * u) * u && (3 * u) * u <= (360 * c1) * u) by (nonlinear_arith)
        requires
            c1 * h <= 2 * (a * u),
            a * u <= 2 * (c1 * h),
            3 * u <= a <= 4 * u,
            h == 180 * u,
            u > 0,
    ;
    lemma_cancel_le(180 * c1, 8 * u, u);
    lemma_cancel_le(3 * u, 360 * c1, u);
    // 180 by pi
    lemma_pow2_adds(6, 1074);
    lemma_pow2_monotone(1080, 2097);
    assert(h * u >= pow2(52) * a) by (nonlinear_arith)
        requires
            0 <= a <= 4 * u,
            h == 180 * u,
            u >= 0x1000_0000_0000_0000,
            pow2(52) == 0x10_0000_0000_0000,
    ;
    assert(h * u < pow2(2097) * a) by (nonlinear_arith)
        requires
            3 * u <= a,
            h == 180 * u,
            u > 0,
            64 * u <= pow2(2097),
    ;
    lemma_quotient_is_close(half, pi);
    let c2: int = to_degrees_factor().units() as int;
    lemma_close(c2 as nat, (h * u) as nat, a as nat);
    assert((3 * c2) * u <= (360 * u) * u && (180 * u) * u <= (8 * c2) * u) by (nonlinear_arith)
        requires
            c2 * a <= 2 * (h * u),
            h * u <= 2 * (c2 * a),
            3 * u <= a <= 4 * u,
            h == 180 * u,
            u > 0,
            c2 >= 0,
    ;
    lemma_cancel_le(3 * c2, 360 * u, u);
    lemma_cancel_le(180 * u, 8 * c2, u);
}

/// A longitude in degrees taken to the plane and back.
pub open spec fn there_and_back(lon: Float) -> Float {
    degrees(number(RADIUS_BITS).spec_mul(radians(lon)).spec_div(number(RADIUS_BITS)))
}

/// The four numbers on the way of a longitude to the plane and back: the
/// radians, the planar `x`, `x` by the radius, and the degrees. Each is
/// finite and is what it is computed from but for one rounding, and the
/// last has the sign of the longitude.
proof fn lemma_four_steps(lon: Float)
    requires
        lon.spec_is_finite(),
        pow2(74) <= lon.units() <= pow2(2074),
    ensures
        ({
            let radius = number(RADIUS_BITS);
            let x1 = radians(lon);
            let x2 = radius.spec_mul(x1);
            let x3 = x2.spec_div(radius);
            let x4 = degrees(x3);
            &&& x4 == there_and_back(lon)
            &&& x4.spec_is_finite()
            &&& x4.spec_is_sign_negative() == lon.spec_is_sign_negative()
            &&& x1.units() > 0 && x2.units() > 0 && x3.units() > 0 && x4.units() > 0
            &&& close(x1.units(), lon.units() * to_radians_factor().units(), pow2(1074))
            &&& close(x2.units(), radius.units() * x1.units(), pow2(1074))
            &&& close(x3.units(), x2.units() * pow2(1074), radius.units())
            &&& close(x4.units(), x3.units() * to_degrees_factor().units(), pow2(1074))
        }),
{
    let radius = number(RADIUS_BITS);
    let f1 = radians(lon);
    let f2 = radius.spec_mul(f1);
    let f3 = f2.spec_div(radius);
    let f4 = degrees(f3);
    let u: int = pow2(1074) as int;
    let l: int = lon.units() as int;
    let r: int = radius.units() as int;
    let c1: int = to_radians_factor().units() as int;
    let c2: int = to_degrees_factor().units() as int;
    lemma_constants();
    lemma_factors();
    lemma2_to64();
    lemma2_to64_rest();
    lemma_pow2_pos(1074);
    lemma_pow2_adds(23, 2074);
    lemma_pow2_adds(22, 52);
    let top: int = pow2(2097) as int;
    let most: int = pow2(2074) as int;
    assert(top == 0x80_0000 * most);
    assert(radius.spec_is_finite());
    assert(r == 6378137 * u);
    // radians
    assert(l * c1 >= pow2(52) * u) by (nonlinear_arith)
        requires
            l >= 0x400_0000_0000_0000_0000,
            u <= 120 * c1,
            u > 0,
            pow2(52) == 0x10_0000_0000_0000,
    ;
    assert(l < top);
    lemma_scale_lt(l, top, u);
    assert(l * c1 <= l * u) by (nonlinear_arith)
        requires
            l >= 0,
            0 <= 16 * c1 <= u,
    ;
    lemma_product_is_close(lon, to_radians_factor());
    let x1: int = f1.units() as int;
    lemma_close(x1 as nat, (l * c1) as nat, u as nat);
    assert((8 * x1) * u <= l * u && l * u <= (240 * x1) * u) by (nonlinear_arith)
        requires
            x1 * u <= 2 * (l * c1),
            l * c1 <= 2 * (x1 * u),
            16 * c1 <= u <= 120 * c1,
            l >= 0,
            x1 >= 0,
            c1 >= 0,
    ;
    lemma_cancel_le(8 * x1, l, u);
    lemma_cancel_le(l, 240 * x1, u);
    // to the plane
    assert(r * x1 >= pow2(52) * u) by (nonlinear_arith)
        requires
            r == 6378137 * u,
            x1 >= pow2(52),
            u > 0,
    ;
    assert(6378137 * x1 < top);
    lemma_scale_lt(6378137 * x1, top, u);
    assert(r * x1 == (6378137 * x1) * u) by (nonlinear_arith)
        requires
            r == 6378137 * u,
    ;
    lemma_product_is_close(radius, f1);
    let x2: int = f2.units() as int;
    lemma_close(x2 as nat, (r * x1) as nat, u as nat);
    assert(x2 * u <= (12756274 * x1) * u && (6378137 * x1) * u <= (2 * x2) * u) by (nonlinear_arith)
        requires
            x2 * u <= 2 * (r * x1),
            r * x1 <= 2 * (x2 * u),
            r == 6378137 * u,
    ;
    lemma_cancel_le(x2, 12756274 * x1, u);
    lemma_cancel_le(6378137 * x1, 2 * x2, u);
    // by the radius
    let least: int = 0x10_0000_0000_0000int * 6378137int;
    assert(x2 >= least);
    lemma_scale(least, x2, u);
    assert(pow2(52) * r == least * u) by (nonlinear_arith)
        requires
            r == 6378137 * u,
            pow2(52) == 0x10_0000_0000_0000,
            least == 0x10_0000_0000_0000int * 6378137int,
    ;
    assert(x2 < top * 6378137);
    lemma_scale_lt(x2, top * 6378137, u);
    assert(top * r == (top * 6378137) * u) by (nonlinear_arith)
        requires
            r == 6378137 * u,
    ;
    assert(f2.units() > 0);
    lemma_quotient_is_close(f2, radius);
    let x3: int = f3.units() as int;
    lemma_close(x3 as nat, (x2 * u) as nat, r as nat);
    assert((6378137 * x3) * u <= (2 * x2) * u) by (nonlinear_arith)
        requires
            x3 * r <= 2 * (x2 * u),
            r == 6378137 * u,
    ;
    lemma_cancel_le(6378137 * x3, 2 * x2, u);
    // degrees
    assert(x3 * c2 >= pow2(52) * u) by (nonlinear_arith)
        requires
            x3 >= pow2(52),
            c2 >= 16 * u,
            u > 0,
            pow2(52) > 0,
    ;
    assert(120 * x3 < top);
    lemma_scale_lt(120 * x3, top, u);
    assert(x3 * c2 <= (120 * x3) * u) by (nonlinear_arith)
        requires
            0 <= c2 <= 120 * u,
            x3 >= 0,
    ;
    lemma_product_is_close(f3, to_degrees_factor());
}

/// A longitude of zero comes back as it went.
proof fn lemma_zero_comes_back(lon: Float)
    requires
        lon.spec_is_finite(),
        lon.units() == 0,
    ensures
        there_and_back(lon) == lon,
{
    let radius = number(RADIUS_BITS);
    let u = pow2(1074);
    lemma_constants();
    lemma_factors();
    lemma2_to64();
    lemma2_to64_rest();
    lemma_pow2_pos(1074);
    lemma_nearest_zero(u);
    lemma_nearest_zero(radius.units());
    assert(lon.magnitude() == 0) by {
        let mag = lon.magnitude();
        if mag != 0 {
            if mag >= 0x20_0000_0000_0000 {
                let e = ((mag / 0x10_0000_0000_0000) - 1) as nat;
                let sig = (mag % 0x10_0000_0000_0000) + 0x10_0000_0000_0000;
                lemma_pow2_pos(e);
                assert(sig * pow2(e) > 0) by (nonlinear_arith)
                    requires
                        sig > 0,
                        pow2(e) > 0,
                ;
            }
        }
    }
    let c1 = to_radians_factor().units();
    let c2 = to_degrees_factor().units();
    assert(0 * c1 == 0 && radius.units() * 0 == 0 && 0 * u == 0 && 0 * c2 == 0) by (nonlinear_arith);
    let f1 = radians(lon);
    assert(f1 == lon);
    let f2 = radius.spec_mul(f1);
    assert(f2 == lon);
    let f3 = f2.spec_div(radius);
    assert(f3 == lon);
}

/// A longitude comes back from the plane but for rounding.
///
/// For a finite longitude in degrees that is zero or of a magnitude between
/// `2^-1000` and `2^1000`, the longitude of its planar `x` has its sign and
/// differs from it by at most 7 parts in `2^53` of it; zero comes back as
/// zero.
pub proof fn lemma_longitude_comes_back(lon: Float)
    requires
        lon.spec_is_finite(),
        lon.units() == 0 || pow2(74) <= lon.units() <= pow2(2074),
    ensures
        there_and_back(lon).spec_is_finite(),
        there_and_back(lon).spec_is_sign_negative() == lon.spec_is_sign_negative(),
        pow2(53) * distance(there_and_back(lon).units() as int, lon.units() as int) <= 7
            * lon.units(),
{
    lemma2_to64();
    lemma2_to64_rest();
    if lon.units() == 0 {
        lemma_zero_comes_back(lon);
    } else {
        let radius = number(RADIUS_BITS);
        let f1 = radians(lon);
        let f2 = radius.spec_mul(f1);
        let f3 = f2.spec_div(radius);
        let f4 = degrees(f3);
        let u: int = pow2(1074) as int;
        let l: int = lon.units() as int;
        let r: int = radius.units() as int;
        let a: int = units(PI_BITS as nat) as int;
        let h: int = units(HALF_TURN_BITS as nat) as int;
        let c1: int = to_radians_factor().units() as int;
        let c2: int = to_degrees_factor().units() as int;
        let x1: int = f1.units() as int;
        let x2: int = f2.units() as int;
        let x3: int = f3.units() as int;
        let x4: int = f4.units() as int;
        let t: int = 0x20_0000_0000_0000;
        lemma_constants();
        lemma_factors();
        lemma_four_steps(lon);
        lemma_pow2_pos(1074);
        lemma_close(c1 as nat, (a * u) as nat, h as nat);
        lemma_close(c2 as nat, (h * u) as nat, a as nat);
        lemma_close(x1 as nat, (l * c1) as nat, u as nat);
        lemma_close(x2 as nat, (r * x1) as nat, u as nat);
        lemma_close(x3 as nat, (x2 * u) as nat, r as nat);
        lemma_close(x4 as nat, (x3 * c2) as nat, u as nat);
        assert(a > 0 && h > 0 && r > 0 && u > 0 && c1 > 0 && c2 > 0);
        lemma_not_above(t, t + 1, l, x1, x2, x3, x4, c1, c2, a, h, r, u);
        lemma_not_below(t - 1, t, l, x1, x2, x3, x4, c1, c2, a, h, r, u);
        let t2 = t * t;
        let t4 = t2 * t2;
        let t5 = t4 * t;
        let t6 = t4 * t2;
        let up = ((t + 1) * (t + 1)) * ((t + 1) * (t + 1)) * ((t + 1) * (t + 1));
        let down = ((t - 1) * (t - 1)) * ((t - 1) * (t - 1)) * ((t - 1) * (t - 1));
        assert(t6 == t5 * t && up <= t6 + 7 * t5 && down >= t6 - 7 * t5) by (nonlinear_arith)
            requires
                t == 0x20_0000_0000_0000,
                t2 == t * t,
                t4 == t2 * t2,
                t5 == t4 * t,
                t6 == t4 * t2,
                up == ((t + 1) * (t + 1)) * ((t + 1) * (t + 1)) * ((t + 1) * (t + 1)),
                down == ((t - 1) * (t - 1)) * ((t - 1) * (t - 1)) * ((t - 1) * (t - 1)),
        ;
        assert(t5 > 0) by (nonlinear_arith)
            requires
                t == 0x20_0000_0000_0000,
                t2 == t * t,
                t4 == t2 * t2,
                t5 == t4 * t,
        ;
        // x4 * t6 <= l * up and l * down <= x4 * t6
        assert(x4 * t6 <= l * up);
        assert(l * down <= x4 * t6);
        assert((t * (x4 - l)) * t5 <= (7 * l) * t5) by (nonlinear_arith)
            requires
                x4 * t6 <= l * up,
                up <= t6 + 7 * t5,
                t6 == t5 * t,
                l > 0,
        ;
        assert((t * (l - x4)) * t5 <= (7 * l) * t5) by (nonlinear_arith)
            requires
                l * down <= x4 * t6,
                down >= t6 - 7 * t5,
                t6 == t5 * t,
                l > 0,
        ;
        lemma_cancel_le(t * (x4 - l), 7 * l, t5);
        lemma_cancel_le(t * (l - x4), 7 * l, t5);
    }
}

/// The last of the numbers on the way is not above the longitude by more
/// than six roundings allow.
proof fn lemma_not_above(
    p: int,
    q: int,
    l: int,
    x1: int,
    x2: int,
    x3: int,
    x4: int,
    c1: int,
    c2: int,
    a: int,
    h: int,
    r: int,
    u: int,
)
    requires
        p > 0,
        q > 0,
        l > 0,
        x1 > 0,
        x2 > 0,
        x3 > 0,
        x4 > 0,
        c1 > 0,
        c2 > 0,
        a > 0,
        h > 0,
        r > 0,
        u > 0,
        p * (c1 * h) <= q * (a * u),
        p * (c2 * a) <= q * (h * u),
        p * (x1 * u) <= q * (l * c1),
        p * (x2 * u) <= q * (r * x1),
        p * (x3 * r) <= q * (x2 * u),
        p * (x4 * u) <= q * (x3 * c2),
    ensures
        x4 * (((p * p) * (p * p)) * (p * p)) <= l * (((q * q) * (q * q)) * (q * q)),
{
    assert(x1 * (p * u) == p * (x1 * u) && l * (q * c1) == q * (l * c1)) by (nonlinear_arith);
    assert(x2 * (p * u) == p * (x2 * u) && x1 * (q * r) == q * (r * x1)) by (nonlinear_arith);
    assert(x3 * (p * r) == p * (x3 * r) && x2 * (q * u) == q * (x2 * u)) by (nonlinear_arith);
    assert(x4 * (p * u) == p * (x4 * u) && x3 * (q * c2) == q * (x3 * c2)) by (nonlinear_arith);
    lemma_four_roundings(p, q, l, x1, x2, x3, x4, c1, r, u, c2, u, u, r, u);
    let n = (c1 * r) * (u * c2);
    let d = (u * u) * (r * u);
    lemma_factor_product(p, q, c1, c2, a, h, u);
    let ru = r * u;
    let uu = u * u;
    let cc = c1 * c2;
    assert(ru > 0 && uu > 0) by (nonlinear_arith)
        requires
            ru == r * u,
            uu == u * u,
            r > 0,
            u > 0,
    ;
    lemma_scale(cc * (p * p), uu * (q * q), ru);
    assert(n * (p * p) == (cc * (p * p)) * ru) by (nonlinear_arith)
        requires
            n == (c1 * r) * (u * c2),
            cc == c1 * c2,
            ru == r * u,
    ;
    assert(d * (q * q) == (uu * (q * q)) * ru) by (nonlinear_arith)
        requires
            d == (u * u) * (r * u),
            uu == u * u,
            ru == r * u,
    ;
    assert(d > 0) by (nonlinear_arith)
        requires
            d == uu * ru,
            uu > 0,
            ru > 0,
    ;
    lemma_six_roundings(p, q, l, x4, n, d);
}

/// The last of the numbers on the way is not below the longitude by more
/// than six roundings allow.
proof fn lemma_not_below(
    p: int,
    q: int,
    l: int,
    x1: int,
    x2: int,
    x3: int,
    x4: int,
    c1: int,
    c2: int,
    a: int,
    h: int,
    r: int,
    u: int,
)
    requires
        p > 0,
        q > 0,
        l > 0,
        x1 > 0,
        x2 > 0,
        x3 > 0,
        x4 > 0,
        c1 > 0,
        c2 > 0,
        a > 0,
        h > 0,
        r > 0,
        u > 0,
        p * (a * u) <= q * (c1 * h),
        p * (h * u) <= q * (c2 * a),
        p * (l * c1) <= q * (x1 * u),
        p * (r * x1) <= q * (x2 * u),
        p * (x2 * u) <= q * (x3 * r),
        p * (x3 * c2) <= q * (x4 * u),
    ensures
        l * (((p * p) * (p * p)) * (p * p)) <= x4 * (((q * q) * (q * q)) * (q * q)),
{
    assert(x3 * (p * c2) == p * (x3 * c2) && x4 * (q * u) == q * (x4 * u)) by (nonlinear_arith);
    assert(x2 * (p * u) == p * (x2 * u) && x3 * (q * r) == q * (x3 * r)) by (nonlinear_arith);
    assert(x1 * (p * r) == p * (r * x1) && x2 * (q * u) == q * (x2 * u)) by (nonlinear_arith);
    assert(l * (p * c1) == p * (l * c1) && x1 * (q * u) == q * (x1 * u)) by (nonlinear_arith);
    lemma_four_roundings(p, q, x4, x3, x2, x1, l, u, r, u, u, c2, u, r, c1);
    let n = (u * r) * (u * u);
    let d = (c2 * u) * (r * c1);
    lemma_factor_product_below(p, q, c1, c2, a, h, u);
    let ru = r * u;
    let uu = u * u;
    let cc = c1 * c2;
    assert(ru > 0 && uu > 0 && cc > 0) by (nonlinear_arith)
        requires
            ru == r * u,
            uu == u * u,
            cc == c1 * c2,
            r > 0,
            u > 0,
            c1 > 0,
            c2 > 0,
    ;
    lemma_scale(uu * (p * p), cc * (q * q), ru);
    assert(n * (p * p) == (uu * (p * p)) * ru) by (nonlinear_arith)
        requires
            n == (u * r) * (u * u),
            uu == u * u,
            ru == r * u,
    ;
    assert(d * (q * q) == (cc * (q * q)) * ru) by (nonlinear_arith)
        requires
            d == (c2 * u) * (r * c1),
            cc == c1 * c2,
            ru == r * u,
    ;
    assert(d > 0) by (nonlinear_arith)
        requires
            d == (c2 * u) * (r * c1),
            c1 > 0,
            c2 > 0,
            r > 0,
            u > 0,
    ;
    lemma_six_roundings(p, q, x4, l, n, d);
}

/// Where `c1` is at least `(p / q) * (a * u / h)` and `c2` at least
/// `(p / q) * (h * u / a)`, their product is at least `u * u` times the
/// square of `p / q`.
proof fn lemma_factor_product_below(p: int, q: int, c1: int, c2: int, a: int, h: int, u: int)
    requires
        p > 0,
        q > 0,
        c1 > 0,
        c2 > 0,
        a > 0,
        h > 0,
        u > 0,
        p * (a * u) <= q * (c1 * h),
        p * (h * u) <= q * (c2 * a),
    ensures
        (u * u) * (p * p) <= (c1 * c2) * (q * q),
{
    let pp = p * p;
    let qq = q * q;
    let ha = h * a;
    let uu = u * u;
    let cc = c1 * c2;
    let e1 = p * (a * u);
    let e2 = p * (h * u);
    let g1 = q * (c1 * h);
    let g2 = q * (c2 * a);
    assert(ha > 0 && e2 >= 0 && g1 >= 0) by (nonlinear_arith)
        requires
            ha == h * a,
            e2 == p * (h * u),
            g1 == q * (c1 * h),
            p > 0,
            q > 0,
            c1 > 0,
            a > 0,
            h > 0,
            u > 0,
    ;
    lemma_scale(e1, g1, e2);
    lemma_scale(e2, g2, g1);
    assert(e1 * e2 == (uu * pp) * ha) by (nonlinear_arith)
        requires
            e1 == p * (a * u),
            e2 == p * (h * u),
            uu == u * u,
            pp == p * p,
            ha == h * a,
    ;
    assert(g2 * g1 == (cc * qq) * ha) by (nonlinear_arith)
        requires
            g1 == q * (c1 * h),
            g2 == q * (c2 * a),
            cc == c1 * c2,
            qq == q * q,
            ha == h * a,
    ;
    assert(g1 * e2 == e2 * g1) by (nonlinear_arith);
    lemma_cancel_le(uu * pp, cc * qq, ha);
}

/// Where `c1` is at most `(q / p) * (a * u / h)` and `c2` at most
/// `(q / p) * (h * u / a)`, their product is at most `u * u` times the
/// square of `q / p`.
proof fn lemma_factor_product(p: int, q: int, c1: int, c2: int, a: int, h: int, u: int)
    requires
        p > 0,
        q > 0,
        c1 > 0,
        c2 > 0,
        a > 0,
        h > 0,
        u > 0,
        p * (c1 * h) <= q * (a * u),
        p * (c2 * a) <= q * (h * u),
    ensures
        (c1 * c2) * (p * p) <= (u * u) * (q * q),
{
    let pp = p * p;
    let qq = q * q;
    let ha = h * a;
    let uu = u * u;
    let cc = c1 * c2;
    let e1 = p * (c1 * h);
    let e2 = p * (c2 * a);
    let g1 = q * (a * u);
    let g2 = q * (h * u);
    assert(ha > 0 && e2 >= 0 && g1 >= 0) by (nonlinear_arith)
        requires
            ha == h * a,
            e2 == p * (c2 * a),
            g1 == q * (a * u),
            p > 0,
            q > 0,
            c2 > 0,
            a > 0,
            h > 0,
            u > 0,
    ;
    lemma_scale(e1, g1, e2);
    lemma_scale(e2, g2, g1);
    assert(e1 * e2 == (cc * pp) * ha) by (nonlinear_arith)
        requires
            e1 == p * (c1 * h),
            e2 == p * (c2 * a),
            cc == c1 * c2,
            pp == p * p,
            ha == h * a,
    ;
    assert(g2 * g1 == (uu * qq) * ha) by (nonlinear_arith)
        requires
            g1 == q * (a * u),
            g2 == q * (h * u),
            uu == u * u,
            qq == q * q,
            ha == h * a,
    ;
    assert(g1 * e2 == e2 * g1) by (nonlinear_arith);
    lemma_cancel_le(cc * pp, uu * qq, ha);
}

} // verus!
