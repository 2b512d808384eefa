//! What rounding to nearest keeps: a number of the encoding is rounded to
//! itself, the rounded number is within half a spacing of the exact one, no
//! other number is nearer, and of two that are equally near the even one is
//! taken.

use vstd::prelude::*;
use vstd::arithmetic::power2::{
    pow2,
    lemma2_to64,
    lemma2_to64_rest,
    lemma_pow2_pos,
    lemma_pow2_adds,
    lemma_pow2_unfold,
};
use vstd::arithmetic::div_mod::lemma_fundamental_div_mod;
use crate::arithmetic::signed;
use crate::float::{Float, INFINITY_BITS};
use crate::rounding::{
    lemma_cancel_le,
    lemma_pow2_monotone,
    lemma_quotient_at_least,
    lemma_quotient_below,
    lemma_quotient_between,
    lemma_spacing_exp,
    nearest,
    nearest_integer,
    spacing_exp,
    units,
    HIDDEN_BIT,
    SIGNIFICAND_LIMIT,
};

verus! {

/// The distance between two integers.
pub open spec fn distance(a: int, b: int) -> int {
    if a <= b {
        b - a
    } else {
        a - b
    }
}

/// Where the spacing is `2^k`, the number of units lies between `2^(52+k)`
/// and `2^(53+k)`, or below `2^53` where `k` is 0.
pub proof fn lemma_spacing_range(q: nat)
    ensures
        spacing_exp(q) == 0 ==> q < pow2(53),
        spacing_exp(q) > 0 ==> pow2(52 + spacing_exp(q)) <= q < pow2(53 + spacing_exp(q)),
    decreases q,
{
    lemma2_to64();
    lemma2_to64_rest();
    if q >= SIGNIFICAND_LIMIT {
        let k = spacing_exp(q / 2);
        lemma_spacing_range(q / 2);
        lemma_pow2_unfold(53 + k);
        lemma_pow2_unfold(54 + k);
        assert(spacing_exp(q) == 1 + k);
    }
}

/// The nearest integer is at most half a step from the ratio, and is the
/// whole part of the ratio or the next integer.
pub proof fn lemma_nearest_integer(n: nat, d: nat)
    requires
        d > 0,
    ensures
        2 * distance((nearest_integer(n, d) * d) as int, n as int) <= d,
        n / d <= nearest_integer(n, d) <= n / d + 1,
{
    let q = n as int / d as int;
    let r = n as int % d as int;
    lemma_fundamental_div_mod(n as int, d as int);
    assert(0 <= r < d);
    assert((q + 1) * d == d * q + d) by (nonlinear_arith);
    assert(q * d == d * q) by (nonlinear_arith);
}

/// How the rounded number is made up. With spacing `2^k` around the ratio
/// the ratio is rounded to `m` steps of the spacing: `m` is at most `2^53`,
/// and at least `2^52` where `k` is not 0. Unless that is beyond the largest
/// finite number, the rounded number is `m * 2^k` units.
pub proof fn lemma_nearest_steps(n: nat, d: nat)
    requires
        d > 0,
    ensures
        ({
            let k = spacing_exp(n / d);
            let m = nearest_integer(n, d * pow2(k));
            &&& m <= SIGNIFICAND_LIMIT
            &&& k > 0 ==> m >= HIDDEN_BIT
            &&& 2 * distance((m * (d * pow2(k))) as int, n as int) <= d * pow2(k)
            &&& k > 0 ==> pow2(52) * (d * pow2(k)) <= n
            &&& n < pow2(53) * (d * pow2(k))
            &&& k * HIDDEN_BIT + m < INFINITY_BITS ==> nearest(n, d) == k * HIDDEN_BIT + m
                && units(nearest(n, d)) == m * pow2(k)
        }),
{
    let q0 = n / d;
    let k = spacing_exp(q0);
    let s: nat = d * pow2(k);
    let m = nearest_integer(n, s);
    lemma2_to64();
    lemma2_to64_rest();
    lemma_pow2_pos(k);
    assert(s > 0) by (nonlinear_arith)
        requires
            s == d * pow2(k),
            d > 0,
            pow2(k) > 0,
    ;
    lemma_nearest_integer(n, s);
    lemma_spacing_range(q0);
    lemma_fundamental_div_mod(n as int, d as int);
    assert(d * q0 <= n < d * q0 + d);
    if k == 0 {
        assert(s == d) by (nonlinear_arith)
            requires
                s == d * pow2(k),
                pow2(k) == 1,
        ;
        assert(m <= SIGNIFICAND_LIMIT);
        assert(m * pow2(k) == m) by (nonlinear_arith)
            requires
                pow2(k) == 1,
        ;
        assert(n < pow2(53) * s) by (nonlinear_arith)
            requires
                q0 + 1 <= pow2(53),
                s == d,
                n < d * q0 + d,
                d > 0,
        ;
        if m < SIGNIFICAND_LIMIT {
            assert(units(m) == m);
        } else {
            assert(m == SIGNIFICAND_LIMIT);
            assert(m % (HIDDEN_BIT as nat) == 0);
            assert(m / (HIDDEN_BIT as nat) == 2);
            assert(HIDDEN_BIT * pow2(1) == m) by (nonlinear_arith)
                requires
                    pow2(1) == 2,
                    m == 2 * HIDDEN_BIT,
            ;
            assert(units(m) == m);
        }
    } else {
        lemma_pow2_adds(52, k);
        lemma_pow2_adds(53, k);
        // 2^52 * s <= n < 2^53 * s
        assert(pow2(52) * s <= n) by (nonlinear_arith)
            requires
                pow2(52 + k) <= q0,
                pow2(52 + k) == pow2(52) * pow2(k),
                s == d * pow2(k),
                d * q0 <= n,
                d > 0,
        ;
        assert(n < pow2(53) * s) by (nonlinear_arith)
            requires
                q0 + 1 <= pow2(53 + k),
                pow2(53 + k) == pow2(53) * pow2(k),
                s == d * pow2(k),
                n < d * q0 + d,
                d > 0,
        ;
        lemma_quotient_at_least(n as int, s as int, pow2(52) as int);
        lemma_quotient_below(n as int, s as int, pow2(53) as int);
        assert(HIDDEN_BIT <= m <= SIGNIFICAND_LIMIT);
        if k * HIDDEN_BIT + m < INFINITY_BITS {
            let bits: nat = (k * HIDDEN_BIT + m) as nat;
            assert(bits >= SIGNIFICAND_LIMIT);
            if m < SIGNIFICAND_LIMIT {
                assert(bits % (HIDDEN_BIT as nat) == m - HIDDEN_BIT);
                assert(bits / (HIDDEN_BIT as nat) == k + 1);
                assert(units(bits) == m * pow2(k));
            } else {
                assert(bits % (HIDDEN_BIT as nat) == 0);
                assert(bits / (HIDDEN_BIT as nat) == k + 2);
                lemma_pow2_unfold(k + 1);
                assert(HIDDEN_BIT * pow2(k + 1) == m * pow2(k)) by (nonlinear_arith)
                    requires
                        pow2(k + 1) == 2 * pow2(k),
                        m == 2 * HIDDEN_BIT,
                ;
                assert(units(bits) == m * pow2(k));
            }
        }
    }
}

/// Unless it is infinity, the rounded number is within half a spacing of
/// the ratio. Where the ratio is at least `2^52` units, the least number
/// with a full significand, the rounded number is as large and is within
/// the `2^53`rd part of the ratio.
pub proof fn lemma_rounding_error(n: nat, d: nat)
    requires
        d > 0,
        nearest(n, d) < INFINITY_BITS,
    ensures
        2 * distance((units(nearest(n, d)) * d) as int, n as int) <= d * pow2(spacing_exp(n / d)),
        n >= pow2(52) * d ==> units(nearest(n, d)) >= pow2(52),
        n >= pow2(52) * d ==> pow2(53) * distance((units(nearest(n, d)) * d) as int, n as int)
            <= n,
{
    let k = spacing_exp(n / d);
    let s: nat = d * pow2(k);
    let m = nearest_integer(n, s);
    let x = units(nearest(n, d));
    lemma_nearest_steps(n, d);
    lemma2_to64();
    lemma2_to64_rest();
    lemma_pow2_pos(k);
    assert(x * d == m * s) by (nonlinear_arith)
        requires
            x == m * pow2(k),
            s == d * pow2(k),
    ;
    let e = distance((x * d) as int, n as int);
    assert(2 * e <= s);
    if n >= pow2(52) * d {
        if k == 0 {
            assert(s == d) by (nonlinear_arith)
                requires
                    s == d * pow2(k),
                    pow2(k) == 1,
            ;
            lemma_quotient_at_least(n as int, d as int, pow2(52) as int);
            lemma_nearest_integer(n, s);
            assert(x == m) by (nonlinear_arith)
                requires
                    x == m * pow2(k),
                    pow2(k) == 1,
            ;
        } else {
            assert(x >= pow2(52)) by (nonlinear_arith)
                requires
                    x == m * pow2(k),
                    m >= pow2(52),
                    pow2(k) >= 1,
            ;
        }
        assert(pow2(52) * s <= n);
        assert(pow2(53) * e <= n) by (nonlinear_arith)
            requires
                2 * e <= s,
                pow2(52) * s <= n,
                pow2(53) == 2 * pow2(52),
                e >= 0,
        ;
    }
}

/// A number that the encoding holds is rounded to itself.
pub proof fn lemma_exact_is_kept(mag: nat, d: nat)
    requires
        d > 0,
        mag < INFINITY_BITS,
    ensures
        nearest(units(mag) * d, d) == mag,
{
    let u = units(mag);
    let n: nat = u * d;
    lemma2_to64();
    lemma2_to64_rest();
    assert(n as int / d as int == u && n as int % d as int == 0) by {
        assert((u + 1) * d == u * d + d) by (nonlinear_arith);
        lemma_quotient_between(n as int, d as int, u as int);
    }
    if mag < SIGNIFICAND_LIMIT {
        assert(u == mag);
        lemma_spacing_exp(u, 0);
        assert(d * pow2(0) == d) by (nonlinear_arith)
            requires
                pow2(0) == 1,
        ;
    } else {
        let f: nat = mag % (HIDDEN_BIT as nat);
        let k: nat = ((mag / (HIDDEN_BIT as nat)) - 1) as nat;
        let sig: nat = (f + HIDDEN_BIT) as nat;
        assert(k >= 1);
        assert(u == sig * pow2(k));
        lemma_pow2_pos(k);
        lemma_pow2_adds(52, k);
        lemma_pow2_adds(53, k);
        assert(pow2(52 + k) <= u < pow2(53 + k)) by (nonlinear_arith)
            requires
                u == sig * pow2(k),
                pow2(52) <= sig < pow2(53),
                pow2(52 + k) == pow2(52) * pow2(k),
                pow2(53 + k) == pow2(53) * pow2(k),
                pow2(k) > 0,
        ;
        lemma_spacing_exp(u, k);
        let s: nat = d * pow2(k);
        assert(s > 0) by (nonlinear_arith)
            requires
                s == d * pow2(k),
                d > 0,
                pow2(k) > 0,
        ;
        assert(n as int / s as int == sig && n as int % s as int == 0) by {
            assert(n == sig * s) by (nonlinear_arith)
                requires
                    n == u * d,
                    u == sig * pow2(k),
                    s == d * pow2(k),
            ;
            assert((sig + 1) * s == sig * s + s) by (nonlinear_arith);
            lemma_quotient_between(n as int, s as int, sig as int);
        }
        assert(k * HIDDEN_BIT + sig == mag);
    }
}

proof fn lemma_step_no_nearer(n: int, s: int, m: int, j: int)
    requires
        s > 0,
        2 * distance(m * s, n) <= s,
    ensures
        distance(m * s, n) <= distance(j * s, n),
{
    if j > m {
        assert(j * s >= m * s + s) by (nonlinear_arith)
            requires
                j >= m + 1,
                s > 0,
        ;
    } else if j < m {
        assert(j * s <= m * s - s) by (nonlinear_arith)
            requires
                j <= m - 1,
                s > 0,
        ;
    }
}

/// Unless it is infinity, the rounded number is a nearest one: no finite
/// number of the encoding is nearer to the ratio.
pub proof fn lemma_none_is_nearer(n: nat, d: nat, other: nat)
    requires
        d > 0,
        nearest(n, d) < INFINITY_BITS,
        other < INFINITY_BITS,
    ensures
        distance((units(nearest(n, d)) * d) as int, n as int) <= distance(
            (units(other) * d) as int,
            n as int,
        ),
{
    let k = spacing_exp(n / d);
    let s: nat = d * pow2(k);
    let m = nearest_integer(n, s);
    let x = units(nearest(n, d));
    let y = units(other);
    lemma_nearest_steps(n, d);
    lemma2_to64();
    lemma2_to64_rest();
    lemma_pow2_pos(k);
    lemma_pow2_adds(52, k);
    lemma_pow2_adds(53, k);
    assert(s > 0) by (nonlinear_arith)
        requires
            s == d * pow2(k),
            d > 0,
            pow2(k) > 0,
    ;
    assert(x * d == m * s) by (nonlinear_arith)
        requires
            x == m * pow2(k),
            s == d * pow2(k),
    ;
    let lo: nat = if k > 0 {
        pow2(52 + k)
    } else {
        0
    };
    let hi: nat = pow2(53 + k);
    assert(hi * d == pow2(53) * s) by (nonlinear_arith)
        requires
            hi == pow2(53) * pow2(k),
            s == d * pow2(k),
    ;
    assert(k > 0 ==> lo * d == pow2(52) * s) by (nonlinear_arith)
        requires
            k > 0 ==> lo == pow2(52) * pow2(k),
            s == d * pow2(k),
    ;
    assert(lo * d <= n < hi * d) by {
        if k == 0 {
            assert(lo * d == 0) by (nonlinear_arith)
                requires
                    lo == 0,
            ;
        }
    }
    if y >= hi {
        assert(y * d >= hi * d) by (nonlinear_arith)
            requires
                y >= hi,
                d > 0,
        ;
        lemma_step_no_nearer(n as int, s as int, m as int, pow2(53) as int);
    } else if y <= lo {
        assert(y * d <= lo * d) by (nonlinear_arith)
            requires
                y <= lo,
                d > 0,
        ;
        if k > 0 {
            lemma_step_no_nearer(n as int, s as int, m as int, pow2(52) as int);
        } else {
            assert(y * d == 0) by (nonlinear_arith)
                requires
                    y == 0,
            ;
            lemma_step_no_nearer(n as int, s as int, m as int, 0);
            assert(0 * (s as int) == 0);
        }
    } else {
        // y is a whole number of steps of the spacing
        let j: nat = if k == 0 {
            y
        } else {
            ((other % (HIDDEN_BIT as nat)) + HIDDEN_BIT) as nat
        };
        if k == 0 {
            assert(y == j * pow2(k)) by (nonlinear_arith)
                requires
                    y == j,
                    pow2(k) == 1,
            ;
        } else {
            assert(lo >= pow2(53)) by {
                lemma_pow2_monotone(53, 52 + k);
            }
            assert(other >= SIGNIFICAND_LIMIT);
            let e: nat = ((other / (HIDDEN_BIT as nat)) - 1) as nat;
            assert(y == j * pow2(e));
            lemma_pow2_pos(e);
            lemma_pow2_adds(52, e);
            lemma_pow2_adds(53, e);
            assert(pow2(52 + e) <= y < pow2(53 + e)) by (nonlinear_arith)
                requires
                    y == j * pow2(e),
                    pow2(52) <= j < pow2(53),
                    pow2(52 + e) == pow2(52) * pow2(e),
                    pow2(53 + e) == pow2(53) * pow2(e),
                    pow2(e) > 0,
            ;
            if e < k {
                lemma_pow2_monotone(53 + e, 52 + k);
            }
            if e > k {
                lemma_pow2_monotone(53 + k, 52 + e);
            }
            assert(e == k);
        }
        assert(y * d == j * s) by (nonlinear_arith)
            requires
                y == j * pow2(k),
                s == d * pow2(k),
        ;
        lemma_step_no_nearer(n as int, s as int, m as int, j as int);
    }
}

/// Two finite magnitudes of as many units are one magnitude.
pub proof fn lemma_units_differ(a: nat, b: nat)
    requires
        a < INFINITY_BITS,
        b < INFINITY_BITS,
        units(a) == units(b),
    ensures
        a == b,
{
    lemma_exact_is_kept(a, 1);
    lemma_exact_is_kept(b, 1);
    assert(units(a) * 1 == units(a)) by (nonlinear_arith);
}

/// Where another finite number is as near to the ratio as the rounded one,
/// the rounded one is the one with the even encoding.
pub proof fn lemma_tie_is_even(n: nat, d: nat, other: nat)
    requires
        d > 0,
        nearest(n, d) < INFINITY_BITS,
        other < INFINITY_BITS,
        other != nearest(n, d),
        distance((units(other) * d) as int, n as int) == distance(
            (units(nearest(n, d)) * d) as int,
            n as int,
        ),
    ensures
        nearest(n, d) % 2 == 0,
{
    let k = spacing_exp(n / d);
    let s: nat = d * pow2(k);
    let m = nearest_integer(n, s);
    let x = units(nearest(n, d));
    let y = units(other);
    lemma_nearest_steps(n, d);
    lemma2_to64();
    lemma2_to64_rest();
    lemma_pow2_pos(k);
    lemma_pow2_adds(52, k);
    lemma_pow2_adds(53, k);
    assert(s > 0) by (nonlinear_arith)
        requires
            s == d * pow2(k),
            d > 0,
            pow2(k) > 0,
    ;
    assert(x * d == m * s) by (nonlinear_arith)
        requires
            x == m * pow2(k),
            s == d * pow2(k),
    ;
    if x == y {
        lemma_units_differ(other, nearest(n, d));
    }
    assert(x != y);
    let e = distance((m * s) as int, n as int);
    let lo: nat = if k > 0 {
        pow2(52 + k)
    } else {
        0
    };
    let hi: nat = pow2(53 + k);
    assert(hi * d == pow2(53) * s) by (nonlinear_arith)
        requires
            hi == pow2(53) * pow2(k),
            s == d * pow2(k),
    ;
    assert(k > 0 ==> lo * d == pow2(52) * s) by (nonlinear_arith)
        requires
            k > 0 ==> lo == pow2(52) * pow2(k),
            s == d * pow2(k),
    ;
    assert(lo * d <= n < hi * d) by {
        if k == 0 {
            assert(lo * d == 0) by (nonlinear_arith)
                requires
                    lo == 0,
            ;
        }
    }
    // a whole number `j` of steps, other than `m`, that is no farther from
    // the ratio than the other number
    let j: int = if y >= hi {
        pow2(53) as int
    } else if y <= lo {
        if k > 0 {
            pow2(52) as int
        } else {
            0
        }
    } else if k == 0 {
        y as int
    } else {
        ((other % (HIDDEN_BIT as nat)) + HIDDEN_BIT) as int
    };
    if y >= hi {
        assert(y * d >= hi * d) by (nonlinear_arith)
            requires
                y >= hi,
                d > 0,
        ;
        if m == pow2(53) {
            assert(x * d == hi * d);
            assert(y * d == x * d);
            lemma_cancel_le(y as int, x as int, d as int);
            lemma_cancel_le(x as int, y as int, d as int);
        }
    } else if y <= lo {
        assert(y * d <= lo * d) by (nonlinear_arith)
            requires
                y <= lo,
                d > 0,
        ;
        if k > 0 {
            if m == pow2(52) {
                assert(x * d == lo * d);
                assert(y * d == x * d);
                lemma_cancel_le(y as int, x as int, d as int);
                lemma_cancel_le(x as int, y as int, d as int);
            }
        } else {
            assert(y == 0);
            assert(0 * (s as int) == 0);
            assert(y * d == 0) by (nonlinear_arith)
                requires
                    y == 0,
            ;
            if m == 0 {
                assert(m * s == 0) by (nonlinear_arith)
                    requires
                        m == 0,
                ;
                assert(x * d == 0);
                if x != 0 {
                    assert(x * d > 0) by (nonlinear_arith)
                        requires
                            x > 0,
                            d > 0,
                    ;
                }
            }
        }
    } else {
        if k == 0 {
            assert(y == j * pow2(k)) by (nonlinear_arith)
                requires
                    y == j,
                    pow2(k) == 1,
            ;
        } else {
            assert(lo >= pow2(53)) by {
                lemma_pow2_monotone(53, 52 + k);
            }
            assert(other >= SIGNIFICAND_LIMIT);
            let c: nat = ((other / (HIDDEN_BIT as nat)) - 1) as nat;
            assert(y == j * pow2(c));
            lemma_pow2_pos(c);
            lemma_pow2_adds(52, c);
            lemma_pow2_adds(53, c);
            assert(pow2(52 + c) <= y < pow2(53 + c)) by (nonlinear_arith)
                requires
                    y == j * pow2(c),
                    pow2(52) <= j < pow2(53),
                    pow2(52 + c) == pow2(52) * pow2(c),
                    pow2(53 + c) == pow2(53) * pow2(c),
                    pow2(c) > 0,
            ;
            if c < k {
                lemma_pow2_monotone(53 + c, 52 + k);
            }
            if c > k {
                lemma_pow2_monotone(53 + k, 52 + c);
            }
            assert(c == k);
        }
        assert(y * d == j * s) by (nonlinear_arith)
            requires
                y == j * pow2(k),
                s == d * pow2(k),
        ;
        if j == m {
            assert(y * d == x * d);
            lemma_cancel_le(y as int, x as int, d as int);
            lemma_cancel_le(x as int, y as int, d as int);
        }
    }
    assert(j != m);
    assert(distance(j * s, n as int) <= e);
    // two steps that far apart: the ratio lies halfway between them
    if j > m {
        assert(j * s >= m * s + s) by (nonlinear_arith)
            requires
                j >= m + 1,
                s > 0,
        ;
    } else {
        assert(j * s <= m * s - s) by (nonlinear_arith)
            requires
                j <= m - 1,
                s > 0,
        ;
    }
    assert(2 * e == s);
    let q = n as int / s as int;
    let r = n as int % s as int;
    lemma_fundamental_div_mod(n as int, s as int);
    assert(0 <= r < s);
    assert(q * s == s * q) by (nonlinear_arith);
    assert((q + 1) * s == s * q + s) by (nonlinear_arith);
    assert(2 * r == s);
    assert(m % 2 == 0);
    if k * HIDDEN_BIT + m < INFINITY_BITS {
        assert((k * HIDDEN_BIT + m) % 2 == 0) by (nonlinear_arith)
            requires
                m % 2 == 0,
                k >= 0,
                HIDDEN_BIT == 0x0010_0000_0000_0000,
        ;
    }
}

/// `x` is `n / d` but for one rounding: they differ by at most the `2^53`rd
/// part of `n / d`.
pub open spec fn close(x: nat, n: nat, d: nat) -> bool {
    pow2(53) * distance((x * d) as int, n as int) <= n
}

/// A ratio below `2^(53+k)` units, with `k` at most 2044, rounds to a finite
/// number.
pub proof fn lemma_rounds_to_finite(n: nat, d: nat, k: nat)
    requires
        d > 0,
        k <= 2044,
        n < pow2(53 + k) * d,
    ensures
        nearest(n, d) < INFINITY_BITS,
{
    let q = n / d;
    let j = spacing_exp(q);
    lemma_quotient_below(n as int, d as int, pow2(53 + k) as int);
    lemma_spacing_range(q);
    lemma2_to64();
    lemma2_to64_rest();
    if j > k {
        lemma_pow2_monotone(53 + k, 52 + j);
    }
    assert(j <= k);
    lemma_nearest_steps(n, d);
    assert(j * HIDDEN_BIT + nearest_integer(n, d * pow2(j)) < INFINITY_BITS) by (nonlinear_arith)
        requires
            j <= 2044,
            nearest_integer(n, d * pow2(j)) <= SIGNIFICAND_LIMIT,
            HIDDEN_BIT == 0x0010_0000_0000_0000,
            SIGNIFICAND_LIMIT == 0x0020_0000_0000_0000,
            INFINITY_BITS == 0x7FF0_0000_0000_0000,
    ;
}

/// The product of two finite numbers that is neither too small for a full
/// significand nor too large: it is finite, it has the sign that the signs
/// of the two give, and it is the exact product but for one rounding.
pub proof fn lemma_product_is_close(a: Float, b: Float)
    requires
        a.spec_is_finite(),
        b.spec_is_finite(),
        a.units() * b.units() >= pow2(52) * pow2(1074),
        a.units() * b.units() < pow2(2097) * pow2(1074),
    ensures
        a.spec_mul(b).spec_is_finite(),
        a.spec_mul(b).spec_is_sign_negative() == (a.spec_is_sign_negative()
            != b.spec_is_sign_negative()),
        a.spec_mul(b).units() >= pow2(52),
        close(a.spec_mul(b).units(), a.units() * b.units(), pow2(1074)),
{
    let n = a.units() * b.units();
    let d = pow2(1074);
    lemma_pow2_pos(1074);
    lemma2_to64();
    lemma2_to64_rest();
    lemma_rounds_to_finite(n, d, 2044);
    lemma_rounding_error(n, d);
    let negative = a.spec_is_sign_negative() != b.spec_is_sign_negative();
    assert(a.spec_mul(b) == signed(nearest(n, d), negative));
}

/// The quotient of two finite numbers that is neither too small for a full
/// significand nor too large: it is finite, it has the sign that the signs
/// of the two give, and it is the exact quotient but for one rounding.
pub proof fn lemma_quotient_is_close(a: Float, b: Float)
    requires
        a.spec_is_finite(),
        b.spec_is_finite(),
        b.units() > 0,
        a.units() * pow2(1074) >= pow2(52) * b.units(),
        a.units() * pow2(1074) < pow2(2097) * b.units(),
    ensures
        a.spec_div(b).spec_is_finite(),
        a.spec_div(b).spec_is_sign_negative() == (a.spec_is_sign_negative()
            != b.spec_is_sign_negative()),
        a.spec_div(b).units() >= pow2(52),
        close(a.spec_div(b).units(), a.units() * pow2(1074), b.units()),
{
    let n = a.units() * pow2(1074);
    let d = b.units();
    lemma2_to64();
    lemma2_to64_rest();
    lemma_rounds_to_finite(n, d, 2044);
    lemma_rounding_error(n, d);
    let negative = a.spec_is_sign_negative() != b.spec_is_sign_negative();
    assert(b.magnitude() != 0);
    assert(a.spec_div(b) == signed(nearest(n, d), negative));
}

} // verus!
