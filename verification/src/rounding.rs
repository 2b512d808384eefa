//! Rounding to nearest, ties to even.
//!
//! The magnitude of a finite binary64 number is a whole count of units of
//! 2^-1074, the smallest positive number. An exact result of arithmetic is a
//! ratio of two naturals in those units, and `nearest` names the encoding that
//! the ratio rounds to.

use vstd::prelude::*;
use vstd::arithmetic::power2::{
    pow2,
    lemma2_to64,
    lemma2_to64_rest,
    lemma_pow2_pos,
    lemma_pow2_adds,
    lemma_pow2_unfold,
    lemma_pow2_strictly_increases,
};
use vstd::arithmetic::div_mod::lemma_fundamental_div_mod_converse;
use vstd::arithmetic::div_mod::lemma_fundamental_div_mod;
use crate::float::INFINITY_BITS;

verus! {

/// 2^52: the hidden bit of a significand, and the weight of the exponent
/// field in an encoding.
pub const HIDDEN_BIT: u64 = 0x0010_0000_0000_0000;

/// 2^53: every significand is below it.
pub const SIGNIFICAND_LIMIT: u64 = 0x0020_0000_0000_0000;

/// How many units the finite magnitude `mag` of an encoding stands for.
pub open spec fn units(mag: nat) -> nat {
    if mag < SIGNIFICAND_LIMIT {
        mag
    } else {
        ((mag % (HIDDEN_BIT as nat)) + HIDDEN_BIT) as nat * pow2(
            ((mag / (HIDDEN_BIT as nat)) - 1) as nat,
        )
    }
}

/// The binary logarithm of the spacing, in units, between neighbouring
/// numbers around `q` units: 0 below 2^53, and one more for each doubling.
pub open spec fn spacing_exp(q: nat) -> nat
    decreases q,
{
    if q < SIGNIFICAND_LIMIT {
        0
    } else {
        1 + spacing_exp(q / 2)
    }
}

/// The integer nearest to `num / den`, the even one of two that are equally
/// near.
pub open spec fn nearest_integer(num: nat, den: nat) -> nat {
    let q = num / den;
    let r = num % den;
    if 2 * r < den || (2 * r == den && q % 2 == 0) {
        q
    } else {
        q + 1
    }
}

/// The magnitude of the encoding nearest to `num / den` units, the one with
/// an even significand of two that are equally near, and infinity where that
/// is beyond the largest finite number.
///
/// With spacing 2^k the ratio is rounded to `m` steps of that spacing; `m`
/// is at most 2^53, and `k * 2^52 + m` is the encoding of `m * 2^k` units.
pub open spec fn nearest(num: nat, den: nat) -> nat {
    let k = spacing_exp(num / den);
    let m = nearest_integer(num, den * pow2(k));
    let bits = (k * HIDDEN_BIT + m) as nat;
    if bits >= INFINITY_BITS {
        INFINITY_BITS as nat
    } else {
        bits
    }
}

/// `sig * 2^e` is `num / den`, or with `sticky` lies strictly between it and
/// `(sig + 1) * 2^e`.
pub open spec fn approximates(sig: nat, e: int, sticky: bool, num: nat, den: nat) -> bool {
    let a = num * pow2(
        if e < 0 {
            (-e) as nat
        } else {
            0
        },
    );
    let b = den * pow2(
        if e > 0 {
            e as nat
        } else {
            0
        },
    );
    if sticky {
        sig * b < a < (sig + 1) * b
    } else {
        a == sig * b
    }
}

pub(crate) proof fn lemma_quotient_between(n: int, d: int, q: int)
    requires
        d > 0,
        q * d <= n < (q + 1) * d,
    ensures
        n / d == q,
        n % d == n - q * d,
{
    assert((q + 1) * d == q * d + d) by (nonlinear_arith);
    lemma_fundamental_div_mod_converse(n, d, q, n - q * d);
}

pub(crate) proof fn lemma_spacing_exp(q: nat, k: nat)
    requires
        k == 0 ==> q < pow2(53),
        k > 0 ==> pow2(52 + k) <= q < pow2(53 + k),
    ensures
        spacing_exp(q) == k,
    decreases k,
{
    lemma2_to64();
    lemma2_to64_rest();
    if k > 0 {
        lemma_pow2_unfold(52 + k);
        lemma_pow2_unfold(53 + k);
        if k > 1 {
            lemma_pow2_strictly_increases(53, 52 + k);
        }
        lemma_spacing_exp(q / 2, (k - 1) as nat);
    }
}

pub(crate) proof fn lemma_cancel_le(x: int, y: int, s: int)
    requires
        s > 0,
        x * s <= y * s,
    ensures
        x <= y,
{
    if x > y {
        assert(x * s >= (y + 1) * s) by (nonlinear_arith)
            requires
                x >= y + 1,
                s > 0,
        ;
        assert((y + 1) * s == y * s + s) by (nonlinear_arith);
    }
}

pub(crate) proof fn lemma_cancel_lt(x: int, y: int, s: int)
    requires
        s > 0,
        x * s < y * s,
    ensures
        x < y,
{
    if x >= y {
        assert(x * s >= y * s) by (nonlinear_arith)
            requires
                x >= y,
                s > 0,
        ;
    }
}

pub(crate) proof fn lemma_quotient_at_least(n: int, d: int, x: int)
    requires
        d > 0,
        x * d <= n,
    ensures
        x <= n / d,
{
    lemma_fundamental_div_mod(n, d);
    let q = n / d;
    assert(0 <= n % d < d);
    if x > q {
        assert(x * d >= (q + 1) * d) by (nonlinear_arith)
            requires
                x >= q + 1,
                d > 0,
        ;
        assert((q + 1) * d == d * q + d) by (nonlinear_arith);
    }
}

pub(crate) proof fn lemma_quotient_below(n: int, d: int, x: int)
    requires
        d > 0,
        n < x * d,
    ensures
        n / d < x,
{
    lemma_fundamental_div_mod(n, d);
    let q = n / d;
    assert(0 <= n % d < d);
    if q >= x {
        assert(d * q >= x * d) by (nonlinear_arith)
            requires
                q >= x,
                d > 0,
        ;
    }
}

/// 2^127, which no `u128` below it reaches.
pub const SIG_LIMIT: u128 = 0x8000_0000_0000_0000_0000_0000_0000_0000;

proof fn lemma_pow2_127()
    ensures
        pow2(127) == SIG_LIMIT,
{
    lemma2_to64();
    lemma2_to64_rest();
    lemma_pow2_adds(63, 64);
    assert(0x8000_0000_0000_0000int * 0x1_0000_0000_0000_0000int
        == 0x8000_0000_0000_0000_0000_0000_0000_0000int) by (nonlinear_arith);
}

pub(crate) proof fn lemma_pow2_monotone(a: nat, b: nat)
    requires
        a <= b,
    ensures
        pow2(a) <= pow2(b),
{
    if a < b {
        lemma_pow2_strictly_increases(a, b);
    }
}

/// 2^n.
pub(crate) fn power_of_two(n: u32) -> (p: u128)
    requires
        n <= 127,
    ensures
        p == pow2(n as nat),
{
    let mut p: u128 = 1;
    let mut i: u32 = 0;
    proof {
        lemma2_to64();
    }
    while i < n
        invariant
            i <= n <= 127,
            p == pow2(i as nat),
        decreases n - i,
    {
        proof {
            lemma_pow2_unfold((i + 1) as nat);
            lemma_pow2_monotone((i + 1) as nat, 127);
            lemma_pow2_127();
        }
        p = p * 2;
        i = i + 1;
    }
    p
}

/// The number of bits of `x` up to its leading one.
pub(crate) fn bit_length(x: u128) -> (len: u32)
    requires
        0 < x < SIG_LIMIT,
    ensures
        1 <= len <= 127,
        pow2((len - 1) as nat) <= x < pow2(len as nat),
{
    let mut len: u32 = 1;
    let mut p: u128 = 1;
    proof {
        lemma2_to64();
    }
    while p <= x / 2
        invariant
            1 <= len <= 127,
            p == pow2((len - 1) as nat),
            1 <= p <= x < SIG_LIMIT,
        decreases x - p,
    {
        proof {
            lemma_pow2_unfold(len as nat);
            lemma_pow2_127();
            if len >= 127 {
                lemma_pow2_monotone(127, len as nat);
            }
        }
        p = p * 2;
        len = len + 1;
    }
    proof {
        lemma_pow2_unfold(len as nat);
    }
    len
}

proof fn lemma_spacing_of_approximation(
    sig: nat,
    len: nat,
    e: int,
    sticky: bool,
    num: nat,
    den: nat,
)
    requires
        den > 0,
        len >= 1,
        pow2((len - 1) as nat) <= sig < pow2(len),
        approximates(sig, e, sticky, num, den),
    ensures
        spacing_exp(num / den) == (if len + e - 53 > 0 {
            len + e - 53
        } else {
            0
        }),
{
    let ae: nat = if e < 0 {
        (-e) as nat
    } else {
        0
    };
    let be: nat = if e > 0 {
        e as nat
    } else {
        0
    };
    let a: int = (num * pow2(ae)) as int;
    let b: int = (den * pow2(be)) as int;
    let lo: int = pow2((len - 1) as nat) as int;
    let hi: int = pow2(len) as int;
    let s: int = sig as int;
    lemma_pow2_pos(ae);
    lemma_pow2_pos(be);
    lemma2_to64();
    assert(b > 0) by (nonlinear_arith)
        requires
            b == den * pow2(be),
            den > 0,
            pow2(be) > 0,
    ;
    assert(s * b <= a < (s + 1) * b) by {
        assert((s + 1) * b == s * b + b) by (nonlinear_arith);
    }
    assert(lo * b <= a < hi * b) by (nonlinear_arith)
        requires
            lo <= s < hi,
            b > 0,
            s * b <= a < (s + 1) * b,
    ;
    let kk: int = len + e - 53;
    let q: int = num as int / den as int;
    if e >= 0 {
        assert(a == num) by (nonlinear_arith)
            requires
                a == num * pow2(ae),
                pow2(ae) == 1,
        ;
        lemma_pow2_adds((len - 1) as nat, be);
        lemma_pow2_adds(len, be);
        let lo2: int = pow2((len - 1 + be) as nat) as int;
        let hi2: int = pow2(len + be) as int;
        assert(lo * b == lo2 * den) by (nonlinear_arith)
            requires
                b == den * pow2(be),
                lo2 == lo * pow2(be),
        ;
        assert(hi * b == hi2 * den) by (nonlinear_arith)
            requires
                b == den * pow2(be),
                hi2 == hi * pow2(be),
        ;
        lemma_quotient_at_least(num as int, den as int, lo2);
        lemma_quotient_below(num as int, den as int, hi2);
        if kk > 0 {
            lemma_spacing_exp(q as nat, kk as nat);
        } else {
            lemma_pow2_monotone(len + be, 53);
            lemma_spacing_exp(q as nat, 0);
        }
    } else {
        assert(b == den) by (nonlinear_arith)
            requires
                b == den * pow2(be),
                pow2(be) == 1,
        ;
        let sc: int = pow2(ae) as int;
        if kk > 0 {
            lemma_pow2_adds((52 + kk) as nat, ae);
            lemma_pow2_adds((53 + kk) as nat, ae);
            let lo2: int = pow2((52 + kk) as nat) as int;
            let hi2: int = pow2((53 + kk) as nat) as int;
            assert(lo == lo2 * sc);
            assert(hi == hi2 * sc);
            assert((lo2 * den) * sc == lo * b) by (nonlinear_arith)
                requires
                    lo == lo2 * sc,
                    b == den,
            ;
            assert((hi2 * den) * sc == hi * b) by (nonlinear_arith)
                requires
                    hi == hi2 * sc,
                    b == den,
            ;
            lemma_cancel_le(lo2 * den, num as int, sc);
            lemma_cancel_lt(num as int, hi2 * den, sc);
            lemma_quotient_at_least(num as int, den as int, lo2);
            lemma_quotient_below(num as int, den as int, hi2);
            lemma_spacing_exp(q as nat, kk as nat);
        } else {
            lemma_pow2_monotone(len, 53 + ae);
            lemma_pow2_adds(53, ae);
            let hi2: int = pow2(53) as int;
            assert(hi <= hi2 * sc);
            assert(hi * b <= (hi2 * den) * sc) by (nonlinear_arith)
                requires
                    hi <= hi2 * sc,
                    b == den,
                    den > 0,
            ;
            lemma_cancel_lt(num as int, hi2 * den, sc);
            lemma_quotient_below(num as int, den as int, hi2);
            lemma_spacing_exp(q as nat, 0);
        }
    }
}

/// Whether dropping the remainder `rem` of a division by `2 * half` rounds
/// the quotient `q` up.
pub open spec fn rounds_up(q: int, rem: int, half: int, sticky: bool) -> bool {
    rem > half || (rem == half && (sticky || q % 2 == 1))
}

proof fn lemma_nearest_scaled(
    sig: int,
    half: int,
    b: int,
    a: int,
    s: int,
    num: int,
    d: int,
    sticky: bool,
)
    requires
        sig >= 0,
        half >= 1,
        b > 0,
        s > 0,
        d > 0,
        num >= 0,
        a == num * s,
        d * s == b * (2 * half),
        sticky ==> sig * b < a < (sig + 1) * b,
        !sticky ==> a == sig * b,
    ensures
        nearest_integer(num as nat, d as nat) == sig / (2 * half) + (if rounds_up(
            sig / (2 * half),
            sig % (2 * half),
            half,
            sticky,
        ) {
            1int
        } else {
            0int
        }),
{
    let p = 2 * half;
    let q = sig / p;
    let rem = sig % p;
    lemma_fundamental_div_mod(sig, p);
    assert(sig == p * q + rem);
    assert(0 <= rem < p);
    assert(q >= 0) by {
        lemma_quotient_at_least(sig, p, 0);
    }
    assert((sig + 1) * b == sig * b + b) by (nonlinear_arith);
    assert(sig * b == (q * b) * p + rem * b) by (nonlinear_arith)
        requires
            sig == p * q + rem,
    ;
    assert((q * d) * s == (q * b) * p) by (nonlinear_arith)
        requires
            d * s == b * p,
    ;
    assert(((q + 1) * d) * s == (q * b) * p + p * b) by (nonlinear_arith)
        requires
            d * s == b * p,
    ;
    assert((rem + 1) * b <= p * b) by (nonlinear_arith)
        requires
            rem + 1 <= p,
            b > 0,
    ;
    assert((rem + 1) * b == rem * b + b) by (nonlinear_arith);
    assert(rem * b >= 0) by (nonlinear_arith)
        requires
            rem >= 0,
            b > 0,
    ;
    // q * d <= num < (q + 1) * d
    assert((q * d) * s <= num * s);
    assert(num * s < ((q + 1) * d) * s);
    lemma_cancel_le(q * d, num, s);
    lemma_cancel_lt(num, (q + 1) * d, s);
    lemma_quotient_between(num, d, q);
    let r = num - q * d;
    assert(num % d == r);
    assert(r * s == a - (q * b) * p) by (nonlinear_arith)
        requires
            r == num - q * d,
            a == num * s,
            (q * d) * s == (q * b) * p,
    ;
    assert(d * s == (half * b) * 2) by (nonlinear_arith)
        requires
            d * s == b * (2 * half),
    ;
    assert((2 * r) * s == (r * s) * 2) by (nonlinear_arith);
    // rem * b <= r * s < (rem + 1) * b, with equality on the left unless sticky
    if rem < half {
        assert((rem + 1) * b <= half * b) by (nonlinear_arith)
            requires
                rem + 1 <= half,
                b > 0,
        ;
        assert((2 * r) * s < d * s);
        lemma_cancel_lt(2 * r, d, s);
    } else if rem > half {
        assert(rem * b >= (half + 1) * b) by (nonlinear_arith)
            requires
                rem >= half + 1,
                b > 0,
        ;
        assert((half + 1) * b == half * b + b) by (nonlinear_arith);
        assert((2 * r) * s > d * s);
        lemma_cancel_lt(d, 2 * r, s);
    } else if sticky {
        assert((2 * r) * s > d * s);
        lemma_cancel_lt(d, 2 * r, s);
    } else {
        assert((2 * r) * s == d * s);
        lemma_cancel_le(2 * r, d, s);
        lemma_cancel_le(d, 2 * r, s);
    }
}

proof fn lemma_nearest_exact(sig: nat, e: nat, k: nat, num: nat, den: nat)
    requires
        den > 0,
        k <= e,
        num == sig * (den * pow2(e)),
    ensures
        nearest_integer(num, den * pow2(k)) == sig * pow2((e - k) as nat),
{
    let d: int = (den * pow2(k)) as int;
    let m: int = (sig * pow2((e - k) as nat)) as int;
    lemma_pow2_pos(k);
    lemma_pow2_adds(k, (e - k) as nat);
    assert(d > 0) by (nonlinear_arith)
        requires
            d == den * pow2(k),
            den > 0,
            pow2(k) > 0,
    ;
    assert(num == m * d + 0) by (nonlinear_arith)
        requires
            num == sig * (den * pow2(e)),
            pow2(e) == pow2(k) * pow2((e - k) as nat),
            d == den * pow2(k),
            m == sig * pow2((e - k) as nat),
    ;
    lemma_fundamental_div_mod_converse(num as int, d, m, 0);
}

/// The encoding nearest to `num / den` units, from an approximation
/// `sig * 2^e` of that ratio: the exact ratio, or with `sticky` a lower
/// bound that is less than one step of `2^e` below it.
pub(crate) fn round_to_nearest(
    sig: u128,
    e: i32,
    sticky: bool,
    Ghost(num): Ghost<nat>,
    Ghost(den): Ghost<nat>,
) -> (r: u64)
    requires
        0 < sig < SIG_LIMIT,
        -4000 <= e <= 4000,
        den > 0,
        sticky ==> sig >= 0x40_0000_0000_0000,
        approximates(sig as nat, e as int, sticky, num, den),
    ensures
        r == nearest(num, den),
{
    let len: u32 = bit_length(sig);
    let kk: i32 = len as i32 + e - 53;
    let k: i32 = if kk > 0 {
        kk
    } else {
        0
    };
    let t: i32 = k - e;
    let ghost ae: nat = if e < 0 {
        (-e) as nat
    } else {
        0
    };
    let ghost be: nat = if e > 0 {
        e as nat
    } else {
        0
    };
    let ghost d: nat = den * pow2(k as nat);
    proof {
        lemma_spacing_of_approximation(sig as nat, len as nat, e as int, sticky, num, den);
        lemma2_to64();
        lemma2_to64_rest();
        lemma_pow2_127();
        lemma_pow2_pos(k as nat);
        lemma_pow2_pos(ae);
        lemma_pow2_pos(be);
        assert(d > 0) by (nonlinear_arith)
            requires
                d == den * pow2(k as nat),
                den > 0,
                pow2(k as nat) > 0,
        ;
        if sticky {
            if len < 55 {
                lemma_pow2_monotone(len as nat, 54);
            }
            assert(len >= 55);
        }
    }
    let m: u64;
    if t <= 0 {
        assert(!sticky);
        assert(e >= 0 && k <= e);
        let shift: u32 = (-t) as u32;
        assert(len + shift <= 53);
        let p: u128 = power_of_two(shift);
        proof {
            lemma_pow2_adds(len as nat, shift as nat);
            lemma_pow2_monotone((len + shift) as nat, 53);
            assert(sig * p < pow2(len as nat) * p) by (nonlinear_arith)
                requires
                    sig < pow2(len as nat),
                    p > 0,
            ;
            assert(num == sig as nat * (den * pow2(e as nat))) by (nonlinear_arith)
                requires
                    num * pow2(ae) == sig as nat * (den * pow2(be)),
                    pow2(ae) == 1,
                    be == e,
            ;
            lemma_nearest_exact(sig as nat, e as nat, k as nat, num, den);
        }
        let wide: u128 = sig * p;
        m = wide as u64;
    } else {
        let ghost half: int = pow2((t - 1) as nat) as int;
        proof {
            lemma_pow2_pos((t - 1) as nat);
            lemma_pow2_unfold(t as nat);
            lemma_pow2_adds(k as nat, ae);
            lemma_pow2_adds(be, t as nat);
            assert(k + ae == be + t);
            assert(d * pow2(ae) == (den * pow2(be)) * (2 * half)) by (nonlinear_arith)
                requires
                    d == den * pow2(k as nat),
                    pow2((k + ae) as nat) == pow2(k as nat) * pow2(ae),
                    pow2((be + t) as nat) == pow2(be) * pow2(t as nat),
                    pow2(t as nat) == 2 * half,
                    k + ae == be + t,
            ;
            assert(den * pow2(be) > 0) by (nonlinear_arith)
                requires
                    den > 0,
                    pow2(be) > 0,
            ;
            lemma_nearest_scaled(
                sig as int,
                half,
                (den * pow2(be)) as int,
                (num * pow2(ae)) as int,
                pow2(ae) as int,
                num as int,
                d as int,
                sticky,
            );
        }
        if t >= 128 {
            proof {
                lemma_pow2_monotone(127, (t - 1) as nat);
                assert(sig < half);
                lemma_fundamental_div_mod_converse(sig as int, 2 * half, 0, sig as int);
            }
            m = 0;
        } else {
            let p: u128 = power_of_two(t as u32);
            let q: u128 = sig / p;
            let rem: u128 = sig % p;
            let h: u128 = p / 2;
            let up: bool = rem > h || (rem == h && (sticky || q % 2 == 1));
            proof {
                assert(h == half);
                assert(up == rounds_up(q as int, rem as int, half, sticky));
                // q < 2^53
                lemma_pow2_adds(53, t as nat);
                if kk > 0 {
                    assert(len == 53 + t);
                } else {
                    lemma_pow2_monotone(len as nat, (53 + t) as nat);
                }
                assert(sig < pow2(53) * p);
                lemma_quotient_below(sig as int, p as int, pow2(53) as int);
            }
            let wide: u128 = q + if up {
                1
            } else {
                0
            };
            m = wide as u64;
        }
    }
    assert(m == nearest_integer(num, den * pow2(k as nat)));
    assert(m <= SIGNIFICAND_LIMIT);
    if k >= 2047 {
        assert(k * HIDDEN_BIT + m >= INFINITY_BITS) by (nonlinear_arith)
            requires
                k >= 2047,
                m >= 0,
                HIDDEN_BIT == 0x0010_0000_0000_0000,
                INFINITY_BITS == 0x7FF0_0000_0000_0000,
        ;
        INFINITY_BITS
    } else {
        assert(k * HIDDEN_BIT <= 2046 * 0x0010_0000_0000_0000) by (nonlinear_arith)
            requires
                0 <= k <= 2046,
                HIDDEN_BIT == 0x0010_0000_0000_0000,
        ;
        let bits: u64 = (k as u64) * HIDDEN_BIT + m;
        if bits >= INFINITY_BITS {
            INFINITY_BITS
        } else {
            bits
        }
    }
}

} // verus!
