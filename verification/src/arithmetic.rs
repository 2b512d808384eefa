//! Multiplication, division, addition and subtraction of binary64 numbers,
//! each rounded to nearest with ties to even.
//!
//! A result that is a NaN is always the one NaN of `Float::nan`.

use vstd::prelude::*;
use vstd::arithmetic::power2::{
    pow2,
    lemma2_to64,
    lemma2_to64_rest,
    lemma_pow2_pos,
    lemma_pow2_adds,
    lemma_pow2_strictly_increases,
};
use vstd::arithmetic::div_mod::lemma_fundamental_div_mod;
use crate::float::{Float, INFINITY_BITS, NAN_BITS, SIGN_BIT};
use crate::rounding::{
    approximates,
    bit_length,
    nearest,
    power_of_two,
    round_to_nearest,
    units,
    HIDDEN_BIT,
    SIGNIFICAND_LIMIT,
    SIG_LIMIT,
};

verus! {

/// The number with magnitude `mag` and the given sign.
pub open spec fn signed(mag: nat, negative: bool) -> Float {
    Float {
        bits: (if negative {
            mag + SIGN_BIT
        } else {
            mag as int
        }) as u64,
    }
}

/// The number nearest to an exact sum of `sum` units. A sum of zero is
/// positive zero unless both terms were negative.
pub open spec fn rounded_sum(sum: int, both_negative: bool) -> Float {
    if sum == 0 {
        signed(0, both_negative)
    } else if sum < 0 {
        signed(nearest((-sum) as nat, 1), true)
    } else {
        signed(nearest(sum as nat, 1), false)
    }
}

/// `sig * 2^exp` units under the given sign.
pub open spec fn term(sig: nat, exp: nat, negative: bool) -> int {
    if negative {
        -((sig * pow2(exp)) as int)
    } else {
        (sig * pow2(exp)) as int
    }
}

/// The number with magnitude `mag` and the given sign.
fn with_sign(mag: u64, negative: bool) -> (r: Float)
    requires
        mag <= INFINITY_BITS,
    ensures
        r == signed(mag as nat, negative),
{
    if negative {
        Float { bits: mag + SIGN_BIT }
    } else {
        Float { bits: mag }
    }
}

impl Float {
    /// How many units of 2^-1074 the magnitude of a finite number is.
    pub open spec fn units(self) -> nat {
        units(self.magnitude())
    }

    /// A finite number in units of 2^-1074.
    pub open spec fn value(self) -> int {
        if self.spec_is_sign_negative() {
            -(self.units() as int)
        } else {
            self.units() as int
        }
    }

    /// The product, rounded to nearest. Infinity times zero is a NaN.
    pub open spec fn spec_mul(self, rhs: Float) -> Float {
        let negative = self.spec_is_sign_negative() != rhs.spec_is_sign_negative();
        if self.spec_is_nan() || rhs.spec_is_nan() {
            Float { bits: NAN_BITS }
        } else if self.spec_is_infinite() || rhs.spec_is_infinite() {
            if self.magnitude() == 0 || rhs.magnitude() == 0 {
                Float { bits: NAN_BITS }
            } else {
                signed(INFINITY_BITS as nat, negative)
            }
        } else {
            signed(nearest(self.units() * rhs.units(), pow2(1074)), negative)
        }
    }

    /// The quotient, rounded to nearest. Zero by zero and infinity by
    /// infinity are NaNs; another number by zero is an infinity.
    pub open spec fn spec_div(self, rhs: Float) -> Float {
        let negative = self.spec_is_sign_negative() != rhs.spec_is_sign_negative();
        if self.spec_is_nan() || rhs.spec_is_nan() {
            Float { bits: NAN_BITS }
        } else if self.spec_is_infinite() {
            if rhs.spec_is_infinite() {
                Float { bits: NAN_BITS }
            } else {
                signed(INFINITY_BITS as nat, negative)
            }
        } else if rhs.spec_is_infinite() {
            signed(0, negative)
        } else if rhs.magnitude() == 0 {
            if self.magnitude() == 0 {
                Float { bits: NAN_BITS }
            } else {
                signed(INFINITY_BITS as nat, negative)
            }
        } else {
            signed(nearest(self.units() * pow2(1074), rhs.units()), negative)
        }
    }

    /// The sum, rounded to nearest. Opposite infinities give a NaN. A sum
    /// that is exactly zero is positive zero unless both terms are negative.
    pub open spec fn spec_add(self, rhs: Float) -> Float {
        if self.spec_is_nan() || rhs.spec_is_nan() {
            Float { bits: NAN_BITS }
        } else if self.spec_is_infinite() {
            if rhs.spec_is_infinite() && self.spec_is_sign_negative()
                != rhs.spec_is_sign_negative() {
                Float { bits: NAN_BITS }
            } else {
                self
            }
        } else if rhs.spec_is_infinite() {
            rhs
        } else {
            rounded_sum(
                self.value() + rhs.value(),
                self.spec_is_sign_negative() && rhs.spec_is_sign_negative(),
            )
        }
    }

    /// The difference: the sum with the number of opposite sign.
    pub open spec fn spec_sub(self, rhs: Float) -> Float {
        self.spec_add(rhs.spec_neg())
    }

    /// The significand and the exponent of a finite number: its magnitude
    /// is `sig * 2^exp` units.
    pub fn decompose(self) -> (r: (u64, u32))
        requires
            self.spec_is_finite(),
        ensures
            self.units() == r.0 * pow2(r.1 as nat),
            r.0 < SIGNIFICAND_LIMIT,
            r.1 <= 2045,
            r.1 > 0 ==> r.0 >= HIDDEN_BIT,
            r.0 == 0 <==> self.magnitude() == 0,
    {
        let mag: u64 = self.abs_bits();
        proof {
            lemma2_to64();
        }
        if mag < SIGNIFICAND_LIMIT {
            assert(mag * pow2(0) == mag) by (nonlinear_arith)
                requires
                    pow2(0) == 1,
            ;
            (mag, 0)
        } else {
            let sig: u64 = mag % HIDDEN_BIT + HIDDEN_BIT;
            let exp: u64 = mag / HIDDEN_BIT - 1;
            (sig, exp as u32)
        }
    }

    /// The product, rounded to nearest.
    pub fn mul(self, rhs: Float) -> (r: Float)
        ensures
            r == self.spec_mul(rhs),
    {
        let negative: bool = self.is_sign_negative() != rhs.is_sign_negative();
        if self.is_nan() || rhs.is_nan() {
            return Float::nan();
        }
        if self.is_infinite() || rhs.is_infinite() {
            if self.abs_bits() == 0 || rhs.abs_bits() == 0 {
                return Float::nan();
            }
            return with_sign(INFINITY_BITS, negative);
        }
        let (sa, ea) = self.decompose();
        let (sb, eb) = rhs.decompose();
        let ghost num: nat = self.units() * rhs.units();
        let ghost den: nat = pow2(1074);
        proof {
            lemma_pow2_pos(1074);
        }
        if sa == 0 || sb == 0 {
            proof {
                assert(num == 0) by (nonlinear_arith)
                    requires
                        num == self.units() * rhs.units(),
                        self.units() == 0 || rhs.units() == 0,
                ;
                lemma_nearest_zero(den);
            }
            return with_sign(0, negative);
        }
        assert(1 <= sa * sb < SIG_LIMIT) by (nonlinear_arith)
            requires
                1 <= sa < 0x0020_0000_0000_0000,
                1 <= sb < 0x0020_0000_0000_0000,
                SIG_LIMIT == 0x8000_0000_0000_0000_0000_0000_0000_0000,
        ;
        let sig: u128 = (sa as u128) * (sb as u128);
        let e: i32 = ea as i32 + eb as i32 - 1074;
        proof {
            lemma_product_approximated(sa as nat, ea as nat, sb as nat, eb as nat);
        }
        let mag: u64 = round_to_nearest(sig, e, false, Ghost(num), Ghost(den));
        with_sign(mag, negative)
    }

    /// The quotient, rounded to nearest.
    pub fn div(self, rhs: Float) -> (r: Float)
        ensures
            r == self.spec_div(rhs),
    {
        let negative: bool = self.is_sign_negative() != rhs.is_sign_negative();
        if self.is_nan() || rhs.is_nan() {
            return Float::nan();
        }
        if self.is_infinite() {
            if rhs.is_infinite() {
                return Float::nan();
            }
            return with_sign(INFINITY_BITS, negative);
        }
        if rhs.is_infinite() {
            return with_sign(0, negative);
        }
        if rhs.abs_bits() == 0 {
            if self.abs_bits() == 0 {
                return Float::nan();
            }
            return with_sign(INFINITY_BITS, negative);
        }
        let (sa, ea) = self.decompose();
        let (sb, eb) = rhs.decompose();
        let ghost num: nat = self.units() * pow2(1074);
        let ghost den: nat = rhs.units();
        proof {
            lemma_pow2_pos(eb as nat);
            assert(den > 0) by (nonlinear_arith)
                requires
                    den == sb * pow2(eb as nat),
                    sb > 0,
                    pow2(eb as nat) > 0,
            ;
        }
        if sa == 0 {
            proof {
                assert(num == 0) by (nonlinear_arith)
                    requires
                        num == self.units() * pow2(1074),
                        self.units() == 0,
                ;
                lemma_nearest_zero(den);
            }
            return with_sign(0, negative);
        }
        let len: u32 = bit_length(sa as u128);
        proof {
            lemma2_to64();
            lemma2_to64_rest();
            if len > 53 {
                lemma_pow2_strictly_increases(53, (len - 1) as nat);
            }
        }
        let shift: u32 = 127 - len;
        let p: u128 = power_of_two(shift);
        proof {
            lemma_pow2_pos(shift as nat);
            lemma_pow2_adds(len as nat, shift as nat);
            lemma_pow2_adds((len - 1) as nat, shift as nat);
            lemma_pow2_adds(63, 64);
            lemma_pow2_adds(63, 63);
            lemma_pow2_adds(73, 53);
            lemma_pow2_adds(64, 9);
            assert(pow2(126) <= sa * p < pow2(127)) by (nonlinear_arith)
                requires
                    pow2((len - 1) as nat) <= sa < pow2(len as nat),
                    pow2(127) == pow2(len as nat) * p,
                    pow2(126) == pow2((len - 1) as nat) * p,
                    p > 0,
            ;
        }
        let n: u128 = (sa as u128) * p;
        let q: u128 = n / (sb as u128);
        let rem: u128 = n % (sb as u128);
        let e: i32 = ea as i32 - eb as i32 - shift as i32 + 1074;
        proof {
            lemma_fundamental_div_mod(n as int, sb as int);
            assert(q >= pow2(73)) by {
                assert(pow2(73) * sb <= n) by (nonlinear_arith)
                    requires
                        sb < pow2(53),
                        pow2(126) == pow2(73) * pow2(53),
                        pow2(126) <= n,
                ;
                assert(sb * q + sb > n);
                assert(pow2(73) <= q) by (nonlinear_arith)
                    requires
                        pow2(73) * sb <= n,
                        sb * q + sb > n,
                        sb > 0,
                ;
            }
            assert(pow2(73) >= 0x40_0000_0000_0000) by {
                lemma_pow2_strictly_increases(54, 73);
            }
            assert(q <= n) by (nonlinear_arith)
                requires
                    n == sb * q + rem,
                    rem >= 0,
                    sb >= 1,
                    q >= 0,
            ;
            lemma_quotient_approximated(
                sa as nat,
                ea as nat,
                sb as nat,
                eb as nat,
                shift as nat,
                q as nat,
                rem as nat,
            );
        }
        let mag: u64 = round_to_nearest(q, e, rem != 0, Ghost(num), Ghost(den));
        with_sign(mag, negative)
    }

    /// The sum, rounded to nearest.
    pub fn add(self, rhs: Float) -> (r: Float)
        ensures
            r == self.spec_add(rhs),
    {
        if self.is_nan() || rhs.is_nan() {
            return Float::nan();
        }
        if self.is_infinite() {
            if rhs.is_infinite() && self.is_sign_negative() != rhs.is_sign_negative() {
                return Float::nan();
            }
            return self;
        }
        if rhs.is_infinite() {
            return rhs;
        }
        let (sa, ea) = self.decompose();
        let (sb, eb) = rhs.decompose();
        let na: bool = self.is_sign_negative();
        let nb: bool = rhs.is_sign_negative();
        if ea >= eb {
            add_terms(sa, ea, na, sb, eb, nb)
        } else {
            add_terms(sb, eb, nb, sa, ea, na)
        }
    }

    /// The difference, rounded to nearest.
    pub fn sub(self, rhs: Float) -> (r: Float)
        ensures
            r == self.spec_sub(rhs),
    {
        self.add(rhs.neg())
    }
}

pub(crate) proof fn lemma_nearest_zero(den: nat)
    requires
        den > 0,
    ensures
        nearest(0, den) == 0,
{
    lemma2_to64();
    reveal_with_fuel(crate::rounding::spacing_exp, 2);
    assert(0int / den as int == 0) by (nonlinear_arith)
        requires
            den > 0,
    ;
    assert(den * pow2(0) == den) by (nonlinear_arith)
        requires
            pow2(0) == 1,
    ;
    assert(0int % den as int == 0) by (nonlinear_arith)
        requires
            den > 0,
    ;
}

proof fn lemma_product_approximated(sa: nat, ea: nat, sb: nat, eb: nat)
    ensures
        approximates(
            sa * sb,
            ea + eb - 1074,
            false,
            (sa * pow2(ea)) * (sb * pow2(eb)),
            pow2(1074),
        ),
{
    let e: int = ea + eb - 1074;
    let num: nat = (sa * pow2(ea)) * (sb * pow2(eb));
    lemma2_to64();
    lemma_pow2_adds(ea, eb);
    if e < 0 {
        lemma_pow2_adds(ea + eb, (-e) as nat);
        assert(num * pow2((-e) as nat) == (sa * sb) * (pow2(1074) * pow2(0))) by (nonlinear_arith)
            requires
                num == (sa * pow2(ea)) * (sb * pow2(eb)),
                pow2(ea + eb) == pow2(ea) * pow2(eb),
                pow2(1074) == pow2(ea + eb) * pow2((-e) as nat),
                pow2(0) == 1,
        ;
    } else {
        lemma_pow2_adds(1074, e as nat);
        assert(num * pow2(0) == (sa * sb) * (pow2(1074) * pow2(e as nat))) by (nonlinear_arith)
            requires
                num == (sa * pow2(ea)) * (sb * pow2(eb)),
                pow2(ea + eb) == pow2(ea) * pow2(eb),
                pow2(ea + eb) == pow2(1074) * pow2(e as nat),
                pow2(0) == 1,
        ;
    }
}

proof fn lemma_quotient_approximated(
    sa: nat,
    ea: nat,
    sb: nat,
    eb: nat,
    shift: nat,
    q: nat,
    rem: nat,
)
    requires
        sb > 0,
        sa * pow2(shift) == sb * q + rem,
        rem < sb,
    ensures
        approximates(
            q,
            ea - eb - shift + 1074,
            rem != 0,
            (sa * pow2(ea)) * pow2(1074),
            sb * pow2(eb),
        ),
{
    let e: int = ea - eb - shift + 1074;
    let ae: nat = if e < 0 {
        (-e) as nat
    } else {
        0
    };
    let be: nat = if e > 0 {
        e as nat
    } else {
        0
    };
    let num: nat = (sa * pow2(ea)) * pow2(1074);
    let den: nat = sb * pow2(eb);
    // 2^(ea + 1074 + ae) == 2^shift * x with x = 2^(eb + be)
    let x: nat = pow2(eb + be);
    lemma_pow2_pos(eb + be);
    lemma_pow2_adds(ea, 1074);
    lemma_pow2_adds(ea + 1074, ae);
    lemma_pow2_adds(shift, eb + be);
    lemma_pow2_adds(eb, be);
    assert(ea + 1074 + ae == shift + (eb + be));
    let a: nat = num * pow2(ae);
    let b: nat = den * pow2(be);
    assert(a == (sa * pow2(shift)) * x) by (nonlinear_arith)
        requires
            a == ((sa * pow2(ea)) * pow2(1074)) * pow2(ae),
            pow2(ea + 1074) == pow2(ea) * pow2(1074),
            pow2(ea + 1074 + ae) == pow2(ea + 1074) * pow2(ae),
            pow2(ea + 1074 + ae) == pow2(shift) * x,
    ;
    assert(b == sb * x) by (nonlinear_arith)
        requires
            b == (sb * pow2(eb)) * pow2(be),
            x == pow2(eb) * pow2(be),
    ;
    assert(a == q * b + rem * x) by (nonlinear_arith)
        requires
            a == (sa * pow2(shift)) * x,
            sa * pow2(shift) == sb * q + rem,
            b == sb * x,
    ;
    assert((q + 1) * b == q * b + b) by (nonlinear_arith);
    if rem == 0 {
        assert(rem * x == 0) by (nonlinear_arith)
            requires
                rem == 0,
        ;
    } else {
        assert(0 < rem * x < b) by (nonlinear_arith)
            requires
                0 < rem < sb,
                b == sb * x,
                x > 0,
        ;
    }
}

/// The rounded sum of two terms, the first with the larger exponent.
fn add_terms(sa: u64, ea: u32, na: bool, sb: u64, eb: u32, nb: bool) -> (r: Float)
    requires
        eb <= ea <= 2045,
        sa < SIGNIFICAND_LIMIT,
        sb < SIGNIFICAND_LIMIT,
        ea > 0 ==> sa >= HIDDEN_BIT,
    ensures
        r == rounded_sum(
            term(sa as nat, ea as nat, na) + term(sb as nat, eb as nat, nb),
            na && nb,
        ),
{
    let ghost ta: int = (sa * pow2(ea as nat)) as int;
    let ghost tb: int = (sb * pow2(eb as nat)) as int;
    let ghost sum: int = term(sa as nat, ea as nat, na) + term(sb as nat, eb as nat, nb);
    let ghost pe: int = pow2(eb as nat) as int;
    proof {
        lemma2_to64();
        lemma2_to64_rest();
        lemma_pow2_pos(ea as nat);
        lemma_pow2_pos(eb as nat);
        lemma_pow2_adds((ea - eb) as nat, eb as nat);
        assert(ta >= 0 && tb >= 0);
        assert(sa == 0 ==> ta == 0) by (nonlinear_arith)
            requires
                ta == sa * pow2(ea as nat),
        ;
        assert(sb == 0 ==> tb == 0) by (nonlinear_arith)
            requires
                tb == sb * pow2(eb as nat),
        ;
        assert(sa > 0 ==> ta > 0) by (nonlinear_arith)
            requires
                ta == sa * pow2(ea as nat),
                pow2(ea as nat) > 0,
        ;
    }
    let d: u32 = ea - eb;
    if sb == 0 {
        if sa == 0 {
            return with_sign(0, na && nb);
        }
        proof {
            assert(approximates(sa as nat, ea as int, false, ta as nat, 1)) by {
                assert(ta * pow2(0) == sa * (1 * pow2(ea as nat))) by (nonlinear_arith)
                    requires
                        ta == sa * pow2(ea as nat),
                        pow2(0) == 1,
                ;
            }
        }
        let mag: u64 = round_to_nearest(sa as u128, ea as i32, false, Ghost(ta as nat), Ghost(1));
        return with_sign(mag, na);
    }
    if d <= 70 {
        let p: u128 = power_of_two(d);
        proof {
            lemma_pow2_adds(53, 70);
            lemma_pow2_adds(63, 60);
            lemma_pow2_adds(63, 64);
            lemma_pow2_pos(d as nat);
            if d < 70 {
                lemma_pow2_strictly_increases(d as nat, 70);
            }
            lemma_pow2_strictly_increases(123, 127);
            assert(sa * p < pow2(123)) by (nonlinear_arith)
                requires
                    sa < pow2(53),
                    0 < p <= pow2(70),
                    pow2(123) == pow2(53) * pow2(70),
            ;
            assert(pow2(123) + pow2(53) < pow2(127)) by {
                lemma_pow2_strictly_increases(53, 123);
                lemma_pow2_adds(1, 123);
                lemma_pow2_strictly_increases(124, 127);
            }
            assert(ta == (sa * p) * pe) by (nonlinear_arith)
                requires
                    ta == sa * pow2(ea as nat),
                    pow2(ea as nat) == p * pe,
            ;
        }
        let a: u128 = (sa as u128) * p;
        let b: u128 = sb as u128;
        let sig: u128;
        let negative: bool;
        if na == nb {
            sig = a + b;
            negative = na;
            proof {
                assert(ta + tb == sig * pe) by (nonlinear_arith)
                    requires
                        ta == a * pe,
                        tb == b * pe,
                        sig == a + b,
                ;
            }
        } else if a > b {
            sig = a - b;
            negative = na;
            proof {
                assert(ta - tb == sig * pe) by (nonlinear_arith)
                    requires
                        ta == a * pe,
                        tb == b * pe,
                        sig == a - b,
                ;
                assert(sig * pe > 0) by (nonlinear_arith)
                    requires
                        sig > 0,
                        pe > 0,
                ;
            }
        } else if a < b {
            sig = b - a;
            negative = nb;
            proof {
                assert(tb - ta == sig * pe) by (nonlinear_arith)
                    requires
                        ta == a * pe,
                        tb == b * pe,
                        sig == b - a,
                ;
                assert(sig * pe > 0) by (nonlinear_arith)
                    requires
                        sig > 0,
                        pe > 0,
                ;
            }
        } else {
            assert(ta == tb);
            return with_sign(0, false);
        }
        let ghost total: nat = (sig * pe) as nat;
        proof {
            assert(sig * pe > 0) by (nonlinear_arith)
                requires
                    sig > 0,
                    pe > 0,
            ;
            assert(total == if sum < 0 {
                -sum
            } else {
                sum
            });
            assert(negative == (sum < 0));
            assert(approximates(sig as nat, eb as int, false, total, 1)) by {
                assert(total * pow2(0) == sig * (1 * pe)) by (nonlinear_arith)
                    requires
                        total == sig * pe,
                        pow2(0) == 1,
                ;
            }
        }
        let mag: u64 = round_to_nearest(sig, eb as i32, false, Ghost(total), Ghost(1));
        return with_sign(mag, negative);
    }
    // The second term is less than an eighth of a step of the first.
    let e: i32 = ea as i32 - 3;
    let ghost step: int = pow2((ea - 3) as nat) as int;
    proof {
        lemma_pow2_adds(3, (ea - 3) as nat);
        lemma_pow2_adds(53, eb as nat);
        lemma_pow2_strictly_increases((53 + eb) as nat, (ea - 3) as nat);
        assert(ta == (sa * 8) * step) by (nonlinear_arith)
            requires
                ta == sa * pow2(ea as nat),
                pow2(ea as nat) == 8 * step,
        ;
        assert(0 < tb < step) by (nonlinear_arith)
            requires
                tb == sb * pe,
                0 < sb < pow2(53),
                pe > 0,
                pow2((53 + eb) as nat) == pow2(53) * pe,
                pow2((53 + eb) as nat) < step,
        ;
    }
    let sig: u128 = if na == nb {
        (sa as u128) * 8
    } else {
        (sa as u128) * 8 - 1
    };
    let ghost total: nat = if na == nb {
        (ta + tb) as nat
    } else {
        (ta - tb) as nat
    };
    proof {
        assert((sig + 1) * step == sig * step + step) by (nonlinear_arith);
        assert(sig * step >= step) by (nonlinear_arith)
            requires
                sig >= 1,
                step > 0,
        ;
        if na != nb {
            assert(sig * step == (sa * 8) * step - step) by (nonlinear_arith)
                requires
                    sig == sa * 8 - 1,
            ;
        }
        assert(total == if sum < 0 {
            -sum
        } else {
            sum
        });
        assert(na == (sum < 0));
        assert(approximates(sig as nat, e as int, true, total, 1)) by {
            assert(total * pow2(0) == total) by (nonlinear_arith)
                requires
                    pow2(0) == 1,
            ;
            assert(1 * pow2(e as nat) == step);
        }
    }
    let mag: u64 = round_to_nearest(sig, e, true, Ghost(total), Ghost(1));
    with_sign(mag, na)
}

} // verus!
