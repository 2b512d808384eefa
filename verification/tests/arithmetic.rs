use osm_json::convert::{lon2x, to_degrees, to_radians, x2lon};
use osm_json::float::Float;

fn fl(x: f64) -> Float {
    Float::from_bits(x.to_bits())
}

fn native(x: Float) -> f64 {
    f64::from_bits(x.to_bits())
}

fn agree(got: Float, want: f64) -> bool {
    if want.is_nan() {
        got.is_nan()
    } else {
        got.to_bits() == want.to_bits()
    }
}

fn samples() -> Vec<f64> {
    let mut v: Vec<f64> = vec![
        0.0,
        -0.0,
        1.0,
        -1.0,
        2.0,
        0.5,
        3.0,
        10.0,
        50.0,
        180.0,
        -180.0,
        90.0,
        41.30365,
        -81.90212,
        6378137.0,
        std::f64::consts::PI,
        1e-310,
        -4e-320,
        5e-324,
        f64::MIN_POSITIVE,
        f64::MAX,
        f64::MIN,
        1e308,
        1e-308,
        1.7976931348623157e308,
        9007199254740992.0,
        9007199254740993.0,
        0.1,
        0.2,
        0.3,
        1.0 / 3.0,
        f64::INFINITY,
        f64::NEG_INFINITY,
        f64::NAN,
        f64::EPSILON,
        1.0 + f64::EPSILON,
        1.0 - f64::EPSILON / 2.0,
    ];
    let mut state: u64 = 0x9E37_79B9_7F4A_7C15;
    for _ in 0..400 {
        state ^= state << 13;
        state ^= state >> 7;
        state ^= state << 17;
        v.push(f64::from_bits(state));
        let small = (state >> 11) as f64 / (1u64 << 40) as f64 - 4096.0;
        v.push(small);
    }
    v
}

#[test]
fn multiplication_agrees_with_the_machine() {
    let xs = samples();
    for &a in xs.iter() {
        for &b in xs.iter() {
            assert!(agree(fl(a).mul(fl(b)), a * b), "{:?} * {:?}", a, b);
        }
    }
}

#[test]
fn division_agrees_with_the_machine() {
    let xs = samples();
    for &a in xs.iter() {
        for &b in xs.iter() {
            assert!(agree(fl(a).div(fl(b)), a / b), "{:?} / {:?}", a, b);
        }
    }
}

#[test]
fn addition_agrees_with_the_machine() {
    let xs = samples();
    for &a in xs.iter() {
        for &b in xs.iter() {
            assert!(agree(fl(a).add(fl(b)), a + b), "{:?} + {:?}", a, b);
        }
    }
}

#[test]
fn subtraction_agrees_with_the_machine() {
    let xs = samples();
    for &a in xs.iter() {
        for &b in xs.iter() {
            assert!(agree(fl(a).sub(fl(b)), a - b), "{:?} - {:?}", a, b);
        }
    }
}

#[test]
fn comparison_agrees_with_the_machine() {
    let xs = samples();
    for &a in xs.iter() {
        for &b in xs.iter() {
            assert_eq!(fl(a).lt(fl(b)), a < b, "{:?} < {:?}", a, b);
            assert_eq!(fl(a).le(fl(b)), a <= b, "{:?} <= {:?}", a, b);
            assert_eq!(fl(a) == fl(b), a == b, "{:?} == {:?}", a, b);
            let lo = native(fl(a).min(fl(b)));
            let hi = native(fl(a).max(fl(b)));
            assert!(lo == a.min(b) || (lo.is_nan() && a.min(b).is_nan()));
            assert!(hi == a.max(b) || (hi.is_nan() && a.max(b).is_nan()));
        }
    }
}

#[test]
fn angle_units_agree_with_the_machine() {
    for &a in samples().iter() {
        assert!(agree(to_radians(fl(a)), a.to_radians()), "{:?}", a);
        assert!(agree(to_degrees(fl(a)), a.to_degrees()), "{:?}", a);
    }
}

#[test]
fn longitude_agrees_with_the_machine() {
    for &a in samples().iter() {
        assert!(agree(lon2x(fl(a)), 6378137.0 * a.to_radians()), "{:?}", a);
        assert!(agree(x2lon(fl(a)), (a / 6378137.0).to_degrees()), "{:?}", a);
    }
}

#[test]
fn longitude_of_ten_degrees() {
    assert_eq!(native(lon2x(fl(10.0))), 1113194.9079327357);
    assert_eq!(native(x2lon(fl(1113194.9079327357))), 10.0);
}

#[test]
fn longitude_comes_back_within_seven_parts() {
    let mut lons: Vec<f64> = vec![180.0, -180.0, 0.0, -0.0, 1e-300, -1e300, 1.0, 41.30365, -81.90212];
    for &x in samples().iter() {
        if x.is_finite() && (x == 0.0 || (x.abs() >= 2f64.powi(-1000) && x.abs() <= 2f64.powi(1000))) {
            lons.push(x);
        }
    }
    for &lon in lons.iter() {
        let back = native(x2lon(lon2x(fl(lon))));
        assert!(back.is_finite());
        assert_eq!(back.is_sign_negative(), lon.is_sign_negative(), "{:?}", lon);
        assert!((back - lon).abs() <= lon.abs() * 7.0 * 2f64.powi(-53), "{:?} {:?}", lon, back);
    }
    assert_eq!(native(x2lon(lon2x(fl(0.0)))).to_bits(), 0.0f64.to_bits());
    assert_eq!(native(x2lon(lon2x(fl(-0.0)))).to_bits(), (-0.0f64).to_bits());
}

#[test]
fn large_longitude_does_not_come_back() {
    assert_eq!(native(lon2x(fl(1e308))), f64::INFINITY);
    assert_eq!(native(x2lon(lon2x(fl(1e308)))), f64::INFINITY);
}

#[test]
fn a_number_is_kept_by_one_and_by_zero() {
    for &x in samples().iter() {
        if x.is_nan() {
            continue;
        }
        assert_eq!(fl(x).mul(fl(1.0)).to_bits(), x.to_bits());
        assert_eq!(fl(x).div(fl(1.0)).to_bits(), x.to_bits());
        assert_eq!(fl(x).sub(fl(0.0)).to_bits(), x.to_bits());
        if x != 0.0 {
            assert_eq!(fl(x).add(fl(0.0)).to_bits(), x.to_bits());
        }
    }
}

#[test]
fn ties_go_to_the_even_neighbour() {
    // 2^53 + 1 lies halfway between 2^53 and 2^53 + 2
    let big = fl(9007199254740992.0);
    assert_eq!(native(big.add(fl(1.0))), 9007199254740992.0);
    assert_eq!(native(big.add(fl(3.0))), 9007199254740996.0);
    assert_eq!(native(fl(5e-324).div(fl(2.0))), 0.0);
    assert_eq!(native(fl(1.5e-323).div(fl(2.0))), 1e-323);
    assert_eq!(native(fl(f64::MAX).add(fl(f64::MAX))), f64::INFINITY);
    assert_eq!(native(fl(f64::MAX).mul(fl(-2.0))), f64::NEG_INFINITY);
    assert_eq!(native(fl(f64::MAX).add(fl(2f64.powi(969)))), f64::MAX);
    assert_eq!(native(fl(f64::MAX).add(fl(2f64.powi(970)))), f64::INFINITY);
}

#[test]
fn results_that_are_no_number() {
    let inf = fl(f64::INFINITY);
    let zero = fl(0.0);
    assert!(inf.mul(zero).is_nan());
    assert!(zero.div(zero).is_nan());
    assert!(inf.div(inf).is_nan());
    assert!(inf.sub(inf).is_nan());
    assert!(inf.add(inf.neg()).is_nan());
    assert_eq!(inf.mul(zero).to_bits(), Float::nan().to_bits());
    assert_eq!(native(fl(1.0).div(zero)), f64::INFINITY);
    assert_eq!(native(fl(-1.0).div(zero)), f64::NEG_INFINITY);
    assert_eq!(fl(1.0).div(inf.neg()).to_bits(), (-0.0f64).to_bits());
    assert_eq!(zero.neg().add(zero.neg()).to_bits(), (-0.0f64).to_bits());
    assert_eq!(zero.neg().add(zero).to_bits(), 0.0f64.to_bits());
    assert_eq!(fl(1.0).sub(fl(1.0)).to_bits(), 0.0f64.to_bits());
}

#[test]
fn kinds_of_numbers() {
    for &x in samples().iter() {
        let f = fl(x);
        assert_eq!(f.is_nan(), x.is_nan());
        assert_eq!(f.is_infinite(), x.is_infinite());
        assert_eq!(f.is_finite(), x.is_finite());
        assert_eq!(f.is_sign_negative(), x.is_sign_negative());
        assert_eq!(f.neg().to_bits(), (-x).to_bits());
        assert_eq!(f.abs_bits(), x.abs().to_bits());
        assert_eq!(Float::from_bits(x.to_bits()).to_bits(), x.to_bits());
    }
    assert_eq!(native(Float::zero()), 0.0);
    assert_eq!(native(Float::infinity()), f64::INFINITY);
    assert_eq!(native(Float::neg_infinity()), f64::NEG_INFINITY);
    assert!(Float::nan().is_nan());
    assert!(fl(-0.0).precedes(fl(0.0)));
    assert!(!fl(0.0).precedes(fl(-0.0)));
    assert!(fl(-1.0).precedes(fl(-0.0)));
    assert!(fl(1.0).precedes(fl(f64::INFINITY)));
}

#[test]
fn parts_of_a_number() {
    assert_eq!(fl(0.0).decompose(), (0, 0));
    assert_eq!(fl(5e-324).decompose(), (1, 0));
    assert_eq!(fl(1.0).decompose(), (1 << 52, 1022));
    assert_eq!(fl(-1.5).decompose(), (3 << 51, 1022));
    assert_eq!(fl(f64::MAX).decompose(), ((1 << 53) - 1, 2045));
    assert_eq!(fl(f64::MIN_POSITIVE).decompose(), (1 << 52, 0));
}
