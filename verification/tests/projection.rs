use osm_json::convert::{
    arctangent2lat, lat2angle, lat2y, log2y, lon2x, x2lon, y2exponent, y2lat, Convert, Custom,
    Projection, WebMercator,
};
use osm_json::{Coordinate, Float, Node, OsmData, Tags, Way};
use std::f64::consts::{E, FRAC_PI_2, FRAC_PI_4};

const R: f64 = 6378137.;

fn fl(x: f64) -> Float {
    Float::from_bits(x.to_bits())
}

fn native(x: Float) -> f64 {
    f64::from_bits(x.to_bits())
}

fn agree(got: Float, want: f64) -> bool {
    if want.is_nan() {
        got.is_nan()
    } else {
        got.to_bits() == want.to_bits()
    }
}

fn log_tan(angle: Float) -> Float {
    fl(native(angle).tan().log(E))
}

fn atan_exp(exponent: Float) -> Float {
    fl(native(exponent).exp().atan())
}

fn web_mercator() -> WebMercator<fn(Float) -> Float, fn(Float) -> Float> {
    WebMercator::new(log_tan, atan_exp)
}

#[test]
fn projection_webmercator() {
    let original = Coordinate::new(fl(50.), fl(10.));

    let mut projected = original.clone();
    projected.convert_to(&web_mercator());

    let mut reverted = projected.clone();
    reverted.revert_from(&web_mercator());

    assert!((native(original.lat).abs() - native(reverted.lat).abs()) <= 0.00001);
    assert!((native(original.lon).abs() - native(reverted.lon).abs()) <= 0.00001);
    assert!((native(original.lat) - native(reverted.lat)).abs() <= 0.00001);
    assert!((native(original.lon) - native(reverted.lon)).abs() <= 0.00001);
    assert!((native(projected.lat) - 6446275.841017158).abs() <= 0.000001);
    assert_eq!(native(projected.lon), 1113194.9079327357);
}

#[test]
fn projection_custom() {
    let mut coordinate = Coordinate::new(fl(50.), fl(10.));
    coordinate.convert_to(&Custom::new(|c: Coordinate| Coordinate::new(c.lat.neg(), c.lon)));

    assert_eq!(coordinate, Coordinate::new(fl(-50.), fl(10.)));
}

#[test]
fn latitude_arithmetic_agrees_with_the_machine() {
    let mut x = -95.0f64;
    while x <= 95.0 {
        assert_eq!(native(lat2angle(fl(x))), x.to_radians() / 2. + FRAC_PI_4, "{}", x);
        assert_eq!(native(log2y(fl(x))), x * R, "{}", x);
        assert_eq!(native(y2exponent(fl(x * 100000.0))), (x * 100000.0) / R, "{}", x);
        assert_eq!(native(arctangent2lat(fl(x / 60.0))), (2. * (x / 60.0) - FRAC_PI_2).to_degrees());
        assert!(agree(lat2y(fl(x), &log_tan), (x.to_radians() / 2. + FRAC_PI_4).tan().log(E) * R), "{}", x);
        let y = x * 200000.0;
        assert!(agree(y2lat(fl(y), &atan_exp), (2. * (y / R).exp().atan() - FRAC_PI_2).to_degrees()), "{}", y);
        x += 0.37;
    }
}

#[test]
fn round_trip_within_tolerance() {
    let mut lat = -89.5f64;
    while lat < 90.0 {
        let mut lon = -180.0f64;
        while lon <= 180.0 {
            let mercator = web_mercator();
            let back = mercator.backward(mercator.forward(Coordinate::new(fl(lat), fl(lon))));
            assert!((native(back.lat) - lat).abs() <= 0.00001, "{} {}", lat, lon);
            assert!((native(back.lon) - lon).abs() <= 0.00000000001, "{} {}", lat, lon);
            lon += 7.5;
        }
        lat += 3.7;
    }
}

#[test]
fn longitude_of_the_antimeridian_comes_back() {
    for lon in [180.0f64, -180.0, 0.0, 179.99999, -0.0] {
        let x = lon2x(fl(lon));
        assert!((native(x2lon(x)) - lon).abs() <= 1e-13, "{}", lon);
    }
    assert_eq!(native(lon2x(fl(180.0))), R * 180f64.to_radians());
    assert_eq!(native(lon2x(fl(180.0))), 20037508.342789244);
}

#[test]
fn poles_are_not_guarded() {
    let north = native(lat2y(fl(90.0), &log_tan));
    assert!(agree(fl(north), (90f64.to_radians() / 2. + FRAC_PI_4).tan().log(E) * R));
    assert!(north.is_nan() || north.abs() > 2.0e8);
}

#[test]
fn nodes_are_moved_and_nothing_else() {
    let mut tags = Tags::new();
    tags.insert(String::from("k"), String::from("v"));
    let mut data = OsmData::default();
    data.version = String::from("0.6");
    for i in 0..20u64 {
        let mut node = Node::from_coordinate(Coordinate::new(fl(i as f64), fl(-(i as f64))));
        node.id = i;
        node.user = format!("user{}", i);
        node.tags = tags.clone();
        data.nodes.insert(i, node);
    }
    data.ways.insert(
        5,
        Way {
            id: 5,
            timestamp: String::from("t"),
            version: 2,
            changeset: 3,
            user: String::from("w"),
            nodes: vec![1, 2, 3],
            tags: tags.clone(),
        },
    );
    let bounds = data.bounds;

    data.convert_to(&web_mercator());

    assert_eq!(data.nodes.len(), 20);
    for i in 0..20u64 {
        let node = &data.nodes[&i];
        assert_eq!(node.id, i);
        assert_eq!(node.user, format!("user{}", i));
        assert_eq!(node.tags, tags);
        assert_eq!(node.pos.lat.to_bits(), lat2y(fl(i as f64), &log_tan).to_bits());
        assert_eq!(node.pos.lon.to_bits(), lon2x(fl(-(i as f64))).to_bits());
    }
    assert_eq!(data.ways.len(), 1);
    assert_eq!(data.ways[&5].nodes, vec![1, 2, 3]);
    assert_eq!(data.ways[&5].tags, tags);
    assert_eq!(data.version, "0.6");
    assert_eq!(data.bounds, bounds);

    data.revert_from(&web_mercator());
    for i in 0..20u64 {
        let node = &data.nodes[&i];
        assert!((native(node.pos.lat) - i as f64).abs() <= 0.00001);
        assert!((native(node.pos.lon) + i as f64).abs() <= 0.00001);
    }
}

#[test]
fn node_is_moved_and_nothing_else() {
    let mut node = Node::from_coordinate(Coordinate::new(fl(1.0), fl(2.0)));
    node.id = 77;
    node.timestamp = String::from("now");
    let swap = Custom::new(|c: Coordinate| Coordinate::new(c.lon, c.lat));
    node.convert_to(&swap);
    assert_eq!(node.pos, Coordinate::new(fl(2.0), fl(1.0)));
    assert_eq!(node.id, 77);
    assert_eq!(node.timestamp, "now");
    node.revert_from(&swap);
    assert_eq!(node.pos, Coordinate::new(fl(1.0), fl(2.0)));
    node.convert_to(&web_mercator());
    assert_eq!(node.pos.lon.to_bits(), lon2x(fl(2.0)).to_bits());
    assert_eq!(node.id, 77);
}
