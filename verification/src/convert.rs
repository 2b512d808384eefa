//! Projections: the way of coordinates to a plane and back.
//!
//! The spherical Mercator projection maps a longitude linearly,
//! `x = R * lon` with `lon` in radians, and a latitude by
//! `y = R * ln(tan(pi/4 + lat/2))`, and back by
//! `lat = 2 * atan(exp(y / R)) - pi/2`. The tangent, the logarithm, the
//! exponential and the arc tangent are not computed here: the caller hands
//! in the logarithm of the tangent and the arc tangent of the exponential as
//! functions, and the arithmetic before and after them is done here.

use vstd::prelude::*;
use vstd::std_specs::iter::IteratorSpec;
use vstd::std_specs::hash::spec_keys_iter;
use crate::float::Float;
use crate::types::{Coordinate, Id, Node, OsmData, HALF_TURN_BITS, TWO_BITS};

verus! {

/// The encoding of the radius of the sphere, 6378137 metres.
pub const RADIUS_BITS: u64 = 0x4158_54A6_4000_0000;

/// The encoding of the binary64 number nearest to pi.
pub const PI_BITS: u64 = 0x4009_21FB_5444_2D18;

/// The encoding of the binary64 number nearest to pi / 2.
pub const FRAC_PI_2_BITS: u64 = 0x3FF9_21FB_5444_2D18;

/// The encoding of the binary64 number nearest to pi / 4.
pub const FRAC_PI_4_BITS: u64 = 0x3FE9_21FB_5444_2D18;

/// The number with the given encoding.
pub open spec fn number(bits: u64) -> Float {
    Float { bits }
}

/// The quotient of pi by 180, by which degrees become radians.
pub open spec fn to_radians_factor() -> Float {
    number(PI_BITS).spec_div(number(HALF_TURN_BITS))
}

/// The quotient of 180 by pi, by which radians become degrees.
pub open spec fn to_degrees_factor() -> Float {
    number(HALF_TURN_BITS).spec_div(number(PI_BITS))
}

/// Degrees as radians: the product with the quotient of pi by 180.
pub open spec fn radians(degrees: Float) -> Float {
    degrees.spec_mul(to_radians_factor())
}

/// Radians as degrees: the product with the quotient of 180 by pi.
pub open spec fn degrees(radians: Float) -> Float {
    radians.spec_mul(to_degrees_factor())
}

/// Degrees as radians.
pub fn to_radians(degrees: Float) -> (r: Float)
    ensures
        r == radians(degrees),
{
    degrees.mul(Float::from_bits(PI_BITS).div(Float::from_bits(HALF_TURN_BITS)))
}

/// Radians as degrees.
pub fn to_degrees(radians: Float) -> (r: Float)
    ensures
        r == degrees(radians),
{
    radians.mul(Float::from_bits(HALF_TURN_BITS).div(Float::from_bits(PI_BITS)))
}

/// The planar `x` of a longitude in degrees: the radius times the longitude
/// in radians.
pub fn lon2x(lon: Float) -> (x: Float)
    ensures
        x == number(RADIUS_BITS).spec_mul(radians(lon)),
{
    Float::from_bits(RADIUS_BITS).mul(to_radians(lon))
}

/// The longitude in degrees of a planar `x`: `x` by the radius, as degrees.
pub fn x2lon(x: Float) -> (lon: Float)
    ensures
        lon == degrees(x.spec_div(number(RADIUS_BITS))),
{
    to_degrees(x.div(Float::from_bits(RADIUS_BITS)))
}

/// The angle `pi/4 + lat/2` in radians of a latitude in degrees.
pub open spec fn latitude_angle(lat: Float) -> Float {
    radians(lat).spec_div(number(TWO_BITS)).spec_add(number(FRAC_PI_4_BITS))
}

/// The latitude in degrees of the arc tangent of `exp(y / R)`: twice the arc
/// tangent, less `pi/2`, as degrees.
pub open spec fn angle_latitude(arctangent: Float) -> Float {
    degrees(number(TWO_BITS).spec_mul(arctangent).spec_sub(number(FRAC_PI_2_BITS)))
}

/// The angle `pi/4 + lat/2` of a latitude in degrees. The planar `y` is the
/// radius times the logarithm of its tangent.
pub fn lat2angle(lat: Float) -> (angle: Float)
    ensures
        angle == latitude_angle(lat),
{
    to_radians(lat).div(Float::from_bits(TWO_BITS)).add(Float::from_bits(FRAC_PI_4_BITS))
}

/// The planar `y` of the logarithm of the tangent of `pi/4 + lat/2`: the
/// logarithm times the radius.
pub fn log2y(log: Float) -> (y: Float)
    ensures
        y == log.spec_mul(number(RADIUS_BITS)),
{
    log.mul(Float::from_bits(RADIUS_BITS))
}

/// A planar `y` by the radius. The latitude in radians is twice the arc
/// tangent of its exponential, less `pi/2`.
pub fn y2exponent(y: Float) -> (exponent: Float)
    ensures
        exponent == y.spec_div(number(RADIUS_BITS)),
{
    y.div(Float::from_bits(RADIUS_BITS))
}

/// The latitude in degrees of the arc tangent of `exp(y / R)`: twice the
/// arc tangent, less `pi/2`, as degrees.
pub fn arctangent2lat(arctangent: Float) -> (lat: Float)
    ensures
        lat == angle_latitude(arctangent),
{
    to_degrees(Float::from_bits(TWO_BITS).mul(arctangent).sub(Float::from_bits(FRAC_PI_2_BITS)))
}

/// The planar `y` of a latitude in degrees, with `log_tan` for the logarithm
/// of the tangent: `log_tan` of the angle `pi/4 + lat/2`, times the radius.
pub fn lat2y<G: Fn(Float) -> Float>(lat: Float, log_tan: &G) -> (y: Float)
    requires
        log_tan.requires((latitude_angle(lat),)),
    ensures
        exists|log: Float|
            log_tan.ensures((latitude_angle(lat),), log) && y == log.spec_mul(
                number(RADIUS_BITS),
            ),
{
    log2y(log_tan(lat2angle(lat)))
}

/// The latitude in degrees of a planar `y`, with `atan_exp` for the arc
/// tangent of the exponential: twice `atan_exp` of `y` by the radius, less
/// `pi/2`, as degrees.
pub fn y2lat<H: Fn(Float) -> Float>(y: Float, atan_exp: &H) -> (lat: Float)
    requires
        atan_exp.requires((y.spec_div(number(RADIUS_BITS)),)),
    ensures
        exists|arctangent: Float|
            atan_exp.ensures((y.spec_div(number(RADIUS_BITS)),), arctangent) && lat
                == angle_latitude(arctangent),
{
    arctangent2lat(atan_exp(y2exponent(y)))
}

/// A projection: a way from coordinates in degrees to a plane, and a way
/// back.
pub trait Projection {
    /// Whether the projection takes `c`, on the way to the plane where
    /// `forward` and else on the way back.
    spec fn admits(&self, forward: bool, c: Coordinate) -> bool;

    /// Whether the projection may make `r` of `c`.
    spec fn maps(&self, forward: bool, c: Coordinate, r: Coordinate) -> bool;

    /// The point of the plane for a coordinate in degrees.
    fn forward(&self, c: Coordinate) -> (r: Coordinate)
        requires
            self.admits(true, c),
        ensures
            self.maps(true, c, r),
    ;

    /// The coordinate in degrees for a point of the plane.
    fn backward(&self, c: Coordinate) -> (r: Coordinate)
        requires
            self.admits(false, c),
        ensures
            self.maps(false, c, r),
    ;
}

/// The spherical Mercator projection of the web, with the two functions of
/// it that are not arithmetic: the logarithm of the tangent, and the arc
/// tangent of the exponential.
///
/// See <https://wiki.openstreetmap.org/wiki/Web_Mercator>.
pub struct WebMercator<G, H> {
    pub log_tan: G,
    pub atan_exp: H,
}

impl<G: Fn(Float) -> Float, H: Fn(Float) -> Float> WebMercator<G, H> {
    /// The projection with `log_tan` for the logarithm of the tangent and
    /// `atan_exp` for the arc tangent of the exponential.
    pub fn new(log_tan: G, atan_exp: H) -> (r: Self)
        ensures
            r.log_tan == log_tan,
            r.atan_exp == atan_exp,
    {
        WebMercator { log_tan, atan_exp }
    }
}

impl<G: Fn(Float) -> Float, H: Fn(Float) -> Float> Projection for WebMercator<G, H> {
    open spec fn admits(&self, forward: bool, c: Coordinate) -> bool {
        if forward {
            self.log_tan.requires((latitude_angle(c.lat),))
        } else {
            self.atan_exp.requires((c.lat.spec_div(number(RADIUS_BITS)),))
        }
    }

    open spec fn maps(&self, forward: bool, c: Coordinate, r: Coordinate) -> bool {
        if forward {
            &&& exists|log: Float|
                self.log_tan.ensures((latitude_angle(c.lat),), log) && r.lat == log.spec_mul(
                    number(RADIUS_BITS),
                )
            &&& r.lon == number(RADIUS_BITS).spec_mul(radians(c.lon))
        } else {
            &&& exists|arctangent: Float|
                self.atan_exp.ensures((c.lat.spec_div(number(RADIUS_BITS)),), arctangent) && r.lat
                    == angle_latitude(arctangent)
            &&& r.lon == degrees(c.lon.spec_div(number(RADIUS_BITS)))
        }
    }

    fn forward(&self, c: Coordinate) -> (r: Coordinate) {
        Coordinate { lat: lat2y(c.lat, &self.log_tan), lon: lon2x(c.lon) }
    }

    fn backward(&self, c: Coordinate) -> (r: Coordinate) {
        Coordinate { lat: y2lat(c.lat, &self.atan_exp), lon: x2lon(c.lon) }
    }
}

/// A projection by a function of the caller, the same on the way to the
/// plane and on the way back.
pub struct Custom<F> {
    pub f: F,
}

impl<F: Fn(Coordinate) -> Coordinate> Custom<F> {
    /// The projection by `f`.
    pub fn new(f: F) -> (r: Self)
        ensures
            r.f == f,
    {
        Custom { f }
    }
}

impl<F: Fn(Coordinate) -> Coordinate> Projection for Custom<F> {
    open spec fn admits(&self, forward: bool, c: Coordinate) -> bool {
        self.f.requires((c,))
    }

    open spec fn maps(&self, forward: bool, c: Coordinate, r: Coordinate) -> bool {
        self.f.ensures((c,), r)
    }

    fn forward(&self, c: Coordinate) -> (r: Coordinate) {
        (self.f)(c)
    }

    fn backward(&self, c: Coordinate) -> (r: Coordinate) {
        (self.f)(c)
    }
}

/// What can be taken to the plane of a projection and back.
pub trait Convert<P: Projection>: Sized {
    /// Whether the projection takes every coordinate that `self` holds.
    spec fn admitted(&self, p: &P, forward: bool) -> bool;

    /// Whether `after` is `self` with every coordinate projected and nothing
    /// else changed.
    spec fn converted(&self, p: &P, forward: bool, after: &Self) -> bool;

    /// Takes every coordinate to the plane.
    fn convert_to(&mut self, p: &P)
        requires
            old(self).admitted(p, true),
        ensures
            old(self).converted(p, true, final(self)),
    ;

    /// Takes every coordinate back from the plane.
    fn revert_from(&mut self, p: &P)
        requires
            old(self).admitted(p, false),
        ensures
            old(self).converted(p, false, final(self)),
    ;
}

impl<P: Projection> Convert<P> for Coordinate {
    open spec fn admitted(&self, p: &P, forward: bool) -> bool {
        p.admits(forward, *self)
    }

    open spec fn converted(&self, p: &P, forward: bool, after: &Self) -> bool {
        p.maps(forward, *self, *after)
    }

    fn convert_to(&mut self, p: &P) {
        let projected: Coordinate = p.forward(*self);
        *self = projected;
    }

    fn revert_from(&mut self, p: &P) {
        let reverted: Coordinate = p.backward(*self);
        *self = reverted;
    }
}

impl<P: Projection> Convert<P> for Node {
    open spec fn admitted(&self, p: &P, forward: bool) -> bool {
        p.admits(forward, self.pos)
    }

    open spec fn converted(&self, p: &P, forward: bool, after: &Self) -> bool {
        &&& p.maps(forward, self.pos, after.pos)
        &&& *after == (Node { pos: after.pos, ..*self })
    }

    fn convert_to(&mut self, p: &P) {
        self.pos.convert_to(p);
    }

    fn revert_from(&mut self, p: &P) {
        self.pos.revert_from(p);
    }
}

impl<P: Projection> Convert<P> for OsmData {
    open spec fn admitted(&self, p: &P, forward: bool) -> bool {
        forall|id: Id| self.nodes@.contains_key(id) ==> (#[trigger] self.nodes@[id]).admitted(p, forward)
    }

    /// The nodes keep their identities, the position of each is projected,
    /// and neither anything else of a node nor the ways, the rectangle or
    /// what the data set says of itself change.
    open spec fn converted(&self, p: &P, forward: bool, after: &Self) -> bool {
        &&& after.nodes@.dom() == self.nodes@.dom()
        &&& forall|id: Id|
            self.nodes@.contains_key(id) ==> self.nodes@[id].converted(
                p,
                forward,
                &#[trigger] after.nodes@[id],
            )
        &&& *after == (OsmData { nodes: after.nodes, ..*self })
    }

    fn convert_to(&mut self, p: &P) {
        project_nodes(self, p, true);
    }

    fn revert_from(&mut self, p: &P) {
        project_nodes(self, p, false);
    }
}

/// Projects the position of every node, to the plane where `forward` and
/// else back.
fn project_nodes<P: Projection>(data: &mut OsmData, p: &P, forward: bool)
    requires
        old(data).admitted(p, forward),
    ensures
        old(data).converted(p, forward, final(data)),
{
    broadcast use vstd::std_specs::hash::group_hash_axioms;

    let ghost before = data.nodes@;
    let mut ids: Vec<Id> = Vec::new();
    let ghost all: Seq<&Id> = spec_keys_iter(&data.nodes).remaining();
    for id in iter: data.nodes.keys()
        invariant
            iter.seq() == all,
            ids@ == all.unref().take(iter.index() as int),
    {
        ids.push(*id);
        proof {
            assert(ids@ =~= all.unref().take(iter.index() + 1));
        }
    }
    proof {
        assert(ids@ =~= all.unref());
        assert(ids@.to_set() == before.dom());
        assert forall|i: int, j: int|
            0 <= i < ids@.len() && 0 <= j < ids@.len() && i != j implies ids@[i] != ids@[j] by {
            assert(all[i] != all[j]);
        }
    }
    let mut i: usize = 0;
    while i < ids.len()
        invariant
            i <= ids@.len(),
            ids@.no_duplicates(),
            ids@.to_set() == before.dom(),
            before == old(data).nodes@,
            data.nodes@.dom() == before.dom(),
            old(data).admitted(p, forward),
            forall|j: int|
                0 <= j < i ==> before[ids@[j]].converted(
                    p,
                    forward,
                    &#[trigger] data.nodes@[ids@[j]],
                ),
            forall|j: int|
                i <= j < ids@.len() ==> (#[trigger] data.nodes@[ids@[j]]) == before[ids@[j]],
            *data == (OsmData { nodes: data.nodes, ..*old(data) }),
        decreases ids@.len() - i,
    {
        let id: Id = ids[i];
        let ghost current = data.nodes@;
        proof {
            assert(ids@.contains(ids@[i as int]));
            assert(before.dom().contains(id));
            assert(before[id].admitted(p, forward));
        }
        match data.nodes.remove(&id) {
            Some(node) => {
                let mut node = node;
                if forward {
                    node.convert_to(p);
                } else {
                    node.revert_from(p);
                }
                data.nodes.insert(id, node);
                proof {
                    assert(data.nodes@ =~= current.insert(id, node));
                    assert(data.nodes@.dom() =~= before.dom());
                }
            },
            None => {},
        }
        i = i + 1;
    }
    proof {
        assert forall|id: Id| before.contains_key(id) implies before[id].converted(
            p,
            forward,
            &#[trigger] data.nodes@[id],
        ) by {
            assert(ids@.to_set().contains(id));
            let j = choose|j: int| 0 <= j < ids@.len() && ids@[j] == id;
            assert(before[ids@[j]].converted(p, forward, &data.nodes@[ids@[j]]));
        }
    }
}

} // verus!
