//! The data model: coordinates, bounds, nodes, ways and the data set that
//! owns them.

use std::collections::HashMap;
use vstd::prelude::*;
use vstd::string::StringExecFns;
use vstd::std_specs::cmp::{PartialEqSpec, PartialEqSpecImpl};
use vstd::std_specs::convert::{FromSpec, FromSpecImpl};
use vstd::std_specs::iter::IteratorSpec;
use vstd::std_specs::hash::{spec_keys_iter, spec_values_iter};
use vstd::set_lib::lemma_subset_equality;
use crate::float::{Float, INFINITY_BITS, SIGN_BIT};
use crate::tags::Tags;

pub mod raw;

verus! {

/// The identity of a node or a way.
pub type Id = u64;

/// Nodes by their identity.
pub type Nodes = HashMap<Id, Node>;

/// Ways by their identity.
pub type Ways = HashMap<Id, Way>;

/// The encoding of 90.
pub const QUARTER_TURN_BITS: u64 = 0x4056_8000_0000_0000;

/// The encoding of 180.
pub const HALF_TURN_BITS: u64 = 0x4066_8000_0000_0000;

/// The encoding of 2.
pub const TWO_BITS: u64 = 0x4000_0000_0000_0000;

/// A latitude and a longitude in degrees, or a planar `y` and `x`.
#[derive(Clone, Copy, Debug)]
pub struct Coordinate {
    pub lat: Float,
    pub lon: Float,
}

impl Coordinate {
    /// The coordinate at a latitude and a longitude.
    pub fn new(lat: Float, lon: Float) -> (r: Coordinate)
        ensures
            r.lat == lat,
            r.lon == lon,
    {
        Coordinate { lat, lon }
    }

    /// Latitude 0, longitude 0.
    pub fn zero() -> (r: Coordinate)
        ensures
            r == Coordinate::spec_zero(),
    {
        Coordinate { lat: Float::zero(), lon: Float::zero() }
    }

    /// Latitude -90, longitude -180.
    pub fn min() -> (r: Coordinate)
        ensures
            r.lat.bits == QUARTER_TURN_BITS + SIGN_BIT,
            r.lon.bits == HALF_TURN_BITS + SIGN_BIT,
    {
        Coordinate {
            lat: Float::from_bits(QUARTER_TURN_BITS + SIGN_BIT),
            lon: Float::from_bits(HALF_TURN_BITS + SIGN_BIT),
        }
    }

    /// Latitude 90, longitude 180.
    pub fn max() -> (r: Coordinate)
        ensures
            r.lat.bits == QUARTER_TURN_BITS,
            r.lon.bits == HALF_TURN_BITS,
    {
        Coordinate {
            lat: Float::from_bits(QUARTER_TURN_BITS),
            lon: Float::from_bits(HALF_TURN_BITS),
        }
    }

    /// Positive infinity on both axes: what a minimum starts from.
    pub fn inf() -> (r: Coordinate)
        ensures
            r.lat.bits == INFINITY_BITS,
            r.lon.bits == INFINITY_BITS,
    {
        Coordinate { lat: Float::infinity(), lon: Float::infinity() }
    }

    /// Negative infinity on both axes: what a maximum starts from.
    pub fn neg_inf() -> (r: Coordinate)
        ensures
            r.lat.bits == INFINITY_BITS + SIGN_BIT,
            r.lon.bits == INFINITY_BITS + SIGN_BIT,
    {
        Coordinate { lat: Float::neg_infinity(), lon: Float::neg_infinity() }
    }

    /// Latitude 0, longitude 0.
    pub open spec fn spec_zero() -> Coordinate {
        Coordinate { lat: Float { bits: 0 }, lon: Float { bits: 0 } }
    }

    /// Equal as numbers on both axes.
    pub open spec fn same(self, other: Coordinate) -> bool {
        self.lat.same(other.lat) && self.lon.same(other.lon)
    }
}

impl PartialEq for Coordinate {
    fn eq(&self, other: &Coordinate) -> (r: bool) {
        self.lat == other.lat && self.lon == other.lon
    }
}

impl PartialEqSpecImpl for Coordinate {
    open spec fn obeys_eq_spec() -> bool {
        true
    }

    open spec fn eq_spec(&self, other: &Coordinate) -> bool {
        self.same(*other)
    }
}

impl From<[Float; 2]> for Coordinate {
    fn from(value: [Float; 2]) -> (r: Coordinate) {
        Coordinate { lat: value[0], lon: value[1] }
    }
}

impl FromSpecImpl<[Float; 2]> for Coordinate {
    open spec fn obeys_from_spec() -> bool {
        true
    }

    open spec fn from_spec(value: [Float; 2]) -> Coordinate {
        Coordinate { lat: value[0], lon: value[1] }
    }
}

impl From<(Float, Float)> for Coordinate {
    fn from(value: (Float, Float)) -> (r: Coordinate) {
        Coordinate { lat: value.0, lon: value.1 }
    }
}

impl FromSpecImpl<(Float, Float)> for Coordinate {
    open spec fn obeys_from_spec() -> bool {
        true
    }

    open spec fn from_spec(value: (Float, Float)) -> Coordinate {
        Coordinate { lat: value.0, lon: value.1 }
    }
}

/// A node: a point with its provenance and its tags.
#[derive(Clone, Debug)]
pub struct Node {
    pub id: Id,
    pub pos: Coordinate,
    pub timestamp: String,
    pub version: u32,
    pub changeset: u64,
    pub user: String,
    pub tags: Tags,
}

/// A node as a mathematical value.
pub struct NodeView {
    pub id: Id,
    pub pos: Coordinate,
    pub timestamp: Seq<char>,
    pub version: u32,
    pub changeset: u64,
    pub user: Seq<char>,
    pub tags: Map<Seq<char>, Seq<char>>,
}

impl View for Node {
    type V = NodeView;

    open spec fn view(&self) -> NodeView {
        NodeView {
            id: self.id,
            pos: self.pos,
            timestamp: self.timestamp@,
            version: self.version,
            changeset: self.changeset,
            user: self.user@,
            tags: self.tags@,
        }
    }
}

impl NodeView {
    /// The node at latitude 0 and longitude 0 with identity 0, no provenance
    /// and no tags.
    pub open spec fn blank() -> NodeView {
        NodeView {
            id: 0,
            pos: Coordinate::spec_zero(),
            timestamp: Seq::empty(),
            version: 0,
            changeset: 0,
            user: Seq::empty(),
            tags: Map::empty(),
        }
    }
}

impl Node {
    /// The node at latitude 0 and longitude 0 with identity 0, no provenance
    /// and no tags.
    pub fn default_const() -> (r: Node)
        ensures
            r@ == NodeView::blank(),
    {
        Node {
            id: 0,
            pos: Coordinate::zero(),
            timestamp: String::new(),
            version: 0,
            changeset: 0,
            user: String::new(),
            tags: Tags::new(),
        }
    }

    /// The blank node at `coords`.
    pub fn from_coordinate(coords: Coordinate) -> (r: Node)
        ensures
            r@ == (NodeView { pos: coords, ..NodeView::blank() }),
    {
        let mut node = Node::default_const();
        node.pos = coords;
        node
    }

    /// The blank node at the coordinate that `coord` converts to, whatever
    /// `self` held.
    pub fn with_coordinate<C>(self, coord: C) -> (r: Node) where Coordinate: From<C>
        ensures
            <Coordinate as FromSpec<C>>::obeys_from_spec() ==> r@ == (NodeView {
                pos: <Coordinate as FromSpec<C>>::from_spec(coord),
                ..NodeView::blank()
            }),
    {
        Node::from_coordinate(Coordinate::from(coord))
    }
}

impl NodeView {
    /// Equal in everything, the position as numbers.
    pub open spec fn same(self, other: NodeView) -> bool {
        &&& self.id == other.id
        &&& self.pos.same(other.pos)
        &&& self.timestamp == other.timestamp
        &&& self.version == other.version
        &&& self.changeset == other.changeset
        &&& self.user == other.user
        &&& self.tags == other.tags
    }
}

impl PartialEq for Node {
    fn eq(&self, other: &Node) -> (r: bool) {
        self.id == other.id && self.pos == other.pos && self.timestamp == other.timestamp
            && self.version == other.version && self.changeset == other.changeset && self.user
            == other.user && self.tags == other.tags
    }
}

impl PartialEqSpecImpl for Node {
    open spec fn obeys_eq_spec() -> bool {
        true
    }

    open spec fn eq_spec(&self, other: &Node) -> bool {
        self@.same(other@)
    }
}

impl Default for Node {
    fn default() -> (r: Node)
        ensures
            r@ == NodeView::blank(),
    {
        Node::default_const()
    }
}

/// A way: a path through nodes, named by their identities, with its
/// provenance and its tags.
#[derive(Clone, Debug)]
pub struct Way {
    pub id: Id,
    pub timestamp: String,
    pub version: u32,
    pub changeset: u64,
    pub user: String,
    pub nodes: Vec<Id>,
    pub tags: Tags,
}

/// A way as a mathematical value.
pub struct WayView {
    pub id: Id,
    pub timestamp: Seq<char>,
    pub version: u32,
    pub changeset: u64,
    pub user: Seq<char>,
    pub nodes: Seq<Id>,
    pub tags: Map<Seq<char>, Seq<char>>,
}

impl View for Way {
    type V = WayView;

    open spec fn view(&self) -> WayView {
        WayView {
            id: self.id,
            timestamp: self.timestamp@,
            version: self.version,
            changeset: self.changeset,
            user: self.user@,
            nodes: self.nodes@,
            tags: self.tags@,
        }
    }
}

impl PartialEq for Way {
    fn eq(&self, other: &Way) -> (r: bool) {
        let same_nodes: bool = self.nodes == other.nodes;
        proof {
            if same_nodes {
                assert(self.nodes@ =~= other.nodes@);
            }
        }
        self.id == other.id && self.timestamp == other.timestamp && self.version == other.version
            && self.changeset == other.changeset && self.user == other.user && same_nodes
            && self.tags == other.tags
    }
}

impl PartialEqSpecImpl for Way {
    open spec fn obeys_eq_spec() -> bool {
        true
    }

    open spec fn eq_spec(&self, other: &Way) -> bool {
        self@ == other@
    }
}

/// `v` is the least number of `s`: a number of `s` that no number of `s`
/// stands before, NaNs passed over, and positive infinity where `s` holds
/// no number.
pub open spec fn is_least(s: Set<Float>, v: Float) -> bool {
    if exists|x: Float| s.contains(x) && !x.spec_is_nan() {
        &&& s.contains(v)
        &&& !v.spec_is_nan()
        &&& forall|x: Float| s.contains(x) && !x.spec_is_nan() ==> v.rank() <= x.rank()
    } else {
        v.bits == INFINITY_BITS
    }
}

/// `v` is the greatest number of `s`: a number of `s` that stands before no
/// number of `s`, NaNs passed over, and negative infinity where `s` holds
/// no number.
pub open spec fn is_greatest(s: Set<Float>, v: Float) -> bool {
    if exists|x: Float| s.contains(x) && !x.spec_is_nan() {
        &&& s.contains(v)
        &&& !v.spec_is_nan()
        &&& forall|x: Float| s.contains(x) && !x.spec_is_nan() ==> x.rank() <= v.rank()
    } else {
        v.bits == INFINITY_BITS + SIGN_BIT
    }
}

/// No node holds a NaN.
pub open spec fn no_nan(nodes: Map<Id, Node>) -> bool {
    forall|id: Id|
        nodes.contains_key(id) ==> !(#[trigger] nodes[id]).pos.lat.spec_is_nan()
            && !nodes[id].pos.lon.spec_is_nan()
}

/// The latitudes of the nodes.
pub open spec fn latitudes(nodes: Map<Id, Node>) -> Set<Float> {
    Set::new(|x: Float| exists|id: Id| nodes.contains_key(id) && nodes[id].pos.lat == x)
}

/// The longitudes of the nodes.
pub open spec fn longitudes(nodes: Map<Id, Node>) -> Set<Float> {
    Set::new(|x: Float| exists|id: Id| nodes.contains_key(id) && nodes[id].pos.lon == x)
}

proof fn lemma_least_step(s: Set<Float>, v: Float, x: Float)
    requires
        is_least(s, v),
    ensures
        is_least(s.insert(x), v.spec_min(x)),
{
    let s2 = s.insert(x);
    let r = v.spec_min(x);
    if x.spec_is_nan() {
        assert(r == v);
        if exists|y: Float| s2.contains(y) && !y.spec_is_nan() {
            let y = choose|y: Float| s2.contains(y) && !y.spec_is_nan();
            assert(s.contains(y));
        }
    } else {
        assert(s2.contains(x));
        if exists|y: Float| s.contains(y) && !y.spec_is_nan() {
        } else {
            assert forall|y: Float| s2.contains(y) && !y.spec_is_nan() implies r.rank()
                <= y.rank() by {
                assert(y == x);
            }
            if r != x {
                assert(x.rank() == v.rank());
                assert(x.bits == v.bits);
            }
        }
    }
}

proof fn lemma_greatest_step(s: Set<Float>, v: Float, x: Float)
    requires
        is_greatest(s, v),
    ensures
        is_greatest(s.insert(x), v.spec_max(x)),
{
    let s2 = s.insert(x);
    let r = v.spec_max(x);
    if x.spec_is_nan() {
        assert(r == v);
        if exists|y: Float| s2.contains(y) && !y.spec_is_nan() {
            let y = choose|y: Float| s2.contains(y) && !y.spec_is_nan();
            assert(s.contains(y));
        }
    } else {
        assert(s2.contains(x));
        if exists|y: Float| s.contains(y) && !y.spec_is_nan() {
        } else {
            assert forall|y: Float| s2.contains(y) && !y.spec_is_nan() implies y.rank()
                <= r.rank() by {
                assert(y == x);
            }
            if r != x {
                assert(x.rank() == v.rank());
                assert(x.bits == v.bits);
            }
        }
    }
}

/// The latitudes of the first `n` of a list of nodes.
spec fn listed_latitudes(all: Seq<&Node>, n: int) -> Set<Float> {
    Set::new(|x: Float| exists|i: int| 0 <= i < n && (#[trigger] all[i]).pos.lat == x)
}

/// The longitudes of the first `n` of a list of nodes.
spec fn listed_longitudes(all: Seq<&Node>, n: int) -> Set<Float> {
    Set::new(|x: Float| exists|i: int| 0 <= i < n && (#[trigger] all[i]).pos.lon == x)
}

proof fn lemma_listed_step(all: Seq<&Node>, n: int)
    requires
        0 <= n < all.len(),
    ensures
        listed_latitudes(all, n + 1) == listed_latitudes(all, n).insert(all[n].pos.lat),
        listed_longitudes(all, n + 1) == listed_longitudes(all, n).insert(all[n].pos.lon),
{
    assert(listed_latitudes(all, n + 1) =~= listed_latitudes(all, n).insert(all[n].pos.lat));
    assert(listed_longitudes(all, n + 1) =~= listed_longitudes(all, n).insert(all[n].pos.lon));
}

proof fn lemma_listed_all(all: Seq<&Node>, nodes: Map<Id, Node>)
    requires
        all.unref().to_set() == nodes.values(),
    ensures
        listed_latitudes(all, all.len() as int) == latitudes(nodes),
        listed_longitudes(all, all.len() as int) == longitudes(nodes),
{
    let n = all.len() as int;
    assert forall|x: Float| latitudes(nodes).contains(x) implies listed_latitudes(
        all,
        n,
    ).contains(x) by {
        let id = choose|id: Id| nodes.contains_key(id) && nodes[id].pos.lat == x;
        assert(nodes.values().contains(nodes[id]));
        assert(all.unref().contains(nodes[id]));
        let i = choose|i: int| 0 <= i < all.unref().len() && all.unref()[i] == nodes[id];
        assert(all[i].pos.lat == x);
    }
    assert forall|x: Float| listed_latitudes(all, n).contains(x) implies latitudes(
        nodes,
    ).contains(x) by {
        let i = choose|i: int| 0 <= i < n && (#[trigger] all[i]).pos.lat == x;
        assert(all.unref()[i] == *all[i]);
        assert(all.unref().contains(*all[i]));
        assert(nodes.values().contains(*all[i]));
    }
    assert(listed_latitudes(all, n) =~= latitudes(nodes));
    assert forall|x: Float| longitudes(nodes).contains(x) implies listed_longitudes(
        all,
        n,
    ).contains(x) by {
        let id = choose|id: Id| nodes.contains_key(id) && nodes[id].pos.lon == x;
        assert(nodes.values().contains(nodes[id]));
        assert(all.unref().contains(nodes[id]));
        let i = choose|i: int| 0 <= i < all.unref().len() && all.unref()[i] == nodes[id];
        assert(all[i].pos.lon == x);
    }
    assert forall|x: Float| listed_longitudes(all, n).contains(x) implies longitudes(
        nodes,
    ).contains(x) by {
        let i = choose|i: int| 0 <= i < n && (#[trigger] all[i]).pos.lon == x;
        assert(all.unref()[i] == *all[i]);
        assert(all.unref().contains(*all[i]));
        assert(nodes.values().contains(*all[i]));
    }
    assert(listed_longitudes(all, n) =~= longitudes(nodes));
}

/// A rectangle of coordinates, by its least and its greatest corner.
#[derive(Clone, Copy, Debug)]
pub struct Bounds {
    pub min: Coordinate,
    pub max: Coordinate,
}

impl Bounds {
    /// Both corners at latitude 0 and longitude 0.
    pub open spec fn spec_zero() -> Bounds {
        Bounds { min: Coordinate::spec_zero(), max: Coordinate::spec_zero() }
    }

    /// Equal as numbers in all four components.
    pub open spec fn same(self, other: Bounds) -> bool {
        self.min.same(other.min) && self.max.same(other.max)
    }

    /// `self` is the rectangle of `nodes`: both corners at zero where there
    /// is no node, and else on each axis the least and the greatest of the
    /// numbers that the nodes hold there.
    pub open spec fn is_exact(self, nodes: Map<Id, Node>) -> bool {
        if nodes.dom().is_empty() {
            self == Bounds::spec_zero()
        } else {
            &&& is_least(latitudes(nodes), self.min.lat)
            &&& is_least(longitudes(nodes), self.min.lon)
            &&& is_greatest(latitudes(nodes), self.max.lat)
            &&& is_greatest(longitudes(nodes), self.max.lon)
        }
    }

    /// The least corner is at most the greatest one on both axes.
    pub open spec fn ordered(self) -> bool {
        self.min.lat.spec_le(self.max.lat) && self.min.lon.spec_le(self.max.lon)
    }

    /// Every node lies within the rectangle, its sides included.
    pub open spec fn encloses(self, nodes: Map<Id, Node>) -> bool {
        forall|id: Id|
            nodes.contains_key(id) ==> {
                &&& self.min.lat.spec_le((#[trigger] nodes[id]).pos.lat)
                &&& nodes[id].pos.lat.spec_le(self.max.lat)
                &&& self.min.lon.spec_le(nodes[id].pos.lon)
                &&& nodes[id].pos.lon.spec_le(self.max.lon)
            }
    }

    /// On each of the four sides of the rectangle lies a node.
    pub open spec fn touches(self, nodes: Map<Id, Node>) -> bool {
        &&& exists|id: Id| nodes.contains_key(id) && (#[trigger] nodes[id]).pos.lat == self.min.lat
        &&& exists|id: Id| nodes.contains_key(id) && (#[trigger] nodes[id]).pos.lat == self.max.lat
        &&& exists|id: Id| nodes.contains_key(id) && (#[trigger] nodes[id]).pos.lon == self.min.lon
        &&& exists|id: Id| nodes.contains_key(id) && (#[trigger] nodes[id]).pos.lon == self.max.lon
    }

    /// The midpoint of the corners, on each axis the sum halved.
    pub open spec fn spec_center(self) -> Coordinate {
        Coordinate {
            lat: self.min.lat.spec_add(self.max.lat).spec_div(Float { bits: TWO_BITS }),
            lon: self.min.lon.spec_add(self.max.lon).spec_div(Float { bits: TWO_BITS }),
        }
    }

    /// The rectangle with the given corners.
    pub fn new(min: Coordinate, max: Coordinate) -> (r: Bounds)
        ensures
            r.min == min,
            r.max == max,
    {
        Bounds { min, max }
    }

    /// Both corners at latitude 0 and longitude 0.
    pub fn zero() -> (r: Bounds)
        ensures
            r == Bounds::spec_zero(),
    {
        Bounds { min: Coordinate::zero(), max: Coordinate::zero() }
    }

    /// The whole range of latitudes and longitudes.
    pub fn full() -> (r: Bounds)
        ensures
            r.min.lat.bits == QUARTER_TURN_BITS + SIGN_BIT,
            r.min.lon.bits == HALF_TURN_BITS + SIGN_BIT,
            r.max.lat.bits == QUARTER_TURN_BITS,
            r.max.lon.bits == HALF_TURN_BITS,
    {
        Bounds { min: Coordinate::min(), max: Coordinate::max() }
    }

    /// The rectangle of `nodes`: both corners at zero where there is no
    /// node, and else on each axis the least and the greatest number that a
    /// node holds there. A NaN is passed over.
    pub fn calculate(nodes: &Nodes) -> (r: Bounds)
        ensures
            r.is_exact(nodes@),
            nodes@.dom().is_empty() ==> r == Bounds::spec_zero(),
            !nodes@.dom().is_empty() && no_nan(nodes@) ==> r.ordered() && r.encloses(nodes@)
                && r.touches(nodes@),
    {
        broadcast use vstd::std_specs::hash::group_hash_axioms;

        if nodes.is_empty() {
            return Bounds::zero();
        }
        let mut min = Coordinate::inf();
        let mut max = Coordinate::neg_inf();
        let ghost all: Seq<&Node> = spec_values_iter(nodes).remaining();
        for node in iter: nodes.values()
            invariant
                iter.seq() == all,
                is_least(listed_latitudes(all, iter.index() as int), min.lat),
                is_least(listed_longitudes(all, iter.index() as int), min.lon),
                is_greatest(listed_latitudes(all, iter.index() as int), max.lat),
                is_greatest(listed_longitudes(all, iter.index() as int), max.lon),
        {
            proof {
                let n = iter.index() as int;
                lemma_listed_step(all, n);
                lemma_least_step(listed_latitudes(all, n), min.lat, node.pos.lat);
                lemma_least_step(listed_longitudes(all, n), min.lon, node.pos.lon);
                lemma_greatest_step(listed_latitudes(all, n), max.lat, node.pos.lat);
                lemma_greatest_step(listed_longitudes(all, n), max.lon, node.pos.lon);
            }
            min.lat = min.lat.min(node.pos.lat);
            min.lon = min.lon.min(node.pos.lon);
            max.lat = max.lat.max(node.pos.lat);
            max.lon = max.lon.max(node.pos.lon);
        }
        let r = Bounds { min, max };
        proof {
            lemma_listed_all(all, nodes@);
            if no_nan(nodes@) {
                lemma_exact_bounds_enclose(nodes@, r);
            }
        }
        r
    }

    /// The rectangle of `nodes`, as `calculate` gives it.
    pub fn compute(nodes: &Nodes) -> (r: Bounds)
        ensures
            r.is_exact(nodes@),
            nodes@.dom().is_empty() ==> r == Bounds::spec_zero(),
            !nodes@.dom().is_empty() && no_nan(nodes@) ==> r.ordered() && r.encloses(nodes@)
                && r.touches(nodes@),
    {
        Bounds::calculate(nodes)
    }

    /// The midpoint of the corners. Nothing is done about a rectangle that
    /// crosses the antimeridian.
    pub fn center(&self) -> (r: Coordinate)
        ensures
            r == self.spec_center(),
    {
        let two: Float = Float::from_bits(TWO_BITS);
        Coordinate {
            lat: self.min.lat.add(self.max.lat).div(two),
            lon: self.min.lon.add(self.max.lon).div(two),
        }
    }
}

impl PartialEq for Bounds {
    fn eq(&self, other: &Bounds) -> (r: bool) {
        self.min == other.min && self.max == other.max
    }
}

impl PartialEqSpecImpl for Bounds {
    open spec fn obeys_eq_spec() -> bool {
        true
    }

    open spec fn eq_spec(&self, other: &Bounds) -> bool {
        self.same(*other)
    }
}

/// Two rectangles of the same nodes are one rectangle, bit for bit: what
/// `calculate` returns depends on the nodes alone.
pub proof fn lemma_exact_bounds_unique(nodes: Map<Id, Node>, a: Bounds, b: Bounds)
    requires
        a.is_exact(nodes),
        b.is_exact(nodes),
    ensures
        a == b,
{
    if !nodes.dom().is_empty() {
        assert(a.min.lat.bits == b.min.lat.bits);
        assert(a.min.lon.bits == b.min.lon.bits);
        assert(a.max.lat.bits == b.max.lat.bits);
        assert(a.max.lon.bits == b.max.lon.bits);
    }
}

/// The rectangle of at least one node, none of which holds a NaN, has its
/// corners in order and encloses every node, and on each of its four sides
/// lies a node.
pub proof fn lemma_exact_bounds_enclose(nodes: Map<Id, Node>, b: Bounds)
    requires
        b.is_exact(nodes),
        !nodes.dom().is_empty(),
        no_nan(nodes),
    ensures
        b.ordered(),
        b.encloses(nodes),
        b.touches(nodes),
{
    assert(exists|id: Id| nodes.dom().contains(id)) by {
        if forall|id: Id| !nodes.dom().contains(id) {
            assert(nodes.dom() =~= Set::<Id>::empty());
        }
    }
    let w = choose|id: Id| nodes.dom().contains(id);
    assert(latitudes(nodes).contains(nodes[w].pos.lat));
    assert(longitudes(nodes).contains(nodes[w].pos.lon));
    assert forall|id: Id| nodes.contains_key(id) implies {
        &&& b.min.lat.spec_le((#[trigger] nodes[id]).pos.lat)
        &&& nodes[id].pos.lat.spec_le(b.max.lat)
        &&& b.min.lon.spec_le(nodes[id].pos.lon)
        &&& nodes[id].pos.lon.spec_le(b.max.lon)
    } by {
        assert(latitudes(nodes).contains(nodes[id].pos.lat));
        assert(longitudes(nodes).contains(nodes[id].pos.lon));
    }
}

/// A data set: what its source says of itself, a rectangle, and the nodes
/// and ways that it owns.
#[derive(Clone, Debug)]
pub struct OsmData {
    pub version: String,
    pub generator: String,
    pub copyright: String,
    pub attribution: String,
    pub license: String,
    pub bounds: Bounds,
    pub nodes: Nodes,
    pub ways: Ways,
}

/// A data set as a mathematical value.
pub struct OsmDataView {
    pub version: Seq<char>,
    pub generator: Seq<char>,
    pub copyright: Seq<char>,
    pub attribution: Seq<char>,
    pub license: Seq<char>,
    pub bounds: Bounds,
    pub nodes: Map<Id, NodeView>,
    pub ways: Map<Id, WayView>,
}

impl View for OsmData {
    type V = OsmDataView;

    open spec fn view(&self) -> OsmDataView {
        OsmDataView {
            version: self.version@,
            generator: self.generator@,
            copyright: self.copyright@,
            attribution: self.attribution@,
            license: self.license@,
            bounds: self.bounds,
            nodes: self.nodes@.map_values(|n: Node| n@),
            ways: self.ways@.map_values(|w: Way| w@),
        }
    }
}

impl OsmData {
    /// Puts the rectangle of the nodes in place of the rectangle held.
    pub fn calculate_bounds(&mut self)
        ensures
            final(self).bounds.is_exact(old(self).nodes@),
            old(self).nodes@.dom().is_empty() ==> final(self).bounds == Bounds::spec_zero(),
            !old(self).nodes@.dom().is_empty() && no_nan(old(self).nodes@) ==> {
                &&& final(self).bounds.ordered()
                &&& final(self).bounds.encloses(old(self).nodes@)
                &&& final(self).bounds.touches(old(self).nodes@)
            },
            *final(self) == (OsmData { bounds: final(self).bounds, ..*old(self) }),
    {
        self.bounds = Bounds::calculate(&self.nodes);
    }

    /// Puts the rectangle of the nodes in place of the rectangle held, as
    /// `calculate_bounds` does.
    pub fn compute_bounds(&mut self)
        ensures
            final(self).bounds.is_exact(old(self).nodes@),
            old(self).nodes@.dom().is_empty() ==> final(self).bounds == Bounds::spec_zero(),
            !old(self).nodes@.dom().is_empty() && no_nan(old(self).nodes@) ==> {
                &&& final(self).bounds.ordered()
                &&& final(self).bounds.encloses(old(self).nodes@)
                &&& final(self).bounds.touches(old(self).nodes@)
            },
            *final(self) == (OsmData { bounds: final(self).bounds, ..*old(self) }),
    {
        self.calculate_bounds();
    }

    /// Whether there is neither a node nor a way.
    pub fn is_empty(&self) -> (r: bool)
        ensures
            r == (self.nodes@.dom().is_empty() && self.ways@.dom().is_empty()),
    {
        self.nodes.is_empty() && self.ways.is_empty()
    }
}

/// Two mappings have the same keys, and under each key values that are
/// equal.
pub open spec fn same_entries<V: PartialEq>(a: Map<Id, V>, b: Map<Id, V>) -> bool {
    &&& a.dom() == b.dom()
    &&& forall|id: Id| a.contains_key(id) ==> (#[trigger] a[id]).eq_spec(&b[id])
}

/// Whether two mappings have the same keys, and under each key values that
/// are equal.
fn entries_equal<V: PartialEq>(a: &HashMap<Id, V>, b: &HashMap<Id, V>) -> (r: bool)
    requires
        V::obeys_eq_spec(),
    ensures
        r == same_entries(a@, b@),
{
    broadcast use vstd::std_specs::hash::group_hash_axioms;

    if a.len() != b.len() {
        return false;
    }
    let ghost all: Seq<&Id> = spec_keys_iter(a).remaining();
    for id in iter: a.keys()
        invariant
            iter.seq() == all,
            V::obeys_eq_spec(),
            forall|i: int|
                0 <= i < iter.index() ==> b@.contains_key(*(#[trigger] all[i])) && a@[*all[i]].eq_spec(
                    &b@[*all[i]],
                ),
    {
        proof {
            assert(all.unref()[iter.index() as int] == *id);
            assert(all.unref().to_set().contains(*id));
            assert(a@.contains_key(*id));
        }
        match (a.get(id), b.get(id)) {
            (Some(x), Some(y)) => {
                if !(*x == *y) {
                    return false;
                }
            },
            _ => {
                return false;
            },
        }
    }
    proof {
        assert forall|id: Id| a@.contains_key(id) implies b@.contains_key(id) && (#[trigger] a@[id]).eq_spec(
            &b@[id],
        ) by {
            assert(all.unref().to_set().contains(id));
            let i = choose|i: int| 0 <= i < all.unref().len() && all.unref()[i] == id;
            assert(*all[i] == id);
        }
        assert(a@.dom().subset_of(b@.dom()));
        lemma_subset_equality(a@.dom(), b@.dom());
    }
    true
}

impl OsmDataView {
    /// Equal in everything: the rectangle and the positions of the nodes as
    /// numbers.
    pub open spec fn same(self, other: OsmDataView) -> bool {
        &&& self.version == other.version
        &&& self.generator == other.generator
        &&& self.copyright == other.copyright
        &&& self.attribution == other.attribution
        &&& self.license == other.license
        &&& self.bounds.same(other.bounds)
        &&& self.nodes.dom() == other.nodes.dom()
        &&& forall|id: Id| self.nodes.contains_key(id) ==> (#[trigger] self.nodes[id]).same(other.nodes[id])
        &&& self.ways == other.ways
    }
}

impl PartialEq for OsmData {
    fn eq(&self, other: &OsmData) -> (r: bool) {
        let nodes: bool = entries_equal(&self.nodes, &other.nodes);
        let ways: bool = entries_equal(&self.ways, &other.ways);
        proof {
            if ways {
                assert(self@.ways =~= other@.ways);
            }
            if self@.ways == other@.ways {
                assert(self.ways@.dom() =~= other.ways@.dom()) by {
                    assert forall|id: Id|
                        self.ways@.dom().contains(id) == other.ways@.dom().contains(id) by {
                        assert(self@.ways.dom().contains(id) == other@.ways.dom().contains(id));
                    }
                }
                assert forall|id: Id| self.ways@.contains_key(id) implies (#[trigger] self.ways@[id])@
                    == other.ways@[id]@ by {
                    assert(self@.ways[id] == other@.ways[id]);
                }
                assert(same_entries(self.ways@, other.ways@));
            }
            if nodes {
                assert(self@.nodes.dom() =~= other@.nodes.dom());
            }
            if self@.same(other@) {
                assert(self.nodes@.dom() =~= other.nodes@.dom()) by {
                    assert forall|id: Id|
                        self.nodes@.dom().contains(id) == other.nodes@.dom().contains(id) by {
                        assert(self@.nodes.dom().contains(id) == other@.nodes.dom().contains(id));
                    }
                }
                assert forall|id: Id| self.nodes@.contains_key(id) implies (#[trigger] self.nodes@[id])@.same(
                    other.nodes@[id]@,
                ) by {
                    assert(self@.nodes.contains_key(id));
                    assert(self@.nodes[id].same(other@.nodes[id]));
                }
                assert(same_entries(self.nodes@, other.nodes@));
            }
        }
        self.version == other.version && self.generator == other.generator && self.copyright
            == other.copyright && self.attribution == other.attribution && self.license
            == other.license && self.bounds == other.bounds && nodes && ways
    }
}

impl PartialEqSpecImpl for OsmData {
    open spec fn obeys_eq_spec() -> bool {
        true
    }

    open spec fn eq_spec(&self, other: &OsmData) -> bool {
        self@.same(other@)
    }
}

impl Default for OsmData {
    fn default() -> (r: OsmData)
        ensures
            r.version@ == Seq::<char>::empty(),
            r.generator@ == Seq::<char>::empty(),
            r.copyright@ == Seq::<char>::empty(),
            r.attribution@ == Seq::<char>::empty(),
            r.license@ == Seq::<char>::empty(),
            r.bounds == Bounds::spec_zero(),
            r.nodes@ == Map::<Id, Node>::empty(),
            r.ways@ == Map::<Id, Way>::empty(),
    {
        OsmData {
            version: String::new(),
            generator: String::new(),
            copyright: String::new(),
            attribution: String::new(),
            license: String::new(),
            bounds: Bounds::zero(),
            nodes: HashMap::new(),
            ways: HashMap::new(),
        }
    }
}

/// The pairs as lines `key: value`, with a line feed between two lines.
pub open spec fn lines(pairs: Seq<(Seq<char>, Seq<char>)>) -> Seq<char>
    decreases pairs.len(),
{
    if pairs.len() == 0 {
        Seq::empty()
    } else if pairs.len() == 1 {
        pairs[0].0 + ": "@ + pairs[0].1
    } else {
        lines(pairs.drop_last()) + "\n"@ + pairs.last().0 + ": "@ + pairs.last().1
    }
}

impl Way {
    /// The tags as lines `key: value`, in the order of their listing.
    pub fn tags_to_string(&self) -> (r: String)
        ensures
            r@ == lines(self.tags.listing()),
    {
        let entries = self.tags.entries();
        let ghost all = self.tags.listing();
        let mut text: String = String::new();
        let mut i: usize = 0;
        proof {
            assert(all.take(0) =~= Seq::<(Seq<char>, Seq<char>)>::empty());
        }
        while i < entries.len()
            invariant
                i <= entries@.len(),
                all == entries@.map_values(|e: (String, String)| (e.0@, e.1@)),
                text@ == lines(all.take(i as int)),
            decreases entries@.len() - i,
        {
            proof {
                let longer = all.take(i + 1);
                assert(longer.drop_last() =~= all.take(i as int));
                assert(longer.last() == all[i as int]);
                assert(all[i as int] == (entries@[i as int].0@, entries@[i as int].1@));
                if i == 0 {
                    assert(longer[0] == all[0]);
                    assert(Seq::<char>::empty() + all[0].0 =~= all[0].0);
                }
            }
            if i > 0 {
                text.append("\n");
            }
            text.append(entries[i].0.as_str());
            text.append(": ");
            text.append(entries[i].1.as_str());
            i = i + 1;
        }
        proof {
            assert(all.take(i as int) =~= all);
        }
        text
    }
}

} // verus!
