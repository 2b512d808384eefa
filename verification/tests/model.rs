use osm_json::{merge_tags, Bounds, Coordinate, Float, Node, Nodes, OsmData, Tags, Way};

fn fl(x: f64) -> Float {
    Float::from_bits(x.to_bits())
}

fn native(x: Float) -> f64 {
    f64::from_bits(x.to_bits())
}

fn at(lat: f64, lon: f64) -> Coordinate {
    Coordinate::new(fl(lat), fl(lon))
}

fn declared() -> Bounds {
    Bounds::new(at(41.30365, -81.90212), at(41.30453, -81.90126))
}

#[test]
fn structs_compute() {
    let nodes = Nodes::from([
        (1, Node::from_coordinate(at(41.30365, -81.90171))),
        (2, Node::from_coordinate(at(41.30453, -81.90169))),
        (3, Node::from_coordinate(at(41.30407, -81.90212))),
        (4, Node::from_coordinate(at(41.30407, -81.90126))),
    ]);

    assert_eq!(Bounds::compute(&nodes), declared());
}

#[test]
fn structs_center() {
    assert_eq!(declared().center(), at(41.30409, -81.90169));
}

#[test]
fn types_compute() {
    let mut nodes = Nodes::default();

    nodes.insert(1, Node::default().with_coordinate([fl(41.30365), fl(-81.90171)]));
    nodes.insert(2, Node::default().with_coordinate([fl(41.30453), fl(-81.90169)]));
    nodes.insert(3, Node::default().with_coordinate([fl(41.30407), fl(-81.90212)]));
    nodes.insert(4, Node::default().with_coordinate([fl(41.30407), fl(-81.90126)]));

    assert_eq!(Bounds::calculate(&nodes), declared());
}

#[test]
fn types_center() {
    assert_eq!(declared().center(), at(41.30409, -81.90169));
}

#[test]
fn merge() {
    let mut from = Tags::default();
    from.insert(String::from("1"), String::from("2"));

    let mut to = Tags::default();
    to.insert(String::from("1"), String::from("3"));

    merge_tags(&mut to, from);

    let mut expected = Tags::default();
    expected.insert(String::from("1"), String::from("2"));

    assert_eq!(to, expected);
}

#[test]
fn merge_keeps_adds_and_replaces() {
    let mut to = Tags::new();
    to.insert(String::from("kept"), String::from("old"));
    to.insert(String::from("both"), String::from("old"));
    let mut from = Tags::new();
    from.insert(String::from("both"), String::from("new"));
    from.insert(String::from("added"), String::from("new"));

    merge_tags(&mut to, from);

    assert_eq!(to.len(), 3);
    assert_eq!(to.get("kept").unwrap(), "old");
    assert_eq!(to.get("both").unwrap(), "new");
    assert_eq!(to.get("added").unwrap(), "new");
    assert!(to.get("other").is_none());
}

#[test]
fn merge_of_nothing_changes_nothing() {
    let mut to = Tags::new();
    to.insert(String::from("a"), String::from("b"));
    let before = to.clone();
    merge_tags(&mut to, Tags::new());
    assert_eq!(to, before);
    assert_eq!(to.len(), 1);
}

#[test]
fn tags_are_a_mapping() {
    let mut tags = Tags::new();
    assert!(tags.is_empty());
    assert!(!tags.contains_key("a"));
    tags.insert(String::from("a"), String::from("1"));
    tags.insert(String::from("b"), String::from("2"));
    tags.insert(String::from("a"), String::from("3"));
    assert_eq!(tags.len(), 2);
    assert!(tags.contains_key("a"));
    assert_eq!(tags.get("a").unwrap(), "3");
    assert_eq!(tags.get("b").unwrap(), "2");
    assert_eq!(tags.entries().len(), 2);

    let mut other = Tags::new();
    other.insert(String::from("b"), String::from("2"));
    other.insert(String::from("a"), String::from("3"));
    assert_eq!(tags, other);
    other.insert(String::from("a"), String::from("4"));
    assert_ne!(tags, other);
    other.insert(String::from("a"), String::from("3"));
    other.insert(String::from("c"), String::from("3"));
    assert_ne!(tags, other);
    assert_eq!(tags.clone(), tags);
}

#[test]
fn bounds_of_no_node_are_zero() {
    let nodes = Nodes::default();
    let bounds = Bounds::calculate(&nodes);
    assert_eq!(bounds.min.lat.to_bits(), 0);
    assert_eq!(bounds.min.lon.to_bits(), 0);
    assert_eq!(bounds.max.lat.to_bits(), 0);
    assert_eq!(bounds.max.lon.to_bits(), 0);
    assert_eq!(bounds, Bounds::zero());

    let mut data = OsmData::default();
    data.bounds = declared();
    data.calculate_bounds();
    assert_eq!(data.bounds, Bounds::zero());
}

#[test]
fn bounds_enclose_and_touch() {
    let points = [(-12.5, 170.0), (3.25, -179.5), (88.0, 0.0), (-0.0, 0.0), (0.0, -0.0), (-45.0, 12.0)];
    let mut nodes = Nodes::default();
    for (i, (lat, lon)) in points.iter().enumerate() {
        nodes.insert(i as u64, Node::from_coordinate(at(*lat, *lon)));
    }
    let bounds = Bounds::calculate(&nodes);
    for node in nodes.values() {
        assert!(bounds.min.lat.le(node.pos.lat) && node.pos.lat.le(bounds.max.lat));
        assert!(bounds.min.lon.le(node.pos.lon) && node.pos.lon.le(bounds.max.lon));
    }
    assert!(nodes.values().any(|n| n.pos.lat.to_bits() == bounds.min.lat.to_bits()));
    assert!(nodes.values().any(|n| n.pos.lat.to_bits() == bounds.max.lat.to_bits()));
    assert!(nodes.values().any(|n| n.pos.lon.to_bits() == bounds.min.lon.to_bits()));
    assert!(nodes.values().any(|n| n.pos.lon.to_bits() == bounds.max.lon.to_bits()));
    assert_eq!(native(bounds.min.lat), -45.0);
    assert_eq!(native(bounds.max.lat), 88.0);
    assert_eq!(native(bounds.min.lon), -179.5);
    assert_eq!(native(bounds.max.lon), 170.0);
}

#[test]
fn bounds_of_one_node_are_that_node() {
    let mut nodes = Nodes::default();
    nodes.insert(9, Node::from_coordinate(at(12.0, -7.0)));
    assert_eq!(Bounds::calculate(&nodes), Bounds::new(at(12.0, -7.0), at(12.0, -7.0)));
}

#[test]
fn bounds_are_the_same_when_computed_again() {
    let mut data = OsmData::default();
    for i in 0..50u64 {
        let lat = (i as f64) * 0.7 - 20.0;
        let lon = 100.0 - (i as f64) * 3.1;
        data.nodes.insert(i, Node::from_coordinate(at(lat, lon)));
    }
    data.nodes.insert(100, Node::from_coordinate(at(0.0, -0.0)));
    data.nodes.insert(101, Node::from_coordinate(at(-0.0, 0.0)));
    data.calculate_bounds();
    let first = data.bounds;
    data.calculate_bounds();
    assert_eq!(first.min.lat.to_bits(), data.bounds.min.lat.to_bits());
    assert_eq!(first.min.lon.to_bits(), data.bounds.min.lon.to_bits());
    assert_eq!(first.max.lat.to_bits(), data.bounds.max.lat.to_bits());
    assert_eq!(first.max.lon.to_bits(), data.bounds.max.lon.to_bits());
    data.compute_bounds();
    assert_eq!(first, data.bounds);
}

#[test]
fn zeros_are_ordered_in_bounds() {
    let mut nodes = Nodes::default();
    nodes.insert(1, Node::from_coordinate(at(0.0, -0.0)));
    nodes.insert(2, Node::from_coordinate(at(-0.0, 0.0)));
    let bounds = Bounds::calculate(&nodes);
    assert_eq!(bounds.min.lat.to_bits(), (-0.0f64).to_bits());
    assert_eq!(bounds.max.lat.to_bits(), 0.0f64.to_bits());
    assert_eq!(bounds.min.lon.to_bits(), (-0.0f64).to_bits());
    assert_eq!(bounds.max.lon.to_bits(), 0.0f64.to_bits());
}

#[test]
fn nan_is_passed_over_in_bounds() {
    let mut nodes = Nodes::default();
    nodes.insert(1, Node::from_coordinate(at(f64::NAN, 5.0)));
    nodes.insert(2, Node::from_coordinate(at(3.0, f64::NAN)));
    let bounds = Bounds::calculate(&nodes);
    assert_eq!(bounds, Bounds::new(at(3.0, 5.0), at(3.0, 5.0)));

    let mut only_nan = Nodes::default();
    only_nan.insert(1, Node::from_coordinate(at(f64::NAN, f64::NAN)));
    let bounds = Bounds::calculate(&only_nan);
    assert_eq!(native(bounds.min.lat), f64::INFINITY);
    assert_eq!(native(bounds.min.lon), f64::INFINITY);
    assert_eq!(native(bounds.max.lat), f64::NEG_INFINITY);
    assert_eq!(native(bounds.max.lon), f64::NEG_INFINITY);
}

#[test]
fn center_is_the_halved_sum() {
    let cases = [
        (declared(), ((41.30365f64 + 41.30453) / 2.0, (-81.90212f64 + -81.90126) / 2.0)),
        (Bounds::full(), (0.0, 0.0)),
        (Bounds::new(at(-1.0, 170.0), at(2.0, -170.0)), (0.5, 0.0)),
        (Bounds::new(at(1e308, 1e308), at(1e308, -1e308)), (f64::INFINITY, 0.0)),
    ];
    for (bounds, (lat, lon)) in cases.iter() {
        let center = bounds.center();
        assert_eq!(center.lat.to_bits(), lat.to_bits());
        assert_eq!(center.lon.to_bits(), lon.to_bits());
    }
}

#[test]
fn named_coordinates() {
    assert_eq!(Coordinate::zero(), at(0.0, 0.0));
    assert_eq!(Coordinate::min(), at(-90.0, -180.0));
    assert_eq!(Coordinate::max(), at(90.0, 180.0));
    assert_eq!(Coordinate::inf(), at(f64::INFINITY, f64::INFINITY));
    assert_eq!(Coordinate::neg_inf(), at(f64::NEG_INFINITY, f64::NEG_INFINITY));
    assert_eq!(Coordinate::from((fl(1.0), fl(2.0))), at(1.0, 2.0));
    assert_eq!(Coordinate::from([fl(1.0), fl(2.0)]), at(1.0, 2.0));
    assert_ne!(at(f64::NAN, 0.0), at(f64::NAN, 0.0));
    assert_eq!(at(0.0, -0.0), at(-0.0, 0.0));
    assert_eq!(Bounds::full(), Bounds::new(at(-90.0, -180.0), at(90.0, 180.0)));
}

#[test]
fn blank_node() {
    let node = Node::default_const();
    assert_eq!(node.id, 0);
    assert_eq!(node.pos, at(0.0, 0.0));
    assert_eq!(node.timestamp, "");
    assert_eq!(node.version, 0);
    assert_eq!(node.changeset, 0);
    assert_eq!(node.user, "");
    assert!(node.tags.is_empty());
    let node = Node::from_coordinate(at(1.0, 2.0));
    assert_eq!(node.pos, at(1.0, 2.0));
    assert_eq!(node.id, 0);
}

#[test]
fn tags_of_a_way_as_lines() {
    let mut way = Way {
        id: 1,
        timestamp: String::new(),
        version: 1,
        changeset: 1,
        user: String::new(),
        nodes: vec![1, 2],
        tags: Tags::new(),
    };
    assert_eq!(way.tags_to_string(), "");
    way.tags.insert(String::from("highway"), String::from("path"));
    assert_eq!(way.tags_to_string(), "highway: path");
    way.tags.insert(String::from("name"), String::from("Long Walk"));
    way.tags.insert(String::from("highway"), String::from("track"));
    assert_eq!(way.tags_to_string(), "highway: track\nname: Long Walk");
}

#[test]
fn data_set_without_nodes_and_ways_is_empty() {
    let mut data = OsmData::default();
    assert!(data.is_empty());
    data.nodes.insert(1, Node::default());
    assert!(!data.is_empty());
}

#[test]
fn insert_returns_what_was_held() {
    let mut tags = Tags::new();
    assert_eq!(tags.insert(String::from("a"), String::from("1")), None);
    assert_eq!(tags.insert(String::from("b"), String::from("2")), None);
    assert_eq!(tags.insert(String::from("a"), String::from("3")), Some(String::from("1")));
    assert_eq!(tags.insert(String::from("a"), String::from("4")), Some(String::from("3")));
    assert_eq!(tags.len(), 2);
    assert_eq!(tags.get("a").unwrap(), "4");
    assert_eq!(tags.get("b").unwrap(), "2");
}

#[test]
fn nodes_ways_and_data_sets_are_compared() {
    let mut a = Node::from_coordinate(at(1.0, 2.0));
    a.id = 3;
    a.tags.insert(String::from("k"), String::from("v"));
    let mut b = a.clone();
    assert_eq!(a, b);
    b.tags.insert(String::from("k"), String::from("w"));
    assert_ne!(a, b);
    let mut c = a.clone();
    c.pos = at(f64::NAN, 2.0);
    assert_ne!(c, c.clone());
    let mut zero = a.clone();
    zero.pos = at(0.0, -0.0);
    let mut other_zero = a.clone();
    other_zero.pos = at(-0.0, 0.0);
    assert_eq!(zero, other_zero);

    let way = Way {
        id: 1,
        timestamp: String::from("t"),
        version: 1,
        changeset: 2,
        user: String::from("u"),
        nodes: vec![1, 2, 3],
        tags: Tags::new(),
    };
    let mut longer = way.clone();
    assert_eq!(way, longer);
    longer.nodes.push(4);
    assert_ne!(way, longer);
    let mut renamed = way.clone();
    renamed.user = String::from("v");
    assert_ne!(way, renamed);

    let mut data = OsmData::default();
    data.nodes.insert(3, a.clone());
    data.ways.insert(1, way.clone());
    let mut same = OsmData::default();
    same.ways.insert(1, way.clone());
    same.nodes.insert(3, a.clone());
    assert_eq!(data, same);
    same.nodes.insert(4, a.clone());
    assert_ne!(data, same);
    let mut moved = data.clone();
    moved.nodes.insert(3, b.clone());
    assert_ne!(data, moved);
    let mut without_way = data.clone();
    without_way.ways.clear();
    assert_ne!(data, without_way);
    let mut other_way = data.clone();
    other_way.ways.insert(1, longer.clone());
    assert_ne!(data, other_way);
    let mut versioned = data.clone();
    versioned.version = String::from("0.7");
    assert_ne!(data, versioned);
    assert_eq!(OsmData::default(), OsmData::default());
}
