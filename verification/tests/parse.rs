use osm_json::json::{Json, Number};
use osm_json::types::raw::{RawBounds, RawNode, RawOsmData};
use osm_json::{parse, Bounds, Float, Node, OsmData, ParseError, Tags};

fn fl(x: f64) -> Float {
    Float::from_bits(x.to_bits())
}

fn envelope(elements: &str) -> String {
    format!(
        "{{\"version\":\"0.6\",\"generator\":\"CGImap\",\"copyright\":\"OpenStreetMap\",\
         \"attribution\":\"http://www.openstreetmap.org/copyright\",\
         \"license\":\"http://opendatacommons.org/licenses/odbl/1-0/\",\
         \"bounds\":{{\"minlat\":41.30365,\"maxlat\":41.30453,\"minlon\":-81.90212,\"maxlon\":-81.90126}},\
         \"elements\":[{}]}}",
        elements
    )
}

const NODE: &str = "{\"type\":\"node\",\"id\":7,\"lat\":41.30407,\"lon\":-81.90171,\
    \"timestamp\":\"2020-01-01T00:00:00Z\",\"version\":3,\"changeset\":99,\"user\":\"mapper\",\
    \"uid\":5,\"tags\":{\"highway\":\"crossing\",\"name\":\"Main\"}}";

const WAY: &str = "{\"type\":\"way\",\"id\":11,\"timestamp\":\"2021-02-02T00:00:00Z\",\
    \"version\":1,\"changeset\":100,\"user\":\"walker\",\"nodes\":[7,8,9,7]}";

const RELATION: &str = "{\"type\":\"relation\",\"id\":13,\"members\":[]}";

#[test]
fn one_node_one_way_one_relation() {
    let text = envelope(&format!("{},{},{}", NODE, WAY, RELATION));
    let data = parse(&text).unwrap();
    assert_eq!(data.nodes.len(), 1);
    assert_eq!(data.ways.len(), 1);
    assert!(!data.is_empty());
    let node = &data.nodes[&7];
    assert_eq!(node.id, 7);
    assert_eq!(node.pos.lat.to_bits(), 41.30407f64.to_bits());
    assert_eq!(node.pos.lon.to_bits(), (-81.90171f64).to_bits());
    assert_eq!(node.timestamp, "2020-01-01T00:00:00Z");
    assert_eq!(node.version, 3);
    assert_eq!(node.changeset, 99);
    assert_eq!(node.user, "mapper");
    assert_eq!(node.tags.len(), 2);
    assert_eq!(node.tags.get("highway").unwrap(), "crossing");
    assert_eq!(node.tags.get("name").unwrap(), "Main");
    let way = &data.ways[&11];
    assert_eq!(way.id, 11);
    assert_eq!(way.timestamp, "2021-02-02T00:00:00Z");
    assert_eq!(way.version, 1);
    assert_eq!(way.changeset, 100);
    assert_eq!(way.user, "walker");
    assert_eq!(way.nodes, vec![7, 8, 9, 7]);
    assert!(way.tags.is_empty());
}

#[test]
fn envelope_is_copied() {
    let data = parse(&envelope("")).unwrap();
    assert!(data.is_empty());
    assert_eq!(data.version, "0.6");
    assert_eq!(data.generator, "CGImap");
    assert_eq!(data.copyright, "OpenStreetMap");
    assert_eq!(data.attribution, "http://www.openstreetmap.org/copyright");
    assert_eq!(data.license, "http://opendatacommons.org/licenses/odbl/1-0/");
    assert_eq!(data.bounds.min.lat.to_bits(), 41.30365f64.to_bits());
    assert_eq!(data.bounds.max.lat.to_bits(), 41.30453f64.to_bits());
    assert_eq!(data.bounds.min.lon.to_bits(), (-81.90212f64).to_bits());
    assert_eq!(data.bounds.max.lon.to_bits(), (-81.90126f64).to_bits());
}

#[test]
fn declared_bounds_are_not_recomputed() {
    let text = envelope(NODE);
    let data = parse(&text).unwrap();
    assert_eq!(data.bounds.min.lat.to_bits(), 41.30365f64.to_bits());
    assert_eq!(data.bounds.max.lon.to_bits(), (-81.90126f64).to_bits());
}

#[test]
fn unknown_element_type_is_refused() {
    let text = envelope("{\"type\":\"intersection\",\"id\":1}");
    assert_eq!(parse(&text).err(), Some(ParseError::UnknownElementType));
}

#[test]
fn node_without_lat_is_refused() {
    let text = envelope(
        "{\"type\":\"node\",\"id\":7,\"lon\":-81.90171,\"timestamp\":\"t\",\"version\":3,\
         \"changeset\":99,\"user\":\"mapper\"}",
    );
    assert_eq!(parse(&text).err(), Some(ParseError::SchemaViolation));
}

#[test]
fn element_without_type_is_refused() {
    assert_eq!(parse(&envelope("{\"id\":1}")).err(), Some(ParseError::SchemaViolation));
    assert_eq!(parse(&envelope("{\"type\":5}")).err(), Some(ParseError::SchemaViolation));
    assert_eq!(parse(&envelope("17")).err(), Some(ParseError::SchemaViolation));
}

#[test]
fn text_that_is_no_json_is_refused() {
    assert_eq!(parse("").err(), Some(ParseError::Malformed));
    assert_eq!(parse("{\"version\":").err(), Some(ParseError::Malformed));
    assert_eq!(parse("{} trailing").err(), Some(ParseError::Malformed));
}

#[test]
fn envelope_schema_is_held() {
    assert_eq!(parse("{}").err(), Some(ParseError::SchemaViolation));
    assert_eq!(parse("[]").err(), Some(ParseError::SchemaViolation));
    assert_eq!(parse("null").err(), Some(ParseError::SchemaViolation));
    let no_bounds = "{\"version\":\"0.6\",\"generator\":\"g\",\"copyright\":\"c\",\
        \"attribution\":\"a\",\"license\":\"l\",\"elements\":[]}";
    assert_eq!(parse(no_bounds).err(), Some(ParseError::SchemaViolation));
    let version_is_number = "{\"version\":0.6,\"generator\":\"g\",\"copyright\":\"c\",\
        \"attribution\":\"a\",\"license\":\"l\",\
        \"bounds\":{\"minlat\":1,\"maxlat\":2,\"minlon\":3,\"maxlon\":4},\"elements\":[]}";
    assert_eq!(parse(version_is_number).err(), Some(ParseError::SchemaViolation));
    let elements_is_object = "{\"version\":\"0.6\",\"generator\":\"g\",\"copyright\":\"c\",\
        \"attribution\":\"a\",\"license\":\"l\",\
        \"bounds\":{\"minlat\":1,\"maxlat\":2,\"minlon\":3,\"maxlon\":4},\"elements\":{}}";
    assert_eq!(parse(elements_is_object).err(), Some(ParseError::SchemaViolation));
}

#[test]
fn whole_numbers_are_read_as_coordinates() {
    let text = "{\"version\":\"0.6\",\"generator\":\"g\",\"copyright\":\"c\",\
        \"attribution\":\"a\",\"license\":\"l\",\
        \"bounds\":{\"minlat\":1,\"maxlat\":2,\"minlon\":-3,\"maxlon\":4.5},\"elements\":[]}";
    let data = parse(text).unwrap();
    assert_eq!(data.bounds.min.lat.to_bits(), 1f64.to_bits());
    assert_eq!(data.bounds.max.lat.to_bits(), 2f64.to_bits());
    assert_eq!(data.bounds.min.lon.to_bits(), (-3f64).to_bits());
    assert_eq!(data.bounds.max.lon.to_bits(), 4.5f64.to_bits());
}

#[test]
fn later_element_takes_the_place_of_an_earlier_one() {
    let second = "{\"type\":\"node\",\"id\":7,\"lat\":1.5,\"lon\":2.5,\"timestamp\":\"later\",\
        \"version\":4,\"changeset\":100,\"user\":\"other\"}";
    let data = parse(&envelope(&format!("{},{}", NODE, second))).unwrap();
    assert_eq!(data.nodes.len(), 1);
    let node = &data.nodes[&7];
    assert_eq!(node.timestamp, "later");
    assert_eq!(node.pos.lat.to_bits(), 1.5f64.to_bits());
    assert!(node.tags.is_empty());
}

#[test]
fn first_refused_element_decides_the_error() {
    let unknown = "{\"type\":\"intersection\"}";
    let broken = "{\"type\":\"node\",\"id\":7}";
    assert_eq!(
        parse(&envelope(&format!("{},{}", unknown, broken))).err(),
        Some(ParseError::UnknownElementType)
    );
    assert_eq!(
        parse(&envelope(&format!("{},{}", broken, unknown))).err(),
        Some(ParseError::SchemaViolation)
    );
}

#[test]
fn fields_of_the_wrong_kind_are_refused() {
    let cases = [
        "{\"type\":\"node\",\"id\":-7,\"lat\":1,\"lon\":2,\"timestamp\":\"t\",\"version\":3,\"changeset\":9,\"user\":\"u\"}",
        "{\"type\":\"node\",\"id\":7.5,\"lat\":1,\"lon\":2,\"timestamp\":\"t\",\"version\":3,\"changeset\":9,\"user\":\"u\"}",
        "{\"type\":\"node\",\"id\":7,\"lat\":\"1\",\"lon\":2,\"timestamp\":\"t\",\"version\":3,\"changeset\":9,\"user\":\"u\"}",
        "{\"type\":\"node\",\"id\":7,\"lat\":1,\"lon\":2,\"timestamp\":5,\"version\":3,\"changeset\":9,\"user\":\"u\"}",
        "{\"type\":\"node\",\"id\":7,\"lat\":1,\"lon\":2,\"timestamp\":\"t\",\"version\":4294967296,\"changeset\":9,\"user\":\"u\"}",
        "{\"type\":\"node\",\"id\":7,\"lat\":1,\"lon\":2,\"timestamp\":\"t\",\"version\":3,\"changeset\":9,\"user\":\"u\",\"tags\":null}",
        "{\"type\":\"node\",\"id\":7,\"lat\":1,\"lon\":2,\"timestamp\":\"t\",\"version\":3,\"changeset\":9,\"user\":\"u\",\"tags\":{\"k\":1}}",
        "{\"type\":\"way\",\"id\":7,\"timestamp\":\"t\",\"version\":3,\"changeset\":9,\"user\":\"u\"}",
        "{\"type\":\"way\",\"id\":7,\"timestamp\":\"t\",\"version\":3,\"changeset\":9,\"user\":\"u\",\"nodes\":[1,-2]}",
        "{\"type\":\"way\",\"id\":7,\"timestamp\":\"t\",\"version\":3,\"changeset\":9,\"user\":\"u\",\"nodes\":{}}",
    ];
    for case in cases.iter() {
        assert_eq!(parse(&envelope(case)).err(), Some(ParseError::SchemaViolation), "{}", case);
    }
}

#[test]
fn largest_version_is_read() {
    let node = "{\"type\":\"node\",\"id\":18446744073709551615,\"lat\":1,\"lon\":2,\
        \"timestamp\":\"t\",\"version\":4294967295,\"changeset\":9,\"user\":\"u\"}";
    let data = parse(&envelope(node)).unwrap();
    let node = &data.nodes[&u64::MAX];
    assert_eq!(node.version, u32::MAX);
}

#[test]
fn value_written_by_hand_is_decoded() {
    let number = |x: f64| {
        Json::Number(Number { integer: None, value: Some(fl(x)) })
    };
    let text = |s: &str| Json::Text(s.to_string());
    let bounds = Json::Object(vec![
        ("minlat".to_string(), number(1.0)),
        ("maxlat".to_string(), number(2.0)),
        ("minlon".to_string(), number(3.0)),
        ("maxlon".to_string(), number(4.0)),
    ]);
    let relation = Json::Object(vec![("type".to_string(), text("relation"))]);
    let value = Json::Object(vec![
        ("version".to_string(), text("old")),
        ("generator".to_string(), text("g")),
        ("copyright".to_string(), text("c")),
        ("attribution".to_string(), text("a")),
        ("license".to_string(), text("l")),
        ("bounds".to_string(), bounds),
        ("elements".to_string(), Json::Array(vec![relation])),
        ("version".to_string(), text("new")),
    ]);
    let data = OsmData::from_json(value).unwrap();
    assert!(data.is_empty());
    assert_eq!(data.version, "new");
    assert_eq!(data.bounds.max.lon.to_bits(), 4f64.to_bits());
}

#[test]
fn errors_have_words() {
    assert_eq!(ParseError::Malformed.message(), "the text is not JSON");
    assert_eq!(
        ParseError::SchemaViolation.message(),
        "a member is missing or of the wrong kind"
    );
    assert_eq!(ParseError::UnknownElementType.message(), "invalid element type");
}

#[test]
fn envelope_is_assembled() {
    let text = |s: &str| Json::Text(s.to_string());
    let unsigned = |n: u64| Json::Number(Number { integer: Some(n), value: Some(fl(n as f64)) });
    let node = Json::Object(vec![
        ("type".to_string(), text("node")),
        ("id".to_string(), unsigned(3)),
        ("lat".to_string(), unsigned(1)),
        ("lon".to_string(), unsigned(2)),
        ("timestamp".to_string(), text("t")),
        ("version".to_string(), unsigned(1)),
        ("changeset".to_string(), unsigned(4)),
        ("user".to_string(), text("u")),
    ]);
    let raw = RawOsmData {
        version: "0.6".to_string(),
        generator: "g".to_string(),
        copyright: "c".to_string(),
        attribution: "a".to_string(),
        license: "l".to_string(),
        bounds: RawBounds { minlat: fl(1.0), maxlat: fl(2.0), minlon: fl(3.0), maxlon: fl(4.0) },
        elements: vec![node],
    };
    let data = OsmData::try_from(raw).unwrap();
    assert_eq!(data.nodes.len(), 1);
    assert_eq!(data.nodes[&3].changeset, 4);
    assert_eq!(data.bounds.min.lat.to_bits(), 1f64.to_bits());
    assert_eq!(data.bounds.min.lon.to_bits(), 3f64.to_bits());
    assert_eq!(data.bounds.max.lat.to_bits(), 2f64.to_bits());
    assert_eq!(data.bounds.max.lon.to_bits(), 4f64.to_bits());

    let broken = RawOsmData {
        version: String::new(),
        generator: String::new(),
        copyright: String::new(),
        attribution: String::new(),
        license: String::new(),
        bounds: RawBounds::default(),
        elements: vec![Json::Null],
    };
    let refused: Result<OsmData, ParseError> = broken.try_into();
    assert_eq!(refused.err(), Some(ParseError::SchemaViolation));
}

#[test]
fn raw_values_are_reshaped() {
    let bounds = Bounds::from(RawBounds {
        minlat: fl(1.0),
        maxlat: fl(2.0),
        minlon: fl(3.0),
        maxlon: fl(4.0),
    });
    assert_eq!(bounds.min.lat.to_bits(), 1f64.to_bits());
    assert_eq!(bounds.min.lon.to_bits(), 3f64.to_bits());
    assert_eq!(bounds.max.lat.to_bits(), 2f64.to_bits());
    assert_eq!(bounds.max.lon.to_bits(), 4f64.to_bits());
    let mut tags = Tags::new();
    tags.insert("k".to_string(), "v".to_string());
    let node = Node::from(RawNode {
        id: 5,
        lat: fl(1.5),
        lon: fl(-2.5),
        timestamp: "t".to_string(),
        version: 2,
        changeset: 3,
        user: "u".to_string(),
        tags: tags.clone(),
    });
    assert_eq!(node.id, 5);
    assert_eq!(node.pos.lat.to_bits(), 1.5f64.to_bits());
    assert_eq!(node.pos.lon.to_bits(), (-2.5f64).to_bits());
    assert_eq!(node.timestamp, "t");
    assert_eq!(node.version, 2);
    assert_eq!(node.changeset, 3);
    assert_eq!(node.user, "u");
    assert_eq!(node.tags, tags);
}

#[test]
fn json_values_are_read() {
    let value = Json::Object(vec![
        ("a".to_string(), Json::Bool(true)),
        ("b".to_string(), Json::Array(vec![Json::Null])),
        ("a".to_string(), Json::Text("x".to_string())),
    ]);
    assert_eq!(value.get("a").unwrap().as_text().unwrap(), "x");
    assert_eq!(value.get("b").unwrap().as_array().unwrap().len(), 1);
    assert!(value.get("c").is_none());
    assert!(value.get("b").unwrap().get("a").is_none());
    assert_eq!(value.as_object().unwrap().len(), 3);
    assert!(value.as_text().is_none());
    assert!(value.as_u64().is_none());
    assert!(value.as_number().is_none());
    let number = Json::Number(Number { integer: Some(7), value: Some(fl(7.0)) });
    assert_eq!(number.as_u64(), Some(7));
    assert_eq!(number.as_number().unwrap().to_bits(), 7f64.to_bits());
    assert!(number.as_array().is_none());
    assert!(number.as_object().is_none());
}
