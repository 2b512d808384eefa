//! From a text to a data set: the text is read as JSON, the envelope is
//! decoded, and its elements are taken one by one.

use std::collections::HashMap;
use vstd::prelude::*;
use vstd::string::StringExecFns;
use vstd::std_specs::convert::TryFromSpecImpl;
use crate::json::{json_from_text, json_of_text, Json, JsonValue};
use crate::types::raw::{
    envelope_of,
    node_of,
    text_field,
    way_of,
    read_text,
    RawNode,
    RawOsmData,
    RawOsmDataView,
};
use crate::types::{Bounds, Coordinate, Id, Node, NodeView, Nodes, OsmData, OsmDataView, Way, WayView, Ways};

verus! {

/// Why a text is no data set.
#[derive(Clone, Copy, Debug, PartialEq, Eq, Structural)]
pub enum ParseError {
    /// The text is no JSON.
    Malformed,
    /// A member that the schema asks for is missing or holds a value of
    /// another kind.
    SchemaViolation,
    /// The `type` of an element is none of `node`, `way` and `relation`.
    UnknownElementType,
}

impl ParseError {
    /// The error in words.
    pub fn message(&self) -> (r: String)
        ensures
            r@ == match *self {
                ParseError::Malformed => "the text is not JSON"@,
                ParseError::SchemaViolation => "a member is missing or of the wrong kind"@,
                ParseError::UnknownElementType => "invalid element type"@,
            },
    {
        match self {
            ParseError::Malformed => String::from_str("the text is not JSON"),
            ParseError::SchemaViolation => String::from_str(
                "a member is missing or of the wrong kind",
            ),
            ParseError::UnknownElementType => String::from_str("invalid element type"),
        }
    }
}

/// An element of an envelope. A relation is told apart and then left out.
#[derive(Debug)]
pub enum Element {
    Node(RawNode),
    Way(Way),
    Relation,
}

/// An element as a mathematical value.
pub enum ElementView {
    Node(NodeView),
    Way(WayView),
    Relation,
}

impl View for Element {
    type V = ElementView;

    open spec fn view(&self) -> ElementView {
        match self {
            Element::Node(n) => ElementView::Node(n@),
            Element::Way(w) => ElementView::Way(w@),
            Element::Relation => ElementView::Relation,
        }
    }
}

/// The element that a value stands for. Its member `type` has to hold a
/// string; `node` and `way` ask for their schema, `relation` for nothing,
/// and any other string is refused.
pub open spec fn element_of(v: JsonValue) -> Result<ElementView, ParseError> {
    match text_field(v, "type"@) {
        None => Err(ParseError::SchemaViolation),
        Some(kind) => if kind == "node"@ {
            match node_of(v) {
                Some(n) => Ok(ElementView::Node(n)),
                None => Err(ParseError::SchemaViolation),
            }
        } else if kind == "way"@ {
            match way_of(v) {
                Some(w) => Ok(ElementView::Way(w)),
                None => Err(ParseError::SchemaViolation),
            }
        } else if kind == "relation"@ {
            Ok(ElementView::Relation)
        } else {
            Err(ParseError::UnknownElementType)
        },
    }
}

/// The nodes and the ways of a data set.
pub struct Collected {
    pub nodes: Map<Id, NodeView>,
    pub ways: Map<Id, WayView>,
}

/// The nodes and ways of the first `n` elements, taken in order: a node or
/// a way takes the place of an earlier one of its identity, a relation adds
/// nothing, and the first element that is refused ends it.
pub open spec fn collect(elements: Seq<JsonValue>, n: nat) -> Result<Collected, ParseError>
    decreases n,
{
    if n == 0 {
        Ok(Collected { nodes: Map::empty(), ways: Map::empty() })
    } else {
        match collect(elements, (n - 1) as nat) {
            Err(e) => Err(e),
            Ok(c) => match element_of(elements[n - 1]) {
                Err(e) => Err(e),
                Ok(ElementView::Node(node)) => Ok(
                    Collected { nodes: c.nodes.insert(node.id, node), ways: c.ways },
                ),
                Ok(ElementView::Way(way)) => Ok(
                    Collected { nodes: c.nodes, ways: c.ways.insert(way.id, way) },
                ),
                Ok(ElementView::Relation) => Ok(c),
            },
        }
    }
}

/// The data set of an envelope: what the envelope says of itself, its
/// rectangle as it stands, and the nodes and ways of its elements.
pub open spec fn assemble(raw: RawOsmDataView) -> Result<OsmDataView, ParseError> {
    match collect(raw.elements, raw.elements.len()) {
        Err(e) => Err(e),
        Ok(c) => Ok(
            OsmDataView {
                version: raw.version,
                generator: raw.generator,
                copyright: raw.copyright,
                attribution: raw.attribution,
                license: raw.license,
                bounds: Bounds {
                    min: Coordinate { lat: raw.bounds.minlat, lon: raw.bounds.minlon },
                    max: Coordinate { lat: raw.bounds.maxlat, lon: raw.bounds.maxlon },
                },
                nodes: c.nodes,
                ways: c.ways,
            },
        ),
    }
}

/// The data set that a JSON value stands for.
pub open spec fn data_of(v: JsonValue) -> Result<OsmDataView, ParseError> {
    match envelope_of(v) {
        None => Err(ParseError::SchemaViolation),
        Some(raw) => assemble(raw),
    }
}

/// The data set that a text stands for.
pub open spec fn parsed(text: Seq<char>) -> Result<OsmDataView, ParseError> {
    match json_of_text(text) {
        None => Err(ParseError::Malformed),
        Some(v) => data_of(v),
    }
}

/// A result with its data set as a mathematical value.
pub open spec fn outcome(r: Result<OsmData, ParseError>) -> Result<OsmDataView, ParseError> {
    match r {
        Ok(data) => Ok(data@),
        Err(e) => Err(e),
    }
}

/// Once an element is refused, the elements after it change nothing.
proof fn lemma_refusal_stays(elements: Seq<JsonValue>, at: nat, n: nat)
    requires
        at <= n,
        collect(elements, at) is Err,
    ensures
        collect(elements, n) == collect(elements, at),
    decreases n,
{
    if at < n {
        lemma_refusal_stays(elements, at, (n - 1) as nat);
    }
}

/// The element that a value stands for.
pub fn classify(j: &Json) -> (r: Result<Element, ParseError>)
    ensures
        match r {
            Ok(e) => element_of(j@) == Ok::<ElementView, ParseError>(e@),
            Err(e) => element_of(j@) == Err::<ElementView, ParseError>(e),
        },
{
    match read_text(j, "type") {
        None => Err(ParseError::SchemaViolation),
        Some(kind) => {
            if kind == String::from_str("node") {
                match RawNode::decode(j) {
                    Some(n) => Ok(Element::Node(n)),
                    None => Err(ParseError::SchemaViolation),
                }
            } else if kind == String::from_str("way") {
                match Way::decode(j) {
                    Some(w) => Ok(Element::Way(w)),
                    None => Err(ParseError::SchemaViolation),
                }
            } else if kind == String::from_str("relation") {
                Ok(Element::Relation)
            } else {
                Err(ParseError::UnknownElementType)
            }
        },
    }
}

impl TryFrom<RawOsmData> for OsmData {
    type Error = ParseError;

    /// The data set of an envelope, or the error of the first element that
    /// is refused.
    fn try_from(raw: RawOsmData) -> (r: Result<OsmData, ParseError>)
        ensures
            outcome(r) == assemble(raw@),
    {
        broadcast use vstd::std_specs::hash::group_hash_axioms;

        let mut nodes: Nodes = HashMap::new();
        let mut ways: Ways = HashMap::new();
        let ghost all = raw@.elements;
        let mut i: usize = 0;
        proof {
            assert(nodes@.map_values(|n: Node| n@) =~= Map::<Id, NodeView>::empty());
            assert(ways@.map_values(|w: Way| w@) =~= Map::<Id, WayView>::empty());
        }
        while i < raw.elements.len()
            invariant
                i <= raw.elements@.len(),
                all == raw.elements@.map_values(|j: Json| j@),
                collect(all, i as nat) == Ok::<Collected, ParseError>(
                    Collected {
                        nodes: nodes@.map_values(|n: Node| n@),
                        ways: ways@.map_values(|w: Way| w@),
                    },
                ),
            decreases raw.elements@.len() - i,
        {
            let ghost before_nodes = nodes@;
            let ghost before_ways = ways@;
            assert(all[i as int] == raw.elements@[i as int]@);
            match classify(&raw.elements[i]) {
                Err(e) => {
                    proof {
                        assert(collect(all, (i + 1) as nat) == Err::<Collected, ParseError>(e));
                        lemma_refusal_stays(all, (i + 1) as nat, all.len());
                    }
                    return Err(e);
                },
                Ok(Element::Node(n)) => {
                    let id: Id = n.id;
                    let node: Node = Node::from(n);
                    nodes.insert(id, node);
                    proof {
                        assert(nodes@.map_values(|n: Node| n@) =~= before_nodes.map_values(
                            |n: Node| n@,
                        ).insert(id, node@));
                    }
                },
                Ok(Element::Way(w)) => {
                    let id: Id = w.id;
                    let ghost way = w;
                    ways.insert(id, w);
                    proof {
                        assert(ways@.map_values(|w: Way| w@) =~= before_ways.map_values(
                            |w: Way| w@,
                        ).insert(id, way@));
                    }
                },
                Ok(Element::Relation) => {},
            }
            i = i + 1;
        }
        Ok(
            OsmData {
                version: raw.version,
                generator: raw.generator,
                copyright: raw.copyright,
                attribution: raw.attribution,
                license: raw.license,
                bounds: Bounds::from(raw.bounds),
                nodes,
                ways,
            },
        )
    }

}

impl TryFromSpecImpl<RawOsmData> for OsmData {
    /// What `try_from` returns is stated of its view, in its own contract.
    open spec fn obeys_try_from_spec() -> bool {
        false
    }

    open spec fn try_from_spec(raw: RawOsmData) -> Result<OsmData, ParseError> {
        arbitrary()
    }
}

impl OsmData {
    /// The data set that a JSON value stands for.
    pub fn from_json(j: Json) -> (r: Result<OsmData, ParseError>)
        ensures
            outcome(r) == data_of(j@),
    {
        match RawOsmData::decode(j) {
            None => Err(ParseError::SchemaViolation),
            Some(raw) => OsmData::try_from(raw),
        }
    }
}

/// The data set that a text stands for. The text has to be JSON, its value
/// has to meet the schema of an envelope, and each element has to be a node,
/// a way or a relation; relations are left out.
pub fn parse(json_string: &str) -> (r: Result<OsmData, ParseError>)
    ensures
        outcome(r) == parsed(json_string@),
{
    match json_from_text(json_string) {
        Err(_) => Err(ParseError::Malformed),
        Ok(j) => OsmData::from_json(j),
    }
}

} // verus!
